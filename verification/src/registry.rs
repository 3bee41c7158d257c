//! The registry of sessions, and the operations a host calls on it.
//! An operation on an identifier that the registry does not know
//! changes nothing and answers with an empty value.

use vstd::prelude::*;
use crate::facet::{Facet, MatchType, facet_views, policy_of};
use crate::record::record_views;
use crate::session::{FilteredLogResult, SessionView, StructuredLoggingSession, is_sorted_page};
use crate::sort::{SortingState, key_views};
use crate::text::same_text;

verus! {

/// Why an operation on the registry found nothing to work on.
#[derive(Clone, Copy, Debug, PartialEq, Eq, Structural)]
pub enum SessionError {
    /// The registry knows no session by that identifier.
    SessionNotFound,
}

/// One session under its identifier.
#[derive(Debug)]
pub struct SessionEntry {
    pub id: String,
    pub session: StructuredLoggingSession,
}

/// All sessions, each under an identifier of its own.
#[derive(Debug)]
pub struct SessionRegistry {
    pub entries: Vec<SessionEntry>,
}

impl View for SessionRegistry {
    type V = Map<Seq<char>, SessionView>;

    /// The registry as a map from identifiers to sessions.
    open spec fn view(&self) -> Map<Seq<char>, SessionView> {
        Map::new(
            |id: Seq<char>| self.knows(id),
            |id: Seq<char>| self.entries@[self.slot(id)].session@,
        )
    }
}

/// Trusted: `uuid::Uuid::new_v4` and its `to_string`. The identifier
/// is drawn at random, so nothing is claimed of it.
#[verifier::external_body]
fn fresh_session_id() -> String {
    uuid::Uuid::new_v4().to_string()
}

impl SessionRegistry {
    /// No two entries share an identifier, and every session is well
    /// formed.
    pub open spec fn well_formed(&self) -> bool {
        &&& forall|a: int, b: int|
            0 <= a < b < self.entries@.len() ==> (#[trigger] self.entries@[a]).id@
                != (#[trigger] self.entries@[b]).id@
        &&& forall|k: int|
            0 <= k < self.entries@.len() ==> (#[trigger] self.entries@[k]).session.well_formed()
    }

    /// Entry `k` is the one under `id`.
    pub open spec fn holds(&self, id: Seq<char>, k: int) -> bool {
        0 <= k < self.entries@.len() && self.entries@[k].id@ == id
    }

    /// Some entry stands under `id`.
    pub open spec fn knows(&self, id: Seq<char>) -> bool {
        exists|k: int| self.holds(id, k)
    }

    /// A place that `id` stands at.
    pub open spec fn slot(&self, id: Seq<char>) -> int {
        choose|k: int| self.holds(id, k)
    }

    /// In a well-formed registry the session under an identifier is
    /// the one at the place where the identifier stands.
    pub proof fn lemma_view_at(&self, id: Seq<char>, k: int)
        requires
            self.well_formed(),
            self.holds(id, k),
        ensures
            self@.contains_key(id),
            self@[id] == self.entries@[k].session@,
    {
        let c = self.slot(id);
        assert(self.holds(id, c));
        if c < k {
            assert(self.entries@[c].id@ != self.entries@[k].id@);
        } else if k < c {
            assert(self.entries@[k].id@ != self.entries@[c].id@);
        }
    }

    /// A registry that differs from this one only in the session at
    /// place `k` maps the identifier there to that session, and every
    /// other identifier as before.
    pub proof fn lemma_view_after_touch(&self, after: &SessionRegistry, id: Seq<char>, k: int)
        requires
            self.well_formed(),
            after.well_formed(),
            self.touches_only(after, id),
            self.holds(id, k),
        ensures
            after@ == self@.insert(id, after.entries@[k].session@),
    {
        let goal = self@.insert(id, after.entries@[k].session@);
        assert(after.entries@[k].id == self.entries@[k].id);
        assert(after.holds(id, k));
        after.lemma_view_at(id, k);
        assert forall|other: Seq<char>| after@.contains_key(other) == goal.contains_key(other) by {
            if after.knows(other) {
                let j = after.slot(other);
                assert(after.entries@[j].id == self.entries@[j].id);
                assert(self.holds(other, j));
            }
            if self.knows(other) {
                let j = self.slot(other);
                assert(after.entries@[j].id == self.entries@[j].id);
                assert(after.holds(other, j));
            }
        }
        assert forall|other: Seq<char>| after@.contains_key(other) implies after@[other]
            == goal[other] by {
            if other != id {
                let j = after.slot(other);
                assert(after.entries@[j].id == self.entries@[j].id);
                assert(self.holds(other, j));
                assert(after.entries@[j] == self.entries@[j]);
                after.lemma_view_at(other, j);
                self.lemma_view_at(other, j);
            }
        }
        assert(after@ =~= goal);
    }

    /// A registry that differs from this one at most under an
    /// identifier that this one does not know maps as this one does.
    pub proof fn lemma_view_untouched(&self, after: &SessionRegistry, id: Seq<char>)
        requires
            self.well_formed(),
            after.well_formed(),
            self.touches_only(after, id),
            !self.knows(id),
        ensures
            after@ == self@,
    {
        assert forall|other: Seq<char>| after@.contains_key(other) == self@.contains_key(other) by {
            if after.knows(other) {
                let j = after.slot(other);
                assert(after.entries@[j].id == self.entries@[j].id);
                assert(self.holds(other, j));
            }
            if self.knows(other) {
                let j = self.slot(other);
                assert(after.entries@[j].id == self.entries@[j].id);
                assert(after.holds(other, j));
            }
        }
        assert forall|other: Seq<char>| after@.contains_key(other) implies after@[other]
            == self@[other] by {
            let j = after.slot(other);
            assert(after.entries@[j].id == self.entries@[j].id);
            assert(self.holds(other, j));
            assert(!self.holds(id, j));
            assert(after.entries@[j] == self.entries@[j]);
            after.lemma_view_at(other, j);
            self.lemma_view_at(other, j);
        }
        assert(after@ =~= self@);
    }

    /// `after` has the same identifiers in the same places, and the
    /// same session in every place but the one under `id`.
    pub open spec fn touches_only(&self, after: &SessionRegistry, id: Seq<char>) -> bool {
        &&& after.entries@.len() == self.entries@.len()
        &&& forall|k: int|
            0 <= k < self.entries@.len() ==> (#[trigger] after.entries@[k]).id == self.entries@[k].id
        &&& forall|k: int|
            0 <= k < self.entries@.len() && self.entries@[k].id@ != id ==> (#[trigger] after.entries@[k])
                == self.entries@[k]
    }

    /// A registry without sessions.
    pub fn new() -> (r: SessionRegistry)
        ensures
            r.well_formed(),
            r.entries@.len() == 0,
    {
        SessionRegistry { entries: Vec::new() }
    }

    /// The place of the session under `id`.
    pub fn locate(&self, id: &str) -> (r: Result<usize, SessionError>)
        ensures
            match r {
                Ok(k) => self.holds(id@, k as int),
                Err(e) => e == SessionError::SessionNotFound && !self@.contains_key(id@),
            },
    {
        let mut i: usize = 0;
        while i < self.entries.len()
            invariant
                i <= self.entries@.len(),
                forall|j: int| 0 <= j < i ==> !self.holds(id@, j),
            decreases self.entries@.len() - i,
        {
            if same_text(self.entries[i].id.as_str(), id) {
                return Ok(i);
            }
            i += 1;
        }
        Err(SessionError::SessionNotFound)
    }

    /// A registry with one more entry, under an identifier that this
    /// one does not know, maps that identifier to the new session and
    /// every other identifier as before.
    pub proof fn lemma_view_after_push(&self, after: &SessionRegistry, id: Seq<char>)
        requires
            self.well_formed(),
            after.well_formed(),
            !self.knows(id),
            after.entries@.len() == self.entries@.len() + 1,
            after.entries@.last().id@ == id,
            forall|j: int| 0 <= j < self.entries@.len() ==> after.entries@[j] == self.entries@[j],
        ensures
            after@ == self@.insert(id, after.entries@.last().session@),
    {
        let n = self.entries@.len() as int;
        let goal = self@.insert(id, after.entries@[n].session@);
        assert(after.holds(id, n));
        after.lemma_view_at(id, n);
        assert forall|other: Seq<char>| after@.contains_key(other) == goal.contains_key(other) by {
            if after.knows(other) && other != id {
                let j = after.slot(other);
                assert(after.entries@[j] == self.entries@[j]);
                assert(self.holds(other, j));
            }
            if self.knows(other) {
                let j = self.slot(other);
                assert(after.entries@[j] == self.entries@[j]);
                assert(after.holds(other, j));
            }
        }
        assert forall|other: Seq<char>| after@.contains_key(other) implies after@[other]
            == goal[other] by {
            if other != id {
                let j = after.slot(other);
                assert(after.entries@[j] == self.entries@[j]);
                assert(self.holds(other, j));
                after.lemma_view_at(other, j);
                self.lemma_view_at(other, j);
            }
        }
        assert(after@ =~= goal);
    }

    /// Puts `session` under `id`, in place of the session that stood
    /// there if there was one, and returns its place.
    pub fn install(&mut self, id: String, session: StructuredLoggingSession) -> (k: usize)
        requires
            old(self).well_formed(),
            session.well_formed(),
        ensures
            final(self).well_formed(),
            final(self)@ == old(self)@.insert(id@, session@),
            final(self).holds(id@, k as int),
    {
        let ghost before = *self;
        match self.locate(id.as_str()) {
            Ok(k) => {
                self.entries[k].session = session;
                proof {
                    before.lemma_view_after_touch(&*self, id@, k as int);
                }
                k
            },
            Err(_) => {
                let k = self.entries.len();
                proof {
                    assert forall|j: int| 0 <= j < self.entries@.len() implies (
                    #[trigger] self.entries@[j]).id@ != id@ by {
                        assert(!self.holds(id@, j));
                    }
                }
                self.entries.push(SessionEntry { id, session });
                proof {
                    before.lemma_view_after_push(&*self, id@);
                }
                k
            },
        }
    }
}

/// Opens a session over the given raw texts under a new random
/// identifier, and returns the identifier. Should the identifier be
/// in use, the new session takes the place of the one under it.
pub fn start_structured_logging_session(registry: &mut SessionRegistry, initial_data: &Vec<String>) -> (id:
    String)
    requires
        old(registry).well_formed(),
        initial_data@.len() <= u32::MAX,
    ensures
        final(registry).well_formed(),
        final(registry)@ == old(registry)@.insert(
            id@,
            SessionView::empty().with_data(initial_data@),
        ),
{
    let id = fresh_session_id();
    let session = StructuredLoggingSession::new(initial_data);
    registry.install(id.clone(), session);
    id
}

/// Appends the given raw texts to the session under `session_id`
/// and rescans for its facets.
pub fn add_data_to_structured_logging_session(registry: &mut SessionRegistry, session_id: &str, data: &Vec<String>)
    requires
        old(registry).well_formed(),
        old(registry)@.contains_key(session_id@) ==> old(registry)@[session_id@].records.len()
            + data@.len() <= u32::MAX,
    ensures
        final(registry).well_formed(),
        final(registry)@ == if old(registry)@.contains_key(session_id@) {
            old(registry)@.insert(session_id@, old(registry)@[session_id@].with_data(data@))
        } else {
            old(registry)@
        },
{
    let ghost before = *registry;
    match registry.locate(session_id) {
        Ok(k) => {
            proof {
                before.lemma_view_at(session_id@, k as int);
            }
            registry.entries[k].session.append(data);
            proof {
                before.lemma_view_after_touch(&*registry, session_id@, k as int);
            }
        },
        Err(_) => {},
    }
}

/// Adds a facet on `property` to the session under `session_id`,
/// with the policy that `match_type` names.
pub fn add_facet_to_structured_logging_session(
    registry: &mut SessionRegistry,
    session_id: &str,
    property: String,
    match_type: &str,
)
    requires
        old(registry).well_formed(),
    ensures
        final(registry).well_formed(),
        final(registry)@ == if old(registry)@.contains_key(session_id@) {
            old(registry)@.insert(
                session_id@,
                old(registry)@[session_id@].with_facet(property@, policy_of(match_type@)),
            )
        } else {
            old(registry)@
        },
{
    let ghost before = *registry;
    match registry.locate(session_id) {
        Ok(k) => {
            registry.entries[k].session.add_facet(property, MatchType::from_name(match_type));
            proof {
                before.lemma_view_at(session_id@, k as int);
                before.lemma_view_after_touch(&*registry, session_id@, k as int);
            }
        },
        Err(_) => {},
    }
}

/// Sets the policy of the first facet on `property` in the session
/// under `session_id`.
pub fn set_facet_match_type_for_structured_logging_session(
    registry: &mut SessionRegistry,
    session_id: &str,
    property: &str,
    match_type: &str,
)
    requires
        old(registry).well_formed(),
    ensures
        final(registry).well_formed(),
        final(registry)@ == if old(registry)@.contains_key(session_id@) {
            old(registry)@.insert(
                session_id@,
                old(registry)@[session_id@].with_match_type(property@, policy_of(match_type@)),
            )
        } else {
            old(registry)@
        },
{
    let ghost before = *registry;
    match registry.locate(session_id) {
        Ok(k) => {
            registry.entries[k].session.set_match_type(property, MatchType::from_name(match_type));
            proof {
                before.lemma_view_at(session_id@, k as int);
                before.lemma_view_after_touch(&*registry, session_id@, k as int);
            }
        },
        Err(_) => {},
    }
}

/// Removes every facet on `property` from the session under
/// `session_id`.
pub fn remove_facet_from_structured_logging_session(
    registry: &mut SessionRegistry,
    session_id: &str,
    property: &str,
)
    requires
        old(registry).well_formed(),
    ensures
        final(registry).well_formed(),
        final(registry)@ == if old(registry)@.contains_key(session_id@) {
            old(registry)@.insert(
                session_id@,
                old(registry)@[session_id@].without_facet(property@),
            )
        } else {
            old(registry)@
        },
{
    let ghost before = *registry;
    match registry.locate(session_id) {
        Ok(k) => {
            registry.entries[k].session.remove_facet(property);
            proof {
                before.lemma_view_at(session_id@, k as int);
                before.lemma_view_after_touch(&*registry, session_id@, k as int);
            }
        },
        Err(_) => {},
    }
}

/// Sets the selection flag of `value` in the first facet on
/// `property` of the session under `session_id`.
pub fn set_filtered_for_facet_value(
    registry: &mut SessionRegistry,
    session_id: &str,
    property: &str,
    value: &str,
    filtered: bool,
)
    requires
        old(registry).well_formed(),
    ensures
        final(registry).well_formed(),
        final(registry)@ == if old(registry)@.contains_key(session_id@) {
            old(registry)@.insert(
                session_id@,
                old(registry)@[session_id@].with_filtered(property@, value@, filtered),
            )
        } else {
            old(registry)@
        },
{
    let ghost before = *registry;
    match registry.locate(session_id) {
        Ok(k) => {
            registry.entries[k].session.set_filtered(property, value, filtered);
            proof {
                before.lemma_view_at(session_id@, k as int);
                before.lemma_view_after_touch(&*registry, session_id@, k as int);
            }
        },
        Err(_) => {},
    }
}

/// A copy of the catalog of the session under `session_id`; empty
/// where there is no such session.
pub fn get_facets_for_structured_logging_session(registry: &SessionRegistry, session_id: &str) -> (r: Vec<
    Facet,
>)
    requires
        registry.well_formed(),
    ensures
        registry@.contains_key(session_id@) ==> facet_views(r@) == registry@[session_id@].facets,
        !registry@.contains_key(session_id@) ==> r@.len() == 0,
{
    match registry.locate(session_id) {
        Ok(k) => {
            proof {
                registry.lemma_view_at(session_id@, k as int);
            }
            registry.entries[k].session.get_facets()
        },
        Err(_) => Vec::new(),
    }
}

/// Answers one query on the session under `session_id`; an empty
/// page and two zeros where there is no such session.
pub fn get_filtered_data_for_structured_logging_session(
    registry: &SessionRegistry,
    session_id: &str,
    search_query: &str,
    offset: u32,
    limit: u32,
    sorting: &Vec<SortingState>,
) -> (r: FilteredLogResult)
    requires
        registry.well_formed(),
    ensures
        registry@.contains_key(session_id@) ==> {
            let session = registry@[session_id@];
            &&& r.total == session.records.len()
            &&& r.filtered_total == session.filtered(search_query@).len()
            &&& is_sorted_page(
                record_views(r.data@),
                session.filtered(search_query@),
                key_views(sorting@),
                offset as int,
                limit as int,
            )
            &&& offset >= r.filtered_total ==> r.data@.len() == 0
        },
        !registry@.contains_key(session_id@) ==> r.data@.len() == 0 && r.filtered_total == 0
            && r.total == 0,
{
    match registry.locate(session_id) {
        Ok(k) => {
            proof {
                registry.lemma_view_at(session_id@, k as int);
            }
            registry.entries[k].session.get_filtered_data(search_query, offset, limit, sorting)
        },
        Err(_) => FilteredLogResult { data: Vec::new(), filtered_total: 0, total: 0 },
    }
}

} // verus!
