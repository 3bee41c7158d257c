//! A session: a record store with its facet catalog, and the
//! operations on it.

use vstd::prelude::*;
use crate::facet::{
    Facet, FacetValueView, FacetView, MatchType, facet_views, find_value, refreshed,
    value_views,
};
use crate::filter::{ascending, filter_records, positions, selected};
use crate::json::read_all;
use crate::page::{apply_offset_and_limit, page};
use crate::record::{Record, RecordView, record_views};
use crate::sort::{SortKey, SortingState, apply_sorting, is_stable_order, key_views, picked};
use crate::text::same_text;

verus! {

/// The records of one session, in the order they came, and its
/// facets, in the order they were added.
#[derive(Debug)]
pub struct StructuredLoggingSession {
    pub data: Vec<Record>,
    pub facets: Vec<Facet>,
}

/// Mathematical model of a [`StructuredLoggingSession`].
pub struct SessionView {
    pub records: Seq<RecordView>,
    pub facets: Seq<FacetView>,
}

impl View for StructuredLoggingSession {
    type V = SessionView;

    open spec fn view(&self) -> SessionView {
        SessionView { records: record_views(self.data@), facets: facet_views(self.facets@) }
    }
}

/// The answer to one query: a page of records, the number of records
/// that passed facets and search, and the number of records stored.
#[derive(Clone, Debug)]
pub struct FilteredLogResult {
    pub data: Vec<Record>,
    pub filtered_total: u32,
    pub total: u32,
}

/// Every facet after a full rescan of `records`.
pub open spec fn refresh_all(facets: Seq<FacetView>, records: Seq<RecordView>) -> Seq<FacetView> {
    Seq::new(facets.len(), |i: int| refreshed(facets[i], records))
}

/// Facet `k` is the first one on `property`.
pub open spec fn is_first_facet(facets: Seq<FacetView>, property: Seq<char>, k: int) -> bool {
    &&& 0 <= k < facets.len()
    &&& facets[k].property == property
    &&& forall|j: int| 0 <= j < k ==> (#[trigger] facets[j]).property != property
}

/// The position of the first facet on `property`.
pub open spec fn first_facet(facets: Seq<FacetView>, property: Seq<char>) -> Option<int> {
    if exists|k: int| is_first_facet(facets, property, k) {
        Some(choose|k: int| is_first_facet(facets, property, k))
    } else {
        None
    }
}

/// Entry `k` is the first one that stands for `value`.
pub open spec fn is_first_value(values: Seq<FacetValueView>, value: Seq<char>, k: int) -> bool {
    &&& 0 <= k < values.len()
    &&& values[k].value == value
    &&& forall|j: int| 0 <= j < k ==> (#[trigger] values[j]).value != value
}

/// The position of the first entry that stands for `value`.
pub open spec fn first_value(values: Seq<FacetValueView>, value: Seq<char>) -> Option<int> {
    if exists|k: int| is_first_value(values, value, k) {
        Some(choose|k: int| is_first_value(values, value, k))
    } else {
        None
    }
}

/// The first `upto` facets without those on `property`.
pub open spec fn kept(facets: Seq<FacetView>, property: Seq<char>, upto: int) -> Seq<FacetView>
    decreases upto,
{
    if upto <= 0 {
        Seq::empty()
    } else if facets[upto - 1].property == property {
        kept(facets, property, upto - 1)
    } else {
        kept(facets, property, upto - 1).push(facets[upto - 1])
    }
}

impl SessionView {
    /// The session without records and without facets.
    pub open spec fn empty() -> SessionView {
        SessionView { records: Seq::empty(), facets: Seq::empty() }
    }

    /// The session with the records that `texts` give at the end of
    /// its store, rescanned.
    pub open spec fn with_data(self, texts: Seq<String>) -> SessionView {
        SessionView { records: self.records + read_all(texts), ..self }.rescanned()
    }

    /// The session after a rescan of its records by every facet.
    pub open spec fn rescanned(self) -> SessionView {
        SessionView { facets: refresh_all(self.facets, self.records), ..self }
    }

    /// The session with a new, empty facet at the end of the catalog,
    /// rescanned.
    pub open spec fn with_facet(self, property: Seq<char>, match_type: MatchType) -> SessionView {
        SessionView {
            facets: self.facets.push(FacetView { property, match_type, values: Seq::empty() }),
            ..self
        }.rescanned()
    }

    /// The session with the policy of the first facet on `property`
    /// set; unchanged where there is none.
    pub open spec fn with_match_type(self, property: Seq<char>, match_type: MatchType) -> SessionView {
        match first_facet(self.facets, property) {
            Some(k) => SessionView {
                facets: self.facets.update(k, FacetView { match_type, ..self.facets[k] }),
                ..self
            },
            None => self,
        }
    }

    /// The session without the facets on `property`, rescanned.
    pub open spec fn without_facet(self, property: Seq<char>) -> SessionView {
        SessionView { facets: kept(self.facets, property, self.facets.len() as int), ..self }.rescanned()
    }

    /// The session with the selection flag set on the first entry for
    /// `value` of the first facet on `property`; unchanged where
    /// either is missing.
    pub open spec fn with_filtered(self, property: Seq<char>, value: Seq<char>, filtered: bool) -> SessionView {
        match first_facet(self.facets, property) {
            Some(k) => match first_value(self.facets[k].values, value) {
                Some(v) => SessionView {
                    facets: self.facets.update(
                        k,
                        FacetView {
                            values: self.facets[k].values.update(
                                v,
                                FacetValueView { filtered, ..self.facets[k].values[v] },
                            ),
                            ..self.facets[k]
                        },
                    ),
                    ..self
                },
                None => self,
            },
            None => self,
        }
    }

    /// The indices of the records that pass the facets and the
    /// search, in store order.
    pub open spec fn chosen(self, query: Seq<char>) -> Seq<int> {
        ascending(selected(self.facets, self.records, query), self.records.len() as int)
    }

    /// The records that pass the facets and the search, in store
    /// order.
    pub open spec fn filtered(self, query: Seq<char>) -> Seq<RecordView> {
        picked(self.records, self.chosen(query))
    }
}

/// `result` is the page at `offset` and `limit` of a stable sort of
/// `pool` by `keys`.
pub open spec fn is_sorted_page(
    result: Seq<RecordView>,
    pool: Seq<RecordView>,
    keys: Seq<SortKey>,
    offset: int,
    limit: int,
) -> bool {
    exists|order: Seq<int>| #[trigger]
        is_stable_order(pool, keys, order) && result == page(picked(pool, order), offset, limit)
}

/// The position of the first facet on `property`.
pub fn find_facet(facets: &Vec<Facet>, property: &str) -> (r: Option<usize>)
    ensures
        match r {
            Some(k) => first_facet(facet_views(facets@), property@) == Some(k as int) && k
                < facets@.len(),
            None => first_facet(facet_views(facets@), property@) is None,
        },
{
    let ghost fv = facet_views(facets@);
    let mut i: usize = 0;
    while i < facets.len()
        invariant
            i <= facets@.len(),
            fv == facet_views(facets@),
            forall|j: int| 0 <= j < i ==> (#[trigger] fv[j]).property != property@,
        decreases facets@.len() - i,
    {
        if same_text(facets[i].property.as_str(), property) {
            proof {
                assert(fv[i as int].property == property@);
                assert(is_first_facet(fv, property@, i as int));
            }
            return Some(i);
        }
        i += 1;
    }
    None
}

/// Rescans the session's records for every facet: each facet gets an
/// entry for every string found under its property, and each value
/// found gets its count. No entry is removed, no selection changes.
pub fn update_unique_facet_values_for_logging_session(session: &mut StructuredLoggingSession)
    requires
        old(session).well_formed(),
    ensures
        final(session)@ == old(session)@.rescanned(),
        final(session).well_formed(),
{
    let ghost start = facet_views(session.facets@);
    let ghost rv = record_views(session.data@);
    let mut f: usize = 0;
    while f < session.facets.len()
        invariant
            f <= session.facets@.len(),
            session.data == old(session).data,
            rv == record_views(session.data@),
            session.data@.len() <= u32::MAX,
            start == facet_views(old(session).facets@),
            session.facets@.len() == start.len(),
            forall|j: int| 0 <= j < f ==> (#[trigger] session.facets@[j])@ == refreshed(start[j], rv),
            forall|j: int| f <= j < start.len() ==> (#[trigger] session.facets@[j])@ == start[j],
        decreases session.facets@.len() - f,
    {
        session.facets[f].refresh(&session.data);
        f += 1;
    }
    proof {
        assert(facet_views(session.facets@) =~= refresh_all(start, rv));
    }
}

impl StructuredLoggingSession {
    /// The store holds no more records than the totals can count.
    pub open spec fn well_formed(&self) -> bool {
        self.data@.len() <= u32::MAX
    }

    /// A session over the given raw texts, with no facet.
    pub fn new(initial_data: &Vec<String>) -> (r: StructuredLoggingSession)
        requires
            initial_data@.len() <= u32::MAX,
        ensures
            r.well_formed(),
            r@ == SessionView::empty().with_data(initial_data@),
            r@.facets.len() == 0,
            r@.records.len() == initial_data@.len(),
            forall|i: int|
                0 <= i < initial_data@.len() ==> (#[trigger] r@.records[i]).text == initial_data@[i]@,
    {
        let mut session = StructuredLoggingSession { data: Vec::new(), facets: Vec::new() };
        proof {
            assert(session@.records =~= Seq::empty());
            assert(session@.facets =~= Seq::empty());
        }
        session.append(initial_data);
        session
    }

    /// Reads each raw text into a record at the end of the store,
    /// then rescans for every facet.
    pub fn append(&mut self, data: &Vec<String>)
        requires
            old(self).well_formed(),
            old(self).data@.len() + data@.len() <= u32::MAX,
        ensures
            final(self).well_formed(),
            final(self)@ == old(self)@.with_data(data@),
    {
        let ghost base = self.data@;
        let ghost before = record_views(self.data@);
        let mut i: usize = 0;
        while i < data.len()
            invariant
                i <= data@.len(),
                base == old(self).data@,
                base.len() + data@.len() <= u32::MAX,
                self.facets == old(self).facets,
                self.data@.len() == base.len() + i,
                forall|j: int| 0 <= j < base.len() ==> (#[trigger] self.data@[j]) == base[j],
                forall|j: int|
                    0 <= j < i ==> (#[trigger] self.data@[base.len() + j])@ == read_all(data@)[j],
            decreases data@.len() - i,
        {
            self.data.push(Record::parse(data[i].as_str()));
            i += 1;
        }
        proof {
            assert forall|j: int| 0 <= j < self.data@.len() implies record_views(self.data@)[j] == (
            before + read_all(data@))[j] by {
                if j >= base.len() {
                    assert(self.data@[base.len() + (j - base.len())]@ == read_all(data@)[j - base.len()]);
                }
            }
            assert(record_views(self.data@) =~= before + read_all(data@));
        }
        update_unique_facet_values_for_logging_session(self);
    }

    /// Adds an empty facet on `property` at the end of the catalog,
    /// then rescans for every facet.
    pub fn add_facet(&mut self, property: String, match_type: MatchType)
        requires
            old(self).well_formed(),
        ensures
            final(self).well_formed(),
            final(self)@ == old(self)@.with_facet(property@, match_type),
    {
        let ghost before = facet_views(self.facets@);
        self.facets.push(Facet::new(property, match_type));
        proof {
            assert(facet_views(self.facets@) =~= before.push(
                FacetView { property: property@, match_type, values: Seq::empty() },
            ));
        }
        update_unique_facet_values_for_logging_session(self);
    }

    /// Sets the policy of the first facet on `property`.
    pub fn set_match_type(&mut self, property: &str, match_type: MatchType)
        requires
            old(self).well_formed(),
        ensures
            final(self).well_formed(),
            final(self)@ == old(self)@.with_match_type(property@, match_type),
    {
        let ghost before = facet_views(self.facets@);
        match find_facet(&self.facets, property) {
            Some(k) => {
                self.facets[k].match_type = match_type;
                proof {
                    assert(facet_views(self.facets@) =~= before.update(
                        k as int,
                        FacetView { match_type, ..before[k as int] },
                    ));
                }
            },
            None => {},
        }
    }

    /// Removes every facet on `property`, then rescans for those
    /// that stay.
    pub fn remove_facet(&mut self, property: &str)
        requires
            old(self).well_formed(),
        ensures
            final(self).well_formed(),
            final(self)@ == old(self)@.without_facet(property@),
    {
        let ghost before = facet_views(self.facets@);
        let mut rest: Vec<Facet> = Vec::new();
        let mut i: usize = 0;
        while i < self.facets.len()
            invariant
                i <= self.facets@.len(),
                self.facets == old(self).facets,
                self.data == old(self).data,
                before == facet_views(self.facets@),
                facet_views(rest@) == kept(before, property@, i as int),
            decreases self.facets@.len() - i,
        {
            let ghost so_far = facet_views(rest@);
            proof {
                assert(before[i as int] == self.facets@[i as int]@);
            }
            if !same_text(self.facets[i].property.as_str(), property) {
                rest.push(self.facets[i].duplicate());
                proof {
                    assert(facet_views(rest@) =~= so_far.push(before[i as int]));
                }
            }
            i += 1;
        }
        self.facets = rest;
        update_unique_facet_values_for_logging_session(self);
    }

    /// Sets the selection flag of the first entry for `value` in the
    /// first facet on `property`.
    pub fn set_filtered(&mut self, property: &str, value: &str, filtered: bool)
        requires
            old(self).well_formed(),
        ensures
            final(self).well_formed(),
            final(self)@ == old(self)@.with_filtered(property@, value@, filtered),
    {
        let ghost before = facet_views(self.facets@);
        match find_facet(&self.facets, property) {
            Some(k) => {
                let ghost values = before[k as int].values;
                proof {
                    assert(values == value_views(self.facets@[k as int].values@));
                }
                match find_value(&self.facets[k].values, value) {
                    Some(v) => {
                        proof {
                            assert forall|j: int| 0 <= j < v implies (#[trigger] values[j]).value
                                != value@ by {
                                assert(values[j] == self.facets@[k as int].values@[j]@);
                            }
                            assert(values[v as int] == self.facets@[k as int].values@[v as int]@);
                            assert(is_first_value(values, value@, v as int));
                        }
                        self.facets[k].values[v].filtered = filtered;
                        proof {
                            assert(value_views(self.facets@[k as int].values@) =~= values.update(
                                v as int,
                                FacetValueView { filtered, ..values[v as int] },
                            ));
                            assert(facet_views(self.facets@) =~= before.update(
                                k as int,
                                FacetView {
                                    values: values.update(
                                        v as int,
                                        FacetValueView { filtered, ..values[v as int] },
                                    ),
                                    ..before[k as int]
                                },
                            ));
                        }
                    },
                    None => {
                        proof {
                            assert forall|j: int| 0 <= j < values.len() implies (#[trigger] values[j]).value
                                != value@ by {
                                assert(values[j] == self.facets@[k as int].values@[j]@);
                            }
                        }
                    },
                }
            },
            None => {},
        }
    }

    /// A copy of the catalog, in order.
    pub fn get_facets(&self) -> (r: Vec<Facet>)
        ensures
            facet_views(r@) == self@.facets,
    {
        let mut out: Vec<Facet> = Vec::new();
        let mut i: usize = 0;
        while i < self.facets.len()
            invariant
                i <= self.facets@.len(),
                out@.len() == i,
                forall|j: int| 0 <= j < i ==> (#[trigger] out@[j])@ == self.facets@[j]@,
            decreases self.facets@.len() - i,
        {
            out.push(self.facets[i].duplicate());
            i += 1;
        }
        proof {
            assert(facet_views(out@) =~= self@.facets);
        }
        out
    }

    /// Answers one query: the records that pass the facets and the
    /// search are sorted stably by `sorting`, and the page at
    /// `offset` and `limit` of that order is returned, with the
    /// number of records that passed and the number stored.
    pub fn get_filtered_data(&self, search_query: &str, offset: u32, limit: u32, sorting: &Vec<SortingState>) -> (r:
        FilteredLogResult)
        requires
            self.well_formed(),
        ensures
            r.total == self@.records.len(),
            r.filtered_total == self@.filtered(search_query@).len(),
            is_sorted_page(
                record_views(r.data@),
                self@.filtered(search_query@),
                key_views(sorting@),
                offset as int,
                limit as int,
            ),
            offset >= r.filtered_total ==> r.data@.len() == 0,
    {
        let ghost rv = record_views(self.data@);
        let chosen = filter_records(&self.facets, &self.data, search_query);
        let order = apply_sorting(&self.data, &chosen, sorting);
        let ghost pool = picked(rv, positions(chosen@));
        let ghost arrangement = positions(order@);
        proof {
            assert(pool == self@.filtered(search_query@));
            assert(is_stable_order(pool, key_views(sorting@), arrangement));
        }
        let (slots, count) = apply_offset_and_limit(&order, offset, limit);
        let mut data: Vec<Record> = Vec::new();
        let mut k: usize = 0;
        while k < slots.len()
            invariant
                k <= slots@.len(),
                rv == record_views(self.data@),
                pool == picked(rv, positions(chosen@)),
                arrangement == positions(order@),
                order@.len() == chosen@.len(),
                forall|j: int| 0 <= j < order@.len() ==> 0 <= #[trigger] arrangement[j] < chosen@.len(),
                forall|j: int| 0 <= j < chosen@.len() ==> chosen@[j] < self.data@.len(),
                slots@ == page(order@, offset as int, limit as int),
                data@.len() == k,
                forall|j: int|
                    0 <= j < k ==> (#[trigger] data@[j])@ == page(
                        picked(pool, arrangement),
                        offset as int,
                        limit as int,
                    )[j],
            decreases slots@.len() - k,
        {
            proof {
                assert(slots@[k as int] == order@[offset + k]);
                assert(arrangement[offset + k] == order@[offset + k] as int);
            }
            let slot = slots[k];
            data.push(self.data[chosen[slot]].duplicate());
            k += 1;
        }
        proof {
            assert(record_views(data@) =~= page(picked(pool, arrangement), offset as int, limit as int));
        }
        FilteredLogResult { data, filtered_total: count, total: self.data.len() as u32 }
    }
}

} // verus!
