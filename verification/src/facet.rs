//! Facets: filter dimensions over one record member, with the
//! distinct values seen under it and how often each occurs.

use vstd::prelude::*;
use crate::record::{Record, RecordView, record_views};
use crate::text::same_text;

verus! {

/// How a facet's match set joins the sets of the facets before it.
#[derive(Clone, Copy, Debug, PartialEq, Eq, Structural)]
pub enum MatchType {
    AND,
    OR,
}

/// The policy that a name stands for: `"AND"` for [`MatchType::AND`],
/// any other name for [`MatchType::OR`].
pub open spec fn policy_of(name: Seq<char>) -> MatchType {
    if name == "AND"@ {
        MatchType::AND
    } else {
        MatchType::OR
    }
}

impl MatchType {
    /// Reads a policy from its name; an unknown name gives
    /// [`MatchType::OR`].
    pub fn from_name(name: &str) -> (r: MatchType)
        ensures
            r == policy_of(name@),
    {
        if same_text(name, "AND") {
            MatchType::AND
        } else {
            MatchType::OR
        }
    }
}

/// One distinct value seen under a facet's property.
#[derive(Clone, Debug)]
pub struct FacetValue {
    pub value: String,
    pub filtered: bool,
    pub total: u32,
}

/// Mathematical model of a [`FacetValue`].
pub struct FacetValueView {
    pub value: Seq<char>,
    pub filtered: bool,
    pub total: nat,
}

impl View for FacetValue {
    type V = FacetValueView;

    open spec fn view(&self) -> FacetValueView {
        FacetValueView { value: self.value@, filtered: self.filtered, total: self.total as nat }
    }
}

/// A filter dimension over the record member named `property`.
#[derive(Clone, Debug)]
pub struct Facet {
    pub property: String,
    pub match_type: MatchType,
    pub values: Vec<FacetValue>,
}

/// Mathematical model of a [`Facet`].
pub struct FacetView {
    pub property: Seq<char>,
    pub match_type: MatchType,
    pub values: Seq<FacetValueView>,
}

/// The models of a sequence of facet values, in order.
pub open spec fn value_views(values: Seq<FacetValue>) -> Seq<FacetValueView> {
    Seq::new(values.len(), |i: int| values[i]@)
}

/// The models of a sequence of facets, in order.
pub open spec fn facet_views(facets: Seq<Facet>) -> Seq<FacetView> {
    Seq::new(facets.len(), |i: int| facets[i]@)
}

impl View for Facet {
    type V = FacetView;

    open spec fn view(&self) -> FacetView {
        FacetView {
            property: self.property@,
            match_type: self.match_type,
            values: value_views(self.values@),
        }
    }
}

/// How many of the first `upto` records hold the string `value`
/// under `property`.
pub open spec fn occurrences(
    records: Seq<RecordView>,
    property: Seq<char>,
    value: Seq<char>,
    upto: int,
) -> nat
    decreases upto,
{
    if upto <= 0 {
        0
    } else {
        let rest = occurrences(records, property, value, upto - 1);
        if records[upto - 1].text_at(property) == Some(value) {
            rest + 1
        } else {
            rest
        }
    }
}

/// Some entry of `values` stands for `value`.
pub open spec fn holds_value(values: Seq<FacetValueView>, value: Seq<char>) -> bool {
    exists|k: int| 0 <= k < values.len() && #[trigger] values[k].value == value
}

/// Entry `k` is the first of `values` that stands for its value.
pub open spec fn is_first(values: Seq<FacetValueView>, k: int) -> bool {
    forall|j: int| 0 <= j < k ==> #[trigger] values[j].value != values[k].value
}

/// `values`, followed by one unselected entry for each string that
/// the first `upto` records hold under `property` and that had no
/// entry yet, in the order in which the records bring them.
pub open spec fn discovered(
    values: Seq<FacetValueView>,
    records: Seq<RecordView>,
    property: Seq<char>,
    upto: int,
) -> Seq<FacetValueView>
    decreases upto,
{
    if upto <= 0 {
        values
    } else {
        let before = discovered(values, records, property, upto - 1);
        match records[upto - 1].text_at(property) {
            Some(v) => if holds_value(before, v) {
                before
            } else {
                before.push(FacetValueView { value: v, filtered: false, total: 0 })
            },
            None => before,
        }
    }
}

/// `values` with the count of each value that occurs in `records`
/// written to the first entry that stands for it. Entries of values
/// that no record holds, and later entries of the same value, stay
/// as they are.
pub open spec fn retotaled(
    values: Seq<FacetValueView>,
    records: Seq<RecordView>,
    property: Seq<char>,
) -> Seq<FacetValueView> {
    Seq::new(
        values.len(),
        |k: int|
            {
                let n = occurrences(records, property, values[k].value, records.len() as int);
                if is_first(values, k) && n > 0 {
                    FacetValueView { total: n, ..values[k] }
                } else {
                    values[k]
                }
            },
    )
}

/// The facet after a full rescan of `records`.
pub open spec fn refreshed(facet: FacetView, records: Seq<RecordView>) -> FacetView {
    FacetView {
        values: retotaled(
            discovered(facet.values, records, facet.property, records.len() as int),
            records,
            facet.property,
        ),
        ..facet
    }
}

/// Discovery keeps every entry it started from in its place.
pub proof fn lemma_discovered_extends(
    values: Seq<FacetValueView>,
    records: Seq<RecordView>,
    property: Seq<char>,
    upto: int,
)
    ensures
        discovered(values, records, property, upto).len() >= values.len(),
        forall|k: int|
            0 <= k < values.len() ==> discovered(values, records, property, upto)[k] == values[k],
    decreases upto,
{
    if upto > 0 {
        lemma_discovered_extends(values, records, property, upto - 1);
    }
}

/// The position of the first entry that stands for `value`.
pub fn find_value(values: &Vec<FacetValue>, value: &str) -> (r: Option<usize>)
    ensures
        match r {
            Some(k) => k < values@.len() && values@[k as int].value@ == value@ && forall|j: int|
                0 <= j < k ==> values@[j].value@ != value@,
            None => forall|j: int| 0 <= j < values@.len() ==> values@[j].value@ != value@,
        },
{
    let mut i: usize = 0;
    while i < values.len()
        invariant
            i <= values@.len(),
            forall|j: int| 0 <= j < i ==> values@[j].value@ != value@,
        decreases values@.len() - i,
    {
        if same_text(values[i].value.as_str(), value) {
            return Some(i);
        }
        i += 1;
    }
    None
}

/// Counts the records that hold the string `value` under `property`.
pub fn count_occurrences(records: &Vec<Record>, property: &str, value: &str) -> (r: u32)
    requires
        records@.len() <= u32::MAX,
    ensures
        r == occurrences(record_views(records@), property@, value@, records@.len() as int),
{
    let mut count: u32 = 0;
    let mut i: usize = 0;
    while i < records.len()
        invariant
            i <= records@.len(),
            records@.len() <= u32::MAX,
            count <= i,
            count == occurrences(record_views(records@), property@, value@, i as int),
        decreases records@.len() - i,
    {
        let hit = match records[i].text_of(property) {
            Some(s) => same_text(s.as_str(), value),
            None => false,
        };
        if hit {
            count += 1;
        }
        i += 1;
    }
    count
}

impl Facet {
    /// A facet on `property` that has seen no value yet.
    pub fn new(property: String, match_type: MatchType) -> (r: Facet)
        ensures
            r@ == (FacetView { property: property@, match_type, values: Seq::empty() }),
    {
        let r = Facet { property, match_type, values: Vec::new() };
        proof {
            assert(r@.values =~= Seq::empty());
        }
        r
    }

    /// A copy of this facet.
    pub fn duplicate(&self) -> (r: Facet)
        ensures
            r@ == self@,
    {
        let mut values: Vec<FacetValue> = Vec::new();
        let mut i: usize = 0;
        while i < self.values.len()
            invariant
                i <= self.values@.len(),
                values@.len() == i,
                forall|k: int| 0 <= k < i ==> values@[k]@ == self.values@[k]@,
            decreases self.values@.len() - i,
        {
            let v = &self.values[i];
            values.push(FacetValue { value: v.value.clone(), filtered: v.filtered, total: v.total });
            i += 1;
        }
        let r = Facet { property: self.property.clone(), match_type: self.match_type, values };
        proof {
            assert(r@.values =~= self@.values);
        }
        r
    }

    /// Rescans `records`: every string found under the property gets
    /// an entry if it had none, and the first entry of each value
    /// found gets its count. Nothing is removed, and no selection
    /// changes.
    pub fn refresh(&mut self, records: &Vec<Record>)
        requires
            records@.len() <= u32::MAX,
        ensures
            final(self)@ == refreshed(old(self)@, record_views(records@)),
    {
        let ghost start = self@;
        let ghost rv = record_views(records@);
        let mut i: usize = 0;
        while i < records.len()
            invariant
                i <= records@.len(),
                rv == record_views(records@),
                self.property == old(self).property,
                self.match_type == old(self).match_type,
                value_views(self.values@) == discovered(
                    start.values,
                    rv,
                    start.property,
                    i as int,
                ),
                start == old(self)@,
            decreases records@.len() - i,
        {
            let ghost before = value_views(self.values@);
            match records[i].text_of(self.property.as_str()) {
                Some(s) => {
                    let found = find_value(&self.values, s.as_str());
                    if found.is_none() {
                        self.values.push(FacetValue { value: s.clone(), filtered: false, total: 0 });
                        proof {
                            assert(!holds_value(before, s@));
                            assert(value_views(self.values@) =~= before.push(
                                FacetValueView { value: s@, filtered: false, total: 0 },
                            ));
                        }
                    } else {
                        proof {
                            assert(before[found.unwrap() as int].value == s@);
                            assert(holds_value(before, s@));
                        }
                    }
                },
                None => {},
            }
            i += 1;
        }
        let ghost found_all = value_views(self.values@);
        let mut k: usize = 0;
        while k < self.values.len()
            invariant
                k <= self.values@.len(),
                records@.len() <= u32::MAX,
                rv == record_views(records@),
                self.property == old(self).property,
                self.match_type == old(self).match_type,
                start == old(self)@,
                found_all == discovered(start.values, rv, start.property, records@.len() as int),
                self.values@.len() == found_all.len(),
                forall|j: int|
                    0 <= j < k ==> (#[trigger] self.values@[j])@ == retotaled(
                        found_all,
                        rv,
                        start.property,
                    )[j],
                forall|j: int|
                    k <= j < found_all.len() ==> (#[trigger] self.values@[j])@ == found_all[j],
                forall|j: int|
                    0 <= j < found_all.len() ==> (#[trigger] self.values@[j]).value@
                        == found_all[j].value,
            decreases self.values@.len() - k,
        {
            let first = find_value(&self.values, self.values[k].value.as_str());
            let leads = match first {
                Some(p) => p == k,
                None => false,
            };
            proof {
                if leads {
                    assert forall|j: int| 0 <= j < k implies #[trigger] found_all[j].value
                        != found_all[k as int].value by {
                        assert(self.values@[j].value@ == found_all[j].value);
                    }
                } else {
                    let p = first.unwrap() as int;
                    assert(self.values@[p].value@ == found_all[p].value);
                    assert(p < k);
                    assert(!is_first(found_all, k as int));
                }
            }
            if leads {
                let n = count_occurrences(records, self.property.as_str(), self.values[k].value.as_str());
                if n > 0 {
                    self.values[k].total = n;
                }
            }
            k += 1;
        }
        proof {
            assert(value_views(self.values@) =~= retotaled(found_all, rv, start.property));
        }
    }
}

} // verus!
