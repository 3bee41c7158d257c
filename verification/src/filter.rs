//! Composing the facets' selections into one set of records, and
//! narrowing it by a free-text search.

use vstd::prelude::*;
use crate::facet::{Facet, FacetView, MatchType, facet_views};
use crate::record::{FieldContent, FieldValue, Record, RecordView, record_views};
use crate::text::{contains, lowercase, occurs_in, same_text, to_lowercase};

verus! {

/// The facet has at least one value selected.
pub open spec fn selects(facet: FacetView) -> bool {
    exists|k: int| 0 <= k < facet.values.len() && (#[trigger] facet.values[k]).filtered
}

/// The record holds, under the facet's property, one of the facet's
/// selected values.
pub open spec fn facet_accepts(facet: FacetView, record: RecordView) -> bool {
    exists|k: int|
        0 <= k < facet.values.len() && (#[trigger] facet.values[k]).filtered && record.text_at(
            facet.property,
        ) == Some(facet.values[k].value)
}

/// The facet's match set: the indices of the records it accepts.
pub open spec fn match_set(facet: FacetView, records: Seq<RecordView>) -> Set<int> {
    Set::new(|i: int| 0 <= i < records.len() && facet_accepts(facet, records[i]))
}

/// The facet's match set has a member.
pub open spec fn matches_some(facet: FacetView, records: Seq<RecordView>) -> bool {
    exists|i: int| 0 <= i < records.len() && facet_accepts(facet, #[trigger] records[i])
}

/// One of the first `upto` facets has a value selected.
pub open spec fn any_filtered(facets: Seq<FacetView>, upto: int) -> bool {
    exists|f: int| 0 <= f < upto && f < facets.len() && selects(#[trigger] facets[f])
}

/// The non-empty match sets of the first `upto` facets, combined in
/// catalog order: the first one seeds the result, and each later one
/// is united with it or intersected with it as its own facet's policy
/// says. `None` where every match set is empty.
pub open spec fn combined(facets: Seq<FacetView>, records: Seq<RecordView>, upto: int) -> Option<
    Set<int>,
>
    decreases upto,
{
    if upto <= 0 {
        None
    } else {
        let before = combined(facets, records, upto - 1);
        let facet = facets[upto - 1];
        if !matches_some(facet, records) {
            before
        } else {
            match before {
                None => Some(match_set(facet, records)),
                Some(acc) => match facet.match_type {
                    MatchType::OR => Some(acc.union(match_set(facet, records))),
                    MatchType::AND => Some(acc.intersect(match_set(facet, records))),
                },
            }
        }
    }
}

/// The indices that pass the facets: all of them where no facet has
/// a value selected, else the combined match sets.
pub open spec fn facet_filtered(facets: Seq<FacetView>, records: Seq<RecordView>) -> Set<int> {
    if !any_filtered(facets, facets.len() as int) {
        Set::new(|i: int| 0 <= i < records.len())
    } else {
        match combined(facets, records, facets.len() as int) {
            Some(s) => s,
            None => Set::empty(),
        }
    }
}

/// A member's value mentions the case-folded `needle`: a string that
/// contains it, or a nested object whose serialized text contains it,
/// case ignored.
pub open spec fn field_mentions(value: FieldContent, needle: Seq<char>) -> bool {
    match value {
        FieldContent::Text(s) => occurs_in(needle, lowercase(s)),
        FieldContent::Nested(s) => occurs_in(needle, lowercase(s)),
        _ => false,
    }
}

/// Some member of the record mentions the case-folded `needle`.
pub open spec fn record_mentions(record: RecordView, needle: Seq<char>) -> bool {
    exists|k: int|
        0 <= k < record.fields.len() && field_mentions((#[trigger] record.fields[k]).value, needle)
}

/// The record passes the search: the query is empty, or the record
/// mentions the query's lower-case form.
pub open spec fn passes_search(record: RecordView, query: Seq<char>) -> bool {
    query.len() == 0 || record_mentions(record, lowercase(query))
}

/// The indices that pass both the facets and the search.
pub open spec fn selected(facets: Seq<FacetView>, records: Seq<RecordView>, query: Seq<char>) -> Set<
    int,
> {
    Set::new(
        |i: int|
            0 <= i < records.len() && facet_filtered(facets, records).contains(i) && passes_search(
                records[i],
                query,
            ),
    )
}

/// The members of `s` below `upto`, in ascending order.
pub open spec fn ascending(s: Set<int>, upto: int) -> Seq<int>
    decreases upto,
{
    if upto <= 0 {
        Seq::empty()
    } else if s.contains(upto - 1) {
        ascending(s, upto - 1).push(upto - 1)
    } else {
        ascending(s, upto - 1)
    }
}

/// A sequence of machine indices as mathematical integers.
pub open spec fn positions(v: Seq<usize>) -> Seq<int> {
    Seq::new(v.len(), |i: int| v[i] as int)
}

/// Whether the facet has a value selected.
pub fn has_selection(facet: &Facet) -> (r: bool)
    ensures
        r == selects(facet@),
{
    let mut k: usize = 0;
    while k < facet.values.len()
        invariant
            k <= facet.values@.len(),
            forall|j: int| 0 <= j < k ==> !(#[trigger] facet@.values[j]).filtered,
        decreases facet.values@.len() - k,
    {
        if facet.values[k].filtered {
            proof {
                assert(facet@.values[k as int].filtered);
            }
            return true;
        }
        k += 1;
    }
    false
}

/// Whether the record holds one of the facet's selected values.
pub fn accepts(facet: &Facet, record: &Record) -> (r: bool)
    ensures
        r == facet_accepts(facet@, record@),
{
    match record.text_of(facet.property.as_str()) {
        Some(s) => {
            let mut k: usize = 0;
            while k < facet.values.len()
                invariant
                    k <= facet.values@.len(),
                    record@.text_at(facet@.property) == Some(s@),
                    forall|j: int|
                        0 <= j < k ==> !((#[trigger] facet@.values[j]).filtered
                            && facet@.values[j].value == s@),
                decreases facet.values@.len() - k,
            {
                if facet.values[k].filtered && same_text(facet.values[k].value.as_str(), s.as_str()) {
                    proof {
                        assert(facet@.values[k as int].filtered);
                    }
                    return true;
                }
                k += 1;
            }
            false
        },
        None => false,
    }
}

/// The facet's match set as one flag per record, and whether any
/// flag is set.
pub fn facet_mask(facet: &Facet, records: &Vec<Record>) -> (r: (Vec<bool>, bool))
    ensures
        r.0@.len() == records@.len(),
        forall|i: int|
            0 <= i < records@.len() ==> r.0@[i] == match_set(facet@, record_views(records@)).contains(
                i,
            ),
        r.1 == matches_some(facet@, record_views(records@)),
{
    let ghost rv = record_views(records@);
    let mut mask: Vec<bool> = Vec::new();
    let mut some = false;
    let mut i: usize = 0;
    while i < records.len()
        invariant
            i <= records@.len(),
            rv == record_views(records@),
            mask@.len() == i,
            forall|j: int| 0 <= j < i ==> mask@[j] == facet_accepts(facet@, #[trigger] rv[j]),
            some == exists|j: int| 0 <= j < i && facet_accepts(facet@, #[trigger] rv[j]),
        decreases records@.len() - i,
    {
        let hit = accepts(facet, &records[i]);
        proof {
            assert(rv[i as int] == records@[i as int]@);
        }
        mask.push(hit);
        if hit {
            some = true;
        }
        i += 1;
    }
    (mask, some)
}

/// The records that pass the facets, as one flag per record.
pub fn matched_indices(facets: &Vec<Facet>, records: &Vec<Record>) -> (r: Vec<bool>)
    ensures
        r@.len() == records@.len(),
        forall|i: int|
            0 <= i < records@.len() ==> r@[i] == facet_filtered(
                facet_views(facets@),
                record_views(records@),
            ).contains(i),
{
    let ghost fv = facet_views(facets@);
    let ghost rv = record_views(records@);
    let n = records.len();
    let mut acc: Vec<bool> = Vec::new();
    let mut seeded = false;
    let mut any = false;
    let mut f: usize = 0;
    while f < facets.len()
        invariant
            f <= facets@.len(),
            n == records@.len(),
            fv == facet_views(facets@),
            rv == record_views(records@),
            any == any_filtered(fv, f as int),
            seeded == combined(fv, rv, f as int).is_some(),
            seeded ==> acc@.len() == n,
            seeded ==> forall|i: int|
                0 <= i < n ==> acc@[i] == combined(fv, rv, f as int).unwrap().contains(i),
        decreases facets@.len() - f,
    {
        let facet = &facets[f];
        proof {
            assert(fv[f as int] == facet@);
        }
        if has_selection(facet) {
            any = true;
        }
        let (mask, some) = facet_mask(facet, records);
        if some {
            if !seeded {
                acc = mask;
                seeded = true;
            } else {
                let either = match facet.match_type {
                    MatchType::OR => true,
                    MatchType::AND => false,
                };
                let mut joined: Vec<bool> = Vec::new();
                let mut i: usize = 0;
                while i < n
                    invariant
                        i <= n,
                        acc@.len() == n,
                        mask@.len() == n,
                        joined@.len() == i,
                        forall|j: int|
                            0 <= j < i ==> joined@[j] == if either {
                                acc@[j] || mask@[j]
                            } else {
                                acc@[j] && mask@[j]
                            },
                    decreases n - i,
                {
                    let flag = if either {
                        acc[i] || mask[i]
                    } else {
                        acc[i] && mask[i]
                    };
                    joined.push(flag);
                    i += 1;
                }
                acc = joined;
            }
        }
        f += 1;
    }
    let mut out: Vec<bool> = Vec::new();
    let mut i: usize = 0;
    while i < n
        invariant
            i <= n,
            n == records@.len(),
            f == facets@.len(),
            fv == facet_views(facets@),
            rv == record_views(records@),
            any == any_filtered(fv, f as int),
            seeded == combined(fv, rv, f as int).is_some(),
            seeded ==> acc@.len() == n,
            seeded ==> forall|i: int|
                0 <= i < n ==> acc@[i] == combined(fv, rv, f as int).unwrap().contains(i),
            out@.len() == i,
            forall|j: int| 0 <= j < i ==> out@[j] == facet_filtered(fv, rv).contains(j),
        decreases n - i,
    {
        let flag = if !any {
            true
        } else if seeded {
            acc[i]
        } else {
            false
        };
        out.push(flag);
        i += 1;
    }
    out
}

/// Whether some member of the record mentions the case-folded
/// `needle`.
pub fn mentions(record: &Record, needle: &str) -> (r: bool)
    ensures
        r == record_mentions(record@, needle@),
{
    let mut k: usize = 0;
    while k < record.fields.len()
        invariant
            k <= record.fields@.len(),
            forall|j: int|
                0 <= j < k ==> !field_mentions((#[trigger] record@.fields[j]).value, needle@),
        decreases record.fields@.len() - k,
    {
        let hit = match &record.fields[k].value {
            FieldValue::Text(s) => contains(to_lowercase(s.as_str()).as_str(), needle),
            FieldValue::Nested(s) => contains(to_lowercase(s.as_str()).as_str(), needle),
            _ => false,
        };
        proof {
            assert(record@.fields[k as int].value == record.fields@[k as int].value@);
        }
        if hit {
            return true;
        }
        k += 1;
    }
    false
}

/// The indices of the records that pass the facets and the search,
/// in the order of the record store.
pub fn filter_records(facets: &Vec<Facet>, records: &Vec<Record>, query: &str) -> (r: Vec<usize>)
    ensures
        positions(r@) == ascending(
            selected(facet_views(facets@), record_views(records@), query@),
            records@.len() as int,
        ),
        forall|k: int| 0 <= k < r@.len() ==> r@[k] < records@.len(),
        r@.len() <= records@.len(),
{
    let ghost fv = facet_views(facets@);
    let ghost rv = record_views(records@);
    let mask = matched_indices(facets, records);
    let search = !query.is_empty();
    let needle = to_lowercase(query);
    let mut out: Vec<usize> = Vec::new();
    let mut i: usize = 0;
    while i < records.len()
        invariant
            i <= records@.len(),
            fv == facet_views(facets@),
            rv == record_views(records@),
            mask@.len() == records@.len(),
            forall|j: int| 0 <= j < records@.len() ==> mask@[j] == facet_filtered(fv, rv).contains(j),
            search == (query@.len() > 0),
            needle@ == lowercase(query@),
            positions(out@) == ascending(selected(fv, rv, query@), i as int),
            forall|k: int| 0 <= k < out@.len() ==> out@[k] < i,
            out@.len() <= i,
        decreases records@.len() - i,
    {
        let ghost before = positions(out@);
        let keep = mask[i] && (!search || mentions(&records[i], needle.as_str()));
        proof {
            assert(rv[i as int] == records@[i as int]@);
            assert(keep == selected(fv, rv, query@).contains(i as int));
        }
        if keep {
            out.push(i);
            proof {
                assert(positions(out@) =~= before.push(i as int));
            }
        }
        i += 1;
    }
    out
}

} // verus!
