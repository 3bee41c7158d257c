//! Laws that relate the engine's operations to each other.

use vstd::prelude::*;
use crate::facet::{FacetValueView, FacetView, MatchType, discovered, lemma_discovered_extends, occurrences, refreshed};
use crate::filter::{
    any_filtered, combined, facet_accepts, facet_filtered, match_set, matches_some, selects,
};
use crate::json::{json_members, read, read_all};
use crate::page::page;
use crate::record::RecordView;
use crate::session::{SessionView, is_sorted_page};
use crate::sort::{SortKey, Verdict, is_stable_order, lemma_verdict_opposite, picked, verdict};

verus! {

/// Record `i` lies in the match set of facet `f`.
pub open spec fn in_match_set(facets: Seq<FacetView>, records: Seq<RecordView>, f: int, i: int) -> bool {
    match_set(facets[f], records).contains(i)
}

/// Facet `f` has a non-empty match set.
pub open spec fn is_active(facets: Seq<FacetView>, records: Seq<RecordView>, f: int) -> bool {
    matches_some(facets[f], records)
}

proof fn lemma_member_means_active(facets: Seq<FacetView>, records: Seq<RecordView>, f: int, i: int)
    requires
        in_match_set(facets, records, f, i),
    ensures
        is_active(facets, records, f),
        selects(facets[f]),
{
    assert(facet_accepts(facets[f], records[i]));
    let k = choose|k: int|
        0 <= k < facets[f].values.len() && (#[trigger] facets[f].values[k]).filtered && records[i].text_at(
            facets[f].property,
        ) == Some(facets[f].values[k].value);
    assert(facets[f].values[k].filtered);
}

proof fn lemma_active_means_selected(facets: Seq<FacetView>, records: Seq<RecordView>, f: int)
    requires
        is_active(facets, records, f),
    ensures
        selects(facets[f]),
{
    let i = choose|i: int| 0 <= i < records.len() && facet_accepts(facets[f], #[trigger] records[i]);
    assert(in_match_set(facets, records, f, i));
    lemma_member_means_active(facets, records, f, i);
}

proof fn lemma_or_prefix(facets: Seq<FacetView>, records: Seq<RecordView>, upto: int, i: int)
    requires
        0 <= upto <= facets.len(),
        forall|f: int| 0 <= f < upto ==> (#[trigger] facets[f]).match_type == MatchType::OR,
    ensures
        match combined(facets, records, upto) {
            Some(s) => s.contains(i) == exists|f: int|
                0 <= f < upto && in_match_set(facets, records, f, i),
            None => forall|f: int| 0 <= f < upto ==> !is_active(facets, records, f),
        },
    decreases upto,
{
    if upto > 0 {
        lemma_or_prefix(facets, records, upto - 1, i);
        let last = upto - 1;
        assert(facets[last].match_type == MatchType::OR);
        if in_match_set(facets, records, last, i) {
            lemma_member_means_active(facets, records, last, i);
        }
        match combined(facets, records, upto - 1) {
            Some(acc) => {
                if acc.contains(i) {
                    let f = choose|f: int| 0 <= f < upto - 1 && in_match_set(facets, records, f, i);
                    assert(in_match_set(facets, records, f, i));
                }
            },
            None => {
                assert forall|f: int| 0 <= f < upto - 1 implies !in_match_set(
                    facets,
                    records,
                    f,
                    i,
                ) by {
                    if in_match_set(facets, records, f, i) {
                        lemma_member_means_active(facets, records, f, i);
                    }
                }
            },
        }
    }
}

proof fn lemma_and_prefix(facets: Seq<FacetView>, records: Seq<RecordView>, upto: int, i: int)
    requires
        0 <= upto <= facets.len(),
        forall|f: int| 0 <= f < upto ==> (#[trigger] facets[f]).match_type == MatchType::AND,
    ensures
        match combined(facets, records, upto) {
            Some(s) => s.contains(i) == forall|f: int|
                0 <= f < upto && #[trigger] is_active(facets, records, f) ==> in_match_set(
                    facets,
                    records,
                    f,
                    i,
                ),
            None => forall|f: int| 0 <= f < upto ==> !is_active(facets, records, f),
        },
    decreases upto,
{
    if upto > 0 {
        lemma_and_prefix(facets, records, upto - 1, i);
        let last = upto - 1;
        assert(facets[last].match_type == MatchType::AND);
        if is_active(facets, records, last) {
            match combined(facets, records, upto - 1) {
                Some(acc) => {
                    if acc.contains(i) && in_match_set(facets, records, last, i) {
                        assert forall|f: int|
                            0 <= f < upto && #[trigger] is_active(
                                facets,
                                records,
                                f,
                            ) implies in_match_set(facets, records, f, i) by {}
                    }
                },
                None => {},
            }
        }
    }
}

/// Where every facet unites and at least one value is selected, a
/// record passes the facets exactly if it lies in the match set of
/// one of them.
pub proof fn law_all_or_is_union(facets: Seq<FacetView>, records: Seq<RecordView>, i: int)
    requires
        forall|f: int| 0 <= f < facets.len() ==> (#[trigger] facets[f]).match_type == MatchType::OR,
        any_filtered(facets, facets.len() as int),
    ensures
        facet_filtered(facets, records).contains(i) == exists|f: int|
            0 <= f < facets.len() && in_match_set(facets, records, f, i),
{
    lemma_or_prefix(facets, records, facets.len() as int, i);
    if combined(facets, records, facets.len() as int) is None {
        assert forall|f: int| 0 <= f < facets.len() implies !in_match_set(facets, records, f, i) by {
            if in_match_set(facets, records, f, i) {
                lemma_member_means_active(facets, records, f, i);
            }
        }
    }
}

/// Where every facet intersects and at least one match set has a
/// member, a record passes the facets exactly if it lies in every
/// match set that has a member.
pub proof fn law_all_and_is_intersection(facets: Seq<FacetView>, records: Seq<RecordView>, i: int)
    requires
        forall|f: int| 0 <= f < facets.len() ==> (#[trigger] facets[f]).match_type == MatchType::AND,
        exists|f: int| 0 <= f < facets.len() && is_active(facets, records, f),
    ensures
        facet_filtered(facets, records).contains(i) == forall|f: int|
            0 <= f < facets.len() && #[trigger] is_active(facets, records, f) ==> in_match_set(
                facets,
                records,
                f,
                i,
            ),
{
    lemma_and_prefix(facets, records, facets.len() as int, i);
    let f = choose|f: int| 0 <= f < facets.len() && is_active(facets, records, f);
    lemma_active_means_selected(facets, records, f);
    assert(selects(facets[f]));
    assert(any_filtered(facets, facets.len() as int));
}

/// A rescan removes no entry and moves none: every entry keeps its
/// place, its value and its selection flag, and its count is either
/// the old one or the number of records that hold the value now.
/// Entries that the rescan adds are not selected.
pub proof fn law_rescan_keeps_entries(facet: FacetView, records: Seq<RecordView>, k: int)
    requires
        0 <= k < refreshed(facet, records).values.len(),
    ensures
        refreshed(facet, records).property == facet.property,
        refreshed(facet, records).match_type == facet.match_type,
        refreshed(facet, records).values.len() >= facet.values.len(),
        k < facet.values.len() ==> {
            let before = facet.values[k];
            let after = refreshed(facet, records).values[k];
            &&& after.value == before.value
            &&& after.filtered == before.filtered
            &&& (after.total == before.total || after.total == occurrences(
                records,
                facet.property,
                before.value,
                records.len() as int,
            ))
        },
        k >= facet.values.len() ==> !refreshed(facet, records).values[k].filtered,
{
    lemma_discovered_extends(facet.values, records, facet.property, records.len() as int);
    if k >= facet.values.len() {
        lemma_discovered_new_unselected(facet.values, records, facet.property, records.len() as int, k);
    }
}

/// Appending records removes no facet and no entry: every facet
/// keeps its place, its property and its policy, and every entry its
/// place, its value and its selection flag.
pub proof fn law_append_keeps_entries(session: SessionView, texts: Seq<String>, f: int, k: int)
    requires
        0 <= f < session.facets.len(),
        0 <= k < session.facets[f].values.len(),
    ensures
        session.with_data(texts).facets.len() == session.facets.len(),
        session.with_data(texts).facets[f].property == session.facets[f].property,
        session.with_data(texts).facets[f].match_type == session.facets[f].match_type,
        session.with_data(texts).facets[f].values.len() >= session.facets[f].values.len(),
        session.with_data(texts).facets[f].values[k].value == session.facets[f].values[k].value,
        session.with_data(texts).facets[f].values[k].filtered
            == session.facets[f].values[k].filtered,
{
    let records = session.records + read_all(texts);
    let facet = session.facets[f];
    lemma_discovered_extends(facet.values, records, facet.property, records.len() as int);
    law_rescan_keeps_entries(facet, records, k);
}

proof fn lemma_discovered_new_unselected(
    values: Seq<FacetValueView>,
    records: Seq<RecordView>,
    property: Seq<char>,
    upto: int,
    k: int,
)
    requires
        values.len() <= k < discovered(values, records, property, upto).len(),
    ensures
        !discovered(values, records, property, upto)[k].filtered,
    decreases upto,
{
    if upto > 0 {
        if k < discovered(values, records, property, upto - 1).len() {
            lemma_discovered_new_unselected(values, records, property, upto - 1, k);
        }
    }
}

/// A stable order never exchanges two records that tie: of two
/// records that no key decides, the one that came first stays first.
pub proof fn law_ties_keep_their_order(
    records: Seq<RecordView>,
    keys: Seq<SortKey>,
    order: Seq<int>,
    a: int,
    b: int,
)
    requires
        is_stable_order(records, keys, order),
        0 <= a < b < order.len(),
        verdict(records[order[a]], records[order[b]], keys) == Verdict::Tie,
    ensures
        order[a] < order[b],
{
    lemma_verdict_opposite(records[order[a]], records[order[b]], keys, 0);
    assert(order[a] != order[b]);
}

/// Where no key decides any two records, a stable order leaves every
/// record in its place.
pub proof fn law_undecided_sort_is_identity(records: Seq<RecordView>, keys: Seq<SortKey>, order: Seq<int>)
    requires
        is_stable_order(records, keys, order),
        forall|x: int, y: int|
            0 <= x < records.len() && 0 <= y < records.len() ==> #[trigger] verdict(
                records[x],
                records[y],
                keys,
            ) == Verdict::Tie,
    ensures
        forall|k: int| 0 <= k < order.len() ==> order[k] == k,
{
    assert forall|a: int, b: int| 0 <= a < b < order.len() implies #[trigger] order[a] < #[trigger] order[b] by {
        assert(verdict(records[order[a]], records[order[b]], keys) == Verdict::Tie);
        law_ties_keep_their_order(records, keys, order, a, b);
    }
    lemma_increasing_is_identity(order);
}

proof fn lemma_increasing_is_identity(order: Seq<int>)
    requires
        forall|k: int| 0 <= k < order.len() ==> 0 <= #[trigger] order[k] < order.len(),
        forall|a: int, b: int| 0 <= a < b < order.len() ==> #[trigger] order[a] < #[trigger] order[b],
    ensures
        forall|k: int| 0 <= k < order.len() ==> order[k] == k,
{
    assert forall|k: int| 0 <= k < order.len() implies order[k] == k by {
        lemma_increasing_lower(order, k);
        lemma_increasing_upper(order, k);
    }
}

proof fn lemma_increasing_lower(order: Seq<int>, k: int)
    requires
        forall|k: int| 0 <= k < order.len() ==> 0 <= #[trigger] order[k] < order.len(),
        forall|a: int, b: int| 0 <= a < b < order.len() ==> #[trigger] order[a] < #[trigger] order[b],
    ensures
        0 <= k < order.len() ==> order[k] >= k,
    decreases k,
{
    if 0 < k < order.len() {
        lemma_increasing_lower(order, k - 1);
        assert(order[k - 1] < order[k]);
    }
}

proof fn lemma_increasing_upper(order: Seq<int>, k: int)
    requires
        forall|k: int| 0 <= k < order.len() ==> 0 <= #[trigger] order[k] < order.len(),
        forall|a: int, b: int| 0 <= a < b < order.len() ==> #[trigger] order[a] < #[trigger] order[b],
    ensures
        0 <= k < order.len() ==> order[k] <= k,
    decreases order.len() - k,
{
    if 0 <= k < order.len() - 1 {
        lemma_increasing_upper(order, k + 1);
        assert(order[k] < order[k + 1]);
    }
}

/// The page of a query holds no more records than the limit allows
/// and none where the offset lies at or past the number of records
/// that passed; that number does not depend on offset or limit.
pub proof fn law_sorted_page_bounds(
    result: Seq<RecordView>,
    pool: Seq<RecordView>,
    keys: Seq<SortKey>,
    offset: int,
    limit: int,
)
    requires
        is_sorted_page(result, pool, keys, offset, limit),
        0 <= offset,
        0 <= limit,
    ensures
        offset >= pool.len() ==> result.len() == 0,
        result.len() <= limit,
        offset + result.len() <= pool.len() || result.len() == 0,
{
    let order = choose|order: Seq<int>| #[trigger]
        is_stable_order(pool, keys, order) && result == page(picked(pool, order), offset, limit);
    assert(picked(pool, order).len() == pool.len());
}

/// Reading a text keeps the text, and a text that is not well-formed
/// JSON gives a record that holds the text and nothing else.
pub proof fn law_read_keeps_text(text: Seq<char>)
    ensures
        read(text).text == text,
        json_members(text) is None ==> read(text) == (RecordView { text, fields: Seq::empty() }),
{
}

/// A page that starts at or past the end is empty, and a page never
/// holds more than the limit.
pub proof fn law_page_bounds<T>(items: Seq<T>, offset: int, limit: int)
    requires
        0 <= offset,
        0 <= limit,
    ensures
        offset >= items.len() ==> page(items, offset, limit).len() == 0,
        page(items, offset, limit).len() <= limit,
        page(items, offset, limit).len() <= items.len(),
{
}

} // verus!
