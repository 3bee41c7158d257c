//! Arranging records by a prioritized list of keys.

use vstd::prelude::*;
use crate::filter::positions;
use crate::record::{FieldContent, FieldValue, Record, RecordView, record_views};
use crate::text::{lemma_precedes_asymmetric, precedes, text_precedes};

verus! {

/// One sort key: the member to order by, and whether to reverse.
#[derive(Clone, Debug)]
pub struct SortingState {
    pub id: String,
    pub desc: bool,
}

/// Mathematical model of a [`SortingState`].
pub struct SortKey {
    pub id: Seq<char>,
    pub desc: bool,
}

impl View for SortingState {
    type V = SortKey;

    open spec fn view(&self) -> SortKey {
        SortKey { id: self.id@, desc: self.desc }
    }
}

/// The models of a list of sort keys, in order.
pub open spec fn key_views(keys: Seq<SortingState>) -> Seq<SortKey> {
    Seq::new(keys.len(), |i: int| keys[i]@)
}

/// How the first of two records stands to the second.
#[derive(Clone, Copy, Debug, PartialEq, Eq, Structural)]
pub enum Verdict {
    Before,
    Tie,
    After,
}

/// The verdict with the two records exchanged.
pub open spec fn opposite(v: Verdict) -> Verdict {
    match v {
        Verdict::Before => Verdict::After,
        Verdict::Tie => Verdict::Tie,
        Verdict::After => Verdict::Before,
    }
}

/// Two values in ascending order: strings by text, numbers by rank.
/// Values of different kinds, or of a kind that has no order, tie.
pub open spec fn natural_verdict(a: FieldContent, b: FieldContent) -> Verdict {
    match (a, b) {
        (FieldContent::Text(x), FieldContent::Text(y)) => if precedes(x, y) {
            Verdict::Before
        } else if precedes(y, x) {
            Verdict::After
        } else {
            Verdict::Tie
        },
        (FieldContent::Number(x), FieldContent::Number(y)) => if x < y {
            Verdict::Before
        } else if y < x {
            Verdict::After
        } else {
            Verdict::Tie
        },
        _ => Verdict::Tie,
    }
}

/// What one key says of two records: nothing unless both hold a
/// value under it, else the values' order, reversed for a descending
/// key.
pub open spec fn key_verdict(a: RecordView, b: RecordView, key: SortKey) -> Verdict {
    match (a.lookup(key.id), b.lookup(key.id)) {
        (Some(x), Some(y)) => if key.desc {
            natural_verdict(y, x)
        } else {
            natural_verdict(x, y)
        },
        _ => Verdict::Tie,
    }
}

/// The verdict of the first key at or after `from` that decides.
pub open spec fn verdict_from(a: RecordView, b: RecordView, keys: Seq<SortKey>, from: int) -> Verdict
    decreases keys.len() - from,
{
    if from < 0 || from >= keys.len() {
        Verdict::Tie
    } else {
        let v = key_verdict(a, b, keys[from]);
        if v != Verdict::Tie {
            v
        } else {
            verdict_from(a, b, keys, from + 1)
        }
    }
}

/// The verdict of the first key that decides; a tie where none does.
pub open spec fn verdict(a: RecordView, b: RecordView, keys: Seq<SortKey>) -> Verdict {
    verdict_from(a, b, keys, 0)
}

/// Exchanging two values turns their verdict round.
pub proof fn lemma_natural_opposite(a: FieldContent, b: FieldContent)
    ensures
        natural_verdict(b, a) == opposite(natural_verdict(a, b)),
{
    match (a, b) {
        (FieldContent::Text(x), FieldContent::Text(y)) => {
            lemma_precedes_asymmetric(x, y);
        },
        _ => {},
    }
}

/// Exchanging two records turns their verdict round.
pub proof fn lemma_verdict_opposite(a: RecordView, b: RecordView, keys: Seq<SortKey>, from: int)
    ensures
        verdict_from(b, a, keys, from) == opposite(verdict_from(a, b, keys, from)),
    decreases keys.len() - from,
{
    if 0 <= from < keys.len() {
        let key = keys[from];
        match (a.lookup(key.id), b.lookup(key.id)) {
            (Some(x), Some(y)) => {
                lemma_natural_opposite(x, y);
                lemma_natural_opposite(y, x);
            },
            _ => {},
        }
        lemma_verdict_opposite(a, b, keys, from + 1);
    }
}

/// The records at the given indices, in that order.
pub open spec fn picked(records: Seq<RecordView>, at: Seq<int>) -> Seq<RecordView> {
    Seq::new(at.len(), |k: int| records[at[k]])
}

/// `order` arranges the positions of `records` as a stable sort by
/// `keys` does: every position occurs once; no record stands directly
/// before one that it comes after; and two records have changed
/// places only where the keys put the later one first.
pub open spec fn is_stable_order(records: Seq<RecordView>, keys: Seq<SortKey>, order: Seq<int>) -> bool {
    &&& order.len() == records.len()
    &&& forall|k: int| 0 <= k < order.len() ==> 0 <= #[trigger] order[k] < records.len()
    &&& forall|a: int, b: int|
        0 <= a < b < order.len() ==> #[trigger] order[a] != #[trigger] order[b]
    &&& forall|a: int, b: int|
        0 <= a && b == a + 1 && b < order.len() ==> verdict(
            records[#[trigger] order[a]],
            records[#[trigger] order[b]],
            keys,
        ) != Verdict::After
    &&& forall|a: int, b: int|
        0 <= a < b < order.len() && #[trigger] order[a] > #[trigger] order[b] ==> verdict(
            records[order[b]],
            records[order[a]],
            keys,
        ) == Verdict::After
}

/// Orders two values as [`natural_verdict`] says.
pub fn order_values(a: &FieldValue, b: &FieldValue) -> (r: Verdict)
    ensures
        r == natural_verdict(a@, b@),
{
    match (a, b) {
        (FieldValue::Text(x), FieldValue::Text(y)) => {
            if text_precedes(x.as_str(), y.as_str()) {
                Verdict::Before
            } else if text_precedes(y.as_str(), x.as_str()) {
                Verdict::After
            } else {
                Verdict::Tie
            }
        },
        (FieldValue::Number(x), FieldValue::Number(y)) => {
            if *x < *y {
                Verdict::Before
            } else if *y < *x {
                Verdict::After
            } else {
                Verdict::Tie
            }
        },
        _ => Verdict::Tie,
    }
}

/// Orders two records by the first key that decides.
pub fn order_records(a: &Record, b: &Record, keys: &Vec<SortingState>) -> (r: Verdict)
    ensures
        r == verdict(a@, b@, key_views(keys@)),
{
    let mut k: usize = 0;
    while k < keys.len()
        invariant
            k <= keys@.len(),
            verdict(a@, b@, key_views(keys@)) == verdict_from(a@, b@, key_views(keys@), k as int),
        decreases keys@.len() - k,
    {
        let key = &keys[k];
        proof {
            assert(key_views(keys@)[k as int] == key@);
        }
        let v = match (a.position_of(key.id.as_str()), b.position_of(key.id.as_str())) {
            (Some(i), Some(j)) => {
                proof {
                    assert(a@.fields[i as int].value == a.fields@[i as int].value@);
                    assert(b@.fields[j as int].value == b.fields@[j as int].value@);
                }
                if key.desc {
                    order_values(&b.fields[j].value, &a.fields[i].value)
                } else {
                    order_values(&a.fields[i].value, &b.fields[j].value)
                }
            },
            _ => Verdict::Tie,
        };
        match v {
            Verdict::Tie => {},
            _ => {
                return v;
            },
        }
        k += 1;
    }
    Verdict::Tie
}

/// Sorts the records at `candidates` by `sorting`, stably. The result
/// lists positions in `candidates`: its first entry is the position
/// of the record that comes first.
pub fn apply_sorting(records: &Vec<Record>, candidates: &Vec<usize>, sorting: &Vec<SortingState>) -> (order:
    Vec<usize>)
    requires
        forall|k: int| 0 <= k < candidates@.len() ==> candidates@[k] < records@.len(),
    ensures
        is_stable_order(
            picked(record_views(records@), positions(candidates@)),
            key_views(sorting@),
            positions(order@),
        ),
{
    let ghost cv = picked(record_views(records@), positions(candidates@));
    let ghost keys = key_views(sorting@);
    let mut order: Vec<usize> = Vec::new();
    let mut i: usize = 0;
    while i < candidates.len()
        invariant
            i <= candidates@.len(),
            cv == picked(record_views(records@), positions(candidates@)),
            keys == key_views(sorting@),
            forall|k: int| 0 <= k < candidates@.len() ==> candidates@[k] < records@.len(),
            order@.len() == i,
            forall|k: int| 0 <= k < order@.len() ==> #[trigger] order@[k] < i,
            forall|a: int, b: int|
                0 <= a < b < order@.len() ==> #[trigger] order@[a] != #[trigger] order@[b],
            forall|a: int, b: int|
                0 <= a && b == a + 1 && b < order@.len() ==> verdict(
                    cv[#[trigger] order@[a] as int],
                    cv[#[trigger] order@[b] as int],
                    keys,
                ) != Verdict::After,
            forall|a: int, b: int|
                0 <= a < b < order@.len() && #[trigger] order@[a] > #[trigger] order@[b] ==> verdict(
                    cv[order@[b] as int],
                    cv[order@[a] as int],
                    keys,
                ) == Verdict::After,
        decreases candidates@.len() - i,
    {
        let incoming = &records[candidates[i]];
        proof {
            assert(cv[i as int] == incoming@);
        }
        let mut p: usize = order.len();
        let mut settled = false;
        while p > 0 && !settled
            invariant
                p <= order@.len(),
                order@.len() == i,
                i < candidates@.len(),
                cv == picked(record_views(records@), positions(candidates@)),
                keys == key_views(sorting@),
                cv[i as int] == incoming@,
                forall|k: int| 0 <= k < candidates@.len() ==> candidates@[k] < records@.len(),
                forall|k: int| 0 <= k < order@.len() ==> #[trigger] order@[k] < i,
                forall|k: int|
                    p <= k < order@.len() ==> verdict(cv[#[trigger] order@[k] as int], cv[i as int], keys)
                        == Verdict::After,
                settled ==> p > 0 && verdict(cv[order@[p - 1] as int], cv[i as int], keys)
                    != Verdict::After,
            decreases p + if settled { 0int } else { 1int },
        {
            let resident = &records[candidates[order[p - 1]]];
            proof {
                assert(cv[order@[p - 1] as int] == resident@);
            }
            match order_records(resident, incoming, sorting) {
                Verdict::After => {
                    p -= 1;
                },
                _ => {
                    settled = true;
                },
            }
        }
        let ghost old_order = order@;
        order.insert(p, i);
        proof {
            let new_order = order@;
            assert forall|k: int| 0 <= k < new_order.len() implies #[trigger] new_order[k] == (if k
                < p {
                old_order[k]
            } else if k == p {
                i
            } else {
                old_order[k - 1]
            }) by {}
            if p < old_order.len() {
                lemma_verdict_opposite(cv[old_order[p as int] as int], cv[i as int], keys, 0);
            }
            assert forall|a: int, b: int|
                0 <= a && b == a + 1 && b < new_order.len() implies verdict(
                cv[#[trigger] new_order[a] as int],
                cv[#[trigger] new_order[b] as int],
                keys,
            ) != Verdict::After by {
                if b < p {
                    assert(old_order[a] == new_order[a] && old_order[b] == new_order[b]);
                } else if b == p {
                    assert(old_order[p - 1] == new_order[a]);
                } else if a == p {
                    assert(old_order[p as int] == new_order[b]);
                } else {
                    assert(old_order[a - 1] == new_order[a] && old_order[b - 1] == new_order[b]);
                }
            }
            assert forall|a: int, b: int|
                0 <= a < b < new_order.len() && #[trigger] new_order[a] > #[trigger] new_order[b] implies verdict(
                cv[new_order[b] as int],
                cv[new_order[a] as int],
                keys,
            ) == Verdict::After by {
                let oa = if a < p { a } else { a - 1 };
                let ob = if b < p { b } else { b - 1 };
                if a == p {
                    assert(old_order[ob] == new_order[b]);
                } else if b == p {
                    assert(old_order[oa] == new_order[a]);
                } else {
                    assert(old_order[oa] == new_order[a] && old_order[ob] == new_order[b]);
                }
            }
            assert forall|a: int, b: int| 0 <= a < b < new_order.len() implies #[trigger] new_order[a]
                != #[trigger] new_order[b] by {
                let oa = if a < p { a } else { a - 1 };
                let ob = if b < p { b } else { b - 1 };
                if a != p && b != p {
                    assert(old_order[oa] == new_order[a] && old_order[ob] == new_order[b]);
                } else if a == p {
                    assert(old_order[ob] == new_order[b]);
                } else {
                    assert(old_order[oa] == new_order[a]);
                }
            }
        }
        i += 1;
    }
    proof {
        let o = positions(order@);
        assert forall|k: int| 0 <= k < o.len() implies 0 <= #[trigger] o[k] < cv.len() by {
            assert(order@[k] < i);
        }
        assert forall|a: int, b: int| 0 <= a < b < o.len() implies #[trigger] o[a] != #[trigger] o[b] by {
            assert(order@[a] != order@[b]);
        }
        assert forall|a: int, b: int| 0 <= a && b == a + 1 && b < o.len() implies verdict(
            cv[#[trigger] o[a]],
            cv[#[trigger] o[b]],
            keys,
        ) != Verdict::After by {
            assert(o[a] == order@[a] as int && o[b] == order@[b] as int);
        }
        assert forall|a: int, b: int|
            0 <= a < b < o.len() && #[trigger] o[a] > #[trigger] o[b] implies verdict(
            cv[o[b]],
            cv[o[a]],
            keys,
        ) == Verdict::After by {
            assert(o[a] == order@[a] as int && o[b] == order@[b] as int);
        }
    }
    order
}

} // verus!
