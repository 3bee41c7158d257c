//! Cutting one page out of a sequence.

use vstd::prelude::*;

verus! {

/// The page of `items` that starts at `offset` and holds up to
/// `limit` items; empty where `offset` lies at or past the end.
pub open spec fn page<T>(items: Seq<T>, offset: int, limit: int) -> Seq<T> {
    if offset >= items.len() {
        Seq::empty()
    } else if offset + limit >= items.len() {
        items.subrange(offset, items.len() as int)
    } else {
        items.subrange(offset, offset + limit)
    }
}

/// Returns the page of `data` at `offset` and `limit`, and beside it
/// the length of `data`, whatever the page holds.
pub fn apply_offset_and_limit(data: &Vec<usize>, offset: u32, limit: u32) -> (r: (Vec<usize>, u32))
    requires
        data@.len() <= u32::MAX,
    ensures
        r.0@ == page(data@, offset as int, limit as int),
        r.1 == data@.len(),
        offset >= data@.len() ==> r.0@.len() == 0,
{
    let count: u32 = data.len() as u32;
    let mut out: Vec<usize> = Vec::new();
    if offset >= count {
        proof {
            assert(out@ =~= page(data@, offset as int, limit as int));
        }
        return (out, count);
    }
    let end: u32 = if limit >= count - offset {
        count
    } else {
        offset + limit
    };
    let mut i: u32 = offset;
    while i < end
        invariant
            offset <= i <= end,
            end <= data@.len(),
            out@.len() == i - offset,
            forall|k: int| 0 <= k < out@.len() ==> out@[k] == data@[offset + k],
        decreases end - i,
    {
        out.push(data[i as usize]);
        i += 1;
    }
    proof {
        assert(out@ =~= page(data@, offset as int, limit as int));
    }
    (out, count)
}

} // verus!
