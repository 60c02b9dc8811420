//! Small scans over edit masks.
use vstd::prelude::*;

verus! {

/// The first index at or after `pos` whose entry is `false`, or the length of
/// `mask` where there is none.
pub open spec fn hunk_end(mask: Seq<bool>, pos: int) -> int
    decreases mask.len() - pos,
{
    if 0 <= pos < mask.len() && mask[pos] {
        hunk_end(mask, pos + 1)
    } else {
        pos
    }
}

/// The least index from which every entry up to `pos` is `true`.
pub open spec fn hunk_start(mask: Seq<bool>, pos: int) -> int
    decreases pos,
{
    if 0 < pos <= mask.len() && mask[pos - 1] {
        hunk_start(mask, pos - 1)
    } else {
        pos
    }
}

/// The end of the run of `true` entries that starts at `pos`: the first index at or
/// after `pos` whose entry is `false`, or the length of the mask.
pub fn find_hunk_end(mask: &[bool], pos: usize) -> (end: usize)
    requires
        pos <= mask@.len(),
    ensures
        end == hunk_end(mask@, pos as int),
        pos <= end <= mask@.len(),
        forall|i: int| pos <= i < end ==> mask@[i],
        end == mask@.len() || !mask@[end as int],
{
    let mut end: usize = pos;
    while end < mask.len() && mask[end]
        invariant
            pos <= end <= mask@.len(),
            hunk_end(mask@, pos as int) == hunk_end(mask@, end as int),
            forall|i: int| pos <= i < end ==> mask@[i],
        decreases mask@.len() - end,
    {
        end += 1;
    }
    end
}

/// The start of the run of `true` entries that ends just before `pos`: the least
/// index from which every entry up to `pos` is `true`.
pub fn find_hunk_start(mask: &[bool], pos: usize) -> (start: usize)
    requires
        pos <= mask@.len(),
    ensures
        start == hunk_start(mask@, pos as int),
        start <= pos,
        forall|i: int| start <= i < pos ==> mask@[i],
        start == 0 || !mask@[start - 1],
{
    let mut start: usize = pos;
    while start > 0 && mask[start - 1]
        invariant
            start <= pos <= mask@.len(),
            hunk_start(mask@, pos as int) == hunk_start(mask@, start as int),
            forall|i: int| start <= i < pos ==> mask@[i],
        decreases start,
    {
        start -= 1;
    }
    start
}

/// Sets every entry of `mask` to `value`.
pub fn fill(mask: &mut [bool], value: bool)
    ensures
        final(mask)@.len() == old(mask)@.len(),
        forall|i: int| 0 <= i < final(mask)@.len() ==> final(mask)@[i] == value,
{
    let len: usize = mask.len();
    let mut at: usize = 0;
    while at < len
        invariant
            at <= len,
            len == mask@.len(),
            mask@.len() == old(mask)@.len(),
            forall|i: int| 0 <= i < at ==> mask@[i] == value,
        decreases len - at,
    {
        mask[at] = value;
        at += 1;
    }
}

} // verus!
