//! Slides the hunks of a finished diff into their conventional places.
//!
//! A hunk whose first token equals the token behind it can move one place down
//! without changing which tokens the diff keeps, and likewise up. Each hunk is
//! moved as far up and as far down as it goes, merging with the hunks it meets, and
//! is then left at its lowest place, or moved back up until it lies beside a hunk
//! of the other mask so that the two read as one modification.
use crate::alignment::{
    is_alignment, kept, lemma_kept_len, lemma_slide_keeps, lemma_unmarked_agree, lemma_unmarked_bounds,
    lemma_unmarked_monotone, lemma_unmarked_run, lemma_unmarked_run_of_false,
    lemma_unmarked_update, unmarked, unmarked_before,
};
use crate::histogram::{diff, histogram_masks, tokens_below};
use crate::util::{find_hunk_end, find_hunk_start, hunk_end, hunk_start};
use crate::Token;
use vstd::prelude::*;

verus! {

/// The two edit masks of a diff: `removed[i]` says that token `i` of the first
/// sequence has no partner in the second, `added[j]` the same of token `j` of the
/// second.
pub struct Diff {
    pub removed: Vec<bool>,
    pub added: Vec<bool>,
}

/// A half-open range of mask positions.
pub struct Hunk {
    pub start: usize,
    pub end: usize,
}

/// `[start, end)` is a run of `true` entries of `mask` that cannot be made longer.
pub open spec fn is_hunk(mask: Seq<bool>, start: int, end: int) -> bool {
    &&& 0 <= start < end <= mask.len()
    &&& forall|i: int| start <= i < end ==> mask[i]
    &&& (start == 0 || !mask[start - 1])
    &&& (end == mask.len() || !mask[end])
}

/// The token behind `[start, end)` equals the first token in it, so that a hunk
/// there can move one place down.
pub open spec fn slides_down(tokens: Seq<Token>, start: int, end: int) -> bool {
    end < tokens.len() && tokens[start] == tokens[end]
}

/// `reference` marks an entry that has `kept` unmarked entries before it: where
/// `reference` is the other mask of a diff, it holds a hunk between the kept
/// tokens number `kept - 1` and `kept`.
pub open spec fn gap_marked(reference: Seq<bool>, kept: int) -> bool {
    exists|p: int|
        0 <= p < reference.len() && reference[p] && #[trigger] unmarked_before(reference, p) == kept
}

/// `reference` holds a hunk in one of the gaps from number `lo` to number `hi`.
pub open spec fn marked_between(reference: Seq<bool>, lo: int, hi: int) -> bool {
    exists|kept: int| lo <= kept <= hi && #[trigger] gap_marked(reference, kept)
}

/// A hunk of `mask` that starts at `start` lies beside a hunk of `reference`: both
/// stand between the same two kept tokens.
pub open spec fn beside(mask: Seq<bool>, reference: Seq<bool>, start: int) -> bool {
    gap_marked(reference, unmarked_before(mask, start))
}

/// The hunk `[start, end)` is where the pass leaves a hunk: at the lowest place
/// that it can slide to, or beside a hunk of the other mask.
pub open spec fn hunk_settled(
    mask: Seq<bool>,
    reference: Seq<bool>,
    tokens: Seq<Token>,
    start: int,
    end: int,
) -> bool {
    !slides_down(tokens, start, end) || beside(mask, reference, start)
}

/// Every hunk of `mask` that ends at or before `upto` is settled.
pub open spec fn settled_upto(
    mask: Seq<bool>,
    reference: Seq<bool>,
    tokens: Seq<Token>,
    upto: int,
) -> bool {
    forall|start: int, end: int|
        #[trigger] is_hunk(mask, start, end) && end <= upto ==> hunk_settled(
            mask,
            reference,
            tokens,
            start,
            end,
        )
}

/// What is settled in one mask is settled in another that agrees with it up to
/// and including position `upto`.
pub proof fn lemma_settled_frame(
    m1: Seq<bool>,
    m2: Seq<bool>,
    reference: Seq<bool>,
    tokens: Seq<Token>,
    upto: int,
)
    requires
        m1.len() == m2.len(),
        forall|i: int| 0 <= i <= upto && i < m1.len() ==> m1[i] == m2[i],
        settled_upto(m1, reference, tokens, upto),
    ensures
        settled_upto(m2, reference, tokens, upto),
{
    assert forall|start: int, end: int| #[trigger]
        is_hunk(m2, start, end) && end <= upto implies hunk_settled(
        m2,
        reference,
        tokens,
        start,
        end,
    ) by {
        assert(is_hunk(m1, start, end));
        lemma_unmarked_agree(m1, m2, 0, start);
    }
}

/// No hunk ends just behind an entry that is `false`.
pub proof fn lemma_settled_step(
    mask: Seq<bool>,
    reference: Seq<bool>,
    tokens: Seq<Token>,
    upto: int,
)
    requires
        settled_upto(mask, reference, tokens, upto),
        upto < 0 || (upto < mask.len() && !mask[upto]),
    ensures
        settled_upto(mask, reference, tokens, upto + 1),
{
    assert forall|start: int, end: int| #[trigger]
        is_hunk(mask, start, end) && end <= upto + 1 implies hunk_settled(
        mask,
        reference,
        tokens,
        start,
        end,
    ) by {
        if end == upto + 1 {
            assert(mask[end - 1]);
        }
    }
}

/// With a settled hunk, and everything before it settled, everything up to its
/// end is settled.
pub proof fn lemma_settled_hunk(
    mask: Seq<bool>,
    reference: Seq<bool>,
    tokens: Seq<Token>,
    start: int,
    end: int,
)
    requires
        is_hunk(mask, start, end),
        hunk_settled(mask, reference, tokens, start, end),
        settled_upto(mask, reference, tokens, start - 1),
    ensures
        settled_upto(mask, reference, tokens, end),
{
    assert forall|s: int, e: int| #[trigger] is_hunk(mask, s, e) && e <= end implies hunk_settled(
        mask,
        reference,
        tokens,
        s,
        e,
    ) by {
        if e > start - 1 {
            assert(mask[e - 1]);
            assert(e - 1 >= start);
            if e < end {
                assert(mask[e]);
            }
            if s > start {
                assert(mask[s - 1]);
            }
            if s < start {
                assert(mask[start - 1]);
            }
            assert(s == start && e == end);
        }
    }
}

/// A place that ends a gap of `reference` with no marked entry before it ends an
/// empty gap.
pub proof fn lemma_gap_empty(reference: Seq<bool>, pos: int)
    requires
        0 <= pos <= reference.len(),
        pos == reference.len() || !reference[pos],
        pos == 0 || !reference[pos - 1],
    ensures
        !gap_marked(reference, unmarked_before(reference, pos)),
{
    let kept = unmarked_before(reference, pos);
    assert forall|p: int| 0 <= p < reference.len() && reference[p] implies #[trigger]
        unmarked_before(reference, p) != kept by {
        if p < pos {
            lemma_unmarked_monotone(reference, p + 1, pos - 1);
        } else {
            lemma_unmarked_monotone(reference, pos + 1, p);
        }
    }
}

/// A mask with one of its hunks picked out.
pub struct Placed {
    pub mask: Seq<bool>,
    pub start: int,
    pub end: int,
}

/// What sliding a hunk as far as it goes ends with: the mask and the hunk, the
/// end of the gap of the other mask beside the hunk, whether the other mask has a
/// hunk in a gap that the hunk came by on its last way down, and the end of the
/// hunk at the highest place of that way.
pub struct Settled {
    pub placed: Placed,
    pub pos: int,
    pub is_modification: bool,
    pub earliest_end: int,
}

/// The hunk moved one place up, and grown by the hunk that it may have run into;
/// as it was where the token before it differs from its last token.
pub open spec fn slid_up(p: Placed, tokens: Seq<Token>) -> Placed {
    if p.start > 0 && tokens[p.start - 1] == tokens[p.end - 1] {
        let mask = p.mask.update(p.start - 1, true).update(p.end - 1, false);
        Placed { mask, start: hunk_start(mask, p.start - 1), end: p.end - 1 }
    } else {
        p
    }
}

/// The hunk moved one place down, and grown by the hunk that it may have run
/// into; as it was where the token behind it differs from its first token.
pub open spec fn slid_down(p: Placed, tokens: Seq<Token>) -> Placed {
    if slides_down(tokens, p.start, p.end) {
        let mask = p.mask.update(p.start, false).update(p.end, true);
        Placed { mask, start: p.start + 1, end: hunk_end(mask, p.end) }
    } else {
        p
    }
}

/// The hunk moved up as far as it goes; `pos` goes back one gap of `reference`
/// with each move.
pub open spec fn all_up(p: Placed, pos: int, reference: Seq<bool>, tokens: Seq<Token>) -> (
    Placed,
    int,
)
    decreases p.end,
{
    let q = slid_up(p, tokens);
    if 0 <= q.end < p.end {
        all_up(q, hunk_start(reference, pos - 1), reference, tokens)
    } else {
        (p, pos)
    }
}

/// The hunk moved down as far as it goes; `pos` goes on one gap of `reference`
/// with each move, and `seen` records whether one of these gaps holds a hunk.
pub open spec fn all_down(
    p: Placed,
    pos: int,
    seen: bool,
    reference: Seq<bool>,
    tokens: Seq<Token>,
) -> (Placed, int, bool)
    decreases p.mask.len() - p.start,
{
    let q = slid_down(p, tokens);
    if p.start < q.start <= p.mask.len() && q.mask.len() == p.mask.len() {
        let next = hunk_end(reference, pos + 1);
        all_down(q, next, seen || reference[next - 1], reference, tokens)
    } else {
        (p, pos, seen)
    }
}

/// The hunk moved up and down until it grows no more.
pub open spec fn settled(p: Placed, pos: int, reference: Seq<bool>, tokens: Seq<Token>) -> Settled
    decreases p.mask.len() - (p.end - p.start),
{
    let up = all_up(p, hunk_start(reference, pos), reference, tokens);
    let seen = 0 <= up.1 < reference.len() && reference[up.1];
    let down = all_down(up.0, hunk_end(reference, up.1), seen, reference, tokens);
    let grown = down.0.end - down.0.start;
    if p.end - p.start < grown <= p.mask.len() && down.0.mask.len() == p.mask.len() {
        settled(down.0, down.1, reference, tokens)
    } else {
        Settled { placed: down.0, pos: down.1, is_modification: down.2, earliest_end: up.0.end }
    }
}

/// The hunk moved back up to the nearest place beside a hunk of `reference`.
pub open spec fn aligned(p: Placed, pos: int, reference: Seq<bool>, tokens: Seq<Token>) -> (
    Placed,
    int,
)
    decreases p.end,
{
    let q = slid_up(p, tokens);
    if pos > 0 && reference[pos - 1] {
        (p, pos)
    } else if 0 <= q.end < p.end {
        aligned(q, pos - 1, reference, tokens)
    } else {
        (p, pos)
    }
}

/// The next `true` entry of `mask` at or after `cursor`, and where `pos` stands
/// when it has stepped over as many kept entries of `reference` as lie between.
pub open spec fn skipped(mask: Seq<bool>, reference: Seq<bool>, cursor: int, pos: int) -> (int, int)
    decreases mask.len() - cursor,
{
    if 0 <= cursor < mask.len() && !mask[cursor] {
        skipped(mask, reference, cursor + 1, hunk_end(reference, pos) + 1)
    } else {
        (cursor, pos)
    }
}

/// Where a settled hunk is left: where it is if it came down by exactly its own
/// length or came by no hunk of `reference`, else beside the nearest such hunk.
pub open spec fn placed_of(found: Settled, reference: Seq<bool>, tokens: Seq<Token>) -> (
    Placed,
    int,
) {
    if found.placed.start != found.earliest_end && found.is_modification {
        aligned(found.placed, found.pos, reference, tokens)
    } else {
        (found.placed, found.pos)
    }
}

/// The mask after the hunks from `cursor` on have been moved, one after the
/// other.
pub open spec fn pass_from(
    mask: Seq<bool>,
    reference: Seq<bool>,
    tokens: Seq<Token>,
    cursor: int,
    pos: int,
) -> Seq<bool>
    decreases mask.len() - (cursor - unmarked_before(mask, cursor)),
{
    let at = skipped(mask, reference, cursor, pos);
    if at.0 < 0 || at.0 >= mask.len() {
        mask
    } else {
        let hunk = Placed { mask, start: at.0, end: hunk_end(mask, at.0) };
        let put = placed_of(settled(hunk, at.1, reference, tokens), reference, tokens);
        let done = put.0.end - unmarked_before(put.0.mask, put.0.end);
        if put.0.mask.len() == mask.len() && cursor - unmarked_before(mask, cursor) < done
            <= mask.len() {
            pass_from(put.0.mask, reference, tokens, put.0.end, put.1)
        } else {
            put.0.mask
        }
    }
}

/// The mask `added` after one pass over it, with `removed` as the other mask.
pub open spec fn pass_masks(added: Seq<bool>, removed: Seq<bool>, tokens: Seq<Token>) -> Seq<bool> {
    pass_from(added, removed, tokens, 0, 0)
}

/// The masks of a diff after postprocessing: `added` after a pass beside the old
/// `removed`, and `removed` after a pass beside the new `added`.
pub open spec fn postprocessed(
    before: Seq<Token>,
    after: Seq<Token>,
    removed: Seq<bool>,
    added: Seq<bool>,
) -> (Seq<bool>, Seq<bool>) {
    let new_added = pass_masks(added, removed, after);
    (pass_masks(removed, new_added, before), new_added)
}

/// The token before `[start, end)` equals the last token in it, so that a hunk
/// there can move one place up.
pub open spec fn slides_up(tokens: Seq<Token>, start: int, end: int) -> bool {
    start > 0 && tokens[start - 1] == tokens[end - 1]
}

/// No hunk of `mask` can move.
pub open spec fn nothing_slides(mask: Seq<bool>, tokens: Seq<Token>) -> bool {
    forall|start: int, end: int| #[trigger]
        is_hunk(mask, start, end) ==> !slides_down(tokens, start, end) && !slides_up(
            tokens,
            start,
            end,
        )
}

pub proof fn lemma_hunk_end(mask: Seq<bool>, pos: int)
    requires
        0 <= pos <= mask.len(),
    ensures
        pos <= hunk_end(mask, pos) <= mask.len(),
        forall|i: int| pos <= i < hunk_end(mask, pos) ==> mask[i],
        hunk_end(mask, pos) == mask.len() || !mask[hunk_end(mask, pos)],
    decreases mask.len() - pos,
{
    if pos < mask.len() && mask[pos] {
        lemma_hunk_end(mask, pos + 1);
    }
}

pub proof fn lemma_skipped(mask: Seq<bool>, reference: Seq<bool>, cursor: int, pos: int)
    requires
        0 <= cursor <= mask.len(),
    ensures
        cursor <= skipped(mask, reference, cursor, pos).0 <= mask.len(),
        forall|i: int| cursor <= i < skipped(mask, reference, cursor, pos).0 ==> !mask[i],
        skipped(mask, reference, cursor, pos).0 == mask.len() || mask[skipped(
            mask,
            reference,
            cursor,
            pos,
        ).0],
    decreases mask.len() - cursor,
{
    if cursor < mask.len() && !mask[cursor] {
        lemma_skipped(mask, reference, cursor + 1, hunk_end(reference, pos) + 1);
    }
}

/// A pass leaves a mask in which no hunk can move as it is.
pub proof fn lemma_pass_fixed(
    mask: Seq<bool>,
    reference: Seq<bool>,
    tokens: Seq<Token>,
    cursor: int,
    pos: int,
)
    requires
        nothing_slides(mask, tokens),
        0 <= cursor <= mask.len(),
        cursor == 0 || cursor == mask.len() || !mask[cursor],
    ensures
        pass_from(mask, reference, tokens, cursor, pos) == mask,
    decreases mask.len() - (cursor - unmarked_before(mask, cursor)),
{
    let at = skipped(mask, reference, cursor, pos);
    lemma_skipped(mask, reference, cursor, pos);
    if at.0 < mask.len() {
        let end = hunk_end(mask, at.0);
        lemma_hunk_end(mask, at.0);
        let hunk = Placed { mask, start: at.0, end };
        if at.0 > cursor {
            assert(!mask[at.0 - 1]);
        }
        assert(is_hunk(mask, at.0, end));
        assert(slid_up(hunk, tokens) == hunk);
        assert(slid_down(hunk, tokens) == hunk);
        let found = settled(hunk, at.1, reference, tokens);
        assert(found.placed == hunk);
        let put = placed_of(found, reference, tokens);
        assert(put.0 == hunk);
        let done = end - unmarked_before(mask, end);
        if cursor - unmarked_before(mask, cursor) < done <= mask.len() {
            lemma_pass_fixed(mask, reference, tokens, end, put.1);
        }
    }
}

/// One pass over one mask: `added` is rewritten, `removed` is the other mask and
/// is only read, `tokens` is the sequence that `added` belongs to.
pub struct Postprocessor<'a> {
    pub added: Vec<bool>,
    pub removed: &'a [bool],
    pub tokens: &'a [Token],
    pub hunk: Hunk,
}

impl Diff {
    /// Both masks have the lengths of their sequences and keep equally many tokens.
    pub open spec fn fits(&self, before: Seq<Token>, after: Seq<Token>) -> bool {
        &&& self.removed@.len() == before.len()
        &&& self.added@.len() == after.len()
        &&& unmarked(self.removed@) == unmarked(self.added@)
    }

    /// The histogram diff of `before` and `after`, whose tokens are below
    /// `num_tokens`.
    pub fn compute(before: &[Token], after: &[Token], num_tokens: u32) -> (computed: Diff)
        requires
            before@.len() <= u32::MAX,
            after@.len() <= u32::MAX,
            tokens_below(before@, num_tokens as int),
            tokens_below(after@, num_tokens as int),
        ensures
            computed.removed@ == histogram_masks(before@, after@).0,
            computed.added@ == histogram_masks(before@, after@).1,
            computed.fits(before@, after@),
    {
        let mut removed: Vec<bool> = vec![false; before.len()];
        let mut added: Vec<bool> = vec![false; after.len()];
        diff(before, after, removed.as_mut_slice(), added.as_mut_slice(), num_tokens);
        proof {
            lemma_kept_len(before@, removed@, removed@.len() as int);
            lemma_kept_len(after@, added@, added@.len() as int);
        }
        Diff { removed, added }
    }

    /// Normalises the diff in place: first the hunks of `added` are moved, with
    /// `removed` as the reference, then the hunks of `removed`, with the new `added`
    /// as the reference. Neither mask changes which tokens it keeps. Afterwards each
    /// hunk of `removed` lies at the lowest place that it can slide to, or beside a
    /// hunk of `added`; each hunk of `added` lies at its lowest place, or where
    /// `removed` had a hunk beside it before its own hunks were moved.
    pub fn postprocess_with(&mut self, before: &[Token], after: &[Token])
        requires
            old(self).fits(before@, after@),
        ensures
            final(self).fits(before@, after@),
            kept(before@, final(self).removed@) == kept(before@, old(self).removed@),
            kept(after@, final(self).added@) == kept(after@, old(self).added@),
            is_alignment(before@, after@, old(self).removed@, old(self).added@) ==> is_alignment(
                before@,
                after@,
                final(self).removed@,
                final(self).added@,
            ),
            (final(self).removed@, final(self).added@) == postprocessed(
                before@,
                after@,
                old(self).removed@,
                old(self).added@,
            ),
            settled_upto(final(self).added@, old(self).removed@, after@, after@.len() as int),
            settled_upto(final(self).removed@, final(self).added@, before@, before@.len() as int),
    {
        let mut added: Vec<bool> = Vec::new();
        core::mem::swap(&mut added, &mut self.added);
        let first = Postprocessor {
            added,
            removed: self.removed.as_slice(),
            tokens: after,
            hunk: Hunk { start: 0, end: 0 },
        };
        let added = first.run();
        proof {
            lemma_kept_len(after@, added@, added@.len() as int);
            lemma_kept_len(after@, old(self).added@, added@.len() as int);
        }
        let mut removed: Vec<bool> = Vec::new();
        core::mem::swap(&mut removed, &mut self.removed);
        let ghost removed_before = removed@;
        let second = Postprocessor {
            added: removed,
            removed: added.as_slice(),
            tokens: before,
            hunk: Hunk { start: 0, end: 0 },
        };
        let removed = second.run();
        proof {
            lemma_kept_len(before@, removed@, removed@.len() as int);
            lemma_kept_len(before@, removed_before, removed@.len() as int);
        }
        self.added = added;
        self.removed = removed;
    }
}

impl<'a> Postprocessor<'a> {
    /// `hunk` is a run of `true` entries of `added` that cannot be made longer.
    pub open spec fn hunk_wf(&self) -> bool {
        &&& self.added@.len() == self.tokens@.len()
        &&& is_hunk(self.added@, self.hunk.start as int, self.hunk.end as int)
    }

    /// The mask with the hunk picked out.
    pub open spec fn placed(&self) -> Placed {
        Placed { mask: self.added@, start: self.hunk.start as int, end: self.hunk.end as int }
    }

    /// The token behind the hunk equals its first token.
    pub open spec fn can_slide_down(&self) -> bool {
        slides_down(self.tokens@, self.hunk.start as int, self.hunk.end as int)
    }

    /// The token before the hunk equals its last token.
    pub open spec fn can_slide_up(&self) -> bool {
        self.hunk.start > 0 && self.tokens@[self.hunk.start - 1] == self.tokens@[self.hunk.end - 1]
    }

    /// How many entries before the end of the hunk are `true`.
    pub open spec fn marked_before_end(&self) -> int {
        self.hunk.end - unmarked_before(self.added@, self.hunk.end as int)
    }

    /// Every hunk before the current one is settled.
    pub open spec fn settled_before(&self) -> bool {
        settled_upto(self.added@, self.removed@, self.tokens@, self.hunk.start - 1)
    }

    /// `pos` lies in the gap of the other mask that corresponds to the place of the
    /// hunk: as many tokens are kept before `pos` there as before the hunk here.
    pub open spec fn in_gap(&self, pos: int) -> bool {
        &&& 0 <= pos <= self.removed@.len()
        &&& unmarked_before(self.removed@, pos) == unmarked_before(
            self.added@,
            self.hunk.start as int,
        )
    }

    /// `pos` is the end of that gap.
    pub open spec fn at_gap_end(&self, pos: int) -> bool {
        self.in_gap(pos) && (pos == self.removed@.len() || !self.removed@[pos])
    }

    /// The hunk can slide between the place at which it would start at `top` and
    /// where it is: the entries from `top` up to the hunk are `false`, each token
    /// there equals the token one hunk length further on, and `top` is where a hunk
    /// there would begin.
    pub open spec fn slides_from(&self, top: int) -> bool {
        let size = self.hunk.end - self.hunk.start;
        &&& 0 <= top <= self.hunk.start
        &&& top == 0 || !self.added@[top - 1]
        &&& forall|i: int|
            top <= i < self.hunk.start ==> !self.added@[i] && self.tokens@[i] == self.tokens@[i
                + size]
    }

    /// Moves the hunk one place down if the token behind it equals its first token,
    /// and then lets it take in the hunk that it may have run into.
    pub fn slide_down(&mut self) -> (moved: bool)
        requires
            old(self).hunk_wf(),
        ensures
            final(self).hunk_wf(),
            final(self).removed@ == old(self).removed@,
            final(self).tokens@ == old(self).tokens@,
            moved == old(self).can_slide_down(),
            final(self).placed() == slid_down(old(self).placed(), old(self).tokens@),
            !moved ==> final(self).added@ == old(self).added@ && final(self).hunk == old(self).hunk,
            moved ==> final(self).added@ == old(self).added@.update(
                old(self).hunk.start as int,
                false,
            ).update(old(self).hunk.end as int, true),
            moved ==> final(self).hunk.start == old(self).hunk.start + 1,
            moved ==> final(self).hunk.end > old(self).hunk.end,
            kept(final(self).tokens@, final(self).added@) == kept(old(self).tokens@, old(self).added@),
            unmarked(final(self).added@) == unmarked(old(self).added@),
            moved ==> unmarked_before(final(self).added@, final(self).hunk.start as int)
                == unmarked_before(old(self).added@, old(self).hunk.start as int) + 1,
            final(self).marked_before_end() >= old(self).marked_before_end(),
            final(self).hunk.end - final(self).hunk.start >= old(self).hunk.end - old(self).hunk.start,
            old(self).settled_before() ==> final(self).settled_before(),
    {
        let start: usize = self.hunk.start;
        let end: usize = self.hunk.end;
        if end == self.tokens.len() || !(self.tokens[start] == self.tokens[end]) {
            return false;
        }
        proof {
            lemma_slide_keeps(self.tokens@, self.added@, start as int, end as int);
        }
        self.added[start] = false;
        self.added[end] = true;
        self.hunk.start = start + 1;
        self.hunk.end = find_hunk_end(self.added.as_slice(), end);
        proof {
            let m0 = old(self).added@;
            let m1 = m0.update(start as int, false);
            let m2 = self.added@;
            lemma_unmarked_agree(m0, m2, 0, start as int);
            lemma_unmarked_run(m2, end as int, self.hunk.end as int);
            lemma_unmarked_update(m0, start as int, false, end as int);
            lemma_unmarked_agree(m1, m2, 0, end as int);
            if old(self).settled_before() {
                lemma_settled_frame(m0, m2, self.removed@, self.tokens@, start - 1);
                lemma_settled_step(m2, self.removed@, self.tokens@, start - 1);
            }
        }
        true
    }

    /// Moves the hunk one place up if the token before it equals its last token,
    /// and then lets it take in the hunk that it may have run into.
    pub fn slide_up(&mut self) -> (moved: bool)
        requires
            old(self).hunk_wf(),
        ensures
            final(self).hunk_wf(),
            final(self).removed@ == old(self).removed@,
            final(self).tokens@ == old(self).tokens@,
            moved == old(self).can_slide_up(),
            final(self).placed() == slid_up(old(self).placed(), old(self).tokens@),
            !moved ==> final(self).added@ == old(self).added@ && final(self).hunk == old(self).hunk,
            moved ==> final(self).added@ == old(self).added@.update(
                old(self).hunk.start - 1,
                true,
            ).update(old(self).hunk.end - 1, false),
            moved ==> final(self).hunk.end == old(self).hunk.end - 1,
            moved ==> final(self).hunk.start < old(self).hunk.start,
            kept(final(self).tokens@, final(self).added@) == kept(old(self).tokens@, old(self).added@),
            unmarked(final(self).added@) == unmarked(old(self).added@),
            moved ==> unmarked_before(final(self).added@, final(self).hunk.start as int)
                == unmarked_before(old(self).added@, old(self).hunk.start as int) - 1,
            final(self).marked_before_end() == old(self).marked_before_end(),
            final(self).hunk.end - final(self).hunk.start >= old(self).hunk.end - old(self).hunk.start,
            old(self).settled_before() ==> final(self).settled_before(),
    {
        let start: usize = self.hunk.start;
        let end: usize = self.hunk.end;
        if start == 0 || !(self.tokens[start - 1] == self.tokens[end - 1]) {
            return false;
        }
        self.added[start - 1] = true;
        self.added[end - 1] = false;
        self.hunk.end = end - 1;
        self.hunk.start = find_hunk_start(self.added.as_slice(), start - 1);
        proof {
            let m0 = old(self).added@;
            let m1 = m0.update(start - 1, true);
            let m2 = self.added@;
            lemma_slide_keeps(self.tokens@, m2, start - 1, end - 1);
            assert(m2.update(start - 1, false).update(end - 1, true) =~= m0);
            lemma_unmarked_run(m2, self.hunk.start as int, start - 1);
            lemma_unmarked_agree(m0, m2, 0, start - 1);
            lemma_unmarked_update(m0, start - 1, true, end - 1);
            lemma_unmarked_agree(m1, m2, 0, end - 1);
            if old(self).settled_before() {
                lemma_settled_frame(m0, m2, self.removed@, self.tokens@, self.hunk.start - 1);
            }
        }
        true
    }

    /// Slides the hunk up as far as it goes and then down as far as it goes, and
    /// again for as long as it has taken in another hunk on the way. `pos` follows
    /// the hunk through the gaps of the other mask. The result holds the end of
    /// the gap beside the hunk, whether the other mask has a hunk in a gap that
    /// the hunk came by on its last way down, and the end of the hunk at the
    /// highest place of that way.
    pub fn settle(&mut self, pos: usize) -> (found: (usize, bool, usize))
        requires
            old(self).hunk_wf(),
            old(self).in_gap(pos as int),
            unmarked(old(self).added@) == unmarked(old(self).removed@),
        ensures
            final(self).hunk_wf(),
            final(self).removed@ == old(self).removed@,
            final(self).tokens@ == old(self).tokens@,
            kept(final(self).tokens@, final(self).added@) == kept(old(self).tokens@, old(self).added@),
            unmarked(final(self).added@) == unmarked(old(self).added@),
            final(self).marked_before_end() >= old(self).marked_before_end(),
            old(self).settled_before() ==> final(self).settled_before(),
            settled(old(self).placed(), pos as int, old(self).removed@, old(self).tokens@) == (Settled {
                placed: final(self).placed(),
                pos: found.0 as int,
                is_modification: found.1,
                earliest_end: found.2 as int,
            }),
            !final(self).can_slide_down(),
            final(self).at_gap_end(found.0 as int),
            final(self).hunk.end - final(self).hunk.start <= found.2 <= final(self).hunk.end,
            final(self).slides_from(found.2 - (final(self).hunk.end - final(self).hunk.start)),
            found.1 ==> marked_between(
                final(self).removed@,
                unmarked_before(
                    final(self).added@,
                    found.2 - (final(self).hunk.end - final(self).hunk.start),
                ),
                unmarked_before(final(self).added@, final(self).hunk.start as int),
            ),
    {
        let reference: &[bool] = self.removed;
        let ref_len: usize = reference.len();
        let len: usize = self.added.len();
        let ghost target = settled(old(self).placed(), pos as int, reference@, self.tokens@);
        let mut pos: usize = pos;
        let mut earliest_end: usize = self.hunk.end;
        let mut is_modification: bool = false;
        loop
            invariant_except_break
                settled(self.placed(), pos as int, reference@, self.tokens@) == target,
            invariant
                self.hunk_wf(),
                self.removed@ == old(self).removed@,
                self.tokens@ == old(self).tokens@,
                reference@ == self.removed@,
                ref_len == reference@.len(),
                len == self.added@.len(),
                kept(self.tokens@, self.added@) == kept(old(self).tokens@, old(self).added@),
                unmarked(self.added@) == unmarked(reference@),
                unmarked(self.added@) == unmarked(old(self).added@),
                self.marked_before_end() >= old(self).marked_before_end(),
                old(self).settled_before() ==> self.settled_before(),
                self.in_gap(pos as int),
            ensures
                target == (Settled {
                    placed: self.placed(),
                    pos: pos as int,
                    is_modification,
                    earliest_end: earliest_end as int,
                }),
                !self.can_slide_down(),
                self.at_gap_end(pos as int),
                self.hunk.end - self.hunk.start <= earliest_end <= self.hunk.end,
                self.slides_from(earliest_end - (self.hunk.end - self.hunk.start)),
                is_modification ==> marked_between(
                    reference@,
                    unmarked_before(self.added@, earliest_end - (self.hunk.end - self.hunk.start)),
                    unmarked_before(self.added@, self.hunk.start as int),
                ),
            decreases len - (self.hunk.end - self.hunk.start),
        {
            let size: usize = self.hunk.end - self.hunk.start;
            let ghost gap_pos: int = pos as int;
            let ghost at_head = self.placed();
            pos = find_hunk_start(reference, pos);
            proof {
                lemma_unmarked_run(reference@, pos as int, gap_pos);
            }
            let ghost up = all_up(at_head, pos as int, reference@, self.tokens@);
            loop
                invariant
                    all_up(self.placed(), pos as int, reference@, self.tokens@) == up,
                    self.hunk_wf(),
                    self.removed@ == old(self).removed@,
                    self.tokens@ == old(self).tokens@,
                    reference@ == self.removed@,
                    ref_len == reference@.len(),
                    len == self.added@.len(),
                    kept(self.tokens@, self.added@) == kept(old(self).tokens@, old(self).added@),
                    unmarked(self.added@) == unmarked(reference@),
                    unmarked(self.added@) == unmarked(old(self).added@),
                    self.marked_before_end() >= old(self).marked_before_end(),
                    old(self).settled_before() ==> self.settled_before(),
                    self.in_gap(pos as int),
                    pos == 0 || !reference@[pos - 1],
                    self.hunk.end - self.hunk.start >= size,
                ensures
                    up == (self.placed(), pos as int),
                decreases self.hunk.end,
            {
                let moved: bool = self.slide_up();
                if !moved {
                    break ;
                }
                proof {
                    lemma_unmarked_bounds(self.added@, self.hunk.start as int);
                }
                let ghost above: int = pos - 1;
                pos = find_hunk_start(reference, pos - 1);
                proof {
                    lemma_unmarked_run(reference@, pos as int, above);
                }
            }
            earliest_end = self.hunk.end;
            let ghost top: int = self.hunk.start as int;
            let ghost top_size: int = self.hunk.end - self.hunk.start;
            let ghost top_kept: int = unmarked_before(self.added@, top);
            is_modification = pos < ref_len && reference[pos];
            let ghost gap_start: int = pos as int;
            pos = find_hunk_end(reference, pos);
            proof {
                lemma_unmarked_run(reference@, gap_start, pos as int);
                if is_modification {
                    assert(gap_marked(reference@, top_kept)) by {
                        assert(unmarked_before(reference@, gap_start) == top_kept);
                    }
                }
            }
            let ghost down = all_down(
                self.placed(),
                pos as int,
                is_modification,
                reference@,
                self.tokens@,
            );
            loop
                invariant
                    all_down(self.placed(), pos as int, is_modification, reference@, self.tokens@)
                        == down,
                    self.hunk_wf(),
                    self.removed@ == old(self).removed@,
                    self.tokens@ == old(self).tokens@,
                    reference@ == self.removed@,
                    ref_len == reference@.len(),
                    len == self.added@.len(),
                    kept(self.tokens@, self.added@) == kept(old(self).tokens@, old(self).added@),
                    unmarked(self.added@) == unmarked(reference@),
                    unmarked(self.added@) == unmarked(old(self).added@),
                    self.marked_before_end() >= old(self).marked_before_end(),
                    old(self).settled_before() ==> self.settled_before(),
                    self.at_gap_end(pos as int),
                    self.hunk.end - self.hunk.start >= top_size >= size,
                    0 <= top,
                    self.hunk.end - self.hunk.start == top_size ==> {
                        &&& self.hunk.end - earliest_end == self.hunk.start - top
                        &&& self.slides_from(top)
                        &&& unmarked_before(self.added@, top) == top_kept
                        &&& is_modification ==> marked_between(
                            reference@,
                            top_kept,
                            unmarked_before(self.added@, self.hunk.start as int),
                        )
                    },
                ensures
                    !self.can_slide_down(),
                    down == (self.placed(), pos as int, is_modification),
                decreases len - self.hunk.start,
            {
                let ghost before_added = self.added@;
                let ghost before_start: int = self.hunk.start as int;
                let ghost marked_so_far: bool = is_modification;
                let moved: bool = self.slide_down();
                if !moved {
                    break ;
                }
                proof {
                    lemma_unmarked_monotone(self.added@, self.hunk.start as int, len as int);
                }
                let ghost below: int = pos + 1;
                pos = find_hunk_end(reference, pos + 1);
                proof {
                    lemma_unmarked_run(reference@, below, pos as int);
                }
                let beside_now: bool = reference[pos - 1];
                is_modification = is_modification || beside_now;
                proof {
                    if self.hunk.end - self.hunk.start == top_size {
                        let now_kept = unmarked_before(self.added@, self.hunk.start as int);
                        lemma_unmarked_agree(before_added, self.added@, 0, top);
                        assert forall|i: int| top <= i < self.hunk.start implies !self.added@[i]
                            && self.tokens@[i] == self.tokens@[i + top_size] by {
                            if i < before_start {
                                assert(!before_added[i]);
                            }
                        }
                        assert(self.slides_from(top));
                        lemma_unmarked_run_of_false(self.added@, top, self.hunk.start as int);
                        assert(self.hunk.end - earliest_end == self.hunk.start - top);
                        if beside_now {
                            assert(gap_marked(reference@, now_kept)) by {
                                assert(unmarked_before(reference@, pos - 1) == now_kept);
                            }
                        } else if marked_so_far {
                            let kept_at = choose|kept_at: int|
                                top_kept <= kept_at <= now_kept - 1 && #[trigger] gap_marked(
                                    reference@,
                                    kept_at,
                                );
                            assert(top_kept <= kept_at <= now_kept && gap_marked(reference@, kept_at));
                        }
                    }
                }
            }
            // A hunk that has taken in a neighbour may slide further.
            if size == self.hunk.end - self.hunk.start {
                break ;
            }
        }
        (pos, is_modification, earliest_end)
    }

    /// Moves the hunk, which lies at its lowest place, back up to the nearest place
    /// beside a hunk of the other mask. `pos` is the end of the gap beside the hunk,
    /// before and after.
    pub fn align(&mut self, pos: usize, earliest_end: usize) -> (gap_end: usize)
        requires
            old(self).hunk_wf(),
            old(self).at_gap_end(pos as int),
            old(self).hunk.end - old(self).hunk.start <= earliest_end <= old(self).hunk.end,
            old(self).slides_from(earliest_end - (old(self).hunk.end - old(self).hunk.start)),
            marked_between(
                old(self).removed@,
                unmarked_before(
                    old(self).added@,
                    earliest_end - (old(self).hunk.end - old(self).hunk.start),
                ),
                unmarked_before(old(self).added@, old(self).hunk.start as int),
            ),
        ensures
            final(self).hunk_wf(),
            final(self).removed@ == old(self).removed@,
            final(self).tokens@ == old(self).tokens@,
            kept(final(self).tokens@, final(self).added@) == kept(old(self).tokens@, old(self).added@),
            unmarked(final(self).added@) == unmarked(old(self).added@),
            final(self).marked_before_end() == old(self).marked_before_end(),
            old(self).settled_before() ==> final(self).settled_before(),
            aligned(old(self).placed(), pos as int, old(self).removed@, old(self).tokens@) == (
                final(self).placed(),
                gap_end as int,
            ),
            final(self).at_gap_end(gap_end as int),
            beside(final(self).added@, final(self).removed@, final(self).hunk.start as int),
            earliest_end <= final(self).hunk.end <= old(self).hunk.end,
    {
        let reference: &[bool] = self.removed;
        let ghost target = aligned(old(self).placed(), pos as int, reference@, self.tokens@);
        let mut pos: usize = pos;
        let ghost size: int = self.hunk.end - self.hunk.start;
        let ghost top: int = earliest_end - size;
        let ghost top_kept: int = unmarked_before(self.added@, top);
        loop
            invariant
                self.hunk_wf(),
                self.removed@ == old(self).removed@,
                self.tokens@ == old(self).tokens@,
                reference@ == self.removed@,
                kept(self.tokens@, self.added@) == kept(old(self).tokens@, old(self).added@),
                unmarked(self.added@) == unmarked(old(self).added@),
                self.marked_before_end() == old(self).marked_before_end(),
                old(self).settled_before() ==> self.settled_before(),
                self.at_gap_end(pos as int),
                self.hunk.end - self.hunk.start == size,
                self.hunk.end <= old(self).hunk.end,
                top == earliest_end - size,
                self.slides_from(top),
                unmarked_before(self.added@, top) == top_kept,
                marked_between(
                    reference@,
                    top_kept,
                    unmarked_before(self.added@, self.hunk.start as int),
                ),
                aligned(self.placed(), pos as int, reference@, self.tokens@) == target,
            ensures
                beside(self.added@, reference@, self.hunk.start as int),
                target == (self.placed(), pos as int),
            decreases self.hunk.end,
        {
            let ghost now_kept: int = unmarked_before(self.added@, self.hunk.start as int);
            if pos > 0 && reference[pos - 1] {
                proof {
                    assert(gap_marked(reference@, now_kept)) by {
                        assert(unmarked_before(reference@, pos - 1) == now_kept);
                    }
                }
                break ;
            }
            let ghost before_added = self.added@;
            let ghost before_start: int = self.hunk.start as int;
            proof {
                lemma_gap_empty(reference@, pos as int);
                let kept_at = choose|kept_at: int|
                    top_kept <= kept_at <= now_kept && #[trigger] gap_marked(reference@, kept_at);
                assert(kept_at < now_kept);
                lemma_unmarked_run_of_false(self.added@, top, before_start);
                lemma_unmarked_bounds(reference@, pos as int);
                lemma_unmarked_bounds(self.added@, top);
                assert(pos >= 1);
            }
            let moved: bool = self.slide_up();
            proof {
                assert(moved);
                if before_start - 2 >= 0 {
                    assert(!self.added@[before_start - 2]);
                }
                assert(self.hunk.start == before_start - 1);
                lemma_unmarked_agree(before_added, self.added@, 0, top);
                assert forall|i: int| top <= i < self.hunk.start implies !self.added@[i]
                    && self.tokens@[i] == self.tokens@[i + size] by {
                    assert(!before_added[i]);
                }
                assert(self.slides_from(top));
                let still = choose|kept_at: int|
                    top_kept <= kept_at <= now_kept && #[trigger] gap_marked(reference@, kept_at);
                assert(top_kept <= still <= now_kept - 1 && gap_marked(reference@, still));
            }
            pos = pos - 1;
        }
        pos
    }

    /// Runs the pass and hands back the rewritten mask: the same tokens are kept,
    /// and every hunk lies at the lowest place that it can slide to, or beside a
    /// hunk of the other mask.
    pub fn run(self) -> (result: Vec<bool>)
        requires
            self.added@.len() == self.tokens@.len(),
            unmarked(self.added@) == unmarked(self.removed@),
        ensures
            result@ == pass_masks(self.added@, self.removed@, self.tokens@),
            result@.len() == self.added@.len(),
            kept(self.tokens@, result@) == kept(self.tokens@, self.added@),
            settled_upto(result@, self.removed@, self.tokens@, result@.len() as int),
    {
        let mut this = self;
        let len: usize = this.added.len();
        let reference: &[bool] = this.removed;
        let ref_len: usize = reference.len();
        let mut cursor: usize = 0;
        let mut pos: usize = 0;
        proof {
            assert(settled_upto(this.added@, reference@, this.tokens@, 0));
        }
        loop
            invariant
                this.removed@ == self.removed@,
                this.tokens@ == self.tokens@,
                reference@ == self.removed@,
                this.added@.len() == len,
                len == self.tokens@.len(),
                ref_len == reference@.len(),
                kept(self.tokens@, this.added@) == kept(self.tokens@, self.added@),
                unmarked(this.added@) == unmarked(reference@),
                cursor <= len,
                pos <= ref_len,
                unmarked_before(reference@, pos as int) == unmarked_before(
                    this.added@,
                    cursor as int,
                ),
                cursor == 0 || cursor == len || !this.added@[cursor as int],
                settled_upto(this.added@, reference@, self.tokens@, cursor as int),
                pass_from(this.added@, reference@, self.tokens@, cursor as int, pos as int)
                    == pass_masks(self.added@, self.removed@, self.tokens@),
            ensures
                settled_upto(this.added@, reference@, self.tokens@, len as int),
                this.added@ == pass_masks(self.added@, self.removed@, self.tokens@),
                cursor == len,
            decreases len - (cursor - unmarked_before(this.added@, cursor as int)),
        {
            let ghost head: int = cursor as int;
            let ghost floor: int = cursor - unmarked_before(this.added@, cursor as int);
            let ghost at = skipped(this.added@, reference@, cursor as int, pos as int);
            let ghost head_mask = this.added@;
            let ghost head_pos = pos as int;
            proof {
                lemma_unmarked_bounds(this.added@, cursor as int);
            }
            // Step over the tokens that are kept; each has a partner in the other
            // sequence, and `pos` steps over that partner.
            while cursor < len && !this.added[cursor]
                invariant
                    reference@ == self.removed@,
                    this.tokens@ == self.tokens@,
                    this.added@.len() == len,
                    ref_len == reference@.len(),
                    unmarked(this.added@) == unmarked(reference@),
                    head <= cursor <= len,
                    pos <= ref_len,
                    unmarked_before(reference@, pos as int) == unmarked_before(
                        this.added@,
                        cursor as int,
                    ),
                    cursor - unmarked_before(this.added@, cursor as int) == floor,
                    cursor == 0 || !this.added@[cursor - 1] || (cursor == head && (cursor == len
                        || !this.added@[cursor as int])),
                    settled_upto(this.added@, reference@, self.tokens@, cursor as int),
                    this.added@ == head_mask,
                    skipped(this.added@, reference@, cursor as int, pos as int) == at,
                decreases len - cursor,
            {
                let gap_end: usize = find_hunk_end(reference, pos);
                proof {
                    lemma_unmarked_run(reference@, pos as int, gap_end as int);
                    lemma_unmarked_monotone(this.added@, cursor + 1, len as int);
                    lemma_settled_step(this.added@, reference@, self.tokens@, cursor as int);
                }
                pos = gap_end + 1;
                cursor += 1;
            }
            if cursor >= len {
                break ;
            }
            this.hunk.start = cursor;
            this.hunk.end = find_hunk_end(this.added.as_slice(), cursor);
            proof {
                lemma_unmarked_run(this.added@, cursor as int, this.hunk.end as int);
            }
            assert(at == (cursor as int, pos as int));
            let ghost found = settled(this.placed(), pos as int, reference@, self.tokens@);
            let ghost put = placed_of(found, reference@, self.tokens@);
            let (gap_end, is_modification, earliest_end) = this.settle(pos);
            pos = gap_end;
            if this.hunk.start == earliest_end {
                // The hunk keeps its place.
            } else if is_modification {
                // Somewhere along the way the other mask has a hunk: move back up to
                // the nearest place where the two lie side by side.
                pos = this.align(pos, earliest_end);
            } else {
                // An insertion that is free to move stays at its lowest place. A
                // rule that picks another of its places would go here.
            }
            proof {
                lemma_unmarked_run(this.added@, this.hunk.start as int, this.hunk.end as int);
                lemma_unmarked_bounds(this.added@, this.hunk.end as int);
                lemma_settled_hunk(
                    this.added@,
                    reference@,
                    self.tokens@,
                    this.hunk.start as int,
                    this.hunk.end as int,
                );
                assert(put == (this.placed(), pos as int));
                assert(pass_from(head_mask, reference@, self.tokens@, head, head_pos) == pass_from(
                    this.added@,
                    reference@,
                    self.tokens@,
                    this.hunk.end as int,
                    pos as int,
                ));
            }
            cursor = this.hunk.end;
        }
        proof {
            // With the last hunk behind it, the cursor of the other mask has nothing
            // but a hunk left before the end.
            lemma_hunk_end(reference@, pos as int);
            let rest = hunk_end(reference@, pos as int);
            if rest < ref_len {
                lemma_unmarked_monotone(reference@, pos as int, rest);
                lemma_unmarked_monotone(reference@, rest + 1, ref_len as int);
            }
            assert(hunk_end(reference@, pos as int) == ref_len);
        }
        this.added
    }
}

} // verus!
