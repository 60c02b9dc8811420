//! What holds of the diff as a whole, stated over the masks that its functions
//! compute.
use crate::alignment::{
    is_alignment, kept, lemma_kept_len, lemma_kept_source, lemma_unmarked_all,
    lemma_unmarked_bounds, marked, uniform, unmarked,
};
use crate::histogram::{
    histogram_masks, lemma_histogram_alignment, lemma_occurrences, occurrences,
};
use crate::lcs::{
    fresh_search, is_shared, lcs_of, lemma_lcs_of, lemma_scan_self, seeds_from, shares_from,
};
use crate::myers::{
    lemma_alignment_cost, lemma_lcs_self, lemma_myers_alignment, myers_added, myers_removed,
};
use crate::postprocess::{lemma_pass_fixed, nothing_slides, postprocessed};
use crate::Token;
use vstd::prelude::*;

verus! {

/// The histogram diff keeps as many tokens of the first sequence as of the second,
/// and the kept tokens are the same, in the same order.
pub proof fn lemma_conservation(before: Seq<Token>, after: Seq<Token>)
    requires
        before.len() <= u32::MAX,
    ensures
        is_alignment(before, after, histogram_masks(before, after).0, histogram_masks(before, after).1),
        unmarked(histogram_masks(before, after).0) == unmarked(histogram_masks(before, after).1),
{
    lemma_histogram_alignment(before, after);
    let masks = histogram_masks(before, after);
    lemma_kept_len(before, masks.0, before.len() as int);
    lemma_kept_len(after, masks.1, after.len() as int);
}

/// The masks are a function of the two sequences: two computations that both meet
/// the contracts of the diff and of the postprocessing end with the same masks.
pub proof fn lemma_deterministic(
    before: Seq<Token>,
    after: Seq<Token>,
    first: (Seq<bool>, Seq<bool>),
    second: (Seq<bool>, Seq<bool>),
    first_post: (Seq<bool>, Seq<bool>),
    second_post: (Seq<bool>, Seq<bool>),
)
    requires
        first == histogram_masks(before, after),
        second == histogram_masks(before, after),
        first_post == postprocessed(before, after, first.0, first.1),
        second_post == postprocessed(before, after, second.0, second.1),
    ensures
        first == second,
        first_post == second_post,
{
}

/// Postprocessing leaves a diff in which no hunk can move as it is; on such a
/// diff, postprocessing twice is postprocessing once.
pub proof fn lemma_postprocess_fixed(
    before: Seq<Token>,
    after: Seq<Token>,
    removed: Seq<bool>,
    added: Seq<bool>,
)
    requires
        nothing_slides(removed, before),
        nothing_slides(added, after),
    ensures
        postprocessed(before, after, removed, added) == (removed, added),
        postprocessed(
            before,
            after,
            postprocessed(before, after, removed, added).0,
            postprocessed(before, after, removed, added).1,
        ) == postprocessed(before, after, removed, added),
{
    lemma_pass_fixed(added, removed, after, 0, 0);
    lemma_pass_fixed(removed, added, before, 0, 0);
}

/// The diff of a sequence with itself marks nothing.
pub proof fn lemma_identical(s: Seq<Token>)
    requires
        s.len() <= u32::MAX,
    ensures
        histogram_masks(s, s).0 == uniform(s.len(), false),
        histogram_masks(s, s).1 == uniform(s.len(), false),
{
    let n = s.len() as int;
    let masks = histogram_masks(s, s);
    if n == 0 {
        assert(masks.0 =~= uniform(s.len(), false));
        assert(masks.1 =~= uniform(s.len(), false));
    } else {
        lemma_lcs_of(s, s);
        match lcs_of(s, s) {
            None => {
                lemma_myers_alignment(s, s);
                lemma_lcs_self(s, n);
                lemma_unmarked_bounds(masks.0, n);
                lemma_unmarked_bounds(masks.1, n);
                lemma_unmarked_all(masks.0, n);
                lemma_unmarked_all(masks.1, n);
                assert(masks.0 =~= uniform(s.len(), false));
                assert(masks.1 =~= uniform(s.len(), false));
            },
            Some(run) => {
                assert(is_shared(s, s, 0)) by {
                    lemma_occurrences(s, s[0], n);
                    assert(occurrences(s, s[0], n).contains(0u32));
                }
                lemma_scan_self(s, 0, fresh_search());
                assert(run == crate::lcs::whole(n));
                let nothing = histogram_masks(s.subrange(0, 0), s.subrange(0, 0));
                assert(s.subrange(n, n) =~= s.subrange(0, 0));
                assert(masks.0 =~= uniform(s.len(), false));
                assert(masks.1 =~= uniform(s.len(), false));
            },
        }
    }
}

/// Where the two sequences share no token, every token is marked.
pub proof fn lemma_nothing_shared(before: Seq<Token>, after: Seq<Token>)
    requires
        before.len() <= u32::MAX,
        !shares_from(before, after, 0),
    ensures
        histogram_masks(before, after).0 == uniform(before.len(), true),
        histogram_masks(before, after).1 == uniform(after.len(), true),
{
    lemma_lcs_of(before, after);
}

/// Where the sequences share tokens, but each shared token of the second occurs
/// more than `MAX_CHAIN_LEN` times in the first, the histogram diff is the Myers
/// diff, which is an alignment.
pub proof fn lemma_falls_back(before: Seq<Token>, after: Seq<Token>)
    requires
        before.len() <= u32::MAX,
        shares_from(before, after, 0),
        !seeds_from(before, after, 0),
    ensures
        histogram_masks(before, after).0 == myers_removed(before, after),
        histogram_masks(before, after).1 == myers_added(before, after),
        is_alignment(before, after, myers_removed(before, after), myers_added(before, after)),
{
    lemma_lcs_of(before, after);
    lemma_myers_alignment(before, after);
    if before.len() == 0 || after.len() == 0 {
        let k = choose|k: int| 0 <= k && #[trigger] is_shared(before, after, k);
        assert(occurrences(before, after[k], 0).len() == 0);
    }
}

/// The Myers diff marks no more tokens than any alignment of the two sequences.
pub proof fn lemma_myers_minimal(
    before: Seq<Token>,
    after: Seq<Token>,
    removed: Seq<bool>,
    added: Seq<bool>,
)
    requires
        is_alignment(before, after, removed, added),
    ensures
        marked(myers_removed(before, after)) + marked(myers_added(before, after)) <= marked(removed)
            + marked(added),
{
    lemma_myers_alignment(before, after);
    lemma_alignment_cost(before, after, removed, added);
}

/// An alignment of two sequences that share no token keeps no token.
pub proof fn lemma_alignment_of_strangers(
    before: Seq<Token>,
    after: Seq<Token>,
    removed: Seq<bool>,
    added: Seq<bool>,
)
    requires
        before.len() <= u32::MAX,
        !shares_from(before, after, 0),
        is_alignment(before, after, removed, added),
    ensures
        marked(removed) == before.len(),
        marked(added) == after.len(),
{
    lemma_kept_len(before, removed, before.len() as int);
    lemma_kept_len(after, added, after.len() as int);
    if kept(before, removed).len() > 0 {
        let i = lemma_kept_source(before, removed, before.len() as int, 0);
        let j = lemma_kept_source(after, added, after.len() as int, 0);
        lemma_occurrences(before, after[j], before.len() as int);
        assert(occurrences(before, after[j], before.len() as int).contains(i as u32));
        assert(is_shared(before, after, j));
    }
}

/// Where the histogram diff takes no common run at its first step, because one
/// sequence is empty, because the two share no token or because it falls back, it
/// marks no more tokens than any alignment of the two sequences.
pub proof fn lemma_minimal_without_split(
    before: Seq<Token>,
    after: Seq<Token>,
    removed: Seq<bool>,
    added: Seq<bool>,
)
    requires
        before.len() <= u32::MAX,
        before.len() == 0 || after.len() == 0 || lcs_of(before, after).is_none() || lcs_of(
            before,
            after,
        ).unwrap().len == 0,
        is_alignment(before, after, removed, added),
    ensures
        marked(histogram_masks(before, after).0) + marked(histogram_masks(before, after).1)
            <= marked(removed) + marked(added),
{
    let masks = histogram_masks(before, after);
    lemma_lcs_of(before, after);
    if before.len() == 0 || after.len() == 0 {
        lemma_kept_len(before, removed, before.len() as int);
        lemma_kept_len(after, added, after.len() as int);
        lemma_unmarked_bounds(removed, before.len() as int);
        lemma_unmarked_bounds(added, after.len() as int);
        lemma_unmarked_bounds(masks.0, before.len() as int);
        lemma_unmarked_bounds(masks.1, after.len() as int);
    } else if lcs_of(before, after).is_none() {
        lemma_myers_minimal(before, after, removed, added);
    } else {
        lemma_alignment_of_strangers(before, after, removed, added);
        lemma_marks_bounded(before, after);
    }
}

/// The Myers diff never marks more tokens than the histogram diff, which may
/// split around a rare token where a longer common subsequence avoids it.
pub proof fn lemma_myers_never_worse(before: Seq<Token>, after: Seq<Token>)
    requires
        before.len() <= u32::MAX,
    ensures
        marked(myers_removed(before, after)) + marked(myers_added(before, after)) <= marked(
            histogram_masks(before, after).0,
        ) + marked(histogram_masks(before, after).1),
{
    lemma_histogram_alignment(before, after);
    lemma_myers_minimal(
        before,
        after,
        histogram_masks(before, after).0,
        histogram_masks(before, after).1,
    );
}

/// The histogram diff never marks more than every token of both sequences.
pub proof fn lemma_marks_bounded(before: Seq<Token>, after: Seq<Token>)
    requires
        before.len() <= u32::MAX,
    ensures
        0 <= marked(histogram_masks(before, after).0) <= before.len(),
        0 <= marked(histogram_masks(before, after).1) <= after.len(),
{
    lemma_histogram_alignment(before, after);
    let masks = histogram_masks(before, after);
    lemma_unmarked_bounds(masks.0, before.len() as int);
    lemma_unmarked_bounds(masks.1, after.len() as int);
}

} // verus!
