//! The histogram diff: an index of where each token occurs, and the recursion that
//! splits the two sequences around the rarest common run.
use crate::alignment::{is_alignment, lemma_kept_all, lemma_kept_concat, lemma_kept_run, uniform};
use crate::lcs::{find_lcs, lcs_of, lemma_lcs_of, same_at};
use crate::list_pool::{ListHandle, ListPool};
use crate::myers::{lemma_myers_alignment, myers_added, myers_removed};
use crate::util::fill;
use crate::Token;
use vstd::prelude::*;
use vstd::slice::slice_subrange;

verus! {

/// A token that occurs more often than this in the first sequence is too common
/// to start a search for a common run.
pub const MAX_CHAIN_LEN: u32 = 63;

/// The positions among the first `upto` of `file` that hold `token`, ascending.
pub open spec fn occurrences(file: Seq<Token>, token: Token, upto: int) -> Seq<u32>
    decreases upto,
{
    if upto <= 0 {
        Seq::empty()
    } else if file[upto - 1] == token {
        occurrences(file, token, upto - 1).push((upto - 1) as u32)
    } else {
        occurrences(file, token, upto - 1)
    }
}

/// How often `token` occurs in `file`.
pub open spec fn count(file: Seq<Token>, token: Token) -> int {
    occurrences(file, token, file.len() as int).len() as int
}

/// Every token of `file` is below `num_tokens`.
pub open spec fn tokens_below(file: Seq<Token>, num_tokens: int) -> bool {
    forall|i: int| 0 <= i < file.len() ==> (#[trigger] file[i]).0 < num_tokens
}

/// Every listed position lies below `upto`, holds the token, and the positions
/// ascend.
pub proof fn lemma_occurrences(file: Seq<Token>, token: Token, upto: int)
    requires
        0 <= upto <= file.len(),
        upto <= u32::MAX,
    ensures
        occurrences(file, token, upto).len() <= upto,
        forall|k: int|
            0 <= k < occurrences(file, token, upto).len() ==> {
                &&& 0 <= (#[trigger] occurrences(file, token, upto)[k]) < upto
                &&& file[occurrences(file, token, upto)[k] as int] == token
            },
        forall|i: int|
            0 <= i < upto && file[i] == token ==> occurrences(file, token, upto).contains(i as u32),
    decreases upto,
{
    if upto > 0 {
        lemma_occurrences(file, token, upto - 1);
        let shorter = occurrences(file, token, upto - 1);
        let longer = occurrences(file, token, upto);
        assert forall|i: int| 0 <= i < upto && file[i] == token implies longer.contains(
            i as u32,
        ) by {
            if i < upto - 1 {
                let k = choose|k: int| 0 <= k < shorter.len() && shorter[k] == i as u32;
                assert(longer[k] == i as u32);
            } else {
                assert(longer[longer.len() - 1] == i as u32);
            }
        }
    }
}

/// The masks of the histogram diff of `before` and `after`: where one sequence is
/// empty, or the two share no token, everything is marked; where they share tokens
/// but each shared token is too common, the masks are those of the Myers diff; else
/// the best common run stays unmarked, and what lies before it and what lies
/// behind it are diffed in the same way.
pub open spec fn histogram_masks(before: Seq<Token>, after: Seq<Token>) -> (Seq<bool>, Seq<bool>)
    decreases before.len() + after.len(),
{
    let everything = (uniform(before.len(), true), uniform(after.len(), true));
    if before.len() == 0 || after.len() == 0 {
        everything
    } else {
        match lcs_of(before, after) {
            None => (myers_removed(before, after), myers_added(before, after)),
            Some(run) => {
                let before_end = run.before_start + run.len;
                let after_end = run.after_start + run.len;
                if run.len > 0 && 0 <= run.before_start && before_end <= before.len() && 0
                    <= run.after_start && after_end <= after.len() {
                    let left = histogram_masks(
                        before.subrange(0, run.before_start),
                        after.subrange(0, run.after_start),
                    );
                    let right = histogram_masks(
                        before.subrange(before_end, before.len() as int),
                        after.subrange(after_end, after.len() as int),
                    );
                    let matched = uniform(run.len as nat, false);
                    (left.0 + matched + right.0, left.1 + matched + right.1)
                } else {
                    everything
                }
            },
        }
    }
}

/// No entry of `mask` from `from` on is `true`.
pub open spec fn unmarked_from(mask: Seq<bool>, from: int) -> bool {
    forall|i: int| from <= i < mask.len() ==> !mask[i]
}

/// The histogram diff is an alignment: each mask has the length of its sequence,
/// and both keep the same tokens in the same order.
pub proof fn lemma_histogram_alignment(before: Seq<Token>, after: Seq<Token>)
    requires
        before.len() <= u32::MAX,
    ensures
        is_alignment(before, after, histogram_masks(before, after).0, histogram_masks(before, after).1),
    decreases before.len() + after.len(),
{
    let n = before.len() as int;
    let m = after.len() as int;
    let masks = histogram_masks(before, after);
    if n == 0 || m == 0 {
        lemma_kept_run(before, masks.0, 0, n);
        lemma_kept_run(after, masks.1, 0, m);
    } else {
        lemma_lcs_of(before, after);
        match lcs_of(before, after) {
            None => {
                lemma_myers_alignment(before, after);
            },
            Some(run) => {
                if run.len > 0 {
                    let bs = run.before_start;
                    let os = run.after_start;
                    let b1 = before.subrange(0, bs);
                    let a1 = after.subrange(0, os);
                    let b2 = before.subrange(bs, bs + run.len);
                    let a2 = after.subrange(os, os + run.len);
                    let b3 = before.subrange(bs + run.len, n);
                    let a3 = after.subrange(os + run.len, m);
                    lemma_histogram_alignment(b1, a1);
                    lemma_histogram_alignment(b3, a3);
                    let left = histogram_masks(b1, a1);
                    let right = histogram_masks(b3, a3);
                    let matched = uniform(run.len as nat, false);
                    assert(b2 =~= a2) by {
                        assert forall|k: int| 0 <= k < run.len implies b2[k] == a2[k] by {
                            assert(same_at(before, after, bs, os, k));
                        }
                    }
                    lemma_kept_all(b2, matched, run.len);
                    lemma_kept_all(a2, matched, run.len);
                    assert(b2.subrange(0, run.len) =~= b2);
                    assert(a2.subrange(0, run.len) =~= a2);
                    lemma_kept_concat(b1, left.0, b2, matched);
                    lemma_kept_concat(b1 + b2, left.0 + matched, b3, right.0);
                    lemma_kept_concat(a1, left.1, a2, matched);
                    lemma_kept_concat(a1 + a2, left.1 + matched, a3, right.1);
                    assert(b1 + b2 + b3 =~= before);
                    assert(a1 + a2 + a3 =~= after);
                } else {
                    lemma_kept_run(before, masks.0, 0, n);
                    lemma_kept_run(after, masks.1, 0, m);
                }
            },
        }
    }
}

/// Computes the histogram diff of `before` and `after` into `removed` and `added`,
/// which hold no mark yet. Every token is below `num_tokens`.
pub fn diff(
    before: &[Token],
    after: &[Token],
    removed: &mut [bool],
    added: &mut [bool],
    num_tokens: u32,
)
    requires
        old(removed)@.len() == before@.len(),
        old(added)@.len() == after@.len(),
        before@.len() <= u32::MAX,
        after@.len() <= u32::MAX,
        tokens_below(before@, num_tokens as int),
        tokens_below(after@, num_tokens as int),
        unmarked_from(old(removed)@, 0),
        unmarked_from(old(added)@, 0),
    ensures
        final(removed)@ == histogram_masks(before@, after@).0,
        final(added)@ == histogram_masks(before@, after@).1,
        is_alignment(before@, after@, final(removed)@, final(added)@),
{
    let mut histogram = Histogram::new(num_tokens);
    histogram.run(before, after, removed, added);
    proof {
        lemma_histogram_alignment(before@, after@);
    }
}

/// One step of the diff, seen from one mask: `marks` holds what lies before
/// `from` and no mark behind it; `now` differs from it by the masks `left` of what
/// lies before the common run. Then `now` holds what lies before the end of the
/// run, and no mark behind it.
pub proof fn lemma_split_step(
    marks: Seq<bool>,
    now: Seq<bool>,
    from: int,
    left: Seq<bool>,
    len: int,
    right: Seq<bool>,
    target: Seq<bool>,
)
    requires
        0 <= from,
        0 <= len,
        from + left.len() + len <= marks.len(),
        unmarked_from(marks, from),
        now == marks.subrange(0, from) + left + marks.subrange(
            from + left.len(),
            marks.len() as int,
        ),
        marks.subrange(0, from) + (left + uniform(len as nat, false) + right) == target,
    ensures
        now.len() == marks.len(),
        now.subrange(0, from + left.len() + len) + right == target,
        unmarked_from(now, from + left.len() + len),
{
    let done = from + left.len() + len;
    assert(now.subrange(0, done) =~= marks.subrange(0, from) + left + uniform(len as nat, false));
    assert(now.subrange(0, done) + right =~= marks.subrange(0, from) + (left + uniform(
        len as nat,
        false,
    ) + right));
}

/// Sets every entry of `mask` from `from` on to `value`.
pub fn fill_from(mask: &mut [bool], from: usize, value: bool)
    requires
        from <= old(mask)@.len(),
    ensures
        final(mask)@ == old(mask)@.subrange(0, from as int) + uniform(
            (old(mask)@.len() - from) as nat,
            value,
        ),
{
    let (head, rest) = mask.split_at_mut(from);
    fill(rest, value);
    proof {
        assert(rest@ =~= uniform((old(mask)@.len() - from) as nat, value));
    }
}

/// Runs the Myers diff on the tokens of `before` from `before_from` on and those of
/// `after` from `after_from` on, into the same stretches of `removed` and `added`.
pub fn myers_from(
    before: &[Token],
    after: &[Token],
    removed: &mut [bool],
    added: &mut [bool],
    before_from: usize,
    after_from: usize,
)
    requires
        old(removed)@.len() == before@.len(),
        old(added)@.len() == after@.len(),
        before@.len() <= u32::MAX,
        after@.len() <= u32::MAX,
        before_from <= before@.len(),
        after_from <= after@.len(),
        unmarked_from(old(removed)@, before_from as int),
        unmarked_from(old(added)@, after_from as int),
    ensures
        final(removed)@ == old(removed)@.subrange(0, before_from as int) + myers_removed(
            before@.subrange(before_from as int, before@.len() as int),
            after@.subrange(after_from as int, after@.len() as int),
        ),
        final(added)@ == old(added)@.subrange(0, after_from as int) + myers_added(
            before@.subrange(before_from as int, before@.len() as int),
            after@.subrange(after_from as int, after@.len() as int),
        ),
{
    let rest_before: &[Token] = slice_subrange(before, before_from, before.len());
    let rest_after: &[Token] = slice_subrange(after, after_from, after.len());
    let (head_removed, rest_removed) = removed.split_at_mut(before_from);
    let (head_added, rest_added) = added.split_at_mut(after_from);
    crate::myers::diff(rest_before, rest_after, rest_removed, rest_added);
}

/// For each token, the list of the positions at which it occurs in the part of the
/// first sequence that is being looked at.
pub struct Histogram {
    pub token_occurances: Vec<ListHandle>,
    pub pool: ListPool,
}

impl Histogram {
    /// The number of tokens that the index has room for.
    pub open spec fn num_tokens(&self) -> int {
        self.token_occurances@.len() as int
    }

    /// Each handle is good for the pool, and no two lists share storage.
    pub open spec fn wf(&self) -> bool {
        &&& self.pool.generation >= ListPool::first_generation()
        &&& forall|t: int|
            0 <= t < self.token_occurances@.len() ==> (#[trigger] self.token_occurances@[t]).wf(
                &self.pool,
            )
        &&& forall|t: int, u: int|
            #![trigger self.token_occurances@[t], self.token_occurances@[u]]
            0 <= t < self.token_occurances@.len() && 0 <= u < self.token_occurances@.len() && t != u
                ==> self.token_occurances@[t].apart(self.token_occurances@[u], &self.pool)
    }

    /// The positions that the index lists for `token`.
    pub open spec fn listed(&self, token: Token) -> Seq<u32> {
        self.token_occurances@[token.0 as int].view_in(&self.pool)
    }

    /// The index lists, for each token, its positions among the first `upto` of
    /// `file`.
    pub open spec fn indexes(&self, file: Seq<Token>, upto: int) -> bool {
        &&& self.wf()
        &&& forall|t: u32|
            t < self.token_occurances@.len() ==> #[trigger] self.listed(Token(t)) == occurrences(
                file,
                Token(t),
                upto,
            )
    }

    /// The index lists nothing.
    pub open spec fn is_clear(&self) -> bool {
        &&& self.wf()
        &&& forall|t: u32|
            t < self.token_occurances@.len() ==> (#[trigger] self.listed(Token(t))).len() == 0
    }

    /// An index for the tokens below `num_buckets` that lists nothing.
    pub fn new(num_buckets: u32) -> (histogram: Histogram)
        ensures
            histogram.is_clear(),
            histogram.num_tokens() == num_buckets,
            histogram.pool.generation == ListPool::first_generation(),
    {
        let handles: Vec<ListHandle> = vec![ListHandle::default(); num_buckets as usize];
        Histogram { token_occurances: handles, pool: ListPool::new(num_buckets.saturating_add(num_buckets)) }
    }

    /// Forgets every position, in time that does not depend on the number of
    /// tokens.
    pub fn clear(&mut self)
        requires
            old(self).wf(),
            old(self).pool.generation < u64::MAX,
        ensures
            final(self).is_clear(),
            final(self).num_tokens() == old(self).num_tokens(),
            final(self).pool.generation == old(self).pool.generation + 1,
    {
        self.pool.clear();
    }

    /// The positions at which `token` occurs.
    pub fn token_occurances(&self, token: Token) -> (positions: &[u32])
        requires
            self.wf(),
            token.0 < self.num_tokens(),
        ensures
            positions@ == self.listed(token),
    {
        self.token_occurances[token.0 as usize].as_slice(&self.pool)
    }

    /// How often `token` occurs.
    pub fn num_token_occurances(&self, token: Token) -> (occurrences: u32)
        requires
            self.wf(),
            token.0 < self.num_tokens(),
        ensures
            occurrences == self.listed(token).len(),
    {
        self.token_occurances[token.0 as usize].len(&self.pool)
    }

    /// Diffs `before` and `after` into `removed` and `added`: splits around the
    /// best common run, diffs what lies before the run by a call of itself, and
    /// goes on with what lies behind it.
    pub fn run(
        &mut self,
        before: &[Token],
        after: &[Token],
        removed: &mut [bool],
        added: &mut [bool],
    )
        requires
            old(self).is_clear(),
            old(self).pool.generation + 2 * before@.len() + 1 <= u64::MAX,
            tokens_below(before@, old(self).num_tokens()),
            tokens_below(after@, old(self).num_tokens()),
            old(removed)@.len() == before@.len(),
            old(added)@.len() == after@.len(),
            before@.len() <= u32::MAX,
            after@.len() <= u32::MAX,
            unmarked_from(old(removed)@, 0),
            unmarked_from(old(added)@, 0),
        ensures
            final(removed)@ == histogram_masks(before@, after@).0,
            final(added)@ == histogram_masks(before@, after@).1,
            final(self).is_clear(),
            final(self).num_tokens() == old(self).num_tokens(),
            final(self).pool.generation <= old(self).pool.generation + 2 * before@.len() + 1,
        decreases before@.len() + after@.len(), 0int,
    {
        let n: usize = before.len();
        let m: usize = after.len();
        let mut before_done: usize = 0;
        let mut after_done: usize = 0;
        let ghost target = histogram_masks(before@, after@);
        proof {
            assert(removed@.subrange(0, 0) + target.0 =~= target.0);
            assert(added@.subrange(0, 0) + target.1 =~= target.1);
            assert(before@.subrange(0, n as int) =~= before@);
            assert(after@.subrange(0, m as int) =~= after@);
        }
        loop
            invariant
                n == before@.len(),
                m == after@.len(),
                n <= u32::MAX,
                m <= u32::MAX,
                before_done <= n,
                after_done <= m,
                removed@.len() == n,
                added@.len() == m,
                self.is_clear(),
                self.num_tokens() == old(self).num_tokens(),
                tokens_below(before@, self.num_tokens()),
                tokens_below(after@, self.num_tokens()),
                self.pool.generation <= old(self).pool.generation + 2 * before_done,
                old(self).pool.generation + 2 * n + 1 <= u64::MAX,
                target == histogram_masks(before@, after@),
                removed@.subrange(0, before_done as int) + histogram_masks(
                    before@.subrange(before_done as int, n as int),
                    after@.subrange(after_done as int, m as int),
                ).0 == target.0,
                added@.subrange(0, after_done as int) + histogram_masks(
                    before@.subrange(before_done as int, n as int),
                    after@.subrange(after_done as int, m as int),
                ).1 == target.1,
                unmarked_from(removed@, before_done as int),
                unmarked_from(added@, after_done as int),
            decreases (n - before_done) + (m - after_done),
        {
            let rest_before: &[Token] = slice_subrange(before, before_done, n);
            let rest_after: &[Token] = slice_subrange(after, after_done, m);
            let ghost marks_removed = removed@;
            let ghost marks_added = added@;
            let ghost rest = histogram_masks(rest_before@, rest_after@);
            if rest_before.is_empty() || rest_after.is_empty() {
                fill_from(removed, before_done, true);
                fill_from(added, after_done, true);
                proof {
                    assert(removed@ =~= marks_removed.subrange(0, before_done as int) + rest.0);
                    assert(added@ =~= marks_added.subrange(0, after_done as int) + rest.1);
                }
                return ;
            }
            self.populate(rest_before);
            proof {
                lemma_lcs_of(rest_before@, rest_after@);
            }
            match find_lcs(rest_before, rest_after, self) {
                None => {
                    // Every shared token is too common for the search; the Myers
                    // diff takes no more time on such input than on any other.
                    myers_from(before, after, removed, added, before_done, after_done);
                    return ;
                },
                Some(lcs) => {
                    if lcs.len == 0 {
                        // The two parts have no token in common.
                        fill_from(removed, before_done, true);
                        fill_from(added, after_done, true);
                        proof {
                            assert(removed@ =~= marks_removed.subrange(0, before_done as int)
                                + rest.0);
                            assert(added@ =~= marks_added.subrange(0, after_done as int) + rest.1);
                        }
                        return ;
                    }
                    let before_start: usize = before_done + lcs.before_start as usize;
                    let after_start: usize = after_done + lcs.after_start as usize;
                    let len: usize = lcs.len as usize;
                    let ghost left_before = before@.subrange(before_done as int, before_start as int);
                    let ghost left_after = after@.subrange(after_done as int, after_start as int);
                    proof {
                        assert(left_before =~= rest_before@.subrange(0, lcs.before_start as int));
                        assert(left_after =~= rest_after@.subrange(0, lcs.after_start as int));
                    }
                    self.run_between(
                        before,
                        after,
                        removed,
                        added,
                        before_done,
                        before_start,
                        after_done,
                        after_start,
                    );
                    let ghost left = histogram_masks(left_before, left_after);
                    let ghost matched = uniform(len as nat, false);
                    let ghost before_from = before_done as int;
                    let ghost after_from = after_done as int;
                    before_done = before_start + len;
                    after_done = after_start + len;
                    proof {
                        let right_before = before@.subrange(before_done as int, n as int);
                        let right_after = after@.subrange(after_done as int, m as int);
                        assert(right_before =~= rest_before@.subrange(
                            lcs.before_start + len,
                            rest_before@.len() as int,
                        ));
                        assert(right_after =~= rest_after@.subrange(
                            lcs.after_start + len,
                            rest_after@.len() as int,
                        ));
                        let right = histogram_masks(right_before, right_after);
                        lemma_histogram_alignment(left_before, left_after);
                        lemma_split_step(
                            marks_removed,
                            removed@,
                            before_from,
                            left.0,
                            len as int,
                            right.0,
                            target.0,
                        );
                        lemma_split_step(
                            marks_added,
                            added@,
                            after_from,
                            left.1,
                            len as int,
                            right.1,
                            target.1,
                        );
                    }
                },
            }
        }
    }

    /// Diffs the tokens of `before` from `before_from` up to `before_to` and those
    /// of `after` from `after_from` up to `after_to` into the same stretches of
    /// `removed` and `added`, and leaves the rest of both masks as it is.
    pub fn run_between(
        &mut self,
        before: &[Token],
        after: &[Token],
        removed: &mut [bool],
        added: &mut [bool],
        before_from: usize,
        before_to: usize,
        after_from: usize,
        after_to: usize,
    )
        requires
            old(self).is_clear(),
            old(self).pool.generation + 2 * (before_to - before_from) + 1 <= u64::MAX,
            tokens_below(before@, old(self).num_tokens()),
            tokens_below(after@, old(self).num_tokens()),
            old(removed)@.len() == before@.len(),
            old(added)@.len() == after@.len(),
            before@.len() <= u32::MAX,
            after@.len() <= u32::MAX,
            before_from <= before_to <= before@.len(),
            after_from <= after_to <= after@.len(),
            unmarked_from(old(removed)@, before_from as int),
            unmarked_from(old(added)@, after_from as int),
        ensures
            final(removed)@ == old(removed)@.subrange(0, before_from as int) + histogram_masks(
                before@.subrange(before_from as int, before_to as int),
                after@.subrange(after_from as int, after_to as int),
            ).0 + old(removed)@.subrange(before_to as int, before@.len() as int),
            final(added)@ == old(added)@.subrange(0, after_from as int) + histogram_masks(
                before@.subrange(before_from as int, before_to as int),
                after@.subrange(after_from as int, after_to as int),
            ).1 + old(added)@.subrange(after_to as int, after@.len() as int),
            final(self).is_clear(),
            final(self).num_tokens() == old(self).num_tokens(),
            final(self).pool.generation <= old(self).pool.generation + 2 * (before_to - before_from)
                + 1,
        decreases (before_to - before_from) + (after_to - after_from), 1int,
    {
        let part_before: &[Token] = slice_subrange(before, before_from, before_to);
        let part_after: &[Token] = slice_subrange(after, after_from, after_to);
        let (head_removed, rest_removed) = removed.split_at_mut(before_from);
        let (part_removed, tail_removed) = rest_removed.split_at_mut(before_to - before_from);
        let (head_added, rest_added) = added.split_at_mut(after_from);
        let (part_added, tail_added) = rest_added.split_at_mut(after_to - after_from);
        self.run(part_before, part_after, part_removed, part_added);
    }

    /// Lists the positions of every token of `file`.
    pub fn populate(&mut self, file: &[Token])
        requires
            old(self).is_clear(),
            tokens_below(file@, old(self).num_tokens()),
            file@.len() <= u32::MAX,
        ensures
            final(self).indexes(file@, file@.len() as int),
            final(self).num_tokens() == old(self).num_tokens(),
            final(self).pool.generation == old(self).pool.generation,
    {
        let mut i: usize = 0;
        proof {
            assert forall|t: u32| t < self.token_occurances@.len() implies #[trigger] self.listed(
                Token(t),
            ) == occurrences(file@, Token(t), 0) by {
                assert(self.listed(Token(t)) =~= Seq::<u32>::empty());
            }
        }
        while i < file.len()
            invariant
                i <= file@.len(),
                file@.len() <= u32::MAX,
                tokens_below(file@, self.num_tokens()),
                self.indexes(file@, i as int),
                self.num_tokens() == old(self).num_tokens(),
                self.pool.generation == old(self).pool.generation,
            decreases file@.len() - i,
        {
            let token: Token = file[i];
            let slot: usize = token.0 as usize;
            let mut handle: ListHandle = self.token_occurances[slot];
            let ghost before = *self;
            proof {
                lemma_occurrences(file@, token, i as int);
                assert(before.listed(Token(token.0)) == occurrences(file@, token, i as int));
            }
            handle.push(i as u32, &mut self.pool);
            self.token_occurances[slot] = handle;
            proof {
                let stale = before.token_occurances@[slot as int];
                assert forall|t: int|
                    0 <= t < self.token_occurances@.len() && t != slot implies (
                #[trigger] self.token_occurances@[t]).view_in(&self.pool)
                    == before.token_occurances@[t].view_in(&before.pool) && self.token_occurances@[t].wf(
                    &self.pool,
                ) && self.token_occurances@[t].apart(handle, &self.pool) by {
                    let other = before.token_occurances@[t];
                    assert(other.wf(&before.pool));
                    assert(other.apart(stale, &before.pool));
                    if other.is_live(&before.pool) {
                        assert forall|at: int| other.offset <= at < other.offset + other.len implies
                            self.pool.data@[at] == before.pool.data@[at] by {
                            assert(stale.avoids(&before.pool, at));
                        }
                        assert(other.view_in(&self.pool) =~= other.view_in(&before.pool));
                    }
                }
                assert(self.wf());
                assert forall|t: u32| t < self.token_occurances@.len() implies #[trigger] self.listed(
                    Token(t),
                ) == occurrences(file@, Token(t), i + 1) by {
                    if t as int != slot as int {
                        assert(self.token_occurances@[t as int].view_in(&self.pool)
                            == before.token_occurances@[t as int].view_in(&before.pool));
                        assert(before.listed(Token(t)) == occurrences(file@, Token(t), i as int));
                    }
                }
            }
            i += 1;
        }
    }
}

} // verus!
