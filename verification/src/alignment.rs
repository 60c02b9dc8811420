//! The mathematical vocabulary of edit masks: which tokens a mask keeps, how many
//! it keeps, and how both behave under the edits that the algorithms perform.
use crate::Token;
use vstd::prelude::*;

verus! {

/// The number of `false` entries among the first `upto` entries of `mask`.
pub open spec fn unmarked_before(mask: Seq<bool>, upto: int) -> int
    decreases upto,
{
    if upto <= 0 {
        0
    } else {
        unmarked_before(mask, upto - 1) + if mask[upto - 1] {
            0int
        } else {
            1int
        }
    }
}

/// The number of `false` entries of `mask`: the tokens that take part in the
/// common alignment.
pub open spec fn unmarked(mask: Seq<bool>) -> int {
    unmarked_before(mask, mask.len() as int)
}

/// The number of `true` entries of `mask`.
pub open spec fn marked(mask: Seq<bool>) -> int {
    mask.len() - unmarked(mask)
}

/// The tokens among the first `upto` whose mask entry is `false`, in order.
pub open spec fn kept_prefix(tokens: Seq<Token>, mask: Seq<bool>, upto: int) -> Seq<Token>
    decreases upto,
{
    if upto <= 0 {
        Seq::empty()
    } else if mask[upto - 1] {
        kept_prefix(tokens, mask, upto - 1)
    } else {
        kept_prefix(tokens, mask, upto - 1).push(tokens[upto - 1])
    }
}

/// The subsequence of `tokens` that `mask` leaves unmarked.
pub open spec fn kept(tokens: Seq<Token>, mask: Seq<bool>) -> Seq<Token> {
    kept_prefix(tokens, mask, mask.len() as int)
}

/// A pair of masks is an alignment of `before` and `after` when each mask has the
/// length of its sequence and both keep the same subsequence of tokens.
pub open spec fn is_alignment(
    before: Seq<Token>,
    after: Seq<Token>,
    removed: Seq<bool>,
    added: Seq<bool>,
) -> bool {
    &&& removed.len() == before.len()
    &&& added.len() == after.len()
    &&& kept(before, removed) == kept(after, added)
}

/// A mask of length `len` with every entry equal to `value`.
pub open spec fn uniform(len: nat, value: bool) -> Seq<bool> {
    Seq::new(len, |i: int| value)
}

pub proof fn lemma_unmarked_bounds(mask: Seq<bool>, upto: int)
    requires
        0 <= upto,
    ensures
        0 <= unmarked_before(mask, upto) <= upto,
    decreases upto,
{
    if upto > 0 {
        lemma_unmarked_bounds(mask, upto - 1);
    }
}

/// Where two masks agree between `from` and `upto`, they keep equally many tokens
/// there.
pub proof fn lemma_unmarked_agree(m1: Seq<bool>, m2: Seq<bool>, from: int, upto: int)
    requires
        0 <= from <= upto,
        forall|i: int| from <= i < upto ==> m1[i] == m2[i],
    ensures
        unmarked_before(m1, upto) - unmarked_before(m1, from) == unmarked_before(m2, upto)
            - unmarked_before(m2, from),
    decreases upto - from,
{
    if from < upto {
        lemma_unmarked_agree(m1, m2, from, upto - 1);
    }
}

pub proof fn lemma_unmarked_monotone(mask: Seq<bool>, from: int, upto: int)
    requires
        0 <= from <= upto,
    ensures
        unmarked_before(mask, from) <= unmarked_before(mask, upto),
    decreases upto - from,
{
    if from < upto {
        lemma_unmarked_monotone(mask, from, upto - 1);
    }
}

/// A stretch of `true` entries keeps nothing.
pub proof fn lemma_unmarked_run(mask: Seq<bool>, from: int, upto: int)
    requires
        0 <= from <= upto,
        forall|i: int| from <= i < upto ==> mask[i],
    ensures
        unmarked_before(mask, upto) == unmarked_before(mask, from),
    decreases upto - from,
{
    if from < upto {
        lemma_unmarked_run(mask, from, upto - 1);
    }
}

/// A stretch of `false` entries keeps every token.
pub proof fn lemma_unmarked_run_of_false(mask: Seq<bool>, from: int, upto: int)
    requires
        0 <= from <= upto,
        forall|i: int| from <= i < upto ==> !mask[i],
    ensures
        unmarked_before(mask, upto) == unmarked_before(mask, from) + (upto - from),
    decreases upto - from,
{
    if from < upto {
        lemma_unmarked_run_of_false(mask, from, upto - 1);
    }
}

/// Changing one entry below `upto` changes the count by the difference of the two
/// entries.
pub proof fn lemma_unmarked_update(mask: Seq<bool>, at: int, value: bool, upto: int)
    requires
        0 <= at < upto <= mask.len(),
    ensures
        unmarked_before(mask.update(at, value), upto) == unmarked_before(mask, upto) + (if mask[at] {
            1int
        } else {
            0int
        }) - (if value {
            1int
        } else {
            0int
        }),
    decreases upto - at,
{
    let changed = mask.update(at, value);
    if upto == at + 1 {
        lemma_unmarked_agree(mask, changed, 0, at);
    } else {
        lemma_unmarked_update(mask, at, value, upto - 1);
    }
}

/// A mask that keeps as many tokens as it has entries has no `true` entry.
pub proof fn lemma_unmarked_all(mask: Seq<bool>, upto: int)
    requires
        0 <= upto,
        unmarked_before(mask, upto) == upto,
    ensures
        forall|i: int| 0 <= i < upto ==> !mask[i],
    decreases upto,
{
    if upto > 0 {
        lemma_unmarked_bounds(mask, upto - 1);
        lemma_unmarked_all(mask, upto - 1);
    }
}

pub proof fn lemma_kept_len(tokens: Seq<Token>, mask: Seq<bool>, upto: int)
    requires
        0 <= upto,
    ensures
        kept_prefix(tokens, mask, upto).len() == unmarked_before(mask, upto),
    decreases upto,
{
    if upto > 0 {
        lemma_kept_len(tokens, mask, upto - 1);
    }
}

/// Each kept token is one of the tokens: the result is a position below `upto`
/// that holds the kept token number `at`.
pub proof fn lemma_kept_source(tokens: Seq<Token>, mask: Seq<bool>, upto: int, at: int) -> (from: int)
    requires
        0 <= at < kept_prefix(tokens, mask, upto).len(),
    ensures
        0 <= from < upto,
        tokens[from] == kept_prefix(tokens, mask, upto)[at],
    decreases upto,
{
    if upto <= 0 {
        0
    } else if !mask[upto - 1] && at == kept_prefix(tokens, mask, upto - 1).len() {
        upto - 1
    } else {
        lemma_kept_source(tokens, mask, upto - 1, at)
    }
}

/// Two masks over two token sequences that keep the same tokens up to `from`, and
/// that agree entry by entry between `from` and `upto`, keep the same tokens up to
/// `upto`.
pub proof fn lemma_kept_agree(
    t1: Seq<Token>,
    m1: Seq<bool>,
    t2: Seq<Token>,
    m2: Seq<bool>,
    from: int,
    upto: int,
)
    requires
        0 <= from <= upto,
        kept_prefix(t1, m1, from) == kept_prefix(t2, m2, from),
        forall|i: int| from <= i < upto ==> m1[i] == m2[i] && t1[i] == t2[i],
    ensures
        kept_prefix(t1, m1, upto) == kept_prefix(t2, m2, upto),
    decreases upto - from,
{
    if from < upto {
        lemma_kept_agree(t1, m1, t2, m2, from, upto - 1);
    }
}

pub proof fn lemma_kept_run(tokens: Seq<Token>, mask: Seq<bool>, from: int, upto: int)
    requires
        0 <= from <= upto,
        forall|i: int| from <= i < upto ==> mask[i],
    ensures
        kept_prefix(tokens, mask, upto) == kept_prefix(tokens, mask, from),
    decreases upto - from,
{
    if from < upto {
        lemma_kept_run(tokens, mask, from, upto - 1);
    }
}

/// A mask without a `true` entry keeps every token.
pub proof fn lemma_kept_all(tokens: Seq<Token>, mask: Seq<bool>, upto: int)
    requires
        0 <= upto <= tokens.len(),
        forall|i: int| 0 <= i < upto ==> !mask[i],
    ensures
        kept_prefix(tokens, mask, upto) == tokens.subrange(0, upto),
    decreases upto,
{
    if upto > 0 {
        lemma_kept_all(tokens, mask, upto - 1);
        assert(tokens.subrange(0, upto - 1).push(tokens[upto - 1]) =~= tokens.subrange(0, upto));
    } else {
        assert(tokens.subrange(0, 0) =~= Seq::<Token>::empty());
    }
}

/// Masks and tokens laid end to end keep what the parts keep, laid end to end.
pub proof fn lemma_kept_concat(t1: Seq<Token>, m1: Seq<bool>, t2: Seq<Token>, m2: Seq<bool>)
    requires
        t1.len() == m1.len(),
        t2.len() == m2.len(),
    ensures
        kept(t1 + t2, m1 + m2) == kept(t1, m1) + kept(t2, m2),
{
    lemma_kept_concat_upto(t1, m1, t2, m2, m2.len() as int);
}

proof fn lemma_kept_concat_upto(
    t1: Seq<Token>,
    m1: Seq<bool>,
    t2: Seq<Token>,
    m2: Seq<bool>,
    upto: int,
)
    requires
        t1.len() == m1.len(),
        t2.len() == m2.len(),
        0 <= upto <= m2.len(),
    ensures
        kept_prefix(t1 + t2, m1 + m2, m1.len() + upto) == kept(t1, m1) + kept_prefix(t2, m2, upto),
    decreases upto,
{
    let t = t1 + t2;
    let m = m1 + m2;
    if upto == 0 {
        lemma_kept_agree(t, m, t1, m1, 0, m1.len() as int);
        assert(kept(t1, m1) + Seq::<Token>::empty() =~= kept(t1, m1));
    } else {
        lemma_kept_concat_upto(t1, m1, t2, m2, upto - 1);
        let at = m1.len() + upto - 1;
        assert(m[at] == m2[upto - 1]);
        assert(t[at] == t2[upto - 1]);
        if !m2[upto - 1] {
            assert((kept(t1, m1) + kept_prefix(t2, m2, upto - 1)).push(t2[upto - 1]) =~= kept(t1, m1)
                + kept_prefix(t2, m2, upto - 1).push(t2[upto - 1]));
        }
    }
}

/// Moving a run of `true` entries one place down over a token equal to its first
/// keeps the same tokens: the run `[start, end)` becomes `[start + 1, end + 1)`.
pub proof fn lemma_slide_keeps(tokens: Seq<Token>, mask: Seq<bool>, start: int, end: int)
    requires
        0 <= start < end < mask.len(),
        forall|i: int| start <= i < end ==> mask[i],
        !mask[end],
        tokens[start] == tokens[end],
    ensures
        kept(tokens, mask.update(start, false).update(end, true)) == kept(tokens, mask),
        unmarked(mask.update(start, false).update(end, true)) == unmarked(mask),
{
    let slid = mask.update(start, false).update(end, true);
    lemma_kept_agree(tokens, mask, tokens, slid, 0, start);
    lemma_kept_run(tokens, slid, start + 1, end + 1);
    lemma_kept_run(tokens, mask, start, end);
    assert(kept_prefix(tokens, slid, end + 1) == kept_prefix(tokens, mask, end + 1));
    lemma_kept_agree(tokens, mask, tokens, slid, end + 1, mask.len() as int);
    lemma_kept_len(tokens, mask, mask.len() as int);
    lemma_kept_len(tokens, slid, mask.len() as int);
}

} // verus!
