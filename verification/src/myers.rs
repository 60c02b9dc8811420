//! The Myers diff: the fewest removals and insertions that turn one sequence into
//! the other, found by following, for each number of edits, the furthest point
//! that can be reached on each diagonal of the edit graph.
//!
//! A point `(x, y)` of the edit graph stands for the first `x` tokens of the first
//! sequence and the first `y` of the second. One step right removes a token, one
//! step down inserts one, and a diagonal step keeps a token that both hold. Round
//! `d` knows, for each of its `d + 1` diagonals, the furthest point that `d` edits
//! reach; diagonal `t` of round `d` holds the points with `x - y == 2 * t - d`.
use crate::alignment::{
    is_alignment, kept_prefix, lemma_kept_agree, lemma_kept_len, lemma_unmarked_agree, marked,
    unmarked_before,
};
use crate::lcs::{fwd_len, same_at};
use crate::Token;
use vstd::prelude::*;

verus! {

/// The length of the longest common subsequence of the first `x` tokens of `a` and
/// the first `y` of `b`. Beyond the end of a sequence nothing matches.
pub open spec fn lcs_len(a: Seq<Token>, b: Seq<Token>, x: int, y: int) -> int
    decreases x + y,
{
    if x <= 0 || y <= 0 {
        0
    } else if x <= a.len() && y <= b.len() && a[x - 1] == b[y - 1] {
        lcs_len(a, b, x - 1, y - 1) + 1
    } else {
        let up = lcs_len(a, b, x - 1, y);
        let left = lcs_len(a, b, x, y - 1);
        if up < left {
            left
        } else {
            up
        }
    }
}

/// The least number of removals and insertions that turn the first `x` tokens of
/// `a` into the first `y` of `b`.
pub open spec fn edits(a: Seq<Token>, b: Seq<Token>, x: int, y: int) -> int {
    x + y - 2 * lcs_len(a, b, x, y)
}

/// The least number of removals and insertions that turn `a` into `b`.
pub open spec fn distance(a: Seq<Token>, b: Seq<Token>) -> int {
    edits(a, b, a.len() as int, b.len() as int)
}

/// Round `d` reaches diagonal `t` from the diagonal above, by an insertion, rather
/// than from the one below, by a removal.
pub open spec fn from_above(a: Seq<Token>, b: Seq<Token>, d: int, t: int) -> bool {
    t <= 0 || (t < d && reach(a, b, d - 1, t - 1) < reach(a, b, d - 1, t))
}

/// The `x` at which round `d` enters diagonal `t`.
pub open spec fn entry(a: Seq<Token>, b: Seq<Token>, d: int, t: int) -> int {
    if d <= 0 {
        0
    } else if from_above(a, b, d, t) {
        reach(a, b, d - 1, t)
    } else {
        reach(a, b, d - 1, t - 1) + 1
    }
}

/// The `x` of the furthest point that round `d` reaches on diagonal `t`.
pub open spec fn reach(a: Seq<Token>, b: Seq<Token>, d: int, t: int) -> int
    decreases d,
{
    if d <= 0 {
        fwd_len(a, b, 0, 0)
    } else {
        let below = reach(a, b, d - 1, t - 1);
        let above = reach(a, b, d - 1, t);
        let start = if t <= 0 || (t < d && below < above) {
            above
        } else {
            below + 1
        };
        start + fwd_len(a, b, start, start + d - 2 * t)
    }
}

/// The path to the furthest point of round `d` on diagonal `t` removes token `i`
/// of the first sequence.
pub open spec fn deleted(a: Seq<Token>, b: Seq<Token>, d: int, t: int, i: int) -> bool
    decreases d,
{
    if d <= 0 {
        false
    } else if from_above(a, b, d, t) {
        deleted(a, b, d - 1, t, i)
    } else {
        i == reach(a, b, d - 1, t - 1) || deleted(a, b, d - 1, t - 1, i)
    }
}

/// The path to the furthest point of round `d` on diagonal `t` inserts token `j`
/// of the second sequence.
pub open spec fn inserted(a: Seq<Token>, b: Seq<Token>, d: int, t: int, j: int) -> bool
    decreases d,
{
    if d <= 0 {
        false
    } else if from_above(a, b, d, t) {
        j == reach(a, b, d - 1, t) + d - 1 - 2 * t || inserted(a, b, d - 1, t, j)
    } else {
        inserted(a, b, d - 1, t - 1, j)
    }
}

pub open spec fn removed_along(a: Seq<Token>, b: Seq<Token>, d: int, t: int) -> Seq<bool> {
    Seq::new(a.len(), |i: int| deleted(a, b, d, t, i))
}

pub open spec fn added_along(a: Seq<Token>, b: Seq<Token>, d: int, t: int) -> Seq<bool> {
    Seq::new(b.len(), |j: int| inserted(a, b, d, t, j))
}

/// The diagonal of the last round on which the end of both sequences lies.
pub open spec fn last_diagonal(a: Seq<Token>, b: Seq<Token>) -> int {
    (distance(a, b) + a.len() - b.len()) / 2
}

/// The mask of the tokens of `a` that the Myers diff removes.
pub open spec fn myers_removed(a: Seq<Token>, b: Seq<Token>) -> Seq<bool> {
    removed_along(a, b, distance(a, b), last_diagonal(a, b))
}

/// The mask of the tokens of `b` that the Myers diff inserts.
pub open spec fn myers_added(a: Seq<Token>, b: Seq<Token>) -> Seq<bool> {
    added_along(a, b, distance(a, b), last_diagonal(a, b))
}

/// A longest common subsequence grows by at most one token with each token that
/// either sequence grows by, and never shrinks.
pub proof fn lemma_lcs_step(a: Seq<Token>, b: Seq<Token>, x: int, y: int)
    requires
        0 <= x,
        0 <= y,
    ensures
        0 <= lcs_len(a, b, x, y) <= x,
        lcs_len(a, b, x, y) <= y,
        x > 0 ==> lcs_len(a, b, x - 1, y) <= lcs_len(a, b, x, y) <= lcs_len(a, b, x - 1, y) + 1,
        y > 0 ==> lcs_len(a, b, x, y - 1) <= lcs_len(a, b, x, y) <= lcs_len(a, b, x, y - 1) + 1,
        x > 0 && y > 0 ==> lcs_len(a, b, x - 1, y - 1) <= lcs_len(a, b, x, y) <= lcs_len(
            a,
            b,
            x - 1,
            y - 1,
        ) + 1,
    decreases x + y,
{
    if x > 0 && y > 0 {
        lemma_lcs_step(a, b, x - 1, y);
        lemma_lcs_step(a, b, x, y - 1);
    }
}

/// A sequence is its own longest common subsequence with itself.
pub proof fn lemma_lcs_self(s: Seq<Token>, x: int)
    requires
        0 <= x <= s.len(),
    ensures
        lcs_len(s, s, x, x) == x,
    decreases x,
{
    if x > 0 {
        lemma_lcs_self(s, x - 1);
    }
}

/// Tokens beyond the end of `a` add nothing to a common subsequence.
pub proof fn lemma_lcs_beyond_first(a: Seq<Token>, b: Seq<Token>, y: int)
    requires
        0 <= y,
    ensures
        lcs_len(a, b, a.len() as int + 1, y) == lcs_len(a, b, a.len() as int, y),
    decreases y,
{
    if y > 0 {
        lemma_lcs_beyond_first(a, b, y - 1);
        lemma_lcs_step(a, b, a.len() as int, y);
    }
}

/// Tokens beyond the end of `b` add nothing to a common subsequence.
pub proof fn lemma_lcs_beyond_second(a: Seq<Token>, b: Seq<Token>, x: int)
    requires
        0 <= x,
    ensures
        lcs_len(a, b, x, b.len() as int + 1) == lcs_len(a, b, x, b.len() as int),
    decreases x,
{
    if x > 0 {
        lemma_lcs_beyond_second(a, b, x - 1);
        lemma_lcs_step(a, b, x, b.len() as int);
    }
}

/// Along a diagonal the number of edits never falls.
pub proof fn lemma_edits_diagonal(a: Seq<Token>, b: Seq<Token>, x: int, y: int, steps: int)
    requires
        0 <= x,
        0 <= y,
        0 <= steps,
    ensures
        edits(a, b, x, y) <= edits(a, b, x + steps, y + steps),
    decreases steps,
{
    if steps > 0 {
        lemma_edits_diagonal(a, b, x, y, steps - 1);
        lemma_lcs_step(a, b, x + steps, y + steps);
    }
}

/// A run of equal tokens costs no edit, and ends where the next two tokens
/// differ or a sequence ends.
pub proof fn lemma_snake(a: Seq<Token>, b: Seq<Token>, x: int, y: int)
    requires
        0 <= x,
        0 <= y,
    ensures
        0 <= fwd_len(a, b, x, y),
        fwd_len(a, b, x, y) > 0 ==> x + fwd_len(a, b, x, y) <= a.len() && y + fwd_len(a, b, x, y)
            <= b.len(),
        edits(a, b, x + fwd_len(a, b, x, y), y + fwd_len(a, b, x, y)) == edits(a, b, x, y),
        !({
            let end = x + fwd_len(a, b, x, y);
            let other = y + fwd_len(a, b, x, y);
            end < a.len() && other < b.len() && a[end] == b[other]
        }),
        forall|s: int|
            0 <= s < fwd_len(a, b, x, y) ==> #[trigger] same_at(a, b, x, y, s) && x + s < a.len()
                && y + s < b.len(),
    decreases a.len() - x,
{
    if x < a.len() && y < b.len() && a[x] == b[y] {
        lemma_snake(a, b, x + 1, y + 1);
        let shorter = fwd_len(a, b, x + 1, y + 1);
        assert forall|s: int| 0 <= s < shorter + 1 implies #[trigger] same_at(a, b, x, y, s) && x
            + s < a.len() && y + s < b.len() by {
            if s > 0 {
                assert(same_at(a, b, x + 1, y + 1, s - 1));
            }
        }
    }
}

/// The furthest point of a round lies in the quarter plane, behind the point at
/// which the round enters the diagonal, and no further than the round's number of
/// edits allows.
pub proof fn lemma_reach_sound(a: Seq<Token>, b: Seq<Token>, d: int, t: int)
    requires
        0 <= t <= d,
    ensures
        0 <= entry(a, b, d, t) <= reach(a, b, d, t),
        0 <= entry(a, b, d, t) + d - 2 * t,
        reach(a, b, d, t) == entry(a, b, d, t) + fwd_len(
            a,
            b,
            entry(a, b, d, t),
            entry(a, b, d, t) + d - 2 * t,
        ),
        edits(a, b, reach(a, b, d, t), reach(a, b, d, t) + d - 2 * t) <= d,
        reach(a, b, d, t) <= a.len() + d,
        d > 0 && from_above(a, b, d, t) ==> t <= d - 1 && 0 <= reach(a, b, d - 1, t) + d - 1 - 2 * t,
        d > 0 && !from_above(a, b, d, t) ==> 1 <= t && 0 <= reach(a, b, d - 1, t - 1),
    decreases d,
{
    if d <= 0 {
        lemma_snake(a, b, 0, 0);
    } else {
        let start = entry(a, b, d, t);
        if from_above(a, b, d, t) {
            lemma_reach_sound(a, b, d - 1, t);
            lemma_lcs_step(a, b, start, start + d - 2 * t);
        } else {
            lemma_reach_sound(a, b, d - 1, t - 1);
            lemma_lcs_step(a, b, start, start + d - 2 * t);
        }
        lemma_snake(a, b, start, start + d - 2 * t);
    }
}

/// No point that `d` edits reach on diagonal `t` lies beyond the furthest point of
/// round `d` there.
pub proof fn lemma_reach_furthest(a: Seq<Token>, b: Seq<Token>, d: int, t: int, x: int)
    requires
        0 <= t <= d,
        0 <= x,
        0 <= x + d - 2 * t,
        edits(a, b, x, x + d - 2 * t) <= d,
    ensures
        x <= reach(a, b, d, t),
    decreases d,
{
    let end = reach(a, b, d, t);
    let other = end + d - 2 * t;
    lemma_reach_sound(a, b, d, t);
    if x > end {
        let start = entry(a, b, d, t);
        lemma_snake(a, b, start, start + d - 2 * t);
        lemma_edits_diagonal(a, b, end + 1, other + 1, x - end - 1);
        // The step from `(end, other)` to `(end + 1, other + 1)` keeps no token.
        assert(lcs_len(a, b, end + 1, other + 1) == if lcs_len(a, b, end, other + 1) < lcs_len(
            a,
            b,
            end + 1,
            other,
        ) {
            lcs_len(a, b, end + 1, other)
        } else {
            lcs_len(a, b, end, other + 1)
        });
        lemma_lcs_step(a, b, end, other + 1);
        lemma_lcs_step(a, b, end + 1, other);
        if d > 0 {
            if edits(a, b, end, other + 1) <= d - 1 {
                lemma_reach_furthest(a, b, d - 1, t - 1, end);
            } else {
                lemma_reach_furthest(a, b, d - 1, t, end + 1);
            }
        }
        assert(false);
    }
}

/// The round whose number is the distance reaches the end of both sequences, and
/// no earlier round does.
pub proof fn lemma_last_round(a: Seq<Token>, b: Seq<Token>)
    ensures
        0 <= last_diagonal(a, b) <= distance(a, b) <= a.len() + b.len(),
        2 * last_diagonal(a, b) - distance(a, b) == a.len() - b.len(),
        reach(a, b, distance(a, b), last_diagonal(a, b)) == a.len(),
        forall|d: int, t: int|
            0 <= t <= d && 2 * t - d == a.len() - b.len() && #[trigger] reach(a, b, d, t)
                == a.len() ==> distance(a, b) <= d,
{
    let n = a.len() as int;
    let m = b.len() as int;
    let d = distance(a, b);
    let t = last_diagonal(a, b);
    lemma_lcs_step(a, b, n, m);
    assert(d + n - m == 2 * (n - lcs_len(a, b, n, m)));
    lemma_reach_furthest(a, b, d, t, n);
    lemma_reach_sound(a, b, d, t);
    let end = reach(a, b, d, t);
    if end > n {
        lemma_edits_diagonal(a, b, n + 1, m + 1, end - n - 1);
        lemma_lcs_beyond_first(a, b, m);
        lemma_lcs_beyond_second(a, b, n);
        lemma_lcs_step(a, b, n + 1, m);
        lemma_lcs_step(a, b, n, m + 1);
        assert(lcs_len(a, b, n + 1, m + 1) == lcs_len(a, b, n, m));
        assert(false);
    }
    assert forall|d2: int, t2: int|
        0 <= t2 <= d2 && 2 * t2 - d2 == a.len() - b.len() && #[trigger] reach(a, b, d2, t2)
            == a.len() implies distance(a, b) <= d2 by {
        lemma_reach_sound(a, b, d2, t2);
    }
}

/// Position `s` behind `x` and `y` is kept by both masks and holds the same token
/// in both sequences.
pub open spec fn kept_pair(
    a: Seq<Token>,
    r: Seq<bool>,
    b: Seq<Token>,
    ad: Seq<bool>,
    x: int,
    y: int,
    s: int,
) -> bool {
    !r[x + s] && !ad[y + s] && a[x + s] == b[y + s]
}

/// Two masks that keep the same tokens up to `x` and `y`, and then keep `steps`
/// pairs of equal tokens, keep the same tokens up to the end of those pairs.
pub proof fn lemma_kept_snake(
    a: Seq<Token>,
    r: Seq<bool>,
    b: Seq<Token>,
    ad: Seq<bool>,
    x: int,
    y: int,
    steps: int,
)
    requires
        0 <= x,
        0 <= y,
        0 <= steps,
        kept_prefix(a, r, x) == kept_prefix(b, ad, y),
        forall|s: int| 0 <= s < steps ==> #[trigger] kept_pair(a, r, b, ad, x, y, s),
    ensures
        kept_prefix(a, r, x + steps) == kept_prefix(b, ad, y + steps),
        unmarked_before(r, x + steps) == unmarked_before(r, x) + steps,
        unmarked_before(ad, y + steps) == unmarked_before(ad, y) + steps,
    decreases steps,
{
    if steps > 0 {
        lemma_kept_snake(a, r, b, ad, x, y, steps - 1);
        assert(kept_pair(a, r, b, ad, x, y, steps - 1));
    }
}

/// The path that the rounds record to the furthest point of round `d` on diagonal
/// `t`, where that point lies within both sequences: up to that point both masks
/// keep the same tokens, what they mark lies before the point at which the round
/// enters the diagonal, and together they mark `d` tokens.
pub proof fn lemma_path(a: Seq<Token>, b: Seq<Token>, d: int, t: int)
    requires
        0 <= t <= d,
        reach(a, b, d, t) <= a.len(),
        reach(a, b, d, t) + d - 2 * t <= b.len(),
    ensures
        kept_prefix(a, removed_along(a, b, d, t), reach(a, b, d, t)) == kept_prefix(
            b,
            added_along(a, b, d, t),
            reach(a, b, d, t) + d - 2 * t,
        ),
        reach(a, b, d, t) - unmarked_before(removed_along(a, b, d, t), reach(a, b, d, t)) + reach(
            a,
            b,
            d,
            t,
        ) + d - 2 * t - unmarked_before(added_along(a, b, d, t), reach(a, b, d, t) + d - 2 * t)
            == d,
        forall|i: int| #[trigger] deleted(a, b, d, t, i) ==> 0 <= i < entry(a, b, d, t),
        forall|j: int| #[trigger] inserted(a, b, d, t, j) ==> 0 <= j < entry(a, b, d, t) + d - 2 * t,
    decreases d,
{
    let r = removed_along(a, b, d, t);
    let ad = added_along(a, b, d, t);
    let start = entry(a, b, d, t);
    let other = start + d - 2 * t;
    lemma_reach_sound(a, b, d, t);
    lemma_snake(a, b, start, other);
    let steps = fwd_len(a, b, start, other);
    if d > 0 {
        if from_above(a, b, d, t) {
            let px = reach(a, b, d - 1, t);
            let py = px + d - 1 - 2 * t;
            lemma_reach_sound(a, b, d - 1, t);
            lemma_path(a, b, d - 1, t);
            let r0 = removed_along(a, b, d - 1, t);
            let ad0 = added_along(a, b, d - 1, t);
            assert forall|i: int| #[trigger] deleted(a, b, d, t, i) implies 0 <= i < start by {
                assert(deleted(a, b, d - 1, t, i));
            }
            assert forall|j: int| #[trigger] inserted(a, b, d, t, j) implies 0 <= j < other by {
                if j != py {
                    assert(inserted(a, b, d - 1, t, j));
                }
            }
            assert(r =~= r0);
            assert(ad[py]);
            lemma_kept_agree(b, ad, b, ad0, 0, py);
            lemma_unmarked_agree(ad, ad0, 0, py);
        } else {
            let px = reach(a, b, d - 1, t - 1);
            lemma_reach_sound(a, b, d - 1, t - 1);
            lemma_path(a, b, d - 1, t - 1);
            let r0 = removed_along(a, b, d - 1, t - 1);
            let ad0 = added_along(a, b, d - 1, t - 1);
            assert forall|i: int| #[trigger] deleted(a, b, d, t, i) implies 0 <= i < start by {
                if i != px {
                    assert(deleted(a, b, d - 1, t - 1, i));
                }
            }
            assert forall|j: int| #[trigger] inserted(a, b, d, t, j) implies 0 <= j < other by {
                assert(inserted(a, b, d - 1, t - 1, j));
            }
            assert(ad =~= ad0);
            assert(r[px]);
            lemma_kept_agree(a, r, a, r0, 0, px);
            lemma_unmarked_agree(r, r0, 0, px);
        }
    }
    assert(kept_prefix(a, r, start) == kept_prefix(b, ad, other));
    assert forall|s: int| 0 <= s < steps implies #[trigger] kept_pair(
        a,
        r,
        b,
        ad,
        start,
        other,
        s,
    ) by {
        assert(same_at(a, b, start, other, s));
        assert(!deleted(a, b, d, t, start + s));
        assert(!inserted(a, b, d, t, other + s));
    }
    lemma_kept_snake(a, r, b, ad, start, other, steps);
}

/// The Myers diff is an alignment of the two sequences, and marks as many tokens
/// as their distance says.
pub proof fn lemma_myers_alignment(a: Seq<Token>, b: Seq<Token>)
    ensures
        is_alignment(a, b, myers_removed(a, b), myers_added(a, b)),
        marked(myers_removed(a, b)) + marked(myers_added(a, b)) == distance(a, b),
{
    lemma_last_round(a, b);
    lemma_path(a, b, distance(a, b), last_diagonal(a, b));
}

/// A common subsequence is no longer than the longest one.
pub proof fn lemma_alignment_bound(
    a: Seq<Token>,
    b: Seq<Token>,
    r: Seq<bool>,
    ad: Seq<bool>,
    x: int,
    y: int,
)
    requires
        0 <= x <= a.len(),
        0 <= y <= b.len(),
        kept_prefix(a, r, x) == kept_prefix(b, ad, y),
    ensures
        kept_prefix(a, r, x).len() <= lcs_len(a, b, x, y),
    decreases x + y,
{
    lemma_lcs_step(a, b, x, y);
    if x > 0 && y > 0 {
        if r[x - 1] {
            lemma_alignment_bound(a, b, r, ad, x - 1, y);
        } else if ad[y - 1] {
            lemma_alignment_bound(a, b, r, ad, x, y - 1);
        } else {
            let p = kept_prefix(a, r, x - 1);
            let q = kept_prefix(b, ad, y - 1);
            assert(p.push(a[x - 1]).drop_last() =~= p);
            assert(q.push(b[y - 1]).drop_last() =~= q);
            assert(p.push(a[x - 1]).last() == a[x - 1]);
            assert(q.push(b[y - 1]).last() == b[y - 1]);
            lemma_alignment_bound(a, b, r, ad, x - 1, y - 1);
        }
    }
}

/// No alignment of the two sequences marks fewer tokens than their distance.
pub proof fn lemma_alignment_cost(a: Seq<Token>, b: Seq<Token>, r: Seq<bool>, ad: Seq<bool>)
    requires
        is_alignment(a, b, r, ad),
    ensures
        distance(a, b) <= marked(r) + marked(ad),
{
    lemma_alignment_bound(a, b, r, ad, a.len() as int, b.len() as int);
    lemma_kept_len(a, r, a.len() as int);
    lemma_kept_len(b, ad, b.len() as int);
}

/// Every recorded round holds, for each of its diagonals, the furthest point.
pub open spec fn rounds_recorded(trace: Seq<Vec<u64>>, a: Seq<Token>, b: Seq<Token>) -> bool {
    forall|d: int|
        0 <= d < trace.len() ==> (#[trigger] trace[d])@.len() == d + 1 && round_recorded(
            trace[d]@,
            a,
            b,
            d,
        )
}

/// Each entry of `row` is the furthest point of round `d` on its diagonal.
pub open spec fn round_recorded(row: Seq<u64>, a: Seq<Token>, b: Seq<Token>, d: int) -> bool {
    forall|t: int| 0 <= t < row.len() ==> #[trigger] row[t] == reach(a, b, d, t)
}

/// Marks in `removed` and `added`, which hold no mark yet, the fewest tokens whose
/// removal and insertion turn `before` into `after`.
pub fn diff(before: &[Token], after: &[Token], removed: &mut [bool], added: &mut [bool])
    requires
        old(removed)@.len() == before@.len(),
        old(added)@.len() == after@.len(),
        before@.len() <= u32::MAX,
        after@.len() <= u32::MAX,
        forall|i: int| 0 <= i < old(removed)@.len() ==> !old(removed)@[i],
        forall|j: int| 0 <= j < old(added)@.len() ==> !old(added)@[j],
    ensures
        final(removed)@ == myers_removed(before@, after@),
        final(added)@ == myers_added(before@, after@),
        is_alignment(before@, after@, final(removed)@, final(added)@),
        marked(final(removed)@) + marked(final(added)@) == distance(before@, after@),
{
    let n: u64 = before.len() as u64;
    let m: u64 = after.len() as u64;
    let ghost total = distance(before@, after@);
    let ghost last = last_diagonal(before@, after@);
    proof {
        lemma_last_round(before@, after@);
        lemma_myers_alignment(before@, after@);
    }
    let mut trace: Vec<Vec<u64>> = Vec::new();
    let mut t: usize = 0;
    loop
        invariant_except_break
            trace@.len() <= total,
        invariant
            n == before@.len(),
            m == after@.len(),
            n <= u32::MAX,
            m <= u32::MAX,
            total == distance(before@, after@),
            last == last_diagonal(before@, after@),
            0 <= last <= total <= n + m,
            2 * last - total == n - m,
            reach(before@, after@, total, last) == n,
            forall|d: int, t: int|
                0 <= t <= d && 2 * t - d == n - m && #[trigger] reach(before@, after@, d, t) == n
                    ==> total <= d,
            rounds_recorded(trace@, before@, after@),
        ensures
            trace@.len() == total + 1,
            t == last,
        decreases total - trace@.len(),
    {
        let d: usize = trace.len();
        let mut row: Vec<u64> = Vec::new();
        let mut at: usize = 0;
        loop
            invariant_except_break
                row@.len() == at,
                at <= d,
            invariant
                n == before@.len(),
                m == after@.len(),
                n <= u32::MAX,
                m <= u32::MAX,
                d == trace@.len(),
                d <= n + m,
                rounds_recorded(trace@, before@, after@),
                round_recorded(row@, before@, after@, d as int),
            ensures
                row@.len() == d + 1,
            decreases d - at,
        {
            proof {
                lemma_reach_sound(before@, after@, d as int, at as int);
                if d > 0 {
                    if at < d {
                        lemma_reach_sound(before@, after@, d - 1, at as int);
                    }
                    if at > 0 {
                        lemma_reach_sound(before@, after@, d - 1, at - 1);
                    }
                }
            }
            let mut x: u64 = if d == 0 {
                0
            } else {
                let prev: &Vec<u64> = &trace[d - 1];
                if at == 0 || (at < d && prev[at - 1] < prev[at]) {
                    prev[at]
                } else {
                    prev[at - 1] + 1
                }
            };
            let ghost start: int = x as int;
            assert(start == entry(before@, after@, d as int, at as int));
            let mut y: u64 = x + d as u64 - 2 * (at as u64);
            proof {
                lemma_snake(before@, after@, start, start + d - 2 * at);
            }
            while x < n && y < m && before[x as usize] == after[y as usize]
                invariant
                    n == before@.len(),
                    m == after@.len(),
                    n <= u32::MAX,
                    m <= u32::MAX,
                    start <= x,
                    y == x + d - 2 * at,
                    start + fwd_len(before@, after@, start, start + d - 2 * at) == x + fwd_len(
                        before@,
                        after@,
                        x as int,
                        y as int,
                    ),
                decreases n - x,
            {
                x += 1;
                y += 1;
            }
            row.push(x);
            if at == d {
                break ;
            }
            at += 1;
        }
        let reached: bool = d as u64 + n >= m && (d as u64 + n - m) % 2 == 0 && (d as u64 + n - m)
            / 2 <= d as u64 && row[((d as u64 + n - m) / 2) as usize] == n;
        if reached {
            t = ((d as u64 + n - m) / 2) as usize;
        }
        trace.push(row);
        if reached {
            break ;
        }
    }
    let mut d: usize = trace.len() - 1;
    while d > 0
        invariant
            n == before@.len(),
            m == after@.len(),
            n <= u32::MAX,
            m <= u32::MAX,
            removed@.len() == n,
            added@.len() == m,
            rounds_recorded(trace@, before@, after@),
            d < trace@.len(),
            trace@.len() == total + 1,
            total <= n + m,
            0 <= t <= d,
            reach(before@, after@, d as int, t as int) <= n,
            reach(before@, after@, d as int, t as int) + d - 2 * t <= m,
            forall|i: int|
                0 <= i < n ==> deleted(before@, after@, total, last, i) == (removed@[i] || deleted(
                    before@,
                    after@,
                    d as int,
                    t as int,
                    i,
                )),
            forall|j: int|
                0 <= j < m ==> inserted(before@, after@, total, last, j) == (added@[j] || inserted(
                    before@,
                    after@,
                    d as int,
                    t as int,
                    j,
                )),
        decreases d,
    {
        proof {
            lemma_reach_sound(before@, after@, d as int, t as int);
        }
        let prev: &Vec<u64> = &trace[d - 1];
        let ghost round: int = d as int;
        let ghost here: int = t as int;
        let ghost marks_removed: Seq<bool> = removed@;
        let ghost marks_added: Seq<bool> = added@;
        proof {
            assert(round_recorded(prev@, before@, after@, d - 1));
            if t < d {
                assert(prev@[t as int] == reach(before@, after@, d - 1, t as int));
            }
            if t > 0 {
                assert(prev@[t - 1] == reach(before@, after@, d - 1, t - 1));
            }
        }
        let above: bool = t == 0 || (t < d && prev[t - 1] < prev[t]);
        assert(above == from_above(before@, after@, d as int, t as int));
        if above {
            let px: u64 = prev[t];
            let py: u64 = px + (d as u64 - 1) - 2 * (t as u64);
            added[py as usize] = true;
        } else {
            let px: u64 = prev[t - 1];
            removed[px as usize] = true;
            t -= 1;
        }
        d -= 1;
        proof {
            assert forall|i: int| 0 <= i < n implies deleted(before@, after@, total, last, i) == (
            removed@[i] || deleted(before@, after@, d as int, t as int, i)) by {
                assert(deleted(before@, after@, total, last, i) == (marks_removed[i] || deleted(
                    before@,
                    after@,
                    round,
                    here,
                    i,
                )));
                if above {
                    assert(removed@[i] == marks_removed[i]);
                    assert(deleted(before@, after@, round, here, i) == deleted(
                        before@,
                        after@,
                        d as int,
                        here,
                        i,
                    ));
                } else {
                    assert(removed@[i] == (marks_removed[i] || i == reach(
                        before@,
                        after@,
                        d as int,
                        here - 1,
                    )));
                    assert(deleted(before@, after@, round, here, i) == (i == reach(
                        before@,
                        after@,
                        d as int,
                        here - 1,
                    ) || deleted(before@, after@, d as int, here - 1, i)));
                }
            }
            assert forall|j: int| 0 <= j < m implies inserted(before@, after@, total, last, j) == (
            added@[j] || inserted(before@, after@, d as int, t as int, j)) by {
                assert(inserted(before@, after@, total, last, j) == (marks_added[j] || inserted(
                    before@,
                    after@,
                    round,
                    here,
                    j,
                )));
            }
        }
    }
    assert(removed@ =~= myers_removed(before@, after@));
    assert(added@ =~= myers_added(before@, after@));
}

} // verus!
