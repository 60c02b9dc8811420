//! The search for the common run around which the histogram diff splits.
//!
//! The second sequence is scanned from its start. A token that the first sequence
//! holds, and holds no more than `MAX_CHAIN_LEN` times, is matched with each of its
//! occurrences there; each match is grown as far as it goes in both directions. Of
//! the runs found, the one that contains the rarest token wins; among equally rare
//! ones the longest, and among those the first.
use crate::histogram::{
    count, lemma_occurrences, occurrences, tokens_below, Histogram, MAX_CHAIN_LEN,
};
use crate::Token;
use vstd::prelude::*;

verus! {

/// A run of `len` tokens that stands at `before_start` in the first sequence and
/// at `after_start` in the second.
#[derive(Clone, Copy, Debug, Default)]
pub struct Lcs {
    pub before_start: u32,
    pub after_start: u32,
    pub len: u32,
}

/// The state of a search: the best run so far, the occurrence count of the rarest
/// token in it, and whether any token of the second sequence occurs in the first.
pub struct LcsSearch {
    pub lcs: Lcs,
    pub min_occurances: u32,
    pub found_cs: bool,
}

/// A run, as the contracts speak of it.
pub struct Run {
    pub before_start: int,
    pub after_start: int,
    pub len: int,
}

/// A search state, as the contracts speak of it.
pub struct Search {
    pub best: Run,
    pub rarity: int,
    pub found: bool,
}

impl View for Lcs {
    type V = Run;

    open spec fn view(&self) -> Run {
        Run {
            before_start: self.before_start as int,
            after_start: self.after_start as int,
            len: self.len as int,
        }
    }
}

impl View for LcsSearch {
    type V = Search;

    open spec fn view(&self) -> Search {
        Search { best: self.lcs@, rarity: self.min_occurances as int, found: self.found_cs }
    }
}

/// How many tokens just before position `i` of `before` equal, one by one, those
/// just before position `j` of `after`.
pub open spec fn back_len(before: Seq<Token>, after: Seq<Token>, i: int, j: int) -> int
    decreases i,
{
    if 0 < i <= before.len() && 0 < j <= after.len() && before[i - 1] == after[j - 1] {
        1 + back_len(before, after, i - 1, j - 1)
    } else {
        0
    }
}

/// How many tokens from position `i` of `before` on equal, one by one, those from
/// position `j` of `after` on.
pub open spec fn fwd_len(before: Seq<Token>, after: Seq<Token>, i: int, j: int) -> int
    decreases before.len() - i,
{
    if 0 <= i < before.len() && 0 <= j < after.len() && before[i] == after[j] {
        1 + fwd_len(before, after, i + 1, j + 1)
    } else {
        0
    }
}

/// The least occurrence count among the tokens `before[lo..hi]`, for `lo < hi`.
pub open spec fn rarest(before: Seq<Token>, lo: int, hi: int) -> int
    decreases hi - lo,
{
    if hi - lo <= 1 {
        count(before, before[lo])
    } else {
        let rest = rarest(before, lo, hi - 1);
        let last = count(before, before[hi - 1]);
        if last < rest {
            last
        } else {
            rest
        }
    }
}

/// The longest run through the pair of equal tokens at `i` and `j`.
pub open spec fn run_through(before: Seq<Token>, after: Seq<Token>, i: int, j: int) -> Run {
    let back = back_len(before, after, i, j);
    Run {
        before_start: i - back,
        after_start: j - back,
        len: back + fwd_len(before, after, i, j),
    }
}

/// The state after `run` has been weighed against the best run so far.
pub open spec fn consider(st: Search, run: Run, rarity: int) -> Search {
    if rarity < st.rarity || (rarity == st.rarity && run.len > st.best.len) {
        Search { best: run, rarity, found: st.found }
    } else {
        st
    }
}

/// The state after the token at `j` of `after` has been matched with the
/// occurrences `positions[from..]`, and the position of `after` at which the scan
/// goes on: behind the furthest run that was found.
pub open spec fn scan_occurrences(
    before: Seq<Token>,
    after: Seq<Token>,
    j: int,
    positions: Seq<u32>,
    from: int,
    st: Search,
    next: int,
) -> (Search, int)
    decreases positions.len() - from,
{
    if from < 0 || from >= positions.len() {
        (st, next)
    } else {
        let run = run_through(before, after, positions[from] as int, j);
        let rarity = rarest(before, run.before_start, run.before_start + run.len);
        let end = run.after_start + run.len;
        scan_occurrences(
            before,
            after,
            j,
            positions,
            from + 1,
            consider(st, run, rarity),
            if next < end {
                end
            } else {
                next
            },
        )
    }
}

/// The state after `after` has been scanned from position `j` on.
pub open spec fn scan(before: Seq<Token>, after: Seq<Token>, j: int, st: Search) -> Search
    decreases after.len() - j,
{
    if j < 0 || j >= after.len() {
        st
    } else {
        let occurs = count(before, after[j]);
        let seen = Search { best: st.best, rarity: st.rarity, found: true };
        if occurs == 0 {
            scan(before, after, j + 1, st)
        } else if occurs > MAX_CHAIN_LEN {
            scan(before, after, j + 1, seen)
        } else {
            let matched = scan_occurrences(
                before,
                after,
                j,
                occurrences(before, after[j], before.len() as int),
                0,
                seen,
                j + 1,
            );
            let next = if j < matched.1 <= after.len() {
                matched.1
            } else {
                j + 1
            };
            scan(before, after, next, matched.0)
        }
    }
}

/// The state in which a search starts.
pub open spec fn fresh_search() -> Search {
    Search {
        best: Run { before_start: 0, after_start: 0, len: 0 },
        rarity: MAX_CHAIN_LEN + 1,
        found: false,
    }
}

/// What the search answers: a run of length zero where the two sequences share no
/// token; nothing where they share tokens, but each shared token of `after` occurs
/// more than `MAX_CHAIN_LEN` times in `before`; else the best run.
pub open spec fn lcs_of(before: Seq<Token>, after: Seq<Token>) -> Option<Run> {
    let st = scan(before, after, 0, fresh_search());
    if !st.found {
        Some(Run { before_start: 0, after_start: 0, len: 0 })
    } else if st.rarity <= MAX_CHAIN_LEN {
        Some(st.best)
    } else {
        None
    }
}

/// The tokens `k` places from position `i` of `before` and from position `j` of
/// `after` are equal.
pub open spec fn same_at(before: Seq<Token>, after: Seq<Token>, i: int, j: int, k: int) -> bool {
    before[i + k] == after[j + k]
}

/// `run` lies within both sequences and holds the same tokens in both.
pub open spec fn is_common_run(before: Seq<Token>, after: Seq<Token>, run: Run) -> bool {
    &&& 0 <= run.before_start
    &&& 0 <= run.after_start
    &&& 0 <= run.len
    &&& run.before_start + run.len <= before.len()
    &&& run.after_start + run.len <= after.len()
    &&& forall|k: int|
        0 <= k < run.len ==> #[trigger] same_at(before, after, run.before_start, run.after_start, k)
}

/// `run` cannot be grown at either end.
pub open spec fn is_maximal_run(before: Seq<Token>, after: Seq<Token>, run: Run) -> bool {
    &&& run.before_start == 0 || run.after_start == 0 || before[run.before_start - 1]
        != after[run.after_start - 1]
    &&& run.before_start + run.len == before.len() || run.after_start + run.len == after.len()
        || before[run.before_start + run.len] != after[run.after_start + run.len]
}

pub proof fn lemma_back_len(before: Seq<Token>, after: Seq<Token>, i: int, j: int)
    requires
        0 <= i <= before.len(),
        0 <= j <= after.len(),
    ensures
        0 <= back_len(before, after, i, j) <= i,
        back_len(before, after, i, j) <= j,
        forall|k: int|
            1 <= k <= back_len(before, after, i, j) ==> #[trigger] same_at(before, after, i, j, -k),
        ({
            let back = back_len(before, after, i, j);
            i == back || j == back || before[i - back - 1] != after[j - back - 1]
        }),
    decreases i,
{
    if 0 < i && 0 < j && before[i - 1] == after[j - 1] {
        lemma_back_len(before, after, i - 1, j - 1);
        let shorter = back_len(before, after, i - 1, j - 1);
        assert forall|k: int| 1 <= k <= shorter + 1 implies #[trigger] same_at(
            before,
            after,
            i,
            j,
            -k,
        ) by {
            if k > 1 {
                assert(same_at(before, after, i - 1, j - 1, -(k - 1)));
            }
        }
    }
}

pub proof fn lemma_fwd_len(before: Seq<Token>, after: Seq<Token>, i: int, j: int)
    requires
        0 <= i <= before.len(),
        0 <= j <= after.len(),
    ensures
        0 <= fwd_len(before, after, i, j),
        i + fwd_len(before, after, i, j) <= before.len(),
        j + fwd_len(before, after, i, j) <= after.len(),
        forall|k: int|
            0 <= k < fwd_len(before, after, i, j) ==> #[trigger] same_at(before, after, i, j, k),
        ({
            let fwd = fwd_len(before, after, i, j);
            i + fwd == before.len() || j + fwd == after.len() || before[i + fwd] != after[j + fwd]
        }),
    decreases before.len() - i,
{
    if i < before.len() && j < after.len() && before[i] == after[j] {
        lemma_fwd_len(before, after, i + 1, j + 1);
        let shorter = fwd_len(before, after, i + 1, j + 1);
        assert forall|k: int| 0 <= k < shorter + 1 implies #[trigger] same_at(
            before,
            after,
            i,
            j,
            k,
        ) by {
            if k > 0 {
                assert(same_at(before, after, i + 1, j + 1, k - 1));
            }
        }
    }
}

/// The run through a pair of equal tokens is a common run that holds the pair and
/// cannot be grown.
pub proof fn lemma_run_through(before: Seq<Token>, after: Seq<Token>, i: int, j: int)
    requires
        0 <= i < before.len(),
        0 <= j < after.len(),
        before[i] == after[j],
    ensures
        is_common_run(before, after, run_through(before, after, i, j)),
        is_maximal_run(before, after, run_through(before, after, i, j)),
        run_through(before, after, i, j).before_start <= i < run_through(
            before,
            after,
            i,
            j,
        ).before_start + run_through(before, after, i, j).len,
        j - run_through(before, after, i, j).after_start == i - run_through(
            before,
            after,
            i,
            j,
        ).before_start,
{
    lemma_back_len(before, after, i, j);
    lemma_fwd_len(before, after, i, j);
    let run = run_through(before, after, i, j);
    let back = back_len(before, after, i, j);
    assert forall|k: int| 0 <= k < run.len implies #[trigger] same_at(
        before,
        after,
        run.before_start,
        run.after_start,
        k,
    ) by {
        if k < back {
            assert(same_at(before, after, i, j, -(back - k)));
        } else {
            assert(same_at(before, after, i, j, k - back));
        }
    }
}

/// The least count of a stretch is the lesser of the count of its first token and
/// the least count of the rest.
pub proof fn lemma_rarest_front(before: Seq<Token>, lo: int, hi: int)
    requires
        lo + 1 < hi,
    ensures
        rarest(before, lo, hi) == if count(before, before[lo]) < rarest(before, lo + 1, hi) {
            count(before, before[lo])
        } else {
            rarest(before, lo + 1, hi)
        },
    decreases hi - lo,
{
    reveal_with_fuel(rarest, 3);
    if lo + 2 < hi {
        lemma_rarest_front(before, lo, hi - 1);
    }
}

/// No token of a stretch is rarer than the stretch's least count says.
pub proof fn lemma_rarest_bound(before: Seq<Token>, lo: int, hi: int, at: int)
    requires
        lo <= at < hi,
    ensures
        rarest(before, lo, hi) <= count(before, before[at]),
    decreases hi - lo,
{
    if hi - lo > 1 && at < hi - 1 {
        lemma_rarest_bound(before, lo, hi - 1, at);
    }
}

/// The token at `k` of `after` occurs in `before`.
pub open spec fn is_shared(before: Seq<Token>, after: Seq<Token>, k: int) -> bool {
    0 <= k < after.len() && count(before, after[k]) > 0
}

/// The token at `k` of `after` occurs in `before`, and no more than
/// `MAX_CHAIN_LEN` times.
pub open spec fn is_seed(before: Seq<Token>, after: Seq<Token>, k: int) -> bool {
    0 <= k < after.len() && 0 < count(before, after[k]) <= MAX_CHAIN_LEN
}

/// From position `j` on, `after` holds a token that occurs in `before`.
pub open spec fn shares_from(before: Seq<Token>, after: Seq<Token>, j: int) -> bool {
    exists|k: int| j <= k && #[trigger] is_shared(before, after, k)
}

/// From position `j` on, `after` holds a token with which a search can start.
pub open spec fn seeds_from(before: Seq<Token>, after: Seq<Token>, j: int) -> bool {
    exists|k: int| j <= k && #[trigger] is_seed(before, after, k)
}

/// What holds of a search state at every step: before any shared token is seen
/// it is the fresh state; once a run has been taken, the run is a common run that
/// cannot be grown, it is not empty, and the state's rarity is that of the run.
pub open spec fn sound(before: Seq<Token>, after: Seq<Token>, st: Search) -> bool {
    &&& st.found || st == fresh_search()
    &&& st.rarity <= MAX_CHAIN_LEN + 1
    &&& st.rarity > MAX_CHAIN_LEN ==> st.best == fresh_search().best
    &&& st.rarity <= MAX_CHAIN_LEN ==> {
        &&& is_common_run(before, after, st.best)
        &&& is_maximal_run(before, after, st.best)
        &&& st.best.len > 0
        &&& st.rarity == rarest(before, st.best.before_start, st.best.before_start + st.best.len)
    }
}

pub proof fn lemma_scan_occurrences(
    before: Seq<Token>,
    after: Seq<Token>,
    j: int,
    positions: Seq<u32>,
    from: int,
    st: Search,
    next: int,
)
    requires
        sound(before, after, st),
        st.found,
        is_seed(before, after, j),
        forall|k: int|
            0 <= k < positions.len() ==> 0 <= (#[trigger] positions[k]) < before.len()
                && before[positions[k] as int] == after[j],
        0 <= from <= positions.len(),
        j < next <= after.len(),
    ensures
        sound(before, after, scan_occurrences(before, after, j, positions, from, st, next).0),
        scan_occurrences(before, after, j, positions, from, st, next).0.found,
        scan_occurrences(before, after, j, positions, from, st, next).0.rarity <= st.rarity,
        from < positions.len() ==> scan_occurrences(
            before,
            after,
            j,
            positions,
            from,
            st,
            next,
        ).0.rarity <= MAX_CHAIN_LEN,
        next <= scan_occurrences(before, after, j, positions, from, st, next).1 <= after.len(),
    decreases positions.len() - from,
{
    if from < positions.len() {
        let i = positions[from] as int;
        let run = run_through(before, after, i, j);
        let rarity = rarest(before, run.before_start, run.before_start + run.len);
        let end = run.after_start + run.len;
        lemma_run_through(before, after, i, j);
        lemma_rarest_bound(before, run.before_start, run.before_start + run.len, i);
        let st2 = consider(st, run, rarity);
        let next2 = if next < end {
            end
        } else {
            next
        };
        lemma_scan_occurrences(before, after, j, positions, from + 1, st2, next2);
    }
}

/// The scan keeps a sound state sound. It has seen a shared token exactly if it
/// had before or one lies ahead, and it has taken a run exactly if it had before
/// or a token to start from lies ahead.
pub proof fn lemma_scan(before: Seq<Token>, after: Seq<Token>, j: int, st: Search)
    requires
        sound(before, after, st),
        0 <= j,
        before.len() <= u32::MAX,
    ensures
        sound(before, after, scan(before, after, j, st)),
        scan(before, after, j, st).rarity <= st.rarity,
        scan(before, after, j, st).found <==> st.found || shares_from(before, after, j),
        scan(before, after, j, st).rarity <= MAX_CHAIN_LEN <==> st.rarity <= MAX_CHAIN_LEN
            || seeds_from(before, after, j),
    decreases after.len() - j,
{
    if j < after.len() {
        let occurs = count(before, after[j]);
        let seen = Search { best: st.best, rarity: st.rarity, found: true };
        if occurs == 0 {
            lemma_scan(before, after, j + 1, st);
            assert(!is_shared(before, after, j));
            assert(!is_seed(before, after, j));
        } else if occurs > MAX_CHAIN_LEN {
            lemma_scan(before, after, j + 1, seen);
            assert(is_shared(before, after, j));
            assert(!is_seed(before, after, j));
        } else {
            let positions = occurrences(before, after[j], before.len() as int);
            lemma_occurrences(before, after[j], before.len() as int);
            assert(is_shared(before, after, j));
            assert(is_seed(before, after, j));
            lemma_scan_occurrences(before, after, j, positions, 0, seen, j + 1);
            let matched = scan_occurrences(before, after, j, positions, 0, seen, j + 1);
            lemma_scan(before, after, matched.1, matched.0);
        }
        if shares_from(before, after, j) && !is_shared(before, after, j) {
            let k = choose|k: int| j <= k && #[trigger] is_shared(before, after, k);
            assert(j + 1 <= k && is_shared(before, after, k));
        }
        if seeds_from(before, after, j) && !is_seed(before, after, j) {
            let k = choose|k: int| j <= k && #[trigger] is_seed(before, after, k);
            assert(j + 1 <= k && is_seed(before, after, k));
        }
        if shares_from(before, after, j + 1) {
            let k = choose|k: int| j + 1 <= k && #[trigger] is_shared(before, after, k);
            assert(j <= k && is_shared(before, after, k));
        }
        if seeds_from(before, after, j + 1) {
            let k = choose|k: int| j + 1 <= k && #[trigger] is_seed(before, after, k);
            assert(j <= k && is_seed(before, after, k));
        }
    } else {
        assert forall|k: int| j <= k implies !is_shared(before, after, k) && !is_seed(
            before,
            after,
            k,
        ) by {}
    }
}

/// The answer of the search: a run that both sequences hold and that cannot be
/// grown; the empty run exactly where the sequences share no token; and nothing
/// exactly where they share tokens but none to start from.
pub proof fn lemma_lcs_of(before: Seq<Token>, after: Seq<Token>)
    requires
        before.len() <= u32::MAX,
    ensures
        lcs_of(before, after).is_none() <==> shares_from(before, after, 0) && !seeds_from(
            before,
            after,
            0,
        ),
        lcs_of(before, after).is_some() ==> {
            let run = lcs_of(before, after).unwrap();
            &&& is_common_run(before, after, run)
            &&& run.len == 0 <==> !shares_from(before, after, 0)
            &&& run.len > 0 ==> is_maximal_run(before, after, run)
            &&& run == scan(before, after, 0, fresh_search()).best
        },
{
    lemma_scan(before, after, 0, fresh_search());
}

/// The run that is all of a sequence of `len` tokens, matched with itself.
pub open spec fn whole(len: int) -> Run {
    Run { before_start: 0, after_start: 0, len }
}

/// The least count of a stretch is the count of one of its tokens.
pub proof fn lemma_rarest_witness(before: Seq<Token>, lo: int, hi: int) -> (at: int)
    requires
        lo < hi,
    ensures
        lo <= at < hi,
        rarest(before, lo, hi) == count(before, before[at]),
    decreases hi - lo,
{
    if hi - lo <= 1 {
        lo
    } else {
        let at = lemma_rarest_witness(before, lo, hi - 1);
        if count(before, before[hi - 1]) < rarest(before, lo, hi - 1) {
            hi - 1
        } else {
            at
        }
    }
}

/// A sequence, matched with itself at the same position, matches all the way back
/// and all the way on.
pub proof fn lemma_run_through_self(s: Seq<Token>, j: int)
    requires
        0 <= j <= s.len(),
    ensures
        back_len(s, s, j, j) == j,
        fwd_len(s, s, j, j) == s.len() - j,
{
    lemma_back_self(s, j);
    lemma_fwd_self(s, j);
}

proof fn lemma_back_self(s: Seq<Token>, j: int)
    requires
        0 <= j <= s.len(),
    ensures
        back_len(s, s, j, j) == j,
    decreases j,
{
    if j > 0 {
        lemma_back_self(s, j - 1);
    }
}

proof fn lemma_fwd_self(s: Seq<Token>, j: int)
    requires
        0 <= j <= s.len(),
    ensures
        fwd_len(s, s, j, j) == s.len() - j,
    decreases s.len() - j,
{
    if j < s.len() {
        lemma_fwd_self(s, j + 1);
    }
}

/// The state holds a run that is worse than the whole of `s`.
pub open spec fn short_of_whole(s: Seq<Token>, st: Search) -> bool {
    let least = rarest(s, 0, s.len() as int);
    st.rarity > least || (st.rarity == least && st.best.len < s.len())
}

/// The state holds the whole of `s`.
pub open spec fn holds_whole(s: Seq<Token>, st: Search) -> bool {
    st.best == whole(s.len() as int) && st.rarity == rarest(s, 0, s.len() as int)
}

/// Matching a token of `s` with its occurrences in `s` itself ends with the whole
/// of `s` as the best run, and sends the scan to the end.
pub proof fn lemma_scan_occurrences_self(
    s: Seq<Token>,
    j: int,
    positions: Seq<u32>,
    from: int,
    st: Search,
    next: int,
)
    requires
        0 <= j < s.len(),
        s.len() <= u32::MAX,
        forall|k: int|
            0 <= k < positions.len() ==> 0 <= (#[trigger] positions[k]) < s.len()
                && s[positions[k] as int] == s[j],
        0 <= from <= positions.len(),
        j < next <= s.len(),
        (holds_whole(s, st) && next == s.len()) || (short_of_whole(s, st) && exists|k: int|
            from <= k < positions.len() && #[trigger] positions[k] == j),
    ensures
        holds_whole(s, scan_occurrences(s, s, j, positions, from, st, next).0),
        scan_occurrences(s, s, j, positions, from, st, next).1 == s.len(),
    decreases positions.len() - from,
{
    let n = s.len() as int;
    if from < positions.len() {
        let i = positions[from] as int;
        let run = run_through(s, s, i, j);
        let rarity = rarest(s, run.before_start, run.before_start + run.len);
        let end = run.after_start + run.len;
        lemma_run_through(s, s, i, j);
        let at = lemma_rarest_witness(s, run.before_start, run.before_start + run.len);
        lemma_rarest_bound(s, 0, n, at);
        if i == j {
            lemma_run_through_self(s, j);
        }
        let st2 = consider(st, run, rarity);
        let next2 = if next < end {
            end
        } else {
            next
        };
        if !(holds_whole(s, st) && next == n) && i != j {
            let k = choose|k: int| from <= k < positions.len() && #[trigger] positions[k] == j;
            assert(from + 1 <= k < positions.len() && positions[k] == j);
        }
        lemma_scan_occurrences_self(s, j, positions, from + 1, st2, next2);
    }
}

/// A scan of `s` against itself that has not taken a run yet ends without one,
/// or with the whole of `s`.
pub proof fn lemma_scan_self(s: Seq<Token>, j: int, st: Search)
    requires
        0 <= j,
        s.len() <= u32::MAX,
        st.rarity > MAX_CHAIN_LEN,
    ensures
        scan(s, s, j, st).rarity <= MAX_CHAIN_LEN ==> scan(s, s, j, st).best == whole(
            s.len() as int,
        ),
    decreases s.len() - j,
{
    let n = s.len() as int;
    if j < n {
        let occurs = count(s, s[j]);
        let seen = Search { best: st.best, rarity: st.rarity, found: true };
        if occurs == 0 {
            lemma_scan_self(s, j + 1, st);
        } else if occurs > MAX_CHAIN_LEN {
            lemma_scan_self(s, j + 1, seen);
        } else {
            let positions = occurrences(s, s[j], n);
            lemma_occurrences(s, s[j], n);
            lemma_rarest_bound(s, 0, n, j);
            assert(positions.contains(j as u32));
            let k = choose|k: int| 0 <= k < positions.len() && positions[k] == j as u32;
            assert(0 <= k < positions.len() && positions[k] == j);
            lemma_scan_occurrences_self(s, j, positions, 0, seen, j + 1);
            let matched = scan_occurrences(s, s, j, positions, 0, seen, j + 1);
            assert(scan(s, s, n, matched.0) == matched.0);
        }
    }
}

impl LcsSearch {
    /// Matches the token at `after_pos` with each of its occurrences in `before`
    /// and keeps the best run; the result is the position at which the scan goes
    /// on.
    pub fn update_lcs(
        &mut self,
        after_pos: u32,
        token: Token,
        histogram: &Histogram,
        before: &[Token],
        after: &[Token],
    ) -> (next: u32)
        requires
            histogram.indexes(before@, before@.len() as int),
            tokens_below(before@, histogram.num_tokens()),
            before@.len() <= u32::MAX,
            after@.len() <= u32::MAX,
            after_pos < after@.len(),
            after@[after_pos as int] == token,
            token.0 < histogram.num_tokens(),
        ensures
            (final(self)@, next as int) == scan_occurrences(
                before@,
                after@,
                after_pos as int,
                occurrences(before@, token, before@.len() as int),
                0,
                old(self)@,
                after_pos + 1,
            ),
            after_pos < next <= after@.len(),
    {
        let positions: &[u32] = histogram.token_occurances(token);
        let ghost target = scan_occurrences(
            before@,
            after@,
            after_pos as int,
            positions@,
            0,
            old(self)@,
            after_pos + 1,
        );
        proof {
            lemma_occurrences(before@, token, before@.len() as int);
            assert(histogram.listed(Token(token.0)) == occurrences(
                before@,
                Token(token.0),
                before@.len() as int,
            ));
        }
        let mut next: u32 = after_pos + 1;
        let mut at: usize = 0;
        while at < positions.len()
            invariant
                histogram.indexes(before@, before@.len() as int),
                tokens_below(before@, histogram.num_tokens()),
                before@.len() <= u32::MAX,
                after@.len() <= u32::MAX,
                after_pos < after@.len(),
                after@[after_pos as int] == token,
                token.0 < histogram.num_tokens(),
                positions@ == occurrences(before@, token, before@.len() as int),
                forall|k: int|
                    0 <= k < positions@.len() ==> 0 <= (#[trigger] positions@[k]) < before@.len()
                        && before@[positions@[k] as int] == token,
                at <= positions@.len(),
                after_pos < next <= after@.len(),
                scan_occurrences(
                    before@,
                    after@,
                    after_pos as int,
                    positions@,
                    at as int,
                    self@,
                    next as int,
                ) == target,
            decreases positions@.len() - at,
        {
            let token_idx1: u32 = positions[at];
            assert(before@[token_idx1 as int] == token);
            let mut occurances: u32 = histogram.num_token_occurances(token);
            assert(histogram.listed(Token(token.0)) == occurrences(
                before@,
                Token(token.0),
                before@.len() as int,
            ));
            let mut start1: u32 = token_idx1;
            let mut start2: u32 = after_pos;
            while start1 > 0 && start2 > 0 && before[start1 as usize - 1] == after[start2 as usize
                - 1]
                invariant
                    histogram.indexes(before@, before@.len() as int),
                    tokens_below(before@, histogram.num_tokens()),
                    token_idx1 < before@.len(),
                    after_pos < after@.len(),
                    start1 <= token_idx1,
                    token_idx1 - start1 == after_pos - start2,
                    back_len(before@, after@, token_idx1 as int, after_pos as int) == (token_idx1
                        - start1) + back_len(before@, after@, start1 as int, start2 as int),
                    occurances == rarest(before@, start1 as int, token_idx1 + 1),
                decreases start1,
            {
                start1 -= 1;
                start2 -= 1;
                let here: Token = before[start1 as usize];
                let new_occurances: u32 = histogram.num_token_occurances(here);
                proof {
                    assert(histogram.listed(Token(here.0)) == occurrences(
                        before@,
                        Token(here.0),
                        before@.len() as int,
                    ));
                    lemma_rarest_front(before@, start1 as int, token_idx1 + 1);
                }
                if new_occurances < occurances {
                    occurances = new_occurances;
                }
            }
            let mut end1: u32 = token_idx1 + 1;
            let mut end2: u32 = after_pos + 1;
            while (end1 as usize) < before.len() && (end2 as usize) < after.len() && before[end1 as usize]
                == after[end2 as usize]
                invariant
                    histogram.indexes(before@, before@.len() as int),
                    tokens_below(before@, histogram.num_tokens()),
                    before@.len() <= u32::MAX,
                    after@.len() <= u32::MAX,
                    start1 <= token_idx1 < end1 <= before@.len(),
                    after_pos < end2 <= after@.len(),
                    end1 - token_idx1 == end2 - after_pos,
                    fwd_len(before@, after@, token_idx1 as int, after_pos as int) == (end1
                        - token_idx1) + fwd_len(before@, after@, end1 as int, end2 as int),
                    occurances == rarest(before@, start1 as int, end1 as int),
                decreases before@.len() - end1,
            {
                let here: Token = before[end1 as usize];
                let new_occurances: u32 = histogram.num_token_occurances(here);
                proof {
                    assert(histogram.listed(Token(here.0)) == occurrences(
                        before@,
                        Token(here.0),
                        before@.len() as int,
                    ));
                }
                if new_occurances < occurances {
                    occurances = new_occurances;
                }
                end1 += 1;
                end2 += 1;
            }
            if next < end2 {
                next = end2;
            }
            let len: u32 = end2 - start2;
            if occurances < self.min_occurances || (occurances == self.min_occurances
                && self.lcs.len < len) {
                self.min_occurances = occurances;
                self.lcs = Lcs { before_start: start1, after_start: start2, len };
            }
            at += 1;
        }
        next
    }

    /// Scans `after`, and leaves the index clear for its next use.
    pub fn run(&mut self, before: &[Token], after: &[Token], histogram: &mut Histogram)
        requires
            old(histogram).indexes(before@, before@.len() as int),
            old(histogram).pool.generation < u64::MAX,
            tokens_below(before@, old(histogram).num_tokens()),
            tokens_below(after@, old(histogram).num_tokens()),
            before@.len() <= u32::MAX,
            after@.len() <= u32::MAX,
        ensures
            final(self)@ == scan(before@, after@, 0, old(self)@),
            final(histogram).is_clear(),
            final(histogram).num_tokens() == old(histogram).num_tokens(),
            final(histogram).pool.generation == old(histogram).pool.generation + 1,
    {
        let mut pos: u32 = 0;
        while (pos as usize) < after.len()
            invariant
                *histogram == *old(histogram),
                histogram.indexes(before@, before@.len() as int),
                tokens_below(before@, histogram.num_tokens()),
                tokens_below(after@, histogram.num_tokens()),
                before@.len() <= u32::MAX,
                after@.len() <= u32::MAX,
                pos <= after@.len(),
                scan(before@, after@, pos as int, self@) == scan(before@, after@, 0, old(self)@),
            decreases after@.len() - pos,
        {
            let token: Token = after[pos as usize];
            let occurances: u32 = histogram.num_token_occurances(token);
            assert(histogram.listed(Token(token.0)) == occurrences(
                before@,
                Token(token.0),
                before@.len() as int,
            ));
            if occurances != 0 {
                self.found_cs = true;
                if occurances <= MAX_CHAIN_LEN {
                    pos = self.update_lcs(pos, token, histogram, before, after);
                    continue ;
                }
            }
            pos += 1;
        }
        histogram.clear();
    }
}

/// Searches `before` and `after` for the run to split around. `histogram` lists
/// the positions of the tokens of `before`, and lists nothing afterwards.
pub fn find_lcs(before: &[Token], after: &[Token], histogram: &mut Histogram) -> (found: Option<
    Lcs,
>)
    requires
        old(histogram).indexes(before@, before@.len() as int),
        old(histogram).pool.generation < u64::MAX,
        tokens_below(before@, old(histogram).num_tokens()),
        tokens_below(after@, old(histogram).num_tokens()),
        before@.len() <= u32::MAX,
        after@.len() <= u32::MAX,
    ensures
        match found {
            Some(lcs) => lcs_of(before@, after@) == Some(lcs@),
            None => lcs_of(before@, after@).is_none(),
        },
        final(histogram).is_clear(),
        final(histogram).num_tokens() == old(histogram).num_tokens(),
        final(histogram).pool.generation == old(histogram).pool.generation + 1,
{
    let mut search = LcsSearch {
        lcs: Lcs { before_start: 0, after_start: 0, len: 0 },
        min_occurances: MAX_CHAIN_LEN + 1,
        found_cs: false,
    };
    search.run(before, after, histogram);
    proof {
        lemma_lcs_of(before@, after@);
    }
    if !search.found_cs || search.min_occurances <= MAX_CHAIN_LEN {
        Some(search.lcs)
    } else {
        None
    }
}

} // verus!
