use histogram_diff::histogram::{diff, MAX_CHAIN_LEN};
use histogram_diff::myers;
use histogram_diff::postprocess::Diff;
use histogram_diff::Token;

fn toks(ids: &[u32]) -> Vec<Token> {
    ids.iter().map(|&id| Token(id)).collect()
}

fn kept(tokens: &[Token], mask: &[bool]) -> Vec<Token> {
    tokens.iter().zip(mask).filter(|(_, &m)| !m).map(|(&t, _)| t).collect()
}

fn marks(mask: &[bool]) -> usize {
    mask.iter().filter(|&&m| m).count()
}

fn raw(before: &[Token], after: &[Token]) -> (Vec<bool>, Vec<bool>) {
    let mut removed = vec![false; before.len()];
    let mut added = vec![false; after.len()];
    diff(before, after, &mut removed, &mut added, 16);
    (removed, added)
}

fn myers_masks(before: &[Token], after: &[Token]) -> (Vec<bool>, Vec<bool>) {
    let mut removed = vec![false; before.len()];
    let mut added = vec![false; after.len()];
    myers::diff(before, after, &mut removed, &mut added);
    (removed, added)
}

fn lcs_len(a: &[Token], b: &[Token]) -> usize {
    let mut table = vec![vec![0usize; b.len() + 1]; a.len() + 1];
    for i in 1..=a.len() {
        for j in 1..=b.len() {
            table[i][j] = if a[i - 1] == b[j - 1] {
                table[i - 1][j - 1] + 1
            } else {
                table[i - 1][j].max(table[i][j - 1])
            };
        }
    }
    table[a.len()][b.len()]
}

fn samples() -> Vec<(Vec<Token>, Vec<Token>)> {
    let lists: [(&[u32], &[u32]); 9] = [
        (&[0, 1, 2, 0, 1, 1, 0], &[2, 1, 0, 1, 0, 2]),
        (&[9, 0, 1, 0, 1], &[0, 1, 0, 1, 9]),
        (&[0, 1, 2, 3, 4, 5], &[0, 2, 1, 3, 5, 4, 6]),
        (&[1, 1, 0], &[1, 0, 0, 0]),
        (&[0, 1, 0, 2], &[0, 2]),
        (&[3, 0, 1, 0, 1, 4], &[3, 0, 1, 8, 0, 1, 0, 1, 4]),
        (&[1, 7, 2, 2, 3], &[1, 2, 2, 2, 8, 3]),
        (&[], &[1, 2]),
        (&[5, 5, 5], &[5, 5, 5]),
    ];
    lists.iter().map(|(b, a)| (toks(b), toks(a))).collect()
}

#[test]
fn kept_tokens_agree() {
    for (before, after) in samples() {
        let (removed, added) = raw(&before, &after);
        assert_eq!(removed.len(), before.len());
        assert_eq!(added.len(), after.len());
        assert_eq!(kept(&before, &removed), kept(&after, &added));
        assert_eq!(before.len() - marks(&removed), after.len() - marks(&added));
    }
}

#[test]
fn same_input_same_masks() {
    for (before, after) in samples() {
        assert_eq!(raw(&before, &after), raw(&before, &after));
    }
}

#[test]
fn exact_masks_of_a_mixed_input() {
    let (removed, added) = raw(&toks(&[0, 1, 2, 0, 1, 1, 0]), &toks(&[2, 1, 0, 1, 0, 2]));
    assert_eq!(removed, vec![true, true, false, true, true, false, false]);
    assert_eq!(added, vec![false, false, false, true, true, true]);
    let (removed, added) = raw(&toks(&[0, 1, 2, 3, 4, 5]), &toks(&[0, 2, 1, 3, 5, 4, 6]));
    assert_eq!(removed, vec![false, true, false, false, true, false]);
    assert_eq!(added, vec![false, false, true, false, false, true, true]);
}

#[test]
fn rare_token_wins_over_long_run() {
    // The single `9` is rarer than the run `0 1 0 1`, so the diff splits around it
    // and marks eight tokens where two would do.
    let before = toks(&[9, 0, 1, 0, 1]);
    let after = toks(&[0, 1, 0, 1, 9]);
    let (removed, added) = raw(&before, &after);
    assert_eq!(removed, vec![false, true, true, true, true]);
    assert_eq!(added, vec![true, true, true, true, false]);
    let (m_removed, m_added) = myers_masks(&before, &after);
    assert_eq!(marks(&m_removed) + marks(&m_added), 2);
}

#[test]
fn myers_is_minimal() {
    for (before, after) in samples() {
        let (removed, added) = myers_masks(&before, &after);
        assert_eq!(kept(&before, &removed), kept(&after, &added));
        let common = lcs_len(&before, &after);
        assert_eq!(marks(&removed), before.len() - common);
        assert_eq!(marks(&added), after.len() - common);
    }
}

#[test]
fn myers_exact_masks() {
    let (removed, added) = myers_masks(&toks(&[0, 1, 2, 0, 1, 1, 0]), &toks(&[2, 1, 0, 1, 0, 2]));
    assert_eq!(removed, vec![true, true, false, false, false, true, false]);
    assert_eq!(added, vec![false, true, false, false, false, true]);
    let (removed, added) = myers_masks(&toks(&[0; 5]), &toks(&[0; 3]));
    assert_eq!(removed, vec![false, false, false, true, true]);
    assert_eq!(added, vec![false, false, false]);
    let (removed, added) = myers_masks(&toks(&[]), &toks(&[1, 2]));
    assert_eq!(removed, Vec::<bool>::new());
    assert_eq!(added, vec![true, true]);
}

#[test]
fn identical_sequences_mark_nothing() {
    for ids in [vec![0u32], vec![0, 1, 2, 1, 0], vec![4; 70], (0..100).map(|i| i % 7).collect()] {
        let tokens = toks(&ids);
        let (removed, added) = raw(&tokens, &tokens);
        assert_eq!(marks(&removed), 0);
        assert_eq!(marks(&added), 0);
    }
}

#[test]
fn disjoint_sequences_mark_everything() {
    let (removed, added) = raw(&toks(&[0, 1, 0]), &toks(&[2, 3, 2, 4]));
    assert_eq!(removed, vec![true; 3]);
    assert_eq!(added, vec![true; 4]);
}

#[test]
fn too_common_tokens_give_the_myers_diff() {
    let mut before = vec![0u32; 64];
    before.extend(vec![1u32; 65]);
    let mut after = vec![1u32; 65];
    after.extend(vec![0u32; 64]);
    let (before, after) = (toks(&before), toks(&after));
    let (removed, added) = raw(&before, &after);
    assert_eq!((removed.clone(), added.clone()), myers_masks(&before, &after));
    // The Myers diff keeps the longer run.
    let mut want_removed = vec![true; 64];
    want_removed.extend(vec![false; 65]);
    let mut want_added = vec![false; 65];
    want_added.extend(vec![true; 64]);
    assert_eq!(removed, want_removed);
    assert_eq!(added, want_added);
}

#[test]
fn chain_cap_is_sixty_three() {
    assert_eq!(MAX_CHAIN_LEN, 63);
    // 63 occurrences still start a search: the rarer run of `0` is kept, although
    // the run of `1` is longer.
    let mut before = vec![0u32; 63];
    before.extend(vec![1u32; 64]);
    let mut after = vec![1u32; 64];
    after.extend(vec![0u32; 63]);
    let (before, after) = (toks(&before), toks(&after));
    let (removed, added) = raw(&before, &after);
    let mut want_removed = vec![false; 63];
    want_removed.extend(vec![true; 64]);
    let mut want_added = vec![true; 64];
    want_added.extend(vec![false; 63]);
    assert_eq!(removed, want_removed);
    assert_eq!(added, want_added);
    let (m_removed, m_added) = myers_masks(&before, &after);
    assert_eq!(marks(&m_removed) + marks(&m_added), 126);
}

#[test]
fn postprocessing_keeps_the_kept_tokens() {
    for (before, after) in samples() {
        let mut d = Diff::compute(&before, &after, 16);
        let kept_before = kept(&before, &d.removed);
        let kept_after = kept(&after, &d.added);
        d.postprocess_with(&before, &after);
        assert_eq!(d.removed.len(), before.len());
        assert_eq!(d.added.len(), after.len());
        assert_eq!(kept(&before, &d.removed), kept_before);
        assert_eq!(kept(&after, &d.added), kept_after);
    }
}

#[test]
fn postprocessing_twice_changes_nothing_more() {
    let inputs: [(&[u32], &[u32]); 4] = [
        (&[9, 0, 8], &[9, 1, 8]),
        (&[0, 1, 0, 1], &[0, 1, 0, 1, 0, 1]),
        (&[1, 2, 2, 2, 3], &[1, 2, 2, 3]),
        (&[3, 0, 1, 0, 1, 4], &[3, 0, 1, 8, 0, 1, 0, 1, 4]),
    ];
    for (b, a) in inputs {
        let (before, after) = (toks(b), toks(a));
        let mut d = Diff::compute(&before, &after, 16);
        d.postprocess_with(&before, &after);
        let once = (d.removed.clone(), d.added.clone());
        d.postprocess_with(&before, &after);
        assert_eq!((d.removed, d.added), once);
    }
}

#[test]
fn diff_without_sliding_hunks_stays() {
    // Neither hunk has an equal token before or behind it.
    let (before, after) = (toks(&[9, 0, 8, 1, 7]), toks(&[9, 2, 8, 7]));
    let mut d = Diff { removed: vec![false, true, false, true, false], added: vec![false, true, false, false] };
    d.postprocess_with(&before, &after);
    assert_eq!(d.removed, vec![false, true, false, true, false]);
    assert_eq!(d.added, vec![false, true, false, false]);
}

#[test]
fn second_postprocessing_can_align_with_a_moved_hunk() {
    // The first run moves the removed hunk; only a second run sees the added hunk
    // beside it.
    let (before, after) = (toks(&[1, 1, 0]), toks(&[1, 0, 0, 0]));
    let mut d = Diff::compute(&before, &after, 16);
    assert_eq!(d.removed, vec![true, false, false]);
    assert_eq!(d.added, vec![false, false, true, true]);
    d.postprocess_with(&before, &after);
    assert_eq!(d.removed, vec![false, true, false]);
    assert_eq!(d.added, vec![false, false, true, true]);
    d.postprocess_with(&before, &after);
    assert_eq!(d.removed, vec![false, true, false]);
    assert_eq!(d.added, vec![false, true, true, false]);
}

#[test]
fn hunks_settle_low_or_beside_the_other_side() {
    // A removal that can move ends at its lowest place.
    let (before, after) = (toks(&[1, 2, 2, 2, 3]), toks(&[1, 2, 2, 3]));
    let mut d = Diff::compute(&before, &after, 16);
    d.postprocess_with(&before, &after);
    assert_eq!(d.removed, vec![false, false, false, true, false]);
    assert_eq!(d.added, vec![false; 4]);
    // The removed hunk moves down as far as it goes.
    let (before, after) = (toks(&[0, 1, 0, 2]), toks(&[0, 2]));
    let mut d = Diff::compute(&before, &after, 16);
    assert_eq!(d.removed, vec![true, true, false, false]);
    d.postprocess_with(&before, &after);
    assert_eq!(d.removed, vec![false, true, true, false]);
    assert_eq!(d.added, vec![false, false]);
    // Hunks on both sides are left side by side.
    let (before, after) = (toks(&[1, 7, 2, 2, 3]), toks(&[1, 2, 2, 2, 8, 3]));
    let mut d = Diff::compute(&before, &after, 16);
    d.postprocess_with(&before, &after);
    assert_eq!(d.removed, vec![false, true, false, false, false]);
    assert_eq!(d.added, vec![false, false, false, true, true, false]);
}
