use histogram_diff::histogram::diff;
use histogram_diff::postprocess::Diff;
use histogram_diff::sources::lines;
use histogram_diff::Token;
use std::collections::HashMap;

const T: bool = true;
const F: bool = false;

/// Gives each distinct line its own token, in order of first appearance.
fn intern_lines(before: &str, after: &str) -> (Vec<Token>, Vec<Token>, u32) {
    let mut ids: HashMap<String, u32> = HashMap::new();
    let mut both: Vec<Vec<Token>> = Vec::new();
    for text in [before, after] {
        let mut tokens = Vec::new();
        for line in lines(text).collect() {
            let next = ids.len() as u32;
            let id = *ids.entry(line.to_string()).or_insert(next);
            tokens.push(Token(id));
        }
        both.push(tokens);
    }
    let after_tokens = both.pop().unwrap();
    let before_tokens = both.pop().unwrap();
    (before_tokens, after_tokens, ids.len() as u32)
}

fn diff_lines(before: &str, after: &str) -> (Vec<bool>, Vec<bool>) {
    let (b, a, n) = intern_lines(before, after);
    let mut computed = Diff::compute(&b, &a, n);
    computed.postprocess_with(&b, &a);
    (computed.removed, computed.added)
}

#[test]
fn identity_marks_nothing() {
    assert_eq!(diff_lines("a\nb\n", "a\nb\n"), (vec![F, F], vec![F, F]));
}

#[test]
fn pure_insert_marks_the_new_line() {
    assert_eq!(diff_lines("a\n", "a\nb\n"), (vec![F], vec![F, T]));
}

#[test]
fn pure_delete_marks_the_old_line() {
    assert_eq!(diff_lines("a\nb\n", "a\n"), (vec![F, T], vec![F]));
}

#[test]
fn modified_line_is_marked_on_both_sides() {
    assert_eq!(diff_lines("x\na\ny\n", "x\nb\ny\n"), (vec![F, T, F], vec![F, T, F]));
}

#[test]
fn free_insertion_slides_to_the_end() {
    let (removed, added) = diff_lines("a\nb\na\nb\n", "a\nb\na\nb\na\nb\n");
    assert_eq!(removed, vec![F, F, F, F]);
    assert_eq!(added, vec![F, F, F, F, T, T]);
}

#[test]
fn repeated_line_goes_to_the_fallback() {
    let before = "a\n".repeat(200);
    let after = "a\n".repeat(100);
    let (removed, added) = diff_lines(&before, &after);
    assert_eq!(removed.len(), 200);
    assert_eq!(removed.iter().filter(|&&m| m).count(), 100);
    assert_eq!(added, vec![F; 100]);
}

#[test]
fn no_overlap_marks_everything() {
    assert_eq!(diff_lines("a\n", "b\n"), (vec![T], vec![T]));
}

#[test]
fn raw_diff_of_the_scenarios() {
    let cases: [(&str, &str, Vec<bool>, Vec<bool>); 4] = [
        ("a\nb\n", "a\nb\n", vec![F, F], vec![F, F]),
        ("a\n", "a\nb\n", vec![F], vec![F, T]),
        ("x\na\ny\n", "x\nb\ny\n", vec![F, T, F], vec![F, T, F]),
        ("a\n", "b\n", vec![T], vec![T]),
    ];
    for (before, after, want_removed, want_added) in cases {
        let (b, a, n) = intern_lines(before, after);
        let mut removed = vec![false; b.len()];
        let mut added = vec![false; a.len()];
        diff(&b, &a, &mut removed, &mut added, n);
        assert_eq!(removed, want_removed);
        assert_eq!(added, want_added);
    }
}

#[test]
fn empty_sides() {
    let none: Vec<Token> = Vec::new();
    let some = vec![Token(0), Token(1)];
    let d = Diff::compute(&none, &some, 2);
    assert_eq!((d.removed, d.added), (vec![], vec![T, T]));
    let d = Diff::compute(&some, &none, 2);
    assert_eq!((d.removed, d.added), (vec![T, T], vec![]));
    let mut d = Diff::compute(&none, &none, 0);
    d.postprocess_with(&none, &none);
    assert_eq!((d.removed, d.added), (vec![], vec![]));
}

#[test]
fn num_tokens_need_not_be_tight() {
    let before = vec![Token(3), Token(7)];
    let after = vec![Token(7), Token(3)];
    let tight = Diff::compute(&before, &after, 8);
    let loose = Diff::compute(&before, &after, 1000);
    assert_eq!(tight.removed, loose.removed);
    assert_eq!(tight.added, loose.added);
    assert_eq!(tight.removed, vec![T, F]);
    assert_eq!(tight.added, vec![F, T]);
}
