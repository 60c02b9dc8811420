use histogram_diff::histogram::Histogram;
use histogram_diff::lcs::find_lcs;
use histogram_diff::list_pool::{ListHandle, ListPool};
use histogram_diff::postprocess::{Hunk, Postprocessor};
use histogram_diff::sources::{byte_lines, lines};
use histogram_diff::util::{fill, find_hunk_end, find_hunk_start};
use histogram_diff::Token;

fn tokens_of(ids: &[u32]) -> Vec<Token> {
    ids.iter().map(|&id| Token(id)).collect()
}

fn search(before: &[u32], after: &[u32]) -> Option<(u32, u32, u32)> {
    let (before, after) = (tokens_of(before), tokens_of(after));
    let mut histogram = Histogram::new(16);
    histogram.populate(&before);
    find_lcs(&before, &after, &mut histogram).map(|l| (l.before_start, l.after_start, l.len))
}

#[test]
fn list_pool_keeps_lists_apart() {
    let mut pool = ListPool::new(4);
    let mut first = ListHandle::default();
    let mut second = ListHandle::default();
    assert_eq!(first.len(&pool), 0);
    assert_eq!(first.as_slice(&pool), &[] as &[u32]);
    for value in 0..40u32 {
        first.push(value, &mut pool);
        if value % 3 == 0 {
            second.push(value * 10, &mut pool);
        }
    }
    assert_eq!(first.len(&pool), 40);
    assert_eq!(first.as_slice(&pool), (0..40).collect::<Vec<u32>>().as_slice());
    assert_eq!(second.len(&pool), 14);
    assert_eq!(
        second.as_slice(&pool),
        (0..40).filter(|v| v % 3 == 0).map(|v| v * 10).collect::<Vec<u32>>().as_slice()
    );
}

#[test]
fn clearing_the_pool_empties_every_list() {
    let mut pool = ListPool::new(0);
    let mut list = ListHandle::default();
    list.push(7, &mut pool);
    list.push(8, &mut pool);
    assert_eq!(list.as_slice(&pool), &[7, 8]);
    pool.clear();
    assert_eq!(list.len(&pool), 0);
    assert_eq!(list.as_slice(&pool), &[] as &[u32]);
    list.push(9, &mut pool);
    assert_eq!(list.as_slice(&pool), &[9]);
}

#[test]
fn histogram_lists_positions() {
    let file = tokens_of(&[2, 0, 2, 1, 2]);
    let mut histogram = Histogram::new(4);
    histogram.populate(&file);
    assert_eq!(histogram.token_occurances(Token(2)), &[0, 2, 4]);
    assert_eq!(histogram.token_occurances(Token(0)), &[1]);
    assert_eq!(histogram.num_token_occurances(Token(1)), 1);
    assert_eq!(histogram.num_token_occurances(Token(3)), 0);
    histogram.clear();
    assert_eq!(histogram.num_token_occurances(Token(2)), 0);
    histogram.populate(&file[1..]);
    assert_eq!(histogram.token_occurances(Token(2)), &[1, 3]);
}

#[test]
fn search_prefers_rare_then_long_then_first() {
    assert_eq!(search(&[9, 0, 1, 0, 1], &[0, 1, 0, 1, 9]), Some((0, 4, 1)));
    assert_eq!(search(&[0, 1, 2, 0, 1, 1, 0], &[2, 1, 0, 1, 0, 2]), Some((2, 0, 1)));
    assert_eq!(search(&[0, 1, 0, 1], &[0, 1, 0, 1, 0, 1]), Some((0, 0, 4)));
    assert_eq!(search(&[5, 6, 7], &[5, 6, 7]), Some((0, 0, 3)));
}

#[test]
fn search_without_shared_tokens_is_empty() {
    assert_eq!(search(&[0, 1], &[2, 3]), Some((0, 0, 0)));
}

#[test]
fn search_gives_up_on_common_tokens() {
    assert_eq!(search(&[0; 64], &[0; 3]), None);
    assert_eq!(search(&[0; 63], &[0; 3]), Some((0, 0, 3)));
    let mut before = vec![0u32; 64];
    before.push(1);
    assert_eq!(search(&before, &[0, 1, 0]), Some((63, 0, 2)));
}

#[test]
fn hunk_scans() {
    let mask = [false, true, true, false, true];
    assert_eq!(find_hunk_end(&mask, 1), 3);
    assert_eq!(find_hunk_end(&mask, 0), 0);
    assert_eq!(find_hunk_end(&mask, 4), 5);
    assert_eq!(find_hunk_end(&mask, 5), 5);
    assert_eq!(find_hunk_start(&mask, 3), 1);
    assert_eq!(find_hunk_start(&mask, 1), 1);
    assert_eq!(find_hunk_start(&mask, 5), 4);
    assert_eq!(find_hunk_start(&mask, 0), 0);
    let mut all = [false, true, false];
    fill(&mut all, true);
    assert_eq!(all, [true, true, true]);
}

#[test]
fn slides_move_one_place() {
    let tokens = tokens_of(&[0, 1, 0, 1, 2]);
    let removed = [false, false, false];
    let mut pass = Postprocessor {
        added: vec![false, true, true, false, false],
        removed: &removed,
        tokens: &tokens,
        hunk: Hunk { start: 1, end: 3 },
    };
    assert!(pass.slide_down());
    assert_eq!(pass.added, vec![false, false, true, true, false]);
    assert_eq!((pass.hunk.start, pass.hunk.end), (2, 4));
    assert!(!pass.slide_down());
    assert!(pass.slide_up());
    assert!(pass.slide_up());
    assert_eq!(pass.added, vec![true, true, false, false, false]);
    assert_eq!((pass.hunk.start, pass.hunk.end), (0, 2));
    assert!(!pass.slide_up());
}

#[test]
fn slide_merges_with_the_next_hunk() {
    let tokens = tokens_of(&[0, 0, 1, 1]);
    let removed = [false, false];
    let mut pass = Postprocessor {
        added: vec![true, false, true, false],
        removed: &removed,
        tokens: &tokens,
        hunk: Hunk { start: 0, end: 1 },
    };
    assert!(pass.slide_down());
    assert_eq!(pass.added, vec![false, true, true, false]);
    assert_eq!((pass.hunk.start, pass.hunk.end), (1, 3));
}

#[test]
fn settling_slides_up_and_then_down() {
    let tokens = tokens_of(&[0, 1, 0, 1, 0, 1]);
    let removed = [false, false, false, false];
    let mut pass = Postprocessor {
        added: vec![false, false, true, true, false, false],
        removed: &removed,
        tokens: &tokens,
        hunk: Hunk { start: 2, end: 4 },
    };
    // The hunk goes up to the start, where it ends at 2, and down to the end.
    assert_eq!(pass.settle(2), (4, false, 2));
    assert_eq!(pass.added, vec![false, false, false, false, true, true]);
    assert_eq!((pass.hunk.start, pass.hunk.end), (4, 6));
}

#[test]
fn settling_sees_the_hunk_of_the_other_mask() {
    let tokens = tokens_of(&[1, 0, 0, 0]);
    let removed = [false, true, false];
    let mut pass = Postprocessor {
        added: vec![false, false, true, true],
        removed: &removed,
        tokens: &tokens,
        hunk: Hunk { start: 2, end: 4 },
    };
    assert_eq!(pass.settle(3), (3, true, 3));
    assert_eq!(pass.added, vec![false, false, true, true]);
    // One place up the hunk lies beside the removed token.
    assert_eq!(pass.align(3, 3), 2);
    assert_eq!(pass.added, vec![false, true, true, false]);
    assert_eq!((pass.hunk.start, pass.hunk.end), (1, 3));
}

#[test]
fn one_pass_over_one_mask() {
    let tokens = tokens_of(&[0, 1, 0, 1, 0, 1]);
    let removed = [false, false, false, false];
    let pass = Postprocessor {
        added: vec![false, false, true, true, false, false],
        removed: &removed,
        tokens: &tokens,
        hunk: Hunk { start: 0, end: 0 },
    };
    assert_eq!(pass.run(), vec![false, false, false, false, true, true]);
}

#[test]
fn lines_keep_their_terminators() {
    assert_eq!(lines("ab\r\ncd\nef").collect(), vec!["ab\r\n", "cd\n", "ef"]);
    assert_eq!(lines("a\n\nb\n").collect(), vec!["a\n", "\n", "b\n"]);
    assert_eq!(lines("").collect(), Vec::<&str>::new());
    assert_eq!(lines("\u{e9}t\u{e9}\nna\u{ef}ve").collect(), vec!["\u{e9}t\u{e9}\n", "na\u{ef}ve"]);
    let mut cut = lines("x\ny");
    assert_eq!(cut.next(), Some("x\n"));
    assert_eq!(cut.next(), Some("y"));
    assert_eq!(cut.next(), None);
    assert_eq!(cut.next(), None);
}

#[test]
fn byte_lines_assume_no_encoding() {
    let data: &[u8] = &[0xff, 0x0a, 0xc3, 0x0a, 0x80];
    let want: Vec<&[u8]> = vec![&[0xff, 0x0a], &[0xc3, 0x0a], &[0x80]];
    assert_eq!(byte_lines(data).collect(), want);
    assert_eq!(byte_lines(b"").collect(), Vec::<&[u8]>::new());
    let mut cut = byte_lines(b"one\ntwo\n");
    assert_eq!(cut.next(), Some(&b"one\n"[..]));
    assert_eq!(cut.tokenize().collect(), vec![&b"two\n"[..]]);
    assert_eq!(cut.next(), Some(&b"two\n"[..]));
    assert_eq!(cut.next(), None);
}

#[test]
fn lines_laid_end_to_end_are_the_text() {
    for text in ["", "a", "a\n", "\n\n", "one\ntwo\r\nthree", "x\ny\n"] {
        assert_eq!(lines(text).collect().concat(), text);
        assert_eq!(byte_lines(text.as_bytes()).collect().concat(), text.as_bytes());
    }
}

#[test]
fn estimates() {
    assert_eq!(lines("").estimate_tokens(), 100);
    assert_eq!(byte_lines(b"").estimate_tokens(), 100);
    assert_eq!(lines("a\nbb\n").estimate_tokens(), 20);
    assert_eq!(lines("no newline").estimate_tokens(), 20);
    assert_eq!(lines(&"x\n".repeat(30)).estimate_tokens(), 30);
    let mixed = format!("{}{}", "a\n".repeat(20), "long line here\n".repeat(5));
    assert_eq!(lines(&mixed).estimate_tokens(), 57);
    assert_eq!(byte_lines(mixed.as_bytes()).estimate_tokens(), 57);
}
