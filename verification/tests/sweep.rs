use histogram_diff::myers;
use histogram_diff::postprocess::Diff;
use histogram_diff::Token;

struct Rng(u64);

impl Rng {
    fn next(&mut self) -> u64 {
        self.0 ^= self.0 << 13;
        self.0 ^= self.0 >> 7;
        self.0 ^= self.0 << 17;
        self.0
    }

    fn below(&mut self, bound: u64) -> u64 {
        self.next() % bound
    }

    fn tokens(&mut self, max_len: u64, alphabet: u64) -> Vec<Token> {
        let len = self.below(max_len + 1);
        (0..len).map(|_| Token(self.below(alphabet) as u32)).collect()
    }
}

fn kept_of(tokens: &[Token], mask: &[bool]) -> Vec<Token> {
    tokens.iter().zip(mask).filter(|(_, &m)| !m).map(|(&t, _)| t).collect()
}

fn longest_common(a: &[Token], b: &[Token]) -> usize {
    let mut row = vec![0usize; b.len() + 1];
    for i in 1..=a.len() {
        let mut diagonal = 0;
        for j in 1..=b.len() {
            let up = row[j];
            row[j] = if a[i - 1] == b[j - 1] { diagonal + 1 } else { up.max(row[j - 1]) };
            diagonal = up;
        }
    }
    row[b.len()]
}

/// The hunks of `mask`, as pairs of start and end.
fn hunks_of(mask: &[bool]) -> Vec<(usize, usize)> {
    let mut hunks = Vec::new();
    let mut at = 0;
    while at < mask.len() {
        if mask[at] {
            let start = at;
            while at < mask.len() && mask[at] {
                at += 1;
            }
            hunks.push((start, at));
        } else {
            at += 1;
        }
    }
    hunks
}

/// Each hunk of `mask` lies at its lowest place or beside a hunk of `reference`.
fn all_settled(mask: &[bool], reference: &[bool], tokens: &[Token]) -> bool {
    hunks_of(mask).iter().all(|&(start, end)| {
        let slides_down = end < tokens.len() && tokens[start] == tokens[end];
        let kept_before = mask[..start].iter().filter(|&&m| !m).count();
        let beside = (0..reference.len()).any(|p| {
            reference[p] && reference[..p].iter().filter(|&&m| !m).count() == kept_before
        });
        !slides_down || beside
    })
}

fn sweep(seed: u64, rounds: usize, max_len: u64, alphabet: u64) {
    let mut rng = Rng(seed);
    for _ in 0..rounds {
        let before = rng.tokens(max_len, alphabet);
        let after = rng.tokens(max_len, alphabet);
        let common = longest_common(&before, &after);

        let mut removed = vec![false; before.len()];
        let mut added = vec![false; after.len()];
        myers::diff(&before, &after, &mut removed, &mut added);
        assert_eq!(kept_of(&before, &removed), kept_of(&after, &added));
        assert_eq!(kept_of(&before, &removed).len(), common);

        let mut d = Diff::compute(&before, &after, alphabet as u32);
        let raw_kept = kept_of(&before, &d.removed);
        assert_eq!(raw_kept, kept_of(&after, &d.added));
        assert!(raw_kept.len() <= common);
        let raw_removed = d.removed.clone();
        d.postprocess_with(&before, &after);
        assert_eq!(kept_of(&before, &d.removed), raw_kept);
        assert_eq!(kept_of(&after, &d.added), raw_kept);
        assert!(all_settled(&d.removed, &d.added, &before));
        assert!(all_settled(&d.added, &raw_removed, &after));
    }
}

#[test]
fn short_inputs_over_few_tokens() {
    sweep(0x9e3779b97f4a7c15, 3000, 9, 3);
}

#[test]
fn short_inputs_over_many_tokens() {
    sweep(0x2545f4914f6cdd1d, 2000, 14, 8);
}

#[test]
fn long_inputs_over_two_tokens() {
    // With two tokens in some hundred places each is too common to start a search.
    sweep(0xd1b54a32d192ed03, 40, 300, 2);
}

#[test]
fn long_inputs_with_one_rare_token() {
    let mut rng = Rng(0x94d049bb133111eb);
    for _ in 0..30 {
        let mut before = rng.tokens(200, 2);
        let mut after = rng.tokens(200, 2);
        let at = rng.below(before.len() as u64 + 1) as usize;
        before.insert(at, Token(2));
        let at = rng.below(after.len() as u64 + 1) as usize;
        after.insert(at, Token(2));
        let mut d = Diff::compute(&before, &after, 3);
        // The rare token is kept on both sides.
        let kept = kept_of(&before, &d.removed);
        assert_eq!(kept, kept_of(&after, &d.added));
        assert!(kept.contains(&Token(2)));
        d.postprocess_with(&before, &after);
        assert_eq!(kept_of(&before, &d.removed), kept);
        assert_eq!(kept_of(&after, &d.added), kept);
    }
}
