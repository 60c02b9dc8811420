//! Cuts text into lines: the tokens of a line diff.
//!
//! A line ends with its line feed; a carriage return before the line feed stays
//! in the line like any other byte. The last line of a text that does not end in a
//! line feed is what is left.
use vstd::prelude::*;
use vstd::string::StringSliceAdditionalSpecFns;
use vstd::utf8::{
    encode_utf8_valid_utf8, is_char_boundary, is_char_boundary_iff_not_is_continuation_byte,
    is_char_boundary_start_end_of_seq, is_leading_byte_width_1, length_of_first_scalar,
    pop_first_scalar, valid_utf8,
};

verus! {

/// The byte that ends a line.
pub const LINE_FEED: u8 = 10;

/// The index just behind the first line feed of `data` at or after `from`, or the
/// length of `data` where there is none.
pub open spec fn line_end(data: Seq<u8>, from: int) -> int
    decreases data.len() - from,
{
    if from < 0 || from >= data.len() {
        data.len() as int
    } else if data[from] == LINE_FEED {
        from + 1
    } else {
        line_end(data, from + 1)
    }
}

/// The lines of `data`, in order.
pub open spec fn lines_of(data: Seq<u8>) -> Seq<Seq<u8>>
    decreases data.len(),
{
    let end = line_end(data, 0);
    if data.len() == 0 || end <= 0 || end > data.len() {
        Seq::empty()
    } else {
        seq![data.subrange(0, end)] + lines_of(data.subrange(end, data.len() as int))
    }
}

/// The number of bytes that the first `count` lines of `data` take.
pub open spec fn head_len(data: Seq<u8>, count: int) -> int
    decreases count,
{
    let end = line_end(data, 0);
    if count <= 0 || data.len() == 0 || end <= 0 || end > data.len() {
        0
    } else {
        end + head_len(data.subrange(end, data.len() as int), count - 1)
    }
}

/// A guess at the number of lines of `data`: its length divided by the mean
/// length of its first twenty lines, cut to 32 bits; `100` for empty data.
pub open spec fn estimate_of(data: Seq<u8>) -> u32 {
    if head_len(data, 20) == 0 {
        100
    } else {
        ((data.len() as int) * 20 / head_len(data, 20)) as u32
    }
}

/// A line is not empty, lies within the data, holds no line feed but at its end,
/// and ends with one unless it ends the data.
pub proof fn lemma_line_end(data: Seq<u8>, from: int)
    requires
        0 <= from < data.len(),
    ensures
        from < line_end(data, from) <= data.len(),
        forall|i: int| from <= i < line_end(data, from) - 1 ==> data[i] != LINE_FEED,
        line_end(data, from) == data.len() || data[line_end(data, from) - 1] == LINE_FEED,
    decreases data.len() - from,
{
    reveal_with_fuel(line_end, 2);
    if data[from] != LINE_FEED && from + 1 < data.len() {
        lemma_line_end(data, from + 1);
    }
}

/// The lines of `data`, laid end to end, are `data`.
pub proof fn lemma_lines_cover(data: Seq<u8>)
    ensures
        lines_of(data).flatten() == data,
    decreases data.len(),
{
    if data.len() == 0 {
        assert(lines_of(data).flatten() =~= data);
    } else {
        lemma_line_end(data, 0);
        let end = line_end(data, 0);
        let rest = data.subrange(end, data.len() as int);
        lemma_lines_cover(rest);
        let first = seq![data.subrange(0, end)];
        vstd::seq_lib::lemma_flatten_concat(first, lines_of(rest));
        assert(first.flatten() =~= data.subrange(0, end)) by {
            assert(first.drop_first() =~= Seq::<Seq<u8>>::empty());
            assert(first.drop_first().flatten() =~= Seq::<u8>::empty());
        }
        assert(data.subrange(0, end) + rest =~= data);
    }
}

/// The lines of a byte slice, handed out one by one.
#[derive(Clone, Copy, Debug, PartialEq, Eq)]
pub struct ByteLines<'a>(&'a [u8]);

/// The lines of a string, handed out one by one.
#[derive(Clone, Copy, Debug, PartialEq, Eq)]
pub struct Lines<'a>(&'a str);

impl<'a> View for ByteLines<'a> {
    type V = Seq<u8>;

    /// The bytes that are still to be cut.
    closed spec fn view(&self) -> Seq<u8> {
        self.0@
    }
}

impl<'a> View for Lines<'a> {
    type V = Seq<u8>;

    /// The bytes, in UTF-8, that are still to be cut.
    closed spec fn view(&self) -> Seq<u8> {
        self.0.spec_bytes()
    }
}

/// Cuts `data` into lines. No encoding is assumed.
pub fn byte_lines(data: &[u8]) -> (lines: ByteLines<'_>)
    ensures
        lines@ == data@,
{
    ByteLines(data)
}

/// Cuts `data` into lines.
pub fn lines(data: &str) -> (lines: Lines<'_>)
    ensures
        lines@ == data.spec_bytes(),
{
    Lines(data)
}

/// The length of the first line of `data`, which is not empty.
fn first_line_len(data: &[u8]) -> (len: usize)
    requires
        data@.len() > 0,
    ensures
        len == line_end(data@, 0),
        0 < len <= data@.len(),
{
    proof {
        lemma_line_end(data@, 0);
    }
    let mut at: usize = 0;
    while at < data.len() && data[at] != LINE_FEED
        invariant
            at <= data@.len(),
            line_end(data@, 0) == line_end(data@, at as int),
        decreases data@.len() - at,
    {
        at += 1;
    }
    if at < data.len() {
        at + 1
    } else {
        at
    }
}

/// In valid UTF-8 the place behind a byte that stands for a character by itself
/// is a place between two characters.
pub proof fn lemma_boundary_behind_ascii(bytes: Seq<u8>, at: int)
    requires
        valid_utf8(bytes),
        0 <= at < bytes.len(),
        is_char_boundary(bytes, at),
        is_leading_byte_width_1(bytes[at]),
    ensures
        is_char_boundary(bytes, at + 1),
    decreases bytes.len(),
{
    reveal_with_fuel(is_char_boundary, 2);
    reveal_with_fuel(valid_utf8, 2);
    let rest = pop_first_scalar(bytes);
    let width = length_of_first_scalar(bytes);
    if at > 0 {
        assert(is_char_boundary(rest, at - width));
        assert(at - width >= 0);
        assert(rest[at - width] == bytes[at]);
        lemma_boundary_behind_ascii(rest, at - width);
    }
}

impl<'a> ByteLines<'a> {
    /// The next line, if any is left.
    pub fn next(&mut self) -> (line: Option<&'a [u8]>)
        ensures
            old(self)@.len() == 0 ==> line.is_none() && final(self)@ == old(self)@,
            old(self)@.len() > 0 ==> line.is_some() && line.unwrap()@ == old(self)@.subrange(
                0,
                line_end(old(self)@, 0),
            ) && final(self)@ == old(self)@.subrange(
                line_end(old(self)@, 0),
                old(self)@.len() as int,
            ),
    {
        let data: &'a [u8] = self.0;
        if data.is_empty() {
            return None;
        }
        let line_len: usize = first_line_len(data);
        let (line, rest) = data.split_at(line_len);
        self.0 = rest;
        Some(line)
    }

    /// The lines that are left, as they are.
    pub fn tokenize(&self) -> (lines: ByteLines<'a>)
        ensures
            lines@ == self@,
    {
        *self
    }

    /// All lines that are left.
    pub fn collect(&self) -> (all: Vec<&'a [u8]>)
        ensures
            all@.map_values(|line: &[u8]| line@) == lines_of(self@),
    {
        let mut rest: ByteLines<'a> = *self;
        let mut all: Vec<&'a [u8]> = Vec::new();
        proof {
            assert(all@.map_values(|line: &[u8]| line@) =~= Seq::<Seq<u8>>::empty());
        }
        loop
            invariant
                all@.map_values(|line: &[u8]| line@) + lines_of(rest@) == lines_of(self@),
            ensures
                all@.map_values(|line: &[u8]| line@) == lines_of(self@),
            decreases rest@.len(),
        {
            let ghost before = rest@;
            let ghost so_far = all@.map_values(|line: &[u8]| line@);
            proof {
                if before.len() > 0 {
                    lemma_line_end(before, 0);
                }
            }
            match rest.next() {
                None => {
                    proof {
                        assert(so_far + lines_of(before) =~= so_far);
                    }
                    break ;
                },
                Some(line) => {
                    all.push(line);
                    proof {
                        assert(all@.map_values(|line: &[u8]| line@) =~= so_far.push(line@));
                        assert(so_far.push(line@) + lines_of(rest@) =~= so_far + (seq![line@]
                            + lines_of(rest@)));
                    }
                },
            }
        }
        all
    }

    /// A guess at the number of lines that are left.
    pub fn estimate_tokens(&self) -> (estimate: u32)
        ensures
            estimate == estimate_of(self@),
    {
        let mut rest: ByteLines<'a> = *self;
        let mut taken: usize = 0;
        let mut head: usize = 0;
        let total: usize = self.0.len();
        while taken < 20
            invariant
                taken <= 20,
                total == self@.len(),
                head + rest@.len() == total,
                head + head_len(rest@, 20 - taken) == head_len(self@, 20),
            decreases 20 - taken,
        {
            let ghost before = rest@;
            proof {
                if before.len() > 0 {
                    lemma_line_end(before, 0);
                }
            }
            let line_len: usize = match rest.next() {
                Some(line) => line.len(),
                None => 0,
            };
            head = head + line_len;
            taken = taken + 1;
            proof {
                if before.len() == 0 {
                    assert(head_len(rest@, 20 - taken) == 0);
                }
            }
        }
        if head == 0 {
            100
        } else {
            let quotient: u128 = (total as u128) * 20 / (head as u128);
            #[verifier::truncate]
            (quotient as u32)
        }
    }
}

impl<'a> Lines<'a> {
    /// The next line, if any is left.
    pub fn next(&mut self) -> (line: Option<&'a str>)
        ensures
            old(self)@.len() == 0 ==> line.is_none() && final(self)@ == old(self)@,
            old(self)@.len() > 0 ==> line.is_some() && line.unwrap().spec_bytes() == old(
                self,
            )@.subrange(0, line_end(old(self)@, 0)) && final(self)@ == old(self)@.subrange(
                line_end(old(self)@, 0),
                old(self)@.len() as int,
            ),
    {
        let text: &'a str = self.0;
        let bytes: &[u8] = text.as_bytes();
        if bytes.is_empty() {
            return None;
        }
        let line_len: usize = first_line_len(bytes);
        proof {
            let all = text.spec_bytes();
            encode_utf8_valid_utf8(text@);
            lemma_line_end(all, 0);
            is_char_boundary_start_end_of_seq(all);
            if line_len < all.len() {
                is_char_boundary_iff_not_is_continuation_byte(all, line_len - 1);
                lemma_boundary_behind_ascii(all, line_len - 1);
            }
        }
        let (line, rest) = text.split_at(line_len);
        self.0 = rest;
        Some(line)
    }

    /// The lines that are left, as they are.
    pub fn tokenize(&self) -> (lines: Lines<'a>)
        ensures
            lines@ == self@,
    {
        *self
    }

    /// All lines that are left.
    pub fn collect(&self) -> (all: Vec<&'a str>)
        ensures
            all@.map_values(|line: &str| line.spec_bytes()) == lines_of(self@),
    {
        let mut rest: Lines<'a> = *self;
        let mut all: Vec<&'a str> = Vec::new();
        proof {
            assert(all@.map_values(|line: &str| line.spec_bytes()) =~= Seq::<Seq<u8>>::empty());
        }
        loop
            invariant
                all@.map_values(|line: &str| line.spec_bytes()) + lines_of(rest@) == lines_of(self@),
            ensures
                all@.map_values(|line: &str| line.spec_bytes()) == lines_of(self@),
            decreases rest@.len(),
        {
            let ghost before = rest@;
            let ghost so_far = all@.map_values(|line: &str| line.spec_bytes());
            proof {
                if before.len() > 0 {
                    lemma_line_end(before, 0);
                }
            }
            match rest.next() {
                None => {
                    proof {
                        assert(so_far + lines_of(before) =~= so_far);
                    }
                    break ;
                },
                Some(line) => {
                    all.push(line);
                    proof {
                        assert(all@.map_values(|line: &str| line.spec_bytes()) =~= so_far.push(
                            line.spec_bytes(),
                        ));
                        assert(so_far.push(line.spec_bytes()) + lines_of(rest@) =~= so_far + (
                        seq![line.spec_bytes()] + lines_of(rest@)));
                    }
                },
            }
        }
        all
    }

    /// A guess at the number of lines that are left.
    pub fn estimate_tokens(&self) -> (estimate: u32)
        ensures
            estimate == estimate_of(self@),
    {
        byte_lines(self.0.as_bytes()).estimate_tokens()
    }
}

} // verus!
