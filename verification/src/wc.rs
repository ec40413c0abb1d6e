//! Counting bytes, characters, words and lines in a block of input.
//!
//! A block is counted on its own; the caller adds one trailing newline's
//! worth per block, as the chunked source strips the delimiter it cut at.
//! Characters are decoded by their leading byte's UTF-8 width alone; the
//! continuation bytes are carried along unchecked.

use vstd::prelude::*;

verus! {

/// One code point as pulled off the stream: up to four bytes, and how many
/// of them are in use.
pub struct UncheckedChar(pub [u8; 4], pub usize);

/// The width a UTF-8 leading byte announces; zero for a byte that cannot
/// lead a character.
pub open spec fn utf8_width_spec(b: u8) -> int {
    if b < 0x80 {
        1
    } else if b < 0xC2 {
        0
    } else if b < 0xE0 {
        2
    } else if b < 0xF0 {
        3
    } else if b < 0xF5 {
        4
    } else {
        0
    }
}

impl UncheckedChar {
    /// The bytes in use.
    pub open spec fn bytes(self) -> Seq<u8> {
        self.0@.take(self.1 as int)
    }

    /// A plausible character: between one and four bytes.
    pub open spec fn wf(self) -> bool {
        1 <= self.1 <= 4
    }

    /// A one-byte ASCII whitespace character.
    pub open spec fn is_ws(self) -> bool {
        self.1 == 1 && 9 <= self.0@[0] <= 14
    }

    /// A newline character.
    pub open spec fn is_newline(self) -> bool {
        self.1 == 1 && self.0@[0] == 10
    }
}

/// Every character of the sequence is plausible.
pub open spec fn chars_wf(s: Seq<UncheckedChar>) -> bool {
    forall|i: int| 0 <= i < s.len() ==> (#[trigger] s[i]).wf()
}

/// The bytes of a character sequence, in order.
pub open spec fn chars_bytes(s: Seq<UncheckedChar>) -> Seq<u8>
    decreases s.len(),
{
    if s.len() == 0 {
        Seq::empty()
    } else {
        chars_bytes(s.drop_last()) + s.last().bytes()
    }
}

/// The stream decodes cleanly: every position starts a character whose
/// announced width fits in what remains.
pub open spec fn valid_chars(s: Seq<u8>) -> bool
    decreases s.len(),
{
    s.len() == 0 || {
        let w = utf8_width_spec(s.first());
        &&& w >= 1
        &&& s.len() >= w
        &&& valid_chars(s.skip(w))
    }
}

/// Occurrences of `d` in `s`.
pub open spec fn count_byte(s: Seq<u8>, d: u8) -> int
    decreases s.len(),
{
    if s.len() == 0 {
        0
    } else {
        count_byte(s.drop_last(), d) + if s.last() == d {
            1int
        } else {
            0int
        }
    }
}

/// Newline characters in `s`.
pub open spec fn count_newlines(s: Seq<UncheckedChar>) -> int
    decreases s.len(),
{
    if s.len() == 0 {
        0
    } else {
        count_newlines(s.drop_last()) + if s.last().is_newline() {
            1int
        } else {
            0int
        }
    }
}

/// Bytes across all characters of `s`.
pub open spec fn sum_widths(s: Seq<UncheckedChar>) -> int
    decreases s.len(),
{
    if s.len() == 0 {
        0
    } else {
        sum_widths(s.drop_last()) + s.last().1
    }
}

/// Words of `s`: maximal runs of non-whitespace characters, counted at the
/// character that starts each run.
pub open spec fn count_words(s: Seq<UncheckedChar>) -> int
    decreases s.len(),
{
    if s.len() == 0 {
        0
    } else {
        count_words(s.drop_last()) + if !s.last().is_ws() && (s.len() == 1 || s[s.len()
            - 2].is_ws()) {
            1int
        } else {
            0int
        }
    }
}

/// The longest newline-terminated line so far, and the length of the line
/// still open; every character but the newline counts one column.
pub open spec fn line_lengths(s: Seq<UncheckedChar>) -> (int, int)
    decreases s.len(),
{
    if s.len() == 0 {
        (0, 0)
    } else {
        let prev = line_lengths(s.drop_last());
        if s.last().is_newline() {
            (if prev.1 > prev.0 {
                prev.1
            } else {
                prev.0
            }, 0)
        } else {
            (prev.0, prev.1 + 1)
        }
    }
}

/// The block ends in a newline; an empty block does not.
pub open spec fn ends_newline(s: Seq<UncheckedChar>) -> bool {
    s.len() > 0 && s.last().is_newline()
}

/// Count bytes and newlines in one block, the stripped delimiter added
/// back: one byte and one line beyond what the block holds.
pub fn count_bytes(input: &Vec<u8>) -> (r: (u64, u64))
    requires
        input@.len() < u64::MAX,
    ensures
        r.0 == input@.len() + 1,
        r.1 == count_byte(input@, 10) + 1,
{
    let mut lines: u64 = 0;
    let mut i: usize = 0;
    proof {
        assert(input@.take(0) =~= Seq::<u8>::empty());
    }
    while i < input.len()
        invariant
            i <= input@.len() < u64::MAX,
            0 <= lines <= i,
            lines == count_byte(input@.take(i as int), 10),
        decreases input@.len() - i,
    {
        proof {
            assert(input@.take(i as int + 1).drop_last() =~= input@.take(i as int));
            assert(input@.take(i as int + 1).last() == input@[i as int]);
        }
        if input[i] == 10 {
            lines = lines + 1;
        }
        i = i + 1;
    }
    proof {
        assert(input@.take(input@.len() as int) =~= input@);
    }
    ((input.len() as u64) + 1, lines + 1)
}

/// Decode a block into characters by leading-byte widths, or nothing where
/// a byte cannot lead a character or a character is cut off.
#[verifier::loop_isolation(false)]
pub fn bytes_to_chars(data: &Vec<u8>) -> (r: Option<Vec<UncheckedChar>>)
    ensures
        match r {
            Some(cs) => {
                &&& valid_chars(data@)
                &&& chars_bytes(cs@) == data@
                &&& chars_wf(cs@)
                &&& forall|t: int|
                    0 <= t < cs@.len() ==> (#[trigger] cs@[t]).1 == utf8_width_spec(cs@[t].0@[0])
            },
            None => !valid_chars(data@),
        },
{
    let mut out: Vec<UncheckedChar> = Vec::new();
    let mut i: usize = 0;
    proof {
        assert(chars_bytes(out@) =~= Seq::<u8>::empty());
        assert(data@.take(0) =~= Seq::<u8>::empty());
        assert(data@.skip(0) =~= data@);
    }
    while i < data.len()
        invariant
            i <= data@.len(),
            chars_bytes(out@) == data@.take(i as int),
            chars_wf(out@),
            forall|t: int|
                0 <= t < out@.len() ==> (#[trigger] out@[t]).1 == utf8_width_spec(out@[t].0@[0]),
            valid_chars(data@) == valid_chars(data@.skip(i as int)),
        decreases data@.len() - i,
    {
        let b0 = data[i];
        let w = utf8_char_width(b0);
        proof {
            assert(data@.skip(i as int).first() == b0);
        }
        if w == 0 {
            return None;
        }
        let wu = w as usize;
        if data.len() - i < wu {
            return None;
        }
        let b1 = if wu >= 2 {
            data[i + 1]
        } else {
            0
        };
        let b2 = if wu >= 3 {
            data[i + 2]
        } else {
            0
        };
        let b3 = if wu >= 4 {
            data[i + 3]
        } else {
            0
        };
        let c = UncheckedChar([b0, b1, b2, b3], wu);
        let ghost prev = out@;
        out.push(c);
        i = i + wu;
        proof {
            assert(c.bytes() =~= data@.subrange(i - wu, i as int));
            assert(out@.drop_last() =~= prev);
            assert(out@.last() == c);
            assert(chars_bytes(out@) =~= data@.take(i as int));
            assert(data@.skip(i - wu).skip(wu as int) =~= data@.skip(i as int));
            assert forall|t: int| 0 <= t < out@.len() implies (#[trigger] out@[t]).wf() by {
                if t < prev.len() {
                    assert(prev[t].wf());
                }
            }
            assert forall|t: int| 0 <= t < out@.len() implies (#[trigger] out@[t]).1
                == utf8_width_spec(out@[t].0@[0]) by {
                if t < prev.len() {
                    assert(prev[t].1 == utf8_width_spec(prev[t].0@[0]));
                }
            }
        }
    }
    proof {
        assert(data@.skip(data@.len() as int) =~= Seq::<u8>::empty());
        assert(data@.take(data@.len() as int) =~= data@);
    }
    Some(out)
}

/// The width the leading byte announces, zero for a byte that cannot lead.
pub fn utf8_char_width(b: u8) -> (r: u8)
    ensures
        r as int == utf8_width_spec(b),
{
    if b < 0x80 {
        1
    } else if b < 0xC2 {
        0
    } else if b < 0xE0 {
        2
    } else if b < 0xF0 {
        3
    } else if b < 0xF5 {
        4
    } else {
        0
    }
}

/// Count all quantities over one block of characters: bytes, characters,
/// words, lines, and the longest line, with the stripped delimiter added
/// back wherever the block does not end in a newline.
#[verifier::loop_isolation(false)]
pub fn count_all(input: &Vec<UncheckedChar>) -> (r: (u64, u64, u64, u64, u64))
    requires
        chars_wf(input@),
        4 * input@.len() + 1 < u64::MAX,
    ensures
        r.0 == sum_widths(input@) + if ends_newline(input@) {
            0int
        } else {
            1int
        },
        r.1 == input@.len() + if ends_newline(input@) {
            0int
        } else {
            1int
        },
        r.2 == count_words(input@),
        r.3 == count_newlines(input@) + if ends_newline(input@) {
            0int
        } else {
            1int
        },
        r.4 == line_lengths(input@).0,
{
    let mut bytes: u64 = 0;
    let mut chars: u64 = 0;
    let mut lines: u64 = 0;
    let mut words: u64 = 0;
    let mut max_line_length: u64 = 0;
    let mut line_length: u64 = 0;
    let mut prev_was_whitespace = true;
    let mut prev_was_newline = false;
    let mut i: usize = 0;
    proof {
        assert(input@.take(0) =~= Seq::<UncheckedChar>::empty());
    }
    while i < input.len()
        invariant
            i <= input@.len(),
            bytes == sum_widths(input@.take(i as int)),
            bytes <= 4 * i,
            chars == i,
            words + (if prev_was_whitespace {
                0int
            } else {
                1int
            }) == count_words(input@.take(i as int)),
            words <= i,
            lines == count_newlines(input@.take(i as int)),
            lines <= i,
            max_line_length == line_lengths(input@.take(i as int)).0,
            max_line_length <= i,
            line_length == line_lengths(input@.take(i as int)).1,
            line_length <= i,
            prev_was_newline == ends_newline(input@.take(i as int)),
            prev_was_whitespace == (i == 0 || input@[i as int - 1].is_ws()),
        decreases input@.len() - i,
    {
        let c = &input[i];
        let len = c.1;
        proof {
            assert(input@.take(i as int + 1).drop_last() =~= input@.take(i as int));
            assert(input@.take(i as int + 1).last() == input@[i as int]);
            assert(input@[i as int].wf());
        }
        bytes = bytes + (len as u64);
        chars = chars + 1;
        if len == 1 && c.0[0] >= 9 && c.0[0] <= 14 {
            if !prev_was_whitespace {
                words = words + 1;
                prev_was_whitespace = true;
            }
            if c.0[0] == 10 {
                if line_length > max_line_length {
                    max_line_length = line_length;
                }
                lines = lines + 1;
                line_length = 0;
                prev_was_newline = true;
            } else {
                line_length = line_length + 1;
                prev_was_newline = false;
            }
        } else {
            prev_was_whitespace = false;
            prev_was_newline = false;
            line_length = line_length + 1;
        }
        i = i + 1;
    }
    proof {
        assert(input@.take(input@.len() as int) =~= input@);
    }
    if !prev_was_newline {
        chars = chars + 1;
        bytes = bytes + 1;
        lines = lines + 1;
    }
    if !prev_was_whitespace {
        words = words + 1;
    }
    (bytes, chars, words, lines, max_line_length)
}

} // verus!
