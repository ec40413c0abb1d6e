//! The chunked source: splits a byte stream into delimiter-aligned blocks.
//!
//! A [`ChunkedReader`] hands out blocks of at most `max_chunk_size` bytes.
//! Blocks end on the given delimiter, which is stripped. When a full block
//! holds no delimiter at all, the reader bails out with the bytes read so far
//! and the untouched remainder of the stream, so the caller can retry with a
//! larger budget or treat the remainder as one unterminated line.

use vstd::prelude::*;
use crate::line::{reverse_lines, views};

verus! {

/// One outcome of a [`ChunkedReader`] step.
#[derive(Debug, PartialEq)]
pub enum ChunkedItem {
    /// A complete, delimiter-aligned block, its trailing delimiter stripped.
    Chunk(Vec<u8>),
    /// No delimiter was found within the size bound: the bytes consumed so
    /// far, and the remainder of the stream, in that order.
    Bail(Vec<u8>, Vec<u8>),
}

/// Index of the last occurrence of `d` in `s`, or -1 when `s` has none.
pub open spec fn last_pos_of(s: Seq<u8>, d: u8) -> int
    decreases s.len(),
{
    if s.len() == 0 {
        -1
    } else if s.last() == d {
        s.len() - 1
    } else {
        last_pos_of(s.drop_last(), d)
    }
}

/// `s` with one trailing delimiter `d` removed, if it ends with one.
pub open spec fn strip_trailing(s: Seq<u8>, d: u8) -> Seq<u8> {
    if s.len() > 0 && s.last() == d {
        s.drop_last()
    } else {
        s
    }
}

/// Splits one in-memory byte stream into delimiter-aligned chunks of at most
/// `max_chunk_size` bytes. Leftover bytes after a cut are carried into the
/// next call.
pub struct ChunkedReader {
    /// The stream; `None` once it was exhausted or handed off by a bail.
    input: Option<Vec<u8>>,
    /// How much of the stream has been consumed.
    pos: usize,
    /// Chunks end with this delimiter.
    delimiter: u8,
    /// Maximum chunk size; exceeded only in the bytes a bail carries.
    max_chunk_size: usize,
    /// Leftover bytes from the previous cut, prefixed to the next read.
    next_buf: Vec<u8>,
}

impl ChunkedReader {
    /// The reader still holds its stream: more items may come.
    pub closed spec fn is_open(self) -> bool {
        self.input is Some
    }

    /// The bytes not yet handed out: the carried leftover, then the unread
    /// part of the stream. Meaningful only while the reader is open.
    pub closed spec fn pending(self) -> Seq<u8> {
        self.next_buf@ + self.input->0@.skip(self.pos as int)
    }

    /// The configured delimiter.
    pub closed spec fn delim(self) -> u8 {
        self.delimiter
    }

    /// The configured maximum chunk size.
    pub closed spec fn max_size(self) -> nat {
        self.max_chunk_size as nat
    }

    /// Internal consistency: a positive size bound, a carry strictly under
    /// it, and a read position inside the stream.
    pub closed spec fn wf(self) -> bool {
        &&& self.max_chunk_size >= 1
        &&& self.next_buf@.len() < self.max_chunk_size
        &&& (self.input is Some ==> self.pos <= self.input->0@.len())
    }

    /// Create a reader over one in-memory stream.
    ///
    /// A size bound of zero admits no chunk at all, so it is rejected here.
    pub fn new(input: Vec<u8>, delimiter: u8, max_chunk_size: usize) -> (r: Self)
        requires
            max_chunk_size >= 1,
        ensures
            r.wf(),
            r.is_open(),
            r.pending() == input@,
            r.delim() == delimiter,
            r.max_size() == max_chunk_size as nat,
    {
        let r = ChunkedReader {
            input: Some(input),
            pos: 0,
            delimiter,
            max_chunk_size,
            next_buf: Vec::new(),
        };
        proof {
            assert(r.pending() =~= input@);
        }
        r
    }

    /// Whether the reader still holds its stream.
    pub fn remains_open(&self) -> (r: bool)
        ensures
            r == self.is_open(),
    {
        self.input.is_some()
    }

    /// Produce the next item, or `None` once the stream is gone.
    ///
    /// While the pending bytes fall short of the size bound the stream is
    /// exhausted: they are flushed as a final chunk, trailing delimiter
    /// stripped, and the reader closes. Otherwise a full block is cut at its
    /// last delimiter, the leftover carried over; a block without any
    /// delimiter is handed back as a bail together with the rest of the
    /// stream.
    pub fn next(&mut self) -> (r: Option<ChunkedItem>)
        requires
            old(self).wf(),
        ensures
            final(self).wf(),
            final(self).delim() == old(self).delim(),
            final(self).max_size() == old(self).max_size(),
            !old(self).is_open() ==> r is None && !final(self).is_open(),
            old(self).is_open() && old(self).pending().len() < old(self).max_size() ==> {
                &&& !final(self).is_open()
                &&& r matches Some(ChunkedItem::Chunk(c)) && c@ == strip_trailing(
                    old(self).pending(),
                    old(self).delim(),
                )
            },
            old(self).is_open() && old(self).pending().len() >= old(self).max_size() ==> {
                let buf = old(self).pending().take(old(self).max_size() as int);
                let p = last_pos_of(buf, old(self).delim());
                if p == -1 {
                    &&& !final(self).is_open()
                    &&& r matches Some(ChunkedItem::Bail(data, rest)) && data@ == buf && rest@
                        == old(self).pending().skip(old(self).max_size() as int)
                } else {
                    &&& final(self).is_open()
                    &&& final(self).pending() == old(self).pending().skip(p + 1)
                    &&& r matches Some(ChunkedItem::Chunk(c)) && c@ == buf.take(p)
                }
            },
    {
        let inp = self.input.take();
        let input = match inp {
            None => {
                return None;
            },
            Some(v) => v,
        };
        let ghost pend = old(self).pending();
        let carry_len = self.next_buf.len();
        let remaining = input.len() - self.pos;
        if remaining < self.max_chunk_size - carry_len {
            // The stream ends before the buffer fills: flush a final chunk.
            let mut buf = Vec::new();
            std::mem::swap(&mut buf, &mut self.next_buf);
            append_range(&mut buf, &input, self.pos, input.len());
            proof {
                assert(buf@ =~= pend);
            }
            if buf.len() > 0 && buf[buf.len() - 1] == self.delimiter {
                buf.pop();
            }
            self.pos = 0;
            Some(ChunkedItem::Chunk(buf))
        } else {
            let take_n = self.max_chunk_size - carry_len;
            let new_pos = self.pos + take_n;
            let mut buf = Vec::new();
            std::mem::swap(&mut buf, &mut self.next_buf);
            append_range(&mut buf, &input, self.pos, new_pos);
            proof {
                assert(buf@ =~= pend.take(old(self).max_size() as int));
            }
            match find_last(&buf, self.delimiter) {
                None => {
                    // No delimiter in a full block: bail with the remainder.
                    let rest = copy_range(&input, new_pos, input.len());
                    proof {
                        assert(rest@ =~= pend.skip(old(self).max_size() as int));
                    }
                    self.pos = 0;
                    Some(ChunkedItem::Bail(buf, rest))
                },
                Some(p) => {
                    // Cut at the last delimiter; carry what follows it.
                    let mut tail = buf.split_off(p + 1);
                    std::mem::swap(&mut self.next_buf, &mut tail);
                    buf.pop();
                    self.input = Some(input);
                    self.pos = new_pos;
                    proof {
                        let ghost max = old(self).max_size() as int;
                        assert(buf@ =~= pend.take(max).take(p as int));
                        assert(self.pending() =~= pend.skip(p + 1));
                    }
                    Some(ChunkedItem::Chunk(buf))
                },
            }
        }
    }
}

/// Splits an ordered list of in-memory byte streams into delimiter-aligned
/// chunks, stream by stream. When one stream runs out mid-buffer its
/// leftover bytes are flushed as that stream's final chunk and the source
/// advances to the next stream: streams are never concatenated across a
/// missing trailing delimiter.
pub struct ChunkedSource {
    /// Streams not yet begun, the next one last.
    streams: Vec<Vec<u8>>,
    /// The reader over the stream currently being served.
    current: Option<ChunkedReader>,
    /// Chunks end with this delimiter.
    delimiter: u8,
    /// Maximum chunk size; exceeded only in the bytes a bail carries.
    max_chunk_size: usize,
}

impl ChunkedSource {
    /// The configured delimiter.
    pub closed spec fn delim(self) -> u8 {
        self.delimiter
    }

    /// The configured maximum chunk size.
    pub closed spec fn max_size(self) -> nat {
        self.max_chunk_size as nat
    }

    /// Internal consistency: a positive size bound, and a current reader
    /// that is open and configured like the source.
    pub closed spec fn wf(self) -> bool {
        &&& self.max_chunk_size >= 1
        &&& match self.current {
            Some(r) => r.wf() && r.is_open() && r.delim() == self.delimiter && r.max_size()
                == self.max_chunk_size as nat,
            None => true,
        }
    }

    /// What is still to be served: the remaining bytes of the stream being
    /// served, then the untouched streams, in order.
    pub closed spec fn pending_streams(self) -> Seq<Seq<u8>> {
        match self.current {
            Some(r) => seq![r.pending()] + views(self.streams@).reverse(),
            None => views(self.streams@).reverse(),
        }
    }

    /// Create a source over an ordered list of in-memory streams.
    ///
    /// A size bound of zero admits no chunk at all, so it is rejected here.
    pub fn new(streams: Vec<Vec<u8>>, delimiter: u8, max_chunk_size: usize) -> (r: Self)
        requires
            max_chunk_size >= 1,
        ensures
            r.wf(),
            r.pending_streams() == views(streams@),
            r.delim() == delimiter,
            r.max_size() == max_chunk_size as nat,
    {
        let ghost sv = views(streams@);
        let rev = reverse_lines(streams);
        let r = ChunkedSource { streams: rev, current: None, delimiter, max_chunk_size };
        proof {
            assert(r.pending_streams() =~= sv);
        }
        r
    }

    /// Produce the next item, or `None` once every stream is consumed.
    ///
    /// The stream at the front of the queue is served exactly as a
    /// [`ChunkedReader`] serves it; when it ends — in a final flushed chunk
    /// or a bail — the source moves on to the next stream.
    pub fn next(&mut self) -> (r: Option<ChunkedItem>)
        requires
            old(self).wf(),
        ensures
            final(self).wf(),
            final(self).delim() == old(self).delim(),
            final(self).max_size() == old(self).max_size(),
            ({
                let ps = old(self).pending_streams();
                let d = old(self).delim();
                let max = old(self).max_size() as int;
                if ps.len() == 0 {
                    &&& r is None
                    &&& final(self).pending_streams() == ps
                } else {
                    let s = ps.first();
                    if s.len() < max {
                        &&& final(self).pending_streams() == ps.drop_first()
                        &&& r matches Some(ChunkedItem::Chunk(c)) && c@ == strip_trailing(s, d)
                    } else {
                        let buf = s.take(max);
                        let p = last_pos_of(buf, d);
                        if p == -1 {
                            &&& final(self).pending_streams() == ps.drop_first()
                            &&& r matches Some(ChunkedItem::Bail(data, rest)) && data@ == buf
                                && rest@ == s.skip(max)
                        } else {
                            &&& final(self).pending_streams() == ps.drop_first().insert(
                                0,
                                s.skip(p + 1),
                            )
                            &&& r matches Some(ChunkedItem::Chunk(c)) && c@ == buf.take(p)
                        }
                    }
                }
            }),
    {
        let ghost ps = old(self).pending_streams();
        let mut reader = match self.current.take() {
            Some(reader) => reader,
            None => {
                let ghost qs = self.streams@;
                let stream = match self.streams.pop() {
                    None => {
                        proof {
                            assert(self.pending_streams() =~= ps);
                        }
                        return None;
                    },
                    Some(s) => s,
                };
                proof {
                    assert(stream@ == views(qs).last());
                    assert(views(qs).reverse().first() == views(qs).last());
                    assert(views(self.streams@).reverse() =~= views(qs).reverse().drop_first());
                }
                ChunkedReader::new(stream, self.delimiter, self.max_chunk_size)
            },
        };
        proof {
            assert(reader.pending() == ps.first());
            assert(views(self.streams@).reverse() =~= ps.drop_first());
        }
        let item = match reader.next() {
            None => {
                return vstd::pervasive::unreached();
            },
            Some(item) => item,
        };
        if reader.remains_open() {
            let ghost rp = reader.pending();
            self.current = Some(reader);
            proof {
                assert(self.pending_streams() =~= ps.drop_first().insert(0, rp));
            }
        } else {
            proof {
                assert(self.pending_streams() =~= ps.drop_first());
            }
        }
        Some(item)
    }
}

/// Append `src[from..to]` to `dst`.
pub(crate) fn append_range(dst: &mut Vec<u8>, src: &Vec<u8>, from: usize, to: usize)
    requires
        from <= to <= src@.len(),
    ensures
        final(dst)@ == old(dst)@ + src@.subrange(from as int, to as int),
{
    let mut i = from;
    while i < to
        invariant
            from <= i <= to <= src@.len(),
            dst@ == old(dst)@ + src@.subrange(from as int, i as int),
        decreases to - i,
    {
        dst.push(src[i]);
        i = i + 1;
        proof {
            assert(dst@ =~= old(dst)@ + src@.subrange(from as int, i as int));
        }
    }
}

/// Copy `src[from..to]` out into a fresh vector.
fn copy_range(src: &Vec<u8>, from: usize, to: usize) -> (r: Vec<u8>)
    requires
        from <= to <= src@.len(),
    ensures
        r@ == src@.subrange(from as int, to as int),
{
    let mut r = Vec::new();
    append_range(&mut r, src, from, to);
    proof {
        assert(r@ =~= src@.subrange(from as int, to as int));
    }
    r
}

/// Find the index of the last occurrence of `d` in `buf`.
fn find_last(buf: &Vec<u8>, d: u8) -> (r: Option<usize>)
    ensures
        match r {
            Some(p) => p < buf@.len() && p as int == last_pos_of(buf@, d),
            None => last_pos_of(buf@, d) == -1,
        },
{
    let mut i = buf.len();
    proof {
        assert(buf@.take(i as int) =~= buf@);
    }
    loop
        invariant
            i <= buf@.len(),
            last_pos_of(buf@, d) == last_pos_of(buf@.take(i as int), d),
        decreases i,
    {
        if i == 0 {
            return None;
        }
        i = i - 1;
        proof {
            assert(buf@.take(i as int + 1).last() == buf@[i as int]);
            assert(buf@.take(i as int + 1).drop_last() =~= buf@.take(i as int));
        }
        if buf[i] == d {
            return Some(i);
        }
    }
}

} // verus!
