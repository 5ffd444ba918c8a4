//! An independent byte-offset window into the shared input text.
//!
//! A `Span` is a pair of codepoint-boundary byte offsets over the
//! reference-counted input; it has no relation to the event log. Its line
//! decomposition yields every line the span at least partially covers.

use std::sync::Arc;
use vstd::prelude::*;
use vstd::string::StringSliceAdditionalSpecFns;
use vstd::utf8::{encode_utf8_valid_utf8, is_char_boundary_start_end_of_seq, valid_utf8};

use crate::position::{line_end_of, line_start_of, Position};
use crate::text::{bytes_of, clone_text, is_cut, same_text, substr, text_len};

verus! {

/// The offsets `start <= end` are both codepoint boundaries of `text`.
pub open spec fn range_valid(text: Seq<char>, start: int, end: int) -> bool {
    &&& start <= end
    &&& is_cut(bytes_of(text), start)
    &&& is_cut(bytes_of(text), end)
}

/// A byte-offset window `[start, end)` into the shared input text.
#[derive(Clone, Debug, Hash)]
pub struct Span {
    pub input: Arc<String>,
    pub start: usize,
    pub end: usize,
}

impl Span {
    /// The window is a boundary-aligned subslice of the text.
    pub open spec fn wf(&self) -> bool {
        range_valid(self.input@, self.start as int, self.end as int)
    }

    /// The original input that this `Span` refers to, without being indexed
    /// from `start` to `end`.
    pub fn input(&self) -> (r: &Arc<String>)
        ensures
            *r == self.input,
    {
        &self.input
    }

    /// Creates a new `Span` from offsets that are already known to be a
    /// boundary-aligned subslice of the text; the checked counterpart is
    /// [`Span::new`].
    pub fn new_unchecked(input: Arc<String>, start: usize, end: usize) -> (r: Span)
        requires
            range_valid(input@, start as int, end as int),
        ensures
            r.input == input,
            r.start == start,
            r.end == end,
            r.wf(),
    {
        Span { input, start, end }
    }

    /// Attempts to create a new `Span`. Returns `None` unless `start <= end`
    /// and both offsets lie inside the text on codepoint boundaries.
    pub fn new(input: Arc<String>, start: usize, end: usize) -> (r: Option<Span>)
        ensures
            range_valid(input@, start as int, end as int) <==> r is Some,
            r matches Some(s) ==> s.input == input && s.start == start && s.end == end && s.wf(),
    {
        proof {
            encode_utf8_valid_utf8(input@);
            is_char_boundary_start_end_of_seq(bytes_of(input@));
        }
        let s: &str = input.as_str();
        let ok = start <= end && end <= text_len(s) && s.is_char_boundary(start) && s.is_char_boundary(
            end,
        );
        proof {
            assert(s.spec_bytes() == bytes_of(input@));
            assert(ok ==> range_valid(input@, start as int, end as int));
            assert(range_valid(input@, start as int, end as int) ==> ok);
        }
        if ok {
            Some(Span { input, start, end })
        } else {
            None
        }
    }

    /// The span's start byte offset.
    pub fn start(&self) -> (r: usize)
        ensures
            r == self.start,
    {
        self.start
    }

    /// The span's end byte offset.
    pub fn end(&self) -> (r: usize)
        ensures
            r == self.end,
    {
        self.end
    }

    /// The span's start as a cursor.
    pub fn start_pos(&self) -> (r: Position)
        requires
            self.wf(),
        ensures
            r.input@ == self.input@,
            r.pos == self.start,
            r.wf(),
    {
        Position { input: clone_text(&self.input), pos: self.start }
    }

    /// The span's end as a cursor.
    pub fn end_pos(&self) -> (r: Position)
        requires
            self.wf(),
        ensures
            r.input@ == self.input@,
            r.pos == self.end,
            r.wf(),
    {
        Position { input: clone_text(&self.input), pos: self.end }
    }

    /// Splits the span into its two cursors.
    pub fn split(self) -> (r: (Position, Position))
        requires
            self.wf(),
        ensures
            r.0.input@ == self.input@ && r.0.pos == self.start && r.0.wf(),
            r.1.input@ == self.input@ && r.1.pos == self.end && r.1.wf(),
    {
        let pos1 = Position { input: clone_text(&self.input), pos: self.start };
        let pos2 = Position { input: self.input, pos: self.end };
        (pos1, pos2)
    }

    /// The slice of the text covered by the span.
    pub fn as_str(&self) -> (r: &str)
        requires
            self.wf(),
        ensures
            r.spec_bytes() == bytes_of(self.input@).subrange(self.start as int, self.end as int),
    {
        substr(self.input.as_str(), self.start, self.end)
    }

    /// A cursor over all lines that the span at least partially covers.
    pub fn lines(&self) -> (r: Lines)
        requires
            self.wf(),
        ensures
            r.span == *self,
            r.pos == self.start,
            r.wf(),
    {
        Lines {
            span: Span { input: clone_text(&self.input), start: self.start, end: self.end },
            pos: self.start,
        }
    }
}

impl PartialEq for Span {
    /// Spans are equal only when they window the same text by identity at the
    /// same offsets.
    fn eq(&self, other: &Span) -> bool {
        same_text(&self.input, &other.input) && self.start == other.start && self.end
            == other.end
    }
}

impl Eq for Span {

}

impl vstd::std_specs::cmp::PartialEqSpecImpl for Span {
    open spec fn obeys_eq_spec() -> bool {
        false
    }

    open spec fn eq_spec(&self, other: &Span) -> bool {
        self.input@ == other.input@ && self.start == other.start && self.end == other.end
    }
}

/// The byte ranges of the lines still to be yielded by a [`Lines`] cursor at
/// offset `pos` for a span ending at `end`: one full line per step, until the
/// cursor passes `end` or reaches end-of-input.
pub open spec fn lines_remaining(bytes: Seq<u8>, pos: int, end: int) -> Seq<(int, int)>
    recommends
        valid_utf8(bytes),
    decreases bytes.len() - pos,
{
    if pos < 0 || pos > end || pos >= bytes.len() {
        Seq::empty()
    } else {
        let le = line_end_of(bytes, pos);
        if le <= pos || le > bytes.len() {
            Seq::empty()
        } else {
            seq![(line_start_of(bytes, pos), le)] + lines_remaining(bytes, le, end)
        }
    }
}

/// The concatenation of the given byte ranges of `bytes`.
pub open spec fn ranges_concat(bytes: Seq<u8>, rs: Seq<(int, int)>) -> Seq<u8>
    decreases rs.len(),
{
    if rs.len() == 0 {
        Seq::empty()
    } else {
        bytes.subrange(rs[0].0, rs[0].1) + ranges_concat(bytes, rs.drop_first())
    }
}

/// Law: the lines of a span tile the text contiguously. For a span starting
/// at `s` and ending at `e`, the line ranges are non-empty exactly while `s`
/// is not at end-of-input, the first range starts at the start of the line
/// containing `s`, and the concatenation of all ranges equals exactly the
/// text from that first line start to the end of the last covered line.
pub proof fn lemma_lines_cover(bytes: Seq<u8>, s: int, e: int)
    requires
        valid_utf8(bytes),
        0 <= s <= e <= bytes.len(),
    ensures
        lines_remaining(bytes, s, e).len() == 0 <==> s == bytes.len(),
        ({
            let rs = lines_remaining(bytes, s, e);
            rs.len() > 0 ==> {
                &&& rs[0].0 == line_start_of(bytes, s)
                &&& 0 <= rs[0].0 <= rs[rs.len() - 1].1 <= bytes.len()
                &&& ranges_concat(bytes, rs) == bytes.subrange(rs[0].0, rs[rs.len() - 1].1)
            }
        }),
    decreases bytes.len() - s,
{
    crate::position::lemma_line_bounds(bytes, s);
    if s < bytes.len() {
        let ls = line_start_of(bytes, s);
        let le = line_end_of(bytes, s);
        let rs = lines_remaining(bytes, s, e);
        let tail = lines_remaining(bytes, le, e);
        assert(rs == seq![(ls, le)] + tail);
        assert(rs[0] == (ls, le));
        assert(rs.drop_first() =~= tail);
        assert(ranges_concat(bytes, rs) == bytes.subrange(ls, le) + ranges_concat(bytes, tail));
        if le > e || le == bytes.len() {
            assert(tail.len() == 0);
            assert(rs.len() == 1);
            assert(ranges_concat(bytes, rs) =~= bytes.subrange(ls, le));
        } else {
            lemma_lines_cover(bytes, le, e);
            crate::position::lemma_line_bounds(bytes, le);
            assert(line_start_of(bytes, le) == le);
            assert(tail.len() > 0);
            assert(rs[rs.len() - 1] == tail[tail.len() - 1]);
            let last: int = tail[tail.len() - 1].1;
            assert(ranges_concat(bytes, tail) == bytes.subrange(le, last));
            assert(ranges_concat(bytes, rs) == bytes.subrange(ls, le) + bytes.subrange(le, last));
            assert(bytes.subrange(ls, le) + bytes.subrange(le, last) =~= bytes.subrange(ls, last));
        }
    }
}

/// A cursor over the lines at least partially covered by a [`Span`], created
/// by [`Span::lines()`]. Each call of [`Lines::next`] yields one more line;
/// the cursor never restarts.
#[derive(Clone, Debug)]
pub struct Lines {
    pub span: Span,
    pub pos: usize,
}

impl Lines {
    /// The underlying span is well formed and the cursor stands on a
    /// codepoint boundary.
    pub open spec fn wf(&self) -> bool {
        &&& self.span.wf()
        &&& is_cut(bytes_of(self.span.input@), self.pos as int)
    }

    /// The byte ranges of the lines still to be yielded.
    pub open spec fn remaining(&self) -> Seq<(int, int)> {
        lines_remaining(bytes_of(self.span.input@), self.pos as int, self.span.end as int)
    }

    /// Yields the next line that the span at least partially covers, or
    /// `None` when the cursor has passed the span's end or stands at
    /// end-of-input.
    pub fn next(&mut self) -> (r: Option<String>)
        requires
            old(self).wf(),
        ensures
            final(self).wf(),
            final(self).span == old(self).span,
            old(self).remaining().len() == 0 ==> r is None && final(self).pos == old(self).pos,
            old(self).remaining().len() > 0 ==> {
                &&& r matches Some(line) && bytes_of(line@) == bytes_of(
                    old(self).span.input@,
                ).subrange(old(self).remaining()[0].0, old(self).remaining()[0].1)
                &&& final(self).pos == old(self).remaining()[0].1
                &&& final(self).remaining() == old(self).remaining().drop_first()
            },
    {
        let ghost bytes = bytes_of(self.span.input@);
        proof {
            encode_utf8_valid_utf8(self.span.input@);
        }
        if self.pos > self.span.end {
            return None;
        }
        let pos = match Position::new(clone_text(&self.span.input), self.pos) {
            Some(p) => p,
            None => {
                proof {
                    assert(false);
                }
                return None;
            },
        };
        if pos.at_end() {
            return None;
        }
        proof {
            crate::position::lemma_line_bounds(bytes, self.pos as int);
        }
        let line_start = pos.find_line_start();
        let line_end = pos.find_line_end();
        let line: &str = substr(self.span.input.as_str(), line_start, line_end);
        let ghost rem = old(self).remaining();
        self.pos = line_end;
        proof {
            assert(rem[0] == (line_start as int, line_end as int));
            assert(rem.drop_first() =~= self.remaining());
        }
        Some(line.to_owned())
    }
}

} // verus!
