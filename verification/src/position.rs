//! A single-offset cursor into the shared input text.
//!
//! A `Position` knows whether it stands at end-of-input and how to find the
//! boundaries of the line it stands on. It is the building block of
//! [`crate::span::Span`]'s line decomposition.

use std::sync::Arc;
use vstd::prelude::*;
use vstd::string::StringSliceAdditionalSpecFns;
use vstd::utf8::{
    encode_utf8_valid_utf8, is_char_boundary, is_char_boundary_start_end_of_seq, valid_utf8,
};

use crate::span::Span;
use crate::text::{bytes_of, clone_text, is_cut, lemma_cut_after_ascii, same_text, text_len};

verus! {

/// The start offset of the line containing byte offset `pos`: the offset just
/// after the previous newline byte, or zero.
pub open spec fn line_start_of(bytes: Seq<u8>, pos: int) -> int
    recommends
        0 <= pos <= bytes.len(),
    decreases pos,
{
    if pos <= 0 {
        0
    } else if bytes[pos - 1] == 10u8 {
        pos
    } else {
        line_start_of(bytes, pos - 1)
    }
}

/// The end offset (exclusive) of the line containing byte offset `pos`: the
/// offset just after the next newline byte at or beyond `pos`, or the end of
/// the text.
pub open spec fn line_end_of(bytes: Seq<u8>, pos: int) -> int
    recommends
        0 <= pos <= bytes.len(),
    decreases bytes.len() - pos,
{
    if pos < 0 || pos >= bytes.len() {
        bytes.len() as int
    } else if bytes[pos] == 10u8 {
        pos + 1
    } else {
        line_end_of(bytes, pos + 1)
    }
}

/// The nearest codepoint boundary strictly after `pos`, capped at the end of
/// the text; stepping to it skips exactly one character.
pub open spec fn next_cut(bytes: Seq<u8>, pos: int) -> int
    recommends
        valid_utf8(bytes),
    decreases bytes.len() - pos,
{
    if pos < 0 || pos >= bytes.len() {
        bytes.len() as int
    } else if is_char_boundary(bytes, pos + 1) {
        pos + 1
    } else {
        next_cut(bytes, pos + 1)
    }
}

/// The offset reached from `pos` by skipping `n` characters.
pub open spec fn skip_chars(bytes: Seq<u8>, pos: int, n: nat) -> int
    recommends
        valid_utf8(bytes),
    decreases n,
{
    if n == 0 {
        pos
    } else {
        skip_chars(bytes, next_cut(bytes, pos), (n - 1) as nat)
    }
}

/// True when at least `n` characters remain at or after `pos`.
pub open spec fn can_skip(bytes: Seq<u8>, pos: int, n: nat) -> bool
    recommends
        valid_utf8(bytes),
    decreases n,
{
    if n == 0 {
        true
    } else if pos >= bytes.len() {
        false
    } else {
        can_skip(bytes, next_cut(bytes, pos), (n - 1) as nat)
    }
}

/// Skipping `k + 1` characters is possible exactly when skipping `k` is
/// possible and does not reach the end of the text.
pub proof fn lemma_can_skip_unfold(bytes: Seq<u8>, pos: int, k: nat)
    ensures
        can_skip(bytes, pos, k + 1) <==> (can_skip(bytes, pos, k) && skip_chars(bytes, pos, k)
            < bytes.len()),
    decreases k,
{
    if k == 0 {
        assert(can_skip(bytes, pos, k + 1) == (pos < bytes.len() && can_skip(
            bytes,
            next_cut(bytes, pos),
            0,
        )));
        assert(can_skip(bytes, next_cut(bytes, pos), 0));
        assert(skip_chars(bytes, pos, 0) == pos);
    } else {
        lemma_can_skip_unfold(bytes, next_cut(bytes, pos), (k - 1) as nat);
        assert(can_skip(bytes, pos, k + 1) == (pos < bytes.len() && can_skip(
            bytes,
            next_cut(bytes, pos),
            k,
        )));
        assert(can_skip(bytes, pos, k) == (pos < bytes.len() && can_skip(
            bytes,
            next_cut(bytes, pos),
            (k - 1) as nat,
        )));
        assert(skip_chars(bytes, pos, k) == skip_chars(bytes, next_cut(bytes, pos), (k - 1) as nat));
    }
}

/// Whatever can skip `m` characters can skip any smaller count.
pub proof fn lemma_can_skip_mono(bytes: Seq<u8>, pos: int, k: nat, m: nat)
    requires
        k <= m,
    ensures
        can_skip(bytes, pos, m) ==> can_skip(bytes, pos, k),
    decreases k,
{
    if k > 0 {
        lemma_can_skip_mono(bytes, next_cut(bytes, pos), (k - 1) as nat, (m - 1) as nat);
    }
}

/// The line start at or before `pos` stays within the text, lies on a
/// codepoint boundary, and is either the start of the text or preceded by a
/// newline byte.
pub proof fn lemma_line_start_bounds(bytes: Seq<u8>, pos: int)
    requires
        valid_utf8(bytes),
        0 <= pos <= bytes.len(),
    ensures
        0 <= line_start_of(bytes, pos) <= pos,
        is_cut(bytes, line_start_of(bytes, pos)),
        line_start_of(bytes, pos) == 0 || bytes[line_start_of(bytes, pos) - 1] == 10u8,
    decreases pos,
{
    is_char_boundary_start_end_of_seq(bytes);
    if pos > 0 && bytes[pos - 1] != 10u8 {
        lemma_line_start_bounds(bytes, pos - 1);
    }
    let ls = line_start_of(bytes, pos);
    if ls > 0 {
        lemma_cut_after_ascii(bytes, ls - 1);
    }
}

/// The line end at or after `pos` stays within the text, lies strictly beyond
/// `pos` unless `pos` is at the end, lies on a codepoint boundary, and is
/// either the end of the text or preceded by a newline byte.
pub proof fn lemma_line_end_bounds(bytes: Seq<u8>, pos: int)
    requires
        valid_utf8(bytes),
        0 <= pos <= bytes.len(),
    ensures
        pos <= line_end_of(bytes, pos) <= bytes.len(),
        pos < bytes.len() ==> pos + 1 <= line_end_of(bytes, pos),
        is_cut(bytes, line_end_of(bytes, pos)),
        line_end_of(bytes, pos) == bytes.len() || bytes[line_end_of(bytes, pos) - 1] == 10u8,
    decreases bytes.len() - pos,
{
    is_char_boundary_start_end_of_seq(bytes);
    if pos < bytes.len() && bytes[pos] != 10u8 {
        lemma_line_end_bounds(bytes, pos + 1);
    }
    let le = line_end_of(bytes, pos);
    if le < bytes.len() || (le == bytes.len() && pos < bytes.len() && bytes[le - 1] == 10u8) {
        lemma_cut_after_ascii(bytes, le - 1);
    }
}

/// Both line boundaries around `pos` stay within the text, the line is never
/// empty while `pos` is not at the end, and both boundaries are codepoint
/// boundaries.
pub proof fn lemma_line_bounds(bytes: Seq<u8>, pos: int)
    requires
        valid_utf8(bytes),
        0 <= pos <= bytes.len(),
    ensures
        0 <= line_start_of(bytes, pos) <= pos,
        pos <= line_end_of(bytes, pos) <= bytes.len(),
        pos < bytes.len() ==> pos + 1 <= line_end_of(bytes, pos),
        is_cut(bytes, line_start_of(bytes, pos)),
        is_cut(bytes, line_end_of(bytes, pos)),
        line_end_of(bytes, pos) == bytes.len() || bytes[line_end_of(bytes, pos) - 1] == 10u8,
        line_start_of(bytes, pos) == 0 || bytes[line_start_of(bytes, pos) - 1] == 10u8,
{
    lemma_line_start_bounds(bytes, pos);
    lemma_line_end_bounds(bytes, pos);
}

/// The next cut after `pos` lies strictly beyond it, within the text, and on a
/// codepoint boundary.
pub proof fn lemma_next_cut(bytes: Seq<u8>, pos: int)
    requires
        valid_utf8(bytes),
        0 <= pos < bytes.len(),
    ensures
        pos < next_cut(bytes, pos) <= bytes.len(),
        is_cut(bytes, next_cut(bytes, pos)),
    decreases bytes.len() - pos,
{
    is_char_boundary_start_end_of_seq(bytes);
    if !is_char_boundary(bytes, pos + 1) && pos + 1 < bytes.len() {
        lemma_next_cut(bytes, pos + 1);
    }
}

/// A cursor at byte offset `pos` into the shared input text.
#[derive(Clone, Debug, Hash)]
pub struct Position {
    pub input: Arc<String>,
    pub pos: usize,
}

impl Position {
    /// The cursor offset lies in the text and on a codepoint boundary.
    pub open spec fn wf(&self) -> bool {
        is_cut(bytes_of(self.input@), self.pos as int)
    }

    /// Creates a `Position` at the given byte offset, or `None` when the
    /// offset is out of range or not a codepoint boundary.
    pub fn new(input: Arc<String>, pos: usize) -> (r: Option<Position>)
        ensures
            is_cut(bytes_of(input@), pos as int) <==> r is Some,
            r matches Some(p) ==> p.input == input && p.pos == pos && p.wf(),
    {
        proof {
            encode_utf8_valid_utf8(input@);
            is_char_boundary_start_end_of_seq(bytes_of(input@));
        }
        if pos <= text_len(input.as_str()) && input.as_str().is_char_boundary(pos) {
            Some(Position { input, pos })
        } else {
            None
        }
    }

    /// Creates a `Position` at the start of the input.
    pub fn from_start(input: Arc<String>) -> (r: Position)
        ensures
            r.input == input,
            r.pos == 0,
            r.wf(),
    {
        proof {
            encode_utf8_valid_utf8(input@);
            is_char_boundary_start_end_of_seq(bytes_of(input@));
        }
        Position { input, pos: 0 }
    }

    /// The byte offset of the cursor.
    pub fn pos(&self) -> (r: usize)
        ensures
            r == self.pos,
    {
        self.pos
    }

    /// True when the cursor stands at the end of the input.
    pub fn at_end(&self) -> (r: bool)
        requires
            self.wf(),
        ensures
            r <==> self.pos == bytes_of(self.input@).len(),
    {
        self.pos == text_len(self.input.as_str())
    }

    /// The start offset of the line the cursor stands on.
    pub fn find_line_start(&self) -> (r: usize)
        requires
            self.wf(),
        ensures
            r == line_start_of(bytes_of(self.input@), self.pos as int),
    {
        let ghost bytes = bytes_of(self.input@);
        let b: &[u8] = self.input.as_str().as_bytes();
        let mut l: usize = self.pos;
        while l > 0 && b[l - 1] != 10u8
            invariant
                0 <= l <= self.pos,
                b@ == bytes,
                self.pos <= bytes.len(),
                line_start_of(bytes, self.pos as int) == line_start_of(bytes, l as int),
            decreases l,
        {
            l = l - 1;
        }
        l
    }

    /// The end offset (exclusive) of the line the cursor stands on, including
    /// its newline terminator when there is one.
    pub fn find_line_end(&self) -> (r: usize)
        requires
            self.wf(),
        ensures
            r == line_end_of(bytes_of(self.input@), self.pos as int),
    {
        let ghost bytes = bytes_of(self.input@);
        let b: &[u8] = self.input.as_str().as_bytes();
        let n: usize = text_len(self.input.as_str());
        let mut e: usize = self.pos;
        while e < n && b[e] != 10u8
            invariant
                self.pos <= e <= n,
                b@ == bytes,
                n == bytes.len(),
                line_end_of(bytes, self.pos as int) == line_end_of(bytes, e as int),
            decreases n - e,
        {
            e = e + 1;
        }
        if e < n {
            e + 1
        } else {
            e
        }
    }

    /// Skips `n` characters forward. Returns false and stays in place when
    /// fewer than `n` characters remain.
    pub fn skip(&mut self, n: usize) -> (r: bool)
        requires
            old(self).wf(),
        ensures
            final(self).input == old(self).input,
            final(self).wf(),
            r <==> can_skip(bytes_of(old(self).input@), old(self).pos as int, n as nat),
            r ==> final(self).pos == skip_chars(
                bytes_of(old(self).input@),
                old(self).pos as int,
                n as nat,
            ),
            !r ==> final(self).pos == old(self).pos,
    {
        let ghost bytes = bytes_of(self.input@);
        proof {
            encode_utf8_valid_utf8(self.input@);
        }
        let mut cur: usize = self.pos;
        let mut i: usize = 0;
        while i < n
            invariant
                *self == *old(self),
                self.wf(),
                0 <= i <= n,
                valid_utf8(bytes),
                bytes == bytes_of(self.input@),
                is_cut(bytes, cur as int),
                cur == skip_chars(bytes, self.pos as int, i as nat),
                can_skip(bytes, self.pos as int, i as nat),
            decreases n - i,
        {
            if cur == text_len(self.input.as_str()) {
                proof {
                    lemma_can_skip_unfold(bytes, self.pos as int, i as nat);
                    lemma_can_skip_mono(bytes, self.pos as int, (i + 1) as nat, n as nat);
                }
                return false;
            }
            proof {
                lemma_next_cut(bytes, cur as int);
                lemma_skip_chars_unfold(bytes, self.pos as int, i as nat);
                lemma_can_skip_unfold(bytes, self.pos as int, i as nat);
            }
            cur = self.step_cut(cur);
            i = i + 1;
        }
        self.pos = cur;
        true
    }

    /// The nearest codepoint boundary strictly after `from`, capped at the end
    /// of the text.
    fn step_cut(&self, from: usize) -> (r: usize)
        requires
            self.wf(),
            is_cut(bytes_of(self.input@), from as int),
            (from as int) < bytes_of(self.input@).len(),
        ensures
            r == next_cut(bytes_of(self.input@), from as int),
    {
        let ghost bytes = bytes_of(self.input@);
        proof {
            encode_utf8_valid_utf8(self.input@);
            is_char_boundary_start_end_of_seq(bytes);
        }
        let s: &str = self.input.as_str();
        let n: usize = text_len(s);
        let mut q: usize = from + 1;
        while q < n && !s.is_char_boundary(q)
            invariant
                from < q <= n,
                n == bytes.len(),
                valid_utf8(bytes),
                s.spec_bytes() == bytes,
                next_cut(bytes, from as int) == next_cut(bytes, q as int - 1),
            decreases n - q,
        {
            q = q + 1;
        }
        proof {
            is_char_boundary_start_end_of_seq(bytes);
        }
        q
    }

    /// The span between this cursor and a later cursor over the same text.
    pub fn span(&self, other: &Position) -> (r: Span)
        requires
            self.wf(),
            other.wf(),
            self.input@ == other.input@,
            self.pos <= other.pos,
        ensures
            r.input@ == self.input@,
            r.start == self.pos,
            r.end == other.pos,
            r.wf(),
    {
        Span { input: clone_text(&self.input), start: self.pos, end: other.pos }
    }
}

/// Unfolds one step of `skip_chars` from the back: skipping `k + 1`
/// characters is one character step after skipping `k`.
pub proof fn lemma_skip_chars_unfold(bytes: Seq<u8>, pos: int, k: nat)
    ensures
        skip_chars(bytes, pos, k + 1) == next_cut(bytes, skip_chars(bytes, pos, k)),
    decreases k,
{
    assert(skip_chars(bytes, pos, k + 1) == skip_chars(bytes, next_cut(bytes, pos), k));
    if k > 0 {
        lemma_skip_chars_unfold(bytes, next_cut(bytes, pos), (k - 1) as nat);
        assert(skip_chars(bytes, pos, k as nat) == skip_chars(
            bytes,
            next_cut(bytes, pos),
            (k - 1) as nat,
        ));
    }
}

impl PartialEq for Position {
    /// Positions are equal only when they point into the same text by
    /// identity and stand at the same offset.
    fn eq(&self, other: &Position) -> bool {
        same_text(&self.input, &other.input) && self.pos == other.pos
    }
}

impl Eq for Position {

}

impl vstd::std_specs::cmp::PartialEqSpecImpl for Position {
    open spec fn obeys_eq_spec() -> bool {
        false
    }

    open spec fn eq_spec(&self, other: &Position) -> bool {
        self.input@ == other.input@ && self.pos == other.pos
    }
}

} // verus!
