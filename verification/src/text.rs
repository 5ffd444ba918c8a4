//! The byte-offset model of the shared input text.
//!
//! Every view in this crate addresses the input by byte offsets that must lie
//! on codepoint boundaries. This module defines that validity notion over the
//! UTF-8 encoding of the text, the verified slicing helper the views share,
//! and the shared-ownership helpers for the reference-counted handles.

use std::rc::Rc;
use std::sync::Arc;
use vstd::prelude::*;
use vstd::string::StringSliceAdditionalSpecFns;
use vstd::utf8::{
    encode_utf8, encode_utf8_valid_utf8, is_char_boundary,
    is_char_boundary_iff_not_is_continuation_byte, is_char_boundary_start_end_of_seq,
    length_of_first_scalar, pop_first_scalar, valid_first_scalar,
    valid_utf8, valid_utf8_split,
};

verus! {

/// A byte offset at which `bytes` may be cut: it lies inside the sequence and
/// on a codepoint boundary.
pub open spec fn is_cut(bytes: Seq<u8>, i: int) -> bool {
    0 <= i <= bytes.len() && is_char_boundary(bytes, i)
}

/// The bytes of a text given as a character sequence.
pub open spec fn bytes_of(text: Seq<char>) -> Seq<u8> {
    encode_utf8(text)
}

/// A boundary of the whole text is still a boundary of a prefix that extends
/// at least that far, and such a prefix is itself valid UTF-8.
pub proof fn lemma_cut_in_prefix(bytes: Seq<u8>, m: int, i: int)
    requires
        valid_utf8(bytes),
        is_cut(bytes, m),
        0 <= i <= m,
        is_char_boundary(bytes, i),
    ensures
        valid_utf8(bytes.subrange(0, m)),
        is_cut(bytes.subrange(0, m), i),
{
    valid_utf8_split(bytes, m);
    let pre = bytes.subrange(0, m);
    if i == m {
        is_char_boundary_start_end_of_seq(pre);
    } else if i == 0 {
        is_char_boundary_start_end_of_seq(pre);
    } else {
        is_char_boundary_iff_not_is_continuation_byte(bytes, i);
        is_char_boundary_iff_not_is_continuation_byte(pre, i);
    }
}

/// The byte right after an ASCII byte is again a codepoint boundary.
pub proof fn lemma_cut_after_ascii(bytes: Seq<u8>, i: int)
    requires
        valid_utf8(bytes),
        0 <= i < bytes.len(),
        bytes[i] < 0x80,
    ensures
        is_char_boundary(bytes, i + 1),
    decreases i,
{
    assert(valid_first_scalar(bytes) && valid_utf8(pop_first_scalar(bytes)));
    let l = length_of_first_scalar(bytes);
    if i + 1 == bytes.len() {
        is_char_boundary_start_end_of_seq(bytes);
    } else if i == 0 {
        assert(l == 1);
        let pop = pop_first_scalar(bytes);
        is_char_boundary_start_end_of_seq(pop);
        assert(is_char_boundary(pop, 0));
        assert(is_char_boundary(bytes, 1));
    } else {
        assert(1 <= l <= bytes.len());
        let pop = pop_first_scalar(bytes);
        if i < l {
            // within one scalar every byte but the first is a continuation
            // byte, and continuation bytes are at least 0x80
            is_char_boundary_iff_not_is_continuation_byte(bytes, i);
            assert(is_char_boundary(bytes, i));
            assert(!is_char_boundary(pop, i - l));
            assert(false);
        } else {
            assert(pop[i - l] == bytes[i]);
            lemma_cut_after_ascii(pop, i - l);
            assert(is_char_boundary(pop, i + 1 - l));
            assert(is_char_boundary(bytes, i + 1));
        }
    }
}

/// Encoding a concatenation of character sequences concatenates their
/// encodings.
pub proof fn lemma_encode_concat(a: Seq<char>, b: Seq<char>)
    ensures
        encode_utf8(a + b) == encode_utf8(a) + encode_utf8(b),
    decreases a.len(),
{
    if a.len() == 0 {
        assert(a + b =~= b);
        assert(encode_utf8(a) =~= Seq::<u8>::empty());
        assert(encode_utf8(a) + encode_utf8(b) =~= encode_utf8(b));
    } else {
        lemma_encode_concat(a.drop_first(), b);
        assert((a + b).drop_first() =~= a.drop_first() + b);
        assert(encode_utf8(a + b) =~= encode_utf8(a) + encode_utf8(b));
    }
}

/// Slices `s` between the byte offsets `start` and `end`, both of which must
/// be codepoint boundaries.
pub fn substr<'a>(s: &'a str, start: usize, end: usize) -> (r: &'a str)
    requires
        start <= end,
        is_cut(s.spec_bytes(), start as int),
        is_cut(s.spec_bytes(), end as int),
    ensures
        r.spec_bytes() == s.spec_bytes().subrange(start as int, end as int),
{
    proof {
        encode_utf8_valid_utf8(s@);
        lemma_cut_in_prefix(s.spec_bytes(), end as int, start as int);
    }
    let (pre, _) = s.split_at(end);
    let (_, mid) = pre.split_at(start);
    proof {
        assert(mid.spec_bytes() =~= s.spec_bytes().subrange(start as int, end as int));
    }
    mid
}

/// The byte length of `s`. Unlike `str::len`, its contract also certifies
/// that the byte sequence fits in `usize`.
pub fn text_len(s: &str) -> (r: usize)
    ensures
        r == s.spec_bytes().len(),
{
    let b: &[u8] = s.as_bytes();
    proof {
        vstd::slice::axiom_spec_len(b);
    }
    b.len()
}

/// Relies on `Arc::clone`: the clone handle refers to the same allocation, so
/// it carries the same value.
#[verifier::external_body]
pub(crate) fn clone_text(v: &Arc<String>) -> (r: Arc<String>)
    ensures
        r == *v,
{
    Arc::clone(v)
}

/// Relies on `Arc::ptr_eq`: it returns true only when both handles refer to
/// the same allocation, in which case they hold the same value.
#[verifier::external_body]
pub(crate) fn same_text(a: &Arc<String>, b: &Arc<String>) -> (r: bool)
    ensures
        r ==> *a == *b,
{
    Arc::ptr_eq(a, b)
}

/// Relies on `Rc::clone`: the clone handle refers to the same allocation, so
/// it carries the same value.
#[verifier::external_body]
pub(crate) fn clone_shared<T>(v: &Rc<T>) -> (r: Rc<T>)
    ensures
        r == *v,
{
    Rc::clone(v)
}

/// Relies on `Rc::ptr_eq`: it returns true only when both handles refer to
/// the same allocation, in which case they hold the same value.
#[verifier::external_body]
pub(crate) fn same_shared<T>(a: &Rc<T>, b: &Rc<T>) -> (r: bool)
    ensures
        r ==> *a == *b,
{
    Rc::ptr_eq(a, b)
}

} // verus!
