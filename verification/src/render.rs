//! Rendering matched ranges as text: the `Rule(start, end, [...])` display
//! form and the pretty-printed JSON form with the fields `pos`, `rule` and
//! `inner`, exactly as the result layer has always emitted them.
//!
//! All output is specified at the byte level: every function states that it
//! appends exactly the byte sequence given by the corresponding spec
//! function.

use std::sync::Arc;
use vstd::prelude::*;
use vstd::string::{StringExecFns, StringSliceAdditionalSpecFns};
use vstd::utf8::{encode_utf8, encode_utf8_valid_utf8, is_char_boundary_iff_not_is_continuation_byte,
    is_char_boundary_start_end_of_seq, valid_utf8};

use crate::pair::Pair;
use vstd::pervasive::unreached;
use crate::text::{bytes_of, is_cut, lemma_cut_after_ascii, lemma_encode_concat, substr};
use crate::token::{
    is_start, lemma_inner_matched, lemma_matched_step, matched_in, queue_wf, tok_end, tok_pos,
    tok_rule, QueueableToken, RuleType,
};

verus! {

/// Appends `piece` to `out`.
fn push_str(out: &mut String, piece: &str)
    ensures
        encode_utf8(final(out)@) == encode_utf8(old(out)@) + piece.spec_bytes(),
{
    proof {
        lemma_encode_concat(out@, piece@);
    }
    out.append(piece);
}

/// The decimal digit `d` as a byte sequence.
pub open spec fn digit_bytes(d: int) -> Seq<u8> {
    if d == 0 {
        ("0").spec_bytes()
    } else if d == 1 {
        ("1").spec_bytes()
    } else if d == 2 {
        ("2").spec_bytes()
    } else if d == 3 {
        ("3").spec_bytes()
    } else if d == 4 {
        ("4").spec_bytes()
    } else if d == 5 {
        ("5").spec_bytes()
    } else if d == 6 {
        ("6").spec_bytes()
    } else if d == 7 {
        ("7").spec_bytes()
    } else if d == 8 {
        ("8").spec_bytes()
    } else {
        ("9").spec_bytes()
    }
}

/// The decimal rendering of `n`, most significant digit first.
pub open spec fn dec_bytes(n: int) -> Seq<u8>
    recommends
        n >= 0,
    decreases n,
{
    if n <= 9 {
        digit_bytes(n)
    } else {
        dec_bytes(n / 10) + digit_bytes(n % 10)
    }
}

/// The decimal digit `d` as a string slice.
fn digit_str(d: usize) -> (r: &'static str)
    requires
        d <= 9,
    ensures
        r.spec_bytes() == digit_bytes(d as int),
{
    if d == 0 {
        "0"
    } else if d == 1 {
        "1"
    } else if d == 2 {
        "2"
    } else if d == 3 {
        "3"
    } else if d == 4 {
        "4"
    } else if d == 5 {
        "5"
    } else if d == 6 {
        "6"
    } else if d == 7 {
        "7"
    } else if d == 8 {
        "8"
    } else {
        "9"
    }
}

/// Appends the decimal rendering of `n` to `out`.
fn push_dec(out: &mut String, n: usize)
    ensures
        encode_utf8(final(out)@) == encode_utf8(old(out)@) + dec_bytes(n as int),
    decreases n,
{
    if n <= 9 {
        push_str(out, digit_str(n));
    } else {
        push_dec(out, n / 10);
        push_str(out, digit_str(n % 10));
        proof {
            assert(encode_utf8(out@) =~= encode_utf8(old(out)@) + dec_bytes(n as int));
        }
    }
}

/// The hexadecimal digit `d` as a byte sequence, lower case.
pub open spec fn hex_digit_bytes(d: int) -> Seq<u8> {
    if d <= 9 {
        digit_bytes(d)
    } else if d == 10 {
        ("a").spec_bytes()
    } else if d == 11 {
        ("b").spec_bytes()
    } else if d == 12 {
        ("c").spec_bytes()
    } else if d == 13 {
        ("d").spec_bytes()
    } else if d == 14 {
        ("e").spec_bytes()
    } else {
        ("f").spec_bytes()
    }
}

/// The hexadecimal digit `d` as a string slice.
fn hex_digit_str(d: u8) -> (r: &'static str)
    requires
        d < 16,
    ensures
        r.spec_bytes() == hex_digit_bytes(d as int),
{
    if d <= 9 {
        digit_str(d as usize)
    } else if d == 10 {
        "a"
    } else if d == 11 {
        "b"
    } else if d == 12 {
        "c"
    } else if d == 13 {
        "d"
    } else if d == 14 {
        "e"
    } else {
        "f"
    }
}

/// True when JSON string rendering must escape the byte.
pub open spec fn is_special(b: u8) -> bool {
    b == 34 || b == 92 || b < 32
}

/// The JSON string rendering of one byte: quotes, backslashes and control
/// bytes are escaped, everything else passes through.
pub open spec fn esc_byte(b: u8) -> Seq<u8> {
    if b == 34 {
        ("\\\"").spec_bytes()
    } else if b == 92 {
        ("\\\\").spec_bytes()
    } else if b == 8 {
        ("\\b").spec_bytes()
    } else if b == 9 {
        ("\\t").spec_bytes()
    } else if b == 10 {
        ("\\n").spec_bytes()
    } else if b == 12 {
        ("\\f").spec_bytes()
    } else if b == 13 {
        ("\\r").spec_bytes()
    } else if b < 32 {
        ("\\u00").spec_bytes() + hex_digit_bytes(b as int / 16) + hex_digit_bytes(b as int % 16)
    } else {
        seq![b]
    }
}

/// The JSON string rendering of a byte sequence.
pub open spec fn escape_bytes(bs: Seq<u8>) -> Seq<u8>
    decreases bs.len(),
{
    if bs.len() == 0 {
        Seq::empty()
    } else {
        esc_byte(bs[0]) + escape_bytes(bs.drop_first())
    }
}

/// Escaping distributes over concatenation.
pub proof fn lemma_escape_concat(a: Seq<u8>, b: Seq<u8>)
    ensures
        escape_bytes(a + b) == escape_bytes(a) + escape_bytes(b),
    decreases a.len(),
{
    if a.len() == 0 {
        assert(a + b =~= b);
        assert(escape_bytes(a) + escape_bytes(b) =~= escape_bytes(b));
    } else {
        lemma_escape_concat(a.drop_first(), b);
        assert((a + b).drop_first() =~= a.drop_first() + b);
        assert(escape_bytes(a + b) =~= escape_bytes(a) + escape_bytes(b));
    }
}

/// A sequence without special bytes is its own escaped rendering.
pub proof fn lemma_escape_plain(bs: Seq<u8>)
    requires
        forall|j: int| 0 <= j < bs.len() ==> !is_special(#[trigger] bs[j]),
    ensures
        escape_bytes(bs) == bs,
    decreases bs.len(),
{
    if bs.len() > 0 {
        lemma_escape_plain(bs.drop_first());
        assert(esc_byte(bs[0]) == seq![bs[0]]);
        assert(escape_bytes(bs) =~= bs);
    }
}

/// Extends an escaped prefix by a plain run.
proof fn lemma_escape_flush(bs: Seq<u8>, run: int, i: int)
    requires
        0 <= run <= i <= bs.len(),
        forall|j: int| run <= j < i ==> !is_special(#[trigger] bs[j]),
    ensures
        escape_bytes(bs.subrange(0, i)) == escape_bytes(bs.subrange(0, run)) + bs.subrange(run, i),
{
    lemma_escape_concat(bs.subrange(0, run), bs.subrange(run, i));
    assert(bs.subrange(0, run) + bs.subrange(run, i) =~= bs.subrange(0, i));
    lemma_escape_plain(bs.subrange(run, i));
}

/// Extends an escaped prefix by one escaped byte.
proof fn lemma_escape_snoc(bs: Seq<u8>, i: int)
    requires
        0 <= i < bs.len(),
    ensures
        escape_bytes(bs.subrange(0, i + 1)) == escape_bytes(bs.subrange(0, i)) + esc_byte(bs[i]),
{
    lemma_escape_concat(bs.subrange(0, i), seq![bs[i]]);
    assert(bs.subrange(0, i) + seq![bs[i]] =~= bs.subrange(0, i + 1));
    assert(seq![bs[i]].drop_first() =~= Seq::<u8>::empty());
    assert(escape_bytes(seq![bs[i]].drop_first()) =~= Seq::<u8>::empty());
    assert(escape_bytes(seq![bs[i]]) =~= esc_byte(bs[i]));
}

/// Appends the JSON string rendering of `s` to `out`.
fn push_escaped(out: &mut String, s: &str)
    ensures
        encode_utf8(final(out)@) == encode_utf8(old(out)@) + escape_bytes(s.spec_bytes()),
{
    let ghost bytes = s.spec_bytes();
    let ghost out0 = old(out)@;
    proof {
        encode_utf8_valid_utf8(s@);
        is_char_boundary_start_end_of_seq(bytes);
    }
    let b: &[u8] = s.as_bytes();
    let n: usize = b.len();
    let mut i: usize = 0;
    let mut run: usize = 0;
    while i < n
        invariant
            run <= i <= n,
            n == bytes.len(),
            b@ == bytes,
            s.spec_bytes() == bytes,
            valid_utf8(bytes),
            is_cut(bytes, run as int),
            out0 == old(out)@,
            forall|j: int| run <= j < i ==> !is_special(#[trigger] bytes[j]),
            encode_utf8(out@) == encode_utf8(out0) + escape_bytes(bytes.subrange(0, run as int)),
        decreases n - i,
    {
        let c: u8 = b[i];
        if c == 34 || c == 92 || c < 32 {
            proof {
                is_char_boundary_iff_not_is_continuation_byte(bytes, i as int);
                lemma_escape_flush(bytes, run as int, i as int);
            }
            let piece = substr(s, run, i);
            push_str(out, piece);
            proof {
                assert(encode_utf8(out@) =~= encode_utf8(out0) + escape_bytes(
                    bytes.subrange(0, i as int),
                ));
            }
            if c == 34 {
                push_str(out, "\\\"");
            } else if c == 92 {
                push_str(out, "\\\\");
            } else if c == 8 {
                push_str(out, "\\b");
            } else if c == 9 {
                push_str(out, "\\t");
            } else if c == 10 {
                push_str(out, "\\n");
            } else if c == 12 {
                push_str(out, "\\f");
            } else if c == 13 {
                push_str(out, "\\r");
            } else {
                push_str(out, "\\u00");
                push_str(out, hex_digit_str(c / 16));
                push_str(out, hex_digit_str(c % 16));
                proof {
                    assert(encode_utf8(out@) =~= encode_utf8(out0) + escape_bytes(
                        bytes.subrange(0, i as int),
                    ) + esc_byte(c));
                }
            }
            proof {
                lemma_escape_snoc(bytes, i as int);
                assert(encode_utf8(out@) =~= encode_utf8(out0) + escape_bytes(
                    bytes.subrange(0, i as int + 1),
                ));
                lemma_cut_after_ascii(bytes, i as int);
            }
            i = i + 1;
            run = i;
        } else {
            i = i + 1;
        }
    }
    proof {
        lemma_escape_flush(bytes, run as int, n as int);
        assert(bytes.subrange(0, n as int) =~= bytes);
    }
    let piece = substr(s, run, n);
    push_str(out, piece);
    proof {
        assert(encode_utf8(out@) =~= encode_utf8(out0) + escape_bytes(bytes));
    }
}

/// The display rendering of the matched range at `s`: the rule name, the two
/// byte offsets, and, for a composite, the display of the children between
/// brackets, joined by `", "`.
pub open spec fn display_pair_bytes<R: RuleType>(
    q: Seq<QueueableToken<R>>,
    bytes: Seq<u8>,
    s: int,
) -> Seq<u8>
    decreases tok_end(q[s]) - s, 0int,
{
    if !(0 <= s && s < tok_end(q[s]) && tok_end(q[s]) < q.len()) {
        Seq::empty()
    } else {
        let e = tok_end(q[s]);
        let head = bytes_of(tok_rule(q[e]).name_spec()) + ("(").spec_bytes() + dec_bytes(
            tok_pos(q[s]),
        ) + (", ").spec_bytes() + dec_bytes(tok_pos(q[e]));
        if s + 1 == e {
            head + (")").spec_bytes()
        } else {
            head + (", [").spec_bytes() + display_children_bytes(q, bytes, s + 1, e) + (
            "])").spec_bytes()
        }
    }
}

/// The display renderings of the siblings in `[lo, hi)`, joined by `", "`.
pub open spec fn display_children_bytes<R: RuleType>(
    q: Seq<QueueableToken<R>>,
    bytes: Seq<u8>,
    lo: int,
    hi: int,
) -> Seq<u8>
    decreases hi - lo, 1int,
{
    if !(0 <= lo && lo < hi && hi <= q.len() && lo < tok_end(q[lo]) && tok_end(q[lo]) < hi) {
        Seq::empty()
    } else {
        let e = tok_end(q[lo]);
        display_pair_bytes(q, bytes, lo) + (if e + 1 < hi {
            (", ").spec_bytes() + display_children_bytes(q, bytes, e + 1, hi)
        } else {
            Seq::empty()
        })
    }
}

/// The pretty-printed JSON rendering of the matched range at `s`, indented by
/// `indent`: an object with the fields `pos`, `rule` and `inner` in that
/// order; `inner` is the quoted matched text for a leaf and the rendering of
/// the child range for a composite.
pub open spec fn json_pair_bytes<R: RuleType>(
    q: Seq<QueueableToken<R>>,
    bytes: Seq<u8>,
    s: int,
    indent: Seq<u8>,
) -> Seq<u8>
    decreases tok_end(q[s]) - s, 2int,
{
    if !(0 <= s && s < tok_end(q[s]) && tok_end(q[s]) < q.len()) {
        Seq::empty()
    } else {
        let e = tok_end(q[s]);
        let i1 = indent + ("  ").spec_bytes();
        let i2 = i1 + ("  ").spec_bytes();
        let head = ("{\n").spec_bytes() + i1 + ("\"pos\": [\n").spec_bytes() + i2 + dec_bytes(
            tok_pos(q[s]),
        ) + (",\n").spec_bytes() + i2 + dec_bytes(tok_pos(q[e])) + ("\n").spec_bytes() + i1 + (
        "],\n").spec_bytes() + i1 + ("\"rule\": \"").spec_bytes() + escape_bytes(
            bytes_of(tok_rule(q[e]).name_spec()),
        ) + ("\",\n").spec_bytes() + i1 + ("\"inner\": ").spec_bytes();
        let inner = if s + 1 == e {
            ("\"").spec_bytes() + escape_bytes(bytes.subrange(tok_pos(q[s]), tok_pos(q[e]))) + (
            "\"").spec_bytes()
        } else {
            json_pairs_bytes(q, bytes, s + 1, e, i1)
        };
        head + inner + ("\n").spec_bytes() + indent + ("}").spec_bytes()
    }
}

/// The pretty-printed JSON rendering of a sibling range, indented by
/// `indent`: an object with the fields `pos` (the offsets of the first and
/// last covered entries) and `pairs` (the renderings of the siblings).
pub open spec fn json_pairs_bytes<R: RuleType>(
    q: Seq<QueueableToken<R>>,
    bytes: Seq<u8>,
    lo: int,
    hi: int,
    indent: Seq<u8>,
) -> Seq<u8>
    decreases hi - lo, 3int,
{
    if !(0 <= lo && lo < hi && hi <= q.len()) {
        Seq::empty()
    } else {
        let i1 = indent + ("  ").spec_bytes();
        let i2 = i1 + ("  ").spec_bytes();
        ("{\n").spec_bytes() + i1 + ("\"pos\": [\n").spec_bytes() + i2 + dec_bytes(tok_pos(q[lo]))
            + (",\n").spec_bytes() + i2 + dec_bytes(tok_pos(q[hi - 1])) + ("\n").spec_bytes() + i1
            + ("],\n").spec_bytes() + i1 + ("\"pairs\": [\n").spec_bytes() + i2
            + json_children_bytes(q, bytes, lo, hi, i2) + ("\n").spec_bytes() + i1 + (
        "]\n").spec_bytes() + indent + ("}").spec_bytes()
    }
}

/// The JSON renderings of the siblings in `[lo, hi)`, one per line, each
/// (but the first) preceded by `indent`.
pub open spec fn json_children_bytes<R: RuleType>(
    q: Seq<QueueableToken<R>>,
    bytes: Seq<u8>,
    lo: int,
    hi: int,
    indent: Seq<u8>,
) -> Seq<u8>
    decreases hi - lo, 1int,
{
    if !(0 <= lo && lo < hi && hi <= q.len() && lo < tok_end(q[lo]) && tok_end(q[lo]) < hi) {
        Seq::empty()
    } else {
        let e = tok_end(q[lo]);
        json_pair_bytes(q, bytes, lo, indent) + (if e + 1 < hi {
            (",\n").spec_bytes() + indent + json_children_bytes(q, bytes, e + 1, hi, indent)
        } else {
            Seq::empty()
        })
    }
}

/// The index of the matching `End` of the `Start` entry at `s`.
fn entry_end<R: RuleType>(q: &Vec<QueueableToken<R>>, s: usize) -> (r: usize)
    requires
        s < q@.len(),
        is_start(q@[s as int]),
    ensures
        r == tok_end(q@[s as int]),
{
    match q[s] {
        QueueableToken::Start { end_token_index, .. } => end_token_index,
        QueueableToken::End { .. } => unreached(),
    }
}

/// The byte offset recorded by the entry at `i`.
fn entry_pos<R: RuleType>(q: &Vec<QueueableToken<R>>, i: usize) -> (r: usize)
    requires
        i < q@.len(),
    ensures
        r == tok_pos(q@[i as int]),
{
    match q[i] {
        QueueableToken::Start { input_pos, .. } => input_pos,
        QueueableToken::End { input_pos, .. } => input_pos,
    }
}

/// The rule recorded by the `End` entry at `i`.
fn entry_rule<R: RuleType>(q: &Vec<QueueableToken<R>>, i: usize) -> (r: R)
    requires
        i < q@.len(),
        !is_start(q@[i as int]),
    ensures
        r == tok_rule(q@[i as int]),
{
    match q[i] {
        QueueableToken::End { rule, .. } => rule,
        QueueableToken::Start { .. } => unreached(),
    }
}

/// Appends the display rendering of the pair at `s`.
fn write_display_pair<R: RuleType>(
    out: &mut String,
    q: &Vec<QueueableToken<R>>,
    input: &Arc<String>,
    s: usize,
)
    requires
        queue_wf(q@, bytes_of(input@)),
        s < q@.len(),
        is_start(q@[s as int]),
    ensures
        encode_utf8(final(out)@) == encode_utf8(old(out)@) + display_pair_bytes(
            q@,
            bytes_of(input@),
            s as int,
        ),
    decreases tok_end(q@[s as int]) - s, 0int,
{
    let ghost bytes = bytes_of(input@);
    let e = entry_end(q, s);
    let rule = entry_rule(q, e);
    let name = rule.name();
    push_str(out, name.as_str());
    push_str(out, "(");
    push_dec(out, entry_pos(q, s));
    push_str(out, ", ");
    push_dec(out, entry_pos(q, e));
    if e == s + 1 {
        push_str(out, ")");
    } else {
        push_str(out, ", [");
        proof {
            lemma_inner_matched(q@, bytes, s as int);
        }
        write_display_children(out, q, input, s + 1, e);
        push_str(out, "])");
    }
    proof {
        assert(encode_utf8(out@) =~= encode_utf8(old(out)@) + display_pair_bytes(
            q@,
            bytes,
            s as int,
        ));
    }
}

/// Appends the display renderings of the siblings in `[lo, hi)`.
fn write_display_children<R: RuleType>(
    out: &mut String,
    q: &Vec<QueueableToken<R>>,
    input: &Arc<String>,
    lo: usize,
    hi: usize,
)
    requires
        queue_wf(q@, bytes_of(input@)),
        matched_in(q@, lo as int, hi as int),
        lo < hi,
    ensures
        encode_utf8(final(out)@) == encode_utf8(old(out)@) + display_children_bytes(
            q@,
            bytes_of(input@),
            lo as int,
            hi as int,
        ),
    decreases hi - lo, 1int,
{
    let ghost bytes = bytes_of(input@);
    proof {
        lemma_matched_step(q@, bytes, lo as int, hi as int);
    }
    write_display_pair(out, q, input, lo);
    let e = entry_end(q, lo);
    if e + 1 < hi {
        push_str(out, ", ");
        write_display_children(out, q, input, e + 1, hi);
    }
    proof {
        assert(encode_utf8(out@) =~= encode_utf8(old(out)@) + display_children_bytes(
            q@,
            bytes,
            lo as int,
            hi as int,
        ));
    }
}

/// Rebrackets one appended piece onto the accumulated rendering.
proof fn lemma_append_assoc(base: Seq<u8>, acc: Seq<u8>, piece: Seq<u8>)
    ensures
        (base + acc) + piece == base + (acc + piece),
{
    assert((base + acc) + piece =~= base + (acc + piece));
}

/// Appends the JSON rendering of the pair at `s`, indented by `ind`.
fn write_json_pair<R: RuleType>(
    out: &mut String,
    q: &Vec<QueueableToken<R>>,
    input: &Arc<String>,
    s: usize,
    ind: &String,
)
    requires
        queue_wf(q@, bytes_of(input@)),
        s < q@.len(),
        is_start(q@[s as int]),
    ensures
        encode_utf8(final(out)@) == encode_utf8(old(out)@) + json_pair_bytes(
            q@,
            bytes_of(input@),
            s as int,
            encode_utf8(ind@),
        ),
    decreases tok_end(q@[s as int]) - s, 2int,
{
    let ghost bytes = bytes_of(input@);
    let ghost base = encode_utf8(old(out)@);
    let ghost mut acc: Seq<u8> = Seq::empty();
    proof {
        assert(base + acc =~= base);
    }
    let e = entry_end(q, s);
    let mut i1 = ind.clone();
    i1.append("  ");
    let mut i2 = i1.clone();
    i2.append("  ");
    proof {
        lemma_encode_concat(ind@, "  "@);
        lemma_encode_concat(i1@, "  "@);
    }
    push_str(out, "{\n");
    proof {
        lemma_append_assoc(base, acc, ("{\n").spec_bytes());
        acc = acc + ("{\n").spec_bytes();
    }
    push_str(out, i1.as_str());
    proof {
        lemma_append_assoc(base, acc, encode_utf8(i1@));
        acc = acc + encode_utf8(i1@);
    }
    push_str(out, "\"pos\": [\n");
    proof {
        lemma_append_assoc(base, acc, ("\"pos\": [\n").spec_bytes());
        acc = acc + ("\"pos\": [\n").spec_bytes();
    }
    push_str(out, i2.as_str());
    proof {
        lemma_append_assoc(base, acc, encode_utf8(i2@));
        acc = acc + encode_utf8(i2@);
    }
    let sp = entry_pos(q, s);
    push_dec(out, sp);
    proof {
        lemma_append_assoc(base, acc, dec_bytes(sp as int));
        acc = acc + dec_bytes(sp as int);
    }
    push_str(out, ",\n");
    proof {
        lemma_append_assoc(base, acc, (",\n").spec_bytes());
        acc = acc + (",\n").spec_bytes();
    }
    push_str(out, i2.as_str());
    proof {
        lemma_append_assoc(base, acc, encode_utf8(i2@));
        acc = acc + encode_utf8(i2@);
    }
    let ep = entry_pos(q, e);
    push_dec(out, ep);
    proof {
        lemma_append_assoc(base, acc, dec_bytes(ep as int));
        acc = acc + dec_bytes(ep as int);
    }
    push_str(out, "\n");
    proof {
        lemma_append_assoc(base, acc, ("\n").spec_bytes());
        acc = acc + ("\n").spec_bytes();
    }
    push_str(out, i1.as_str());
    proof {
        lemma_append_assoc(base, acc, encode_utf8(i1@));
        acc = acc + encode_utf8(i1@);
    }
    push_str(out, "],\n");
    proof {
        lemma_append_assoc(base, acc, ("],\n").spec_bytes());
        acc = acc + ("],\n").spec_bytes();
    }
    push_str(out, i1.as_str());
    proof {
        lemma_append_assoc(base, acc, encode_utf8(i1@));
        acc = acc + encode_utf8(i1@);
    }
    push_str(out, "\"rule\": \"");
    proof {
        lemma_append_assoc(base, acc, ("\"rule\": \"").spec_bytes());
        acc = acc + ("\"rule\": \"").spec_bytes();
    }
    let rule = entry_rule(q, e);
    let name = rule.name();
    push_escaped(out, name.as_str());
    proof {
        lemma_append_assoc(base, acc, escape_bytes(encode_utf8(name@)));
        acc = acc + escape_bytes(encode_utf8(name@));
    }
    push_str(out, "\",\n");
    proof {
        lemma_append_assoc(base, acc, ("\",\n").spec_bytes());
        acc = acc + ("\",\n").spec_bytes();
    }
    push_str(out, i1.as_str());
    proof {
        lemma_append_assoc(base, acc, encode_utf8(i1@));
        acc = acc + encode_utf8(i1@);
    }
    push_str(out, "\"inner\": ");
    proof {
        lemma_append_assoc(base, acc, ("\"inner\": ").spec_bytes());
        acc = acc + ("\"inner\": ").spec_bytes();
    }
    if e == s + 1 {
        push_str(out, "\"");
        proof {
            lemma_append_assoc(base, acc, ("\"").spec_bytes());
            acc = acc + ("\"").spec_bytes();
        }
        let text = substr(input.as_str(), sp, ep);
        push_escaped(out, text);
        proof {
            lemma_append_assoc(base, acc, escape_bytes(text.spec_bytes()));
            acc = acc + escape_bytes(text.spec_bytes());
        }
        push_str(out, "\"");
        proof {
            lemma_append_assoc(base, acc, ("\"").spec_bytes());
            acc = acc + ("\"").spec_bytes();
        }
    } else {
        proof {
            lemma_inner_matched(q@, bytes, s as int);
        }
        write_json_pairs(out, q, input, s + 1, e, &i1);
        proof {
            let piece = json_pairs_bytes(q@, bytes, s as int + 1, e as int, encode_utf8(i1@));
            lemma_append_assoc(base, acc, piece);
            acc = acc + piece;
        }
    }
    push_str(out, "\n");
    proof {
        lemma_append_assoc(base, acc, ("\n").spec_bytes());
        acc = acc + ("\n").spec_bytes();
    }
    push_str(out, ind.as_str());
    proof {
        lemma_append_assoc(base, acc, encode_utf8(ind@));
        acc = acc + encode_utf8(ind@);
    }
    push_str(out, "}");
    proof {
        lemma_append_assoc(base, acc, ("}").spec_bytes());
        acc = acc + ("}").spec_bytes();
        assert(acc == json_pair_bytes(q@, bytes, s as int, encode_utf8(ind@)));
    }
}

/// Appends the JSON rendering of the sibling range `[lo, hi)`, indented by
/// `ind`.
fn write_json_pairs<R: RuleType>(
    out: &mut String,
    q: &Vec<QueueableToken<R>>,
    input: &Arc<String>,
    lo: usize,
    hi: usize,
    ind: &String,
)
    requires
        queue_wf(q@, bytes_of(input@)),
        matched_in(q@, lo as int, hi as int),
        lo < hi,
    ensures
        encode_utf8(final(out)@) == encode_utf8(old(out)@) + json_pairs_bytes(
            q@,
            bytes_of(input@),
            lo as int,
            hi as int,
            encode_utf8(ind@),
        ),
    decreases hi - lo, 3int,
{
    let ghost bytes = bytes_of(input@);
    let ghost base = encode_utf8(old(out)@);
    let ghost mut acc: Seq<u8> = Seq::empty();
    proof {
        assert(base + acc =~= base);
    }
    let mut i1 = ind.clone();
    i1.append("  ");
    let mut i2 = i1.clone();
    i2.append("  ");
    proof {
        lemma_encode_concat(ind@, "  "@);
        lemma_encode_concat(i1@, "  "@);
    }
    push_str(out, "{\n");
    proof {
        lemma_append_assoc(base, acc, ("{\n").spec_bytes());
        acc = acc + ("{\n").spec_bytes();
    }
    push_str(out, i1.as_str());
    proof {
        lemma_append_assoc(base, acc, encode_utf8(i1@));
        acc = acc + encode_utf8(i1@);
    }
    push_str(out, "\"pos\": [\n");
    proof {
        lemma_append_assoc(base, acc, ("\"pos\": [\n").spec_bytes());
        acc = acc + ("\"pos\": [\n").spec_bytes();
    }
    push_str(out, i2.as_str());
    proof {
        lemma_append_assoc(base, acc, encode_utf8(i2@));
        acc = acc + encode_utf8(i2@);
    }
    let lp = entry_pos(q, lo);
    push_dec(out, lp);
    proof {
        lemma_append_assoc(base, acc, dec_bytes(lp as int));
        acc = acc + dec_bytes(lp as int);
    }
    push_str(out, ",\n");
    proof {
        lemma_append_assoc(base, acc, (",\n").spec_bytes());
        acc = acc + (",\n").spec_bytes();
    }
    push_str(out, i2.as_str());
    proof {
        lemma_append_assoc(base, acc, encode_utf8(i2@));
        acc = acc + encode_utf8(i2@);
    }
    let hp = entry_pos(q, hi - 1);
    push_dec(out, hp);
    proof {
        lemma_append_assoc(base, acc, dec_bytes(hp as int));
        acc = acc + dec_bytes(hp as int);
    }
    push_str(out, "\n");
    proof {
        lemma_append_assoc(base, acc, ("\n").spec_bytes());
        acc = acc + ("\n").spec_bytes();
    }
    push_str(out, i1.as_str());
    proof {
        lemma_append_assoc(base, acc, encode_utf8(i1@));
        acc = acc + encode_utf8(i1@);
    }
    push_str(out, "],\n");
    proof {
        lemma_append_assoc(base, acc, ("],\n").spec_bytes());
        acc = acc + ("],\n").spec_bytes();
    }
    push_str(out, i1.as_str());
    proof {
        lemma_append_assoc(base, acc, encode_utf8(i1@));
        acc = acc + encode_utf8(i1@);
    }
    push_str(out, "\"pairs\": [\n");
    proof {
        lemma_append_assoc(base, acc, ("\"pairs\": [\n").spec_bytes());
        acc = acc + ("\"pairs\": [\n").spec_bytes();
    }
    push_str(out, i2.as_str());
    proof {
        lemma_append_assoc(base, acc, encode_utf8(i2@));
        acc = acc + encode_utf8(i2@);
    }
    write_json_children(out, q, input, lo, hi, &i2);
    proof {
        let piece = json_children_bytes(q@, bytes, lo as int, hi as int, encode_utf8(i2@));
        lemma_append_assoc(base, acc, piece);
        acc = acc + piece;
    }
    push_str(out, "\n");
    proof {
        lemma_append_assoc(base, acc, ("\n").spec_bytes());
        acc = acc + ("\n").spec_bytes();
    }
    push_str(out, i1.as_str());
    proof {
        lemma_append_assoc(base, acc, encode_utf8(i1@));
        acc = acc + encode_utf8(i1@);
    }
    push_str(out, "]\n");
    proof {
        lemma_append_assoc(base, acc, ("]\n").spec_bytes());
        acc = acc + ("]\n").spec_bytes();
    }
    push_str(out, ind.as_str());
    proof {
        lemma_append_assoc(base, acc, encode_utf8(ind@));
        acc = acc + encode_utf8(ind@);
    }
    push_str(out, "}");
    proof {
        lemma_append_assoc(base, acc, ("}").spec_bytes());
        acc = acc + ("}").spec_bytes();
        assert(acc == json_pairs_bytes(q@, bytes, lo as int, hi as int, encode_utf8(ind@)));
    }
}

/// Appends the JSON renderings of the siblings in `[lo, hi)`, joined by a
/// comma, a line break and `ind`.
fn write_json_children<R: RuleType>(
    out: &mut String,
    q: &Vec<QueueableToken<R>>,
    input: &Arc<String>,
    lo: usize,
    hi: usize,
    ind: &String,
)
    requires
        queue_wf(q@, bytes_of(input@)),
        matched_in(q@, lo as int, hi as int),
        lo < hi,
    ensures
        encode_utf8(final(out)@) == encode_utf8(old(out)@) + json_children_bytes(
            q@,
            bytes_of(input@),
            lo as int,
            hi as int,
            encode_utf8(ind@),
        ),
    decreases hi - lo, 1int,
{
    let ghost bytes = bytes_of(input@);
    let ghost base = encode_utf8(old(out)@);
    let ghost mut acc: Seq<u8> = Seq::empty();
    proof {
        assert(base + acc =~= base);
        lemma_matched_step(q@, bytes, lo as int, hi as int);
    }
    write_json_pair(out, q, input, lo, ind);
    proof {
        let piece = json_pair_bytes(q@, bytes, lo as int, encode_utf8(ind@));
        lemma_append_assoc(base, acc, piece);
        acc = acc + piece;
    }
    let e = entry_end(q, lo);
    let ghost rest: Seq<u8> = Seq::empty();
    if e + 1 < hi {
        let ghost tail0 = acc;
        push_str(out, ",\n");
        proof {
            lemma_append_assoc(base, acc, (",\n").spec_bytes());
            acc = acc + (",\n").spec_bytes();
        }
        push_str(out, ind.as_str());
        proof {
            lemma_append_assoc(base, acc, encode_utf8(ind@));
            acc = acc + encode_utf8(ind@);
        }
        write_json_children(out, q, input, e + 1, hi, ind);
        proof {
            let piece = json_children_bytes(q@, bytes, e as int + 1, hi as int, encode_utf8(ind@));
            lemma_append_assoc(base, acc, piece);
            acc = acc + piece;
            let joined = (",\n").spec_bytes() + encode_utf8(ind@) + piece;
            assert(acc =~= tail0 + joined);
            assert(acc == json_children_bytes(q@, bytes, lo as int, hi as int, encode_utf8(ind@)));
        }
    } else {
        proof {
            lemma_append_assoc(base, acc, rest);
            acc = acc + rest;
            assert(acc =~= json_pair_bytes(q@, bytes, lo as int, encode_utf8(ind@)) + Seq::<
                u8,
            >::empty());
            assert(acc == json_children_bytes(q@, bytes, lo as int, hi as int, encode_utf8(ind@)));
        }
    }
}

impl<R: RuleType> Pair<R> {
    /// Renders the pair as `Rule(start, end)` for a leaf, or
    /// `Rule(start, end, [child, child, ...])` recursively for a composite.
    pub fn to_string(&self) -> (r: String)
        requires
            self.wf(),
        ensures
            encode_utf8(r@) == display_pair_bytes(
                self.queue@,
                bytes_of(self.input@),
                self.start as int,
            ),
    {
        let mut out = String::new();
        write_display_pair(&mut out, &self.queue, &self.input, self.start);
        proof {
            assert(encode_utf8(out@) =~= display_pair_bytes(
                self.queue@,
                bytes_of(self.input@),
                self.start as int,
            ));
        }
        out
    }

    /// Renders the lexical information of the pair as pretty-printed JSON: an
    /// object with the fields `pos`, `rule` and `inner` in that order, nested
    /// composites rendered recursively.
    pub fn to_json(&self) -> (r: String)
        requires
            self.wf(),
        ensures
            encode_utf8(r@) == json_pair_bytes(
                self.queue@,
                bytes_of(self.input@),
                self.start as int,
                Seq::empty(),
            ),
    {
        let mut out = String::new();
        let ind = String::new();
        write_json_pair(&mut out, &self.queue, &self.input, self.start, &ind);
        proof {
            assert(encode_utf8(ind@) =~= Seq::<u8>::empty());
            assert(encode_utf8(out@) =~= json_pair_bytes(
                self.queue@,
                bytes_of(self.input@),
                self.start as int,
                Seq::empty(),
            ));
        }
        out
    }
}

} // verus!
