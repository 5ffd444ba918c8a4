//! The flat event log that the matching engine records.
//!
//! The log is an ordered sequence of `Start`/`End` markers forming a
//! well-nested bracket structure; a `Start` carries the index of its matching
//! `End`, which makes skipping a whole nested range a single jump. The engine
//! guarantees the invariants stated by [`queue_wf`]; this crate only reads the
//! log.

use vstd::prelude::*;

use crate::text::is_cut;

verus! {

/// The tag naming which grammar rule a matched range corresponds to. The
/// engine's users implement it for their grammar's rule type; `name` renders
/// the rule for display and serialization.
pub trait RuleType: Copy {
    /// The rendered name of the rule.
    spec fn name_spec(&self) -> Seq<char>;

    /// Returns the rule's name.
    fn name(&self) -> (r: String)
        ensures
            r@ == self.name_spec(),
    ;
}

/// One entry of the event log.
#[derive(Clone, Copy, Debug, PartialEq, Eq, Hash)]
pub enum QueueableToken<R> {
    /// Opens a rule match; `end_token_index` is the index of the matching
    /// `End` entry and `input_pos` the byte offset where the match begins.
    Start { end_token_index: usize, input_pos: usize },
    /// Closes the most recently opened unmatched `Start`; carries the rule of
    /// the whole range and the byte offset where the match ends.
    End { rule: R, input_pos: usize },
}

/// True when the entry is a `Start` marker.
pub open spec fn is_start<R>(t: QueueableToken<R>) -> bool {
    t is Start
}

/// The index of the matching `End` entry of a `Start` marker.
pub open spec fn tok_end<R>(t: QueueableToken<R>) -> int {
    match t {
        QueueableToken::Start { end_token_index, .. } => end_token_index as int,
        QueueableToken::End { .. } => 0,
    }
}

/// The byte offset an entry records.
pub open spec fn tok_pos<R>(t: QueueableToken<R>) -> int {
    match t {
        QueueableToken::Start { input_pos, .. } => input_pos as int,
        QueueableToken::End { input_pos, .. } => input_pos as int,
    }
}

/// The rule an `End` entry records.
pub open spec fn tok_rule<R>(t: QueueableToken<R>) -> R {
    match t {
        QueueableToken::Start { .. } => vstd::pervasive::arbitrary(),
        QueueableToken::End { rule, .. } => rule,
    }
}

/// The event log is well formed over the input bytes: every `Start` points
/// forward to an `End`, every `End` is pointed to by an earlier `Start`,
/// ranges are properly nested, and the recorded byte offsets are codepoint
/// boundaries in nondecreasing order.
pub open spec fn queue_wf<R>(q: Seq<QueueableToken<R>>, bytes: Seq<u8>) -> bool {
    &&& forall|i: int|
        0 <= i < q.len() && is_start(#[trigger] q[i]) ==> i < tok_end(q[i]) < q.len() && !is_start(
            q[tok_end(q[i])],
        )
    &&& forall|k: int|
        0 <= k < q.len() && !is_start(#[trigger] q[k]) ==> exists|i: int|
            0 <= i < k && is_start(#[trigger] q[i]) && tok_end(q[i]) == k
    &&& forall|i: int, j: int|
        0 <= i < j < q.len() && is_start(#[trigger] q[i]) && is_start(#[trigger] q[j]) && j
            < tok_end(q[i]) ==> tok_end(q[j]) < tok_end(q[i])
    &&& forall|i: int| 0 <= i < q.len() ==> is_cut(bytes, tok_pos(#[trigger] q[i]))
    &&& forall|i: int, j: int|
        0 <= i <= j < q.len() ==> tok_pos(#[trigger] q[i]) <= tok_pos(#[trigger] q[j])
}

/// Every entry in `[lo, hi)` is matched within `[lo, hi)`: starts close
/// before `hi`, and ends are opened at or after `lo`.
pub open spec fn matched_in<R>(q: Seq<QueueableToken<R>>, lo: int, hi: int) -> bool {
    &&& 0 <= lo <= hi <= q.len()
    &&& forall|i: int| lo <= i < hi && is_start(#[trigger] q[i]) ==> tok_end(q[i]) < hi
    &&& forall|k: int|
        lo <= k < hi && !is_start(#[trigger] q[k]) ==> exists|i: int|
            lo <= i < k && is_start(#[trigger] q[i]) && tok_end(q[i]) == k
}

/// A sibling range: either it is empty, or it begins with a `Start` whose
/// matching `End` either closes the range or is followed by another sibling
/// range.
pub open spec fn sib_ok<R>(q: Seq<QueueableToken<R>>, lo: int, hi: int) -> bool
    decreases hi - lo,
{
    if lo >= hi {
        true
    } else if !is_start(q[lo]) {
        false
    } else if tok_end(q[lo]) < lo || tok_end(q[lo]) + 1 >= hi {
        true
    } else {
        sib_ok(q, tok_end(q[lo]) + 1, hi)
    }
}

/// The `Start` indices of the siblings that make up the range `[lo, hi)`.
pub open spec fn sib_list<R>(q: Seq<QueueableToken<R>>, lo: int, hi: int) -> Seq<int>
    recommends
        sib_ok(q, lo, hi),
    decreases hi - lo,
{
    if lo >= hi || !is_start(q[lo]) {
        Seq::empty()
    } else if tok_end(q[lo]) < lo || tok_end(q[lo]) + 1 >= hi {
        seq![lo]
    } else {
        seq![lo] + sib_list(q, tok_end(q[lo]) + 1, hi)
    }
}

/// The number of `Start` entries in `[lo, hi)`, which is the number of
/// matches that begin there.
pub open spec fn start_count<R>(q: Seq<QueueableToken<R>>, lo: int, hi: int) -> int
    decreases hi - lo,
{
    if lo >= hi {
        0
    } else {
        (if is_start(q[lo]) {
            1int
        } else {
            0int
        }) + start_count(q, lo + 1, hi)
    }
}

/// `start_count` adds up over adjacent ranges.
pub proof fn lemma_start_count_split<R>(q: Seq<QueueableToken<R>>, lo: int, mid: int, hi: int)
    requires
        lo <= mid <= hi,
    ensures
        start_count(q, lo, hi) == start_count(q, lo, mid) + start_count(q, mid, hi),
    decreases mid - lo,
{
    if lo < mid {
        lemma_start_count_split(q, lo + 1, mid, hi);
    }
}

/// Strictly between a `Start` and its matching `End`, every entry is matched
/// within that inside range.
pub proof fn lemma_inner_matched<R>(q: Seq<QueueableToken<R>>, bytes: Seq<u8>, s: int)
    requires
        queue_wf(q, bytes),
        0 <= s < q.len(),
        is_start(q[s]),
    ensures
        matched_in(q, s + 1, tok_end(q[s])),
{
    let e = tok_end(q[s]);
    assert forall|k: int| s + 1 <= k < e && !is_start(q[k]) implies exists|i: int|
        s + 1 <= i < k && is_start(#[trigger] q[i]) && tok_end(q[i]) == k by {
        let i = choose|i: int| 0 <= i < k && is_start(#[trigger] q[i]) && tok_end(q[i]) == k;
        if i < s {
            assert(tok_end(q[s]) < tok_end(q[i]));
            assert(false);
        } else if i == s {
            assert(false);
        }
        assert(s + 1 <= i < k && is_start(q[i]) && tok_end(q[i]) == k);
    }
}

/// Stepping over the first sibling of a matched range leaves a matched range.
pub proof fn lemma_matched_step<R>(q: Seq<QueueableToken<R>>, bytes: Seq<u8>, lo: int, hi: int)
    requires
        queue_wf(q, bytes),
        matched_in(q, lo, hi),
        lo < hi,
    ensures
        is_start(q[lo]),
        lo < tok_end(q[lo]) < hi,
        matched_in(q, tok_end(q[lo]) + 1, hi),
{
    assert(is_start(q[lo]));
    let e = tok_end(q[lo]);
    assert forall|k: int| e + 1 <= k < hi && !is_start(q[k]) implies exists|i: int|
        e + 1 <= i < k && is_start(#[trigger] q[i]) && tok_end(q[i]) == k by {
        let i = choose|i: int| lo <= i < k && is_start(#[trigger] q[i]) && tok_end(q[i]) == k;
        if i == lo {
            assert(false);
        } else if i < e {
            assert(tok_end(q[i]) < tok_end(q[lo]));
            assert(false);
        } else if i == e {
            assert(!is_start(q[e]));
            assert(false);
        }
        assert(e + 1 <= i < k && is_start(q[i]) && tok_end(q[i]) == k);
    }
}

/// A matched range is a valid sibling range.
pub proof fn lemma_matched_sib_ok<R>(q: Seq<QueueableToken<R>>, bytes: Seq<u8>, lo: int, hi: int)
    requires
        queue_wf(q, bytes),
        matched_in(q, lo, hi),
    ensures
        sib_ok(q, lo, hi),
    decreases hi - lo,
{
    if lo < hi {
        lemma_matched_step(q, bytes, lo, hi);
        if tok_end(q[lo]) + 1 < hi {
            lemma_matched_sib_ok(q, bytes, tok_end(q[lo]) + 1, hi);
        }
    }
}

/// Law: a matched range consists of one `Start` and one `End` for each match
/// that begins in it — its width is exactly twice its match count.
pub proof fn lemma_matched_range_size<R>(q: Seq<QueueableToken<R>>, bytes: Seq<u8>, lo: int, hi: int)
    requires
        queue_wf(q, bytes),
        matched_in(q, lo, hi),
    ensures
        hi - lo == 2 * start_count(q, lo, hi),
    decreases hi - lo,
{
    if lo < hi {
        lemma_matched_step(q, bytes, lo, hi);
        let e = tok_end(q[lo]);
        lemma_inner_matched(q, bytes, lo);
        lemma_matched_range_size(q, bytes, lo + 1, e);
        lemma_matched_range_size(q, bytes, e + 1, hi);
        lemma_start_count_split(q, lo + 1, e, hi);
        assert(!is_start(q[e]));
        assert(start_count(q, e, hi) == start_count(q, e + 1, hi));
    }
}

} // verus!
