//! A view of one matched rule range over the event log and the input text.

use std::rc::Rc;
use std::sync::Arc;
use vstd::pervasive::unreached;
use vstd::prelude::*;
use vstd::string::StringSliceAdditionalSpecFns;

use crate::pairs::Pairs;
use crate::span::Span;
use crate::text::{bytes_of, clone_shared, clone_text, same_shared, same_text, substr};
use crate::token::{
    is_start, lemma_inner_matched, lemma_matched_range_size, lemma_matched_sib_ok, queue_wf,
    start_count, tok_end, tok_pos, tok_rule, QueueableToken, RuleType,
};
use crate::tokens::Tokens;

verus! {

/// A matching pair of `Start`/`End` markers and everything between them,
/// identified by the shared event log, the shared input text, and the index
/// of the `Start` entry.
#[derive(Clone, Debug, Hash)]
pub struct Pair<R> {
    pub queue: Rc<Vec<QueueableToken<R>>>,
    pub input: Arc<String>,
    /// Token index into `queue`.
    pub start: usize,
}

/// Creates the view of the matched range opened by the `Start` entry at
/// `start`. The matching engine guarantees the log invariants that
/// [`Pair::wf`] states.
pub fn new<R: RuleType>(queue: Rc<Vec<QueueableToken<R>>>, input: Arc<String>, start: usize) -> (r:
    Pair<R>)
    requires
        queue_wf(queue@, bytes_of(input@)),
        start < queue@.len(),
        is_start(queue@[start as int]),
    ensures
        r.queue == queue,
        r.input == input,
        r.start == start,
        r.wf(),
{
    Pair { queue, input, start }
}

impl<R: RuleType> Pair<R> {
    /// The log is well formed and `start` indexes a `Start` entry.
    pub open spec fn wf(&self) -> bool {
        &&& queue_wf(self.queue@, bytes_of(self.input@))
        &&& self.start < self.queue@.len()
        &&& is_start(self.queue@[self.start as int])
    }

    /// The index of the matching `End` entry.
    pub open spec fn end_index(&self) -> int {
        tok_end(self.queue@[self.start as int])
    }

    /// The byte offset where the matched range begins.
    pub open spec fn start_offset(&self) -> int {
        tok_pos(self.queue@[self.start as int])
    }

    /// The byte offset where the matched range ends.
    pub open spec fn end_offset(&self) -> int {
        tok_pos(self.queue@[self.end_index()])
    }

    /// The rule recorded for the matched range.
    pub open spec fn rule_spec(&self) -> R {
        tok_rule(self.queue@[self.end_index()])
    }

    /// The index of the matching `End` entry.
    pub(crate) fn pair(&self) -> (r: usize)
        requires
            self.wf(),
        ensures
            r == self.end_index(),
            self.start < r < self.queue@.len(),
            !is_start(self.queue@[r as int]),
    {
        match self.queue[self.start] {
            QueueableToken::Start { end_token_index, .. } => end_token_index,
            QueueableToken::End { .. } => unreached(),
        }
    }

    /// The byte offset recorded by the entry at `index`.
    pub(crate) fn pos(&self, index: usize) -> (r: usize)
        requires
            self.wf(),
            index < self.queue@.len(),
        ensures
            r == tok_pos(self.queue@[index as int]),
    {
        match self.queue[index] {
            QueueableToken::Start { input_pos, .. } => input_pos,
            QueueableToken::End { input_pos, .. } => input_pos,
        }
    }

    /// Returns the rule of the pair, read from the matching `End` entry.
    pub fn as_rule(&self) -> (r: R)
        requires
            self.wf(),
        ensures
            r == self.rule_spec(),
    {
        match self.queue[self.pair()] {
            QueueableToken::End { rule, .. } => rule,
            QueueableToken::Start { .. } => unreached(),
        }
    }

    /// Captures the slice of the input text between the byte offsets of the
    /// `Start` and its matching `End`.
    pub fn as_str(&self) -> (r: &str)
        requires
            self.wf(),
        ensures
            r.spec_bytes() == bytes_of(self.input@).subrange(
                self.start_offset(),
                self.end_offset(),
            ),
    {
        let start = self.pos(self.start);
        let end = self.pos(self.pair());
        substr(self.input.as_str(), start, end)
    }

    /// Returns the `Span` defined by the `Pair`, consuming it.
    pub fn into_span(self) -> (r: Span)
        requires
            self.wf(),
        ensures
            r.input@ == self.input@,
            r.start == self.start_offset(),
            r.end == self.end_offset(),
            r.wf(),
    {
        self.as_span()
    }

    /// Returns the `Span` defined by the `Pair`, without consuming it.
    pub fn as_span(&self) -> (r: Span)
        requires
            self.wf(),
        ensures
            r.input@ == self.input@,
            r.start == self.start_offset(),
            r.end == self.end_offset(),
            r.wf(),
    {
        let start = self.pos(self.start);
        let end = self.pos(self.pair());
        Span::new_unchecked(clone_text(&self.input), start, end)
    }

    /// Returns the sibling views strictly between this pair's `Start` and
    /// `End` — its direct children — consuming the pair.
    pub fn into_inner(self) -> (r: Pairs<R>)
        requires
            self.wf(),
        ensures
            r.queue == self.queue,
            r.input == self.input,
            r.start == self.start + 1,
            r.end == self.end_index(),
            r.wf(),
    {
        let pair = self.pair();
        proof {
            lemma_inner_matched(self.queue@, bytes_of(self.input@), self.start as int);
            lemma_matched_sib_ok(
                self.queue@,
                bytes_of(self.input@),
                self.start as int + 1,
                self.end_index(),
            );
        }
        Pairs { queue: self.queue, input: self.input, start: self.start + 1, end: pair }
    }

    /// Returns the flat marker sequence of the pair, both boundary markers
    /// included, consuming the pair.
    pub fn tokens(self) -> (r: Tokens<R>)
        requires
            self.wf(),
        ensures
            r.queue == self.queue,
            r.input == self.input,
            r.start == self.start,
            r.end == self.end_index() + 1,
            r.wf(),
    {
        let end = self.pair();
        // the log's length fits in usize, so `end + 1` cannot overflow
        let _len: usize = self.queue.len();
        Tokens { queue: self.queue, input: self.input, start: self.start, end: end + 1 }
    }
}

impl<R: PartialEq> PartialEq for Pair<R> {
    /// Pairs are equal only when they share the same event log and the same
    /// input text by identity, and view the same `Start` index. Two pairs
    /// from independent parse runs are never equal, even over identical
    /// content.
    fn eq(&self, other: &Pair<R>) -> bool {
        same_shared(&self.queue, &other.queue) && same_text(&self.input, &other.input)
            && self.start == other.start
    }
}

impl<R: Eq> Eq for Pair<R> {

}

impl<R: PartialEq> vstd::std_specs::cmp::PartialEqSpecImpl for Pair<R> {
    open spec fn obeys_eq_spec() -> bool {
        false
    }

    open spec fn eq_spec(&self, other: &Pair<R>) -> bool {
        self.queue@ == other.queue@ && self.input@ == other.input@ && self.start == other.start
    }
}

/// Law: the span of a pair captures exactly the pair's text — `as_span`
/// followed by `Span::as_str` yields the same bytes as `Pair::as_str`.
pub proof fn lemma_as_span_as_str<R: RuleType>(p: Pair<R>, sp: Span)
    requires
        p.wf(),
        sp.input@ == p.input@,
        sp.start == p.start_offset(),
        sp.end == p.end_offset(),
    ensures
        bytes_of(sp.input@).subrange(sp.start as int, sp.end as int) == bytes_of(
            p.input@,
        ).subrange(p.start_offset(), p.end_offset()),
{
}

/// Law: flattening the inside of a matched range yields one `Start` and one
/// `End` marker for each match it contains, directly or nested — the token
/// count of `into_inner` is twice that match count.
pub proof fn lemma_inner_token_count<R: RuleType>(p: Pair<R>)
    requires
        p.wf(),
    ensures
        p.end_index() - (p.start + 1) == 2 * start_count(
            p.queue@,
            p.start as int + 1,
            p.end_index(),
        ),
{
    lemma_inner_matched(p.queue@, bytes_of(p.input@), p.start as int);
    lemma_matched_range_size(
        p.queue@,
        bytes_of(p.input@),
        p.start as int + 1,
        p.end_index(),
    );
}

} // verus!
