//! A sibling-level cursor over a contiguous sub-range of the event log.
//!
//! Advancing jumps from one `Start` entry directly past its matching `End`,
//! so a whole nested subtree is skipped in one step and traversal costs one
//! step per sibling, not one per log entry.

use std::rc::Rc;
use std::sync::Arc;
use vstd::prelude::*;

use crate::pair::Pair;
use crate::text::{bytes_of, clone_shared, clone_text};
use crate::token::{is_start, queue_wf, sib_list, sib_ok, tok_end, QueueableToken, RuleType};
use crate::tokens::Tokens;

verus! {

/// A cursor over the sibling matches inside the log range `[start, end)`.
#[derive(Clone, Debug)]
pub struct Pairs<R> {
    pub queue: Rc<Vec<QueueableToken<R>>>,
    pub input: Arc<String>,
    pub start: usize,
    pub end: usize,
}

/// Creates a sibling cursor over the log range `[start, end)`.
pub fn new<R: RuleType>(
    queue: Rc<Vec<QueueableToken<R>>>,
    input: Arc<String>,
    start: usize,
    end: usize,
) -> (r: Pairs<R>)
    requires
        queue_wf(queue@, bytes_of(input@)),
        start <= queue@.len(),
        end <= queue@.len(),
        sib_ok(queue@, start as int, end as int),
    ensures
        r.queue == queue,
        r.input == input,
        r.start == start,
        r.end == end,
        r.wf(),
{
    Pairs { queue, input, start, end }
}

impl<R: RuleType> Pairs<R> {
    /// The log is well formed and `[start, end)` is a sibling range.
    pub open spec fn wf(&self) -> bool {
        &&& queue_wf(self.queue@, bytes_of(self.input@))
        &&& self.start <= self.queue@.len()
        &&& self.end <= self.queue@.len()
        &&& sib_ok(self.queue@, self.start as int, self.end as int)
    }

    /// The `Start` indices of the siblings still ahead of the cursor.
    pub open spec fn children(&self) -> Seq<int> {
        sib_list(self.queue@, self.start as int, self.end as int)
    }

    /// Creates a `Pairs` containing just the single given `Pair`.
    pub fn single(pair: Pair<R>) -> (r: Pairs<R>)
        requires
            pair.wf(),
        ensures
            r.queue == pair.queue,
            r.input == pair.input,
            r.start == pair.start,
            r.end == pair.end_index(),
            r.wf(),
            r.children() == seq![pair.start as int],
    {
        let end = pair.pair();
        Pairs { queue: pair.queue, input: pair.input, start: pair.start, end }
    }

    /// Yields the next sibling and jumps past its whole nested range, or
    /// `None` when the range is exhausted.
    pub fn next(&mut self) -> (r: Option<Pair<R>>)
        requires
            old(self).wf(),
        ensures
            final(self).wf(),
            final(self).queue == old(self).queue,
            final(self).input == old(self).input,
            final(self).end == old(self).end,
            old(self).children().len() == 0 ==> r is None && *final(self) == *old(self),
            old(self).children().len() > 0 ==> {
                &&& r matches Some(p) && p.queue == old(self).queue && p.input == old(self).input
                    && p.start == old(self).children()[0] && p.wf()
                &&& final(self).children() == old(self).children().drop_first()
            },
    {
        if self.start < self.end {
            let pair = crate::pair::new(
                clone_shared(&self.queue),
                clone_text(&self.input),
                self.start,
            );
            let e = pair.pair();
            // the log's length fits in usize, so `e + 1` cannot overflow
            let _len: usize = self.queue.len();
            self.start = e + 1;
            proof {
                assert(final(self).children() =~= old(self).children().drop_first());
            }
            Some(pair)
        } else {
            None
        }
    }

    /// Looks at the next sibling without advancing.
    pub fn peek(&self) -> (r: Option<Pair<R>>)
        requires
            self.wf(),
        ensures
            self.children().len() == 0 ==> r is None,
            self.children().len() > 0 ==> {
                &&& r matches Some(p) && p.queue == self.queue && p.input == self.input
                    && p.start == self.children()[0] && p.wf()
            },
    {
        if self.start < self.end {
            Some(crate::pair::new(clone_shared(&self.queue), clone_text(&self.input), self.start))
        } else {
            None
        }
    }

    /// The flat marker sequence of the whole remaining range.
    pub fn tokens(self) -> (r: Tokens<R>)
        requires
            self.wf(),
        ensures
            r.queue == self.queue,
            r.input == self.input,
            r.start == self.start,
            r.end == self.end,
            r.wf(),
    {
        Tokens { queue: self.queue, input: self.input, start: self.start, end: self.end }
    }
}

} // verus!
