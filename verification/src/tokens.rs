//! The flat marker cursor: every raw `Start`/`End` entry of a log range in
//! order, oblivious to nesting.

use std::rc::Rc;
use std::sync::Arc;
use vstd::prelude::*;

use crate::text::bytes_of;
use crate::token::{queue_wf, QueueableToken, RuleType};

verus! {

/// A cursor over the raw log entries in `[start, end)`.
#[derive(Clone, Debug)]
pub struct Tokens<R> {
    pub queue: Rc<Vec<QueueableToken<R>>>,
    pub input: Arc<String>,
    pub start: usize,
    pub end: usize,
}

impl<R: RuleType> Tokens<R> {
    /// The log is well formed and the range lies inside it.
    pub open spec fn wf(&self) -> bool {
        &&& queue_wf(self.queue@, bytes_of(self.input@))
        &&& self.start <= self.queue@.len()
        &&& self.end <= self.queue@.len()
    }

    /// The number of entries the cursor still covers.
    pub open spec fn remaining(&self) -> int {
        if self.start <= self.end {
            self.end - self.start
        } else {
            0
        }
    }

    /// Yields the next raw entry, or `None` when the range is exhausted.
    pub fn next(&mut self) -> (r: Option<QueueableToken<R>>)
        requires
            old(self).wf(),
        ensures
            final(self).wf(),
            final(self).queue == old(self).queue,
            final(self).input == old(self).input,
            final(self).end == old(self).end,
            old(self).remaining() == 0 ==> r is None && *final(self) == *old(self),
            old(self).remaining() > 0 ==> {
                &&& r == Some(old(self).queue@[old(self).start as int])
                &&& final(self).start == old(self).start + 1
                &&& final(self).remaining() == old(self).remaining() - 1
            },
    {
        if self.start < self.end {
            let t = self.queue[self.start];
            self.start = self.start + 1;
            Some(t)
        } else {
            None
        }
    }

    /// The number of entries in the range, consuming the cursor.
    pub fn count(self) -> (r: usize)
        requires
            self.wf(),
        ensures
            r == self.remaining(),
    {
        if self.start < self.end {
            self.end - self.start
        } else {
            0
        }
    }
}

} // verus!
