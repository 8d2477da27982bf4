//! The Work Queue and the Scheduler.
//!
//! The scheduler is the coordination core of the scanner. It owns the queue
//! of discovered-but-not-yet-scanned directories, the count of scan units in
//! flight, the running directory count and the aggregate result. Its
//! well-formedness — preserved by every operation — says that the number of
//! active scan units never exceeds the configured concurrency limit.
//!
//! The scheduler makes decisions only; it performs no filesystem work. The
//! surrounding execution environment spawns one scan unit per dispatched
//! task, reports each unit's completion (or its outright failure) back, and
//! keeps dispatching while the scheduler says there is capacity and work.
//! A failed unit contributes nothing, and the directory count already
//! attributed to it at dispatch is deliberately not rolled back.

use vstd::prelude::*;
use crate::processor::{empty_result, spec_merge, ScanResult};

verus! {

/// Directories discovered but not yet handed to a scan unit. Unbounded;
/// last-in-first-out, so traversal has a depth-first bias — the ordering
/// choice affects traversal shape only, never the outcome.
pub struct WorkQueue<T> {
    pub items: Vec<T>,
}

impl<T> View for WorkQueue<T> {
    type V = Seq<T>;

    open spec fn view(&self) -> Seq<T> {
        self.items@
    }
}

impl<T> WorkQueue<T> {
    /// An empty queue.
    pub fn new() -> (q: Self)
        ensures
            q@ == Seq::<T>::empty(),
    {
        let q = WorkQueue { items: Vec::new() };
        proof {
            assert(q@ =~= Seq::<T>::empty());
        }
        q
    }

    /// Add one pending task.
    pub fn push(&mut self, task: T)
        ensures
            final(self)@ == old(self)@.push(task),
    {
        self.items.push(task);
    }

    /// Take the most recently added task, or report the queue empty.
    pub fn pop(&mut self) -> (r: Option<T>)
        ensures
            old(self)@.len() == 0 ==> r is None && final(self)@ == old(self)@,
            old(self)@.len() > 0 ==> r == Some(old(self)@.last()) && final(self)@ == old(
                self,
            )@.drop_last(),
    {
        self.items.pop()
    }

    /// How many tasks are pending.
    pub fn len(&self) -> (n: usize)
        ensures
            n == self@.len(),
    {
        self.items.len()
    }
}

/// The scheduler's whole state: pending tasks, units in flight, the
/// directory count, and the aggregate folded so far.
pub struct Scheduler<T> {
    pub queue: WorkQueue<T>,
    pub active_count: usize,
    pub concurrency_limit: usize,
    pub dir_count: usize,
    pub aggregate: ScanResult,
}

impl<T> Scheduler<T> {
    /// The scheduler's invariant, preserved by every operation: at no point
    /// do more scan units run than the concurrency limit allows.
    pub open spec fn wf(&self) -> bool {
        &&& self.concurrency_limit >= 1
        &&& self.active_count <= self.concurrency_limit
        &&& self.aggregate.wf()
    }

    /// A scan unit may be started right now: there is spare capacity and a
    /// pending task.
    pub open spec fn spec_can_dispatch(&self) -> bool {
        self.active_count < self.concurrency_limit && self.queue@.len() > 0
    }

    /// All work — active and pending — has drained.
    pub open spec fn spec_is_done(&self) -> bool {
        self.active_count == 0 && self.queue@.len() == 0
    }

    /// A fresh scheduler: nothing dispatched, nothing pending, the empty
    /// aggregate.
    pub fn new(concurrency_limit: usize) -> (s: Self)
        requires
            concurrency_limit >= 1,
        ensures
            s.wf(),
            s.active_count == 0,
            s.dir_count == 0,
            s.concurrency_limit == concurrency_limit,
            s.queue@ == Seq::<T>::empty(),
            s.aggregate@ == empty_result(),
    {
        Scheduler {
            queue: WorkQueue::new(),
            active_count: 0,
            concurrency_limit,
            dir_count: 0,
            aggregate: ScanResult::default(),
        }
    }

    /// Account for the root directory's scan unit, started immediately and
    /// bypassing the queue: the root is the first dispatched directory.
    pub fn dispatch_root(&mut self)
        requires
            old(self).wf(),
            old(self).active_count == 0,
            old(self).dir_count == 0,
        ensures
            final(self).wf(),
            final(self).active_count == 1,
            final(self).dir_count == 1,
            final(self).concurrency_limit == old(self).concurrency_limit,
            final(self).queue@ == old(self).queue@,
            final(self).aggregate == old(self).aggregate,
    {
        self.active_count = 1;
        self.dir_count = 1;
    }

    /// Absorb one completed scan unit: its slot frees up, its partial result
    /// is merged into the aggregate, and the subdirectories it discovered
    /// join the queue. The directory count does not move — the completed
    /// unit's directory was counted when it was dispatched.
    pub fn on_unit_complete(&mut self, partial: ScanResult, subdirs: Vec<T>)
        requires
            old(self).wf(),
            old(self).active_count >= 1,
            partial.wf(),
            old(self).aggregate@.total_file_count + partial@.total_file_count <= usize::MAX,
            old(self).aggregate@.dicom_entries.len() + partial@.dicom_entries.len() <= usize::MAX,
        ensures
            final(self).wf(),
            final(self).active_count == old(self).active_count - 1,
            final(self).dir_count == old(self).dir_count,
            final(self).concurrency_limit == old(self).concurrency_limit,
            final(self).queue@ == old(self).queue@ + subdirs@,
            final(self).aggregate@ == spec_merge(old(self).aggregate@, partial@),
    {
        self.active_count = self.active_count - 1;
        self.aggregate.merge(partial);
        let mut discovered = subdirs;
        self.queue.items.append(&mut discovered);
    }

    /// Account for a scan unit whose execution context failed outright: the
    /// slot frees up, nothing is merged, nothing is discovered, and the
    /// directory count attributed at dispatch stays — a documented
    /// undercount of total-file accuracy under this failure mode.
    pub fn on_unit_failed(&mut self)
        requires
            old(self).wf(),
            old(self).active_count >= 1,
        ensures
            final(self).wf(),
            final(self).active_count == old(self).active_count - 1,
            final(self).dir_count == old(self).dir_count,
            final(self).concurrency_limit == old(self).concurrency_limit,
            final(self).queue@ == old(self).queue@,
            final(self).aggregate == old(self).aggregate,
    {
        self.active_count = self.active_count - 1;
    }

    /// Whether a pending task may be dispatched right now.
    pub fn can_dispatch(&self) -> (r: bool)
        ensures
            r == self.spec_can_dispatch(),
    {
        self.active_count < self.concurrency_limit && self.queue.len() > 0
    }

    /// Dispatch the next pending task: it leaves the queue, a unit slot is
    /// taken, and the directory count grows by one — dispatch is the one
    /// place a directory is ever counted.
    pub fn dispatch_next(&mut self) -> (task: T)
        requires
            old(self).wf(),
            old(self).spec_can_dispatch(),
            old(self).dir_count < usize::MAX,
        ensures
            final(self).wf(),
            task == old(self).queue@.last(),
            final(self).queue@ == old(self).queue@.drop_last(),
            final(self).active_count == old(self).active_count + 1,
            final(self).dir_count == old(self).dir_count + 1,
            final(self).concurrency_limit == old(self).concurrency_limit,
            final(self).aggregate == old(self).aggregate,
    {
        let task = self.queue.pop();
        self.active_count = self.active_count + 1;
        self.dir_count = self.dir_count + 1;
        task.unwrap()
    }

    /// Whether the scan has drained: no unit in flight, nothing pending.
    pub fn is_done(&self) -> (r: bool)
        ensures
            r == self.spec_is_done(),
    {
        self.active_count == 0 && self.queue.len() == 0
    }

    /// Hand out the final report once everything has drained: the aggregate
    /// of every completed unit and the count of dispatched directories.
    pub fn finish(self) -> (r: (ScanResult, usize))
        requires
            self.wf(),
            self.spec_is_done(),
        ensures
            r.0 == self.aggregate,
            r.1 == self.dir_count,
    {
        (self.aggregate, self.dir_count)
    }
}

} // verus!
