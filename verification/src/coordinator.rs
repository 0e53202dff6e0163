//! Sharing the index space among workers, and what one worker does next.
//!
//! The library decides; the caller acts. A worker is asked for its next
//! action, the caller writes the word with that index to the sink and
//! reports how the write went, and so on until the worker says stop. A
//! failed write stops its worker for good, and a caller that hands the news
//! to the other workers as a stop request stops them before their next
//! write.

use vstd::prelude::*;
use vstd::arithmetic::div_mod::{lemma_fundamental_div_mod, lemma_mod_bound};
use crate::error::GenError;

verus! {

/// Where the share of worker `k` begins when `total` indices are dealt out to
/// `workers` workers as evenly as can be, the first ones taking the
/// remainder.
pub open spec fn share_start(total: int, workers: int, k: int) -> int {
    let extra = total % workers;
    k * (total / workers) + if k < extra {
        k
    } else {
        extra
    }
}

/// The indices from `start` up to, not including, `end`.
#[derive(Clone, Copy, Debug, PartialEq, Eq)]
pub struct Slice {
    start: u128,
    end: u128,
}

impl Slice {
    #[verifier::type_invariant]
    spec fn well_formed(self) -> bool {
        self.start <= self.end
    }

    /// The first index of the slice.
    pub closed spec fn first(self) -> int {
        self.start as int
    }

    /// The index after the last one of the slice.
    pub closed spec fn limit(self) -> int {
        self.end as int
    }

    /// The first index of the slice.
    pub fn start(&self) -> (start: u128)
        ensures
            start == self.first(),
            self.first() <= self.limit(),
    {
        proof {
            use_type_invariant(self);
        }
        self.start
    }

    /// The index after the last one of the slice.
    pub fn end(&self) -> (end: u128)
        ensures
            end == self.limit(),
            self.first() <= self.limit(),
    {
        proof {
            use_type_invariant(self);
        }
        self.end
    }
}

/// The shares do not go down, start at 0 and end at `total`.
pub proof fn lemma_shares_ordered(total: int, workers: int, k: int)
    requires
        0 <= total,
        0 < workers,
        0 <= k < workers,
    ensures
        share_start(total, workers, 0) == 0,
        share_start(total, workers, workers) == total,
        0 <= share_start(total, workers, k) <= share_start(total, workers, k + 1) <= total,
        share_start(total, workers, k + 1) - share_start(total, workers, k) == total / workers + if k
            < total % workers {
            1int
        } else {
            0int
        },
{
    let base = total / workers;
    let extra = total % workers;
    lemma_fundamental_div_mod(total, workers);
    lemma_mod_bound(total, workers);
    assert(base >= 0) by (nonlinear_arith)
        requires
            total == workers * base + extra,
            0 <= extra < workers,
            0 <= total,
            0 < workers,
    ;
    assert(0 * base == 0);
    assert((k + 1) * base == k * base + base) by (nonlinear_arith);
    assert(0 <= k * base && (k + 1) * base <= workers * base) by (nonlinear_arith)
        requires
            0 <= k < workers,
            0 <= base,
    ;
}

/// Deals the indices below `total` out to `workers` workers: one slice for
/// each, in order, of sizes that differ by one at most. No worker at all
/// counts as one.
pub fn partition(total: u128, workers: usize) -> (slices: Vec<Slice>)
    ensures
        slices.len() == if workers == 0 {
            1
        } else {
            workers as int
        },
        forall|k: int|
            0 <= k < slices.len() ==> (#[trigger] slices[k]).first() == share_start(
                total as int,
                slices.len() as int,
                k,
            ) && slices[k].limit() == share_start(total as int, slices.len() as int, k + 1),
{
    let count: usize = if workers == 0 {
        1
    } else {
        workers
    };
    let base = total / (count as u128);
    let extra = total % (count as u128);
    let mut slices: Vec<Slice> = Vec::new();
    let mut cursor: u128 = 0;
    let mut k: usize = 0;
    proof {
        lemma_shares_ordered(total as int, count as int, 0);
    }
    while k < count
        invariant
            0 < count,
            base == total as int / count as int,
            extra == total as int % count as int,
            k <= count,
            slices.len() == k,
            cursor == share_start(total as int, count as int, k as int),
            cursor <= total,
            forall|j: int|
                0 <= j < k ==> (#[trigger] slices[j]).first() == share_start(
                    total as int,
                    count as int,
                    j,
                ) && slices[j].limit() == share_start(total as int, count as int, j + 1),
        decreases count - k,
    {
        proof {
            lemma_shares_ordered(total as int, count as int, k as int);
        }
        let size: u128 = if (k as u128) < extra {
            base + 1
        } else {
            base
        };
        let slice = Slice { start: cursor, end: cursor + size };
        slices.push(slice);
        cursor = cursor + size;
        k = k + 1;
    }
    slices
}

/// Every index below `total` lies in exactly one of the slices that
/// `partition` returns.
pub proof fn lemma_exactly_one_share(total: int, workers: int, index: int)
    requires
        0 < workers,
        0 <= index < total,
    ensures
        exists|k: int|
            0 <= k < workers && share_start(total, workers, k) <= index < #[trigger] share_start(
                total,
                workers,
                k + 1,
            ),
        forall|j: int, k: int|
            0 <= j < workers && 0 <= k < workers && share_start(total, workers, j) <= index
                < #[trigger] share_start(total, workers, j + 1) && share_start(total, workers, k)
                <= index < #[trigger] share_start(total, workers, k + 1) ==> j == k,
{
    lemma_shares_ordered(total, workers, 0);
    lemma_share_found(total, workers, index, workers);
    assert forall|j: int, k: int|
        0 <= j < workers && 0 <= k < workers && share_start(total, workers, j) <= index
            < #[trigger] share_start(total, workers, j + 1) && share_start(total, workers, k)
            <= index < #[trigger] share_start(total, workers, k + 1) implies j == k by {
        if j < k {
            lemma_shares_monotone(total, workers, j + 1, k);
        } else if k < j {
            lemma_shares_monotone(total, workers, k + 1, j);
        }
    }
}

/// A later share starts no earlier.
proof fn lemma_shares_monotone(total: int, workers: int, j: int, k: int)
    requires
        0 <= total,
        0 < workers,
        0 <= j <= k <= workers,
    ensures
        share_start(total, workers, j) <= share_start(total, workers, k),
    decreases k - j,
{
    if j < k {
        lemma_shares_ordered(total, workers, k - 1);
        lemma_shares_monotone(total, workers, j, k - 1);
    }
}

/// An index below the start of share `bound` lies in a share before it.
proof fn lemma_share_found(total: int, workers: int, index: int, bound: int)
    requires
        0 < workers,
        0 < bound <= workers,
        0 <= index < share_start(total, workers, bound),
        0 <= total,
    ensures
        exists|k: int|
            0 <= k < bound && share_start(total, workers, k) <= index < #[trigger] share_start(
                total,
                workers,
                k + 1,
            ),
    decreases bound,
{
    lemma_shares_ordered(total, workers, bound - 1);
    if share_start(total, workers, bound - 1) <= index {
        assert(share_start(total, workers, bound - 1) <= index < share_start(
            total,
            workers,
            (bound - 1) + 1,
        ));
    } else {
        lemma_share_found(total, workers, index, bound - 1);
    }
}

/// What a worker does next.
#[derive(Clone, Copy, Debug, PartialEq, Eq, Structural)]
pub enum Action {
    /// Write the word with this index, then report how it went.
    Emit(u128),
    /// Do nothing more.
    Stop,
}

/// The state of a worker, for contracts.
pub struct Progress {
    /// The first index of the worker's slice.
    pub start: int,
    /// The index that the worker writes next.
    pub next: int,
    /// The index after the last one of the worker's slice.
    pub end: int,
    /// Whether a write of this worker has failed.
    pub failed: bool,
}

impl Progress {
    /// What a worker in this state does next, given whether a stop was
    /// requested.
    pub open spec fn action(self, stop_requested: bool) -> Action {
        if self.failed || stop_requested || self.next >= self.end {
            Action::Stop
        } else {
            Action::Emit(self.next as u128)
        }
    }

    /// Whether the worker has written the word with this index.
    pub open spec fn wrote(self, index: int) -> bool {
        self.start <= index < self.next
    }

    /// The state after the write that `action` asked for has been reported.
    /// A report that nothing asked for changes nothing.
    pub open spec fn after(self, written: bool) -> Progress {
        if self.failed || self.next >= self.end {
            self
        } else if written {
            Progress { next: self.next + 1, ..self }
        } else {
            Progress { failed: true, ..self }
        }
    }
}

/// The workers hold the slices into which `partition` cuts `total` indices,
/// each somewhere along its own.
pub open spec fn dealt(workers: Seq<Progress>, total: int) -> bool {
    forall|k: int|
        0 <= k < workers.len() ==> {
            &&& (#[trigger] workers[k]).start == share_start(total, workers.len() as int, k)
            &&& workers[k].end == share_start(total, workers.len() as int, k + 1)
            &&& workers[k].start <= workers[k].next <= workers[k].end
        }
}

/// After a failed write of its own, and whenever a stop is requested, a
/// worker asks for no further write; and a report changes nothing about a
/// worker that has failed.
pub proof fn lemma_no_write_after_stop(worker: Progress, stop_requested: bool, written: bool)
    ensures
        worker.action(true) == Action::Stop,
        worker.failed ==> worker.action(stop_requested) == Action::Stop,
        worker.failed ==> worker.after(written) == worker,
        worker.after(false).action(stop_requested) == Action::Stop,
{
}

/// A worker that has not failed and, with no stop requested, asks for no
/// write has written its whole slice.
pub proof fn lemma_idle_worker_is_complete(worker: Progress)
    requires
        worker.start <= worker.next <= worker.end,
        !worker.failed,
        worker.action(false) == Action::Stop,
    ensures
        worker.next == worker.end,
{
}

/// A report moves a worker by one index at most and never out of its slice,
/// and what it has written stays written.
pub proof fn lemma_report_keeps_slice(worker: Progress, written: bool, index: int)
    requires
        worker.start <= worker.next <= worker.end,
    ensures
        worker.after(written).start == worker.start,
        worker.after(written).end == worker.end,
        worker.next <= worker.after(written).next <= worker.next + 1,
        worker.after(written).next <= worker.end,
        worker.wrote(index) ==> worker.after(written).wrote(index),
        worker.after(written).wrote(index) && !worker.wrote(index) ==> written && worker.action(
            false,
        ) == Action::Emit(index as u128),
{
}

/// No word is written by two workers.
pub proof fn lemma_written_at_most_once(workers: Seq<Progress>, total: int, index: int, j: int, k: int)
    requires
        0 <= total,
        dealt(workers, total),
        0 <= j < workers.len(),
        0 <= k < workers.len(),
        workers[j].wrote(index),
        workers[k].wrote(index),
    ensures
        j == k,
{
    let count = workers.len() as int;
    lemma_shares_ordered(total, count, j);
    if index < total {
        lemma_exactly_one_share(total, count, index);
        assert(share_start(total, count, j) <= index < share_start(total, count, j + 1));
        assert(share_start(total, count, k) <= index < share_start(total, count, k + 1));
    }
}

/// When every worker has come to the end of its slice, every word has been
/// written.
pub proof fn lemma_complete_run_writes_all(workers: Seq<Progress>, total: int, index: int)
    requires
        dealt(workers, total),
        workers.len() > 0,
        forall|k: int| 0 <= k < workers.len() ==> (#[trigger] workers[k]).next == workers[k].end,
        0 <= index < total,
    ensures
        exists|k: int| 0 <= k < workers.len() && (#[trigger] workers[k]).wrote(index),
{
    let count = workers.len() as int;
    lemma_exactly_one_share(total, count, index);
    let k = choose|k: int|
        0 <= k < count && share_start(total, count, k) <= index < #[trigger] share_start(
            total,
            count,
            k + 1,
        );
    assert(workers[k].wrote(index));
}

/// One worker: it walks its slice of the index space in order, one write at
/// a time.
#[derive(Debug)]
pub struct Worker {
    start: u128,
    next: u128,
    end: u128,
    failed: bool,
}

impl View for Worker {
    type V = Progress;

    closed spec fn view(&self) -> Progress {
        Progress {
            start: self.start as int,
            next: self.next as int,
            end: self.end as int,
            failed: self.failed,
        }
    }
}

impl Worker {
    #[verifier::type_invariant]
    spec fn well_formed(self) -> bool {
        self.start <= self.next <= self.end
    }

    /// A worker at the start of its slice.
    pub fn new(slice: Slice) -> (worker: Worker)
        ensures
            worker@ == (Progress {
                start: slice.first(),
                next: slice.first(),
                end: slice.limit(),
                failed: false,
            }),
    {
        let start = slice.start();
        let end = slice.end();
        Worker { start, next: start, end, failed: false }
    }

    /// What to do next: write the worker's next index, or stop. The worker
    /// stops at the end of its slice, after a failed write of its own, and
    /// whenever a stop is requested.
    pub fn next_action(&self, stop_requested: bool) -> (action: Action)
        ensures
            action == self@.action(stop_requested),
            0 <= self@.start <= self@.next <= self@.end <= u128::MAX,
    {
        proof {
            use_type_invariant(self);
        }
        if self.failed || stop_requested || self.next >= self.end {
            Action::Stop
        } else {
            Action::Emit(self.next)
        }
    }

    /// Takes note of how the write went that `next_action` asked for.
    pub fn record(&mut self, written: bool)
        ensures
            final(self)@ == old(self)@.after(written),
    {
        proof {
            use_type_invariant(&*self);
        }
        if !self.failed && self.next < self.end {
            if written {
                self.next = self.next + 1;
            } else {
                self.failed = true;
            }
        }
    }

    /// The number of words that the worker has written.
    pub fn written(&self) -> (count: u128)
        ensures
            count == self@.next - self@.start,
    {
        proof {
            use_type_invariant(self);
        }
        self.next - self.start
    }

    /// Whether a write of this worker has failed.
    pub fn has_failed(&self) -> (failed: bool)
        ensures
            failed == self@.failed,
    {
        self.failed
    }

    /// Whether the worker has written its whole slice.
    pub fn is_complete(&self) -> (complete: bool)
        ensures
            complete == (self@.next == self@.end),
    {
        self.next == self.end
    }
}

/// Some worker has failed.
pub open spec fn any_failed(workers: Seq<Worker>) -> bool {
    exists|k: int| 0 <= k < workers.len() && (#[trigger] workers[k])@.failed
}

/// How the run ended: with `SinkWriteFailed` where a write of some worker
/// failed, well otherwise.
pub fn conclude(workers: &Vec<Worker>) -> (result: Result<(), GenError>)
    ensures
        result == if any_failed(workers@) {
            Err::<(), GenError>(GenError::SinkWriteFailed)
        } else {
            Ok::<(), GenError>(())
        },
{
    let mut k: usize = 0;
    while k < workers.len()
        invariant
            k <= workers.len(),
            forall|j: int| 0 <= j < k ==> !(#[trigger] workers[j])@.failed,
        decreases workers.len() - k,
    {
        if workers[k].has_failed() {
            return Err(GenError::SinkWriteFailed);
        }
        k = k + 1;
    }
    Ok(())
}

} // verus!
