//! The orchestrator: all durable engine state and every scheduling decision.
//!
//! State is held in one place and mutated through contracts; the operations
//! that in a deployment would be backed by a shared store (conditional
//! insert, increment, score-ordered pop) are single atomic methods here, so
//! the check-then-act races a split implementation would have cannot arise.

use vstd::prelude::*;

use crate::run::{contains_usize, RunState, RunStatus, TaskRecord};
use crate::task::{str_eq, OrderedQueuedTask, QueuedTask, TaskResult, TaskStatus, TaskTemplate};

verus! {

broadcast use vstd::seq_lib::group_seq_properties;

/// One registered logical date: the idempotency key that makes run creation
/// deduplicate backfills per workflow definition.
pub struct DateKey {
    pub dag_name: String,
    pub dag_hash: String,
    pub logical_date: i64,
}

/// A run's listing entry: its id and its logical date.
#[derive(Clone, Copy, PartialEq, Eq, Structural, Debug)]
pub struct Run {
    pub run_id: usize,
    pub date: i64,
}

/// The whole engine state.
pub struct Orchestrator {
    /// Every run ever created; a run's id is its index here.
    pub runs: Vec<RunState>,
    /// The dispatch queue, ordered by score on pop (lowest depth first,
    /// insertion order as the tie-break).
    pub queue: Vec<OrderedQueuedTask>,
    /// Entries handed to workers and not yet completed; bounds concurrency.
    pub in_flight: Vec<QueuedTask>,
    /// The global cap on in-flight tasks, across all workflows and runs.
    pub max_concurrency: usize,
    /// The per-(workflow, definition-hash) logical-date idempotency set.
    pub logical_dates: Vec<DateKey>,
}

impl Orchestrator {
    /// The idempotency set holds `(name, hash, date)`.
    pub open spec fn spec_has_date(self, name: Seq<char>, hash: Seq<char>, date: i64) -> bool {
        exists|k: int|
            0 <= k < self.logical_dates@.len() && (#[trigger] self.logical_dates@[k]).dag_name@
                == name && self.logical_dates@[k].dag_hash@ == hash
                && self.logical_dates@[k].logical_date == date
    }

    /// Run `i` carries exactly this `(name, hash, date)` triple.
    pub open spec fn run_matches(self, i: int, name: Seq<char>, hash: Seq<char>, date: i64) -> bool {
        &&& self.runs@[i].dag_name@ == name
        &&& self.runs@[i].dag_hash@ == hash
        &&& self.runs@[i].logical_date == date
    }

    /// A queue or in-flight entry points at an existing run and task.
    pub open spec fn entry_valid(self, q: QueuedTask) -> bool {
        &&& q.run_id < self.runs@.len()
        &&& q.task_id < self.runs@[q.run_id as int].tasks@.len()
    }

    /// Well-formedness of the whole engine:
    /// - each run is well-formed and numbered by its position,
    /// - queue and in-flight entries point at existing runs and tasks,
    /// - no two runs share a `(name, hash, date)` triple, and
    /// - every run's triple is registered in the idempotency set.
    pub open spec fn wf(self) -> bool {
        &&& forall|i: int|
            0 <= i < self.runs@.len() ==> (#[trigger] self.runs@[i]).wf() && self.runs@[i].run_id
                == i
        &&& forall|j: int|
            0 <= j < self.queue@.len() ==> self.entry_valid(
                (#[trigger] self.queue@[j]).queued_task,
            )
        &&& forall|j: int|
            0 <= j < self.in_flight@.len() ==> self.entry_valid(#[trigger] self.in_flight@[j])
        &&& forall|i: int, j: int|
            0 <= i < self.runs@.len() && 0 <= j < self.runs@.len() && i != j ==> !(
            (#[trigger] self.runs@[i]).dag_name@ == (#[trigger] self.runs@[j]).dag_name@
                && self.runs@[i].dag_hash@ == self.runs@[j].dag_hash@
                && self.runs@[i].logical_date == self.runs@[j].logical_date)
        &&& forall|i: int|
            0 <= i < self.runs@.len() ==> self.spec_has_date(
                (#[trigger] self.runs@[i]).dag_name@,
                self.runs@[i].dag_hash@,
                self.runs@[i].logical_date,
            )
    }

    /// An empty engine with the given concurrency cap.
    pub fn new(max_concurrency: usize) -> (r: Orchestrator)
        ensures
            r.wf(),
            r.runs@.len() == 0,
            r.queue@.len() == 0,
            r.in_flight@.len() == 0,
            r.logical_dates@.len() == 0,
            r.max_concurrency == max_concurrency,
    {
        Orchestrator {
            runs: Vec::new(),
            queue: Vec::new(),
            in_flight: Vec::new(),
            max_concurrency,
            logical_dates: Vec::new(),
        }
    }

    /// Whether a run for `(dag_name, dag_hash, logical_date)` was already
    /// created; the guard that keeps backfill and scheduling idempotent.
    pub fn contains_logical_date(&self, dag_name: &str, dag_hash: &str, logical_date: i64) -> (r:
        bool)
        ensures
            r == self.spec_has_date(dag_name@, dag_hash@, logical_date),
    {
        let mut k: usize = 0;
        while k < self.logical_dates.len()
            invariant
                k <= self.logical_dates@.len(),
                forall|j: int|
                    0 <= j < k ==> !((#[trigger] self.logical_dates@[j]).dag_name@ == dag_name@
                        && self.logical_dates@[j].dag_hash@ == dag_hash@
                        && self.logical_dates@[j].logical_date == logical_date),
            decreases self.logical_dates@.len() - k,
        {
            let entry = &self.logical_dates[k];
            if str_eq(entry.dag_name.as_str(), dag_name) && str_eq(
                entry.dag_hash.as_str(),
                dag_hash,
            ) && entry.logical_date == logical_date {
                return true;
            }
            k += 1;
        }
        false
    }

    /// The transition `create_run` makes: nothing when the date was already
    /// registered, otherwise one new empty run and its idempotency entry.
    pub open spec fn create_run_post(
        pre: Orchestrator,
        post: Orchestrator,
        name: Seq<char>,
        hash: Seq<char>,
        date: i64,
        r: Option<usize>,
    ) -> bool {
        &&& r is None <==> pre.spec_has_date(name, hash, date)
        &&& r is None ==> post == pre
        &&& r is Some ==> {
            &&& r == Some(pre.runs@.len() as usize)
            &&& post.runs@.len() == pre.runs@.len() + 1
            &&& forall|i: int| 0 <= i < pre.runs@.len() ==> post.runs@[i] == pre.runs@[i]
            &&& post.run_matches(pre.runs@.len() as int, name, hash, date)
            &&& post.runs@.last().status == RunStatus::Pending
            &&& post.runs@.last().tasks@.len() == 0
            &&& post.runs@.last().edges@.len() == 0
            &&& post.logical_dates@.len() == pre.logical_dates@.len() + 1
            &&& forall|k: int|
                0 <= k < pre.logical_dates@.len() ==> post.logical_dates@[k]
                    == pre.logical_dates@[k]
            &&& post.logical_dates@.last().dag_name@ == name
            &&& post.logical_dates@.last().dag_hash@ == hash
            &&& post.logical_dates@.last().logical_date == date
            &&& post.spec_has_date(name, hash, date)
            &&& post.queue == pre.queue
            &&& post.in_flight == pre.in_flight
            &&& post.max_concurrency == pre.max_concurrency
        }
    }

    /// Creates a run for `(dag_name, dag_hash, logical_date)` unless one was
    /// already created for that triple; the check and the registration are a
    /// single atomic step, so two callers can never both succeed. A detected
    /// duplicate is skipped silently (`None`), not an error.
    pub fn create_run(&mut self, dag_name: &str, dag_hash: &str, logical_date: i64) -> (r: Option<
        usize,
    >)
        requires
            old(self).wf(),
            old(self).runs@.len() < usize::MAX,
        ensures
            final(self).wf(),
            Orchestrator::create_run_post(
                *old(self),
                *final(self),
                dag_name@,
                dag_hash@,
                logical_date,
                r,
            ),
    {
        if self.contains_logical_date(dag_name, dag_hash, logical_date) {
            return None;
        }
        let ghost pre = *self;
        let run_id = self.runs.len();
        self.logical_dates.push(
            DateKey {
                dag_name: dag_name.to_owned(),
                dag_hash: dag_hash.to_owned(),
                logical_date,
            },
        );
        self.runs.push(
            RunState {
                run_id,
                dag_name: dag_name.to_owned(),
                dag_hash: dag_hash.to_owned(),
                logical_date,
                status: RunStatus::Pending,
                tasks: Vec::new(),
                edges: Vec::new(),
            },
        );
        proof {
            let n = pre.runs@.len() as int;
            assert(self.logical_dates@[pre.logical_dates@.len() as int].dag_name@ == dag_name@);
            assert(self.spec_has_date(dag_name@, dag_hash@, logical_date));
            assert(self.runs@[n].wf()) by {
                assert(forall|t: int|
                    0 <= t < self.runs@[n].tasks@.len() ==> self.runs@[n].depth_ok_at(t));
            }
            assert forall|i: int|
                0 <= i < self.runs@.len() implies (#[trigger] self.runs@[i]).wf()
                && self.runs@[i].run_id == i by {
                if i < n {
                    assert(self.runs@[i] == pre.runs@[i]);
                }
            }
            assert forall|i: int|
                0 <= i < self.runs@.len() implies self.spec_has_date(
                (#[trigger] self.runs@[i]).dag_name@,
                self.runs@[i].dag_hash@,
                self.runs@[i].logical_date,
            ) by {
                if i < n {
                    assert(pre.spec_has_date(
                        pre.runs@[i].dag_name@,
                        pre.runs@[i].dag_hash@,
                        pre.runs@[i].logical_date,
                    ));
                    let k = choose|k: int|
                        0 <= k < pre.logical_dates@.len() && (
                        #[trigger] pre.logical_dates@[k]).dag_name@ == pre.runs@[i].dag_name@
                            && pre.logical_dates@[k].dag_hash@ == pre.runs@[i].dag_hash@
                            && pre.logical_dates@[k].logical_date == pre.runs@[i].logical_date;
                    assert(self.logical_dates@[k] == pre.logical_dates@[k]);
                }
            }
            assert forall|i: int, j: int|
                0 <= i < self.runs@.len() && 0 <= j < self.runs@.len() && i != j implies !(
            (#[trigger] self.runs@[i]).dag_name@ == (#[trigger] self.runs@[j]).dag_name@
                && self.runs@[i].dag_hash@ == self.runs@[j].dag_hash@
                && self.runs@[i].logical_date == self.runs@[j].logical_date) by {
                if i == n || j == n {
                    let o = if i == n { j } else { i };
                    if 0 <= o < n {
                        assert(pre.spec_has_date(
                            pre.runs@[o].dag_name@,
                            pre.runs@[o].dag_hash@,
                            pre.runs@[o].logical_date,
                        ));
                        assert(!pre.spec_has_date(dag_name@, dag_hash@, logical_date));
                    }
                }
            }
        }
        Some(run_id)
    }

    /// The two date clauses of well-formedness — distinct run triples, and
    /// every run triple registered — carry over to a state with the same
    /// idempotency set and the same run triples.
    pub proof fn lemma_dates_preserved(pre: Orchestrator, post: Orchestrator)
        requires
            pre.wf(),
            post.runs@.len() == pre.runs@.len(),
            forall|i: int|
                0 <= i < pre.runs@.len() ==> (#[trigger] post.runs@[i]).dag_name@
                    == pre.runs@[i].dag_name@ && post.runs@[i].dag_hash@ == pre.runs@[i].dag_hash@
                    && post.runs@[i].logical_date == pre.runs@[i].logical_date,
            post.logical_dates@ == pre.logical_dates@,
        ensures
            forall|i: int, j: int|
                0 <= i < post.runs@.len() && 0 <= j < post.runs@.len() && i != j ==> !(
                (#[trigger] post.runs@[i]).dag_name@ == (#[trigger] post.runs@[j]).dag_name@
                    && post.runs@[i].dag_hash@ == post.runs@[j].dag_hash@
                    && post.runs@[i].logical_date == post.runs@[j].logical_date),
            forall|i: int|
                0 <= i < post.runs@.len() ==> post.spec_has_date(
                    (#[trigger] post.runs@[i]).dag_name@,
                    post.runs@[i].dag_hash@,
                    post.runs@[i].logical_date,
                ),
    {
        assert forall|i: int|
            0 <= i < post.runs@.len() implies post.spec_has_date(
            (#[trigger] post.runs@[i]).dag_name@,
            post.runs@[i].dag_hash@,
            post.runs@[i].logical_date,
        ) by {
            assert(pre.spec_has_date(
                pre.runs@[i].dag_name@,
                pre.runs@[i].dag_hash@,
                pre.runs@[i].logical_date,
            ));
            let k = choose|k: int|
                0 <= k < pre.logical_dates@.len() && (#[trigger] pre.logical_dates@[k]).dag_name@
                    == pre.runs@[i].dag_name@ && pre.logical_dates@[k].dag_hash@
                    == pre.runs@[i].dag_hash@ && pre.logical_dates@[k].logical_date
                    == pre.runs@[i].logical_date;
            assert(post.logical_dates@[k] == pre.logical_dates@[k]);
        }
    }

    /// Engine well-formedness carries over to a state that differs in a
    /// single run, provided that run stayed well-formed with its identity,
    /// its `(name, hash, date)` triple and its task count intact.
    pub proof fn lemma_wf_after_run_update(pre: Orchestrator, post: Orchestrator, rid: int)
        requires
            pre.wf(),
            0 <= rid < pre.runs@.len(),
            post.runs@.len() == pre.runs@.len(),
            forall|i: int|
                0 <= i < pre.runs@.len() && i != rid ==> post.runs@[i] == pre.runs@[i],
            post.runs@[rid].wf(),
            post.runs@[rid].run_id == rid,
            post.runs@[rid].dag_name@ == pre.runs@[rid].dag_name@,
            post.runs@[rid].dag_hash@ == pre.runs@[rid].dag_hash@,
            post.runs@[rid].logical_date == pre.runs@[rid].logical_date,
            post.runs@[rid].tasks@.len() >= pre.runs@[rid].tasks@.len(),
            post.queue == pre.queue,
            post.in_flight == pre.in_flight,
            post.logical_dates == pre.logical_dates,
        ensures
            post.wf(),
    {
        assert forall|j: int|
            0 <= j < post.queue@.len() implies post.entry_valid(
            (#[trigger] post.queue@[j]).queued_task,
        ) by {
            assert(pre.entry_valid(pre.queue@[j].queued_task));
        }
        assert forall|j: int|
            0 <= j < post.in_flight@.len() implies post.entry_valid(
            #[trigger] post.in_flight@[j],
        ) by {
            assert(pre.entry_valid(pre.in_flight@[j]));
        }
        Orchestrator::lemma_dates_preserved(pre, post);
    }

    /// Marks the run finished; called by whichever worker observes that the
    /// run has completed.
    pub fn mark_finished(&mut self, run_id: usize)
        requires
            old(self).wf(),
            run_id < old(self).runs@.len(),
        ensures
            final(self).wf(),
            final(self).runs@[run_id as int].status == RunStatus::Completed,
            final(self).runs@.len() == old(self).runs@.len(),
            forall|i: int|
                0 <= i < old(self).runs@.len() && i != run_id ==> final(self).runs@[i] == old(self).runs@[i],
            final(self).runs@[run_id as int].tasks == old(self).runs@[run_id as int].tasks,
            final(self).runs@[run_id as int].edges == old(self).runs@[run_id as int].edges,
            final(self).runs@[run_id as int].dag_name == old(self).runs@[run_id as int].dag_name,
            final(self).runs@[run_id as int].dag_hash == old(self).runs@[run_id as int].dag_hash,
            final(self).runs@[run_id as int].logical_date == old(self).runs@[
                run_id as int
            ].logical_date,
            final(self).runs@[run_id as int].run_id == old(self).runs@[run_id as int].run_id,
            final(self).queue == old(self).queue,
            final(self).in_flight == old(self).in_flight,
            final(self).logical_dates == old(self).logical_dates,
            final(self).max_concurrency == old(self).max_concurrency,
    {
        self.runs[run_id].status = RunStatus::Completed;
        proof {
            RunState::lemma_wf_preserved(
                old(self).runs@[run_id as int],
                self.runs@[run_id as int],
            );
            Orchestrator::lemma_wf_after_run_update(*old(self), *self, run_id as int);
        }
    }

    /// Every task of the run is in a terminal status. Tasks cut off by
    /// branch pruning were marked `Skipped` when they became unreachable, so
    /// they count as accounted for here.
    pub open spec fn spec_run_complete(self, run_id: int) -> bool {
        forall|t: int|
            0 <= t < self.runs@[run_id].tasks@.len() ==> #[trigger] self.runs@[
                run_id
            ].task_complete(t)
    }

    /// Whether every task of the run has reached a terminal status.
    pub fn is_run_complete(&self, run_id: usize) -> (r: bool)
        requires
            self.wf(),
            run_id < self.runs@.len(),
        ensures
            r == self.spec_run_complete(run_id as int),
    {
        let run = &self.runs[run_id];
        let mut t: usize = 0;
        while t < run.tasks.len()
            invariant
                self.wf(),
                run_id < self.runs@.len(),
                t <= run.tasks@.len(),
                *run == self.runs@[run_id as int],
                forall|j: int| 0 <= j < t ==> self.runs@[run_id as int].task_complete(j),
            decreases run.tasks@.len() - t,
        {
            if !run.get_task_status(t).is_complete() {
                proof {
                    assert(!self.runs@[run_id as int].task_complete(t as int));
                }
                return false;
            }
            t += 1;
        }
        true
    }
    /// Computes the task's depth, hands out a fresh attempt number, and
    /// inserts the entry into the dispatch queue with the depth as its
    /// score. Fails without queueing anything when the run's edge set has a
    /// cycle (no depth exists) or the attempt counter is exhausted.
    pub fn enqueue_task(&mut self, run_id: usize, task_id: usize, now: i64) -> (r: Result<
        (),
        EngineError,
    >)
        requires
            old(self).wf(),
            run_id < old(self).runs@.len(),
            task_id < old(self).runs@[run_id as int].tasks@.len(),
            old(self).runs@[run_id as int].tasks@.len() < usize::MAX,
        ensures
            final(self).wf(),
            final(self).runs@.len() == old(self).runs@.len(),
            forall|i: int|
                0 <= i < old(self).runs@.len() && i != run_id ==> final(self).runs@[i] == old(self).runs@[i],
            final(self).in_flight == old(self).in_flight,
            final(self).logical_dates == old(self).logical_dates,
            final(self).max_concurrency == old(self).max_concurrency,
            final(self).runs@[run_id as int].tasks@.len() == old(self).runs@[
                run_id as int
            ].tasks@.len(),
            RunState::meta_same(old(self).runs@[run_id as int], final(self).runs@[run_id as int]),
            final(self).runs@[run_id as int].edges@ == old(self).runs@[run_id as int].edges@,
            forall|t: int|
                0 <= t < old(self).runs@[run_id as int].tasks@.len() && t != task_id
                    ==> TaskRecord::changed_only_depth(
                    old(self).runs@[run_id as int].tasks@[t],
                    #[trigger] final(self).runs@[run_id as int].tasks@[t],
                ),
            final(self).runs@[run_id as int].tasks@[task_id as int].task == old(self).runs@[
                run_id as int
            ].tasks@[task_id as int].task,
            final(self).runs@[run_id as int].tasks@[task_id as int].status_history == old(self).runs@[run_id as int].tasks@[task_id as int].status_history,
            final(self).runs@[run_id as int].tasks@[task_id as int].results == old(self).runs@[
                run_id as int
            ].tasks@[task_id as int].results,
            final(self).runs@[run_id as int].tasks@[task_id as int].dep_keys == old(self).runs@[
                run_id as int
            ].tasks@[task_id as int].dep_keys,
            final(self).runs@[run_id as int].tasks@[task_id as int].logs == old(self).runs@[
                run_id as int
            ].tasks@[task_id as int].logs,
            r is Ok ==> {
                &&& final(self).queue@.len() == old(self).queue@.len() + 1
                &&& forall|j: int|
                    0 <= j < old(self).queue@.len() ==> final(self).queue@[j] == old(self).queue@[j]
                &&& final(self).queue@.last().queued_task.run_id == run_id
                &&& final(self).queue@.last().queued_task.task_id == task_id
                &&& final(self).queue@.last().queued_task.queued_at == now
                &&& final(self).queue@.last().queued_task.attempt == old(self).runs@[run_id as int].tasks@[task_id as int].attempt + 1
                &&& final(self).queue@.last().queued_task.dag_name@ == old(self).runs@[
                    run_id as int
                ].dag_name@
                &&& final(self).runs@[run_id as int].tasks@[task_id as int].depth == Some(
                    final(self).queue@.last().score,
                )
                &&& final(self).runs@[run_id as int].tasks@[task_id as int].attempt == old(self).runs@[run_id as int].tasks@[task_id as int].attempt + 1
            },
            r is Err ==> {
                &&& final(self).queue == old(self).queue
                &&& final(self).runs@[run_id as int].tasks@[task_id as int].attempt == old(self).runs@[run_id as int].tasks@[task_id as int].attempt
                &&& TaskRecord::changed_only_depth(
                    old(self).runs@[run_id as int].tasks@[task_id as int],
                    final(self).runs@[run_id as int].tasks@[task_id as int],
                )
            },
            r == Err::<(), EngineError>(EngineError::CycleDetected) <==> final(self).runs@[
                run_id as int
            ].tasks@[task_id as int].depth is None,
            r == Err::<(), EngineError>(EngineError::AttemptOverflow) <==> (final(self).runs@[
                run_id as int
            ].tasks@[task_id as int].depth is Some && old(self).runs@[run_id as int].tasks@[
                task_id as int
            ].attempt == usize::MAX),
            r is Ok <==> (final(self).runs@[run_id as int].tasks@[task_id as int].depth is Some
                && old(self).runs@[run_id as int].tasks@[task_id as int].attempt < usize::MAX),
            r is Err ==> (r == Err::<(), EngineError>(EngineError::CycleDetected) || r == Err::<
                (),
                EngineError,
            >(EngineError::AttemptOverflow)),
            // A cycle error certifies a cycle: in the final state some task
            // has no depth, and every task without one has an upstream task
            // without one — impossible on an acyclic edge set.
            r == Err::<(), EngineError>(EngineError::CycleDetected) ==> forall|t: int|
                0 <= t < final(self).runs@[run_id as int].tasks@.len() && (#[trigger] final(self).runs@[run_id as int].tasks@[t]).depth is None ==> exists|u: int|
                    final(self).runs@[run_id as int].has_edge(u, t) && final(self).runs@[
                        run_id as int
                    ].tasks@[u].depth is None,
            r == Err::<(), EngineError>(EngineError::AttemptOverflow) ==> final(self).runs@[
                run_id as int
            ].tasks@[task_id as int].attempt == usize::MAX,
            old(self).runs@[run_id as int].tasks@[task_id as int].depth is Some ==> forall|t: int|
                0 <= t < old(self).runs@[run_id as int].tasks@.len() ==> (#[trigger] final(self).runs@[run_id as int].tasks@[t]).depth == old(self).runs@[
                    run_id as int
                ].tasks@[t].depth,
    {
        let ghost pre = *self;
        let depth_opt = {
            let run = &mut self.runs[run_id];
            run.get_task_depth(task_id)
        };
        proof {
            Orchestrator::lemma_wf_after_run_update(pre, *self, run_id as int);
        }
        match depth_opt {
            None => Err(EngineError::CycleDetected),
            Some(depth) => {
                if self.runs[run_id].tasks[task_id].attempt == usize::MAX {
                    return Err(EngineError::AttemptOverflow);
                }
                let ghost mid = *self;
                let attempt = {
                    let run = &mut self.runs[run_id];
                    run.increment_attempt(task_id)
                };
                proof {
                    Orchestrator::lemma_wf_after_run_update(mid, *self, run_id as int);
                }
                let dag_name = self.runs[run_id].dag_name.clone();
                let entry = OrderedQueuedTask {
                    score: depth,
                    queued_task: QueuedTask {
                        run_id,
                        task_id,
                        dag_name,
                        queued_at: now,
                        attempt,
                    },
                };
                let ghost before_push = *self;
                self.queue.push(entry);
                proof {
                    Orchestrator::lemma_dates_preserved(before_push, *self);
                    assert forall|j: int|
                        0 <= j < self.queue@.len() implies self.entry_valid(
                        (#[trigger] self.queue@[j]).queued_task,
                    ) by {
                        if j < before_push.queue@.len() {
                            assert(before_push.entry_valid(before_push.queue@[j].queued_task));
                        }
                    }
                }
                Ok(())
            },
        }
    }

    /// The dispatch queue holds an entry for task `t` of run `rid`.
    pub open spec fn queue_has_task(self, rid: int, t: int) -> bool {
        exists|y: int|
            0 <= y < self.queue@.len() && (#[trigger] self.queue@[y]).queued_task.run_id == rid
                && self.queue@[y].queued_task.task_id == t
    }

    /// A task of a run that may be dispatched next: still `Pending`, with
    /// every upstream task settled.
    pub open spec fn ready_to_enqueue(self, rid: int, t: int) -> bool {
        &&& self.runs@[rid].status_of(t) == TaskStatus::Pending
        &&& !self.runs@[rid].spec_any_upstream_incomplete(t)
    }

    /// The worker's completion step for one dequeued attempt: records the
    /// result, applies the retry rule (`Retrying` and one re-dispatch while
    /// attempts remain, terminal `Failure` otherwise), prunes a successful
    /// branch task's unselected edges and skips what becomes unreachable,
    /// frees the concurrency slot, and enqueues every downstream task the
    /// completion made ready. `selected` is only read for a successful
    /// branch task: the downstream ids whose edges survive.
    ///
    /// Fails only when a depth is needed but the edge set has a cycle; the
    /// result and statuses are recorded even then.
    #[verifier::loop_isolation(false)]
    pub fn handle_task_result(
        &mut self,
        queued_task: &QueuedTask,
        result: TaskResult,
        selected: &Vec<usize>,
        now: i64,
    ) -> (r: Result<(), EngineError>)
        requires
            old(self).wf(),
            queued_task.run_id < old(self).runs@.len(),
            queued_task.task_id < old(self).runs@[queued_task.run_id as int].tasks@.len(),
            result.task_id == queued_task.task_id,
            old(self).runs@[queued_task.run_id as int].tasks@.len() < usize::MAX,
        ensures
            final(self).wf(),
            final(self).runs@.len() == old(self).runs@.len(),
            forall|i: int|
                0 <= i < old(self).runs@.len() && i != queued_task.run_id ==> final(self).runs@[i]
                    == old(self).runs@[i],
            final(self).logical_dates == old(self).logical_dates,
            final(self).max_concurrency == old(self).max_concurrency,
            // The result is recorded and the retry rule's status stands.
            final(self).runs@[queued_task.run_id as int].tasks@[result.task_id as int].results@
                == old(self).runs@[queued_task.run_id as int].tasks@[
                result.task_id as int
            ].results@.push(result),
            forall|t: int|
                0 <= t < old(self).runs@[queued_task.run_id as int].tasks@.len() && t
                    != result.task_id ==> (#[trigger] final(self).runs@[
                    queued_task.run_id as int
                ].tasks@[t]).results == old(self).runs@[queued_task.run_id as int].tasks@[t].results,
            forall|t: int|
                0 <= t < old(self).runs@[queued_task.run_id as int].tasks@.len() ==> (
                #[trigger] final(self).runs@[queued_task.run_id as int].tasks@[t]).task == old(self).runs@[queued_task.run_id as int].tasks@[t].task,
            final(self).runs@[queued_task.run_id as int].tasks@.len() == old(self).runs@[
                queued_task.run_id as int
            ].tasks@.len(),
            final(self).runs@[queued_task.run_id as int].status_of(result.task_id as int) == (
            if result.success {
                TaskStatus::Success
            } else if result.spec_needs_retry() {
                TaskStatus::Retrying
            } else {
                TaskStatus::Failure
            }),
            // The concurrency slot is freed.
            forall|j: int|
                0 <= j < final(self).in_flight@.len() ==> !((#[trigger] final(self).in_flight@[j]).run_id
                    == queued_task.run_id && final(self).in_flight@[j].task_id
                    == queued_task.task_id),
            forall|e: QueuedTask|
                old(self).in_flight@.contains(e) && !(e.run_id == queued_task.run_id && e.task_id
                    == queued_task.task_id) ==> final(self).in_flight@.contains(e),
            forall|e: QueuedTask|
                final(self).in_flight@.contains(e) ==> old(self).in_flight@.contains(e),
            final(self).in_flight@.len() <= old(self).in_flight@.len(),
            (exists|j: int|
                0 <= j < old(self).in_flight@.len() && (#[trigger] old(self).in_flight@[j]).run_id
                    == queued_task.run_id && old(self).in_flight@[j].task_id
                    == queued_task.task_id) ==> final(self).in_flight@.len() < old(self).in_flight@.len(),
            // The queue only grows, by entries of this run.
            final(self).queue@.len() >= old(self).queue@.len(),
            forall|j: int|
                0 <= j < old(self).queue@.len() ==> final(self).queue@[j] == old(self).queue@[j],
            forall|j: int|
                old(self).queue@.len() <= j < final(self).queue@.len() ==> (#[trigger] final(self).queue@[j]).queued_task.run_id == queued_task.run_id,
            // Retry bound: a retry re-enqueues the task exactly once, with
            // the next attempt number; an exhausted task is never
            // re-enqueued.
            (r is Ok && result.spec_needs_retry()) ==> {
                &&& final(self).queue@.len() == old(self).queue@.len() + 1
                &&& final(self).queue@.last().queued_task.task_id == result.task_id
                &&& final(self).queue@.last().queued_task.run_id == queued_task.run_id
                &&& final(self).queue@.last().queued_task.attempt == old(self).runs@[
                    queued_task.run_id as int
                ].tasks@[result.task_id as int].attempt + 1
            },
            !result.spec_needs_retry() ==> forall|j: int|
                old(self).queue@.len() <= j < final(self).queue@.len() ==> (#[trigger] final(self).queue@[j]).queued_task.task_id != result.task_id,
            // Every downstream task this completion made ready is enqueued.
            (r is Ok && !result.spec_needs_retry()) ==> forall|d: int|
                final(self).runs@[queued_task.run_id as int].has_edge(result.task_id as int, d)
                    && 0 <= d < final(self).runs@[queued_task.run_id as int].tasks@.len()
                    && #[trigger] final(self).ready_to_enqueue(queued_task.run_id as int, d)
                    ==> final(self).queue_has_task(queued_task.run_id as int, d),
            // Branch pruning (stated against the updated run).
            (result.success && old(self).runs@[queued_task.run_id as int].tasks@[
                result.task_id as int
            ].task.is_branch) ==> {
                &&& forall|d: int|
                    old(self).runs@[queued_task.run_id as int].has_edge(result.task_id as int, d)
                        && !selected@.contains(d as usize) ==> !final(self).runs@[
                        queued_task.run_id as int
                    ].has_edge(result.task_id as int, d)
                &&& forall|d: int|
                    old(self).runs@[queued_task.run_id as int].has_edge(result.task_id as int, d)
                        && selected@.contains(d as usize) ==> final(self).runs@[
                        queued_task.run_id as int
                    ].has_edge(result.task_id as int, d)
                &&& forall|d: int, k: int|
                    old(self).runs@[queued_task.run_id as int].has_edge(result.task_id as int, d)
                        && !selected@.contains(d as usize) && 0 <= d < old(self).runs@[
                        queued_task.run_id as int
                    ].tasks@.len() && 0 <= k < final(self).runs@[queued_task.run_id as int].tasks@[
                        d
                    ].dep_keys@.len() ==> (#[trigger] final(self).runs@[
                        queued_task.run_id as int
                    ].tasks@[d].dep_keys@[k]).upstream != result.task_id
                &&& forall|d: int|
                    old(self).runs@[queued_task.run_id as int].has_edge(result.task_id as int, d)
                        && !selected@.contains(d as usize) && !final(self).runs@[
                        queued_task.run_id as int
                    ].has_upstream(d) && 0 <= d < old(self).runs@[
                        queued_task.run_id as int
                    ].tasks@.len() && old(self).runs@[queued_task.run_id as int].status_of(d)
                        == TaskStatus::Pending && d != result.task_id ==> final(self).runs@[
                        queued_task.run_id as int
                    ].status_of(d) == TaskStatus::Skipped
            },
            // No task of the run is left unreachable without being Skipped.
            forall|t: int|
                0 <= t < final(self).runs@[queued_task.run_id as int].tasks@.len() ==> !final(self).runs@[queued_task.run_id as int].skip_eligible(t),
            // Other tasks' statuses change only from Pending to Skipped.
            forall|t: int|
                0 <= t < old(self).runs@[queued_task.run_id as int].tasks@.len() && t
                    != result.task_id ==> (#[trigger] final(self).runs@[
                    queued_task.run_id as int
                ].tasks@[t]).status_history == old(self).runs@[
                    queued_task.run_id as int
                ].tasks@[t].status_history || (final(self).runs@[
                    queued_task.run_id as int
                ].tasks@[t].status_history@ == old(self).runs@[
                    queued_task.run_id as int
                ].tasks@[t].status_history@.push(TaskStatus::Skipped) && old(self).runs@[
                    queued_task.run_id as int
                ].status_of(t) == TaskStatus::Pending),
            // The only failures are a certified cycle or a saturated
            // attempt counter.
            r is Err ==> (r == Err::<(), EngineError>(EngineError::CycleDetected) || r == Err::<
                (),
                EngineError,
            >(EngineError::AttemptOverflow)),
            r == Err::<(), EngineError>(EngineError::CycleDetected) ==> ((exists|t: int|
                0 <= t < final(self).runs@[queued_task.run_id as int].tasks@.len() && (
                #[trigger] final(self).runs@[queued_task.run_id as int].tasks@[t]).depth is None)
                && (forall|t: int|
                0 <= t < final(self).runs@[queued_task.run_id as int].tasks@.len() && (
                #[trigger] final(self).runs@[queued_task.run_id as int].tasks@[t]).depth is None
                    ==> exists|u: int|
                    final(self).runs@[queued_task.run_id as int].has_edge(u, t) && final(self).runs@[queued_task.run_id as int].tasks@[u].depth is None)),
            r == Err::<(), EngineError>(EngineError::AttemptOverflow) ==> exists|t: int|
                0 <= t < final(self).runs@[queued_task.run_id as int].tasks@.len() && (
                #[trigger] final(self).runs@[queued_task.run_id as int].tasks@[t]).attempt
                    == usize::MAX,
    {
        let rid = queued_task.run_id;
        let tid = queued_task.task_id;
        let ghost pre = *self;
        let retry = {
            let run = &mut self.runs[rid];
            run.apply_result(result, selected)
        };
        proof {
            Orchestrator::lemma_wf_after_run_update(pre, *self, rid as int);
        }
        let ghost s1 = *self;
        self.remove_from_in_flight(queued_task);
        let ghost s2 = *self;
        if retry {
            proof {
                assert(self.runs@[rid as int].tasks@[tid as int].attempt == old(self).runs@[
                    rid as int
                ].tasks@[tid as int].attempt);
            }
            let res = self.enqueue_task(rid, tid, now);
            proof {
                assert forall|i: int|
                    0 <= i < old(self).runs@.len() && i != rid as int implies self.runs@[i]
                    == old(self).runs@[i] by {
                    assert(self.runs@[i] == s2.runs@[i]);
                    assert(s2.runs@[i] == s1.runs@[i]);
                    assert(s1.runs@[i] == old(self).runs@[i]);
                }
                assert(s2.runs@[rid as int].wf());
                RunState::lemma_edge_congruence(s2.runs@[rid as int], self.runs@[rid as int]);
                RunState::lemma_skip_eligible_congruence(
                    s2.runs@[rid as int],
                    self.runs@[rid as int],
                );
            }
            res
        } else {
            let downs = {
                let run = &self.runs[rid];
                run.get_downstream(tid)
            };
            let ghost run2 = s2.runs@[rid as int];
            let mut enq: Vec<usize> = Vec::new();
            let mut j: usize = 0;
            let out: Result<(), EngineError> = Ok(());
            while j < downs.len()
                invariant
                    self.wf(),
                    rid < self.runs@.len(),
                    tid < self.runs@[rid as int].tasks@.len(),
                    j <= downs@.len(),
                    self.runs@.len() == s2.runs@.len(),
                    forall|i: int|
                        0 <= i < s2.runs@.len() && i != rid ==> self.runs@[i] == s2.runs@[i],
                    self.runs@[rid as int].tasks@.len() == run2.tasks@.len(),
                    self.runs@[rid as int].tasks@.len() < usize::MAX,
                    self.runs@[rid as int].edges@ == run2.edges@,
                    RunState::meta_same(run2, self.runs@[rid as int]),
                    forall|t: int|
                        0 <= t < run2.tasks@.len() ==> {
                            &&& (#[trigger] self.runs@[rid as int].tasks@[t]).task
                                == run2.tasks@[t].task
                            &&& self.runs@[rid as int].tasks@[t].status_history
                                == run2.tasks@[t].status_history
                            &&& self.runs@[rid as int].tasks@[t].results == run2.tasks@[t].results
                            &&& self.runs@[rid as int].tasks@[t].dep_keys == run2.tasks@[t].dep_keys
                            &&& self.runs@[rid as int].tasks@[t].logs == run2.tasks@[t].logs
                        },
                    forall|t: int|
                        0 <= t < run2.tasks@.len() ==> (#[trigger] self.runs@[
                            rid as int
                        ].tasks@[t]).attempt == run2.tasks@[t].attempt || (self.runs@[
                            rid as int
                        ].tasks@[t].attempt == run2.tasks@[t].attempt + 1 && enq@.contains(
                            t as usize,
                        )),
                    forall|t: int|
                        0 <= t < run2.tasks@.len() && !enq@.contains(t as usize) ==> (
                        #[trigger] self.runs@[rid as int].tasks@[t]).attempt
                            == run2.tasks@[t].attempt,
                    forall|x: int| 0 <= x < enq@.len() ==> #[trigger] enq@[x] < run2.tasks@.len(),
                    self.in_flight == s2.in_flight,
                    self.logical_dates == s2.logical_dates,
                    self.max_concurrency == s2.max_concurrency,
                    self.queue@.len() >= s2.queue@.len(),
                    forall|x: int|
                        0 <= x < s2.queue@.len() ==> self.queue@[x] == s2.queue@[x],
                    forall|x: int|
                        s2.queue@.len() <= x < self.queue@.len() ==> (#[trigger] self.queue@[x]).queued_task.run_id
                            == rid && self.queue@[x].queued_task.task_id != tid,
                    forall|x: int|
                        0 <= x < downs@.len() ==> #[trigger] downs@[x] < run2.tasks@.len(),
                    forall|d: int|
                        run2.has_edge(tid as int, d) ==> downs@.contains(d as usize),
                    self.runs@[rid as int].task_complete(tid as int),
                    forall|x: int|
                        0 <= x < enq@.len() ==> self.queue_has_task(
                            rid as int,
                            #[trigger] enq@[x] as int,
                        ),
                    forall|x: int|
                        0 <= x < j && self.ready_to_enqueue(rid as int, #[trigger] downs@[x] as int)
                            ==> self.queue_has_task(rid as int, downs@[x] as int),
                decreases downs@.len() - j,
            {
                let d = downs[j];
                let ghost iter_pre = *self;
                let is_pending = {
                    let run = &self.runs[rid];
                    matches!(run.get_task_status(d), TaskStatus::Pending)
                };
                if is_pending && !contains_usize(&enq, d) {
                    let blocked = {
                        let run = &self.runs[rid];
                        run.any_upstream_incomplete(d)
                    };
                    if !blocked {
                        proof {
                            assert(self.runs@[rid as int].tasks@[d as int].attempt
                                == run2.tasks@[d as int].attempt);
                            assert(run2.tasks@[d as int].attempt == old(self).runs@[
                                rid as int
                            ].tasks@[d as int].attempt);
                        }
                        let res = self.enqueue_task(rid, d, now);
                        match res {
                            Ok(()) => {
                                enq.push(d);
                                proof {
                                    assert(self.queue@.last().queued_task.task_id == d);
                                    assert(self.runs@[rid as int].task_complete(tid as int));
                                    assert(d != tid);
                                    assert(self.queue@.last().queued_task.run_id == rid);
                                    assert(self.queue_has_task(rid as int, d as int));
                                    assert forall|x: int|
                                        0 <= x < enq@.len() implies self.queue_has_task(
                                        rid as int,
                                        #[trigger] enq@[x] as int,
                                    ) by {
                                        if x < enq@.len() - 1 {
                                            assert(iter_pre.queue_has_task(
                                                rid as int,
                                                enq@[x] as int,
                                            ));
                                            let y = choose|y: int|
                                                0 <= y < iter_pre.queue@.len() && (
                                                #[trigger] iter_pre.queue@[y]).queued_task.run_id
                                                    == rid as int
                                                    && iter_pre.queue@[y].queued_task.task_id
                                                    == enq@[x] as int;
                                            assert(self.queue@[y] == iter_pre.queue@[y]);
                                        }
                                    }
                                    RunState::lemma_readiness_congruence(
                                        iter_pre.runs@[rid as int],
                                        self.runs@[rid as int],
                                    );
                                    assert forall|x: int|
                                        0 <= x < j && self.ready_to_enqueue(
                                            rid as int,
                                            #[trigger] downs@[x] as int,
                                        ) implies self.queue_has_task(
                                        rid as int,
                                        downs@[x] as int,
                                    ) by {
                                        assert(iter_pre.ready_to_enqueue(
                                            rid as int,
                                            downs@[x] as int,
                                        ));
                                        assert(iter_pre.queue_has_task(
                                            rid as int,
                                            downs@[x] as int,
                                        ));
                                        let y = choose|y: int|
                                            0 <= y < iter_pre.queue@.len() && (
                                            #[trigger] iter_pre.queue@[y]).queued_task.run_id
                                                == rid as int
                                                && iter_pre.queue@[y].queued_task.task_id
                                                == downs@[x] as int;
                                        assert(self.queue@[y] == iter_pre.queue@[y]);
                                    }
                                }
                            },
                            Err(e) => {
                                proof {
                assert forall|i: int|
                    0 <= i < old(self).runs@.len() && i != rid as int implies self.runs@[i]
                    == old(self).runs@[i] by {
                    assert(self.runs@[i] == s2.runs@[i]);
                    assert(s2.runs@[i] == s1.runs@[i]);
                    assert(s1.runs@[i] == old(self).runs@[i]);
                }
                                    assert(s2.runs@[rid as int].wf());
                                    RunState::lemma_edge_congruence(
                                        s2.runs@[rid as int],
                                        self.runs@[rid as int],
                                    );
                                    RunState::lemma_skip_eligible_congruence(
                                        s2.runs@[rid as int],
                                        self.runs@[rid as int],
                                    );
                                }
                                return Err(e);
                            },
                        }
                    }
                }
                j += 1;
            }
            proof {
                assert forall|i: int|
                    0 <= i < old(self).runs@.len() && i != rid as int implies self.runs@[i]
                    == old(self).runs@[i] by {
                    assert(self.runs@[i] == s2.runs@[i]);
                    assert(s2.runs@[i] == s1.runs@[i]);
                    assert(s1.runs@[i] == old(self).runs@[i]);
                }
                assert(s2.runs@[rid as int].wf());
                RunState::lemma_edge_congruence(s2.runs@[rid as int], self.runs@[rid as int]);
                RunState::lemma_skip_eligible_congruence(
                    s2.runs@[rid as int],
                    self.runs@[rid as int],
                );
                assert forall|d: int|
                    self.runs@[rid as int].has_edge(tid as int, d) && 0 <= d < self.runs@[
                    rid as int
                ].tasks@.len() && #[trigger] self.ready_to_enqueue(rid as int, d) implies
                    self.queue_has_task(rid as int, d) by {
                    assert(run2.has_edge(tid as int, d));
                    assert(downs@.contains(d as usize));
                    let x = downs@.index_of(d as usize);
                    assert(self.ready_to_enqueue(rid as int, downs@[x] as int));
                }
            }
            out
        }
    }

    /// Copies a workflow definition's tasks and edges into a freshly created
    /// run; every task starts `Pending`. Fails with `InvalidEdge`, changing
    /// no edge, when an edge names a task the definition does not have.
    #[verifier::loop_isolation(false)]
    pub fn seed_default_tasks(
        &mut self,
        run_id: usize,
        defaults: Vec<TaskTemplate>,
        edges: &Vec<(usize, usize)>,
    ) -> (r: Result<(), EngineError>)
        requires
            old(self).wf(),
            run_id < old(self).runs@.len(),
            old(self).runs@[run_id as int].tasks@.len() == 0,
            old(self).runs@[run_id as int].edges@.len() == 0,
            defaults@.len() < usize::MAX,
        ensures
            final(self).wf(),
            final(self).runs@.len() == old(self).runs@.len(),
            forall|i: int|
                0 <= i < old(self).runs@.len() && i != run_id ==> final(self).runs@[i] == old(self).runs@[i],
            final(self).queue == old(self).queue,
            final(self).in_flight == old(self).in_flight,
            final(self).logical_dates == old(self).logical_dates,
            final(self).max_concurrency == old(self).max_concurrency,
            RunState::meta_same(old(self).runs@[run_id as int], final(self).runs@[run_id as int]),
            final(self).runs@[run_id as int].tasks@.len() == defaults@.len(),
            forall|t: int|
                0 <= t < defaults@.len() ==> {
                    &&& (#[trigger] final(self).runs@[run_id as int].tasks@[t]).task.function_name
                        == defaults@[t].function_name
                    &&& final(self).runs@[run_id as int].tasks@[t].task.template_args
                        == defaults@[t].template_args
                    &&& final(self).runs@[run_id as int].tasks@[t].task.options
                        == defaults@[t].options
                    &&& final(self).runs@[run_id as int].tasks@[t].task.lazy_expand
                        == defaults@[t].lazy_expand
                    &&& final(self).runs@[run_id as int].tasks@[t].task.is_dynamic
                        == defaults@[t].is_dynamic
                    &&& final(self).runs@[run_id as int].tasks@[t].task.is_branch
                        == defaults@[t].is_branch
                    &&& final(self).runs@[run_id as int].status_of(t) == TaskStatus::Pending
                    &&& final(self).runs@[run_id as int].tasks@[t].results@.len() == 0
                    &&& final(self).runs@[run_id as int].tasks@[t].attempt == 0
                },
            r is Err <==> (exists|e: int|
                0 <= e < edges@.len() && ((#[trigger] edges@[e]).0 >= defaults@.len()
                    || edges@[e].1 >= defaults@.len())),
            r is Err ==> r == Err::<(), EngineError>(EngineError::InvalidEdge),
            r is Ok ==> {
                &&& forall|e: int|
                    0 <= e < edges@.len() ==> final(self).runs@[run_id as int].has_edge(
                        (#[trigger] edges@[e]).0 as int,
                        edges@[e].1 as int,
                    )
                &&& forall|a: int, b: int|
                    final(self).runs@[run_id as int].has_edge(a, b) ==> edges@.contains(
                        (a as usize, b as usize),
                    )
            },
            r is Err ==> final(self).runs@[run_id as int].edges@.len() == 0,
    {
        let mut remaining = defaults;
        let mut i: usize = 0;
        let ghost all = remaining@;
        while remaining.len() > 0
            invariant
                self.wf(),
                i + remaining@.len() == all.len(),
                remaining@ =~= all.subrange(i as int, all.len() as int),
                self.runs@.len() == old(self).runs@.len(),
                forall|x: int|
                    0 <= x < old(self).runs@.len() && x != run_id ==> self.runs@[x] == old(self).runs@[x],
                self.queue == old(self).queue,
                self.in_flight == old(self).in_flight,
                self.logical_dates == old(self).logical_dates,
                self.max_concurrency == old(self).max_concurrency,
                RunState::meta_same(old(self).runs@[run_id as int], self.runs@[run_id as int]),
                self.runs@[run_id as int].tasks@.len() == i,
                self.runs@[run_id as int].edges@.len() == 0,
                forall|t: int|
                    0 <= t < i ==> {
                        &&& (#[trigger] self.runs@[run_id as int].tasks@[t]).task.function_name
                            == all[t].function_name
                        &&& self.runs@[run_id as int].tasks@[t].task.template_args
                            == all[t].template_args
                        &&& self.runs@[run_id as int].tasks@[t].task.options == all[t].options
                        &&& self.runs@[run_id as int].tasks@[t].task.lazy_expand
                            == all[t].lazy_expand
                        &&& self.runs@[run_id as int].tasks@[t].task.is_dynamic
                            == all[t].is_dynamic
                        &&& self.runs@[run_id as int].tasks@[t].task.is_branch == all[t].is_branch
                        &&& self.runs@[run_id as int].status_of(t) == TaskStatus::Pending
                        &&& self.runs@[run_id as int].tasks@[t].results@.len() == 0
                        &&& self.runs@[run_id as int].tasks@[t].attempt == 0
                    },
            decreases remaining@.len(),
        {
            let ghost snap = *self;
            proof {
                assert(self.runs@[run_id as int].wf());
                assert(self.runs@[run_id as int].tasks@.len() < usize::MAX);
            }
            let tpl = remaining.remove(0);
            let run = &mut self.runs[run_id];
            let _id = run.append_task(
                tpl.function_name,
                tpl.template_args,
                tpl.options,
                tpl.lazy_expand,
                tpl.is_dynamic,
                tpl.is_branch,
            );
            proof {
                Orchestrator::lemma_wf_after_run_update(snap, *self, run_id as int);
                assert(remaining@ =~= all.subrange(i + 1 as int, all.len() as int));
            }
            i += 1;
        }
        // Validate the edges before touching the run's edge set.
        let n = self.runs[run_id].tasks.len();
        let mut e: usize = 0;
        while e < edges.len()
            invariant
                n == self.runs@[run_id as int].tasks@.len(),
                e <= edges@.len(),
                forall|x: int|
                    0 <= x < e ==> (#[trigger] edges@[x]).0 < n && edges@[x].1 < n,
            decreases edges@.len() - e,
        {
            let (u, d) = edges[e];
            if u >= n || d >= n {
                return Err(EngineError::InvalidEdge);
            }
            e += 1;
        }
        let ghost seeded = *self;
        let mut e2: usize = 0;
        while e2 < edges.len()
            invariant
                self.wf(),
                n == self.runs@[run_id as int].tasks@.len(),
                e2 <= edges@.len(),
                forall|x: int|
                    0 <= x < edges@.len() ==> (#[trigger] edges@[x]).0 < n && edges@[x].1 < n,
                self.runs@.len() == seeded.runs@.len(),
                forall|x: int|
                    0 <= x < seeded.runs@.len() && x != run_id ==> self.runs@[x]
                        == seeded.runs@[x],
                self.queue == seeded.queue,
                self.in_flight == seeded.in_flight,
                self.logical_dates == seeded.logical_dates,
                self.max_concurrency == seeded.max_concurrency,
                RunState::meta_same(seeded.runs@[run_id as int], self.runs@[run_id as int]),
                self.runs@[run_id as int].tasks@.len() == seeded.runs@[run_id as int].tasks@.len(),
                forall|t: int|
                    0 <= t < seeded.runs@[run_id as int].tasks@.len() ==> {
                        &&& (#[trigger] self.runs@[run_id as int].tasks@[t]).task
                            == seeded.runs@[run_id as int].tasks@[t].task
                        &&& self.runs@[run_id as int].tasks@[t].status_history
                            == seeded.runs@[run_id as int].tasks@[t].status_history
                        &&& self.runs@[run_id as int].tasks@[t].results
                            == seeded.runs@[run_id as int].tasks@[t].results
                        &&& self.runs@[run_id as int].tasks@[t].attempt
                            == seeded.runs@[run_id as int].tasks@[t].attempt
                    },
                forall|x: int|
                    0 <= x < e2 ==> self.runs@[run_id as int].has_edge(
                        (#[trigger] edges@[x]).0 as int,
                        edges@[x].1 as int,
                    ),
                forall|a: int, b: int|
                    self.runs@[run_id as int].has_edge(a, b) ==> edges@.contains(
                        (a as usize, b as usize),
                    ),
            decreases edges@.len() - e2,
        {
            let ghost snap = *self;
            let (u, d) = edges[e2];
            let run = &mut self.runs[run_id];
            run.insert_edge(u, d);
            proof {
                Orchestrator::lemma_wf_after_run_update(snap, *self, run_id as int);
                assert forall|x: int|
                    0 <= x < e2 + 1 implies self.runs@[run_id as int].has_edge(
                    (#[trigger] edges@[x]).0 as int,
                    edges@[x].1 as int,
                ) by {
                    if x < e2 {
                        assert(snap.runs@[run_id as int].has_edge(
                            edges@[x].0 as int,
                            edges@[x].1 as int,
                        ));
                    }
                }
                assert forall|a: int, b: int|
                    self.runs@[run_id as int].has_edge(a, b) implies edges@.contains(
                    (a as usize, b as usize),
                ) by {
                    if !(a == u && b == d) {
                        assert(snap.runs@[run_id as int].has_edge(a, b));
                        // In-bounds ids, so the usize cast is faithful.
                        let w = choose|w: int|
                            0 <= w < snap.runs@[run_id as int].edges@.len()
                                && snap.runs@[run_id as int].edges@[w].0 == a && snap.runs@[
                                run_id as int
                            ].edges@[w].1 == b;
                        assert(edges@.contains((a as usize, b as usize)));
                    } else {
                        assert(edges@[e2 as int] == (u, d));
                    }
                }
            }
            e2 += 1;
        }
        Ok(())
    }

    /// Creates and seeds a run for the logical date, unless one already
    /// exists (`Ok(None)`: the duplicate is skipped), and enqueues the
    /// definition's root tasks — those with no upstream task. The seeded
    /// edge set must be acyclic and inside the definition, else the run is
    /// created but nothing is enqueued and the error says why.
    #[verifier::loop_isolation(false)]
    #[verifier::rlimit(40)]
    pub fn trigger_run(
        &mut self,
        dag_name: &str,
        dag_hash: &str,
        logical_date: i64,
        defaults: Vec<TaskTemplate>,
        edges: &Vec<(usize, usize)>,
        now: i64,
    ) -> (r: Result<Option<usize>, EngineError>)
        requires
            old(self).wf(),
            old(self).runs@.len() < usize::MAX,
            defaults@.len() < usize::MAX,
        ensures
            final(self).wf(),
            r == Ok::<Option<usize>, EngineError>(None) <==> old(self).spec_has_date(
                dag_name@,
                dag_hash@,
                logical_date,
            ),
            r == Ok::<Option<usize>, EngineError>(None) ==> *final(self) == *old(self),
            final(self).spec_has_date(dag_name@, dag_hash@, logical_date) || r is Err,
            !old(self).spec_has_date(dag_name@, dag_hash@, logical_date) ==> {
                &&& final(self).runs@.len() == old(self).runs@.len() + 1
                &&& final(self).run_matches(
                    old(self).runs@.len() as int,
                    dag_name@,
                    dag_hash@,
                    logical_date,
                )
                &&& final(self).spec_has_date(dag_name@, dag_hash@, logical_date)
                &&& forall|i: int|
                    0 <= i < old(self).runs@.len() ==> final(self).runs@[i] == old(self).runs@[i]
            },
            r == Ok::<Option<usize>, EngineError>(Some(old(self).runs@.len() as usize)) ==> {
                &&& final(self).runs@.last().tasks@.len() == defaults@.len()
                &&& forall|t: int|
                    0 <= t < defaults@.len() ==> final(self).runs@.last().status_of(t)
                        == TaskStatus::Pending
                &&& forall|t: int|
                    0 <= t < defaults@.len() && !final(self).runs@.last().has_upstream(t)
                        ==> #[trigger] final(self).queue_has_task(old(self).runs@.len() as int, t)
            },
            r is Ok && r != Ok::<Option<usize>, EngineError>(None) ==> r == Ok::<
                Option<usize>,
                EngineError,
            >(Some(old(self).runs@.len() as usize)),
            // The only failures: an edge outside the definition, or a
            // certified cycle in the seeded edge set.
            r is Err ==> (r == Err::<Option<usize>, EngineError>(EngineError::InvalidEdge) || r
                == Err::<Option<usize>, EngineError>(EngineError::CycleDetected)),
            !old(self).spec_has_date(dag_name@, dag_hash@, logical_date) ==> (r == Err::<
                Option<usize>,
                EngineError,
            >(EngineError::InvalidEdge) <==> exists|e: int|
                0 <= e < edges@.len() && ((#[trigger] edges@[e]).0 >= defaults@.len()
                    || edges@[e].1 >= defaults@.len())),
            // With a fresh date and in-bounds edges, the new run's edge set
            // is exactly the definition's.
            (!old(self).spec_has_date(dag_name@, dag_hash@, logical_date) && (forall|e: int|
                0 <= e < edges@.len() ==> (#[trigger] edges@[e]).0 < defaults@.len()
                    && edges@[e].1 < defaults@.len())) ==> forall|a: usize, b: usize|
                final(self).runs@[old(self).runs@.len() as int].has_edge(a as int, b as int)
                    == edges@.contains((a, b)),
            // A cycle error certifies a cycle in the seeded run: some task
            // has no depth and every depth-less task has a depth-less
            // upstream task — impossible on an acyclic edge set.
            r == Err::<Option<usize>, EngineError>(EngineError::CycleDetected) ==> ((exists|
                t: int,
            |
                0 <= t < final(self).runs@[old(self).runs@.len() as int].tasks@.len() && (
                #[trigger] final(self).runs@[old(self).runs@.len() as int].tasks@[t]).depth
                    is None) && (forall|t: int|
                0 <= t < final(self).runs@[old(self).runs@.len() as int].tasks@.len() && (
                #[trigger] final(self).runs@[old(self).runs@.len() as int].tasks@[t]).depth
                    is None ==> exists|u: int|
                    final(self).runs@[old(self).runs@.len() as int].has_edge(u, t) && final(self).runs@[old(self).runs@.len() as int].tasks@[u].depth is None)),
            final(self).logical_dates@.len() >= old(self).logical_dates@.len(),
            forall|k: int|
                0 <= k < old(self).logical_dates@.len() ==> final(self).logical_dates@[k] == old(self).logical_dates@[k],
            // Whatever the call registered carries exactly this key.
            forall|k: int|
                old(self).logical_dates@.len() <= k < final(self).logical_dates@.len() ==> (
                #[trigger] final(self).logical_dates@[k]).dag_name@ == dag_name@ && final(self).logical_dates@[k].dag_hash@ == dag_hash@ && final(self).logical_dates@[k].logical_date
                    == logical_date,
            final(self).in_flight == old(self).in_flight,
            final(self).max_concurrency == old(self).max_concurrency,
            forall|j: int|
                0 <= j < old(self).queue@.len() ==> final(self).queue@[j] == old(self).queue@[j],
            final(self).queue@.len() >= old(self).queue@.len(),
    {
        let created = self.create_run(dag_name, dag_hash, logical_date);
        let rid = match created {
            None => {
                return Ok(None);
            },
            Some(rid) => rid,
        };
        let ghost after_create = *self;
        let seeded = self.seed_default_tasks(rid, defaults, edges);
        match seeded {
            Ok(()) => {},
            Err(e) => {
                return Err(e);
            },
        }
        let ghost after_seed = *self;
        proof {
            assert(!(exists|e: int|
                0 <= e < edges@.len() && ((#[trigger] edges@[e]).0 >= defaults@.len()
                    || edges@[e].1 >= defaults@.len())));
        }
        let depths_ok = {
            let run = &mut self.runs[rid];
            run.compute_depths()
        };
        proof {
            Orchestrator::lemma_wf_after_run_update(after_seed, *self, rid as int);
        }
        if !depths_ok {
            proof {
                RunState::lemma_edge_congruence(
                    after_seed.runs@[rid as int],
                    self.runs@[rid as int],
                );
            assert forall|a: usize, b: usize|
                self.runs@[rid as int].has_edge(a as int, b as int) == edges@.contains(
                (a, b),
            ) by {
                if edges@.contains((a, b)) {
                    let e = edges@.index_of((a, b));
                    assert(after_seed.runs@[rid as int].has_edge(
                        edges@[e].0 as int,
                        edges@[e].1 as int,
                    ));
                }
                if self.runs@[rid as int].has_edge(a as int, b as int) {
                    assert(after_seed.runs@[rid as int].has_edge(a as int, b as int));
                }
            }
            }
            return Err(EngineError::CycleDetected);
        }
        let ghost after_depths = *self;
        let n = self.runs[rid].tasks.len();
        let mut t: usize = 0;
        while t < n
            invariant
                self.wf(),
                rid < self.runs@.len(),
                t <= n,
                n == self.runs@[rid as int].tasks@.len(),
                n < usize::MAX,
                self.runs@.len() == after_depths.runs@.len(),
                forall|x: int|
                    0 <= x < after_depths.runs@.len() && x != rid ==> self.runs@[x]
                        == after_depths.runs@[x],
                self.in_flight == after_depths.in_flight,
                self.logical_dates == after_depths.logical_dates,
                self.max_concurrency == after_depths.max_concurrency,
                self.runs@[rid as int].edges@ == after_depths.runs@[rid as int].edges@,
                RunState::meta_same(after_depths.runs@[rid as int], self.runs@[rid as int]),
                self.runs@[rid as int].tasks@.len() == after_depths.runs@[
                    rid as int
                ].tasks@.len(),
                forall|x: int|
                    0 <= x < n ==> {
                        &&& (#[trigger] self.runs@[rid as int].tasks@[x]).task
                            == after_depths.runs@[rid as int].tasks@[x].task
                        &&& self.runs@[rid as int].tasks@[x].status_history
                            == after_depths.runs@[rid as int].tasks@[x].status_history
                        &&& self.runs@[rid as int].tasks@[x].results
                            == after_depths.runs@[rid as int].tasks@[x].results
                        &&& self.runs@[rid as int].tasks@[x].depth is Some
                    },
                forall|x: int|
                    t <= x < n ==> (#[trigger] self.runs@[rid as int].tasks@[x]).attempt == 0,
                forall|j: int|
                    0 <= j < after_depths.queue@.len() ==> self.queue@[j]
                        == after_depths.queue@[j],
                self.queue@.len() >= after_depths.queue@.len(),
                forall|x: int|
                    0 <= x < t && !self.runs@[rid as int].has_upstream(x)
                        ==> #[trigger] self.queue_has_task(rid as int, x),
            decreases n - t,
        {
            let ghost iter_pre = *self;
            let has_up = {
                let run = &self.runs[rid];
                let ups = run.get_upstream(t);
                proof {
                    if ups@.len() > 0 {
                        assert(run.has_edge(ups@[0] as int, t as int));
                        assert(run.has_upstream(t as int));
                    }
                }
                ups.len() > 0
            };
            if !has_up {
                let res = self.enqueue_task(rid, t, now);
                proof {
                    assert(iter_pre.runs@[rid as int].tasks@[t as int].depth is Some);
                    assert(iter_pre.runs@[rid as int].tasks@[t as int].attempt == 0);
                    assert(res is Ok);
                    assert(self.queue_has_task(rid as int, t as int));
                    RunState::lemma_edge_congruence(
                        iter_pre.runs@[rid as int],
                        self.runs@[rid as int],
                    );
                    assert forall|x: int|
                        0 <= x < t + 1 && !self.runs@[rid as int].has_upstream(x) implies
                        #[trigger] self.queue_has_task(rid as int, x) by {
                        if x < t {
                            assert(!iter_pre.runs@[rid as int].has_upstream(x));
                            assert(iter_pre.queue_has_task(rid as int, x));
                            let y = choose|y: int|
                                0 <= y < iter_pre.queue@.len() && (
                                #[trigger] iter_pre.queue@[y]).queued_task.run_id == rid as int
                                    && iter_pre.queue@[y].queued_task.task_id == x;
                            assert(self.queue@[y] == iter_pre.queue@[y]);
                        }
                    }
                }
            }
            t += 1;
        }
        proof {
            assert forall|i: int|
                0 <= i < old(self).runs@.len() implies self.runs@[i] == old(self).runs@[i] by {
                assert(self.runs@[i] == after_depths.runs@[i]);
                assert(after_depths.runs@[i] == after_seed.runs@[i]);
                assert(after_seed.runs@[i] == after_create.runs@[i]);
                assert(after_create.runs@[i] == old(self).runs@[i]);
            }
            RunState::lemma_edge_congruence(after_seed.runs@[rid as int], self.runs@[rid as int]);
            assert forall|a: usize, b: usize|
                self.runs@[rid as int].has_edge(a as int, b as int) == edges@.contains(
                (a, b),
            ) by {
                if edges@.contains((a, b)) {
                    let e = edges@.index_of((a, b));
                    assert(after_seed.runs@[rid as int].has_edge(
                        edges@[e].0 as int,
                        edges@[e].1 as int,
                    ));
                }
                if self.runs@[rid as int].has_edge(a as int, b as int) {
                    assert(after_seed.runs@[rid as int].has_edge(a as int, b as int));
                }
            }
        }
        Ok(Some(rid))
    }

    /// The dispatched attempt `q` has outlived its task's configured
    /// timeout at time `now`.
    pub open spec fn attempt_expired(self, q: QueuedTask, now: i64) -> bool {
        &&& self.runs@[q.run_id as int].tasks@[q.task_id as int].task.options.timeout_ms
            matches Some(t) && now - q.queued_at > t
    }

    /// Some expired in-flight attempt shares the entry's `(run, task)`;
    /// force-failing it frees every slot of that task, this entry's too.
    pub open spec fn shares_expired_task(self, e: QueuedTask, now: i64) -> bool {
        exists|j: int|
            0 <= j < self.in_flight@.len() && self.attempt_expired(
                #[trigger] self.in_flight@[j],
                now,
            ) && self.in_flight@[j].run_id == e.run_id && self.in_flight@[j].task_id == e.task_id
    }

    /// The timeout supervisor's scan: every in-flight attempt older than its
    /// task's timeout is force-failed — a synthetic premature-failure result
    /// is recorded and fed to the ordinary retry rule — and its concurrency
    /// slot is freed. This is the only way a task whose worker hung or died
    /// is ever recovered. On success no expired attempt is left in flight.
    #[verifier::loop_isolation(false)]
    pub fn check_timeout(&mut self, now: i64) -> (r: Result<(), EngineError>)
        requires
            old(self).wf(),
            forall|i: int|
                0 <= i < old(self).runs@.len() ==> (#[trigger] old(self).runs@[i]).tasks@.len()
                    < usize::MAX,
        ensures
            final(self).wf(),
            final(self).runs@.len() == old(self).runs@.len(),
            final(self).logical_dates == old(self).logical_dates,
            final(self).max_concurrency == old(self).max_concurrency,
            forall|j: int|
                0 <= j < old(self).queue@.len() ==> final(self).queue@[j] == old(self).queue@[j],
            final(self).queue@.len() >= old(self).queue@.len(),
            // Results are append-only across the scan.
            forall|i: int, t: int|
                0 <= i < old(self).runs@.len() && 0 <= t < old(self).runs@[i].tasks@.len() ==> {
                    &&& final(self).runs@[i].tasks@.len() == old(self).runs@[i].tasks@.len()
                    &&& (#[trigger] final(self).runs@[i].tasks@[t]).results@.len() >= old(self).runs@[i].tasks@[t].results@.len()
                    &&& forall|k: int|
                        0 <= k < old(self).runs@[i].tasks@[t].results@.len() ==> #[trigger] final(self).runs@[i].tasks@[t].results@[k] == old(self).runs@[i].tasks@[t].results@[k]
                    &&& final(self).runs@[i].tasks@[t].task == old(self).runs@[i].tasks@[t].task
                },
            // No expired attempt is still in flight.
            r is Ok ==> forall|j: int|
                0 <= j < final(self).in_flight@.len() ==> !final(self).attempt_expired(
                    #[trigger] final(self).in_flight@[j],
                    now,
                ),
            // Unexpired attempts stay in flight, unless an expired attempt
            // of the same task freed that task's slots with its own.
            forall|j: int|
                0 <= j < old(self).in_flight@.len() && !old(self).attempt_expired(
                    #[trigger] old(self).in_flight@[j],
                    now,
                ) && !old(self).shares_expired_task(old(self).in_flight@[j], now) ==> final(self).in_flight@.contains(old(self).in_flight@[j]),
            // A task none of whose in-flight attempts expired keeps its
            // result history and, except for the unreachable-task rule, its
            // status history.
            forall|i: int, t: int|
                0 <= i < old(self).runs@.len() && 0 <= t < old(self).runs@[i].tasks@.len() && !(
                exists|j: int|
                    0 <= j < old(self).in_flight@.len() && old(self).attempt_expired(
                        #[trigger] old(self).in_flight@[j],
                        now,
                    ) && old(self).in_flight@[j].run_id == i && old(self).in_flight@[j].task_id
                        == t) ==> {
                    &&& (#[trigger] final(self).runs@[i].tasks@[t]).results == old(self).runs@[
                        i
                    ].tasks@[t].results
                    &&& (final(self).runs@[i].tasks@[t].status_history == old(self).runs@[
                        i
                    ].tasks@[t].status_history || (final(self).runs@[i].tasks@[t].status_history@
                        == old(self).runs@[i].tasks@[t].status_history@.push(TaskStatus::Skipped)
                        && old(self).runs@[i].status_of(t) == TaskStatus::Pending))
                },
            // The only failures are a certified cycle or a saturated
            // attempt counter, met while re-dispatching a force-failed task.
            r is Err ==> (r == Err::<(), EngineError>(EngineError::CycleDetected) || r == Err::<
                (),
                EngineError,
            >(EngineError::AttemptOverflow)),
            r == Err::<(), EngineError>(EngineError::CycleDetected) ==> exists|i: int|
                0 <= i < final(self).runs@.len() && (exists|t: int|
                    0 <= t < (#[trigger] final(self).runs@[i]).tasks@.len() && (
                    #[trigger] final(self).runs@[i].tasks@[t]).depth is None) && (forall|t: int|
                    0 <= t < final(self).runs@[i].tasks@.len() && (#[trigger] final(self).runs@[
                        i
                    ].tasks@[t]).depth is None ==> exists|u: int|
                        final(self).runs@[i].has_edge(u, t) && final(self).runs@[i].tasks@[
                            u
                        ].depth is None),
            r == Err::<(), EngineError>(EngineError::AttemptOverflow) ==> exists|i: int, t: int|
                0 <= i < final(self).runs@.len() && 0 <= t < final(self).runs@[i].tasks@.len()
                    && (#[trigger] final(self).runs@[i].tasks@[t]).attempt == usize::MAX,
            // Each expired attempt was force-failed: a premature-failure
            // result for its task was appended during the scan.
            r is Ok ==> forall|j: int|
                0 <= j < old(self).in_flight@.len() && old(self).attempt_expired(
                    #[trigger] old(self).in_flight@[j],
                    now,
                ) ==> exists|k: int|
                    old(self).runs@[old(self).in_flight@[j].run_id as int].tasks@[
                        old(self).in_flight@[j].task_id as int
                    ].results@.len() <= k < final(self).runs@[
                        old(self).in_flight@[j].run_id as int
                    ].tasks@[old(self).in_flight@[j].task_id as int].results@.len() && (
                    #[trigger] final(self).runs@[old(self).in_flight@[j].run_id as int].tasks@[
                        old(self).in_flight@[j].task_id as int
                    ].results@[k]).premature_failure,
    {
        let empty_selected: Vec<usize> = Vec::new();
        let mut i: usize = 0;
        while i < self.in_flight.len()
            invariant
                self.wf(),
                self.runs@.len() == old(self).runs@.len(),
                self.logical_dates == old(self).logical_dates,
                self.max_concurrency == old(self).max_concurrency,
                i <= self.in_flight@.len(),
                forall|j: int|
                    0 <= j < old(self).queue@.len() ==> self.queue@[j] == old(self).queue@[j],
                self.queue@.len() >= old(self).queue@.len(),
                forall|i2: int, t: int|
                    0 <= i2 < old(self).runs@.len() && 0 <= t < old(self).runs@[i2].tasks@.len()
                        ==> {
                        &&& self.runs@[i2].tasks@.len() == old(self).runs@[i2].tasks@.len()
                        &&& (#[trigger] self.runs@[i2].tasks@[t]).results@.len() >= old(self).runs@[i2].tasks@[t].results@.len()
                        &&& forall|k: int|
                            0 <= k < old(self).runs@[i2].tasks@[t].results@.len()
                                ==> #[trigger] self.runs@[i2].tasks@[t].results@[k] == old(self).runs@[i2].tasks@[t].results@[k]
                        &&& self.runs@[i2].tasks@[t].task == old(self).runs@[i2].tasks@[t].task
                    },
                // Entries are only ever removed from the in-flight set.
                forall|j: int|
                    0 <= j < self.in_flight@.len() ==> old(self).in_flight@.contains(
                        #[trigger] self.in_flight@[j],
                    ),
                // Unexpired attempts whose task never expired are retained.
                forall|j: int|
                    0 <= j < old(self).in_flight@.len() && !old(self).attempt_expired(
                        #[trigger] old(self).in_flight@[j],
                        now,
                    ) && !old(self).shares_expired_task(old(self).in_flight@[j], now)
                        ==> self.in_flight@.contains(old(self).in_flight@[j]),
                // ... and their tasks' histories evolve only by the
                // unreachable-task rule.
                forall|i2: int, t: int|
                    0 <= i2 < old(self).runs@.len() && 0 <= t < old(self).runs@[i2].tasks@.len()
                        && !(exists|j: int|
                        0 <= j < old(self).in_flight@.len() && old(self).attempt_expired(
                            #[trigger] old(self).in_flight@[j],
                            now,
                        ) && old(self).in_flight@[j].run_id == i2 && old(self).in_flight@[
                            j
                        ].task_id == t) ==> {
                        &&& (#[trigger] self.runs@[i2].tasks@[t]).results == old(self).runs@[
                            i2
                        ].tasks@[t].results
                        &&& (self.runs@[i2].tasks@[t].status_history == old(self).runs@[
                            i2
                        ].tasks@[t].status_history || (self.runs@[i2].tasks@[t].status_history@
                            == old(self).runs@[i2].tasks@[t].status_history@.push(
                            TaskStatus::Skipped,
                        ) && old(self).runs@[i2].status_of(t) == TaskStatus::Pending))
                    },
                // Everything before the cursor is not expired.
                forall|j: int|
                    0 <= j < i ==> !self.attempt_expired(#[trigger] self.in_flight@[j], now),
                // An expired attempt is either still in flight or its task
                // got a fresh premature-failure result.
                forall|j: int|
                    0 <= j < old(self).in_flight@.len() && old(self).attempt_expired(
                        #[trigger] old(self).in_flight@[j],
                        now,
                    ) ==> self.in_flight@.contains(old(self).in_flight@[j]) || exists|k: int|
                        old(self).runs@[old(self).in_flight@[j].run_id as int].tasks@[
                            old(self).in_flight@[j].task_id as int
                        ].results@.len() <= k < self.runs@[
                            old(self).in_flight@[j].run_id as int
                        ].tasks@[old(self).in_flight@[j].task_id as int].results@.len() && (
                        #[trigger] self.runs@[old(self).in_flight@[j].run_id as int].tasks@[
                            old(self).in_flight@[j].task_id as int
                        ].results@[k]).premature_failure,
            decreases self.in_flight@.len(), self.in_flight@.len() - i,
        {
            let q = self.in_flight[i].duplicate();
            let timeout_opt = self.runs[q.run_id].tasks[q.task_id].task.options.timeout_ms;
            let mut is_expired = false;
            match timeout_opt {
                Some(t) => {
                    if (now as i128) - (q.queued_at as i128) > (t as i128) {
                        is_expired = true;
                    }
                },
                None => {},
            }
            if is_expired {
                let ghost before = *self;
                let (function_name, max_attempts, is_branch) = {
                    let task_ref = &self.runs[q.run_id].tasks[q.task_id].task;
                    (task_ref.function_name.clone(), task_ref.options.max_attempts,
                    task_ref.is_branch)
                };
                let reason: String = "timed out".to_owned();
                let result = TaskResult::premature(
                    q.task_id,
                    q.attempt,
                    max_attempts,
                    function_name,
                    reason,
                    is_branch,
                    now,
                );
                let ghost gresult = result;
                let outcome = self.handle_task_result(&q, result, &empty_selected, now);
                proof {
                    let rid = q.run_id as int;
                    let tid = q.task_id as int;
                    assert(self.runs@[rid].tasks@[tid].results@.len() > before.runs@[
                        rid
                    ].tasks@[tid].results@.len());
                    assert(self.runs@[rid].tasks@[tid].results@.last() == gresult);
                    assert(self.in_flight@.len() < before.in_flight@.len()) by {
                        assert(before.in_flight@[i as int].run_id == q.run_id
                            && before.in_flight@[i as int].task_id == q.task_id);
                    }
                    assert forall|j: int|
                        0 <= j < self.in_flight@.len() implies old(self).in_flight@.contains(
                        #[trigger] self.in_flight@[j],
                    ) by {
                        assert(before.in_flight@.contains(self.in_flight@[j]));
                        let w = choose|w: int|
                            0 <= w < before.in_flight@.len() && before.in_flight@[w]
                                == self.in_flight@[j];
                        assert(old(self).in_flight@.contains(before.in_flight@[w]));
                    }
                    assert forall|j: int|
                        0 <= j < old(self).in_flight@.len() && old(self).attempt_expired(
                            #[trigger] old(self).in_flight@[j],
                            now,
                        ) implies self.in_flight@.contains(old(self).in_flight@[j]) || exists|
                        k: int,
                    |
                        old(self).runs@[old(self).in_flight@[j].run_id as int].tasks@[
                            old(self).in_flight@[j].task_id as int
                        ].results@.len() <= k < self.runs@[
                            old(self).in_flight@[j].run_id as int
                        ].tasks@[old(self).in_flight@[j].task_id as int].results@.len() && (
                        #[trigger] self.runs@[old(self).in_flight@[j].run_id as int].tasks@[
                            old(self).in_flight@[j].task_id as int
                        ].results@[k]).premature_failure by {
                        let e = old(self).in_flight@[j];
                        let erid = e.run_id as int;
                        let etid = e.task_id as int;
                        if !self.in_flight@.contains(e) {
                            if before.in_flight@.contains(e) {
                                // Removed by this step, so it shares the
                                // handled task and just received the
                                // premature result.
                                assert(e.run_id == q.run_id && e.task_id == q.task_id);
                                let k = self.runs@[rid].tasks@[tid].results@.len() - 1;
                                assert(self.runs@[erid].tasks@[etid].results@[k]
                                    == gresult);
                            } else {
                                // Removed by an earlier step; the premature
                                // result it got then is still recorded,
                                // since result histories only grow.
                                let k = choose|k: int|
                                    old(self).runs@[erid].tasks@[etid].results@.len() <= k
                                        < before.runs@[erid].tasks@[etid].results@.len() && (
                                    #[trigger] before.runs@[erid].tasks@[
                                        etid
                                    ].results@[k]).premature_failure;
                                assert(self.runs@[erid].tasks@[etid].results@[k]
                                    == before.runs@[erid].tasks@[etid].results@[k]);
                            }
                        }
                    }
                }
                match outcome {
                    Ok(()) => {},
                    Err(e) => {
                        return Err(e);
                    },
                }
                i = 0;
            } else {
                i += 1;
            }
        }
        Ok(())
    }

    /// Index `k` is where a pop takes its entry: no queued entry has a
    /// smaller score, and among equal scores it is the earliest inserted.
    pub open spec fn is_min_at(q: Seq<OrderedQueuedTask>, k: int) -> bool {
        &&& 0 <= k < q.len()
        &&& forall|j: int| 0 <= j < q.len() ==> (#[trigger] q[j]).score >= q[k].score
        &&& forall|j: int| 0 <= j < k ==> (#[trigger] q[j]).score > q[k].score
    }

    /// The transition `pop_priority_queue` makes: either nothing (admission
    /// denied or empty queue), or the earliest lowest-score entry moves from
    /// the queue to the in-flight set in one step.
    pub open spec fn pop_post(
        pre: Orchestrator,
        post: Orchestrator,
        r: Option<OrderedQueuedTask>,
    ) -> bool {
        &&& r is Some <==> (pre.in_flight@.len() < pre.max_concurrency && pre.queue@.len() > 0)
        &&& r is None ==> post == pre
        &&& r matches Some(e) ==> {
            &&& exists|k: int|
                #[trigger] Orchestrator::is_min_at(pre.queue@, k) && e == pre.queue@[k]
                    && post.queue@ == pre.queue@.remove(k)
            &&& post.in_flight@.len() == pre.in_flight@.len() + 1
            &&& post.in_flight@.last() == e.queued_task
            &&& forall|j: int|
                0 <= j < pre.in_flight@.len() ==> post.in_flight@[j] == pre.in_flight@[j]
            &&& post.runs == pre.runs
            &&& post.logical_dates == pre.logical_dates
            &&& post.max_concurrency == pre.max_concurrency
        }
    }

    /// Admission-controlled pop: when the in-flight set is at or above the
    /// concurrency cap, nothing is popped — the engine's sole backpressure.
    /// Otherwise the earliest entry with the lowest score (depth) leaves the
    /// queue and joins the in-flight set, both in the same atomic step.
    pub fn pop_priority_queue(&mut self) -> (r: Option<OrderedQueuedTask>)
        requires
            old(self).wf(),
        ensures
            final(self).wf(),
            Orchestrator::pop_post(*old(self), *final(self), r),
    {
        if self.in_flight.len() >= self.max_concurrency {
            return None;
        }
        if self.queue.len() == 0 {
            return None;
        }
        let mut k: usize = 0;
        let mut i: usize = 1;
        while i < self.queue.len()
            invariant
                0 <= k < i <= self.queue@.len(),
                forall|j: int|
                    0 <= j < i ==> (#[trigger] self.queue@[j]).score >= self.queue@[
                        k as int
                    ].score,
                forall|j: int| 0 <= j < k ==> (#[trigger] self.queue@[j]).score > self.queue@[
                    k as int
                ].score,
            decreases self.queue@.len() - i,
        {
            if self.queue[i].score < self.queue[k].score {
                k = i;
            }
            i += 1;
        }
        let ghost pre = *self;
        let entry = self.queue.remove(k);
        self.in_flight.push(entry.queued_task.duplicate());
        proof {
            Orchestrator::lemma_dates_preserved(pre, *self);
            assert(Orchestrator::is_min_at(pre.queue@, k as int));
            assert forall|j: int|
                0 <= j < self.queue@.len() implies self.entry_valid(
                (#[trigger] self.queue@[j]).queued_task,
            ) by {
                if j < k {
                    assert(self.queue@[j] == pre.queue@[j]);
                    assert(pre.entry_valid(pre.queue@[j].queued_task));
                } else {
                    assert(self.queue@[j] == pre.queue@[j + 1]);
                    assert(pre.entry_valid(pre.queue@[j + 1].queued_task));
                }
            }
            assert forall|j: int|
                0 <= j < self.in_flight@.len() implies self.entry_valid(
                #[trigger] self.in_flight@[j],
            ) by {
                if j < pre.in_flight@.len() {
                    assert(pre.entry_valid(pre.in_flight@[j]));
                } else {
                    assert(self.in_flight@[j] == entry.queued_task);
                    assert(pre.entry_valid(pre.queue@[k as int].queued_task));
                }
            }
        }
        Some(entry)
    }

    /// Frees the concurrency slot of a completed dispatch: removes every
    /// in-flight entry for the same `(run, task)`.
    pub fn remove_from_in_flight(&mut self, queued_task: &QueuedTask)
        requires
            old(self).wf(),
        ensures
            final(self).wf(),
            forall|j: int|
                0 <= j < final(self).in_flight@.len() ==> !((#[trigger] final(self).in_flight@[j]).run_id
                    == queued_task.run_id && final(self).in_flight@[j].task_id
                    == queued_task.task_id),
            forall|e: QueuedTask|
                old(self).in_flight@.contains(e) && !(e.run_id == queued_task.run_id && e.task_id
                    == queued_task.task_id) ==> final(self).in_flight@.contains(e),
            forall|e: QueuedTask|
                final(self).in_flight@.contains(e) ==> old(self).in_flight@.contains(e),
            final(self).in_flight@.len() <= old(self).in_flight@.len(),
            (exists|j: int|
                0 <= j < old(self).in_flight@.len() && (#[trigger] old(self).in_flight@[j]).run_id
                    == queued_task.run_id && old(self).in_flight@[j].task_id
                    == queued_task.task_id) ==> final(self).in_flight@.len() < old(self).in_flight@.len(),
            final(self).runs == old(self).runs,
            final(self).queue == old(self).queue,
            final(self).logical_dates == old(self).logical_dates,
            final(self).max_concurrency == old(self).max_concurrency,
    {
        let ghost pre = *self;
        let mut kept: Vec<QueuedTask> = Vec::new();
        let mut matched = false;
        let mut j: usize = 0;
        while j < self.in_flight.len()
            invariant
                j <= self.in_flight@.len(),
                self.in_flight@ == pre.in_flight@,
                forall|x: int|
                    0 <= x < kept@.len() ==> !((#[trigger] kept@[x]).run_id == queued_task.run_id
                        && kept@[x].task_id == queued_task.task_id),
                forall|x: int|
                    0 <= x < kept@.len() ==> pre.in_flight@.contains(#[trigger] kept@[x]),
                forall|e: QueuedTask|
                    pre.in_flight@.subrange(0, j as int).contains(e) && !(e.run_id
                        == queued_task.run_id && e.task_id == queued_task.task_id)
                        ==> kept@.contains(e),
                kept@.len() <= j,
                matched ==> kept@.len() < j,
                matched == exists|x: int|
                    0 <= x < j && (#[trigger] pre.in_flight@[x]).run_id == queued_task.run_id
                        && pre.in_flight@[x].task_id == queued_task.task_id,
            decreases self.in_flight@.len() - j,
        {
            let e = &self.in_flight[j];
            if e.run_id == queued_task.run_id && e.task_id == queued_task.task_id {
                matched = true;
            } else {
                kept.push(e.duplicate());
                proof {
                    assert forall|x: QueuedTask|
                        pre.in_flight@.subrange(0, j + 1 as int).contains(x) && !(x.run_id
                            == queued_task.run_id && x.task_id == queued_task.task_id) implies
                        kept@.contains(x) by {
                        let w = pre.in_flight@.subrange(0, j + 1 as int).index_of(x);
                        if w < j {
                            assert(pre.in_flight@.subrange(0, j as int)[w] == x);
                        } else {
                            assert(kept@.last() == x);
                        }
                    }
                }
            }
            proof {
                if !(pre.in_flight@[j as int].run_id == queued_task.run_id
                    && pre.in_flight@[j as int].task_id == queued_task.task_id) {
                    assert forall|x: QueuedTask|
                        pre.in_flight@.subrange(0, j + 1 as int).contains(x) && !(x.run_id
                            == queued_task.run_id && x.task_id == queued_task.task_id) implies
                        kept@.contains(x) by {
                        let w = pre.in_flight@.subrange(0, j + 1 as int).index_of(x);
                        if w < j {
                            assert(pre.in_flight@.subrange(0, j as int)[w] == x);
                        }
                    }
                }
            }
            j += 1;
        }
        proof {
            assert(pre.in_flight@.subrange(0, pre.in_flight@.len() as int) =~= pre.in_flight@);
        }
        self.in_flight = kept;
        proof {
            Orchestrator::lemma_dates_preserved(pre, *self);
            assert forall|x: int|
                0 <= x < self.in_flight@.len() implies self.entry_valid(
                #[trigger] self.in_flight@[x],
            ) by {
                let w = choose|w: int|
                    0 <= w < pre.in_flight@.len() && pre.in_flight@[w] == self.in_flight@[x];
                assert(pre.entry_valid(pre.in_flight@[w]));
            }
        }
    }

    /// The current in-flight entries, oldest first.
    pub fn get_temp_queue(&self) -> (r: Vec<QueuedTask>)
        ensures
            r@ == self.in_flight@,
    {
        let mut r: Vec<QueuedTask> = Vec::new();
        let mut j: usize = 0;
        while j < self.in_flight.len()
            invariant
                j <= self.in_flight@.len(),
                r@ =~= self.in_flight@.subrange(0, j as int),
            decreases self.in_flight@.len() - j,
        {
            r.push(self.in_flight[j].duplicate());
            assert(r@ =~= self.in_flight@.subrange(0, j + 1 as int));
            j += 1;
        }
        proof {
            assert(self.in_flight@.subrange(0, self.in_flight@.len() as int) =~= self.in_flight@);
        }
        r
    }
}

/// Dispatch order: as long as an entry with a strictly smaller score — an
/// upstream task's entry — is still in the queue, a pop never hands out the
/// larger-scored entry. In a chain, the downstream task's entry cannot be
/// popped before the upstream task's entry has been popped at least once.
pub proof fn lemma_dispatch_order(
    pre: Orchestrator,
    post: Orchestrator,
    r: Option<OrderedQueuedTask>,
    a: int,
    b: int,
)
    requires
        Orchestrator::pop_post(pre, post, r),
        0 <= a < pre.queue@.len(),
        0 <= b < pre.queue@.len(),
        pre.queue@[a].score < pre.queue@[b].score,
    ensures
        r matches Some(e) ==> e.score < pre.queue@[b].score && e != pre.queue@[b],
{
    match r {
        Some(e) => {
            let k = choose|k: int|
                #[trigger] Orchestrator::is_min_at(pre.queue@, k) && e == pre.queue@[k]
                    && post.queue@ == pre.queue@.remove(k);
            assert(pre.queue@[a].score >= pre.queue@[k].score);
        },
        None => {},
    }
}

impl Orchestrator {
    /// Appends a new task to a run and starts it `Pending`; how a dynamic or
    /// lazily-expanding task extends its own run after it completes.
    /// Returns the new task's id.
    pub fn append_new_task_and_set_status_to_pending(
        &mut self,
        run_id: usize,
        function_name: String,
        template_args: Vec<crate::task::KeyVal>,
        options: crate::task::TaskOptions,
        lazy_expand: bool,
        is_dynamic: bool,
        is_branch: bool,
    ) -> (r: usize)
        requires
            old(self).wf(),
            run_id < old(self).runs@.len(),
            old(self).runs@[run_id as int].tasks@.len() < usize::MAX,
        ensures
            final(self).wf(),
            r == old(self).runs@[run_id as int].tasks@.len(),
            final(self).runs@.len() == old(self).runs@.len(),
            forall|i: int|
                0 <= i < old(self).runs@.len() && i != run_id ==> final(self).runs@[i] == old(self).runs@[i],
            final(self).runs@[run_id as int].tasks@.len() == old(self).runs@[
                run_id as int
            ].tasks@.len() + 1,
            forall|t: int|
                0 <= t < old(self).runs@[run_id as int].tasks@.len() ==> final(self).runs@[
                    run_id as int
                ].tasks@[t] == old(self).runs@[run_id as int].tasks@[t],
            final(self).runs@[run_id as int].tasks@.last().task.function_name == function_name,
            final(self).runs@[run_id as int].tasks@.last().task.template_args == template_args,
            final(self).runs@[run_id as int].tasks@.last().task.options == options,
            final(self).runs@[run_id as int].tasks@.last().task.is_branch == is_branch,
            final(self).runs@[run_id as int].tasks@.last().task.is_dynamic == is_dynamic,
            final(self).runs@[run_id as int].tasks@.last().task.lazy_expand == lazy_expand,
            final(self).runs@[run_id as int].status_of(r as int) == TaskStatus::Pending,
            final(self).runs@[run_id as int].tasks@.last().attempt == 0,
            final(self).runs@[run_id as int].tasks@.last().results@.len() == 0,
            final(self).queue == old(self).queue,
            final(self).in_flight == old(self).in_flight,
            final(self).logical_dates == old(self).logical_dates,
            final(self).max_concurrency == old(self).max_concurrency,
    {
        let ghost pre = *self;
        let r = {
            let run = &mut self.runs[run_id];
            run.append_task(
                function_name,
                template_args,
                options,
                lazy_expand,
                is_dynamic,
                is_branch,
            )
        };
        proof {
            Orchestrator::lemma_wf_after_run_update(pre, *self, run_id as int);
        }
        r
    }

    /// Inserts an edge into a run's graph (dynamic expansion); memoized
    /// depths of the run are invalidated, since upstream sets changed.
    pub fn insert_edge(&mut self, run_id: usize, u: usize, d: usize)
        requires
            old(self).wf(),
            run_id < old(self).runs@.len(),
            u < old(self).runs@[run_id as int].tasks@.len(),
            d < old(self).runs@[run_id as int].tasks@.len(),
        ensures
            final(self).wf(),
            final(self).runs@.len() == old(self).runs@.len(),
            forall|i: int|
                0 <= i < old(self).runs@.len() && i != run_id ==> final(self).runs@[i] == old(self).runs@[i],
            forall|a: int, b: int|
                final(self).runs@[run_id as int].has_edge(a, b) == (old(self).runs@[
                    run_id as int
                ].has_edge(a, b) || (a == u && b == d)),
            final(self).runs@[run_id as int].tasks@.len() == old(self).runs@[run_id as int].tasks@.len(),
            RunState::meta_same(old(self).runs@[run_id as int], final(self).runs@[run_id as int]),
            forall|t: int|
                0 <= t < old(self).runs@[run_id as int].tasks@.len()
                    ==> TaskRecord::changed_only_depth(
                    old(self).runs@[run_id as int].tasks@[t],
                    #[trigger] final(self).runs@[run_id as int].tasks@[t],
                ),
            final(self).queue == old(self).queue,
            final(self).in_flight == old(self).in_flight,
            final(self).logical_dates == old(self).logical_dates,
            final(self).max_concurrency == old(self).max_concurrency,
    {
        let ghost pre = *self;
        {
            let run = &mut self.runs[run_id];
            run.insert_edge(u, d);
        }
        proof {
            Orchestrator::lemma_wf_after_run_update(pre, *self, run_id as int);
        }
    }

    /// Removes an edge from a run's graph together with the downstream
    /// task's bindings on the upstream task; memoized depths of the run are
    /// invalidated.
    pub fn remove_edge(&mut self, run_id: usize, u: usize, d: usize)
        requires
            old(self).wf(),
            run_id < old(self).runs@.len(),
            u < old(self).runs@[run_id as int].tasks@.len(),
            d < old(self).runs@[run_id as int].tasks@.len(),
        ensures
            final(self).wf(),
            final(self).runs@.len() == old(self).runs@.len(),
            forall|i: int|
                0 <= i < old(self).runs@.len() && i != run_id ==> final(self).runs@[i] == old(self).runs@[i],
            forall|a: int, b: int|
                final(self).runs@[run_id as int].has_edge(a, b) == (old(self).runs@[
                    run_id as int
                ].has_edge(a, b) && !(a == u && b == d)),
            forall|k: int|
                0 <= k < final(self).runs@[run_id as int].tasks@[d as int].dep_keys@.len() ==> (
                #[trigger] final(self).runs@[run_id as int].tasks@[d as int].dep_keys@[k]).upstream
                    != u,
            forall|k: crate::run::DepKey|
                old(self).runs@[run_id as int].tasks@[d as int].dep_keys@.contains(k)
                    && k.upstream != u ==> final(self).runs@[run_id as int].tasks@[
                    d as int
                ].dep_keys@.contains(k),
            forall|t: int|
                0 <= t < old(self).runs@[run_id as int].tasks@.len() && t != d ==> (
                #[trigger] final(self).runs@[run_id as int].tasks@[t]).dep_keys == old(self).runs@[run_id as int].tasks@[t].dep_keys,
            forall|t: int|
                0 <= t < old(self).runs@[run_id as int].tasks@.len() ==> {
                    &&& (#[trigger] final(self).runs@[run_id as int].tasks@[t]).task == old(self).runs@[run_id as int].tasks@[t].task
                    &&& final(self).runs@[run_id as int].tasks@[t].status_history == old(self).runs@[run_id as int].tasks@[t].status_history
                    &&& final(self).runs@[run_id as int].tasks@[t].results == old(self).runs@[run_id as int].tasks@[t].results
                    &&& final(self).runs@[run_id as int].tasks@[t].attempt == old(self).runs@[run_id as int].tasks@[t].attempt
                    &&& final(self).runs@[run_id as int].tasks@[t].logs == old(self).runs@[run_id as int].tasks@[t].logs
                    &&& final(self).runs@[run_id as int].tasks@[t].depth is None
                },
            final(self).runs@[run_id as int].tasks@.len() == old(self).runs@[run_id as int].tasks@.len(),
            RunState::meta_same(old(self).runs@[run_id as int], final(self).runs@[run_id as int]),
            final(self).queue == old(self).queue,
            final(self).in_flight == old(self).in_flight,
            final(self).logical_dates == old(self).logical_dates,
            final(self).max_concurrency == old(self).max_concurrency,
    {
        let ghost pre = *self;
        {
            let run = &mut self.runs[run_id];
            run.remove_edge(u, d);
        }
        proof {
            Orchestrator::lemma_wf_after_run_update(pre, *self, run_id as int);
        }
    }

    /// Records a dependency binding for a task of a run.
    pub fn set_dependency_keys(
        &mut self,
        run_id: usize,
        task_id: usize,
        upstream: (usize, Option<String>),
        v: Option<String>,
    )
        requires
            old(self).wf(),
            run_id < old(self).runs@.len(),
            task_id < old(self).runs@[run_id as int].tasks@.len(),
        ensures
            final(self).wf(),
            final(self).runs@.len() == old(self).runs@.len(),
            forall|i: int|
                0 <= i < old(self).runs@.len() && i != run_id ==> final(self).runs@[i] == old(self).runs@[i],
            final(self).runs@[run_id as int].tasks@[task_id as int].dep_keys@ == old(self).runs@[
                run_id as int
            ].tasks@[task_id as int].dep_keys@.push(
                crate::run::DepKey { upstream: upstream.0, arg_key: upstream.1, result_key: v },
            ),
            TaskRecord::changed_only_dep_keys(
                old(self).runs@[run_id as int].tasks@[task_id as int],
                final(self).runs@[run_id as int].tasks@[task_id as int],
            ),
            forall|t: int|
                0 <= t < old(self).runs@[run_id as int].tasks@.len() && t != task_id ==> (
                #[trigger] final(self).runs@[run_id as int].tasks@[t]) == old(self).runs@[
                    run_id as int
                ].tasks@[t],
            final(self).runs@[run_id as int].tasks@.len() == old(self).runs@[run_id as int].tasks@.len(),
            RunState::meta_same(old(self).runs@[run_id as int], final(self).runs@[run_id as int]),
            final(self).runs@[run_id as int].edges@ == old(self).runs@[run_id as int].edges@,
            final(self).queue == old(self).queue,
            final(self).in_flight == old(self).in_flight,
            final(self).logical_dates == old(self).logical_dates,
            final(self).max_concurrency == old(self).max_concurrency,
    {
        let ghost pre = *self;
        {
            let run = &mut self.runs[run_id];
            run.set_dependency_keys(task_id, upstream, v);
        }
        proof {
            Orchestrator::lemma_wf_after_run_update(pre, *self, run_id as int);
        }
    }

    /// Claims a dequeued task for execution: sets it `Running` exactly when
    /// it is currently `Pending` or `Retrying`, and reports whether the
    /// claim won. A worker whose claim loses drops the entry.
    pub fn set_status_to_running_if_possible(&mut self, run_id: usize, task_id: usize) -> (r:
        bool)
        requires
            old(self).wf(),
            run_id < old(self).runs@.len(),
            task_id < old(self).runs@[run_id as int].tasks@.len(),
        ensures
            final(self).wf(),
            final(self).runs@.len() == old(self).runs@.len(),
            forall|i: int|
                0 <= i < old(self).runs@.len() && i != run_id ==> final(self).runs@[i] == old(self).runs@[i],
            r == (old(self).runs@[run_id as int].status_of(task_id as int) == TaskStatus::Pending
                || old(self).runs@[run_id as int].status_of(task_id as int)
                == TaskStatus::Retrying),
            r ==> final(self).runs@[run_id as int].status_of(task_id as int)
                == TaskStatus::Running,
            !r ==> final(self).runs@ == old(self).runs@,
            TaskRecord::changed_only_history(
                old(self).runs@[run_id as int].tasks@[task_id as int],
                final(self).runs@[run_id as int].tasks@[task_id as int],
            ),
            forall|t: int|
                0 <= t < old(self).runs@[run_id as int].tasks@.len() && t != task_id ==> (
                #[trigger] final(self).runs@[run_id as int].tasks@[t]) == old(self).runs@[
                    run_id as int
                ].tasks@[t],
            final(self).runs@[run_id as int].tasks@.len() == old(self).runs@[run_id as int].tasks@.len(),
            RunState::meta_same(old(self).runs@[run_id as int], final(self).runs@[run_id as int]),
            final(self).runs@[run_id as int].edges@ == old(self).runs@[run_id as int].edges@,
            final(self).queue == old(self).queue,
            final(self).in_flight == old(self).in_flight,
            final(self).logical_dates == old(self).logical_dates,
            final(self).max_concurrency == old(self).max_concurrency,
    {
        let ghost pre = *self;
        let r = {
            let run = &mut self.runs[run_id];
            run.set_status_to_running_if_possible(task_id)
        };
        proof {
            Orchestrator::lemma_wf_after_run_update(pre, *self, run_id as int);
            if !r {
                assert(self.runs@ =~= pre.runs@);
            }
        }
        r
    }

    /// The memoized depth of a task, computed first if missing; `None`
    /// exactly when the run's edge set has a cycle.
    pub fn get_task_depth(&mut self, run_id: usize, task_id: usize) -> (r: Option<usize>)
        requires
            old(self).wf(),
            run_id < old(self).runs@.len(),
            task_id < old(self).runs@[run_id as int].tasks@.len(),
            old(self).runs@[run_id as int].tasks@.len() < usize::MAX,
        ensures
            final(self).wf(),
            final(self).runs@.len() == old(self).runs@.len(),
            forall|i: int|
                0 <= i < old(self).runs@.len() && i != run_id ==> final(self).runs@[i] == old(self).runs@[i],
            r == final(self).runs@[run_id as int].tasks@[task_id as int].depth,
            // `None` certifies a cycle: every depth-less task of the run
            // has a depth-less upstream task.
            r is None ==> forall|t: int|
                0 <= t < final(self).runs@[run_id as int].tasks@.len() && (#[trigger] final(self).runs@[run_id as int].tasks@[t]).depth is None ==> exists|u: int|
                    final(self).runs@[run_id as int].has_edge(u, t) && final(self).runs@[
                        run_id as int
                    ].tasks@[u].depth is None,
            forall|t: int|
                0 <= t < old(self).runs@[run_id as int].tasks@.len()
                    ==> TaskRecord::changed_only_depth(
                    old(self).runs@[run_id as int].tasks@[t],
                    #[trigger] final(self).runs@[run_id as int].tasks@[t],
                ),
            final(self).runs@[run_id as int].tasks@.len() == old(self).runs@[run_id as int].tasks@.len(),
            RunState::meta_same(old(self).runs@[run_id as int], final(self).runs@[run_id as int]),
            final(self).runs@[run_id as int].edges@ == old(self).runs@[run_id as int].edges@,
            final(self).queue == old(self).queue,
            final(self).in_flight == old(self).in_flight,
            final(self).logical_dates == old(self).logical_dates,
            final(self).max_concurrency == old(self).max_concurrency,
    {
        let ghost pre = *self;
        let r = {
            let run = &mut self.runs[run_id];
            run.get_task_depth(task_id)
        };
        proof {
            Orchestrator::lemma_wf_after_run_update(pre, *self, run_id as int);
        }
        r
    }

    /// Invalidates a task's memoized depth (and with it the run's other
    /// memos, which may depend on it); queried again after edge mutations.
    pub fn delete_task_depth(&mut self, run_id: usize, task_id: usize)
        requires
            old(self).wf(),
            run_id < old(self).runs@.len(),
            task_id < old(self).runs@[run_id as int].tasks@.len(),
        ensures
            final(self).wf(),
            final(self).runs@.len() == old(self).runs@.len(),
            forall|i: int|
                0 <= i < old(self).runs@.len() && i != run_id ==> final(self).runs@[i] == old(self).runs@[i],
            final(self).runs@[run_id as int].tasks@[task_id as int].depth is None,
            forall|t: int|
                0 <= t < old(self).runs@[run_id as int].tasks@.len() ==> (#[trigger] final(self).runs@[run_id as int].tasks@[t]).depth is None,
            forall|t: int|
                0 <= t < old(self).runs@[run_id as int].tasks@.len()
                    ==> TaskRecord::changed_only_depth(
                    old(self).runs@[run_id as int].tasks@[t],
                    #[trigger] final(self).runs@[run_id as int].tasks@[t],
                ),
            final(self).runs@[run_id as int].tasks@.len() == old(self).runs@[run_id as int].tasks@.len(),
            RunState::meta_same(old(self).runs@[run_id as int], final(self).runs@[run_id as int]),
            final(self).runs@[run_id as int].edges@ == old(self).runs@[run_id as int].edges@,
            final(self).queue == old(self).queue,
            final(self).in_flight == old(self).in_flight,
            final(self).logical_dates == old(self).logical_dates,
            final(self).max_concurrency == old(self).max_concurrency,
    {
        let ghost pre = *self;
        {
            let run = &mut self.runs[run_id];
            run.delete_task_depth(task_id);
        }
        proof {
            Orchestrator::lemma_wf_after_run_update(pre, *self, run_id as int);
        }
    }

    /// Appends one captured output line for a task attempt of a run.
    pub fn handle_log(&mut self, run_id: usize, task_id: usize, attempt: usize, line: String)
        requires
            old(self).wf(),
            run_id < old(self).runs@.len(),
            task_id < old(self).runs@[run_id as int].tasks@.len(),
        ensures
            final(self).wf(),
            final(self).runs@.len() == old(self).runs@.len(),
            forall|i: int|
                0 <= i < old(self).runs@.len() && i != run_id ==> final(self).runs@[i] == old(self).runs@[i],
            final(self).runs@[run_id as int].tasks@[task_id as int].logs@ == old(self).runs@[
                run_id as int
            ].tasks@[task_id as int].logs@.push(crate::task::LogLine { attempt, line }),
            TaskRecord::changed_only_logs(
                old(self).runs@[run_id as int].tasks@[task_id as int],
                final(self).runs@[run_id as int].tasks@[task_id as int],
            ),
            forall|t: int|
                0 <= t < old(self).runs@[run_id as int].tasks@.len() && t != task_id ==> (
                #[trigger] final(self).runs@[run_id as int].tasks@[t]) == old(self).runs@[
                    run_id as int
                ].tasks@[t],
            final(self).runs@[run_id as int].tasks@.len() == old(self).runs@[run_id as int].tasks@.len(),
            RunState::meta_same(old(self).runs@[run_id as int], final(self).runs@[run_id as int]),
            final(self).runs@[run_id as int].edges@ == old(self).runs@[run_id as int].edges@,
            final(self).queue == old(self).queue,
            final(self).in_flight == old(self).in_flight,
            final(self).logical_dates == old(self).logical_dates,
            final(self).max_concurrency == old(self).max_concurrency,
    {
        let ghost pre = *self;
        {
            let run = &mut self.runs[run_id];
            run.append_log(task_id, attempt, line);
        }
        proof {
            Orchestrator::lemma_wf_after_run_update(pre, *self, run_id as int);
        }
    }

    /// The listing entries of every run of the workflow, in creation order.
    pub open spec fn runs_for(s: Seq<RunState>, name: Seq<char>) -> Seq<Run>
        decreases s.len(),
    {
        if s.len() == 0 {
            Seq::empty()
        } else {
            let rest = Orchestrator::runs_for(s.drop_last(), name);
            if s.last().dag_name@ == name {
                rest.push(Run { run_id: s.last().run_id, date: s.last().logical_date })
            } else {
                rest
            }
        }
    }

    /// Every run of the workflow, oldest first.
    pub fn get_runs(&self, dag_name: &str) -> (r: Vec<Run>)
        ensures
            r@ == Orchestrator::runs_for(self.runs@, dag_name@),
    {
        let mut out: Vec<Run> = Vec::new();
        let mut i: usize = 0;
        while i < self.runs.len()
            invariant
                i <= self.runs@.len(),
                out@ == Orchestrator::runs_for(self.runs@.subrange(0, i as int), dag_name@),
            decreases self.runs@.len() - i,
        {
            let run = &self.runs[i];
            if str_eq(run.dag_name.as_str(), dag_name) {
                out.push(Run { run_id: run.run_id, date: run.logical_date });
            }
            proof {
                assert(self.runs@.subrange(0, i + 1 as int).drop_last() =~= self.runs@.subrange(
                    0,
                    i as int,
                ));
                assert(self.runs@.subrange(0, i + 1 as int).last() == self.runs@[i as int]);
            }
            i += 1;
        }
        proof {
            assert(self.runs@.subrange(0, self.runs@.len() as int) =~= self.runs@);
        }
        out
    }

    /// The most recently created run of the workflow, if any.
    pub fn get_last_run(&self, dag_name: &str) -> (r: Option<Run>)
        ensures
            ({
                let all = Orchestrator::runs_for(self.runs@, dag_name@);
                if all.len() > 0 {
                    r == Some(all.last())
                } else {
                    r is None
                }
            }),
    {
        let all = self.get_runs(dag_name);
        if all.len() == 0 {
            None
        } else {
            Some(all[all.len() - 1])
        }
    }

    /// The up-to-ten most recently created runs of the workflow, oldest
    /// first.
    pub fn get_recent_runs(&self, dag_name: &str) -> (r: Vec<Run>)
        ensures
            ({
                let all = Orchestrator::runs_for(self.runs@, dag_name@);
                r@ == all.subrange(if all.len() >= 10 {
                    all.len() - 10
                } else {
                    0
                }, all.len() as int)
            }),
    {
        let all = self.get_runs(dag_name);
        let start: usize = if all.len() >= 10 {
            all.len() - 10
        } else {
            0
        };
        let mut out: Vec<Run> = Vec::new();
        let mut i: usize = start;
        while i < all.len()
            invariant
                start <= i <= all@.len(),
                out@ =~= all@.subrange(start as int, i as int),
            decreases all@.len() - i,
        {
            out.push(all[i]);
            assert(out@ =~= all@.subrange(start as int, i + 1 as int));
            i += 1;
        }
        out
    }

    /// The id and definition hash of every run of the workflow that has not
    /// been marked finished.
    pub fn get_pending_runs(&self, dag_name: &str) -> (r: Vec<(usize, String)>)
        requires
            self.wf(),
        ensures
            forall|j: int|
                0 <= j < r@.len() ==> (#[trigger] r@[j]).0 < self.runs@.len() && self.runs@[
                    r@[j].0 as int
                ].dag_name@ == dag_name@ && self.runs@[r@[j].0 as int].status
                    == RunStatus::Pending && r@[j].1@ == self.runs@[r@[j].0 as int].dag_hash@,
            forall|i: int|
                0 <= i < self.runs@.len() && (#[trigger] self.runs@[i]).dag_name@ == dag_name@
                    && self.runs@[i].status == RunStatus::Pending ==> exists|j: int|
                    0 <= j < r@.len() && (#[trigger] r@[j]).0 == i,
    {
        let mut out: Vec<(usize, String)> = Vec::new();
        let mut i: usize = 0;
        while i < self.runs.len()
            invariant
                self.wf(),
                i <= self.runs@.len(),
                forall|j: int|
                    0 <= j < out@.len() ==> (#[trigger] out@[j]).0 < self.runs@.len()
                        && self.runs@[out@[j].0 as int].dag_name@ == dag_name@ && self.runs@[
                        out@[j].0 as int
                    ].status == RunStatus::Pending && out@[j].1@ == self.runs@[
                        out@[j].0 as int
                    ].dag_hash@,
                forall|x: int|
                    0 <= x < i && (#[trigger] self.runs@[x]).dag_name@ == dag_name@
                        && self.runs@[x].status == RunStatus::Pending ==> exists|j: int|
                        0 <= j < out@.len() && (#[trigger] out@[j]).0 == x,
            decreases self.runs@.len() - i,
        {
            let ghost out_pre = out@;
            let run = &self.runs[i];
            if str_eq(run.dag_name.as_str(), dag_name) && matches!(run.status, RunStatus::Pending) {
                out.push((i, run.dag_hash.clone()));
                proof {
                    assert(out@.last().0 == i);
                }
            }
            proof {
                assert forall|x: int|
                    0 <= x < i + 1 && (#[trigger] self.runs@[x]).dag_name@ == dag_name@
                        && self.runs@[x].status == RunStatus::Pending implies exists|j: int|
                    0 <= j < out@.len() && (#[trigger] out@[j]).0 == x by {
                    if x < i {
                        let j = choose|j: int| 0 <= j < out_pre.len() && out_pre[j].0 == x;
                        assert(out@[j].0 == x);
                    } else {
                        assert(out@.last().0 == i);
                    }
                }
            }
            i += 1;
        }
        out
    }
}

/// Idempotent run creation: two callers that both observed the logical date
/// as absent and then call `create_run` one after the other produce exactly
/// one run — the check and the registration are one atomic step, so the
/// second call sees the registration and backs off without touching
/// anything.
pub proof fn lemma_idempotent_run_creation(
    s0: Orchestrator,
    s1: Orchestrator,
    s2: Orchestrator,
    name: Seq<char>,
    hash: Seq<char>,
    date: i64,
    r1: Option<usize>,
    r2: Option<usize>,
)
    requires
        !s0.spec_has_date(name, hash, date),
        Orchestrator::create_run_post(s0, s1, name, hash, date, r1),
        Orchestrator::create_run_post(s1, s2, name, hash, date, r2),
    ensures
        r1 == Some(s0.runs@.len() as usize),
        r2 is None,
        s2 == s1,
        s1.runs@.len() == s0.runs@.len() + 1,
{
}

/// One run per logical date: in a well-formed engine no two runs carry the
/// same `(workflow, definition hash, logical date)` triple.
pub proof fn lemma_one_run_per_date(s: Orchestrator, i: int, j: int)
    requires
        s.wf(),
        0 <= i < s.runs@.len(),
        0 <= j < s.runs@.len(),
        s.runs@[i].dag_name@ == s.runs@[j].dag_name@,
        s.runs@[i].dag_hash@ == s.runs@[j].dag_hash@,
        s.runs@[i].logical_date == s.runs@[j].logical_date,
    ensures
        i == j,
{
}

/// The kind of failure an engine operation can report.
#[derive(Clone, Copy, PartialEq, Eq, Structural, Debug)]
pub enum EngineError {
    /// The run's edge set has a cycle, so no depth ordering exists.
    CycleDetected,
    /// A task was handed out as many attempts as the counter can hold.
    AttemptOverflow,
    /// A seeded edge names a task its workflow definition does not have.
    InvalidEdge,
}

} // verus!
