//! Per-run state: the task table, the edge set, status and result histories,
//! dependency keys, logs, and memoized depths.

use vstd::prelude::*;

use crate::task::{current_status, KeyVal, LogLine, Task, TaskResult, TaskStatus};

verus! {

broadcast use vstd::seq_lib::group_seq_properties;

/// One dependency binding of a task: when the task's arguments are resolved,
/// the argument named `arg_key` receives the field named `result_key` of the
/// upstream task's current result. A binding with no `arg_key` only records
/// the edge relationship.
pub struct DepKey {
    pub upstream: usize,
    pub arg_key: Option<String>,
    pub result_key: Option<String>,
}

/// Everything a run stores about one task.
pub struct TaskRecord {
    /// The task's definition; `task.id` equals its index in the run's table.
    pub task: Task,
    /// Append-only history of status transitions; the current status is the
    /// most recent entry, `Pending` when empty.
    pub status_history: Vec<TaskStatus>,
    /// Append-only history of attempt results; the latest is current.
    pub results: Vec<TaskResult>,
    /// How many attempts have been handed out so far.
    pub attempt: usize,
    /// Memoized dispatch depth; cleared whenever the edge set changes.
    pub depth: Option<usize>,
    /// The task's dependency bindings.
    pub dep_keys: Vec<DepKey>,
    /// Captured output lines, tagged with the attempt they belong to.
    pub logs: Vec<LogLine>,
}

/// The status of a run as a whole.
#[derive(Clone, Copy, PartialEq, Eq, Structural, Debug)]
pub enum RunStatus {
    Pending,
    Completed,
}

impl TaskRecord {
    /// `b` is `a` with at most the status history changed.
    pub open spec fn changed_only_history(a: TaskRecord, b: TaskRecord) -> bool {
        &&& b.task == a.task
        &&& b.results == a.results
        &&& b.attempt == a.attempt
        &&& b.depth == a.depth
        &&& b.dep_keys == a.dep_keys
        &&& b.logs == a.logs
    }

    /// `b` is `a` with at most the result history changed.
    pub open spec fn changed_only_results(a: TaskRecord, b: TaskRecord) -> bool {
        &&& b.task == a.task
        &&& b.status_history == a.status_history
        &&& b.attempt == a.attempt
        &&& b.depth == a.depth
        &&& b.dep_keys == a.dep_keys
        &&& b.logs == a.logs
    }

    /// `b` is `a` with at most the attempt counter changed.
    pub open spec fn changed_only_attempt(a: TaskRecord, b: TaskRecord) -> bool {
        &&& b.task == a.task
        &&& b.status_history == a.status_history
        &&& b.results == a.results
        &&& b.depth == a.depth
        &&& b.dep_keys == a.dep_keys
        &&& b.logs == a.logs
    }

    /// `b` is `a` with at most the dependency bindings changed.
    pub open spec fn changed_only_dep_keys(a: TaskRecord, b: TaskRecord) -> bool {
        &&& b.task == a.task
        &&& b.status_history == a.status_history
        &&& b.results == a.results
        &&& b.attempt == a.attempt
        &&& b.depth == a.depth
        &&& b.logs == a.logs
    }

    /// `b` is `a` with at most the captured logs changed.
    pub open spec fn changed_only_logs(a: TaskRecord, b: TaskRecord) -> bool {
        &&& b.task == a.task
        &&& b.status_history == a.status_history
        &&& b.results == a.results
        &&& b.attempt == a.attempt
        &&& b.depth == a.depth
        &&& b.dep_keys == a.dep_keys
    }

    /// `b` is `a` with at most the memoized depth changed.
    pub open spec fn changed_only_depth(a: TaskRecord, b: TaskRecord) -> bool {
        &&& b.task == a.task
        &&& b.status_history == a.status_history
        &&& b.results == a.results
        &&& b.attempt == a.attempt
        &&& b.dep_keys == a.dep_keys
        &&& b.logs == a.logs
    }
}

/// One run of a workflow: an instantiation of its task graph for a specific
/// logical date.
pub struct RunState {
    /// Globally unique; equal to this run's index in the engine's run table.
    pub run_id: usize,
    pub dag_name: String,
    /// Content hash of the workflow definition the run was created from.
    pub dag_hash: String,
    /// The nominal schedule time this run represents, in milliseconds.
    pub logical_date: i64,
    pub status: RunStatus,
    pub tasks: Vec<TaskRecord>,
    /// Directed edges `(upstream, downstream)` between task ids.
    pub edges: Vec<(usize, usize)>,
}

impl RunState {
    /// There is an edge from task `u` to task `d`.
    pub open spec fn has_edge(self, u: int, d: int) -> bool {
        exists|k: int|
            0 <= k < self.edges@.len() && self.edges@[k].0 == u && self.edges@[k].1 == d
    }

    /// Task `t` has at least one upstream task.
    pub open spec fn has_upstream(self, t: int) -> bool {
        exists|u: int| self.has_edge(u, t)
    }

    /// The current status of task `t`.
    pub open spec fn status_of(self, t: int) -> TaskStatus {
        current_status(self.tasks@[t].status_history@)
    }

    /// Task `t` is in a terminal status.
    pub open spec fn task_complete(self, t: int) -> bool {
        self.status_of(t).is_terminal()
    }

    /// Some upstream task of `t` has not reached a terminal status; such a
    /// task must not be dispatched yet.
    pub open spec fn spec_any_upstream_incomplete(self, t: int) -> bool {
        exists|u: int| self.has_edge(u, t) && !self.task_complete(u)
    }

    /// The memoized depth of task `t` is consistent with the current edge
    /// set: `0` for a task with no upstream, and one more than the maximum
    /// upstream depth otherwise (every upstream depth is memoized, all are
    /// smaller, and one equals `d - 1`).
    pub open spec fn depth_ok_at(self, t: int) -> bool {
        self.tasks@[t].depth matches Some(d) ==> {
            if self.has_upstream(t) {
                &&& forall|u: int|
                    self.has_edge(u, t) ==> (self.tasks@[u].depth matches Some(du) && du < d)
                &&& exists|u: int|
                    self.has_edge(u, t) && self.tasks@[u].depth == Some((d - 1) as usize)
            } else {
                d == 0
            }
        }
    }

    /// Well-formedness: edges stay inside the task table, each task knows its
    /// own id, and every memoized depth is consistent with the edge set (the
    /// depth invariant; depths are cleared on any edge mutation).
    pub open spec fn wf(self) -> bool {
        &&& forall|k: int|
            0 <= k < self.edges@.len() ==> (#[trigger] self.edges@[k]).0 < self.tasks@.len()
                && self.edges@[k].1 < self.tasks@.len()
        &&& forall|k1: int, k2: int|
            0 <= k1 < self.edges@.len() && 0 <= k2 < self.edges@.len() && k1 != k2 ==> #[trigger] self.edges@[k1]
                != #[trigger] self.edges@[k2]
        &&& forall|t: int| 0 <= t < self.tasks@.len() ==> (#[trigger] self.tasks@[t]).task.id == t
        &&& forall|t: int| 0 <= t < self.tasks@.len() ==> self.depth_ok_at(t)
    }

    /// The ids of all direct upstream tasks of `t`, each at most once.
    pub fn get_upstream(&self, task_id: usize) -> (r: Vec<usize>)
        ensures
            forall|j: int| 0 <= j < r@.len() ==> self.has_edge(#[trigger] r@[j] as int, task_id as int),
            forall|u: int| self.has_edge(u, task_id as int) ==> r@.contains(u as usize),
            forall|j: int|
                0 <= j < r@.len() ==> #[trigger] r@[j] < self.tasks@.len() || !self.wf(),
            forall|x: int, y: int|
                0 <= x < r@.len() && 0 <= y < r@.len() && x != y ==> #[trigger] r@[x]
                    != #[trigger] r@[y] || !self.wf(),
    {
        let mut r: Vec<usize> = Vec::new();
        let ghost mut sources: Seq<int> = Seq::empty();
        let mut k: usize = 0;
        while k < self.edges.len()
            invariant
                k <= self.edges@.len(),
                sources.len() == r@.len(),
                forall|j: int|
                    0 <= j < r@.len() ==> 0 <= #[trigger] sources[j] < k && self.edges@[
                        sources[j]
                    ] == (r@[j], task_id),
                forall|x: int, y: int|
                    0 <= x < y < sources.len() ==> sources[x] < sources[y],
                forall|j: int|
                    0 <= j < r@.len() ==> self.has_edge(#[trigger] r@[j] as int, task_id as int),
                forall|e: int|
                    0 <= e < k && self.edges@[e].1 == task_id ==> r@.contains(
                        #[trigger] self.edges@[e].0,
                    ),
            decreases self.edges@.len() - k,
        {
            let (u, d) = self.edges[k];
            if d == task_id {
                r.push(u);
                proof {
                    sources = sources.push(k as int);
                }
            }
            k += 1;
        }
        proof {
            if self.wf() {
                assert forall|x: int, y: int|
                    0 <= x < r@.len() && 0 <= y < r@.len() && x != y implies #[trigger] r@[x]
                    != #[trigger] r@[y] by {
                    assert(sources[x] != sources[y]);
                    assert(self.edges@[sources[x]] != self.edges@[sources[y]]);
                }
            }
        }
        assert forall|u: int| self.has_edge(u, task_id as int) implies r@.contains(u as usize) by {
            let e = choose|e: int|
                0 <= e < self.edges@.len() && self.edges@[e].0 == u && self.edges@[e].1
                    == task_id as int;
            assert(r@.contains(self.edges@[e].0));
        }
        assert forall|j: int| 0 <= j < r@.len() && self.wf() implies r@[j] < self.tasks@.len() by {
            assert(self.has_edge(r@[j] as int, task_id as int));
            let e = choose|e: int|
                0 <= e < self.edges@.len() && self.edges@[e].0 == r@[j] as int && self.edges@[e].1
                    == task_id as int;
            assert(self.edges@[e].0 < self.tasks@.len());
        }
        r
    }

    /// The ids of all direct downstream tasks of `t`, each at most once.
    pub fn get_downstream(&self, task_id: usize) -> (r: Vec<usize>)
        ensures
            forall|j: int| 0 <= j < r@.len() ==> self.has_edge(task_id as int, #[trigger] r@[j] as int),
            forall|d: int| self.has_edge(task_id as int, d) ==> r@.contains(d as usize),
            forall|j: int|
                0 <= j < r@.len() ==> #[trigger] r@[j] < self.tasks@.len() || !self.wf(),
            forall|x: int, y: int|
                0 <= x < r@.len() && 0 <= y < r@.len() && x != y ==> #[trigger] r@[x]
                    != #[trigger] r@[y] || !self.wf(),
    {
        let mut r: Vec<usize> = Vec::new();
        let ghost mut sources: Seq<int> = Seq::empty();
        let mut k: usize = 0;
        while k < self.edges.len()
            invariant
                k <= self.edges@.len(),
                sources.len() == r@.len(),
                forall|j: int|
                    0 <= j < r@.len() ==> 0 <= #[trigger] sources[j] < k && self.edges@[
                        sources[j]
                    ] == (task_id, r@[j]),
                forall|x: int, y: int|
                    0 <= x < y < sources.len() ==> sources[x] < sources[y],
                forall|j: int|
                    0 <= j < r@.len() ==> self.has_edge(task_id as int, #[trigger] r@[j] as int),
                forall|e: int|
                    0 <= e < k && self.edges@[e].0 == task_id ==> r@.contains(
                        #[trigger] self.edges@[e].1,
                    ),
            decreases self.edges@.len() - k,
        {
            let (u, d) = self.edges[k];
            if u == task_id {
                r.push(d);
                proof {
                    sources = sources.push(k as int);
                }
            }
            k += 1;
        }
        proof {
            if self.wf() {
                assert forall|x: int, y: int|
                    0 <= x < r@.len() && 0 <= y < r@.len() && x != y implies #[trigger] r@[x]
                    != #[trigger] r@[y] by {
                    assert(sources[x] != sources[y]);
                    assert(self.edges@[sources[x]] != self.edges@[sources[y]]);
                }
            }
        }
        assert forall|d: int| self.has_edge(task_id as int, d) implies r@.contains(d as usize) by {
            let e = choose|e: int|
                0 <= e < self.edges@.len() && self.edges@[e].0 == task_id as int && self.edges@[e].1
                    == d;
            assert(r@.contains(self.edges@[e].1));
        }
        assert forall|j: int| 0 <= j < r@.len() && self.wf() implies r@[j] < self.tasks@.len() by {
            assert(self.has_edge(task_id as int, r@[j] as int));
            let e = choose|e: int|
                0 <= e < self.edges@.len() && self.edges@[e].0 == task_id as int && self.edges@[e].1
                    == r@[j] as int;
            assert(self.edges@[e].1 < self.tasks@.len());
        }
        r
    }

    /// `post` is `pre` with the run's own fields (id, names, date, status)
    /// unchanged.
    pub open spec fn meta_same(pre: RunState, post: RunState) -> bool {
        &&& post.run_id == pre.run_id
        &&& post.dag_name == pre.dag_name
        &&& post.dag_hash == pre.dag_hash
        &&& post.logical_date == pre.logical_date
        &&& post.status == pre.status
    }

    /// Every task record other than `t` is unchanged between `pre` and `post`.
    pub open spec fn tasks_unchanged_except(pre: RunState, post: RunState, t: int) -> bool {
        &&& post.tasks@.len() == pre.tasks@.len()
        &&& forall|j: int|
            0 <= j < pre.tasks@.len() && j != t ==> post.tasks@[j] == pre.tasks@[j]
    }

    /// Well-formedness carries over to a state with the same edges, the same
    /// task ids and the same memoized depths.
    pub proof fn lemma_wf_preserved(pre: RunState, post: RunState)
        requires
            pre.wf(),
            post.edges@ == pre.edges@,
            post.tasks@.len() == pre.tasks@.len(),
            forall|j: int|
                0 <= j < pre.tasks@.len() ==> (#[trigger] post.tasks@[j]).depth
                    == pre.tasks@[j].depth && post.tasks@[j].task.id == pre.tasks@[j].task.id,
        ensures
            post.wf(),
    {
        assert forall|u: int, d: int| post.has_edge(u, d) == pre.has_edge(u, d) by {}
        assert forall|t: int| 0 <= t < post.tasks@.len() implies post.depth_ok_at(t) by {
            assert(pre.depth_ok_at(t));
            if post.tasks@[t].depth is Some {
                let d = post.tasks@[t].depth.unwrap() as int;
                if post.has_upstream(t) {
                    assert(pre.has_upstream(t));
                    assert forall|u: int| post.has_edge(u, t) implies (
                        post.tasks@[u].depth matches Some(du) && du < d) by {
                        assert(pre.has_edge(u, t));
                        let e = choose|e: int|
                            0 <= e < pre.edges@.len() && pre.edges@[e].0 == u && pre.edges@[e].1
                                == t;
                        assert(u < pre.tasks@.len());
                        assert(pre.tasks@[u].depth matches Some(du) && du < d);
                    }
                    let w = choose|u: int|
                        pre.has_edge(u, t) && pre.tasks@[u].depth == Some((d - 1) as usize);
                    let e = choose|e: int|
                        0 <= e < pre.edges@.len() && pre.edges@[e].0 == w && pre.edges@[e].1 == t;
                    assert(w < pre.tasks@.len());
                    assert(post.has_edge(w, t) && post.tasks@[w].depth == Some((d - 1) as usize));
                } else {
                    assert(!pre.has_upstream(t));
                }
            }
        }
    }

    /// Well-formedness carries over to a state with the same edges and task
    /// ids whose memoized depths were all cleared (the depth invariant holds
    /// vacuously).
    pub proof fn lemma_wf_after_clear(pre: RunState, post: RunState)
        requires
            pre.wf(),
            post.edges@ == pre.edges@,
            post.tasks@.len() == pre.tasks@.len(),
            forall|j: int|
                0 <= j < pre.tasks@.len() ==> (#[trigger] post.tasks@[j]).task.id
                    == pre.tasks@[j].task.id && post.tasks@[j].depth is None,
        ensures
            post.wf(),
    {
        assert forall|t: int| 0 <= t < post.tasks@.len() implies post.depth_ok_at(t) by {}
    }

    /// Records a status transition for task `task_id`.
    pub fn set_task_status(&mut self, task_id: usize, status: TaskStatus)
        requires
            old(self).wf(),
            task_id < old(self).tasks@.len(),
        ensures
            final(self).wf(),
            final(self).tasks@[task_id as int].status_history@ == old(self).tasks@[
                task_id as int
            ].status_history@.push(status),
            final(self).status_of(task_id as int) == status,
            TaskRecord::changed_only_history(
                old(self).tasks@[task_id as int],
                final(self).tasks@[task_id as int],
            ),
            RunState::tasks_unchanged_except(*old(self), *final(self), task_id as int),
            RunState::meta_same(*old(self), *final(self)),
            final(self).edges@ == old(self).edges@,
    {
        self.tasks[task_id].status_history.push(status);
        proof {
            RunState::lemma_wf_preserved(*old(self), *self);
        }
    }

    /// The current status of task `task_id`.
    pub fn get_task_status(&self, task_id: usize) -> (r: TaskStatus)
        requires
            task_id < self.tasks@.len(),
        ensures
            r == self.status_of(task_id as int),
    {
        let h = &self.tasks[task_id].status_history;
        if h.len() == 0 {
            TaskStatus::Pending
        } else {
            h[h.len() - 1]
        }
    }

    /// Sets task `task_id` to `Running` exactly when its current status is
    /// `Pending` or `Retrying` (a worker claiming the task); reports whether
    /// it did. A second worker that dequeued the same entry finds the task
    /// already `Running` and backs off.
    pub fn set_status_to_running_if_possible(&mut self, task_id: usize) -> (r: bool)
        requires
            old(self).wf(),
            task_id < old(self).tasks@.len(),
        ensures
            final(self).wf(),
            r == (old(self).status_of(task_id as int) == TaskStatus::Pending || old(
                self,
            ).status_of(task_id as int) == TaskStatus::Retrying),
            r ==> final(self).tasks@[task_id as int].status_history@ == old(self).tasks@[
                task_id as int
            ].status_history@.push(TaskStatus::Running),
            r ==> final(self).status_of(task_id as int) == TaskStatus::Running,
            !r ==> *final(self) == *old(self),
            TaskRecord::changed_only_history(
                old(self).tasks@[task_id as int],
                final(self).tasks@[task_id as int],
            ),
            RunState::tasks_unchanged_except(*old(self), *final(self), task_id as int),
            RunState::meta_same(*old(self), *final(self)),
            final(self).edges@ == old(self).edges@,
    {
        let current = self.get_task_status(task_id);
        match current {
            TaskStatus::Pending | TaskStatus::Retrying => {
                self.set_task_status(task_id, TaskStatus::Running);
                true
            },
            _ => false,
        }
    }

    /// Appends an attempt's result to the task's result history.
    pub fn insert_task_results(&mut self, result: TaskResult)
        requires
            old(self).wf(),
            result.task_id < old(self).tasks@.len(),
        ensures
            final(self).wf(),
            final(self).tasks@[result.task_id as int].results@ == old(self).tasks@[
                result.task_id as int
            ].results@.push(result),
            TaskRecord::changed_only_results(
                old(self).tasks@[result.task_id as int],
                final(self).tasks@[result.task_id as int],
            ),
            RunState::tasks_unchanged_except(*old(self), *final(self), result.task_id as int),
            RunState::meta_same(*old(self), *final(self)),
            final(self).edges@ == old(self).edges@,
    {
        let task_id = result.task_id;
        self.tasks[task_id].results.push(result);
        proof {
            RunState::lemma_wf_preserved(*old(self), *self);
        }
    }

    /// The task's current (latest) result, if any attempt has finished.
    pub fn get_task_result(&self, task_id: usize) -> (r: Option<&TaskResult>)
        requires
            task_id < self.tasks@.len(),
        ensures
            match r {
                Some(res) => self.tasks@[task_id as int].results@.len() > 0 && *res == self.tasks@[
                    task_id as int
                ].results@.last(),
                None => self.tasks@[task_id as int].results@.len() == 0,
            },
    {
        let results = &self.tasks[task_id].results;
        if results.len() == 0 {
            None
        } else {
            Some(&results[results.len() - 1])
        }
    }

    /// Every result recorded for the task, most recent first.
    pub fn get_all_results(&self, task_id: usize) -> (r: Vec<TaskResult>)
        requires
            task_id < self.tasks@.len(),
        ensures
            r@.len() == self.tasks@[task_id as int].results@.len(),
            forall|i: int|
                0 <= i < r@.len() ==> (#[trigger] r@[i]).same_content(
                    self.tasks@[task_id as int].results@[r@.len() - 1 - i],
                ),
    {
        let results = &self.tasks[task_id].results;
        let mut out: Vec<TaskResult> = Vec::new();
        let mut i: usize = results.len();
        while i > 0
            invariant
                i <= results@.len(),
                out@.len() == results@.len() - i,
                forall|j: int|
                    0 <= j < out@.len() ==> (#[trigger] out@[j]).same_content(
                        results@[results@.len() - 1 - j],
                    ),
            decreases i,
        {
            i -= 1;
            out.push(results[i].duplicate());
        }
        out
    }

    /// Hands out the next attempt number for the task (counted from 1) and
    /// records that it was handed out.
    pub fn increment_attempt(&mut self, task_id: usize) -> (r: usize)
        requires
            old(self).wf(),
            task_id < old(self).tasks@.len(),
            old(self).tasks@[task_id as int].attempt < usize::MAX,
        ensures
            final(self).wf(),
            r == old(self).tasks@[task_id as int].attempt + 1,
            final(self).tasks@[task_id as int].attempt == r,
            TaskRecord::changed_only_attempt(
                old(self).tasks@[task_id as int],
                final(self).tasks@[task_id as int],
            ),
            RunState::tasks_unchanged_except(*old(self), *final(self), task_id as int),
            RunState::meta_same(*old(self), *final(self)),
            final(self).edges@ == old(self).edges@,
    {
        self.tasks[task_id].attempt = self.tasks[task_id].attempt + 1;
        proof {
            RunState::lemma_wf_preserved(*old(self), *self);
        }
        self.tasks[task_id].attempt
    }

    /// Records a dependency binding: when `task_id` is resolved, its argument
    /// `upstream.1` receives field `v` of the result of task `upstream.0`.
    pub fn set_dependency_keys(
        &mut self,
        task_id: usize,
        upstream: (usize, Option<String>),
        v: Option<String>,
    )
        requires
            old(self).wf(),
            task_id < old(self).tasks@.len(),
        ensures
            final(self).wf(),
            final(self).tasks@[task_id as int].dep_keys@ == old(self).tasks@[
                task_id as int
            ].dep_keys@.push(
                DepKey { upstream: upstream.0, arg_key: upstream.1, result_key: v },
            ),
            TaskRecord::changed_only_dep_keys(
                old(self).tasks@[task_id as int],
                final(self).tasks@[task_id as int],
            ),
            RunState::tasks_unchanged_except(*old(self), *final(self), task_id as int),
            RunState::meta_same(*old(self), *final(self)),
            final(self).edges@ == old(self).edges@,
    {
        let key = DepKey { upstream: upstream.0, arg_key: upstream.1, result_key: v };
        self.tasks[task_id].dep_keys.push(key);
        proof {
            RunState::lemma_wf_preserved(*old(self), *self);
        }
    }

    /// The task's dependency bindings.
    pub fn get_dependency_keys(&self, task_id: usize) -> (r: &Vec<DepKey>)
        requires
            task_id < self.tasks@.len(),
        ensures
            r@ == self.tasks@[task_id as int].dep_keys@,
    {
        &self.tasks[task_id].dep_keys
    }

    /// Whether the edge `(u, d)` is present.
    pub fn edge_exists(&self, u: usize, d: usize) -> (r: bool)
        ensures
            r == self.has_edge(u as int, d as int),
    {
        let mut k: usize = 0;
        while k < self.edges.len()
            invariant
                k <= self.edges@.len(),
                forall|e: int|
                    0 <= e < k ==> !((#[trigger] self.edges@[e]).0 == u && self.edges@[e].1 == d),
            decreases self.edges@.len() - k,
        {
            let (a, b) = self.edges[k];
            if a == u && b == d {
                return true;
            }
            k += 1;
        }
        false
    }

    /// Clears every memoized depth; called after any edge mutation, since
    /// depths are only meaningful for the edge set they were computed on.
    fn clear_depths(&mut self)
        ensures
            final(self).tasks@.len() == old(self).tasks@.len(),
            forall|t: int|
                0 <= t < old(self).tasks@.len() ==> (#[trigger] final(self).tasks@[t]).depth
                    is None,
            forall|t: int|
                0 <= t < old(self).tasks@.len() ==> TaskRecord::changed_only_depth(
                    old(self).tasks@[t],
                    #[trigger] final(self).tasks@[t],
                ),
            RunState::meta_same(*old(self), *final(self)),
            final(self).edges@ == old(self).edges@,
    {
        let mut t: usize = 0;
        while t < self.tasks.len()
            invariant
                t <= self.tasks@.len(),
                self.tasks@.len() == old(self).tasks@.len(),
                forall|j: int|
                    0 <= j < t ==> (#[trigger] self.tasks@[j]).depth is None,
                forall|j: int|
                    0 <= j < old(self).tasks@.len() ==> TaskRecord::changed_only_depth(
                        old(self).tasks@[j],
                        #[trigger] self.tasks@[j],
                    ),
                forall|j: int|
                    t <= j < old(self).tasks@.len() ==> #[trigger] self.tasks@[j] == old(
                        self,
                    ).tasks@[j],
                RunState::meta_same(*old(self), *self),
                self.edges@ == old(self).edges@,
            decreases self.tasks@.len() - t,
        {
            self.tasks[t].depth = None;
            t += 1;
        }
    }

    /// Inserts the edge `(u, d)` if it is not already present, and clears the
    /// memoized depths (the upstream set of `d` changed).
    pub fn insert_edge(&mut self, u: usize, d: usize)
        requires
            old(self).wf(),
            u < old(self).tasks@.len(),
            d < old(self).tasks@.len(),
        ensures
            final(self).wf(),
            forall|a: int, b: int|
                final(self).has_edge(a, b) == (old(self).has_edge(a, b) || (a == u && b == d)),
            final(self).tasks@.len() == old(self).tasks@.len(),
            forall|t: int|
                0 <= t < old(self).tasks@.len() ==> TaskRecord::changed_only_depth(
                    old(self).tasks@[t],
                    #[trigger] final(self).tasks@[t],
                ),
            forall|t: int|
                0 <= t < old(self).tasks@.len() ==> (#[trigger] final(self).tasks@[t]).depth
                    is None,
            RunState::meta_same(*old(self), *final(self)),
    {
        let ghost pre = *self;
        if !self.edge_exists(u, d) {
            self.edges.push((u, d));
            proof {
                assert(self.edges@[pre.edges@.len() as int] == (u, d));
                assert(self.has_edge(u as int, d as int));
            }
        }
        assert(self.has_edge(u as int, d as int));
        self.clear_depths();
        proof {
            assert forall|a: int, b: int|
                self.has_edge(a, b) == (pre.has_edge(a, b) || (a == u && b == d)) by {
                if pre.has_edge(a, b) {
                    let e = choose|e: int|
                        0 <= e < pre.edges@.len() && pre.edges@[e].0 == a && pre.edges@[e].1 == b;
                    assert(self.edges@[e] == pre.edges@[e]);
                    assert(self.has_edge(a, b));
                }
                if self.has_edge(a, b) && !(a == u && b == d) {
                    let e = choose|e: int|
                        0 <= e < self.edges@.len() && self.edges@[e].0 == a && self.edges@[e].1
                            == b;
                    assert(e < pre.edges@.len());
                    assert(pre.has_edge(a, b));
                }
                if a == u && b == d {
                    assert(self.has_edge(a, b));
                }
            }
        }
    }

    /// Removes the edge `(u, d)` and every dependency binding of `d` on `u`,
    /// and clears the memoized depths (the upstream set of `d` changed).
    /// Removing an absent edge leaves the edge set as it was.
    pub fn remove_edge(&mut self, u: usize, d: usize)
        requires
            old(self).wf(),
            u < old(self).tasks@.len(),
            d < old(self).tasks@.len(),
        ensures
            final(self).wf(),
            forall|a: int, b: int|
                final(self).has_edge(a, b) == (old(self).has_edge(a, b) && !(a == u && b == d)),
            final(self).tasks@.len() == old(self).tasks@.len(),
            forall|k: int|
                0 <= k < final(self).tasks@[d as int].dep_keys@.len() ==> (
                #[trigger] final(self).tasks@[d as int].dep_keys@[k]).upstream != u,
            forall|k: DepKey|
                old(self).tasks@[d as int].dep_keys@.contains(k) && k.upstream != u ==> final(self).tasks@[d as int].dep_keys@.contains(k),
            forall|t: int|
                0 <= t < old(self).tasks@.len() && t != d ==> (#[trigger] final(self).tasks@[t]).dep_keys == old(self).tasks@[t].dep_keys,
            forall|t: int|
                0 <= t < old(self).tasks@.len() ==> {
                    &&& (#[trigger] final(self).tasks@[t]).task == old(self).tasks@[t].task
                    &&& final(self).tasks@[t].status_history == old(self).tasks@[t].status_history
                    &&& final(self).tasks@[t].results == old(self).tasks@[t].results
                    &&& final(self).tasks@[t].attempt == old(self).tasks@[t].attempt
                    &&& final(self).tasks@[t].logs == old(self).tasks@[t].logs
                    &&& final(self).tasks@[t].depth is None
                },
            RunState::meta_same(*old(self), *final(self)),
    {
        let ghost pre = *self;
        // Drop the edge itself.
        let mut kept: Vec<(usize, usize)> = Vec::new();
        let mut k: usize = 0;
        while k < self.edges.len()
            invariant
                self.wf(),
                k <= self.edges@.len(),
                forall|j: int|
                    0 <= j < kept@.len() ==> exists|e: int|
                        0 <= e < k && #[trigger] kept@[j] == self.edges@[e],
                forall|j: int|
                    0 <= j < kept@.len() ==> !((#[trigger] kept@[j]).0 == u && kept@[j].1 == d),
                forall|e: int|
                    0 <= e < k && !((#[trigger] self.edges@[e]).0 == u && self.edges@[e].1 == d)
                        ==> kept@.contains(self.edges@[e]),
                forall|x: int, y: int|
                    0 <= x < kept@.len() && 0 <= y < kept@.len() && x != y ==> #[trigger] kept@[x]
                        != #[trigger] kept@[y],
            decreases self.edges@.len() - k,
        {
            let (a, b) = self.edges[k];
            if !(a == u && b == d) {
                kept.push((a, b));
                proof {
                    assert forall|x: int, y: int|
                        0 <= x < kept@.len() && 0 <= y < kept@.len() && x != y implies
                        #[trigger] kept@[x] != #[trigger] kept@[y] by {
                        if y == kept@.len() - 1 || x == kept@.len() - 1 {
                            let o = if x == kept@.len() - 1 {
                                y
                            } else {
                                x
                            };
                            if 0 <= o < kept@.len() - 1 {
                                let e = choose|e: int|
                                    0 <= e < k && kept@[o] == self.edges@[e];
                                assert(self.edges@[e] != self.edges@[k as int]);
                            }
                        }
                    }
                }
            }
            k += 1;
        }
        self.edges = kept;
        // Drop the bindings of `d` that referenced `u`.
        let mut i: usize = 0;
        while i < self.tasks[d].dep_keys.len()
            invariant
                d < self.tasks@.len(),
                i <= self.tasks@[d as int].dep_keys@.len(),
                forall|j: int|
                    0 <= j < i ==> (#[trigger] self.tasks@[d as int].dep_keys@[j]).upstream != u,
                forall|key: DepKey|
                    pre.tasks@[d as int].dep_keys@.contains(key) && key.upstream != u
                        ==> self.tasks@[d as int].dep_keys@.contains(key),
                self.tasks@.len() == pre.tasks@.len(),
                forall|t: int|
                    0 <= t < pre.tasks@.len() && t != d ==> #[trigger] self.tasks@[t]
                        == pre.tasks@[t],
                TaskRecord::changed_only_dep_keys(
                    pre.tasks@[d as int],
                    self.tasks@[d as int],
                ),
                RunState::meta_same(pre, *self),
                self.edges@ == kept@,
            decreases self.tasks@[d as int].dep_keys@.len() - i,
        {
            if self.tasks[d].dep_keys[i].upstream == u {
                let ghost before = self.tasks@[d as int].dep_keys@;
                let _ = self.tasks[d].dep_keys.remove(i);
                proof {
                    assert forall|key: DepKey|
                        before.contains(key) && key.upstream != u implies self.tasks@[
                        d as int
                    ].dep_keys@.contains(key) by {
                        let j = choose|j: int| 0 <= j < before.len() && before[j] == key;
                        if j < i {
                            assert(self.tasks@[d as int].dep_keys@[j] == key);
                        } else {
                            assert(j > i);
                            assert(self.tasks@[d as int].dep_keys@[j - 1] == key);
                        }
                    }
                }
            } else {
                i += 1;
            }
        }
        self.clear_depths();
        proof {
            assert forall|a: int, b: int|
                self.has_edge(a, b) == (pre.has_edge(a, b) && !(a == u && b == d)) by {
                if self.has_edge(a, b) {
                    let e = choose|e: int|
                        0 <= e < self.edges@.len() && self.edges@[e].0 == a && self.edges@[e].1
                            == b;
                    let w = choose|w: int|
                        0 <= w < pre.edges@.len() && self.edges@[e] == pre.edges@[w];
                    assert(pre.has_edge(a, b));
                }
                if pre.has_edge(a, b) && !(a == u && b == d) {
                    let e = choose|e: int|
                        0 <= e < pre.edges@.len() && pre.edges@[e].0 == a && pre.edges@[e].1 == b;
                    assert(kept@.contains(pre.edges@[e]));
                    let j = choose|j: int| 0 <= j < kept@.len() && kept@[j] == pre.edges@[e];
                    assert(self.has_edge(a, b));
                }
            }
            assert forall|e: int|
                0 <= e < self.edges@.len() implies (#[trigger] self.edges@[e]).0
                < self.tasks@.len() && self.edges@[e].1 < self.tasks@.len() by {
                let w = choose|w: int| 0 <= w < pre.edges@.len() && self.edges@[e] == pre.edges@[w];
                assert(pre.edges@[w].0 < pre.tasks@.len());
            }
        }
    }
    /// How many tasks have a memoized depth.
    pub open spec fn count_assigned(s: Seq<TaskRecord>) -> int
        decreases s.len(),
    {
        if s.len() == 0 {
            0
        } else {
            RunState::count_assigned(s.drop_last()) + if s.last().depth is Some {
                1int
            } else {
                0
            }
        }
    }

    /// The count is between 0 and the length, and only reaches the length
    /// when every task has a depth.
    proof fn lemma_count_bounds(s: Seq<TaskRecord>)
        ensures
            0 <= RunState::count_assigned(s) <= s.len(),
            RunState::count_assigned(s) == s.len() ==> forall|t: int|
                0 <= t < s.len() ==> (#[trigger] s[t]).depth is Some,
        decreases s.len(),
    {
        if s.len() > 0 {
            RunState::lemma_count_bounds(s.drop_last());
            if RunState::count_assigned(s) == s.len() {
                assert forall|t: int| 0 <= t < s.len() implies (#[trigger] s[t]).depth
                    is Some by {
                    if t < s.len() - 1 {
                        assert(s.drop_last()[t] == s[t]);
                    }
                }
            }
        }
    }

    /// The count of a run with no memoized depths is 0.
    proof fn lemma_count_all_none(s: Seq<TaskRecord>)
        requires
            forall|t: int| 0 <= t < s.len() ==> (#[trigger] s[t]).depth is None,
        ensures
            RunState::count_assigned(s) == 0,
        decreases s.len(),
    {
        if s.len() > 0 {
            assert forall|t: int| 0 <= t < s.len() - 1 implies (#[trigger] s.drop_last()[t]).depth
                is None by {
                assert(s.drop_last()[t] == s[t]);
            }
            RunState::lemma_count_all_none(s.drop_last());
        }
    }

    /// Giving a depth to one task that had none raises the count by one.
    proof fn lemma_count_update(s: Seq<TaskRecord>, i: int, r: TaskRecord)
        requires
            0 <= i < s.len(),
            s[i].depth is None,
            r.depth is Some,
        ensures
            RunState::count_assigned(s.update(i, r)) == RunState::count_assigned(s) + 1,
        decreases s.len(),
    {
        let s2 = s.update(i, r);
        if i == s.len() - 1 {
            assert(s2.drop_last() =~= s.drop_last());
            assert(s2.last() == r);
        } else {
            assert(s2.drop_last() =~= s.drop_last().update(i, r));
            assert(s2.last() == s.last());
            RunState::lemma_count_update(s.drop_last(), i, r);
        }
    }

    /// Computes and memoizes the depth of every task that can be ordered
    /// under its upstream tasks, and reports whether that covered the whole
    /// run. It returns `false` exactly when the edge set has a cycle: the
    /// tasks left without a depth then each have an upstream task that is
    /// also without one. Every memoized value satisfies the depth invariant
    /// (`depth_ok_at`) for the current edge set.
    pub fn compute_depths(&mut self) -> (r: bool)
        requires
            old(self).wf(),
            old(self).tasks@.len() < usize::MAX,
        ensures
            final(self).wf(),
            final(self).tasks@.len() == old(self).tasks@.len(),
            forall|t: int|
                0 <= t < old(self).tasks@.len() ==> TaskRecord::changed_only_depth(
                    old(self).tasks@[t],
                    #[trigger] final(self).tasks@[t],
                ),
            RunState::meta_same(*old(self), *final(self)),
            final(self).edges@ == old(self).edges@,
            r == forall|t: int|
                0 <= t < final(self).tasks@.len() ==> (#[trigger] final(self).tasks@[t]).depth
                    is Some,
            forall|t: int|
                0 <= t < final(self).tasks@.len() && (#[trigger] final(self).tasks@[t]).depth
                    is None ==> exists|u: int|
                    final(self).has_edge(u, t) && final(self).tasks@[u].depth is None,
    {
        self.clear_depths();
        proof {
            RunState::lemma_wf_after_clear(*old(self), *self);
            RunState::lemma_count_all_none(self.tasks@);
        }
        let ghost cleared = *self;
        let n = self.tasks.len();
        let mut assigned: usize = 0;
        let mut changed = true;
        while changed
            invariant
                self.wf(),
                n == self.tasks@.len(),
                n < usize::MAX,
                self.tasks@.len() == cleared.tasks@.len(),
                forall|t: int|
                    0 <= t < cleared.tasks@.len() ==> TaskRecord::changed_only_depth(
                        cleared.tasks@[t],
                        #[trigger] self.tasks@[t],
                    ),
                RunState::meta_same(cleared, *self),
                self.edges@ == cleared.edges@,
                assigned == RunState::count_assigned(self.tasks@),
                assigned <= n,
                forall|t: int|
                    0 <= t < self.tasks@.len() && (#[trigger] self.tasks@[t]).depth is Some
                        ==> self.tasks@[t].depth.unwrap() < assigned,
                !changed ==> forall|t: int|
                    0 <= t < self.tasks@.len() && (#[trigger] self.tasks@[t]).depth is None
                        ==> exists|u: int| self.has_edge(u, t) && self.tasks@[u].depth is None,
            decreases (n - assigned) + if changed { 1int } else { 0 },
        {
            let ghost assigned_at_entry = assigned;
            changed = false;
            let mut t: usize = 0;
            while t < n
                invariant
                    self.wf(),
                    n == self.tasks@.len(),
                    n < usize::MAX,
                    t <= n,
                    self.tasks@.len() == cleared.tasks@.len(),
                    forall|j: int|
                        0 <= j < cleared.tasks@.len() ==> TaskRecord::changed_only_depth(
                            cleared.tasks@[j],
                            #[trigger] self.tasks@[j],
                        ),
                    RunState::meta_same(cleared, *self),
                    self.edges@ == cleared.edges@,
                    assigned == RunState::count_assigned(self.tasks@),
                    assigned <= n,
                    assigned_at_entry <= assigned,
                    changed ==> assigned_at_entry < assigned,
                    forall|j: int|
                        0 <= j < self.tasks@.len() && (#[trigger] self.tasks@[j]).depth is Some
                            ==> self.tasks@[j].depth.unwrap() < assigned,
                    !changed ==> forall|j: int|
                        0 <= j < t && (#[trigger] self.tasks@[j]).depth is None ==> exists|u: int|
                            self.has_edge(u, j) && self.tasks@[u].depth is None,
                decreases n - t,
            {
                if self.tasks[t].depth.is_none() {
                    let ups = self.get_upstream(t);
                    let mut all_some = true;
                    let mut maxd: usize = 0;
                    let ghost mut wit: int = 0;
                    let mut j: usize = 0;
                    while j < ups.len() && all_some
                        invariant
                            self.wf(),
                            n == self.tasks@.len(),
                            j <= ups@.len(),
                            forall|jj: int|
                                0 <= jj < ups@.len() ==> #[trigger] ups@[jj] < self.tasks@.len(),
                            forall|jj: int|
                                0 <= jj < ups@.len() ==> self.has_edge(
                                    #[trigger] ups@[jj] as int,
                                    t as int,
                                ),
                            all_some ==> forall|jj: int|
                                0 <= jj < j ==> (#[trigger] self.tasks@[ups@[jj] as int].depth)
                                    is Some && self.tasks@[ups@[jj] as int].depth.unwrap() <= maxd,
                            all_some && j > 0 ==> 0 <= wit < j && self.tasks@[
                                ups@[wit] as int
                            ].depth == Some(maxd),
                            all_some && j == 0 ==> maxd == 0,
                            !all_some ==> exists|u: int|
                                self.has_edge(u, t as int) && self.tasks@[u].depth is None,
                        decreases ups@.len() - j,
                    {
                        let u = ups[j];
                        match self.tasks[u].depth {
                            None => {
                                all_some = false;
                                j += 1;
                            },
                            Some(du) => {
                                if j == 0 || du > maxd {
                                    maxd = du;
                                    proof {
                                        wit = j as int;
                                    }
                                }
                                j += 1;
                            },
                        }
                    }
                    if all_some {
                        let ghost pre_assign = *self;
                        proof {
                            if ups@.len() > 0 {
                                assert(self.tasks@[ups@[wit] as int].depth.unwrap() < assigned);
                            }
                        }
                        let d: usize = if ups.len() == 0 {
                            0
                        } else {
                            maxd + 1
                        };
                        self.tasks[t].depth = Some(d);
                        assigned += 1;
                        changed = true;
                        proof {
                            RunState::lemma_count_update(
                                pre_assign.tasks@,
                                t as int,
                                self.tasks@[t as int],
                            );
                            assert(self.tasks@ =~= pre_assign.tasks@.update(
                                t as int,
                                self.tasks@[t as int],
                            ));
                            RunState::lemma_count_bounds(self.tasks@);
                            // The newly assigned task satisfies the depth invariant.
                            assert(self.edges@ == pre_assign.edges@);
                            assert forall|a: int, b: int|
                                self.has_edge(a, b) == pre_assign.has_edge(a, b) by {
                                if self.has_edge(a, b) {
                                    let e = choose|e: int|
                                        0 <= e < self.edges@.len() && self.edges@[e].0 == a
                                            && self.edges@[e].1 == b;
                                    assert(pre_assign.edges@[e].0 == a
                                        && pre_assign.edges@[e].1 == b);
                                }
                                if pre_assign.has_edge(a, b) {
                                    let e = choose|e: int|
                                        0 <= e < pre_assign.edges@.len()
                                            && pre_assign.edges@[e].0 == a
                                            && pre_assign.edges@[e].1 == b;
                                    assert(self.edges@[e].0 == a && self.edges@[e].1 == b);
                                }
                            }
                            assert(pre_assign.wf());
                            if ups.len() == 0 {
                                assert(!self.has_upstream(t as int)) by {
                                    if self.has_upstream(t as int) {
                                        let u = choose|u: int| self.has_edge(u, t as int);
                                        assert(pre_assign.has_edge(u, t as int));
                                        assert(ups@.contains(u as usize));
                                    }
                                }
                            } else {
                                assert(self.has_edge(ups@[wit] as int, t as int));
                                assert(self.tasks@[ups@[wit] as int].depth == Some(maxd));
                                assert(self.has_upstream(t as int));
                                assert forall|u: int|
                                    self.has_edge(u, t as int) implies (self.tasks@[u].depth
                                    matches Some(du) && du < d) by {
                                    assert(pre_assign.has_edge(u, t as int));
                                    assert(ups@.contains(u as usize));
                                    let jj = choose|jj: int|
                                        0 <= jj < ups@.len() && ups@[jj] == u as usize;
                                    assert(pre_assign.tasks@[u].depth is Some
                                        && pre_assign.tasks@[u].depth.unwrap() <= maxd);
                                    assert(u != t as int);
                                }
                            }
                            // Every other memoized depth keeps its invariant:
                            // the changed task went from unmemoized to
                            // memoized, so it cannot be an upstream of any
                            // task that already had a depth.
                            assert forall|x: int|
                                0 <= x < self.tasks@.len() implies self.depth_ok_at(x) by {
                                if x != t as int {
                                    assert(pre_assign.depth_ok_at(x));
                                    if self.tasks@[x].depth is Some {
                                        let dx = self.tasks@[x].depth.unwrap() as int;
                                        if self.has_upstream(x) {
                                            let uu = choose|u: int| self.has_edge(u, x);
                                            assert(pre_assign.has_edge(uu, x));
                                            assert(pre_assign.has_upstream(x));
                                            assert forall|u: int|
                                                self.has_edge(u, x) implies (self.tasks@[u].depth
                                                matches Some(du) && du < dx) by {
                                                assert(pre_assign.has_edge(u, x));
                                                assert(pre_assign.tasks@[u].depth is Some);
                                                assert(u != t as int);
                                            }
                                            let w = choose|u: int|
                                                pre_assign.has_edge(u, x) && pre_assign.tasks@[
                                                    u
                                                ].depth == Some((dx - 1) as usize);
                                            assert(w != t as int);
                                            assert(self.has_edge(w, x) && self.tasks@[w].depth
                                                == Some((dx - 1) as usize));
                                        } else {
                                            assert(!pre_assign.has_upstream(x));
                                        }
                                    }
                                }
                            }
                        }
                    }
                }
                t += 1;
            }
            proof {
                RunState::lemma_count_bounds(self.tasks@);
            }
        }
        proof {
            RunState::lemma_count_bounds(self.tasks@);
        }
        if assigned == n {
            proof {
                assert forall|t: int|
                    0 <= t < self.tasks@.len() implies (#[trigger] self.tasks@[t]).depth
                    is Some by {}
            }
            true
        } else {
            proof {
                if forall|t: int|
                    0 <= t < self.tasks@.len() ==> (#[trigger] self.tasks@[t]).depth is Some {
                    assert(RunState::count_assigned(self.tasks@) == self.tasks@.len()) by {
                        RunState::lemma_count_all_some(self.tasks@);
                    }
                }
            }
            false
        }
    }

    /// The count of a run where every task has a depth equals the length.
    proof fn lemma_count_all_some(s: Seq<TaskRecord>)
        requires
            forall|t: int| 0 <= t < s.len() ==> (#[trigger] s[t]).depth is Some,
        ensures
            RunState::count_assigned(s) == s.len(),
        decreases s.len(),
    {
        if s.len() > 0 {
            assert forall|t: int| 0 <= t < s.len() - 1 implies (#[trigger] s.drop_last()[t]).depth
                is Some by {
                assert(s.drop_last()[t] == s[t]);
            }
            RunState::lemma_count_all_some(s.drop_last());
        }
    }

    /// The memoized depth of `task_id`, computing it first if the run has
    /// none recorded for it yet. `None` is returned exactly when the task's
    /// depth cannot be computed because the edge set has a cycle; the tasks
    /// without a depth then each have an upstream task without one.
    pub fn get_task_depth(&mut self, task_id: usize) -> (r: Option<usize>)
        requires
            old(self).wf(),
            task_id < old(self).tasks@.len(),
            old(self).tasks@.len() < usize::MAX,
        ensures
            final(self).wf(),
            final(self).tasks@.len() == old(self).tasks@.len(),
            forall|t: int|
                0 <= t < old(self).tasks@.len() ==> TaskRecord::changed_only_depth(
                    old(self).tasks@[t],
                    #[trigger] final(self).tasks@[t],
                ),
            RunState::meta_same(*old(self), *final(self)),
            final(self).edges@ == old(self).edges@,
            r == final(self).tasks@[task_id as int].depth,
            old(self).tasks@[task_id as int].depth is Some ==> *final(self) == *old(self),
            r is None ==> exists|u: int|
                final(self).has_edge(u, task_id as int) && final(self).tasks@[u].depth is None,
            r is None ==> forall|t: int|
                0 <= t < final(self).tasks@.len() && (#[trigger] final(self).tasks@[t]).depth
                    is None ==> exists|u: int|
                    final(self).has_edge(u, t) && final(self).tasks@[u].depth is None,
    {
        match self.tasks[task_id].depth {
            Some(d) => Some(d),
            None => {
                let _complete = self.compute_depths();
                self.tasks[task_id].depth
            },
        }
    }

    /// Invalidates the memoized depth of `task_id`. Any other memoized depth
    /// in the run may depend on it, so all of them are cleared; the next
    /// query recomputes them against the current edge set.
    pub fn delete_task_depth(&mut self, task_id: usize)
        requires
            old(self).wf(),
            task_id < old(self).tasks@.len(),
        ensures
            final(self).wf(),
            final(self).tasks@.len() == old(self).tasks@.len(),
            final(self).tasks@[task_id as int].depth is None,
            forall|t: int|
                0 <= t < old(self).tasks@.len() ==> (#[trigger] final(self).tasks@[t]).depth
                    is None,
            forall|t: int|
                0 <= t < old(self).tasks@.len() ==> TaskRecord::changed_only_depth(
                    old(self).tasks@[t],
                    #[trigger] final(self).tasks@[t],
                ),
            RunState::meta_same(*old(self), *final(self)),
            final(self).edges@ == old(self).edges@,
    {
        self.clear_depths();
        proof {
            RunState::lemma_wf_after_clear(*old(self), *self);
        }
    }
}

impl RunState {
    /// Appends a new task to the run — used both when seeding a run from the
    /// workflow definition and when a dynamic task extends its own run — and
    /// starts it `Pending`. Returns the new task's id.
    pub fn append_task(
        &mut self,
        function_name: String,
        template_args: Vec<KeyVal>,
        options: crate::task::TaskOptions,
        lazy_expand: bool,
        is_dynamic: bool,
        is_branch: bool,
    ) -> (r: usize)
        requires
            old(self).wf(),
            old(self).tasks@.len() < usize::MAX,
        ensures
            final(self).wf(),
            r == old(self).tasks@.len(),
            final(self).tasks@.len() == old(self).tasks@.len() + 1,
            forall|t: int|
                0 <= t < old(self).tasks@.len() ==> final(self).tasks@[t] == old(self).tasks@[t],
            final(self).tasks@.last().task.id == r,
            final(self).tasks@.last().task.function_name == function_name,
            final(self).tasks@.last().task.template_args == template_args,
            final(self).tasks@.last().task.options == options,
            final(self).tasks@.last().task.lazy_expand == lazy_expand,
            final(self).tasks@.last().task.is_dynamic == is_dynamic,
            final(self).tasks@.last().task.is_branch == is_branch,
            final(self).tasks@.last().results@.len() == 0,
            final(self).tasks@.last().attempt == 0,
            final(self).tasks@.last().depth is None,
            final(self).tasks@.last().dep_keys@.len() == 0,
            final(self).tasks@.last().logs@.len() == 0,
            final(self).status_of(r as int) == TaskStatus::Pending,
            RunState::meta_same(*old(self), *final(self)),
            final(self).edges@ == old(self).edges@,
    {
        let id = self.tasks.len();
        let mut status_history: Vec<TaskStatus> = Vec::new();
        status_history.push(TaskStatus::Pending);
        let rec = TaskRecord {
            task: Task {
                id,
                function_name,
                template_args,
                options,
                lazy_expand,
                is_dynamic,
                is_branch,
            },
            status_history,
            results: Vec::new(),
            attempt: 0,
            depth: None,
            dep_keys: Vec::new(),
            logs: Vec::new(),
        };
        let ghost pre = *self;
        self.tasks.push(rec);
        proof {
            assert forall|t: int| 0 <= t < self.tasks@.len() implies self.depth_ok_at(t) by {
                if t < pre.tasks@.len() {
                    assert(pre.depth_ok_at(t));
                    if self.tasks@[t].depth is Some {
                        let d = self.tasks@[t].depth.unwrap() as int;
                        assert forall|a: int, b: int|
                            self.has_edge(a, b) == pre.has_edge(a, b) by {
                            if self.has_edge(a, b) {
                                let e = choose|e: int|
                                    0 <= e < self.edges@.len() && self.edges@[e].0 == a
                                        && self.edges@[e].1 == b;
                                assert(pre.edges@[e].0 == a && pre.edges@[e].1 == b);
                            }
                            if pre.has_edge(a, b) {
                                let e = choose|e: int|
                                    0 <= e < pre.edges@.len() && pre.edges@[e].0 == a
                                        && pre.edges@[e].1 == b;
                                assert(self.edges@[e].0 == a && self.edges@[e].1 == b);
                            }
                        }
                        if self.has_upstream(t) {
                            let uu = choose|u: int| self.has_edge(u, t);
                            assert(pre.has_edge(uu, t));
                            assert(pre.has_upstream(t));
                            assert forall|u: int|
                                self.has_edge(u, t) implies (self.tasks@[u].depth matches Some(du)
                                && du < d) by {
                                assert(pre.has_edge(u, t));
                                let e = choose|e: int|
                                    0 <= e < pre.edges@.len() && pre.edges@[e].0 == u
                                        && pre.edges@[e].1 == t;
                                assert(u < pre.tasks@.len());
                                assert(self.tasks@[u] == pre.tasks@[u]);
                            }
                            let w = choose|u: int|
                                pre.has_edge(u, t) && pre.tasks@[u].depth == Some(
                                    (d - 1) as usize,
                                );
                            let e = choose|e: int|
                                0 <= e < pre.edges@.len() && pre.edges@[e].0 == w
                                    && pre.edges@[e].1 == t;
                            assert(w < pre.tasks@.len());
                            assert(self.has_edge(w, t) && self.tasks@[w].depth == Some(
                                (d - 1) as usize,
                            ));
                        } else {
                            assert(!pre.has_upstream(t)) by {
                                if pre.has_upstream(t) {
                                    let u = choose|u: int| pre.has_edge(u, t);
                                    assert(self.has_edge(u, t));
                                }
                            }
                        }
                    }
                }
            }
        }
        id
    }

    /// Whether some upstream task of `task_id` is not yet in a terminal
    /// status; such a task must not run yet.
    pub fn any_upstream_incomplete(&self, task_id: usize) -> (r: bool)
        requires
            self.wf(),
            task_id < self.tasks@.len(),
        ensures
            r == self.spec_any_upstream_incomplete(task_id as int),
    {
        let ups = self.get_upstream(task_id);
        let mut j: usize = 0;
        while j < ups.len()
            invariant
                self.wf(),
                task_id < self.tasks@.len(),
                j <= ups@.len(),
                forall|x: int| 0 <= x < ups@.len() ==> #[trigger] ups@[x] < self.tasks@.len(),
                forall|x: int|
                    0 <= x < ups@.len() ==> self.has_edge(#[trigger] ups@[x] as int, task_id as int),
                forall|u: int|
                    self.has_edge(u, task_id as int) ==> ups@.contains(u as usize),
                forall|x: int| 0 <= x < j ==> self.task_complete(#[trigger] ups@[x] as int),
            decreases ups@.len() - j,
        {
            if !self.get_task_status(ups[j]).is_complete() {
                proof {
                    assert(self.has_edge(ups@[j as int] as int, task_id as int));
                    assert(!self.task_complete(ups@[j as int] as int));
                }
                return true;
            }
            j += 1;
        }
        proof {
            if self.spec_any_upstream_incomplete(task_id as int) {
                let u = choose|u: int|
                    self.has_edge(u, task_id as int) && !self.task_complete(u);
                assert(ups@.contains(u as usize));
                let x = ups@.index_of(u as usize);
                assert(ups@[x] == u as usize);
                assert(self.task_complete(ups@[x] as int));
            }
        }
        false
    }

    /// A task the engine must mark `Skipped`: still `Pending`, it has
    /// upstream tasks, all of them are settled, and none succeeded — so it is
    /// unreachable from any live path (its upstream tasks were pruned away,
    /// skipped, or failed terminally).
    pub open spec fn skip_eligible(self, t: int) -> bool {
        &&& self.status_of(t) == TaskStatus::Pending
        &&& self.has_upstream(t)
        &&& forall|u: int| self.has_edge(u, t) ==> self.task_complete(u)
        &&& !exists|u: int| self.has_edge(u, t) && self.status_of(u) == TaskStatus::Success
    }

    /// Executable form of `skip_eligible`.
    pub fn skip_eligible_exec(&self, t: usize) -> (r: bool)
        requires
            self.wf(),
            t < self.tasks@.len(),
        ensures
            r == self.skip_eligible(t as int),
    {
        let status = self.get_task_status(t);
        if !matches!(status, TaskStatus::Pending) {
            return false;
        }
        let ups = self.get_upstream(t);
        if ups.len() == 0 {
            proof {
                assert(!self.has_upstream(t as int)) by {
                    if self.has_upstream(t as int) {
                        let u = choose|u: int| self.has_edge(u, t as int);
                        assert(ups@.contains(u as usize));
                    }
                }
            }
            return false;
        }
        let mut j: usize = 0;
        let mut all_settled = true;
        let mut any_success = false;
        while j < ups.len()
            invariant
                self.wf(),
                t < self.tasks@.len(),
                j <= ups@.len(),
                forall|x: int| 0 <= x < ups@.len() ==> #[trigger] ups@[x] < self.tasks@.len(),
                forall|x: int|
                    0 <= x < ups@.len() ==> self.has_edge(#[trigger] ups@[x] as int, t as int),
                forall|u: int| self.has_edge(u, t as int) ==> ups@.contains(u as usize),
                all_settled ==> forall|x: int|
                    0 <= x < j ==> self.task_complete(#[trigger] ups@[x] as int),
                !all_settled ==> exists|u: int|
                    self.has_edge(u, t as int) && !self.task_complete(u),
                any_success ==> exists|u: int|
                    self.has_edge(u, t as int) && self.status_of(u) == TaskStatus::Success,
                !any_success ==> forall|x: int|
                    0 <= x < j ==> self.status_of(#[trigger] ups@[x] as int)
                        != TaskStatus::Success,
            decreases ups@.len() - j,
        {
            let s = self.get_task_status(ups[j]);
            if !s.is_complete() {
                all_settled = false;
                proof {
                    assert(self.has_edge(ups@[j as int] as int, t as int));
                    assert(!self.task_complete(ups@[j as int] as int));
                }
            }
            if matches!(s, TaskStatus::Success) {
                any_success = true;
                proof {
                    assert(self.has_edge(ups@[j as int] as int, t as int));
                    assert(self.status_of(ups@[j as int] as int) == TaskStatus::Success);
                }
            }
            j += 1;
        }
        if all_settled && !any_success {
            proof {
                assert forall|u: int|
                    self.has_edge(u, t as int) implies self.task_complete(u) by {
                    assert(ups@.contains(u as usize));
                    let x = ups@.index_of(u as usize);
                    assert(self.task_complete(ups@[x] as int));
                }
                assert(!exists|u: int|
                    self.has_edge(u, t as int) && self.status_of(u) == TaskStatus::Success) by {
                    if exists|u: int|
                        self.has_edge(u, t as int) && self.status_of(u) == TaskStatus::Success {
                        let u = choose|u: int|
                            self.has_edge(u, t as int) && self.status_of(u)
                                == TaskStatus::Success;
                        assert(ups@.contains(u as usize));
                        let x = ups@.index_of(u as usize);
                        assert(self.status_of(ups@[x] as int) != TaskStatus::Success);
                    }
                }
                assert(self.has_edge(ups@[0] as int, t as int));
                assert(self.skip_eligible(t as int));
            }
            true
        } else {
            false
        }
    }

    /// How many tasks are in a terminal status.
    pub open spec fn count_terminal(s: Seq<TaskRecord>) -> int
        decreases s.len(),
    {
        if s.len() == 0 {
            0
        } else {
            RunState::count_terminal(s.drop_last()) + if current_status(
                s.last().status_history@,
            ).is_terminal() {
                1int
            } else {
                0
            }
        }
    }

    /// The terminal count is between 0 and the length.
    proof fn lemma_count_terminal_bounds(s: Seq<TaskRecord>)
        ensures
            0 <= RunState::count_terminal(s) <= s.len(),
        decreases s.len(),
    {
        if s.len() > 0 {
            RunState::lemma_count_terminal_bounds(s.drop_last());
        }
    }

    /// Settling one task that was not yet terminal raises the count by one.
    proof fn lemma_count_terminal_update(s: Seq<TaskRecord>, i: int, r: TaskRecord)
        requires
            0 <= i < s.len(),
            !current_status(s[i].status_history@).is_terminal(),
            current_status(r.status_history@).is_terminal(),
        ensures
            RunState::count_terminal(s.update(i, r)) == RunState::count_terminal(s) + 1,
        decreases s.len(),
    {
        let s2 = s.update(i, r);
        if i == s.len() - 1 {
            assert(s2.drop_last() =~= s.drop_last());
            assert(s2.last() == r);
        } else {
            assert(s2.drop_last() =~= s.drop_last().update(i, r));
            assert(s2.last() == s.last());
            RunState::lemma_count_terminal_update(s.drop_last(), i, r);
        }
    }

    /// Marks `Skipped` every task that is unreachable from a live path,
    /// repeatedly, until none is left: afterwards no task is still `Pending`
    /// with all upstream tasks settled and none of them successful. Statuses
    /// are the only thing that changes, and only by appending `Skipped` to a
    /// `Pending` task's history.
    pub fn propagate_skips(&mut self)
        requires
            old(self).wf(),
        ensures
            final(self).wf(),
            final(self).tasks@.len() == old(self).tasks@.len(),
            final(self).edges@ == old(self).edges@,
            RunState::meta_same(*old(self), *final(self)),
            forall|t: int|
                0 <= t < old(self).tasks@.len() ==> TaskRecord::changed_only_history(
                    old(self).tasks@[t],
                    #[trigger] final(self).tasks@[t],
                ),
            forall|t: int|
                0 <= t < old(self).tasks@.len() ==> (#[trigger] final(self).tasks@[t]).status_history
                    == old(self).tasks@[t].status_history || (final(self).tasks@[t].status_history@
                    == old(self).tasks@[t].status_history@.push(TaskStatus::Skipped)
                    && old(self).status_of(t) == TaskStatus::Pending),
            forall|t: int| 0 <= t < final(self).tasks@.len() ==> !final(self).skip_eligible(t),
    {
        let ghost orig = *self;
        let n = self.tasks.len();
        let mut changed = true;
        while changed
            invariant
                self.wf(),
                n == self.tasks@.len(),
                self.tasks@.len() == orig.tasks@.len(),
                self.edges@ == orig.edges@,
                RunState::meta_same(orig, *self),
                forall|t: int|
                    0 <= t < orig.tasks@.len() ==> TaskRecord::changed_only_history(
                        orig.tasks@[t],
                        #[trigger] self.tasks@[t],
                    ),
                forall|t: int|
                    0 <= t < orig.tasks@.len() ==> (#[trigger] self.tasks@[t]).status_history
                        == orig.tasks@[t].status_history || (self.tasks@[t].status_history@
                        == orig.tasks@[t].status_history@.push(TaskStatus::Skipped)
                        && orig.status_of(t) == TaskStatus::Pending),
                !changed ==> forall|t: int|
                    0 <= t < self.tasks@.len() ==> !self.skip_eligible(t),
            decreases (n - RunState::count_terminal(self.tasks@)) + if changed {
                1int
            } else {
                0
            },
        {
            proof {
                RunState::lemma_count_terminal_bounds(self.tasks@);
            }
            let ghost count_at_entry = RunState::count_terminal(self.tasks@);
            changed = false;
            let mut t: usize = 0;
            while t < n
                invariant
                    self.wf(),
                    n == self.tasks@.len(),
                    t <= n,
                    self.tasks@.len() == orig.tasks@.len(),
                    self.edges@ == orig.edges@,
                    RunState::meta_same(orig, *self),
                    forall|j: int|
                        0 <= j < orig.tasks@.len() ==> TaskRecord::changed_only_history(
                            orig.tasks@[j],
                            #[trigger] self.tasks@[j],
                        ),
                    forall|j: int|
                        0 <= j < orig.tasks@.len() ==> (#[trigger] self.tasks@[j]).status_history
                            == orig.tasks@[j].status_history || (self.tasks@[j].status_history@
                            == orig.tasks@[j].status_history@.push(TaskStatus::Skipped)
                            && orig.status_of(j) == TaskStatus::Pending),
                    count_at_entry <= RunState::count_terminal(self.tasks@) <= n,
                    changed ==> count_at_entry < RunState::count_terminal(self.tasks@),
                    !changed ==> forall|j: int| 0 <= j < t ==> !self.skip_eligible(j),
                decreases n - t,
            {
                let eligible = self.skip_eligible_exec(t);
                if eligible {
                    let ghost before = *self;
                    self.set_task_status(t, TaskStatus::Skipped);
                    changed = true;
                    proof {
                        RunState::lemma_count_terminal_update(
                            before.tasks@,
                            t as int,
                            self.tasks@[t as int],
                        );
                        assert(self.tasks@ =~= before.tasks@.update(
                            t as int,
                            self.tasks@[t as int],
                        ));
                        RunState::lemma_count_terminal_bounds(self.tasks@);
                    }
                }
                t += 1;
            }
        }
    }
}

impl RunState {
    /// Two states with equal edge sequences agree on every edge and on every
    /// upstream test.
    pub proof fn lemma_edge_congruence(a_run: RunState, b_run: RunState)
        requires
            b_run.edges@ == a_run.edges@,
        ensures
            forall|u: int, d: int| a_run.has_edge(u, d) == b_run.has_edge(u, d),
            forall|t: int| a_run.has_upstream(t) == b_run.has_upstream(t),
    {
        assert forall|u: int, d: int| a_run.has_edge(u, d) == b_run.has_edge(u, d) by {
            if a_run.has_edge(u, d) {
                let e = choose|e: int|
                    0 <= e < a_run.edges@.len() && a_run.edges@[e].0 == u && a_run.edges@[e].1
                        == d;
                assert(b_run.edges@[e].0 == u && b_run.edges@[e].1 == d);
            }
            if b_run.has_edge(u, d) {
                let e = choose|e: int|
                    0 <= e < b_run.edges@.len() && b_run.edges@[e].0 == u && b_run.edges@[e].1
                        == d;
                assert(a_run.edges@[e].0 == u && a_run.edges@[e].1 == d);
            }
        }
        assert forall|t: int| a_run.has_upstream(t) == b_run.has_upstream(t) by {
            if a_run.has_upstream(t) {
                let u = choose|u: int| a_run.has_edge(u, t);
                assert(b_run.has_edge(u, t));
            }
            if b_run.has_upstream(t) {
                let u = choose|u: int| b_run.has_edge(u, t);
                assert(a_run.has_edge(u, t));
            }
        }
    }
    /// Two well-formed states with equal edge sequences and equal status
    /// histories agree on every task's status and on which tasks still have
    /// an unsettled upstream task.
    pub proof fn lemma_readiness_congruence(a_run: RunState, b_run: RunState)
        requires
            a_run.wf(),
            b_run.edges@ == a_run.edges@,
            b_run.tasks@.len() == a_run.tasks@.len(),
            forall|t: int|
                0 <= t < a_run.tasks@.len() ==> (#[trigger] b_run.tasks@[t]).status_history
                    == a_run.tasks@[t].status_history,
        ensures
            forall|t: int|
                0 <= t < a_run.tasks@.len() ==> #[trigger] b_run.status_of(t) == a_run.status_of(
                    t,
                ),
            forall|t: int|
                0 <= t < a_run.tasks@.len() ==> #[trigger] b_run.spec_any_upstream_incomplete(t)
                    == a_run.spec_any_upstream_incomplete(t),
    {
        RunState::lemma_edge_congruence(a_run, b_run);
        assert forall|t: int|
            0 <= t < a_run.tasks@.len() implies #[trigger] b_run.status_of(t) == a_run.status_of(
            t,
        ) by {
            assert(b_run.tasks@[t].status_history == a_run.tasks@[t].status_history);
        }
        assert forall|t: int|
            0 <= t < a_run.tasks@.len() implies #[trigger] b_run.spec_any_upstream_incomplete(t)
            == a_run.spec_any_upstream_incomplete(t) by {
            if a_run.spec_any_upstream_incomplete(t) {
                let u = choose|u: int| a_run.has_edge(u, t) && !a_run.task_complete(u);
                let e = choose|e: int|
                    0 <= e < a_run.edges@.len() && a_run.edges@[e].0 == u && a_run.edges@[e].1
                        == t;
                assert(u < a_run.tasks@.len());
                assert(b_run.tasks@[u].status_history == a_run.tasks@[u].status_history);
                assert(b_run.has_edge(u, t) && !b_run.task_complete(u));
            }
            if b_run.spec_any_upstream_incomplete(t) {
                let u = choose|u: int| b_run.has_edge(u, t) && !b_run.task_complete(u);
                let e = choose|e: int|
                    0 <= e < a_run.edges@.len() && a_run.edges@[e].0 == u && a_run.edges@[e].1
                        == t;
                assert(u < a_run.tasks@.len());
                assert(b_run.tasks@[u].status_history == a_run.tasks@[u].status_history);
                assert(a_run.has_edge(u, t) && !a_run.task_complete(u));
            }
        }
    }

    /// Two well-formed states with equal edge sequences and equal status
    /// histories agree on which tasks are eligible to be skipped.
    pub proof fn lemma_skip_eligible_congruence(a_run: RunState, b_run: RunState)
        requires
            a_run.wf(),
            b_run.edges@ == a_run.edges@,
            b_run.tasks@.len() == a_run.tasks@.len(),
            forall|t: int|
                0 <= t < a_run.tasks@.len() ==> (#[trigger] b_run.tasks@[t]).status_history
                    == a_run.tasks@[t].status_history,
        ensures
            forall|t: int|
                0 <= t < a_run.tasks@.len() ==> b_run.skip_eligible(t) == a_run.skip_eligible(t),
    {
        RunState::lemma_edge_congruence(a_run, b_run);
        assert forall|t: int|
            0 <= t < a_run.tasks@.len() implies b_run.skip_eligible(t) == a_run.skip_eligible(
            t,
        ) by {
            assert(b_run.tasks@[t].status_history == a_run.tasks@[t].status_history);
            assert forall|u: int|
                a_run.has_edge(u, t) implies 0 <= u < a_run.tasks@.len() && b_run.status_of(u)
                    == a_run.status_of(u) && (b_run.task_complete(u) == a_run.task_complete(
                    u,
                )) by {
                let e = choose|e: int|
                    0 <= e < a_run.edges@.len() && a_run.edges@[e].0 == u && a_run.edges@[e].1
                        == t;
                assert(a_run.edges@[e].0 < a_run.tasks@.len());
                assert(b_run.tasks@[u].status_history == a_run.tasks@[u].status_history);
            }
            if a_run.skip_eligible(t) {
                assert forall|u: int| b_run.has_edge(u, t) implies b_run.task_complete(u) by {
                    assert(a_run.has_edge(u, t));
                }
                assert(!exists|u: int|
                    b_run.has_edge(u, t) && b_run.status_of(u) == TaskStatus::Success) by {
                    if exists|u: int|
                        b_run.has_edge(u, t) && b_run.status_of(u) == TaskStatus::Success {
                        let u = choose|u: int|
                            b_run.has_edge(u, t) && b_run.status_of(u) == TaskStatus::Success;
                        assert(a_run.has_edge(u, t));
                        assert(a_run.status_of(u) == TaskStatus::Success);
                    }
                }
                assert(b_run.skip_eligible(t));
            }
            if b_run.skip_eligible(t) {
                assert forall|u: int| a_run.has_edge(u, t) implies a_run.task_complete(u) by {
                    assert(b_run.has_edge(u, t));
                }
                assert(!exists|u: int|
                    a_run.has_edge(u, t) && a_run.status_of(u) == TaskStatus::Success) by {
                    if exists|u: int|
                        a_run.has_edge(u, t) && a_run.status_of(u) == TaskStatus::Success {
                        let u = choose|u: int|
                            a_run.has_edge(u, t) && a_run.status_of(u) == TaskStatus::Success;
                        assert(b_run.has_edge(u, t));
                        assert(b_run.status_of(u) == TaskStatus::Success);
                    }
                }
                assert(a_run.skip_eligible(t));
            }
        }
    }
}

/// Whether `v` holds `x`.
pub(crate) fn contains_usize(v: &Vec<usize>, x: usize) -> (r: bool)
    ensures
        r == v@.contains(x),
{
    let mut j: usize = 0;
    while j < v.len()
        invariant
            j <= v@.len(),
            forall|i: int| 0 <= i < j ==> v@[i] != x,
        decreases v@.len() - j,
    {
        if v[j] == x {
            return true;
        }
        j += 1;
    }
    false
}

impl RunState {
    /// Applies one attempt's outcome to the run: records the result, makes
    /// the status transition of the retry rule (`Success`; `Retrying` while
    /// attempts remain; terminal `Failure` once they are exhausted), prunes
    /// the unselected outgoing edges of a successful branch task together
    /// with their dependency bindings, and marks every task that is left
    /// without a live path `Skipped`. Returns whether the retry rule
    /// re-dispatches the task.
    pub fn apply_result(&mut self, result: TaskResult, selected: &Vec<usize>) -> (retry: bool)
        requires
            old(self).wf(),
            result.task_id < old(self).tasks@.len(),
        ensures
            final(self).wf(),
            final(self).tasks@.len() == old(self).tasks@.len(),
            RunState::meta_same(*old(self), *final(self)),
            retry == result.spec_needs_retry(),
            // The result is recorded, and it is the only result change.
            final(self).tasks@[result.task_id as int].results@ == old(self).tasks@[
                result.task_id as int
            ].results@.push(result),
            forall|t: int|
                0 <= t < old(self).tasks@.len() && t != result.task_id ==> (#[trigger] final(self).tasks@[t]).results == old(self).tasks@[t].results,
            // The retry rule's status transition.
            final(self).status_of(result.task_id as int) == (if result.success {
                TaskStatus::Success
            } else if result.spec_needs_retry() {
                TaskStatus::Retrying
            } else {
                TaskStatus::Failure
            }),
            // Task definitions, attempt counters and logs never change here.
            forall|t: int|
                0 <= t < old(self).tasks@.len() ==> (#[trigger] final(self).tasks@[t]).task == old(
                    self,
                ).tasks@[t].task && final(self).tasks@[t].attempt == old(self).tasks@[t].attempt
                    && final(self).tasks@[t].logs == old(self).tasks@[t].logs,
            // Other tasks' statuses change only from Pending to Skipped.
            forall|t: int|
                0 <= t < old(self).tasks@.len() && t != result.task_id ==> (#[trigger] final(self).tasks@[t]).status_history == old(self).tasks@[t].status_history || (final(self).tasks@[t].status_history@ == old(self).tasks@[t].status_history@.push(
                    TaskStatus::Skipped,
                ) && old(self).status_of(t) == TaskStatus::Pending),
            // Branch pruning: on a successful branch task, unselected
            // outgoing edges are gone, selected ones are kept, no other
            // task's edges are touched, the pruned tasks' bindings on the
            // branch task are deleted, and a pruned task left without any
            // upstream is Skipped.
            (result.success && old(self).tasks@[result.task_id as int].task.is_branch) ==> {
                &&& forall|d: int|
                    old(self).has_edge(result.task_id as int, d) && !selected@.contains(d as usize)
                        ==> !final(self).has_edge(result.task_id as int, d)
                &&& forall|d: int|
                    old(self).has_edge(result.task_id as int, d) && selected@.contains(d as usize)
                        ==> final(self).has_edge(result.task_id as int, d)
                &&& forall|a: int, b: int|
                    a != result.task_id ==> final(self).has_edge(a, b) == old(self).has_edge(a, b)
                &&& forall|d: int, k: int|
                    old(self).has_edge(result.task_id as int, d) && !selected@.contains(d as usize)
                        && 0 <= d < old(self).tasks@.len() && 0 <= k < final(self).tasks@[d].dep_keys@.len() ==> (#[trigger] final(self).tasks@[d].dep_keys@[k]).upstream != result.task_id
                &&& forall|d: int|
                    old(self).has_edge(result.task_id as int, d) && !selected@.contains(d as usize)
                        && !final(self).has_upstream(d) && 0 <= d < old(self).tasks@.len() && old(
                        self,
                    ).status_of(d) == TaskStatus::Pending && d != result.task_id ==> final(self).status_of(d) == TaskStatus::Skipped
            },
            // Without branch pruning the edge set is untouched.
            !(result.success && old(self).tasks@[result.task_id as int].task.is_branch) ==> final(self).edges@ == old(self).edges@,
            // No task is left unreachable without being Skipped.
            forall|t: int| 0 <= t < final(self).tasks@.len() ==> !final(self).skip_eligible(t),
    {
        let tid = result.task_id;
        let retry = result.needs_retry();
        let success = result.success;
        let is_branch_task = self.tasks[tid].task.is_branch;
        self.insert_task_results(result);
        if success {
            self.set_task_status(tid, TaskStatus::Success);
        } else if retry {
            self.set_task_status(tid, TaskStatus::Retrying);
        } else {
            self.set_task_status(tid, TaskStatus::Failure);
        }
        let ghost pre = *self;
        proof {
            RunState::lemma_edge_congruence(*old(self), pre);
        }
        if success && is_branch_task {
            let downs = self.get_downstream(tid);
            let mut j: usize = 0;
            while j < downs.len()
                invariant
                    self.wf(),
                    tid < self.tasks@.len(),
                    j <= downs@.len(),
                    self.tasks@.len() == pre.tasks@.len(),
                    RunState::meta_same(pre, *self),
                    forall|x: int|
                        0 <= x < downs@.len() ==> #[trigger] downs@[x] < pre.tasks@.len(),
                    forall|x: int|
                        0 <= x < downs@.len() ==> pre.has_edge(tid as int, #[trigger] downs@[x] as int),
                    forall|d: int|
                        pre.has_edge(tid as int, d) ==> downs@.contains(d as usize),
                    self.status_of(tid as int) == TaskStatus::Success,
                    // Edges: only unselected (tid, _) edges disappear.
                    forall|a: int, b: int|
                        a != tid ==> self.has_edge(a, b) == pre.has_edge(a, b),
                    forall|b: int| self.has_edge(tid as int, b) ==> pre.has_edge(tid as int, b),
                    forall|b: int|
                        pre.has_edge(tid as int, b) && selected@.contains(b as usize)
                            ==> self.has_edge(tid as int, b),
                    forall|x: int|
                        0 <= x < j && !selected@.contains(#[trigger] downs@[x]) ==> !self.has_edge(
                            tid as int,
                            downs@[x] as int,
                        ),
                    // Pruned tasks' bindings on the branch task are gone.
                    forall|x: int, k: int|
                        0 <= x < j && !selected@.contains(#[trigger] downs@[x]) && 0 <= k < self.tasks@[
                            downs@[x] as int
                        ].dep_keys@.len() ==> (#[trigger] self.tasks@[
                            downs@[x] as int
                        ].dep_keys@[k]).upstream != tid,
                    // A pruned task with no upstream left is Skipped.
                    forall|x: int|
                        0 <= x < j && !selected@.contains(#[trigger] downs@[x]) && !self.has_upstream(
                            downs@[x] as int,
                        ) && pre.status_of(downs@[x] as int) == TaskStatus::Pending && downs@[x]
                            != tid ==> self.status_of(downs@[x] as int) == TaskStatus::Skipped,
                    // Frames.
                    forall|t: int|
                        0 <= t < pre.tasks@.len() ==> (#[trigger] self.tasks@[t]).task
                            == pre.tasks@[t].task && self.tasks@[t].results == pre.tasks@[t].results
                            && self.tasks@[t].attempt == pre.tasks@[t].attempt
                            && self.tasks@[t].logs == pre.tasks@[t].logs,
                    forall|t: int|
                        0 <= t < pre.tasks@.len() ==> (#[trigger] self.tasks@[t]).status_history
                            == pre.tasks@[t].status_history || (self.tasks@[t].status_history@
                            == pre.tasks@[t].status_history@.push(TaskStatus::Skipped)
                            && pre.status_of(t) == TaskStatus::Pending && t != tid),
                decreases downs@.len() - j,
            {
                let ghost iter_pre = *self;
                let d = downs[j];
                if !contains_usize(selected, d) {
                    self.remove_edge(tid, d);
                    let ghost after_rm = *self;
                    if matches!(self.get_task_status(d), TaskStatus::Pending) {
                        let ups_d = self.get_upstream(d);
                        if ups_d.len() == 0 {
                            proof {
                                assert(!self.has_upstream(d as int)) by {
                                    if self.has_upstream(d as int) {
                                        let u = choose|u: int| self.has_edge(u, d as int);
                                        assert(ups_d@.contains(u as usize));
                                    }
                                }
                            }
                            self.set_task_status(d, TaskStatus::Skipped);
                        } else {
                            proof {
                                assert(self.has_edge(ups_d@[0] as int, d as int));
                                assert(self.has_upstream(d as int));
                            }
                        }
                    }
                    proof {
                        RunState::lemma_edge_congruence(after_rm, *self);
                        // How this iteration changed the edge set.
                        assert forall|a: int, b: int|
                            self.has_edge(a, b) == (iter_pre.has_edge(a, b) && !(a == tid && b
                                == d)) by {}
                        // A pruned task with no upstream left is Skipped —
                        // re-established for every index seen so far.
                        assert forall|x: int|
                            0 <= x < j + 1 && !selected@.contains(#[trigger] downs@[x])
                                && !self.has_upstream(downs@[x] as int) && pre.status_of(
                                downs@[x] as int,
                            ) == TaskStatus::Pending && downs@[x] != tid implies self.status_of(
                            downs@[x] as int,
                        ) == TaskStatus::Skipped by {
                            if downs@[x] == d {
                            } else {
                                if iter_pre.has_upstream(downs@[x] as int) {
                                    let u = choose|u: int|
                                        iter_pre.has_edge(u, downs@[x] as int);
                                    assert(self.has_edge(u, downs@[x] as int));
                                } else {
                                    assert(x < j);
                                    assert(iter_pre.status_of(downs@[x] as int)
                                        == TaskStatus::Skipped);
                                }
                            }
                        }
                    }
                }
                j += 1;
            }
            proof {
                assert forall|d: int|
                    pre.has_edge(tid as int, d) && !selected@.contains(d as usize) implies !self.has_edge(
                    tid as int,
                    d,
                ) by {
                    assert(downs@.contains(d as usize));
                    let x = downs@.index_of(d as usize);
                    assert(!self.has_edge(tid as int, downs@[x] as int));
                }
            }
        }
        let ghost mid = *self;
        self.propagate_skips();
        proof {
            RunState::lemma_edge_congruence(mid, *self);
            if !(success && is_branch_task) {
                RunState::lemma_edge_congruence(pre, *self);
            }
        }
        retry
    }
}

/// The first value stored under `key`, if any.
pub open spec fn find_value(s: Seq<KeyVal>, key: Seq<char>) -> Option<Seq<char>>
    decreases s.len(),
{
    if s.len() == 0 {
        None
    } else if s[0].key@ == key {
        Some(s[0].value@)
    } else {
        find_value(s.drop_first(), key)
    }
}

/// Looks up the first value stored under `key`.
pub fn lookup_value<'a>(s: &'a Vec<KeyVal>, key: &str) -> (r: Option<&'a String>)
    ensures
        match r {
            Some(v) => find_value(s@, key@) == Some(v@),
            None => find_value(s@, key@) is None,
        },
{
    proof {
        assert(s@.subrange(0, s@.len() as int) =~= s@);
    }
    let mut i: usize = 0;
    while i < s.len()
        invariant
            i <= s@.len(),
            find_value(s@, key@) == find_value(s@.subrange(i as int, s@.len() as int), key@),
            forall|j: int| 0 <= j < i ==> (#[trigger] s@[j]).key@ != key@,
        decreases s@.len() - i,
    {
        let entry = &s[i];
        if crate::task::str_eq(entry.key.as_str(), key) {
            proof {
                assert(s@.subrange(i as int, s@.len() as int)[0] == s@[i as int]);
            }
            return Some(&entry.value);
        }
        proof {
            assert(s@.subrange(i as int, s@.len() as int).drop_first() =~= s@.subrange(
                i + 1 as int,
                s@.len() as int,
            ));
            assert(s@.subrange(i as int, s@.len() as int)[0] == s@[i as int]);
        }
        i += 1;
    }
    proof {
        assert(s@.subrange(s@.len() as int, s@.len() as int) =~= Seq::<KeyVal>::empty());
    }
    None
}

/// The first binding for the argument named `arg_key`, if any.
pub open spec fn find_binding(keys: Seq<DepKey>, arg_key: Seq<char>) -> Option<DepKey>
    decreases keys.len(),
{
    if keys.len() == 0 {
        None
    } else if keys[0].arg_key matches Some(a) && a@ == arg_key {
        Some(keys[0])
    } else {
        find_binding(keys.drop_first(), arg_key)
    }
}

/// Looks up the first binding for the argument named `arg_key`.
fn lookup_binding<'a>(keys: &'a Vec<DepKey>, arg_key: &str) -> (r: Option<&'a DepKey>)
    ensures
        match r {
            Some(b) => find_binding(keys@, arg_key@) == Some(*b),
            None => find_binding(keys@, arg_key@) is None,
        },
{
    proof {
        assert(keys@.subrange(0, keys@.len() as int) =~= keys@);
    }
    let mut i: usize = 0;
    while i < keys.len()
        invariant
            i <= keys@.len(),
            find_binding(keys@, arg_key@) == find_binding(
                keys@.subrange(i as int, keys@.len() as int),
                arg_key@,
            ),
        decreases keys@.len() - i,
    {
        let entry = &keys[i];
        let matches_arg = match &entry.arg_key {
            Some(a) => crate::task::str_eq(a.as_str(), arg_key),
            None => false,
        };
        proof {
            assert(keys@.subrange(i as int, keys@.len() as int)[0] == keys@[i as int]);
            assert(keys@.subrange(i as int, keys@.len() as int).drop_first() =~= keys@.subrange(
                i + 1 as int,
                keys@.len() as int,
            ));
        }
        if matches_arg {
            return Some(entry);
        }
        i += 1;
    }
    proof {
        assert(keys@.subrange(keys@.len() as int, keys@.len() as int) =~= Seq::<DepKey>::empty());
    }
    None
}

impl RunState {
    /// The value a task's template argument resolves to: if the argument has
    /// a binding whose upstream task has produced a result and whose named
    /// field is present in that result's payload, the field's value;
    /// otherwise the argument's own template value.
    pub open spec fn resolved_value(self, t: int, arg: KeyVal) -> Seq<char> {
        match find_binding(self.tasks@[t].dep_keys@, arg.key@) {
            None => arg.value@,
            Some(b) => if b.upstream < self.tasks@.len() && self.tasks@[
                b.upstream as int
            ].results@.len() > 0 {
                match b.result_key {
                    Some(rk) => match find_value(
                        self.tasks@[b.upstream as int].results@.last().result@,
                        rk@,
                    ) {
                        Some(v) => v,
                        None => arg.value@,
                    },
                    None => arg.value@,
                }
            } else {
                arg.value@
            },
        }
    }

    /// Resolves a task's template arguments against its dependency bindings
    /// and its upstream tasks' current results: every argument keeps its
    /// key, and its value becomes `resolved_value`. The run itself is not
    /// changed; the caller hands the resolved arguments to the execution and
    /// records them on the eventual result for audit.
    pub fn resolve_args(&self, task_id: usize) -> (r: Vec<KeyVal>)
        requires
            self.wf(),
            task_id < self.tasks@.len(),
        ensures
            r@.len() == self.tasks@[task_id as int].task.template_args@.len(),
            forall|i: int|
                0 <= i < r@.len() ==> (#[trigger] r@[i]).key@ == self.tasks@[
                    task_id as int
                ].task.template_args@[i].key@ && r@[i].value@ == self.resolved_value(
                    task_id as int,
                    self.tasks@[task_id as int].task.template_args@[i],
                ),
    {
        let args = &self.tasks[task_id].task.template_args;
        let keys = &self.tasks[task_id].dep_keys;
        let mut out: Vec<KeyVal> = Vec::new();
        let mut i: usize = 0;
        while i < args.len()
            invariant
                self.wf(),
                task_id < self.tasks@.len(),
                args == &self.tasks@[task_id as int].task.template_args,
                keys == &self.tasks@[task_id as int].dep_keys,
                i <= args@.len(),
                out@.len() == i,
                forall|j: int|
                    0 <= j < i ==> (#[trigger] out@[j]).key@ == args@[j].key@ && out@[j].value@
                        == self.resolved_value(task_id as int, args@[j]),
            decreases args@.len() - i,
        {
            let arg = &args[i];
            let value: String = match lookup_binding(keys, arg.key.as_str()) {
                None => arg.value.clone(),
                Some(b) => {
                    if b.upstream < self.tasks.len() && self.tasks[b.upstream].results.len() > 0 {
                        let results = &self.tasks[b.upstream].results;
                        let latest = &results[results.len() - 1];
                        match &b.result_key {
                            Some(rk) => match lookup_value(&latest.result, rk.as_str()) {
                                Some(v) => v.clone(),
                                None => arg.value.clone(),
                            },
                            None => arg.value.clone(),
                        }
                    } else {
                        arg.value.clone()
                    }
                },
            };
            out.push(KeyVal { key: arg.key.clone(), value });
            i += 1;
        }
        out
    }

    /// Replaces the task's template arguments; done once they are resolved.
    pub fn set_template_args(&mut self, task_id: usize, template_args: Vec<KeyVal>)
        requires
            old(self).wf(),
            task_id < old(self).tasks@.len(),
        ensures
            final(self).wf(),
            final(self).tasks@[task_id as int].task.template_args == template_args,
            final(self).tasks@[task_id as int].task.id == old(self).tasks@[
                task_id as int
            ].task.id,
            final(self).tasks@[task_id as int].task.function_name == old(self).tasks@[
                task_id as int
            ].task.function_name,
            final(self).tasks@[task_id as int].task.options == old(self).tasks@[
                task_id as int
            ].task.options,
            final(self).tasks@[task_id as int].task.lazy_expand == old(self).tasks@[
                task_id as int
            ].task.lazy_expand,
            final(self).tasks@[task_id as int].task.is_dynamic == old(self).tasks@[
                task_id as int
            ].task.is_dynamic,
            final(self).tasks@[task_id as int].task.is_branch == old(self).tasks@[
                task_id as int
            ].task.is_branch,
            final(self).tasks@[task_id as int].status_history == old(self).tasks@[
                task_id as int
            ].status_history,
            final(self).tasks@[task_id as int].results == old(self).tasks@[
                task_id as int
            ].results,
            final(self).tasks@[task_id as int].attempt == old(self).tasks@[
                task_id as int
            ].attempt,
            final(self).tasks@[task_id as int].depth == old(self).tasks@[task_id as int].depth,
            final(self).tasks@[task_id as int].dep_keys == old(self).tasks@[
                task_id as int
            ].dep_keys,
            final(self).tasks@[task_id as int].logs == old(self).tasks@[task_id as int].logs,
            RunState::tasks_unchanged_except(*old(self), *final(self), task_id as int),
            RunState::meta_same(*old(self), *final(self)),
            final(self).edges@ == old(self).edges@,
    {
        self.tasks[task_id].task.template_args = template_args;
        proof {
            RunState::lemma_wf_preserved(*old(self), *self);
        }
    }

    /// The task's current template arguments.
    pub fn get_template_args(&self, task_id: usize) -> (r: &Vec<KeyVal>)
        requires
            task_id < self.tasks@.len(),
        ensures
            r@ == self.tasks@[task_id as int].task.template_args@,
    {
        &self.tasks[task_id].task.template_args
    }

    /// The task's definition.
    pub fn get_task_by_id(&self, task_id: usize) -> (r: &Task)
        requires
            task_id < self.tasks@.len(),
        ensures
            *r == self.tasks@[task_id as int].task,
    {
        &self.tasks[task_id].task
    }

    /// Copies of every task definition of the run, in id order.
    pub fn get_all_tasks(&self) -> (r: Vec<Task>)
        ensures
            r@.len() == self.tasks@.len(),
            forall|i: int|
                0 <= i < r@.len() ==> (#[trigger] r@[i]).same_def(self.tasks@[i].task),
    {
        let mut out: Vec<Task> = Vec::new();
        let mut i: usize = 0;
        while i < self.tasks.len()
            invariant
                i <= self.tasks@.len(),
                out@.len() == i,
                forall|j: int|
                    0 <= j < i ==> (#[trigger] out@[j]).same_def(self.tasks@[j].task),
            decreases self.tasks@.len() - i,
        {
            out.push(self.tasks[i].task.duplicate());
            i += 1;
        }
        out
    }

    /// Copies of the definitions of every task that has not reached a
    /// terminal status, in id order.
    pub fn get_all_tasks_incomplete(&self) -> (r: Vec<Task>)
        requires
            self.wf(),
        ensures
            forall|j: int|
                0 <= j < r@.len() ==> (#[trigger] r@[j]).id < self.tasks@.len() && r@[j].same_def(
                    self.tasks@[r@[j].id as int].task,
                ) && !self.task_complete(r@[j].id as int),
            forall|t: int|
                0 <= t < self.tasks@.len() && !self.task_complete(t) ==> exists|j: int|
                    0 <= j < r@.len() && (#[trigger] r@[j]).id == t,
            forall|x: int, y: int|
                0 <= x < y < r@.len() ==> (#[trigger] r@[x]).id < (#[trigger] r@[y]).id,
    {
        let mut out: Vec<Task> = Vec::new();
        let mut i: usize = 0;
        while i < self.tasks.len()
            invariant
                self.wf(),
                i <= self.tasks@.len(),
                forall|j: int| 0 <= j < out@.len() ==> (#[trigger] out@[j]).id < i,
                forall|x: int, y: int|
                    0 <= x < y < out@.len() ==> (#[trigger] out@[x]).id < (#[trigger] out@[y]).id,
                forall|j: int|
                    0 <= j < out@.len() ==> (#[trigger] out@[j]).id < self.tasks@.len()
                        && out@[j].same_def(self.tasks@[out@[j].id as int].task)
                        && !self.task_complete(out@[j].id as int),
                forall|t: int|
                    0 <= t < i && !self.task_complete(t) ==> exists|j: int|
                        0 <= j < out@.len() && (#[trigger] out@[j]).id == t,
            decreases self.tasks@.len() - i,
        {
            let ghost out_pre = out@;
            if !self.get_task_status(i).is_complete() {
                out.push(self.tasks[i].task.duplicate());
                proof {
                    assert(self.tasks@[i as int].task.id == i);
                    assert(out@.last().id == i);
                    assert(out@.last().same_def(self.tasks@[i as int].task));
                }
            }
            proof {
                assert forall|t: int|
                    0 <= t < i + 1 && !self.task_complete(t) implies exists|j: int|
                    0 <= j < out@.len() && (#[trigger] out@[j]).id == t by {
                    if t < i {
                        let j = choose|j: int| 0 <= j < out_pre.len() && out_pre[j].id == t;
                        assert(out@[j].id == t);
                    } else {
                        assert(out@.last().id == i);
                    }
                }
            }
            i += 1;
        }
        out
    }

    /// Some line of the history belongs to the attempt.
    pub open spec fn has_log_line(logs: Seq<LogLine>, attempt: usize) -> bool
        decreases logs.len(),
    {
        if logs.len() == 0 {
            false
        } else {
            RunState::has_log_line(logs.drop_last(), attempt) || logs.last().attempt == attempt
        }
    }

    /// The lines the attempt logged so far, joined by single newlines (no
    /// trailing one); empty when it logged nothing.
    pub open spec fn joined_log(logs: Seq<LogLine>, attempt: usize) -> Seq<char>
        decreases logs.len(),
    {
        if logs.len() == 0 {
            Seq::empty()
        } else {
            let rest = RunState::joined_log(logs.drop_last(), attempt);
            if logs.last().attempt == attempt {
                if RunState::has_log_line(logs.drop_last(), attempt) {
                    rest + seq!['\n'] + logs.last().line@
                } else {
                    logs.last().line@
                }
            } else {
                rest
            }
        }
    }

    /// Appends one captured output line for the attempt.
    pub fn append_log(&mut self, task_id: usize, attempt: usize, line: String)
        requires
            old(self).wf(),
            task_id < old(self).tasks@.len(),
        ensures
            final(self).wf(),
            final(self).tasks@[task_id as int].logs@ == old(self).tasks@[
                task_id as int
            ].logs@.push(LogLine { attempt, line }),
            TaskRecord::changed_only_logs(
                old(self).tasks@[task_id as int],
                final(self).tasks@[task_id as int],
            ),
            RunState::tasks_unchanged_except(*old(self), *final(self), task_id as int),
            RunState::meta_same(*old(self), *final(self)),
            final(self).edges@ == old(self).edges@,
    {
        self.tasks[task_id].logs.push(LogLine { attempt, line });
        proof {
            RunState::lemma_wf_preserved(*old(self), *self);
        }
    }

    /// An attempt that logged nothing reads back as the empty string.
    proof fn lemma_joined_log_empty(logs: Seq<LogLine>, attempt: usize)
        requires
            !RunState::has_log_line(logs, attempt),
        ensures
            RunState::joined_log(logs, attempt).len() == 0,
        decreases logs.len(),
    {
        if logs.len() > 0 {
            RunState::lemma_joined_log_empty(logs.drop_last(), attempt);
        }
    }

    /// The attempt's log: its lines in order, joined by newlines.
    pub fn get_log(&self, task_id: usize, attempt: usize) -> (r: String)
        requires
            task_id < self.tasks@.len(),
        ensures
            r@ == RunState::joined_log(self.tasks@[task_id as int].logs@, attempt),
    {
        let logs = &self.tasks[task_id].logs;
        let mut out = String::new();
        let mut any = false;
        let mut i: usize = 0;
        while i < logs.len()
            invariant
                i <= logs@.len(),
                out@ == RunState::joined_log(logs@.subrange(0, i as int), attempt),
                any == RunState::has_log_line(logs@.subrange(0, i as int), attempt),
            decreases logs@.len() - i,
        {
            let entry = &logs[i];
            if entry.attempt == attempt {
                if any {
                    out.append("\n");
                    proof {
                        reveal_strlit("\n");
                        assert("\n"@ =~= seq!['\n']);
                    }
                } else {
                    proof {
                        RunState::lemma_joined_log_empty(
                            logs@.subrange(0, i as int),
                            attempt,
                        );
                        assert(out@ =~= Seq::<char>::empty());
                    }
                }
                out.append(entry.line.as_str());
                any = true;
            }
            proof {
                assert(logs@.subrange(0, i + 1 as int).drop_last() =~= logs@.subrange(
                    0,
                    i as int,
                ));
                assert(logs@.subrange(0, i + 1 as int).last() == logs@[i as int]);
            }
            i += 1;
        }
        proof {
            assert(logs@.subrange(0, logs@.len() as int) =~= logs@);
        }
        out
    }

    /// Removes and returns the most recent line the attempt logged, if any.
    pub fn take_last_stdout_line(&mut self, task_id: usize, attempt: usize) -> (r: Option<String>)
        requires
            old(self).wf(),
            task_id < old(self).tasks@.len(),
        ensures
            final(self).wf(),
            RunState::tasks_unchanged_except(*old(self), *final(self), task_id as int),
            RunState::meta_same(*old(self), *final(self)),
            final(self).edges@ == old(self).edges@,
            TaskRecord::changed_only_logs(
                old(self).tasks@[task_id as int],
                final(self).tasks@[task_id as int],
            ),
            match r {
                None => final(self).tasks@[task_id as int].logs == old(self).tasks@[
                    task_id as int
                ].logs && (forall|k: int|
                    0 <= k < old(self).tasks@[task_id as int].logs@.len() ==> (#[trigger] old(
                        self,
                    ).tasks@[task_id as int].logs@[k]).attempt != attempt),
                Some(line) => exists|k: int|
                    {
                        &&& 0 <= k < old(self).tasks@[task_id as int].logs@.len()
                        &&& (#[trigger] old(self).tasks@[task_id as int].logs@[k]).attempt
                            == attempt
                        &&& old(self).tasks@[task_id as int].logs@[k].line == line
                        &&& final(self).tasks@[task_id as int].logs@ == old(self).tasks@[
                            task_id as int
                        ].logs@.remove(k)
                        &&& forall|k2: int|
                            k < k2 < old(self).tasks@[task_id as int].logs@.len() ==> (
                            #[trigger] old(self).tasks@[task_id as int].logs@[k2]).attempt
                                != attempt
                    },
            },
    {
        let n = self.tasks[task_id].logs.len();
        let mut i: usize = n;
        while i > 0
            invariant
                task_id < self.tasks@.len(),
                old(self).wf(),
                task_id < old(self).tasks@.len(),
                *self == *old(self),
                n == self.tasks@[task_id as int].logs@.len(),
                i <= n,
                forall|k: int|
                    i <= k < n ==> (#[trigger] self.tasks@[task_id as int].logs@[k]).attempt
                        != attempt,
            decreases i,
        {
            i -= 1;
            if self.tasks[task_id].logs[i].attempt == attempt {
                let entry = self.tasks[task_id].logs.remove(i);
                proof {
                    RunState::lemma_wf_preserved(*old(self), *self);
                }
                return Some(entry.line);
            }
        }
        None
    }
}

/// Helper for the acyclicity law: by induction on the rank bound, every
/// task ranked below the bound has a memoized depth.
proof fn lemma_ranked_depths_below(run: RunState, rank: Seq<nat>, bound: nat)
    requires
        rank.len() == run.tasks@.len(),
        forall|k: int|
            0 <= k < run.edges@.len() ==> (#[trigger] run.edges@[k]).0 < run.tasks@.len()
                && run.edges@[k].1 < run.tasks@.len(),
        forall|k: int|
            0 <= k < run.edges@.len() ==> rank[(#[trigger] run.edges@[k]).0 as int] < rank[
                run.edges@[k].1 as int
            ],
        forall|t: int|
            0 <= t < run.tasks@.len() && (#[trigger] run.tasks@[t]).depth is None ==> exists|
                u: int,
            |
                run.has_edge(u, t) && run.tasks@[u].depth is None,
    ensures
        forall|t: int|
            0 <= t < run.tasks@.len() && rank[t] < bound ==> (#[trigger] run.tasks@[t]).depth
                is Some,
    decreases bound,
{
    if bound > 0 {
        lemma_ranked_depths_below(run, rank, (bound - 1) as nat);
        assert forall|t: int|
            0 <= t < run.tasks@.len() && rank[t] < bound implies (#[trigger] run.tasks@[t]).depth
            is Some by {
            if rank[t] >= bound - 1 {
                if run.tasks@[t].depth is None {
                    let u = choose|u: int| run.has_edge(u, t) && run.tasks@[u].depth is None;
                    let k = choose|k: int|
                        0 <= k < run.edges@.len() && run.edges@[k].0 == u && run.edges@[k].1 == t;
                    assert(rank[u] < rank[t]);
                    assert(run.tasks@[u].depth is Some);
                }
            }
        }
    }
}

/// The acyclicity law: an edge set that admits a topological ranking (every
/// edge goes from a lower rank to a higher one) admits no cycle
/// certificate. Whenever every depth-less task has a depth-less upstream
/// task — what every `CycleDetected` error certifies of its run — a ranked
/// run in fact has every depth memoized, so on such a definition that error
/// cannot occur.
pub proof fn lemma_ranked_run_has_all_depths(run: RunState, rank: Seq<nat>)
    requires
        rank.len() == run.tasks@.len(),
        forall|k: int|
            0 <= k < run.edges@.len() ==> (#[trigger] run.edges@[k]).0 < run.tasks@.len()
                && run.edges@[k].1 < run.tasks@.len(),
        forall|k: int|
            0 <= k < run.edges@.len() ==> rank[(#[trigger] run.edges@[k]).0 as int] < rank[
                run.edges@[k].1 as int
            ],
        forall|t: int|
            0 <= t < run.tasks@.len() && (#[trigger] run.tasks@[t]).depth is None ==> exists|
                u: int,
            |
                run.has_edge(u, t) && run.tasks@[u].depth is None,
    ensures
        forall|t: int|
            0 <= t < run.tasks@.len() ==> (#[trigger] run.tasks@[t]).depth is Some,
{
    assert forall|t: int|
        0 <= t < run.tasks@.len() implies (#[trigger] run.tasks@[t]).depth is Some by {
        lemma_ranked_depths_below(run, rank, (rank[t] + 1) as nat);
    }
}

/// The depth invariant, stated on its own: in a well-formed run every
/// memoized depth is consistent with the current edge set, that is, `0` for a
/// task with no upstream and one more than the maximum memoized upstream
/// depth otherwise. Edge mutations clear the memo, so a recomputation always
/// yields values consistent with the edge set in force.
pub proof fn lemma_depth_invariant(run: RunState, t: int)
    requires
        run.wf(),
        0 <= t < run.tasks@.len(),
    ensures
        run.depth_ok_at(t),
{
}

} // verus!
