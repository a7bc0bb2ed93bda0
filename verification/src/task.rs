//! Task-level data: statuses, options, definitions, results, queue entries.

use vstd::prelude::*;

verus! {

/// The lifecycle states of a task within a run.
#[derive(Clone, Copy, PartialEq, Eq, Structural, Debug)]
pub enum TaskStatus {
    Pending,
    Running,
    Retrying,
    Success,
    Failure,
    Skipped,
}

impl TaskStatus {
    /// A terminal status never changes again: `Success`, `Skipped`, or
    /// `Failure` (which the engine only sets once retries are exhausted).
    pub open spec fn is_terminal(self) -> bool {
        self == TaskStatus::Success || self == TaskStatus::Failure || self == TaskStatus::Skipped
    }

    /// Executable test for a terminal status.
    pub fn is_complete(&self) -> (r: bool)
        ensures
            r == self.is_terminal(),
    {
        match self {
            TaskStatus::Success | TaskStatus::Failure | TaskStatus::Skipped => true,
            _ => false,
        }
    }

    /// A short label for display.
    pub fn label(&self) -> (r: &'static str)
    {
        match self {
            TaskStatus::Pending => "Pending",
            TaskStatus::Running => "Running",
            TaskStatus::Retrying => "Retrying",
            TaskStatus::Success => "Success",
            TaskStatus::Failure => "Failure",
            TaskStatus::Skipped => "Skipped",
        }
    }
}

/// Relies on `str`'s `PartialEq`: two string slices are equal exactly when
/// they hold the same characters.
#[verifier::external_body]
pub(crate) fn str_eq(a: &str, b: &str) -> (r: bool)
    ensures
        r == (a@ == b@),
{
    a == b
}

/// The current status of a history of transitions: the most recent entry, or
/// `Pending` when nothing was recorded yet.
pub open spec fn current_status(history: Seq<TaskStatus>) -> TaskStatus {
    if history.len() == 0 {
        TaskStatus::Pending
    } else {
        history.last()
    }
}

/// Per-task execution options.
#[derive(Clone, Copy, PartialEq, Eq, Structural, Debug)]
pub struct TaskOptions {
    /// If set, a dispatched attempt older than this many milliseconds is
    /// force-failed by the timeout supervisor.
    pub timeout_ms: Option<u64>,
    /// How many attempts the task is given before it fails terminally.
    pub max_attempts: usize,
}

/// One key/value pair of a task's template arguments or of a result payload.
pub struct KeyVal {
    pub key: String,
    pub value: String,
}

impl KeyVal {
    /// A field-by-field copy; `Clone` derived on a `String`-bearing type
    /// carries no contract, so the copy is spelled out.
    pub fn duplicate(&self) -> (r: KeyVal)
        ensures
            r == *self,
    {
        KeyVal { key: self.key.clone(), value: self.value.clone() }
    }
}

/// Copies a list of key/value pairs.
pub fn duplicate_keyvals(kvs: &Vec<KeyVal>) -> (r: Vec<KeyVal>)
    ensures
        r@ =~= kvs@,
{
    let mut out: Vec<KeyVal> = Vec::new();
    let mut i: usize = 0;
    while i < kvs.len()
        invariant
            i <= kvs@.len(),
            out@ =~= kvs@.subrange(0, i as int),
        decreases kvs@.len() - i,
    {
        out.push(kvs[i].duplicate());
        assert(out@ =~= kvs@.subrange(0, i + 1 as int));
        i += 1;
    }
    assert(kvs@.subrange(0, kvs@.len() as int) =~= kvs@);
    out
}

/// One captured output line of a task attempt.
pub struct LogLine {
    /// The attempt the line belongs to, counted from 1.
    pub attempt: usize,
    pub line: String,
}

/// A task definition within a run: the static part copied from the workflow
/// definition (or appended by a dynamic task), immutable except for
/// `template_args`, which is rewritten once resolved.
pub struct Task {
    /// Unique within the run; equal to the task's index in the run's task table.
    pub id: usize,
    pub function_name: String,
    pub template_args: Vec<KeyVal>,
    pub options: TaskOptions,
    pub lazy_expand: bool,
    pub is_dynamic: bool,
    pub is_branch: bool,
}

impl Task {
    /// Whether two definitions carry the same content. Two `Vec`s are
    /// distinct values even with equal contents, so task copies are compared
    /// with this rather than with `==`.
    pub open spec fn same_def(self, other: Task) -> bool {
        &&& self.id == other.id
        &&& self.function_name == other.function_name
        &&& self.template_args@ == other.template_args@
        &&& self.options == other.options
        &&& self.lazy_expand == other.lazy_expand
        &&& self.is_dynamic == other.is_dynamic
        &&& self.is_branch == other.is_branch
    }

    /// A field-by-field copy with a contract (see `KeyVal::duplicate`).
    pub fn duplicate(&self) -> (r: Task)
        ensures
            r.same_def(*self),
    {
        Task {
            id: self.id,
            function_name: self.function_name.clone(),
            template_args: duplicate_keyvals(&self.template_args),
            options: self.options,
            lazy_expand: self.lazy_expand,
            is_dynamic: self.is_dynamic,
            is_branch: self.is_branch,
        }
    }
}

/// The static definition of one task in a workflow, before it is
/// instantiated in a run: what the definition provider hands the engine.
pub struct TaskTemplate {
    pub function_name: String,
    pub template_args: Vec<KeyVal>,
    pub options: TaskOptions,
    pub lazy_expand: bool,
    pub is_dynamic: bool,
    pub is_branch: bool,
}

impl TaskTemplate {
    /// A field-by-field copy with a contract (see `KeyVal::duplicate`);
    /// the argument list carries the same pairs, as a fresh vector.
    pub fn duplicate(&self) -> (r: TaskTemplate)
        ensures
            r.function_name == self.function_name,
            r.template_args@ == self.template_args@,
            r.options == self.options,
            r.lazy_expand == self.lazy_expand,
            r.is_dynamic == self.is_dynamic,
            r.is_branch == self.is_branch,
    {
        TaskTemplate {
            function_name: self.function_name.clone(),
            template_args: duplicate_keyvals(&self.template_args),
            options: self.options,
            lazy_expand: self.lazy_expand,
            is_dynamic: self.is_dynamic,
            is_branch: self.is_branch,
        }
    }
}

/// Copies a list of task templates.
pub fn duplicate_templates(tpls: &Vec<TaskTemplate>) -> (r: Vec<TaskTemplate>)
    ensures
        r@.len() == tpls@.len(),
        forall|i: int|
            0 <= i < tpls@.len() ==> {
                &&& (#[trigger] r@[i]).function_name == tpls@[i].function_name
                &&& r@[i].template_args@ == tpls@[i].template_args@
                &&& r@[i].options == tpls@[i].options
                &&& r@[i].lazy_expand == tpls@[i].lazy_expand
                &&& r@[i].is_dynamic == tpls@[i].is_dynamic
                &&& r@[i].is_branch == tpls@[i].is_branch
            },
{
    let mut out: Vec<TaskTemplate> = Vec::new();
    let mut i: usize = 0;
    while i < tpls.len()
        invariant
            i <= tpls@.len(),
            out@.len() == i,
            forall|j: int|
                0 <= j < i ==> {
                    &&& (#[trigger] out@[j]).function_name == tpls@[j].function_name
                    &&& out@[j].template_args@ == tpls@[j].template_args@
                    &&& out@[j].options == tpls@[j].options
                    &&& out@[j].lazy_expand == tpls@[j].lazy_expand
                    &&& out@[j].is_dynamic == tpls@[j].is_dynamic
                    &&& out@[j].is_branch == tpls@[j].is_branch
                },
        decreases tpls@.len() - i,
    {
        out.push(tpls[i].duplicate());
        i += 1;
    }
    out
}

/// The audit rendering of resolved arguments: each pair as `key=value`,
/// ended by a newline.
pub open spec fn spec_render_args(s: Seq<KeyVal>) -> Seq<char>
    decreases s.len(),
{
    if s.len() == 0 {
        Seq::empty()
    } else {
        spec_render_args(s.drop_last()) + s.last().key@ + seq!['='] + s.last().value@ + seq![
            '\n',
        ]
    }
}

/// Renders resolved arguments to one string for audit, as `spec_render_args`
/// lays them out.
pub fn render_args(args: &Vec<KeyVal>) -> (r: String)
    ensures
        r@ == spec_render_args(args@),
{
    let mut out = String::new();
    let mut i: usize = 0;
    while i < args.len()
        invariant
            i <= args@.len(),
            out@ == spec_render_args(args@.subrange(0, i as int)),
        decreases args@.len() - i,
    {
        let arg = &args[i];
        out.append(arg.key.as_str());
        out.append("=");
        out.append(arg.value.as_str());
        out.append("\n");
        proof {
            reveal_strlit("=");
            reveal_strlit("\n");
            assert("="@ =~= seq!['=']);
            assert("\n"@ =~= seq!['\n']);
            assert(args@.subrange(0, i + 1 as int).drop_last() =~= args@.subrange(0, i as int));
            assert(args@.subrange(0, i + 1 as int).last() == args@[i as int]);
        }
        i += 1;
    }
    proof {
        assert(args@.subrange(0, args@.len() as int) =~= args@);
    }
    out
}

/// The record of one attempt of a task. Appended on every attempt; the latest
/// entry is the task's current result.
pub struct TaskResult {
    pub task_id: usize,
    /// The payload the attempt produced, as named fields; downstream tasks
    /// resolve their arguments out of it.
    pub result: Vec<KeyVal>,
    /// The attempt this result belongs to, counted from 1.
    pub attempt: usize,
    pub max_attempts: usize,
    pub function_name: String,
    pub success: bool,
    /// The arguments the attempt actually ran with, rendered to one string
    /// for auditability.
    pub resolved_args_str: String,
    /// Start and end of the attempt, in milliseconds.
    pub started: i64,
    pub ended: i64,
    pub elapsed: i64,
    /// True when the engine synthesized this failure (timeout supervision)
    /// rather than the task's own execution reporting it.
    pub premature_failure: bool,
    pub premature_failure_reason: Option<String>,
    pub is_branch: bool,
}

impl TaskResult {
    /// Whether two results carry the same content, field by field (their
    /// payload vectors compared by contents; see `Task::same_def`).
    pub open spec fn same_content(self, other: TaskResult) -> bool {
        &&& self.task_id == other.task_id
        &&& self.result@ == other.result@
        &&& self.attempt == other.attempt
        &&& self.max_attempts == other.max_attempts
        &&& self.function_name == other.function_name
        &&& self.success == other.success
        &&& self.resolved_args_str == other.resolved_args_str
        &&& self.started == other.started
        &&& self.ended == other.ended
        &&& self.elapsed == other.elapsed
        &&& self.premature_failure == other.premature_failure
        &&& self.premature_failure_reason == other.premature_failure_reason
        &&& self.is_branch == other.is_branch
    }

    /// A field-by-field copy with a contract (see `KeyVal::duplicate`).
    pub fn duplicate(&self) -> (r: TaskResult)
        ensures
            r.same_content(*self),
    {
        let premature_failure_reason = match &self.premature_failure_reason {
            Some(reason) => Some(reason.clone()),
            None => None,
        };
        TaskResult {
            task_id: self.task_id,
            result: duplicate_keyvals(&self.result),
            attempt: self.attempt,
            max_attempts: self.max_attempts,
            function_name: self.function_name.clone(),
            success: self.success,
            resolved_args_str: self.resolved_args_str.clone(),
            started: self.started,
            ended: self.ended,
            elapsed: self.elapsed,
            premature_failure: self.premature_failure,
            premature_failure_reason,
            is_branch: self.is_branch,
        }
    }

    /// Whether the retry rule re-dispatches the task after this result:
    /// a failure that has attempts left.
    pub open spec fn spec_needs_retry(self) -> bool {
        !self.success && self.attempt < self.max_attempts
    }

    /// Executable form of `spec_needs_retry`.
    pub fn needs_retry(&self) -> (r: bool)
        ensures
            r == self.spec_needs_retry(),
    {
        !self.success && self.attempt < self.max_attempts
    }

    /// The synthetic result the timeout supervisor records for an attempt
    /// that exceeded its timeout: a premature failure with an empty payload.
    pub fn premature(
        task_id: usize,
        attempt: usize,
        max_attempts: usize,
        function_name: String,
        reason: String,
        is_branch: bool,
        now: i64,
    ) -> (r: TaskResult)
        ensures
            r.task_id == task_id,
            r.attempt == attempt,
            r.max_attempts == max_attempts,
            r.function_name == function_name,
            !r.success,
            r.premature_failure,
            r.premature_failure_reason == Some(reason),
            r.is_branch == is_branch,
            r.result@.len() == 0,
            r.started == now && r.ended == now && r.elapsed == 0,
    {
        TaskResult {
            task_id,
            result: Vec::new(),
            attempt,
            max_attempts,
            function_name,
            success: false,
            resolved_args_str: String::new(),
            started: now,
            ended: now,
            elapsed: 0,
            premature_failure: true,
            premature_failure_reason: Some(reason),
            is_branch,
        }
    }
}

/// The unit placed on the dispatch queue.
pub struct QueuedTask {
    pub run_id: usize,
    pub task_id: usize,
    pub dag_name: String,
    /// When the entry was enqueued, in milliseconds; the timeout supervisor
    /// measures in-flight age from it.
    pub queued_at: i64,
    /// The attempt this dispatch belongs to, counted from 1.
    pub attempt: usize,
}

impl QueuedTask {
    /// A field-by-field copy with a contract (see `KeyVal::duplicate`).
    pub fn duplicate(&self) -> (r: QueuedTask)
        ensures
            r == *self,
    {
        QueuedTask {
            run_id: self.run_id,
            task_id: self.task_id,
            dag_name: self.dag_name.clone(),
            queued_at: self.queued_at,
            attempt: self.attempt,
        }
    }
}

/// A dispatch-queue entry together with its priority: the task's depth, so
/// that upstream tasks are dispatched before downstream ones.
pub struct OrderedQueuedTask {
    pub score: usize,
    pub queued_task: QueuedTask,
}

} // verus!
