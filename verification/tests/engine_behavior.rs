use dagrun::engine::{EngineError, Orchestrator};
use dagrun::task::{render_args, KeyVal, TaskOptions, TaskResult, TaskStatus, TaskTemplate};

fn tpl(name: &str, max_attempts: usize, timeout_ms: Option<u64>, is_branch: bool) -> TaskTemplate {
    TaskTemplate {
        function_name: name.to_string(),
        template_args: Vec::new(),
        options: TaskOptions {
            timeout_ms,
            max_attempts,
        },
        lazy_expand: false,
        is_dynamic: false,
        is_branch,
    }
}

fn tpl_with_args(name: &str, args: Vec<(&str, &str)>) -> TaskTemplate {
    let mut t = tpl(name, 1, None, false);
    t.template_args = args
        .into_iter()
        .map(|(k, v)| KeyVal {
            key: k.to_string(),
            value: v.to_string(),
        })
        .collect();
    t
}

fn outcome(
    task_id: usize,
    attempt: usize,
    max_attempts: usize,
    success: bool,
    payload: Vec<(&str, &str)>,
) -> TaskResult {
    TaskResult {
        task_id,
        result: payload
            .into_iter()
            .map(|(k, v)| KeyVal {
                key: k.to_string(),
                value: v.to_string(),
            })
            .collect(),
        attempt,
        max_attempts,
        function_name: "f".to_string(),
        success,
        resolved_args_str: String::new(),
        started: 0,
        ended: 0,
        elapsed: 0,
        premature_failure: false,
        premature_failure_reason: None,
        is_branch: false,
    }
}

fn diamond() -> (Vec<TaskTemplate>, Vec<(usize, usize)>) {
    (
        vec![
            tpl("a", 1, None, false),
            tpl("b", 1, None, false),
            tpl("c", 1, None, false),
            tpl("d", 1, None, false),
        ],
        vec![(0, 1), (0, 2), (1, 3), (2, 3)],
    )
}

#[test]
fn depth_invariant_on_diamond() {
    let mut eng = Orchestrator::new(10);
    let (tasks, edges) = diamond();
    let rid = eng
        .trigger_run("d", "h", 0, tasks, &edges, 0)
        .unwrap()
        .unwrap();
    assert_eq!(rid, 0);
    assert_eq!(eng.runs[0].tasks[0].depth, Some(0));
    assert_eq!(eng.runs[0].tasks[1].depth, Some(1));
    assert_eq!(eng.runs[0].tasks[2].depth, Some(1));
    assert_eq!(eng.runs[0].tasks[3].depth, Some(2));
}

#[test]
fn depth_recomputed_after_edge_mutation() {
    let mut eng = Orchestrator::new(10);
    let tasks = vec![
        tpl("a", 1, None, false),
        tpl("b", 1, None, false),
        tpl("c", 1, None, false),
    ];
    let edges = vec![(0, 1), (1, 2)];
    eng.trigger_run("d", "h", 0, tasks, &edges, 0)
        .unwrap()
        .unwrap();
    assert_eq!(eng.get_task_depth(0, 2), Some(2));
    // Removing the middle edge leaves c with a shorter longest path.
    eng.remove_edge(0, 1, 2);
    eng.insert_edge(0, 0, 2);
    assert_eq!(eng.get_task_depth(0, 2), Some(1));
    assert_eq!(eng.get_task_depth(0, 1), Some(1));
}

#[test]
fn dispatch_order_upstream_first() {
    let mut eng = Orchestrator::new(10);
    let tasks = vec![
        tpl("a", 1, None, false),
        tpl("b", 1, None, false),
        tpl("c", 1, None, false),
    ];
    let edges = vec![(0, 1), (1, 2)];
    eng.trigger_run("d", "h", 0, tasks, &edges, 0)
        .unwrap()
        .unwrap();
    // Make all three simultaneously eligible in the queue.
    eng.enqueue_task(0, 1, 0).unwrap();
    eng.enqueue_task(0, 2, 0).unwrap();
    assert_eq!(eng.queue.len(), 3);
    let first = eng.pop_priority_queue().unwrap();
    assert_eq!(first.queued_task.task_id, 0);
    assert_eq!(first.score, 0);
    let second = eng.pop_priority_queue().unwrap();
    assert_eq!(second.queued_task.task_id, 1);
    let third = eng.pop_priority_queue().unwrap();
    assert_eq!(third.queued_task.task_id, 2);
}

#[test]
fn pop_respects_concurrency_cap() {
    let mut eng = Orchestrator::new(1);
    let tasks = vec![tpl("a", 1, None, false), tpl("b", 1, None, false)];
    let edges = vec![];
    eng.trigger_run("d", "h", 0, tasks, &edges, 0)
        .unwrap()
        .unwrap();
    assert_eq!(eng.queue.len(), 2);
    let first = eng.pop_priority_queue().unwrap();
    // The only slot is taken: backpressure kicks in.
    assert!(eng.pop_priority_queue().is_none());
    eng.remove_from_in_flight(&first.queued_task);
    assert!(eng.pop_priority_queue().is_some());
}

#[test]
fn retry_bound_exactly_three_attempts() {
    let mut eng = Orchestrator::new(10);
    let tasks = vec![tpl("flaky", 3, None, false)];
    let edges = vec![];
    eng.trigger_run("d", "h", 0, tasks, &edges, 0)
        .unwrap()
        .unwrap();
    let none_selected: Vec<usize> = Vec::new();
    for round in 1..=3usize {
        let popped = eng.pop_priority_queue().unwrap();
        assert_eq!(popped.queued_task.attempt, round);
        assert!(eng.set_status_to_running_if_possible(0, 0));
        eng.handle_task_result(
            &popped.queued_task,
            outcome(0, popped.queued_task.attempt, 3, false, vec![]),
            &none_selected,
            0,
        )
        .unwrap();
        eng.remove_from_in_flight(&popped.queued_task);
    }
    // Exactly three results, terminal Failure, never re-enqueued a 4th time.
    assert_eq!(eng.runs[0].tasks[0].results.len(), 3);
    assert_eq!(eng.runs[0].get_task_status(0), TaskStatus::Failure);
    assert_eq!(eng.queue.len(), 0);
    assert!(eng.pop_priority_queue().is_none());
}

#[test]
fn retry_reenqueues_with_next_attempt() {
    let mut eng = Orchestrator::new(10);
    let tasks = vec![tpl("flaky", 2, None, false)];
    eng.trigger_run("d", "h", 0, tasks, &vec![], 0)
        .unwrap()
        .unwrap();
    let popped = eng.pop_priority_queue().unwrap();
    assert_eq!(popped.queued_task.attempt, 1);
    eng.handle_task_result(
        &popped.queued_task,
        outcome(0, 1, 2, false, vec![]),
        &Vec::new(),
        0,
    )
    .unwrap();
    assert_eq!(eng.runs[0].get_task_status(0), TaskStatus::Retrying);
    assert_eq!(eng.queue.len(), 1);
    assert_eq!(eng.queue[0].queued_task.attempt, 2);
}

#[test]
fn branch_pruning_skips_unselected_child() {
    let mut eng = Orchestrator::new(10);
    let tasks = vec![
        tpl("pick", 1, None, true),
        tpl("kept", 1, None, false),
        tpl("dropped", 1, None, false),
    ];
    let edges = vec![(0, 1), (0, 2)];
    eng.trigger_run("d", "h", 0, tasks, &edges, 0)
        .unwrap()
        .unwrap();
    eng.set_dependency_keys(0, 2, (0, Some("x".to_string())), Some("out".to_string()));
    let popped = eng.pop_priority_queue().unwrap();
    assert_eq!(popped.queued_task.task_id, 0);
    assert!(eng.set_status_to_running_if_possible(0, 0));
    let selected = vec![1usize];
    eng.handle_task_result(
        &popped.queued_task,
        outcome(0, 1, 1, true, vec![]),
        &selected,
        0,
    )
    .unwrap();
    // The unselected child lost its edge, its binding, and is Skipped.
    assert!(!eng.runs[0].edge_exists(0, 2));
    assert!(eng.runs[0].edge_exists(0, 1));
    assert_eq!(eng.runs[0].get_task_status(2), TaskStatus::Skipped);
    assert!(eng.runs[0]
        .get_dependency_keys(2)
        .iter()
        .all(|k| k.upstream != 0));
    // The kept child became ready and was enqueued.
    assert_eq!(eng.runs[0].get_task_status(1), TaskStatus::Pending);
    assert!(eng
        .queue
        .iter()
        .any(|e| e.queued_task.task_id == 1 && e.queued_task.run_id == 0));
}

#[test]
fn timeout_recovery_force_fails_expired_attempt() {
    let mut eng = Orchestrator::new(10);
    let tasks = vec![tpl("slow", 1, Some(5000), false)];
    eng.trigger_run("d", "h", 0, tasks, &vec![], 0)
        .unwrap()
        .unwrap();
    let popped = eng.pop_priority_queue().unwrap();
    assert_eq!(popped.queued_task.queued_at, 0);
    assert_eq!(eng.get_temp_queue().len(), 1);
    // 6 seconds in flight with a 5 second timeout: force-failed.
    eng.check_timeout(6000).unwrap();
    assert_eq!(eng.get_temp_queue().len(), 0);
    let results = eng.runs[0].get_all_results(0);
    assert_eq!(results.len(), 1);
    assert!(results[0].premature_failure);
    assert_eq!(
        results[0].premature_failure_reason.as_deref(),
        Some("timed out")
    );
    assert_eq!(eng.runs[0].get_task_status(0), TaskStatus::Failure);
}

#[test]
fn timeout_spares_attempts_within_budget() {
    let mut eng = Orchestrator::new(10);
    let tasks = vec![tpl("slow", 1, Some(5000), false)];
    eng.trigger_run("d", "h", 0, tasks, &vec![], 0)
        .unwrap()
        .unwrap();
    eng.pop_priority_queue().unwrap();
    // Exactly at the timeout the attempt is still within budget.
    eng.check_timeout(5000).unwrap();
    assert_eq!(eng.get_temp_queue().len(), 1);
    assert_eq!(eng.runs[0].get_all_results(0).len(), 0);
}

#[test]
fn idempotent_run_creation() {
    let mut eng = Orchestrator::new(10);
    assert!(!eng.contains_logical_date("d", "h1", 42));
    let first = eng.create_run("d", "h1", 42);
    assert_eq!(first, Some(0));
    assert!(eng.contains_logical_date("d", "h1", 42));
    // The same triple a second time: silently skipped, nothing created.
    let second = eng.create_run("d", "h1", 42);
    assert_eq!(second, None);
    assert_eq!(eng.runs.len(), 1);
    // A different definition hash is a different key.
    assert_eq!(eng.create_run("d", "h2", 42), Some(1));
}

#[test]
fn worker_happy_path_resolves_and_completes() {
    let mut eng = Orchestrator::new(10);
    let tasks = vec![
        tpl("producer", 1, None, false),
        tpl_with_args("consumer", vec![("x", "template")]),
    ];
    let edges = vec![(0, 1)];
    let rid = eng
        .trigger_run("d", "h", 0, tasks, &edges, 0)
        .unwrap()
        .unwrap();
    eng.set_dependency_keys(rid, 1, (0, Some("x".to_string())), Some("out".to_string()));
    assert!(eng.runs[rid].any_upstream_incomplete(1));

    let popped = eng.pop_priority_queue().unwrap();
    assert_eq!(popped.queued_task.task_id, 0);
    assert!(eng.set_status_to_running_if_possible(rid, 0));
    eng.handle_task_result(
        &popped.queued_task,
        outcome(0, 1, 1, true, vec![("out", "42")]),
        &Vec::new(),
        0,
    )
    .unwrap();
    eng.remove_from_in_flight(&popped.queued_task);
    assert!(!eng.runs[rid].any_upstream_incomplete(1));

    let popped = eng.pop_priority_queue().unwrap();
    assert_eq!(popped.queued_task.task_id, 1);
    assert!(eng.set_status_to_running_if_possible(rid, 1));
    let resolved = eng.runs[rid].resolve_args(1);
    assert_eq!(resolved.len(), 1);
    assert_eq!(resolved[0].key, "x");
    assert_eq!(resolved[0].value, "42");
    assert_eq!(render_args(&resolved), "x=42\n");
    eng.handle_task_result(
        &popped.queued_task,
        outcome(1, 1, 1, true, vec![]),
        &Vec::new(),
        0,
    )
    .unwrap();
    eng.remove_from_in_flight(&popped.queued_task);

    assert!(eng.is_run_complete(rid));
    eng.mark_finished(rid);
    assert!(eng.get_pending_runs("d").is_empty());
}

#[test]
fn resolver_keeps_template_value_without_match() {
    let mut eng = Orchestrator::new(10);
    let tasks = vec![
        tpl("producer", 1, None, false),
        tpl_with_args("consumer", vec![("x", "template")]),
    ];
    let edges = vec![(0, 1)];
    eng.trigger_run("d", "h", 0, tasks, &edges, 0)
        .unwrap()
        .unwrap();
    eng.set_dependency_keys(0, 1, (0, Some("x".to_string())), Some("missing".to_string()));
    let popped = eng.pop_priority_queue().unwrap();
    eng.handle_task_result(
        &popped.queued_task,
        outcome(0, 1, 1, true, vec![("out", "42")]),
        &Vec::new(),
        0,
    )
    .unwrap();
    // The bound field is absent from the payload: the template value stays.
    let resolved = eng.runs[0].resolve_args(1);
    assert_eq!(resolved[0].value, "template");
}

#[test]
fn upstream_terminal_failure_skips_downstream() {
    let mut eng = Orchestrator::new(10);
    let tasks = vec![tpl("a", 1, None, false), tpl("b", 1, None, false)];
    let edges = vec![(0, 1)];
    eng.trigger_run("d", "h", 0, tasks, &edges, 0)
        .unwrap()
        .unwrap();
    let popped = eng.pop_priority_queue().unwrap();
    eng.handle_task_result(
        &popped.queued_task,
        outcome(0, 1, 1, false, vec![]),
        &Vec::new(),
        0,
    )
    .unwrap();
    assert_eq!(eng.runs[0].get_task_status(0), TaskStatus::Failure);
    // Every upstream of b is settled and none succeeded: b is unreachable.
    assert_eq!(eng.runs[0].get_task_status(1), TaskStatus::Skipped);
    assert!(eng.is_run_complete(0));
}

#[test]
fn running_claim_won_only_once() {
    let mut eng = Orchestrator::new(10);
    eng.trigger_run("d", "h", 0, vec![tpl("a", 1, None, false)], &vec![], 0)
        .unwrap()
        .unwrap();
    assert!(eng.set_status_to_running_if_possible(0, 0));
    // A second worker's claim on the same dispatch loses.
    assert!(!eng.set_status_to_running_if_possible(0, 0));
    assert_eq!(eng.runs[0].get_task_status(0), TaskStatus::Running);
}

#[test]
fn cycle_is_reported_not_dispatched() {
    let mut eng = Orchestrator::new(10);
    let tasks = vec![tpl("a", 1, None, false), tpl("b", 1, None, false)];
    let edges = vec![(0, 1)];
    eng.trigger_run("d", "h", 0, tasks, &edges, 0)
        .unwrap()
        .unwrap();
    eng.insert_edge(0, 1, 0);
    assert_eq!(eng.enqueue_task(0, 0, 0), Err(EngineError::CycleDetected));
    assert_eq!(eng.get_task_depth(0, 0), None);
}

#[test]
fn seeding_rejects_edges_outside_definition() {
    let mut eng = Orchestrator::new(10);
    let tasks = vec![tpl("a", 1, None, false), tpl("b", 1, None, false)];
    let edges = vec![(0, 5)];
    let r = eng.trigger_run("d", "h", 0, tasks, &edges, 0);
    assert_eq!(r, Err(EngineError::InvalidEdge));
}

#[test]
fn dynamic_expansion_appends_pending_task() {
    let mut eng = Orchestrator::new(10);
    eng.trigger_run("d", "h", 0, vec![tpl("a", 1, None, false)], &vec![], 0)
        .unwrap()
        .unwrap();
    let new_id =
        eng.append_new_task_and_set_status_to_pending(0, "expanded".to_string(), Vec::new(),
            TaskOptions { timeout_ms: None, max_attempts: 1 }, false, true, false);
    assert_eq!(new_id, 1);
    eng.insert_edge(0, 0, new_id);
    assert_eq!(eng.runs[0].get_task_status(new_id), TaskStatus::Pending);
    assert_eq!(eng.get_task_depth(0, new_id), Some(1));
    assert_eq!(eng.runs[0].get_task_by_id(new_id).function_name, "expanded");
}

#[test]
fn logs_append_join_and_pop() {
    let mut eng = Orchestrator::new(10);
    eng.trigger_run("d", "h", 0, vec![tpl("a", 1, None, false)], &vec![], 0)
        .unwrap()
        .unwrap();
    eng.handle_log(0, 0, 1, "first".to_string());
    eng.handle_log(0, 0, 1, "second".to_string());
    eng.handle_log(0, 0, 2, "other attempt".to_string());
    assert_eq!(eng.runs[0].get_log(0, 1), "first\nsecond");
    assert_eq!(eng.runs[0].get_log(0, 2), "other attempt");
    assert_eq!(eng.runs[0].get_log(0, 3), "");
    let last = eng.runs[0].take_last_stdout_line(0, 1);
    assert_eq!(last.as_deref(), Some("second"));
    assert_eq!(eng.runs[0].get_log(0, 1), "first");
    assert_eq!(eng.runs[0].take_last_stdout_line(0, 3), None);
}

#[test]
fn run_listings_filter_by_workflow() {
    let mut eng = Orchestrator::new(10);
    eng.trigger_run("alpha", "h", 100, vec![tpl("a", 1, None, false)], &vec![], 0)
        .unwrap()
        .unwrap();
    eng.trigger_run("beta", "h", 200, vec![tpl("a", 1, None, false)], &vec![], 0)
        .unwrap()
        .unwrap();
    eng.trigger_run("alpha", "h", 300, vec![tpl("a", 1, None, false)], &vec![], 0)
        .unwrap()
        .unwrap();
    let alpha = eng.get_runs("alpha");
    assert_eq!(alpha.len(), 2);
    assert_eq!(alpha[0].run_id, 0);
    assert_eq!(alpha[0].date, 100);
    assert_eq!(alpha[1].run_id, 2);
    let last = eng.get_last_run("alpha").unwrap();
    assert_eq!(last.run_id, 2);
    assert_eq!(last.date, 300);
    assert!(eng.get_last_run("gamma").is_none());
    assert_eq!(eng.get_recent_runs("alpha").len(), 2);
    let pending = eng.get_pending_runs("alpha");
    assert_eq!(pending.len(), 2);
    eng.mark_finished(0);
    assert_eq!(eng.get_pending_runs("alpha").len(), 1);
}

#[test]
fn incomplete_task_listing_shrinks() {
    let mut eng = Orchestrator::new(10);
    let tasks = vec![tpl("a", 1, None, false), tpl("b", 1, None, false)];
    eng.trigger_run("d", "h", 0, tasks, &vec![], 0)
        .unwrap()
        .unwrap();
    assert_eq!(eng.runs[0].get_all_tasks().len(), 2);
    assert_eq!(eng.runs[0].get_all_tasks_incomplete().len(), 2);
    let popped = eng.pop_priority_queue().unwrap();
    let tid = popped.queued_task.task_id;
    eng.handle_task_result(
        &popped.queued_task,
        outcome(tid, 1, 1, true, vec![]),
        &Vec::new(),
        0,
    )
    .unwrap();
    let left = eng.runs[0].get_all_tasks_incomplete();
    assert_eq!(left.len(), 1);
    assert_ne!(left[0].id, tid);
}

#[test]
fn template_args_rewritten_once_resolved() {
    let mut eng = Orchestrator::new(10);
    let tasks = vec![tpl_with_args("a", vec![("x", "before")])];
    eng.trigger_run("d", "h", 0, tasks, &vec![], 0)
        .unwrap()
        .unwrap();
    let resolved = vec![KeyVal {
        key: "x".to_string(),
        value: "after".to_string(),
    }];
    eng.runs[0].set_template_args(0, resolved);
    assert_eq!(eng.runs[0].get_template_args(0)[0].value, "after");
}

#[test]
fn result_history_lists_most_recent_first() {
    let mut eng = Orchestrator::new(10);
    eng.trigger_run("d", "h", 0, vec![tpl("flaky", 2, None, false)], &vec![], 0)
        .unwrap()
        .unwrap();
    let first = eng.pop_priority_queue().unwrap();
    eng.handle_task_result(
        &first.queued_task,
        outcome(0, 1, 2, false, vec![]),
        &Vec::new(),
        0,
    )
    .unwrap();
    eng.remove_from_in_flight(&first.queued_task);
    let second = eng.pop_priority_queue().unwrap();
    eng.handle_task_result(
        &second.queued_task,
        outcome(0, 2, 2, true, vec![]),
        &Vec::new(),
        0,
    )
    .unwrap();
    let listed = eng.runs[0].get_all_results(0);
    assert_eq!(listed.len(), 2);
    assert_eq!(listed[0].attempt, 2);
    assert!(listed[0].success);
    assert_eq!(listed[1].attempt, 1);
    assert!(!listed[1].success);
}

#[test]
fn equal_scores_pop_in_insertion_order() {
    let mut eng = Orchestrator::new(10);
    let tasks = vec![tpl("first", 1, None, false), tpl("second", 1, None, false)];
    eng.trigger_run("d", "h", 0, tasks, &vec![], 0)
        .unwrap()
        .unwrap();
    // Both roots share depth 0; insertion order breaks the tie.
    let a = eng.pop_priority_queue().unwrap();
    let b = eng.pop_priority_queue().unwrap();
    assert_eq!(a.score, 0);
    assert_eq!(b.score, 0);
    assert_eq!(a.queued_task.task_id, 0);
    assert_eq!(b.queued_task.task_id, 1);
}

#[test]
fn diamond_join_waits_for_both_parents() {
    let mut eng = Orchestrator::new(10);
    let tasks = vec![
        tpl("a", 1, None, false),
        tpl("b", 1, None, false),
        tpl("c", 1, None, false),
        tpl("d", 1, None, false),
    ];
    let edges = vec![(0, 1), (0, 2), (1, 3), (2, 3)];
    eng.trigger_run("d", "h", 0, tasks, &edges, 0)
        .unwrap()
        .unwrap();
    let root = eng.pop_priority_queue().unwrap();
    eng.handle_task_result(
        &root.queued_task,
        outcome(0, 1, 1, true, vec![]),
        &Vec::new(),
        0,
    )
    .unwrap();
    let mid = eng.pop_priority_queue().unwrap();
    eng.handle_task_result(
        &mid.queued_task,
        outcome(mid.queued_task.task_id, 1, 1, true, vec![]),
        &Vec::new(),
        0,
    )
    .unwrap();
    // One branch of the diamond is still unfinished: the join is not queued.
    assert!(!eng
        .queue
        .iter()
        .any(|e| e.queued_task.task_id == 3));
    assert!(eng.runs[0].any_upstream_incomplete(3));
    let other = eng.pop_priority_queue().unwrap();
    eng.handle_task_result(
        &other.queued_task,
        outcome(other.queued_task.task_id, 1, 1, true, vec![]),
        &Vec::new(),
        0,
    )
    .unwrap();
    assert!(eng
        .queue
        .iter()
        .any(|e| e.queued_task.task_id == 3));
}

#[test]
fn duplicate_edge_insertion_is_idempotent() {
    let mut eng = Orchestrator::new(10);
    let tasks = vec![tpl("a", 1, None, false), tpl("b", 1, None, false)];
    eng.trigger_run("d", "h", 0, tasks, &vec![], 0)
        .unwrap()
        .unwrap();
    eng.insert_edge(0, 0, 1);
    eng.insert_edge(0, 0, 1);
    // The edge set stays a set: each downstream id is listed once.
    assert_eq!(eng.runs[0].get_downstream(0), vec![1]);
    assert_eq!(eng.runs[0].get_upstream(1), vec![0]);
}
