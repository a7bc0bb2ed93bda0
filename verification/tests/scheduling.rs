use dagrun::engine::Orchestrator;
use dagrun::schedule::{catchup, next_run_time, scheduler, DagOptions};
use dagrun::task::{TaskOptions, TaskTemplate};

// 2024-01-01T00:00:00Z, on an hour boundary.
const T0: i64 = 1_704_067_200_000;
const HOUR: i64 = 3_600_000;

fn one_task() -> Vec<TaskTemplate> {
    vec![TaskTemplate {
        function_name: "work".to_string(),
        template_args: Vec::new(),
        options: TaskOptions {
            timeout_ms: None,
            max_attempts: 1,
        },
        lazy_expand: false,
        is_dynamic: false,
        is_branch: false,
    }]
}

fn hourly(catchup_enabled: bool, end: Option<i64>) -> DagOptions {
    DagOptions {
        schedule: Some("0 * * * *".to_string()),
        start_date_ms: Some(T0),
        end_date_ms: end,
        catchup: catchup_enabled,
    }
}

#[test]
fn no_duplicate_backfill() {
    let mut eng = Orchestrator::new(10);
    let options = hourly(true, None);
    let up_to = T0 + 3 * HOUR;
    let created = catchup(
        &mut eng,
        "d",
        "h",
        &options,
        &one_task(),
        &vec![],
        up_to,
        100,
    )
    .unwrap();
    // Exactly the three missed hours, in chronological order.
    assert_eq!(created, 3);
    assert_eq!(eng.runs.len(), 3);
    assert_eq!(eng.runs[0].logical_date, T0);
    assert_eq!(eng.runs[1].logical_date, T0 + HOUR);
    assert_eq!(eng.runs[2].logical_date, T0 + 2 * HOUR);
    // A second pass over the same window backfills nothing again.
    let again = catchup(
        &mut eng,
        "d",
        "h",
        &options,
        &one_task(),
        &vec![],
        up_to,
        100,
    )
    .unwrap();
    assert_eq!(again, 0);
    assert_eq!(eng.runs.len(), 3);
}

#[test]
fn catchup_disabled_backfills_nothing() {
    let mut eng = Orchestrator::new(10);
    let options = hourly(false, None);
    let created = catchup(
        &mut eng,
        "d",
        "h",
        &options,
        &one_task(),
        &vec![],
        T0 + 3 * HOUR,
        100,
    )
    .unwrap();
    assert_eq!(created, 0);
    assert!(eng.runs.is_empty());
}

#[test]
fn catchup_stops_at_end_date() {
    let mut eng = Orchestrator::new(10);
    let options = hourly(true, Some(T0 + HOUR));
    let created = catchup(
        &mut eng,
        "d",
        "h",
        &options,
        &one_task(),
        &vec![],
        T0 + 3 * HOUR,
        100,
    )
    .unwrap();
    assert_eq!(created, 2);
    assert_eq!(eng.runs[0].logical_date, T0);
    assert_eq!(eng.runs[1].logical_date, T0 + HOUR);
}

#[test]
fn unscheduled_workflow_is_left_alone() {
    let mut eng = Orchestrator::new(10);
    let options = DagOptions {
        schedule: None,
        start_date_ms: Some(T0),
        end_date_ms: None,
        catchup: true,
    };
    let created = catchup(
        &mut eng,
        "d",
        "h",
        &options,
        &one_task(),
        &vec![],
        T0 + HOUR,
        100,
    )
    .unwrap();
    assert_eq!(created, 0);
}

#[test]
fn invalid_schedule_is_nonfatal() {
    let mut eng = Orchestrator::new(10);
    let options = DagOptions {
        schedule: Some("not a cron line".to_string()),
        start_date_ms: Some(T0),
        end_date_ms: None,
        catchup: true,
    };
    let created = catchup(
        &mut eng,
        "d",
        "h",
        &options,
        &one_task(),
        &vec![],
        T0 + 3 * HOUR,
        100,
    )
    .unwrap();
    assert_eq!(created, 0);
    assert!(eng.runs.is_empty());
}

#[test]
fn scheduler_tick_advances_watermark_and_dedups() {
    let mut eng = Orchestrator::new(10);
    let options = hourly(true, None);
    // The tick's window starts at the watermark, just past T0, and ends at
    // "now": only the T0 + 1h fire lies inside it.
    let (created, watermark) = scheduler(
        &mut eng,
        "d",
        "h",
        &options,
        &one_task(),
        &vec![],
        T0 + 1,
        T0 + 2 * HOUR,
        100,
    )
    .unwrap();
    assert_eq!(watermark, T0 + 2 * HOUR);
    assert_eq!(created, 1);
    assert_eq!(eng.runs[0].logical_date, T0 + HOUR);
    // An overlapping tick with a stale watermark fires nothing twice.
    let (again, _) = scheduler(
        &mut eng,
        "d",
        "h",
        &options,
        &one_task(),
        &vec![],
        T0 + 1,
        T0 + 2 * HOUR,
        100,
    )
    .unwrap();
    assert_eq!(again, 0);
    assert_eq!(eng.runs.len(), 1);
}

#[test]
fn scheduler_skips_ended_workflow() {
    let mut eng = Orchestrator::new(10);
    let options = hourly(true, Some(T0));
    let (created, watermark) = scheduler(
        &mut eng,
        "d",
        "h",
        &options,
        &one_task(),
        &vec![],
        T0 + HOUR,
        T0 + 2 * HOUR,
        100,
    )
    .unwrap();
    assert_eq!(created, 0);
    assert_eq!(watermark, T0 + 2 * HOUR);
}

#[test]
fn scheduled_runs_enqueue_their_roots() {
    let mut eng = Orchestrator::new(10);
    let options = hourly(true, None);
    catchup(
        &mut eng,
        "d",
        "h",
        &options,
        &one_task(),
        &vec![],
        T0 + HOUR,
        100,
    )
    .unwrap();
    assert_eq!(eng.runs.len(), 1);
    assert_eq!(eng.queue.len(), 1);
    let popped = eng.pop_priority_queue().unwrap();
    assert_eq!(popped.queued_task.run_id, 0);
    assert_eq!(popped.queued_task.dag_name, "d");
}

#[test]
fn next_run_time_from_now_and_bounds() {
    // Half past the hour: the next fire is the coming hour boundary.
    let options = DagOptions {
        schedule: Some("0 * * * *".to_string()),
        start_date_ms: None,
        end_date_ms: None,
        catchup: false,
    };
    assert_eq!(next_run_time(&options, T0 + HOUR / 2), Some(T0 + HOUR));
    // Exactly on a boundary the boundary itself is due.
    assert_eq!(next_run_time(&options, T0), Some(T0));
    // A future start date wins over "now".
    let future_start = DagOptions {
        start_date_ms: Some(T0 + 10 * HOUR),
        ..options
    };
    assert_eq!(next_run_time(&future_start, T0), Some(T0 + 10 * HOUR));
    // Past the end date there is no next run.
    let ended = DagOptions {
        schedule: Some("0 * * * *".to_string()),
        start_date_ms: None,
        end_date_ms: Some(T0 - HOUR),
        catchup: false,
    };
    assert_eq!(next_run_time(&ended, T0), None);
    // No schedule, no next run.
    let unscheduled = DagOptions {
        schedule: None,
        start_date_ms: None,
        end_date_ms: None,
        catchup: false,
    };
    assert_eq!(next_run_time(&unscheduled, T0), None);
}
