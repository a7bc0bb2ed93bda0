//! The catchup/backfill scheduler and the live scheduler: cron-driven,
//! per-workflow passes that create any runs whose fire times have come,
//! deduplicated through the engine's logical-date set.

use vstd::prelude::*;

use crate::cron::{cron_next_from, cron_next_of, cron_schedule_valid, cron_valid_of};
use crate::engine::{EngineError, Orchestrator};
use crate::task::TaskTemplate;

verus! {

/// A workflow's scheduling options.
pub struct DagOptions {
    /// The cron expression, if the workflow is scheduled at all.
    pub schedule: Option<String>,
    /// Fire times before this instant (milliseconds) are never considered.
    pub start_date_ms: Option<i64>,
    /// Fire times after this instant are never considered.
    pub end_date_ms: Option<i64>,
    /// Whether missed past fire times are backfilled from the start date.
    pub catchup: bool,
}

/// Rounds an instant up to the next whole minute.
pub fn align_minute(t: i64) -> (r: i64)
    requires
        0 <= t,
        t <= i64::MAX - 60000,
    ensures
        t <= r < t + 60000,
        r % 60000 == 0,
        r == spec_align_minute(t as int),
{
    let rem = t % 60000;
    if rem == 0 {
        t
    } else {
        t + (60000 - rem)
    }
}

/// What one scheduling pass leaves behind — the shape both the catchup pass
/// and the live scheduler's tick guarantee:
/// - the engine stays well-formed, existing runs and registered dates stay
///   untouched, and
/// - every run the pass created belongs to this workflow and carries a
///   logical date that was **not** yet registered when the pass began.
/// For what a pass creates and owes beyond that, see `backfill_exact`.
pub open spec fn scheduling_pass(
    pre: Orchestrator,
    post: Orchestrator,
    name: Seq<char>,
    hash: Seq<char>,
) -> bool {
    &&& post.wf()
    &&& post.runs@.len() >= pre.runs@.len()
    &&& forall|i: int| 0 <= i < pre.runs@.len() ==> post.runs@[i] == pre.runs@[i]
    &&& forall|i: int|
        pre.runs@.len() <= i < post.runs@.len() ==> (#[trigger] post.runs@[i]).dag_name@ == name
            && post.runs@[i].dag_hash@ == hash && !pre.spec_has_date(
            name,
            hash,
            post.runs@[i].logical_date,
        )
    &&& post.logical_dates@.len() >= pre.logical_dates@.len()
    &&& forall|k: int|
        0 <= k < pre.logical_dates@.len() ==> post.logical_dates@[k] == pre.logical_dates@[k]
}

/// What a pass guarantees about one window, given its due fire times: the
/// dedup shape of `scheduling_pass`, and exactness — every run the pass
/// created carries a due fire time, in chronological order; every due fire
/// time is registered afterwards; and every due fire time that was missing
/// got its run created by this very pass.
pub open spec fn backfill_exact(
    pre: Orchestrator,
    post: Orchestrator,
    name: Seq<char>,
    hash: Seq<char>,
    due: Seq<i64>,
) -> bool {
    &&& scheduling_pass(pre, post, name, hash)
    &&& forall|i: int|
        pre.runs@.len() <= i < post.runs@.len() ==> due.contains(
            (#[trigger] post.runs@[i]).logical_date,
        )
    &&& forall|i: int, j: int|
        pre.runs@.len() <= i < j < post.runs@.len() ==> (#[trigger] post.runs@[i]).logical_date
            < (#[trigger] post.runs@[j]).logical_date
    &&& forall|j: int| 0 <= j < due.len() ==> post.spec_has_date(name, hash, #[trigger] due[j])
    &&& forall|x: i64|
        #[trigger] due.contains(x) && !pre.spec_has_date(name, hash, x) ==> exists|i: int|
            pre.runs@.len() <= i < post.runs@.len() && (#[trigger] post.runs@[i]).logical_date
                == x
}

/// The fire times of `schedule` due in the window: walking from `cur`, each
/// next fire time that is still before `until` and not past `end`, stopping
/// after `fuel` steps. A result that went backwards would be malformed and
/// ends the walk.
pub open spec fn fire_times(
    s: Seq<char>,
    cur: i64,
    until: i64,
    end: Option<i64>,
    fuel: nat,
) -> Seq<i64>
    decreases fuel,
{
    if fuel == 0 {
        Seq::empty()
    } else {
        match cron_next_of(s, cur) {
            None => Seq::empty(),
            Some(t) => {
                if t < cur || t >= until || (end matches Some(e) && t > e) || t > i64::MAX - 60000 {
                    Seq::empty()
                } else {
                    seq![t] + fire_times(s, (t + 60000) as i64, until, end, (fuel - 1) as nat)
                }
            },
        }
    }
}

/// Starting the walk at or past the window end yields no due fire times.
proof fn lemma_fire_times_empty_outside(
    s: Seq<char>,
    cur: i64,
    until: i64,
    end: Option<i64>,
    fuel: nat,
)
    requires
        cur >= until,
    ensures
        fire_times(s, cur, until, end, fuel).len() == 0,
{
    if fuel != 0 {
        match cron_next_of(s, cur) {
            None => {},
            Some(t) => {
                assert(t < cur || t >= until);
            },
        }
    }
}

/// Creates a run for every fire time of `schedule` in the window
/// `[from, until)` that is not past `end` and was not already registered,
/// seeding it from the definition; at most `max_runs` fire times are
/// examined in one pass, and the count of runs created is returned. The
/// common core of the catchup pass and the live scheduler's tick.
#[verifier::loop_isolation(false)]
#[verifier::rlimit(80)]
pub fn backfill_window(
    eng: &mut Orchestrator,
    dag_name: &str,
    dag_hash: &str,
    schedule: &str,
    defaults: &Vec<TaskTemplate>,
    edges: &Vec<(usize, usize)>,
    from: i64,
    until: i64,
    end: Option<i64>,
    queue_now: i64,
    max_runs: usize,
) -> (r: Result<usize, EngineError>)
    requires
        old(eng).wf(),
        0 <= from,
        from <= i64::MAX - 60000,
        until <= i64::MAX - 60000,
        old(eng).runs@.len() + max_runs < usize::MAX,
        defaults@.len() < usize::MAX,
    ensures
        final(eng).wf(),
        scheduling_pass(*old(eng), *final(eng), dag_name@, dag_hash@),
        r matches Ok(c) ==> final(eng).runs@.len() == old(eng).runs@.len() + c && c <= max_runs,
        // Exactness: a successful pass creates runs for precisely the due,
        // unregistered fire times of the window, in chronological order.
        r is Ok ==> backfill_exact(
            *old(eng),
            *final(eng),
            dag_name@,
            dag_hash@,
            fire_times(schedule@, spec_align_minute(from as int) as i64, until, end, max_runs as nat),
        ),
        // The only failures: an edge outside the definition, or a certified
        // cycle in a run this pass seeded.
        r is Err ==> (r == Err::<usize, EngineError>(EngineError::InvalidEdge) || r == Err::<
            usize,
            EngineError,
        >(EngineError::CycleDetected)),
        r == Err::<usize, EngineError>(EngineError::InvalidEdge) ==> exists|e: int|
            0 <= e < edges@.len() && ((#[trigger] edges@[e]).0 >= defaults@.len() || edges@[e].1
                >= defaults@.len()),
        r == Err::<usize, EngineError>(EngineError::CycleDetected) ==> exists|i: int|
            old(eng).runs@.len() <= i < final(eng).runs@.len() && (exists|t: int|
                0 <= t < (#[trigger] final(eng).runs@[i]).tasks@.len() && (#[trigger] final(eng).runs@[i].tasks@[t]).depth is None) && (forall|t: int|
                0 <= t < final(eng).runs@[i].tasks@.len() && (#[trigger] final(eng).runs@[
                    i
                ].tasks@[t]).depth is None ==> exists|u: int|
                    final(eng).runs@[i].has_edge(u, t) && final(eng).runs@[i].tasks@[u].depth
                        is None) && (forall|a: usize, b: usize|
                final(eng).runs@[i].has_edge(a as int, b as int) == edges@.contains((a, b))),
{
    let ghost c0 = spec_align_minute(from as int) as i64;
    let ghost ft_full = fire_times(schedule@, c0, until, end, max_runs as nat);
    let mut created: usize = 0;
    let mut iter: usize = 0;
    let mut done = false;
    if from > until {
        proof {
            lemma_fire_times_empty_outside(schedule@, c0, until, end, max_runs as nat);
        }
        return Ok(created);
    }
    let mut cur = align_minute(from);
    let ghost mut consumed: Seq<i64> = Seq::empty();
    proof {
        assert(consumed + fire_times(schedule@, cur, until, end, max_runs as nat) =~= ft_full);
    }
    while iter < max_runs && !done
        invariant
            eng.wf(),
            0 <= cur,
            cur % 60000 == 0,
            created <= iter <= max_runs,
            eng.runs@.len() == old(eng).runs@.len() + created,
            forall|i: int| 0 <= i < old(eng).runs@.len() ==> eng.runs@[i] == old(eng).runs@[i],
            forall|i: int|
                old(eng).runs@.len() <= i < eng.runs@.len() ==> (#[trigger] eng.runs@[i]).dag_name@
                    == dag_name@ && eng.runs@[i].dag_hash@ == dag_hash@ && !old(
                    eng,
                ).spec_has_date(dag_name@, dag_hash@, eng.runs@[i].logical_date),
            eng.logical_dates@.len() >= old(eng).logical_dates@.len(),
            forall|k: int|
                0 <= k < old(eng).logical_dates@.len() ==> eng.logical_dates@[k] == old(
                    eng,
                ).logical_dates@[k],
            // Every due fire time is registered or still ahead of the walk.
            forall|x: i64|
                #[trigger] ft_full.contains(x) ==> eng.spec_has_date(dag_name@, dag_hash@, x)
                    || fire_times(schedule@, cur, until, end, (max_runs - iter) as nat).contains(
                    x,
                ),
            // The walk has consumed a prefix of the due fire times.
            ft_full == consumed + fire_times(
                schedule@,
                cur,
                until,
                end,
                (max_runs - iter) as nat,
            ),
            // Created runs carry due fire times, in chronological order,
            // all behind the walk's cursor.
            forall|i: int|
                old(eng).runs@.len() <= i < eng.runs@.len() ==> ft_full.contains(
                    (#[trigger] eng.runs@[i]).logical_date,
                ),
            forall|i: int|
                old(eng).runs@.len() <= i < eng.runs@.len() ==> (#[trigger] eng.runs@[i]).logical_date < cur,
            forall|i: int, j: int|
                old(eng).runs@.len() <= i < j < eng.runs@.len() ==> (#[trigger] eng.runs@[i]).logical_date < (#[trigger] eng.runs@[j]).logical_date,
            // Mid-pass registrations are this pass's own creations.
            forall|x: i64|
                !old(eng).spec_has_date(dag_name@, dag_hash@, x) && #[trigger] eng.spec_has_date(
                    dag_name@,
                    dag_hash@,
                    x,
                ) ==> exists|i: int|
                    old(eng).runs@.len() <= i < eng.runs@.len() && (#[trigger] eng.runs@[i]).logical_date == x,
            done ==> match cron_next_of(schedule@, cur) {
                None => true,
                Some(t) => t >= until || (end matches Some(e) && t > e),
            },
        decreases max_runs - iter,
    {
        let ghost fuel_pre = (max_runs - iter) as nat;
        let ghost cur_pre = cur;
        let ghost step_pre = *eng;
        let next = cron_next_from(schedule, cur);
        match next {
            None => {
                done = true;
                proof {
                    assert(fire_times(schedule@, cur, until, end, (max_runs - iter) as nat).len()
                        == 0);
                    assert(fire_times(
                        schedule@,
                        cur,
                        until,
                        end,
                        (max_runs - iter - 1) as nat,
                    ).len() == 0);
                    assert(consumed + fire_times(
                        schedule@,
                        cur,
                        until,
                        end,
                        (max_runs - iter - 1) as nat,
                    ) =~= ft_full);
                }
            },
            Some(t) => {
                let past_end = match end {
                    Some(e) => t > e,
                    None => false,
                };
                if t >= until || past_end {
                    done = true;
                    proof {
                        assert(fire_times(schedule@, cur, until, end, (max_runs - iter) as nat).len() == 0);
                        assert(fire_times(
                            schedule@,
                            cur,
                            until,
                            end,
                            (max_runs - iter - 1) as nat,
                        ).len() == 0);
                        assert(consumed + fire_times(
                            schedule@,
                            cur,
                            until,
                            end,
                            (max_runs - iter - 1) as nat,
                        ) =~= ft_full);
                    }
                } else {
                    let ghost pre_step = *eng;
                    let templates = crate::task::duplicate_templates(defaults);
                    let res = eng.trigger_run(dag_name, dag_hash, t, templates, edges, queue_now);
                    match res {
                        Err(e) => {
                            proof {
                                if e == EngineError::CycleDetected {
                                    assert(old(eng).runs@.len() <= pre_step.runs@.len()
                                        < eng.runs@.len());
                                }
                            }
                            return Err(e);
                        },
                        Ok(None) => {},
                        Ok(Some(_)) => {
                            created += 1;
                            proof {
                                assert(!pre_step.spec_has_date(dag_name@, dag_hash@, t));
                                assert(!old(eng).spec_has_date(dag_name@, dag_hash@, t)) by {
                                    if old(eng).spec_has_date(dag_name@, dag_hash@, t) {
                                        let k = choose|k: int|
                                            0 <= k < old(eng).logical_dates@.len() && (
                                            #[trigger] old(eng).logical_dates@[k]).dag_name@
                                                == dag_name@ && old(eng).logical_dates@[
                                                k
                                            ].dag_hash@ == dag_hash@ && old(eng).logical_dates@[
                                                k
                                            ].logical_date == t;
                                        assert(pre_step.logical_dates@[k] == old(
                                            eng,
                                        ).logical_dates@[k]);
                                    }
                                }
                            }
                        },
                    }
                    proof {
                        // `t` is registered now, whichever way the trigger
                        // went; earlier registrations persist.
                        assert(eng.spec_has_date(dag_name@, dag_hash@, t));
                        assert forall|x: i64|
                            pre_step.spec_has_date(dag_name@, dag_hash@, x) implies eng.spec_has_date(
                            dag_name@,
                            dag_hash@,
                            x,
                        ) by {
                            let k = choose|k: int|
                                0 <= k < pre_step.logical_dates@.len() && (
                                #[trigger] pre_step.logical_dates@[k]).dag_name@ == dag_name@
                                    && pre_step.logical_dates@[k].dag_hash@ == dag_hash@
                                    && pre_step.logical_dates@[k].logical_date == x;
                            assert(eng.logical_dates@[k] == pre_step.logical_dates@[k]);
                        }
                        // The walk consumed `t`, the head of the remaining
                        // due times.
                        let rem_pre = fire_times(
                            schedule@,
                            cur,
                            until,
                            end,
                            (max_runs - iter) as nat,
                        );
                        let rem_next = fire_times(
                            schedule@,
                            (t + 60000) as i64,
                            until,
                            end,
                            (max_runs - iter - 1) as nat,
                        );
                        assert(rem_pre == seq![t] + rem_next);
                        assert(ft_full[consumed.len() as int] == t) by {
                            assert((consumed + rem_pre)[consumed.len() as int] == rem_pre[0]);
                        }
                        assert(ft_full.contains(t));
                        consumed = consumed.push(t);
                        assert(consumed + rem_next =~= ft_full);
                        // A registration that is new since the pass began
                        // names one of this pass's created runs.
                        assert forall|x: i64|
                            !old(eng).spec_has_date(dag_name@, dag_hash@, x)
                                && #[trigger] eng.spec_has_date(dag_name@, dag_hash@, x) implies
                            exists|i: int|
                                old(eng).runs@.len() <= i < eng.runs@.len() && (
                                #[trigger] eng.runs@[i]).logical_date == x by {
                            if pre_step.spec_has_date(dag_name@, dag_hash@, x) {
                            } else {
                                let k = choose|k: int|
                                    0 <= k < eng.logical_dates@.len() && (
                                    #[trigger] eng.logical_dates@[k]).dag_name@ == dag_name@
                                        && eng.logical_dates@[k].dag_hash@ == dag_hash@
                                        && eng.logical_dates@[k].logical_date == x;
                                assert(k >= pre_step.logical_dates@.len());
                                assert(x == t);
                                assert(eng.runs@[pre_step.runs@.len() as int].logical_date == t);
                            }
                        }
                    }
                    cur = t + 60000;
                }
            },
        }
        iter += 1;
        proof {
            // The walk's remaining fire times shrink in step with the loop.
            let rem_pre = fire_times(schedule@, cur_pre, until, end, fuel_pre);
            let rem_post = fire_times(
                schedule@,
                cur,
                until,
                end,
                (max_runs - iter) as nat,
            );
            match cron_next_of(schedule@, cur_pre) {
                None => {
                    assert(rem_pre.len() == 0);
                },
                Some(t) => {
                    if t < cur_pre || t >= until || (end matches Some(e) && t > e) || t > i64::MAX
                        - 60000 {
                        assert(rem_pre.len() == 0);
                    } else {
                        assert(rem_pre == seq![t] + fire_times(
                            schedule@,
                            (t + 60000) as i64,
                            until,
                            end,
                            (fuel_pre - 1) as nat,
                        ));
                        assert(cur == t + 60000);
                        assert(eng.spec_has_date(dag_name@, dag_hash@, t));
                    }
                },
            }
            assert forall|x: i64|
                #[trigger] ft_full.contains(x) implies eng.spec_has_date(dag_name@, dag_hash@, x)
                || rem_post.contains(x) by {
                if step_pre.spec_has_date(dag_name@, dag_hash@, x) {
                    let k = choose|k: int|
                        0 <= k < step_pre.logical_dates@.len() && (
                        #[trigger] step_pre.logical_dates@[k]).dag_name@ == dag_name@
                            && step_pre.logical_dates@[k].dag_hash@ == dag_hash@
                            && step_pre.logical_dates@[k].logical_date == x;
                    assert(eng.logical_dates@[k] == step_pre.logical_dates@[k]);
                } else if rem_pre.contains(x) {
                    let idx = rem_pre.index_of(x);
                    match cron_next_of(schedule@, cur_pre) {
                        None => {},
                        Some(t) => {
                            if !(t < cur_pre || t >= until || (end matches Some(e) && t > e) || t
                                > i64::MAX - 60000) {
                                if idx == 0 {
                                    assert(x == t);
                                } else {
                                    assert(rem_post[idx - 1] == x);
                                    assert(rem_post.contains(x));
                                }
                            }
                        },
                    }
                }
            }
        }
    }
    proof {
        let rem_exit = fire_times(schedule@, cur, until, end, (max_runs - iter) as nat);
        if iter < max_runs {
            // The loop stopped because the walk ran out: nothing due is left.
            assert(done);
            assert(rem_exit.len() == 0);
        } else {
            assert((max_runs - iter) as nat == 0);
            assert(rem_exit.len() == 0);
        }
        assert forall|j: int|
            0 <= j < ft_full.len() implies eng.spec_has_date(
            dag_name@,
            dag_hash@,
            ft_full[j],
        ) by {
            assert(ft_full.contains(ft_full[j]));
        }
        assert forall|x: i64|
            #[trigger] ft_full.contains(x) && !old(eng).spec_has_date(dag_name@, dag_hash@, x)
            implies exists|i: int|
                old(eng).runs@.len() <= i < eng.runs@.len() && (#[trigger] eng.runs@[i]).logical_date == x by {
            let j = ft_full.index_of(x);
            assert(eng.spec_has_date(dag_name@, dag_hash@, ft_full[j]));
        }
    }
    Ok(created)
}

/// Where the catchup pass starts walking fire times: the start date when
/// backfilling is enabled, else the top of the window (nothing behind it).
pub open spec fn spec_catchup_from(o: DagOptions, up_to: i64) -> i64 {
    match o.start_date_ms {
        Some(sd) => if o.catchup {
            sd
        } else {
            up_to
        },
        None => up_to,
    }
}

/// One catchup/backfill pass for one workflow: if it has a schedule and
/// backfilling is enabled, every missed fire time from the start date up to
/// (but excluding) `up_to` gets its run, skipping dates already registered;
/// without `catchup` (or without a start date) nothing lies in the window
/// and nothing is created. At most `max_runs` fire times are examined.
pub fn catchup(
    eng: &mut Orchestrator,
    dag_name: &str,
    dag_hash: &str,
    options: &DagOptions,
    defaults: &Vec<TaskTemplate>,
    edges: &Vec<(usize, usize)>,
    up_to: i64,
    max_runs: usize,
) -> (r: Result<usize, EngineError>)
    requires
        old(eng).wf(),
        0 <= up_to,
        up_to <= i64::MAX - 60000,
        options.start_date_ms matches Some(s) ==> 0 <= s && s <= i64::MAX - 60000,
        old(eng).runs@.len() + max_runs < usize::MAX,
        defaults@.len() < usize::MAX,
    ensures
        final(eng).wf(),
        scheduling_pass(*old(eng), *final(eng), dag_name@, dag_hash@),
        options.schedule is None ==> *final(eng) == *old(eng),
        // An expression that does not parse (or can never fire) disables
        // the workflow's scheduling without creating anything — and without
        // failing the pass.
        (options.schedule matches Some(sch) && !cron_valid_of(sch@)) ==> (*final(eng) == *old(eng)
            && r == Ok::<usize, EngineError>(0)),
        r matches Ok(c) ==> final(eng).runs@.len() == old(eng).runs@.len() + c && c <= max_runs,
        // Exactness: a successful pass creates runs for precisely the
        // missed, unregistered fire times, in chronological order, and
        // leaves every missed fire time registered.
        (r is Ok && options.schedule is Some && cron_valid_of(options.schedule.unwrap()@))
            ==> backfill_exact(
            *old(eng),
            *final(eng),
            dag_name@,
            dag_hash@,
            fire_times(
                options.schedule.unwrap()@,
                spec_align_minute(spec_catchup_from(*options, up_to) as int) as i64,
                up_to,
                options.end_date_ms,
                max_runs as nat,
            ),
        ),
        // The only failures: an edge outside the definition, or a certified
        // cycle in a run this pass seeded.
        r is Err ==> (r == Err::<usize, EngineError>(EngineError::InvalidEdge) || r == Err::<
            usize,
            EngineError,
        >(EngineError::CycleDetected)),
        r == Err::<usize, EngineError>(EngineError::InvalidEdge) ==> exists|e: int|
            0 <= e < edges@.len() && ((#[trigger] edges@[e]).0 >= defaults@.len() || edges@[e].1
                >= defaults@.len()),
        r == Err::<usize, EngineError>(EngineError::CycleDetected) ==> exists|i: int|
            old(eng).runs@.len() <= i < final(eng).runs@.len() && (exists|t: int|
                0 <= t < (#[trigger] final(eng).runs@[i]).tasks@.len() && (#[trigger] final(eng).runs@[i].tasks@[t]).depth is None) && (forall|t: int|
                0 <= t < final(eng).runs@[i].tasks@.len() && (#[trigger] final(eng).runs@[
                    i
                ].tasks@[t]).depth is None ==> exists|u: int|
                    final(eng).runs@[i].has_edge(u, t) && final(eng).runs@[i].tasks@[u].depth
                        is None) && (forall|a: usize, b: usize|
                final(eng).runs@[i].has_edge(a as int, b as int) == edges@.contains((a, b))),
{
    let schedule = match &options.schedule {
        None => {
            return Ok(0);
        },
        Some(s) => s,
    };
    if !cron_schedule_valid(schedule.as_str()) {
        return Ok(0);
    }
    let from = match options.start_date_ms {
        Some(s) if options.catchup => s,
        _ => up_to,
    };
    backfill_window(
        eng,
        dag_name,
        dag_hash,
        schedule.as_str(),
        defaults,
        edges,
        from,
        up_to,
        options.end_date_ms,
        up_to,
        max_runs,
    )
}

/// The live scheduler leaves a workflow alone on a tick whose watermark
/// already lies past its end date or before its start date.
pub open spec fn spec_scheduler_skips(o: DagOptions, last_checked: i64) -> bool {
    ||| (o.end_date_ms matches Some(e) && e <= last_checked)
    ||| (o.start_date_ms matches Some(st) && st >= last_checked)
}

/// One tick of the live scheduler for one workflow: fires every cron time
/// in `[last_checked, now)` (same deduplication as catchup) and hands back
/// the new watermark, which is `now`. Ticks may overlap: firing the same
/// logical date twice is prevented by the registered-date set, not by the
/// watermark.
pub fn scheduler(
    eng: &mut Orchestrator,
    dag_name: &str,
    dag_hash: &str,
    options: &DagOptions,
    defaults: &Vec<TaskTemplate>,
    edges: &Vec<(usize, usize)>,
    last_checked: i64,
    now: i64,
    max_runs: usize,
) -> (r: Result<(usize, i64), EngineError>)
    requires
        old(eng).wf(),
        0 <= last_checked,
        last_checked <= i64::MAX - 60000,
        now <= i64::MAX - 60000,
        old(eng).runs@.len() + max_runs < usize::MAX,
        defaults@.len() < usize::MAX,
    ensures
        final(eng).wf(),
        scheduling_pass(*old(eng), *final(eng), dag_name@, dag_hash@),
        (options.schedule matches Some(sch) && !cron_valid_of(sch@)) ==> (*final(eng) == *old(eng)
            && r == Ok::<(usize, i64), EngineError>((0, now))),
        r matches Ok(c) ==> c.1 == now && final(eng).runs@.len() == old(eng).runs@.len() + c.0
            && c.0 <= max_runs,
        // Exactness of the tick's window, unless the workflow's dates rule
        // the tick out: runs for precisely the due, unregistered fire
        // times, in chronological order, all of them registered afterwards.
        (r is Ok && !spec_scheduler_skips(*options, last_checked) && options.schedule is Some
            && cron_valid_of(options.schedule.unwrap()@)) ==> backfill_exact(
            *old(eng),
            *final(eng),
            dag_name@,
            dag_hash@,
            fire_times(
                options.schedule.unwrap()@,
                spec_align_minute(last_checked as int) as i64,
                now,
                options.end_date_ms,
                max_runs as nat,
            ),
        ),
        // The only failures: an edge outside the definition, or a certified
        // cycle in a run this tick seeded.
        r is Err ==> (r == Err::<(usize, i64), EngineError>(EngineError::InvalidEdge) || r
            == Err::<(usize, i64), EngineError>(EngineError::CycleDetected)),
        r == Err::<(usize, i64), EngineError>(EngineError::InvalidEdge) ==> exists|e: int|
            0 <= e < edges@.len() && ((#[trigger] edges@[e]).0 >= defaults@.len() || edges@[e].1
                >= defaults@.len()),
        r == Err::<(usize, i64), EngineError>(EngineError::CycleDetected) ==> exists|i: int|
            old(eng).runs@.len() <= i < final(eng).runs@.len() && (exists|t: int|
                0 <= t < (#[trigger] final(eng).runs@[i]).tasks@.len() && (#[trigger] final(eng).runs@[i].tasks@[t]).depth is None) && (forall|t: int|
                0 <= t < final(eng).runs@[i].tasks@.len() && (#[trigger] final(eng).runs@[
                    i
                ].tasks@[t]).depth is None ==> exists|u: int|
                    final(eng).runs@[i].has_edge(u, t) && final(eng).runs@[i].tasks@[u].depth
                        is None) && (forall|a: usize, b: usize|
                final(eng).runs@[i].has_edge(a as int, b as int) == edges@.contains((a, b))),
{
    let schedule = match &options.schedule {
        None => {
            return Ok((0, now));
        },
        Some(s) => s,
    };
    if !cron_schedule_valid(schedule.as_str()) {
        return Ok((0, now));
    }
    let skip = match options.end_date_ms {
        Some(e) => e <= last_checked,
        None => false,
    } || match options.start_date_ms {
        Some(s) => s >= last_checked,
        None => false,
    };
    if skip {
        return Ok((0, now));
    }
    let created = backfill_window(
        eng,
        dag_name,
        dag_hash,
        schedule.as_str(),
        defaults,
        edges,
        last_checked,
        now,
        options.end_date_ms,
        now,
        max_runs,
    );
    match created {
        Ok(c) => Ok((c, now)),
        Err(e) => Err(e),
    }
}

/// An instant rounded up to the next whole minute.
pub open spec fn spec_align_minute(t: int) -> int {
    if t % 60000 == 0 {
        t
    } else {
        t + (60000 - t % 60000)
    }
}

/// The next fire time of the workflow's schedule, as answered to "when does
/// it run next": evaluated from the start date when backfilling is enabled
/// or the start date lies in the future, and from `now` otherwise.
pub open spec fn spec_next_run(o: DagOptions, now: i64) -> Option<i64> {
    match o.schedule {
        None => None,
        Some(s) => {
            let base: int = match o.start_date_ms {
                Some(sd) => if o.catchup || sd > now {
                    sd as int
                } else {
                    now as int
                },
                None => now as int,
            };
            match cron_next_of(s@, spec_align_minute(base) as i64) {
                None => None,
                Some(t) => match o.end_date_ms {
                    Some(e) => if t > e {
                        None
                    } else {
                        Some(t)
                    },
                    None => Some(t),
                },
            }
        },
    }
}

/// Computes `spec_next_run`: the workflow's next fire time, `None` when it
/// has no schedule, the schedule never fires, or the next fire time lies
/// past the end date.
pub fn next_run_time(options: &DagOptions, now: i64) -> (r: Option<i64>)
    requires
        0 <= now,
        now <= i64::MAX - 60000,
        options.start_date_ms matches Some(sd) ==> 0 <= sd && sd <= i64::MAX - 60000,
    ensures
        r == spec_next_run(*options, now),
{
    let schedule = match &options.schedule {
        None => {
            return None;
        },
        Some(s) => s,
    };
    let base: i64 = match options.start_date_ms {
        Some(sd) if options.catchup || sd > now => sd,
        _ => now,
    };
    let aligned = align_minute(base);
    proof {
        assert(aligned == spec_align_minute(base as int));
    }
    match cron_next_from(schedule.as_str(), aligned) {
        None => None,
        Some(t) => {
            let past_end = match options.end_date_ms {
                Some(e) => t > e,
                None => false,
            };
            if past_end {
                None
            } else {
                Some(t)
            }
        },
    }
}

/// A repeated pass over the same window creates nothing: the first pass
/// left every due fire time registered, and a pass only creates runs for
/// due fire times that were unregistered when it began.
pub proof fn lemma_backfill_idempotent(
    s0: Orchestrator,
    s1: Orchestrator,
    s2: Orchestrator,
    name: Seq<char>,
    hash: Seq<char>,
    due: Seq<i64>,
)
    requires
        backfill_exact(s0, s1, name, hash, due),
        backfill_exact(s1, s2, name, hash, due),
    ensures
        s2.runs@.len() == s1.runs@.len(),
{
    if s2.runs@.len() > s1.runs@.len() {
        let i = s1.runs@.len() as int;
        assert(due.contains(s2.runs@[i].logical_date));
        let j = due.index_of(s2.runs@[i].logical_date);
        assert(s1.spec_has_date(name, hash, due[j]));
        assert(!s1.spec_has_date(name, hash, s2.runs@[i].logical_date));
    }
}

/// No duplicate backfill: two scheduling passes in a row (catchup run
/// twice, or a catchup and a scheduler tick) never create two runs of the
/// workflow for the same logical date — whatever the second pass created
/// was not yet registered when it began, while everything the first pass
/// created was registered the moment it was created.
pub proof fn lemma_no_duplicate_backfill(
    s0: Orchestrator,
    s1: Orchestrator,
    s2: Orchestrator,
    name: Seq<char>,
    hash: Seq<char>,
)
    requires
        scheduling_pass(s0, s1, name, hash),
        scheduling_pass(s1, s2, name, hash),
    ensures
        forall|i: int, j: int|
            s0.runs@.len() <= i < s1.runs@.len() && s1.runs@.len() <= j < s2.runs@.len()
                ==> (#[trigger] s2.runs@[i]).logical_date != (#[trigger] s2.runs@[j]).logical_date,
{
    assert forall|i: int, j: int|
        s0.runs@.len() <= i < s1.runs@.len() && s1.runs@.len() <= j < s2.runs@.len() implies (
    #[trigger] s2.runs@[i]).logical_date != (#[trigger] s2.runs@[j]).logical_date by {
        assert(s2.runs@[i] == s1.runs@[i]);
        assert(s1.runs@[i].dag_name@ == name && s1.runs@[i].dag_hash@ == hash);
        assert(s1.spec_has_date(name, hash, s1.runs@[i].logical_date));
        assert(!s1.spec_has_date(name, hash, s2.runs@[j].logical_date));
    }
}

} // verus!
