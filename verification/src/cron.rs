//! Cron schedule evaluation, relied on from the saffron crate.
//!
//! The engine only ever asks one question of a schedule: the first fire
//! time at or after a given minute-aligned instant. What that instant is
//! takes pages to state, but it is a function of the expression and the
//! instant alone, so it is given a name here and the schedulers' contracts
//! are exact in terms of that name.

use vstd::prelude::*;

verus! {

/// The cron expression parses and can ever fire.
pub uninterp spec fn cron_valid_of(s: Seq<char>) -> bool;

/// The first fire time of the cron expression at or after the given
/// minute-aligned instant (milliseconds), if any.
pub uninterp spec fn cron_next_of(s: Seq<char>, from_ms: i64) -> Option<i64>;

/// Relies on saffron's `Cron`: `FromStr` parses the five-field expression
/// and `Cron::any` reports whether it can ever match a time; both depend on
/// the expression alone. The schedulers skip a workflow whose expression
/// fails this check.
#[verifier::external_body]
pub fn cron_schedule_valid(schedule: &str) -> (r: bool)
    ensures
        r == cron_valid_of(schedule@),
{
    match schedule.parse::<saffron::Cron>() {
        Ok(cron) => cron.any(),
        Err(_) => false,
    }
}

/// Relies on saffron's `Cron::next_from`: the first time the schedule
/// matches at or including the given instant. `next_from` truncates its
/// argument to the minute (the identity here, by the precondition), returns
/// it if it matches and searches strictly forward otherwise, and every
/// match has zeroed seconds — so the result is minute-aligned and not
/// earlier than the argument, and depends on the expression and the instant
/// alone. An unparsable or never-firing expression, an instant outside
/// chrono's calendar, or an exhausted search yields `None`.
#[verifier::external_body]
pub fn cron_next_from(schedule: &str, from_ms: i64) -> (r: Option<i64>)
    requires
        0 <= from_ms,
        from_ms % 60000 == 0,
    ensures
        r == cron_next_of(schedule@, from_ms),
        r matches Some(t) ==> from_ms <= t && t % 60000 == 0,
{
    let cron: saffron::Cron = match schedule.parse() {
        Ok(c) => c,
        Err(_) => return None,
    };
    let from = match chrono::DateTime::from_timestamp_millis(from_ms) {
        Some(d) => d,
        None => return None,
    };
    cron.next_from(from).map(|d| d.timestamp_millis())
}

} // verus!
