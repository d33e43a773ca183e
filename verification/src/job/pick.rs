//! The retry decisions of a pick.

use vstd::prelude::*;

use crate::text::push_decimal;
use crate::text::spec_decimal;
use crate::text::string_from_chars;

verus! {

/// What to do after a failed feed.
#[derive(Debug, Clone, Copy, PartialEq, Eq, Structural)]
pub enum FeedRetry {
    /// Try the feed again; this many attempts have failed.
    Retry { attempts: u32 },
    /// Give up; this many attempts have failed.
    GiveUp { attempts: u32 },
}

/// After a failed feed, with `attempts` failed before it: one more has failed,
/// and the feed is given up once the failures outnumber `max_retries`.
pub fn feed_failed(attempts: u32, max_retries: u32) -> (r: FeedRetry)
    requires
        attempts < u32::MAX,
    ensures
        r == (if attempts + 1 > max_retries {
            FeedRetry::GiveUp { attempts: (attempts + 1) as u32 }
        } else {
            FeedRetry::Retry { attempts: (attempts + 1) as u32 }
        }),
{
    let n = attempts + 1;
    if n > max_retries {
        FeedRetry::GiveUp { attempts: n }
    } else {
        FeedRetry::Retry { attempts: n }
    }
}

pub open spec fn spec_feed_failed_message(attempts: nat, error: Seq<char>) -> Seq<char> {
    "Feed failed after "@ + spec_decimal(attempts) + " attempts: "@ + error
}

/// The message of a feed that was given up after `attempts` failures, the
/// last with `error`.
pub fn feed_failed_message(attempts: u32, error: &str) -> (m: String)
    ensures
        m@ == spec_feed_failed_message(attempts as nat, error@),
{
    let mut v: Vec<char> = Vec::new();
    let head = "Feed failed after ";
    let mid = " attempts: ";
    for c in it: head.chars()
        invariant
            v@ == it.seq().take(it.index() as int),
            it.seq() == head@,
    {
        v.push(c);
    }
    push_decimal(&mut v, attempts as u64);
    let ghost v1 = v@;
    for c in it: mid.chars()
        invariant
            v@ == v1 + it.seq().take(it.index() as int),
            it.seq() == mid@,
    {
        v.push(c);
        assert(v@ =~= v1 + it.seq().take(it.index() as int + 1));
    }
    let ghost v2 = v@;
    for c in it: error.chars()
        invariant
            v@ == v2 + it.seq().take(it.index() as int),
            it.seq() == error@,
    {
        v.push(c);
        assert(v@ =~= v2 + it.seq().take(it.index() as int + 1));
    }
    assert(head@.take(head@.len() as int) =~= head@);
    assert(mid@.take(mid@.len() as int) =~= mid@);
    assert(error@.take(error@.len() as int) =~= error@);
    assert(v@ =~= spec_feed_failed_message(attempts as nat, error@));
    string_from_chars(v.as_slice())
}

/// How a pick attempt ended.
#[derive(Debug, Clone, Copy, PartialEq, Eq, Structural)]
pub enum PickOutcome {
    Picked,
    /// The vacuum reading after the pick was outside the expected range.
    VacuumCheckFailed,
    /// Any other failure.
    Failed,
}

/// What to do after a pick attempt.
#[derive(Debug, Clone, Copy, PartialEq, Eq, Structural)]
pub enum PickDecision {
    /// The part is picked after this many retries.
    Done { retries: u32 },
    /// Release the part and pick again; this is retry number `retries`.
    Retry { retries: u32 },
    /// Give up with the attempt's error.
    Fail,
}

/// After a pick attempt with `retries` retries made so far: a failed vacuum
/// check is retried while fewer than `max_retries` retries were made; any
/// other failure gives up.
pub open spec fn spec_pick_decision(outcome: PickOutcome, retries: u32, max_retries: u32) -> PickDecision {
    match outcome {
        PickOutcome::Picked => PickDecision::Done { retries },
        PickOutcome::VacuumCheckFailed => if retries < max_retries {
            PickDecision::Retry { retries: (retries + 1) as u32 }
        } else {
            PickDecision::Fail
        },
        PickOutcome::Failed => PickDecision::Fail,
    }
}

/// The decision after a pick attempt (see `spec_pick_decision`).
pub fn pick_decision(outcome: PickOutcome, retries: u32, max_retries: u32) -> (d: PickDecision)
    ensures
        d == spec_pick_decision(outcome, retries, max_retries),
{
    match outcome {
        PickOutcome::Picked => PickDecision::Done { retries },
        PickOutcome::VacuumCheckFailed => if retries < max_retries {
            PickDecision::Retry { retries: retries + 1 }
        } else {
            PickDecision::Fail
        },
        PickOutcome::Failed => PickDecision::Fail,
    }
}

/// A pick whose vacuum check keeps failing, starting from no retries, is
/// retried with counts that go up by one and never pass `max_retries`, and is
/// given up at `max_retries`: it is tried `max_retries + 1` times in all.
pub proof fn lemma_retries_bounded(retries: u32, max_retries: u32)
    requires
        retries <= max_retries,
    ensures
        retries < max_retries ==> spec_pick_decision(PickOutcome::VacuumCheckFailed, retries, max_retries)
            == (PickDecision::Retry { retries: (retries + 1) as u32 }),
        retries == max_retries ==> spec_pick_decision(PickOutcome::VacuumCheckFailed, retries, max_retries)
            == PickDecision::Fail,
{
}

} // verus!
