//! The pace of a session's state reports.

use vstd::prelude::*;

verus! {

/// What a look at the period channel of a session found.
#[derive(Debug, Clone, Copy, PartialEq, Eq)]
pub enum Polled {
    /// A new period in seconds, or `None` to pause the reports.
    Period(Option<u64>),
    /// The channel is closed: the session is over.
    Closed,
    /// Nothing new.
    Nothing,
}

/// What the report timer of a session does next.
#[derive(Debug, Clone, Copy, PartialEq, Eq)]
pub enum FeedbackAction {
    /// End the timer.
    Stop,
    /// Send a state report, then sleep for so many seconds.
    Report { sleep: u64 },
    /// Let others run, then look again.
    Yield,
}

/// The period in force after a look at the channel, and what to do next:
/// a new period counts at once, a closed channel ends the timer, and without
/// a period there is nothing to report.
pub open spec fn feedback_next(last: Option<u64>, polled: Polled) -> (Option<u64>, FeedbackAction) {
    match polled {
        Polled::Closed => (last, FeedbackAction::Stop),
        Polled::Period(Some(sleep)) => (Some(sleep), FeedbackAction::Report { sleep }),
        Polled::Period(None) => (None, FeedbackAction::Yield),
        Polled::Nothing => match last {
            Some(sleep) => (last, FeedbackAction::Report { sleep }),
            None => (last, FeedbackAction::Yield),
        },
    }
}

/// One turn of the report timer.
pub fn feedback_step(last: Option<u64>, polled: Polled) -> (r: (Option<u64>, FeedbackAction))
    ensures
        r == feedback_next(last, polled),
{
    let now = match polled {
        Polled::Closed => {
            return (last, FeedbackAction::Stop);
        },
        Polled::Period(period) => period,
        Polled::Nothing => last,
    };
    match now {
        Some(sleep) => (now, FeedbackAction::Report { sleep }),
        None => (now, FeedbackAction::Yield),
    }
}

/// The period that a subscription packet asks for: zero pauses the
/// reports.
pub fn period_of(period: u64) -> (r: Option<u64>)
    ensures
        r == (if period == 0 {
            None
        } else {
            Some(period)
        }),
{
    if period == 0 {
        None
    } else {
        Some(period)
    }
}

} // verus!
