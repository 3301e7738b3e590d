//! Timing of the phases of a comparison.
use vstd::prelude::*;

use crate::event::{events_view, lemma_events_push, Event, EventView};

verus! {

/// The outside type `std::time::Instant`.
#[verifier::external_type_specification]
#[verifier::external_body]
pub struct ExInstant(std::time::Instant);

/// `std::time::Instant::now`: nothing is known of the instant.
pub assume_specification[ std::time::Instant::now ]() -> (res: std::time::Instant)
;

/// `std::time::Instant::elapsed`: nothing is known of the time that has passed.
pub assume_specification[ std::time::Instant::elapsed ](start: &std::time::Instant) -> (res:
    std::time::Duration)
;

/// Measures one phase, if timings are asked for.
pub struct ScopeTimer {
    pub start: std::time::Instant,
    pub context: Option<&'static str>,
}

/// What a timer that was started for `context` adds to the events at its end.
pub open spec fn timing_events(enable: bool, context: Seq<char>) -> Seq<EventView> {
    if enable {
        seq![EventView::Timing(context)]
    } else {
        seq![]
    }
}

impl ScopeTimer {
    /// Starts to measure the phase `context`, or does nothing if `enable` is off.
    pub fn new(enable: bool, context: &'static str) -> (res: Self)
        ensures
            res.context == (if enable {
                Some(context)
            } else {
                None
            }),
    {
        ScopeTimer {
            context: if enable {
                Some(context)
            } else {
                None
            },
            start: std::time::Instant::now(),
        }
    }

    /// Ends the phase and tells how long it took.
    pub fn finish(&self, out: &mut Vec<Event>)
        ensures
            self.context matches Some(context) ==> events_view(final(out)@) == events_view(
                old(out)@,
            ) + timing_events(true, context@),
            self.context is None ==> final(out)@ == old(out)@,
    {
        match self.context {
            None => {},
            Some(context) => {
                let event = Event::Timing { context, elapsed: self.start.elapsed() };
                proof {
                    lemma_events_push(out@, event);
                }
                out.push(event);
                assert(events_view(out@) =~= events_view(old(out)@) + timing_events(
                    true,
                    context@,
                ));
            },
        }
    }
}

} // verus!
