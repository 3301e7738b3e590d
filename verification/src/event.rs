//! What a comparison has to say, in the order in which it says it.
use vstd::prelude::*;

verus! {

/// A colour that is applied only where the terminal shows colours.
#[derive(Clone, Copy, Debug, PartialEq, Eq, Structural)]
pub enum Color {
    Red,
    Green,
    Cyan,
    Magenta,
    BrightBlue,
    White,
}

/// A stretch of a report line, with the colour to apply to it, if any.
#[derive(Debug)]
pub struct Span {
    pub color: Option<Color>,
    pub text: String,
}

/// The contents of a `Span`.
#[verifier::ext_equal]
pub struct SpanView {
    pub color: Option<Color>,
    pub text: Seq<char>,
}

impl View for Span {
    type V = SpanView;

    open spec fn view(&self) -> SpanView {
        SpanView { color: self.color, text: self.text@ }
    }
}

/// One thing to tell the user.
#[derive(Debug)]
pub enum Event {
    /// A line of the report, for standard output.
    Line(Vec<Span>),
    /// A warning, for standard error.
    Warning(String),
    /// How long a phase took, for standard error.
    Timing { context: &'static str, elapsed: std::time::Duration },
}

/// The contents of an `Event`. How long a phase took is left out.
#[verifier::ext_equal]
pub enum EventView {
    Line(Seq<SpanView>),
    Warning(Seq<char>),
    Timing(Seq<char>),
}

impl View for Event {
    type V = EventView;

    open spec fn view(&self) -> EventView {
        match *self {
            Event::Line(spans) => EventView::Line(spans@.map_values(|s: Span| s@)),
            Event::Warning(text) => EventView::Warning(text@),
            Event::Timing { context, elapsed } => EventView::Timing(context@),
        }
    }
}

/// The contents of a list of events.
pub open spec fn events_view(events: Seq<Event>) -> Seq<EventView> {
    events.map_values(|e: Event| e@)
}

/// Appends an event to a list of events.
pub proof fn lemma_events_push(events: Seq<Event>, event: Event)
    ensures
        events_view(events.push(event)) == events_view(events).push(event@),
{
    assert(events_view(events.push(event)) =~= events_view(events).push(event@));
}

} // verus!
