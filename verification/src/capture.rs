//! Capturing web events: what to do next, given what the clock or the socket said.
use vstd::prelude::*;

use crate::packet::{event_views, frame_events, parse_packet_for_web_events, WebEvent};

verus! {

/// What happened during a capture.
#[derive(Clone, Copy, Debug, PartialEq, Eq)]
pub enum Event<'a> {
    /// The clock was read: whether time is left.
    Clock { time_left: bool },
    /// A frame came in.
    Packet(&'a [u8]),
    /// Nothing came in for a while.
    Quiet,
    /// Receiving failed.
    Failed,
}

/// What to do next.
#[derive(Clone, Copy, Debug, PartialEq, Eq, Structural)]
pub enum Action {
    /// Receive a frame.
    Receive,
    /// Read the clock.
    ReadClock,
    /// Close the socket and report the events.
    Finish,
    /// Close the socket and report the error.
    GiveUp,
}

/// What an event leads to. Only the clock ends a capture, and only a failure breaks it off.
pub open spec fn next_action(event: Event) -> Action {
    match event {
        Event::Clock { time_left } => if time_left {
            Action::Receive
        } else {
            Action::Finish
        },
        Event::Packet(_) => Action::ReadClock,
        Event::Quiet => Action::ReadClock,
        Event::Failed => Action::GiveUp,
    }
}

/// The web events that an event brings.
pub open spec fn brought(event: Event) -> Seq<(Seq<char>, Seq<char>)> {
    match event {
        Event::Packet(frame) => frame_events(frame@),
        _ => seq![],
    }
}

/// The web events that a run of events brings, in their order.
pub open spec fn captured(run: Seq<Event>) -> Seq<(Seq<char>, Seq<char>)>
    decreases run.len(),
{
    if run.len() == 0 {
        seq![]
    } else {
        captured(run.drop_last()) + brought(run.last())
    }
}

/// Tells what a receive call did. `read` is the number of bytes it put in `buffer`, or not above
/// zero if there are none; `would_block` and `timed_out` tell then whether the reason is one of
/// these two.
pub fn received<'a>(buffer: &'a [u8], read: isize, would_block: bool, timed_out: bool) -> (event:
    Event<'a>)
    requires
        read <= buffer@.len(),
    ensures
        match event {
            Event::Packet(frame) => read > 0 && frame@ == buffer@.take(read as int),
            Event::Quiet => read <= 0 && (would_block || timed_out),
            Event::Failed => read <= 0 && !would_block && !timed_out,
            Event::Clock { .. } => false,
        },
{
    if read > 0 {
        let count: usize = read as usize;
        let frame = &buffer[0..count];
        assert(frame@ =~= buffer@.take(read as int));
        Event::Packet(frame)
    } else if would_block || timed_out {
        Event::Quiet
    } else {
        Event::Failed
    }
}

/// Adds the web events that an event brings to `events`, and decides what to do next.
pub fn capture_web_events(events: &mut Vec<WebEvent>, event: Event) -> (action: Action)
    ensures
        action == next_action(event),
        event_views(final(events)@) == event_views(old(events)@) + brought(event),
{
    match event {
        Event::Clock { time_left } => {
            assert(event_views(events@) + brought(event) =~= event_views(events@));
            if time_left {
                Action::Receive
            } else {
                Action::Finish
            }
        },
        Event::Packet(frame) => {
            let mut more = parse_packet_for_web_events(frame);
            let ghost added = more@;
            let ghost before = events@;
            events.append(&mut more);
            assert(event_views(events@) =~= event_views(before) + event_views(added));
            Action::ReadClock
        },
        Event::Quiet => {
            assert(event_views(events@) + brought(event) =~= event_views(events@));
            Action::ReadClock
        },
        Event::Failed => {
            assert(event_views(events@) + brought(event) =~= event_views(events@));
            Action::GiveUp
        },
    }
}

/// Why a system without a way to capture packets does not.
pub open spec fn no_capture(windows: bool) -> Seq<char> {
    if windows {
        "packet capture requires the 'npcap' feature and Npcap installed; rebuild with --features npcap"@
    } else {
        "packet capture is not yet supported on this platform"@
    }
}

/// Says why a system without a way to capture packets does not.
pub fn no_capture_text(windows: bool) -> (text: &'static str)
    ensures
        text@ == no_capture(windows),
{
    if windows {
        "packet capture requires the 'npcap' feature and Npcap installed; rebuild with --features npcap"
    } else {
        "packet capture is not yet supported on this platform"
    }
}

/// A capture in two parts brings what the parts bring, one behind the other.
pub proof fn captures_follow_each_other(first: Seq<Event>, second: Seq<Event>)
    ensures
        captured(first + second) == captured(first) + captured(second),
    decreases second.len(),
{
    if second.len() == 0 {
        assert(first + second =~= first);
        assert(captured(first) + captured(second) =~= captured(first));
    } else {
        assert((first + second).drop_last() =~= first + second.drop_last());
        captures_follow_each_other(first, second.drop_last());
        assert(captured(first) + captured(second) =~= captured(first) + captured(
            second.drop_last(),
        ) + brought(second.last()));
    }
}

/// A capture without a frame brings nothing.
pub proof fn quiet_capture_brings_nothing(run: Seq<Event>)
    requires
        forall|i: int| 0 <= i < run.len() ==> #[trigger] run[i] !is Packet,
    ensures
        captured(run) == Seq::<(Seq<char>, Seq<char>)>::empty(),
    decreases run.len(),
{
    if run.len() > 0 {
        let head = run.drop_last();
        assert forall|i: int| 0 <= i < head.len() implies #[trigger] head[i] !is Packet by {
            assert(head[i] == run[i]);
        }
        quiet_capture_brings_nothing(head);
        assert(run[run.len() - 1] !is Packet);
        assert(captured(run) =~= Seq::<(Seq<char>, Seq<char>)>::empty());
    }
}

/// A capture that starts with no web events and takes its events one after the other, each time
/// keeping what it has and adding what the event brings, ends with what the whole run brings.
pub proof fn gathered_events_are_captured(
    run: Seq<Event>,
    gathered: Seq<Seq<(Seq<char>, Seq<char>)>>,
)
    requires
        gathered.len() == run.len() + 1,
        gathered[0].len() == 0,
        forall|i: int|
            0 <= i < run.len() ==> gathered[i + 1] == gathered[i] + brought(#[trigger] run[i]),
    ensures
        gathered.last() == captured(run),
    decreases run.len(),
{
    if run.len() == 0 {
        assert(gathered.last() =~= captured(run));
    } else {
        let head = run.drop_last();
        let before = gathered.drop_last();
        let last = run.len() - 1;
        assert forall|i: int| 0 <= i < head.len() implies before[i + 1] == before[i] + brought(
            #[trigger] head[i],
        ) by {
            assert(head[i] == run[i]);
        }
        gathered_events_are_captured(head, before);
        assert(gathered[last + 1] == gathered[last] + brought(run[last]));
    }
}

/// Whether an event is what an action asks for.
pub open spec fn answers(action: Action, event: Event) -> bool {
    match action {
        Action::ReadClock => event is Clock,
        Action::Receive => event is Packet || event is Quiet || event is Failed,
        Action::Finish => false,
        Action::GiveUp => false,
    }
}

/// Whether `run` is a run of a capture: it begins with a look at the clock, and each event is what
/// the one before asks for.
pub open spec fn is_run(run: Seq<Event>) -> bool {
    &&& run.len() > 0
    &&& answers(Action::ReadClock, run[0])
    &&& forall|i: int|
        0 <= i < run.len() - 1 ==> answers(next_action(#[trigger] run[i]), run[i + 1])
}

/// Whether an event ends a capture.
pub open spec fn ends(event: Event) -> bool {
    next_action(event) is Finish || next_action(event) is GiveUp
}

/// A capture ends once: only the last event of a run leads to its end.
pub proof fn capture_ends_once(run: Seq<Event>, i: int)
    requires
        is_run(run),
        0 <= i < run.len(),
        ends(run[i]),
    ensures
        i == run.len() - 1,
{
    if i < run.len() - 1 {
        assert(answers(next_action(run[i]), run[i + 1]));
    }
}

/// A frame is received only while time is left: each frame, each quiet stretch and each failure
/// comes right behind a look at the clock that found time.
pub proof fn frames_are_received_in_time(run: Seq<Event>, i: int)
    requires
        is_run(run),
        0 <= i < run.len(),
        run[i] !is Clock,
    ensures
        i > 0,
        run[i - 1] == (Event::Clock { time_left: true }),
{
    if i > 0 {
        assert(answers(next_action(run[i - 1]), run[i - 1 + 1]));
    }
}

/// A frame brings the events that are read from it, whatever else happens brings none.
pub proof fn frames_bring_their_events(frame: &[u8], time_left: bool)
    ensures
        brought(Event::Packet(frame)) == frame_events(frame@),
        brought(Event::Clock { time_left }).len() == 0,
        brought(Event::Quiet).len() == 0,
        brought(Event::Failed).len() == 0,
{
}

/// A capture receives while time is left, reads the clock behind each frame and each quiet stretch,
/// finishes when no time is left, and gives up on a failure.
pub proof fn capture_goes_by_the_clock(frame: &[u8])
    ensures
        next_action(Event::Clock { time_left: true }) is Receive,
        next_action(Event::Clock { time_left: false }) is Finish,
        next_action(Event::Packet(frame)) is ReadClock,
        next_action(Event::Quiet) is ReadClock,
        next_action(Event::Failed) is GiveUp,
{
}

} // verus!
