//! Running a monitor: what to do next, given what was done.
use vstd::prelude::*;

verus! {

/// A command of the program.
#[derive(Clone, Copy, Debug, PartialEq, Eq, Structural)]
pub enum Command {
    /// Monitor live TCP connections.
    Live,
    /// Monitor website domains.
    Web,
}

/// What is monitored.
#[derive(Clone, Copy, Debug, PartialEq, Eq, Structural)]
pub enum Monitor {
    /// The traffic of the network interfaces.
    Network,
    /// The live TCP connections.
    Live,
    /// The domains named in captured packets.
    Web,
}

/// What was done.
#[derive(Clone, Copy, Debug, PartialEq, Eq, Structural)]
pub enum Done {
    /// The monitor was set up and found so many network interfaces.
    SetUp { interfaces: usize },
    /// The monitor was announced.
    Announced,
    /// An interval went by.
    Slept,
    /// A sample was taken, or not.
    Sampled { taken: bool },
    /// A sample was printed. Tells whether the monitor is to go on.
    Printed { running: bool },
}

/// What to do next.
#[derive(Clone, Copy, Debug, PartialEq, Eq, Structural)]
pub enum Action {
    /// Print what is monitored.
    Announce,
    /// Wait for an interval.
    Sleep,
    /// Take a sample.
    Sample,
    /// Print the sample.
    Print,
    /// End.
    Stop,
    /// End with the error of the sample.
    Fail,
    /// End because there is no network interface.
    NothingToMonitor,
}

/// The monitor that a command runs: without a command, that of the network interfaces.
pub open spec fn monitor_of(command: Option<Command>) -> Monitor {
    match command {
        None => Monitor::Network,
        Some(Command::Live) => Monitor::Live,
        Some(Command::Web) => Monitor::Web,
    }
}

/// Chooses the monitor that a command runs.
pub fn run(command: Option<Command>) -> (monitor: Monitor)
    ensures
        monitor == monitor_of(command),
{
    match command {
        None => Monitor::Network,
        Some(Command::Live) => Monitor::Live,
        Some(Command::Web) => Monitor::Web,
    }
}

/// What to do next. Interfaces are sampled behind an interval, since a sample is what passed in it;
/// connections are sampled before it; a capture takes the interval itself. After a sample was
/// printed the monitor ends if one was asked for, or if it was interrupted.
pub open spec fn next_action(monitor: Monitor, once: bool, done: Done) -> Action {
    match done {
        Done::SetUp { interfaces } => if monitor is Network && interfaces == 0 {
            Action::NothingToMonitor
        } else {
            Action::Announce
        },
        Done::Announced => if monitor is Network {
            Action::Sleep
        } else {
            Action::Sample
        },
        Done::Slept => Action::Sample,
        Done::Sampled { taken } => if taken {
            Action::Print
        } else {
            Action::Fail
        },
        Done::Printed { running } => if once || !running {
            Action::Stop
        } else if monitor is Web {
            Action::Sample
        } else {
            Action::Sleep
        },
    }
}

/// Decides what a monitor does next.
pub fn step(monitor: Monitor, once: bool, done: Done) -> (action: Action)
    ensures
        action == next_action(monitor, once, done),
{
    match done {
        Done::SetUp { interfaces } => if monitor == Monitor::Network && interfaces == 0 {
            Action::NothingToMonitor
        } else {
            Action::Announce
        },
        Done::Announced => if monitor == Monitor::Network {
            Action::Sleep
        } else {
            Action::Sample
        },
        Done::Slept => Action::Sample,
        Done::Sampled { taken } => if taken {
            Action::Print
        } else {
            Action::Fail
        },
        Done::Printed { running } => if once || !running {
            Action::Stop
        } else if monitor == Monitor::Web {
            Action::Sample
        } else {
            Action::Sleep
        },
    }
}

/// Why a monitor without anything to monitor ends.
pub open spec fn nothing_to_monitor() -> Seq<char> {
    "no network interfaces found"@
}

/// Says why a monitor without anything to monitor ends.
pub fn nothing_to_monitor_text() -> (text: &'static str)
    ensures
        text@ == nothing_to_monitor(),
{
    "no network interfaces found"
}

/// Whether doing `done` is what `action` asks for.
pub open spec fn answers(action: Action, done: Done) -> bool {
    match action {
        Action::Announce => done is Announced,
        Action::Sleep => done is Slept,
        Action::Sample => done is Sampled,
        Action::Print => done is Printed,
        _ => false,
    }
}

/// Whether `trace` is a run of a monitor: it begins with setting up, and each step is what the one
/// before asks for.
pub open spec fn is_run(monitor: Monitor, once: bool, trace: Seq<Done>) -> bool {
    &&& trace.len() > 0
    &&& trace[0] is SetUp
    &&& forall|i: int|
        0 <= i < trace.len() - 1 ==> answers(
            next_action(monitor, once, #[trigger] trace[i]),
            trace[i + 1],
        )
}

/// How many samples a trace printed.
pub open spec fn printed(trace: Seq<Done>) -> nat
    decreases trace.len(),
{
    if trace.len() == 0 {
        0
    } else {
        printed(trace.drop_last()) + if trace.last() is Printed {
            1nat
        } else {
            0nat
        }
    }
}

proof fn run_head(monitor: Monitor, once: bool, trace: Seq<Done>)
    requires
        is_run(monitor, once, trace),
        trace.len() > 1,
    ensures
        is_run(monitor, once, trace.drop_last()),
        answers(next_action(monitor, once, trace[trace.len() - 2]), trace.last()),
{
    let head = trace.drop_last();
    assert forall|i: int| 0 <= i < head.len() - 1 implies answers(
        next_action(monitor, once, #[trigger] head[i]),
        head[i + 1],
    ) by {
        assert(head[i] == trace[i]);
        assert(head[i + 1] == trace[i + 1]);
    }
}

/// A monitor that is to run once prints one sample at most, and ends right behind it.
pub proof fn once_prints_once(monitor: Monitor, trace: Seq<Done>)
    requires
        is_run(monitor, true, trace),
    ensures
        printed(trace) == (if trace.last() is Printed {
            1nat
        } else {
            0nat
        }),
        trace.last() is Printed ==> next_action(monitor, true, trace.last()) is Stop,
    decreases trace.len(),
{
    let head = trace.drop_last();
    if trace.len() == 1 {
        assert(printed(head) == 0);
    } else {
        run_head(monitor, true, trace);
        once_prints_once(monitor, head);
        assert(head.last() == trace[trace.len() - 2]);
    }
}

/// Each printed sample was taken right before, and no sample is printed that was not taken.
pub proof fn printed_samples_were_taken(monitor: Monitor, once: bool, trace: Seq<Done>, i: int)
    requires
        is_run(monitor, once, trace),
        0 <= i < trace.len(),
        trace[i] is Printed,
    ensures
        i > 0,
        trace[i - 1] == (Done::Sampled { taken: true }),
{
    if i > 0 {
        assert(answers(next_action(monitor, once, trace[i - 1]), trace[i - 1 + 1]));
    }
}

/// Interfaces are never sampled but behind an interval.
pub proof fn interfaces_are_sampled_behind_an_interval(once: bool, trace: Seq<Done>, i: int)
    requires
        is_run(Monitor::Network, once, trace),
        0 <= i < trace.len(),
        trace[i] is Sampled,
    ensures
        i > 0,
        trace[i - 1] is Slept,
{
    if i > 0 {
        assert(answers(next_action(Monitor::Network, once, trace[i - 1]), trace[i - 1 + 1]));
    }
}

/// A monitor ends behind a printed sample if it was interrupted, and goes on if it was not and is
/// not to run once.
pub proof fn interruption_ends_a_monitor(monitor: Monitor, once: bool, running: bool)
    ensures
        next_action(monitor, once, Done::Printed { running }) is Stop <==> once || !running,
{
}

/// Connections are sampled at once and then behind each interval, and each interval comes behind a
/// printed sample.
pub proof fn connections_are_sampled_at_once(once: bool, trace: Seq<Done>, i: int)
    requires
        is_run(Monitor::Live, once, trace),
        0 <= i < trace.len(),
    ensures
        trace[i] is Sampled ==> i > 0 && (trace[i - 1] is Announced || trace[i - 1] is Slept),
        trace[i] is Slept ==> i > 0 && trace[i - 1] is Printed,
        i > 0 && trace[i - 1] is Announced ==> trace[i] is Sampled,
{
    if i > 0 {
        assert(answers(next_action(Monitor::Live, once, trace[i - 1]), trace[i - 1 + 1]));
    }
}

/// Captures follow each other without an interval between them.
pub proof fn captures_leave_no_gap(once: bool, trace: Seq<Done>, i: int)
    requires
        is_run(Monitor::Web, once, trace),
        0 <= i < trace.len(),
    ensures
        trace[i] !is Slept,
        trace[i] is Sampled ==> i > 0 && (trace[i - 1] is Announced || trace[i - 1] is Printed),
    decreases i,
{
    if i > 0 {
        captures_leave_no_gap(once, trace, i - 1);
        assert(answers(next_action(Monitor::Web, once, trace[i - 1]), trace[i - 1 + 1]));
    }
}

/// A monitor is announced right behind its setting up and never again, unless there is no interface
/// to monitor the traffic of.
pub proof fn monitor_is_announced_first(monitor: Monitor, once: bool, interfaces: usize)
    ensures
        next_action(monitor, once, Done::SetUp { interfaces }) is NothingToMonitor <==> monitor
            is Network && interfaces == 0,
        next_action(monitor, once, Done::SetUp { interfaces }) is Announce <==> !(monitor is Network
            && interfaces == 0),
        forall|done: Done|
            #![trigger next_action(monitor, once, done)]
            done !is SetUp ==> !(next_action(monitor, once, done) is Announce),
{
}

/// A sample that was taken is printed, and one that was not ends the monitor with its error. Behind
/// an interval a sample is taken.
pub proof fn taken_samples_are_printed(monitor: Monitor, once: bool)
    ensures
        next_action(monitor, once, Done::Sampled { taken: true }) is Print,
        next_action(monitor, once, Done::Sampled { taken: false }) is Fail,
        next_action(monitor, once, Done::Slept) is Sample,
        next_action(monitor, false, Done::Printed { running: true }) is Sleep <==> !(monitor
            is Web),
        next_action(monitor, false, Done::Printed { running: true }) is Sample <==> monitor is Web,
        next_action(monitor, once, Done::Announced) is Sleep <==> monitor is Network,
        next_action(monitor, once, Done::Announced) is Sample <==> !(monitor is Network),
{
}

} // verus!
