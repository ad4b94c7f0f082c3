//! Opening a packet socket: what to ask of the system next, given what it said last.
use vstd::prelude::*;

use crate::split::{find_first, first_index_is_first};
use crate::text::chars_of;

verus! {

/// What the system said.
#[derive(Clone, Copy, Debug, PartialEq, Eq, Structural)]
pub enum Reply {
    /// The descriptor of the new socket, negative if there is none.
    Socket(i32),
    /// Negative if the receive timeout was not set.
    TimeoutSet(i32),
    /// The index of the interface, zero if there is none of that name.
    Interface(u32),
    /// Negative if the socket was not bound.
    Bound(i32),
}

/// What to do next.
#[derive(Clone, Copy, Debug, PartialEq, Eq, Structural)]
pub enum Action {
    /// Set the receive timeout.
    SetTimeout { microseconds: i64 },
    /// Look the interface up by its name.
    FindInterface,
    /// Bind the socket to an interface.
    Bind { index: u32 },
    /// Use the socket.
    Ready,
    /// Report that the name of the interface cannot be handed to the system.
    RefuseName,
    /// Report the last error of the system.
    Fail,
    /// Close the socket and report the error that the system gave before.
    CloseAndFail,
}

/// How long a socket waits for a packet.
pub const RECEIVE_TIMEOUT: i64 = 200_000;

/// Whether a name cannot be handed to the system, which ends names at a zero character.
pub open spec fn name_is_refused(interface: Seq<char>) -> bool {
    interface.contains('\0')
}

/// What to do with an open socket that has its timeout.
pub open spec fn after_timeout(interface: Option<&str>) -> Action {
    match interface {
        None => Action::Ready,
        Some(name) => if name_is_refused(name@) {
            Action::RefuseName
        } else {
            Action::FindInterface
        },
    }
}

/// What to do next on the way to a socket on `interface`, or on all of them.
pub open spec fn next_action(interface: Option<&str>, reply: Reply) -> Action {
    match reply {
        Reply::Socket(descriptor) => if descriptor < 0 {
            Action::Fail
        } else {
            Action::SetTimeout { microseconds: RECEIVE_TIMEOUT }
        },
        Reply::TimeoutSet(status) => if status < 0 {
            Action::CloseAndFail
        } else {
            after_timeout(interface)
        },
        _ => bind_action(reply),
    }
}

/// What to do next on the way from a found interface to a bound socket.
pub open spec fn bind_action(reply: Reply) -> Action {
    match reply {
        Reply::Interface(index) => if index == 0 {
            Action::CloseAndFail
        } else {
            Action::Bind { index }
        },
        Reply::Bound(status) => if status < 0 {
            Action::CloseAndFail
        } else {
            Action::Ready
        },
        _ => Action::Fail,
    }
}

/// Decides what to do on the way to an open socket.
pub fn open_packet_socket(interface: Option<&str>, reply: Reply) -> (action: Action)
    ensures
        action == next_action(interface, reply),
{
    match reply {
        Reply::Socket(descriptor) => if descriptor < 0 {
            Action::Fail
        } else {
            Action::SetTimeout { microseconds: RECEIVE_TIMEOUT }
        },
        Reply::TimeoutSet(status) => if status < 0 {
            Action::CloseAndFail
        } else {
            match interface {
                None => Action::Ready,
                Some(name) => {
                    let chars = chars_of(name);
                    let found = find_first(&chars, '\0');
                    proof {
                        first_index_is_first(name@, '\0');
                        if found is Some {
                            assert(name@[found->0 as int] == '\0');
                        }
                    }
                    match found {
                        Some(_) => Action::RefuseName,
                        None => Action::FindInterface,
                    }
                },
            }
        },
        _ => bind_packet_socket(reply),
    }
}

/// Decides what to do on the way from a found interface to a bound socket.
pub fn bind_packet_socket(reply: Reply) -> (action: Action)
    requires
        reply is Interface || reply is Bound,
    ensures
        action == bind_action(reply),
{
    match reply {
        Reply::Interface(index) => if index == 0 {
            Action::CloseAndFail
        } else {
            Action::Bind { index }
        },
        Reply::Bound(status) => if status < 0 {
            Action::CloseAndFail
        } else {
            Action::Ready
        },
        _ => Action::Fail,
    }
}

/// Where opening a socket ends if the system says `socket`, `timeout`, `index` and `bound` when it
/// is asked.
pub open spec fn last_action(
    interface: Option<&str>,
    socket: i32,
    timeout: i32,
    index: u32,
    bound: i32,
) -> Action {
    if next_action(interface, Reply::Socket(socket)) !is SetTimeout {
        next_action(interface, Reply::Socket(socket))
    } else if next_action(interface, Reply::TimeoutSet(timeout)) !is FindInterface {
        next_action(interface, Reply::TimeoutSet(timeout))
    } else if next_action(interface, Reply::Interface(index)) !is Bind {
        next_action(interface, Reply::Interface(index))
    } else {
        next_action(interface, Reply::Bound(bound))
    }
}

/// A socket is ready only if it was opened and has its timeout, and only if it is bound where an
/// interface was named; and then it is ready.
pub proof fn ready_socket_is_complete(
    interface: Option<&str>,
    socket: i32,
    timeout: i32,
    index: u32,
    bound: i32,
)
    ensures
        last_action(interface, socket, timeout, index, bound) is Ready <==> {
            &&& socket >= 0
            &&& timeout >= 0
            &&& interface is Some ==> !(interface->0)@.contains('\0') && index > 0 && bound >= 0
        },
{
}

/// A socket that was opened and did not become ready is closed, unless its interface has a name that
/// the system cannot take.
pub proof fn failed_socket_is_closed(
    interface: Option<&str>,
    socket: i32,
    timeout: i32,
    index: u32,
    bound: i32,
)
    requires
        interface is Some ==> !(interface->0)@.contains('\0'),
    ensures
        ({
            let end = last_action(interface, socket, timeout, index, bound);
            &&& end is Ready || end is CloseAndFail || end is Fail
            &&& end is Fail <==> socket < 0
        }),
{
}

/// A new socket gets a timeout of two tenths of a second, and an interface that was found is the one
/// that the socket is bound to.
pub proof fn socket_is_set_up_as_found(interface: Option<&str>, socket: i32, index: u32)
    requires
        socket >= 0,
        index > 0,
    ensures
        next_action(interface, Reply::Socket(socket)) == (Action::SetTimeout {
            microseconds: 200_000,
        }),
        next_action(interface, Reply::Interface(index)) == (Action::Bind { index }),
{
}

/// An interface is looked up exactly if one was named and its name can be handed to the system; a
/// name that cannot is refused once the socket has its timeout, and the socket stays open.
pub proof fn only_a_named_interface_is_looked_up(interface: Option<&str>, timeout: i32)
    requires
        timeout >= 0,
    ensures
        next_action(interface, Reply::TimeoutSet(timeout)) is FindInterface <==> interface is Some
            && !(interface->0)@.contains('\0'),
        next_action(interface, Reply::TimeoutSet(timeout)) is RefuseName <==> interface is Some && (
        interface->0)@.contains('\0'),
        next_action(interface, Reply::TimeoutSet(timeout)) is Ready <==> interface is None,
{
}

} // verus!
