//! Live connections: where they are read from.
use vstd::prelude::*;

use crate::address::{connection_views, TcpConnection};
use crate::bytes::{lossy_text, read_text};
use crate::proc_table::{
    collect_linux_proc_connections, proc_connections, proc_table_cuttable, table_lines,
};

verus! {

/// Collects the connections from the tables of a Linux system, where `tcp` and `tcp6` are what the
/// two tables hold. Gives `None` if `netstat` is to be asked, which is where the system is another
/// or a table could not be read.
pub fn collect_live_connections(
    linux: bool,
    tcp: Option<&str>,
    tcp6: Option<&str>,
    all_states: bool,
) -> (connections: Option<Vec<TcpConnection>>)
    requires
        linux && tcp is Some ==> proc_table_cuttable((tcp->0)@),
        linux && tcp is Some && tcp6 is Some ==> proc_table_cuttable((tcp6->0)@),
    ensures
        connections is Some <==> linux && tcp is Some && tcp6 is Some,
        connections is Some ==> connection_views((connections->0)@) == proc_connections(
            table_lines((tcp->0)@),
            all_states,
        ) + proc_connections(table_lines((tcp6->0)@), all_states),
{
    if !linux {
        return None;
    }
    match (tcp, tcp6) {
        (Some(first), Some(second)) => Some(
            collect_linux_proc_connections(first, second, all_states),
        ),
        _ => None,
    }
}

/// Gives the argument with which `netstat` prints numbers in place of names.
pub fn netstat_argument(windows: bool) -> (argument: &'static str)
    ensures
        argument@ == (if windows {
            "-ano"@
        } else {
            "-n"@
        }),
{
    if windows {
        "-ano"
    } else {
        "-n"
    }
}

/// Reads what `netstat` printed, if it succeeded.
pub fn netstat_text(success: bool, output: &[u8]) -> (text: Result<String, String>)
    ensures
        match text {
            Ok(printed) => success && printed@ == lossy_text(output@),
            Err(reason) => !success && reason@ == "netstat command failed"@,
        },
{
    if success {
        Ok(read_text(output))
    } else {
        Err("netstat command failed".to_owned())
    }
}

} // verus!
