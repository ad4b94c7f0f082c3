//! The server name in a TLS ClientHello.
use vstd::prelude::*;

use crate::bytes::{be16, be24, lossy_text, read_text, read_u16, read_u24};
use crate::text::{ascii_lower, to_ascii_lower};

verus! {

/// Where the first host name of a server name list stands between `at` and `end`, as start and end.
/// An entry is a type, a length and a name of that length; type 0 is a host name.
pub open spec fn host_entry(list: Seq<u8>, at: int, end: int) -> Option<(int, int)>
    decreases end - at,
{
    if at + 3 > end {
        None
    } else {
        let start = at + 3;
        let stop = start + be16(list[at + 1], list[at + 2]);
        if stop > end {
            None
        } else if list[at] == 0 {
            Some((start, stop))
        } else {
            host_entry(list, stop, end)
        }
    }
}

/// Where the host name stands in the body of a server name extension: the length of the list, then
/// the list.
pub open spec fn host_span(extension: Seq<u8>) -> Option<(int, int)> {
    if extension.len() < 2 || 2 + be16(extension[0], extension[1]) > extension.len() {
        None
    } else {
        host_entry(extension, 2, 2 + be16(extension[0], extension[1]))
    }
}

/// The host name in the body of a server name extension, in ASCII lower case.
pub open spec fn extension_host(extension: Seq<u8>) -> Option<Seq<char>> {
    match host_span(extension) {
        Some((start, end)) => Some(ascii_lower(lossy_text(extension.subrange(start, end)))),
        None => None,
    }
}

/// Where the extensions of a ClientHello stand. A record of type 22 holds a handshake message of
/// type 1; its body is a version, 32 random bytes, a session, cipher suites, compression methods
/// and the extensions, each of these four behind its length. `None` where a part is missing.
pub open spec fn extensions_span(packet: Seq<u8>) -> Option<(int, int)> {
    let session = 43int;
    let ciphers = session + 1 + packet[session];
    let compression = ciphers + 2 + be16(packet[ciphers], packet[ciphers + 1]);
    let extensions = compression + 1 + packet[compression];
    let start = extensions + 2;
    let end = start + be16(packet[extensions], packet[extensions + 1]);
    if {
        &&& packet.len() > session
        &&& packet[0] == 22
        &&& packet.len() >= 5 + be16(packet[3], packet[4])
        &&& packet[5] == 1
        &&& packet.len() >= 9 + be24(packet[6], packet[7], packet[8])
        &&& packet.len() >= ciphers + 2
        &&& packet.len() > compression
        &&& packet.len() >= start
        &&& packet.len() >= end
    } {
        Some((start, end))
    } else {
        None
    }
}

/// Where the body of the first server name extension stands between `at` and `end`. An extension
/// is a type, a length and a body of that length; type 0 is the server name.
pub open spec fn server_name_entry(packet: Seq<u8>, at: int, end: int) -> Option<(int, int)>
    decreases end - at,
{
    if at + 4 > end {
        None
    } else {
        let start = at + 4;
        let stop = start + be16(packet[at + 2], packet[at + 3]);
        if stop > end {
            None
        } else if be16(packet[at], packet[at + 1]) == 0 {
            Some((start, stop))
        } else {
            server_name_entry(packet, stop, end)
        }
    }
}

/// Where the body of the server name extension of a ClientHello stands.
pub open spec fn server_name_span(packet: Seq<u8>) -> Option<(int, int)> {
    match extensions_span(packet) {
        Some((start, end)) => server_name_entry(packet, start, end),
        None => None,
    }
}

/// The host name that a ClientHello names, in ASCII lower case.
pub open spec fn hello_host(packet: Seq<u8>) -> Option<Seq<char>> {
    match server_name_span(packet) {
        Some((start, end)) => extension_host(packet.subrange(start, end)),
        None => None,
    }
}

/// An entry that is found stands behind where the search began and before its end.
pub proof fn host_entry_fits(list: Seq<u8>, at: int, end: int)
    requires
        host_entry(list, at, end) is Some,
    ensures
        at + 3 <= (host_entry(list, at, end)->0).0 <= (host_entry(list, at, end)->0).1 <= end,
    decreases end - at,
{
    if list[at] != 0 {
        host_entry_fits(list, at + 3 + be16(list[at + 1], list[at + 2]), end);
    }
}

/// An extension that is found stands behind where the search began and before its end.
pub proof fn server_name_entry_fits(packet: Seq<u8>, at: int, end: int)
    requires
        server_name_entry(packet, at, end) is Some,
    ensures
        at + 4 <= (server_name_entry(packet, at, end)->0).0 <= (server_name_entry(
            packet,
            at,
            end,
        )->0).1 <= end,
    decreases end - at,
{
    if be16(packet[at], packet[at + 1]) != 0 {
        server_name_entry_fits(packet, at + 4 + be16(packet[at + 2], packet[at + 3]), end);
    }
}

/// Finds where the host name stands in the body of a server name extension.
pub fn find_host(extension: &[u8]) -> (found: Option<(usize, usize)>)
    ensures
        match found {
            Some((start, end)) => host_span(extension@) == Some((start as int, end as int)) && start
                <= end <= extension@.len(),
            None => host_span(extension@) is None,
        },
{
    if extension.len() < 2 {
        return None;
    }
    let list_len: usize = read_u16(extension, 0) as usize;
    if extension.len() - 2 < list_len {
        return None;
    }
    let list_end: usize = 2 + list_len;
    let mut offset: usize = 2;
    while list_end - offset >= 3
        invariant
            2 <= offset <= list_end <= extension@.len(),
            host_span(extension@) == host_entry(extension@, offset as int, list_end as int),
        decreases list_end - offset,
    {
        let name_type: u8 = extension[offset];
        let name_len: usize = read_u16(extension, offset + 1) as usize;
        offset += 3;
        if list_end - offset < name_len {
            return None;
        }
        let name_end: usize = offset + name_len;
        if name_type == 0 {
            return Some((offset, name_end));
        }
        offset = name_end;
    }
    None
}

/// Reads the host name in the body of a server name extension.
pub fn parse_tls_sni_extension(extension: &[u8]) -> (host: Option<String>)
    ensures
        match host {
            Some(name) => extension_host(extension@) == Some(name@),
            None => extension_host(extension@) is None,
        },
{
    match find_host(extension) {
        Some((start, end)) => {
            let name = read_text(&extension[start..end]);
            Some(to_ascii_lower(name.as_str()))
        },
        None => None,
    }
}

/// Finds where the extensions of a ClientHello stand.
pub fn find_extensions(packet: &[u8]) -> (found: Option<(usize, usize)>)
    ensures
        match found {
            Some((start, end)) => extensions_span(packet@) == Some((start as int, end as int))
                && start <= end <= packet@.len(),
            None => extensions_span(packet@) is None,
        },
{
    if packet.len() < 5 || packet[0] != 22 {
        return None;
    }
    let record_len: usize = read_u16(packet, 3) as usize;
    if packet.len() < 5 + record_len || packet.len() < 9 || packet[5] != 1 {
        return None;
    }
    let handshake_len: usize = match read_u24(&packet[6..9]) {
        Some(length) => length,
        None => {
            return None;
        },
    };
    if packet.len() < 9 + handshake_len {
        return None;
    }
    let mut offset: usize = 9 + 2 + 32;
    if offset >= packet.len() {
        return None;
    }
    let session_id_len: usize = packet[offset] as usize;
    offset += 1 + session_id_len;
    if offset + 2 > packet.len() {
        return None;
    }
    let cipher_len: usize = read_u16(packet, offset) as usize;
    offset += 2 + cipher_len;
    if offset >= packet.len() {
        return None;
    }
    let compression_len: usize = packet[offset] as usize;
    offset += 1 + compression_len;
    if offset + 2 > packet.len() {
        return None;
    }
    let extensions_len: usize = read_u16(packet, offset) as usize;
    offset += 2;
    let extensions_end: usize = offset + extensions_len;
    if extensions_end > packet.len() {
        return None;
    }
    Some((offset, extensions_end))
}

/// Finds where the body of the server name extension of a ClientHello stands.
pub fn find_server_name(packet: &[u8]) -> (found: Option<(usize, usize)>)
    ensures
        match found {
            Some((start, end)) => server_name_span(packet@) == Some((start as int, end as int))
                && start <= end <= packet@.len(),
            None => server_name_span(packet@) is None,
        },
{
    match find_extensions(packet) {
        Some((start, end)) => {
            let mut offset: usize = start;
            while end - offset >= 4
                invariant
                    offset <= end <= packet@.len(),
                    server_name_span(packet@) == server_name_entry(
                        packet@,
                        offset as int,
                        end as int,
                    ),
                decreases end - offset,
            {
                let extension_type: u16 = read_u16(packet, offset);
                let extension_len: usize = read_u16(packet, offset + 2) as usize;
                offset += 4;
                if end - offset < extension_len {
                    return None;
                }
                let extension_end: usize = offset + extension_len;
                if extension_type == 0 {
                    return Some((offset, extension_end));
                }
                offset = extension_end;
            }
            None
        },
        None => None,
    }
}

/// Reads the host name that a ClientHello names.
pub fn parse_tls_sni(packet: &[u8]) -> (host: Option<String>)
    ensures
        match host {
            Some(name) => hello_host(packet@) == Some(name@),
            None => hello_host(packet@) is None,
        },
{
    match find_server_name(packet) {
        Some((start, end)) => parse_tls_sni_extension(&packet[start..end]),
        None => None,
    }
}

} // verus!
