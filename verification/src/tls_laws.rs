//! A ClientHello written as bytes, and what reading it gives back.
use vstd::prelude::*;

use crate::bytes::{
    be16, be24, lossy_text, part_bytes, parts_stand, stands_in, written16, written16_is_read, written24,
    written24_is_read,
};
use crate::text::{ascii_lower, lower_is_idempotent};
use crate::tls::{
    extension_host, extensions_span, hello_host, host_entry, host_span,
    server_name_entry, server_name_entry_fits, server_name_span,
};

verus! {

/// An entry of a server name list.
pub struct ServerName {
    pub kind: u8,
    pub name: Seq<u8>,
}

/// Server names as bytes: each a type, a length and a name.
pub open spec fn written_names(names: Seq<ServerName>) -> Seq<u8>
    decreases names.len(),
{
    if names.len() == 0 {
        seq![]
    } else {
        seq![names[0].kind] + (written16(names[0].name.len()) + (names[0].name
            + written_names(names.drop_first())))
    }
}

/// An entry of another type than host name, whose length can be written.
pub open spec fn other_name(entry: ServerName) -> bool {
    entry.kind != 0 && entry.name.len() < 65536
}

/// An extension of a ClientHello.
pub struct Extension {
    pub kind: nat,
    pub body: Seq<u8>,
}

/// Extensions as bytes: each a type, a length and a body.
pub open spec fn written_extensions(extensions: Seq<Extension>) -> Seq<u8>
    decreases extensions.len(),
{
    if extensions.len() == 0 {
        seq![]
    } else {
        written16(extensions[0].kind) + (written16(extensions[0].body.len()) + (
        extensions[0].body + written_extensions(extensions.drop_first())))
    }
}

/// An extension of another type than server name, whose length can be written.
pub open spec fn other_extension(extension: Extension) -> bool {
    0 < extension.kind < 65536 && extension.body.len() < 65536
}

/// What a ClientHello says before its extensions.
pub struct Hello {
    pub version: Seq<u8>,
    pub random: Seq<u8>,
    pub session: Seq<u8>,
    pub ciphers: Seq<u8>,
    pub compression: Seq<u8>,
}

/// A hello whose parts have the lengths that TLS gives them.
pub open spec fn writable_hello(hello: Hello) -> bool {
    &&& hello.version.len() == 2
    &&& hello.random.len() == 32
    &&& hello.session.len() < 256
    &&& hello.ciphers.len() < 65536
    &&& hello.compression.len() < 256
}

/// The body of a ClientHello with the extensions `block`.
pub open spec fn written_body(hello: Hello, block: Seq<u8>) -> Seq<u8> {
    hello.version + (hello.random + (seq![hello.session.len() as u8] + (hello.session + (written16(
        hello.ciphers.len(),
    ) + (hello.ciphers + (seq![hello.compression.len() as u8] + (hello.compression + (written16(
        block.len(),
    ) + block))))))))
}

/// A record that holds a ClientHello with the body `body`, where the record says that it is
/// `record_len` bytes long and the message that it is `message_len` bytes long.
pub open spec fn framed_body(
    version: Seq<u8>,
    record_len: nat,
    message_len: nat,
    body: Seq<u8>,
) -> Seq<u8> {
    seq![22u8] + (version + (written16(record_len) + (seq![1u8] + (written24(message_len) + body))))
}

/// A record that holds a ClientHello with the extensions `block`.
pub open spec fn written_hello(version: Seq<u8>, hello: Hello, block: Seq<u8>) -> Seq<u8> {
    let body = written_body(hello, block);
    framed_body(version, body.len() + 4, body.len(), body)
}

proof fn written_names_are_searched(
    list: Seq<u8>,
    at: int,
    end: int,
    before: Seq<ServerName>,
    name: Seq<u8>,
)
    requires
        stands_in(list, written_names(before) + (seq![0u8] + (written16(name.len()) + name)), at),
        at + written_names(before).len() + 3 + name.len() <= end,
        name.len() < 65536,
        forall|i: int| 0 <= i < before.len() ==> other_name(#[trigger] before[i]),
    ensures
        ({
            let start = at + written_names(before).len() + 3;
            &&& host_entry(list, at, end) == Some((start, start + name.len()))
            &&& list.subrange(start, start + name.len()) == name
        }),
    decreases before.len(),
{
    let host = seq![0u8] + (written16(name.len()) + name);
    if before.len() == 0 {
        assert(written_names(before) + host =~= host);
        parts_stand(list, seq![0u8], written16(name.len()) + name, at);
        parts_stand(list, written16(name.len()), name, at + 1);
        part_bytes(list, seq![0u8], at);
        part_bytes(list, written16(name.len()), at + 1);
        written16_is_read(name.len());
        assert(list[at] == seq![0u8][0]);
        assert(list[at + 1] == written16(name.len())[0]);
        assert(list[at + 1 + 1] == written16(name.len())[1]);
    } else {
        let first = before[0];
        let others = before.drop_first();
        let rest = written_names(others) + host;
        let length = written16(first.name.len());
        assert(other_name(before[0]));
        assert(written_names(before) + host =~= seq![first.kind] + (length + (first.name + rest)));
        parts_stand(list, seq![first.kind], length + (first.name + rest), at);
        parts_stand(list, length, first.name + rest, at + 1);
        parts_stand(list, first.name, rest, at + 3);
        part_bytes(list, seq![first.kind], at);
        part_bytes(list, length, at + 1);
        written16_is_read(first.name.len());
        assert(list[at] == seq![first.kind][0]);
        assert(list[at + 1] == length[0]);
        assert(list[at + 1 + 1] == length[1]);
        assert forall|i: int| 0 <= i < others.len() implies other_name(#[trigger] others[i]) by {
            assert(others[i] == before[i + 1]);
        }
        written_names_are_searched(list, at + 3 + first.name.len(), end, others, name);
    }
}

/// Reading the body of a server name extension gives the first host name of its list in ASCII
/// lower case. Entries of other types may stand before it; neither what follows it in the list nor
/// what follows the list matters.
pub proof fn written_host_is_read(
    before: Seq<ServerName>,
    name: Seq<u8>,
    after: Seq<u8>,
    rest: Seq<u8>,
)
    requires
        forall|i: int| 0 <= i < before.len() ==> other_name(#[trigger] before[i]),
        written_names(before).len() + 3 + name.len() + after.len() < 65536,
    ensures
        ({
            let host = seq![0u8] + (written16(name.len()) + name);
            let list = written_names(before) + host + after;
            extension_host(written16(list.len()) + list + rest) == Some(
                ascii_lower(lossy_text(name)),
            )
        }),
{
    let host = seq![0u8] + (written16(name.len()) + name);
    let list = written_names(before) + host + after;
    let length = written16(list.len());
    let extension = length + list + rest;
    written16_is_read(list.len());
    assert(extension[0] == length[0] && extension[1] == length[1]);
    let searched = written_names(before) + host;
    assert(extension.subrange(2, 2int + searched.len()) =~= searched);
    written_names_are_searched(extension, 2, 2int + list.len(), before, name);
}

proof fn written_extensions_are_searched(
    packet: Seq<u8>,
    at: int,
    end: int,
    before: Seq<Extension>,
    body: Seq<u8>,
)
    requires
        stands_in(
            packet,
            written_extensions(before) + (written16(0) + (written16(body.len()) + body)),
            at,
        ),
        at + written_extensions(before).len() + 4 + body.len() <= end,
        body.len() < 65536,
        forall|i: int| 0 <= i < before.len() ==> other_extension(#[trigger] before[i]),
    ensures
        ({
            let start = at + written_extensions(before).len() + 4;
            &&& server_name_entry(packet, at, end) == Some((start, start + body.len()))
            &&& packet.subrange(start, start + body.len()) == body
        }),
    decreases before.len(),
{
    let server = written16(0) + (written16(body.len()) + body);
    if before.len() == 0 {
        let length = written16(body.len());
        assert(written_extensions(before) + server =~= server);
        parts_stand(packet, written16(0), length + body, at);
        parts_stand(packet, length, body, at + 2);
        part_bytes(packet, written16(0), at);
        part_bytes(packet, length, at + 2);
        written16_is_read(body.len());
        assert(packet[at] == written16(0)[0]);
        assert(packet[at + 1] == written16(0)[1]);
        assert(packet[at + 2] == length[0]);
        assert(packet[at + 2 + 1] == length[1]);
    } else {
        let first = before[0];
        let others = before.drop_first();
        let rest = written_extensions(others) + server;
        let kind = written16(first.kind);
        let length = written16(first.body.len());
        assert(other_extension(before[0]));
        assert(written_extensions(before) + server =~= kind + (length + (first.body + rest)));
        parts_stand(packet, kind, length + (first.body + rest), at);
        parts_stand(packet, length, first.body + rest, at + 2);
        parts_stand(packet, first.body, rest, at + 4);
        part_bytes(packet, kind, at);
        part_bytes(packet, length, at + 2);
        written16_is_read(first.kind);
        written16_is_read(first.body.len());
        assert(packet[at] == kind[0]);
        assert(packet[at + 1] == kind[1]);
        assert(packet[at + 2] == length[0]);
        assert(packet[at + 2 + 1] == length[1]);
        assert forall|i: int| 0 <= i < others.len() implies other_extension(
            #[trigger] others[i],
        ) by {
            assert(others[i] == before[i + 1]);
        }
        written_extensions_are_searched(packet, at + 4 + first.body.len(), end, others, body);
    }
}

/// The lengths and extensions of a written body, wherever it stands.
proof fn written_body_is_walked(packet: Seq<u8>, at: int, hello: Hello, block: Seq<u8>)
    requires
        stands_in(packet, written_body(hello, block), at),
        writable_hello(hello),
        block.len() < 65536,
    ensures
        ({
            let session = at + 34;
            let ciphers = session + 1 + hello.session.len();
            let compression = ciphers + 2 + hello.ciphers.len();
            let extensions = compression + 1 + hello.compression.len();
            &&& packet[session] == hello.session.len()
            &&& be16(packet[ciphers], packet[ciphers + 1]) == hello.ciphers.len()
            &&& packet[compression] == hello.compression.len()
            &&& be16(packet[extensions], packet[extensions + 1]) == block.len()
            &&& stands_in(packet, block, extensions + 2)
            &&& at + written_body(hello, block).len() == extensions + 2 + block.len()
        }),
{
    let session = at + 34;
    let ciphers = session + 1 + hello.session.len();
    let compression = ciphers + 2 + hello.ciphers.len();
    let extensions = compression + 1 + hello.compression.len();
    let b8 = written16(block.len()) + block;
    let b7 = hello.compression + b8;
    let b6 = seq![hello.compression.len() as u8] + b7;
    let b5 = hello.ciphers + b6;
    let b4 = written16(hello.ciphers.len()) + b5;
    let b3 = hello.session + b4;
    let b2 = seq![hello.session.len() as u8] + b3;
    let b1 = hello.random + b2;
    assert(stands_in(packet, b2, session)) by {
        parts_stand(packet, hello.version, b1, at);
        parts_stand(packet, hello.random, b2, at + 2);
    }
    assert(packet[session] == hello.session.len() && stands_in(packet, b4, ciphers)) by {
        let length = seq![hello.session.len() as u8];
        parts_stand(packet, length, b3, session);
        part_bytes(packet, length, session);
        assert(packet[session + 0] == length[0]);
        parts_stand(packet, hello.session, b4, session + 1);
    }
    assert(be16(packet[ciphers], packet[ciphers + 1]) == hello.ciphers.len() && stands_in(
        packet,
        b6,
        compression,
    )) by {
        let length = written16(hello.ciphers.len());
        written16_is_read(hello.ciphers.len());
        parts_stand(packet, length, b5, ciphers);
        part_bytes(packet, length, ciphers);
        assert(packet[ciphers + 0] == length[0]);
        assert(packet[ciphers + 1] == length[1]);
        parts_stand(packet, hello.ciphers, b6, ciphers + 2);
    }
    assert(packet[compression] == hello.compression.len() && stands_in(packet, b8, extensions)) by {
        let length = seq![hello.compression.len() as u8];
        parts_stand(packet, length, b7, compression);
        part_bytes(packet, length, compression);
        assert(packet[compression + 0] == length[0]);
        parts_stand(packet, hello.compression, b8, compression + 1);
    }
    assert(be16(packet[extensions], packet[extensions + 1]) == block.len() && stands_in(
        packet,
        block,
        extensions + 2,
    )) by {
        let length = written16(block.len());
        written16_is_read(block.len());
        parts_stand(packet, length, block, extensions);
        part_bytes(packet, length, extensions);
        assert(packet[extensions + 0] == length[0]);
        assert(packet[extensions + 1] == length[1]);
    }
}

/// The header of a framed body, and the body behind it.
proof fn framed_body_is_walked(
    version: Seq<u8>,
    record_len: nat,
    message_len: nat,
    body: Seq<u8>,
    rest: Seq<u8>,
)
    requires
        version.len() == 2,
        record_len < 65536,
        message_len < 16777216,
    ensures
        ({
            let packet = framed_body(version, record_len, message_len, body) + rest;
            &&& packet.len() == 9 + body.len() + rest.len()
            &&& packet[0] == 22
            &&& be16(packet[3], packet[4]) == record_len
            &&& packet[5] == 1
            &&& be24(packet[6], packet[7], packet[8]) == message_len
            &&& stands_in(packet, body, 9)
        }),
{
    let packet = framed_body(version, record_len, message_len, body) + rest;
    let first = written16(record_len);
    let second = written24(message_len);
    written16_is_read(record_len);
    written24_is_read(message_len);
    assert(packet[0] == 22);
    assert(packet[3] == first[0]);
    assert(packet[4] == first[1]);
    assert(packet[5] == 1);
    assert(packet[6] == second[0]);
    assert(packet[7] == second[1]);
    assert(packet[8] == second[2]);
    assert(packet.subrange(9, 9int + body.len()) =~= body);
}

/// The extensions of a framed ClientHello are found.
proof fn framed_hello_is_walked(
    version: Seq<u8>,
    record_len: nat,
    message_len: nat,
    hello: Hello,
    block: Seq<u8>,
    rest: Seq<u8>,
)
    requires
        version.len() == 2,
        record_len < 65536,
        message_len < 16777216,
        writable_hello(hello),
        block.len() < 65536,
        5 + record_len <= 9 + written_body(hello, block).len() + rest.len(),
        message_len <= written_body(hello, block).len() + rest.len(),
    ensures
        ({
            let packet = framed_body(version, record_len, message_len, written_body(hello, block))
                + rest;
            let start = packet.len() - rest.len() - block.len();
            &&& extensions_span(packet) == Some((start, start + block.len()))
            &&& stands_in(packet, block, start)
        }),
{
    let body = written_body(hello, block);
    let packet = framed_body(version, record_len, message_len, body) + rest;
    framed_body_is_walked(version, record_len, message_len, body, rest);
    written_body_is_walked(packet, 9, hello, block);
}

/// The server name extension is found among the extensions of a ClientHello.
proof fn written_server_name_is_found(
    packet: Seq<u8>,
    start: int,
    before: Seq<Extension>,
    server_name: Seq<u8>,
    after: Seq<u8>,
)
    requires
        forall|i: int| 0 <= i < before.len() ==> other_extension(#[trigger] before[i]),
        ({
            let server = written16(0) + (written16(server_name.len()) + server_name);
            let block = written_extensions(before) + server + after;
            &&& block.len() < 65536
            &&& stands_in(packet, block, start)
            &&& extensions_span(packet) == Some((start, start + block.len()))
        }),
    ensures
        hello_host(packet) == extension_host(server_name),
{
    let server = written16(0) + (written16(server_name.len()) + server_name);
    let block = written_extensions(before) + server + after;
    parts_stand(packet, written_extensions(before) + server, after, start);
    written_extensions_are_searched(packet, start, start + block.len(), before, server_name);
}

/// Reading a ClientHello gives the host name of its server name extension, whatever lengths the
/// record and the message say that they have, as long as the packet holds so many bytes. Extensions
/// of other types may stand before that extension; neither what follows it nor what follows the
/// extensions matters.
pub proof fn framed_hello_is_read(
    version: Seq<u8>,
    record_len: nat,
    message_len: nat,
    hello: Hello,
    before: Seq<Extension>,
    server_name: Seq<u8>,
    after: Seq<u8>,
    rest: Seq<u8>,
)
    requires
        version.len() == 2,
        record_len < 65536,
        message_len < 16777216,
        writable_hello(hello),
        forall|i: int| 0 <= i < before.len() ==> other_extension(#[trigger] before[i]),
        ({
            let server = written16(0) + (written16(server_name.len()) + server_name);
            let block = written_extensions(before) + server + after;
            let packet = framed_body(version, record_len, message_len, written_body(hello, block))
                + rest;
            &&& block.len() < 65536
            &&& packet.len() >= 5 + record_len
            &&& packet.len() >= 9 + message_len
        }),
    ensures
        ({
            let server = written16(0) + (written16(server_name.len()) + server_name);
            let block = written_extensions(before) + server + after;
            let packet = framed_body(version, record_len, message_len, written_body(hello, block))
                + rest;
            hello_host(packet) == extension_host(server_name)
        }),
{
    let server = written16(0) + (written16(server_name.len()) + server_name);
    let block = written_extensions(before) + server + after;
    let body = written_body(hello, block);
    let packet = framed_body(version, record_len, message_len, body) + rest;
    let start = packet.len() - rest.len() - block.len();
    framed_body_is_walked(version, record_len, message_len, body, rest);
    framed_hello_is_walked(version, record_len, message_len, hello, block, rest);
    written_server_name_is_found(packet, start, before, server_name, after);
}

/// Reading a written ClientHello gives the host name of its server name extension. Extensions of
/// other types may stand before that extension; neither what follows it nor what follows the record
/// matters.
pub proof fn written_hello_is_read(
    version: Seq<u8>,
    hello: Hello,
    before: Seq<Extension>,
    server_name: Seq<u8>,
    after: Seq<u8>,
    rest: Seq<u8>,
)
    requires
        version.len() == 2,
        writable_hello(hello),
        forall|i: int| 0 <= i < before.len() ==> other_extension(#[trigger] before[i]),
        ({
            let server = written16(0) + (written16(server_name.len()) + server_name);
            let block = written_extensions(before) + server + after;
            written_body(hello, block).len() + 4 < 65536
        }),
    ensures
        ({
            let server = written16(0) + (written16(server_name.len()) + server_name);
            let block = written_extensions(before) + server + after;
            hello_host(written_hello(version, hello, block) + rest) == extension_host(server_name)
        }),
{
    let server = written16(0) + (written16(server_name.len()) + server_name);
    let block = written_extensions(before) + server + after;
    let body_len = written_body(hello, block).len();
    assert(block.len() <= body_len);
    framed_hello_is_read(
        version,
        body_len + 4,
        body_len,
        hello,
        before,
        server_name,
        after,
        rest,
    );
}

/// A host name that is read holds no ASCII capital.
pub proof fn hello_host_is_lower(packet: Seq<u8>)
    requires
        hello_host(packet) is Some,
    ensures
        ascii_lower(hello_host(packet)->0) == hello_host(packet)->0,
{
    let (start, end) = server_name_span(packet)->0;
    let extension = packet.subrange(start, end);
    let (from, to) = host_span(extension)->0;
    lower_is_idempotent(lossy_text(extension.subrange(from, to)));
}

proof fn longer_packet_has_the_entry(packet: Seq<u8>, more: Seq<u8>, at: int, end: int)
    requires
        0 <= at,
        end <= packet.len(),
    ensures
        server_name_entry(packet + more, at, end) == server_name_entry(packet, at, end),
    decreases end - at,
{
    let longer = packet + more;
    if at + 4 <= end {
        assert(longer[at] == packet[at]);
        assert(longer[at + 1] == packet[at + 1]);
        assert(longer[at + 2] == packet[at + 2]);
        assert(longer[at + 3] == packet[at + 3]);
        let stop = at + 4 + be16(packet[at + 2], packet[at + 3]);
        if stop <= end {
            longer_packet_has_the_entry(packet, more, stop, end);
        }
    }
}

/// Bytes behind a packet that names a host do not change the host.
pub proof fn longer_packet_names_the_host(packet: Seq<u8>, more: Seq<u8>)
    requires
        hello_host(packet) is Some,
    ensures
        hello_host(packet + more) == hello_host(packet),
{
    let longer = packet + more;
    let (start, end) = extensions_span(packet)->0;
    assert forall|i: int| 0 <= i < packet.len() implies longer[i] == packet[i] by {}
    assert(extensions_span(longer) == Some((start, end)));
    longer_packet_has_the_entry(packet, more, start, end);
    server_name_entry_fits(packet, start, end);
    let (from, to) = server_name_span(packet)->0;
    assert(longer.subrange(from, to) =~= packet.subrange(from, to));
}

/// Two bytes are the number that they write, written.
proof fn bytes_are_their_number(high: u8, low: u8)
    ensures
        written16(be16(high, low) as nat) == seq![high, low],
{
    assert(written16(be16(high, low) as nat) =~= seq![high, low]);
}

/// A part of a packet and what stands behind it are what stands from its beginning on.
proof fn part_and_rest(packet: Seq<u8>, at: int, part: Seq<u8>, more: Seq<u8>, rest: Seq<u8>)
    requires
        0 <= at,
        at + part.len() <= packet.len(),
        packet.subrange(at, at + part.len()) == part,
        more + rest == packet.skip(at + part.len()),
    ensures
        (part + more) + rest == packet.skip(at),
{
    assert(packet.skip(at) =~= packet.subrange(at, at + part.len()) + packet.skip(at + part.len()));
    assert((part + more) + rest =~= part + (more + rest));
}

proof fn found_host_was_written(list: Seq<u8>, at: int, end: int) -> (before: Seq<ServerName>)
    requires
        0 <= at,
        end <= list.len(),
        host_entry(list, at, end) is Some,
    ensures
        ({
            let (start, stop) = host_entry(list, at, end)->0;
            let name = list.subrange(start, stop);
            &&& forall|i: int| 0 <= i < before.len() ==> other_name(#[trigger] before[i])
            &&& at + 3 <= start <= stop <= end
            &&& name.len() < 65536
            &&& list.subrange(at, stop) == written_names(before) + (seq![0u8] + (written16(
                name.len(),
            ) + name))
        }),
    decreases end - at,
{
    let (start, stop) = host_entry(list, at, end)->0;
    let name = list.subrange(start, stop);
    let host = seq![0u8] + (written16(name.len()) + name);
    let length = be16(list[at + 1], list[at + 2]);
    bytes_are_their_number(list[at + 1], list[at + 2]);
    if list[at] == 0 {
        let before = Seq::<ServerName>::empty();
        assert(written_names(before) + host =~= host);
        assert(list.subrange(at, stop) =~= host);
        before
    } else {
        let next = at + 3 + length;
        let others = found_host_was_written(list, next, end);
        let first = ServerName { kind: list[at], name: list.subrange(at + 3, next) };
        let before = seq![first] + others;
        assert(before.drop_first() =~= others);
        assert forall|i: int| 0 <= i < before.len() implies other_name(#[trigger] before[i]) by {
            if i > 0 {
                assert(before[i] == others[i - 1]);
            }
        }
        let rest = written_names(others) + host;
        let head = seq![first.kind] + (written16(first.name.len()) + first.name);
        assert(written_names(before) + host =~= head + rest);
        assert(list.subrange(at, next) =~= head);
        assert(list.subrange(at, stop) =~= list.subrange(at, next) + list.subrange(next, stop));
        before
    }
}

/// A host that is read from a server name extension was written there: the extension is the length
/// of a list and that list, in which the host name stands behind entries of other types.
pub proof fn read_host_was_written(extension: Seq<u8>) -> (found: (
    Seq<ServerName>,
    Seq<u8>,
    Seq<u8>,
    Seq<u8>,
))
    requires
        extension_host(extension) is Some,
    ensures
        ({
            let (before, name, after, rest) = found;
            let host = seq![0u8] + (written16(name.len()) + name);
            let list = written_names(before) + host + after;
            &&& forall|i: int| 0 <= i < before.len() ==> other_name(#[trigger] before[i])
            &&& name.len() < 65536
            &&& list.len() < 65536
            &&& extension == written16(list.len()) + list + rest
            &&& extension_host(extension) == Some(ascii_lower(lossy_text(name)))
        }),
{
    let length = be16(extension[0], extension[1]);
    let end = 2 + length;
    let before = found_host_was_written(extension, 2, end);
    let (start, stop) = host_entry(extension, 2, end)->0;
    let name = extension.subrange(start, stop);
    let after = extension.subrange(stop, end);
    let rest = extension.skip(end);
    let host = seq![0u8] + (written16(name.len()) + name);
    let list = written_names(before) + host + after;
    assert(list =~= extension.subrange(2, end)) by {
        assert(extension.subrange(2, end) =~= extension.subrange(2, stop) + extension.subrange(
            stop,
            end,
        ));
    }
    bytes_are_their_number(extension[0], extension[1]);
    assert(extension =~= written16(list.len()) + list + rest);
    (before, name, after, rest)
}

proof fn found_server_name_was_written(packet: Seq<u8>, at: int, end: int) -> (before: Seq<
    Extension,
>)
    requires
        0 <= at,
        end <= packet.len(),
        server_name_entry(packet, at, end) is Some,
    ensures
        ({
            let (start, stop) = server_name_entry(packet, at, end)->0;
            let body = packet.subrange(start, stop);
            &&& forall|i: int| 0 <= i < before.len() ==> other_extension(#[trigger] before[i])
            &&& at + 4 <= start <= stop <= end
            &&& body.len() < 65536
            &&& packet.subrange(at, stop) == written_extensions(before) + (written16(0) + (
            written16(body.len()) + body))
        }),
    decreases end - at,
{
    let (start, stop) = server_name_entry(packet, at, end)->0;
    let body = packet.subrange(start, stop);
    let server = written16(0) + (written16(body.len()) + body);
    let kind = be16(packet[at], packet[at + 1]);
    let length = be16(packet[at + 2], packet[at + 3]);
    bytes_are_their_number(packet[at], packet[at + 1]);
    bytes_are_their_number(packet[at + 2], packet[at + 3]);
    if kind == 0 {
        let before = Seq::<Extension>::empty();
        assert(written_extensions(before) + server =~= server);
        assert(packet.subrange(at, stop) =~= server);
        before
    } else {
        let next = at + 4 + length;
        let others = found_server_name_was_written(packet, next, end);
        let first = Extension { kind: kind as nat, body: packet.subrange(at + 4, next) };
        let before = seq![first] + others;
        assert(before.drop_first() =~= others);
        assert forall|i: int| 0 <= i < before.len() implies other_extension(
            #[trigger] before[i],
        ) by {
            if i > 0 {
                assert(before[i] == others[i - 1]);
            }
        }
        let rest = written_extensions(others) + server;
        let head = written16(first.kind) + (written16(first.body.len()) + first.body);
        assert(written_extensions(before) + server =~= head + rest);
        assert(packet.subrange(at, next) =~= head);
        assert(packet.subrange(at, stop) =~= packet.subrange(at, next) + packet.subrange(
            next,
            stop,
        ));
        before
    }
}

/// A ClientHello taken apart: the record version, the lengths of record and message, what stands
/// before the extensions, the extensions before the server name, the server name, the extensions
/// behind it and what follows them.
pub struct HelloParts {
    pub version: Seq<u8>,
    pub record_len: nat,
    pub message_len: nat,
    pub hello: Hello,
    pub before: Seq<Extension>,
    pub server_name: Seq<u8>,
    pub after: Seq<u8>,
    pub rest: Seq<u8>,
}

/// The extensions of a ClientHello that was taken apart.
pub open spec fn parts_block(parts: HelloParts) -> Seq<u8> {
    written_extensions(parts.before) + (written16(0) + (written16(parts.server_name.len())
        + parts.server_name)) + parts.after
}

/// A ClientHello that was taken apart, as bytes.
pub open spec fn parts_packet(parts: HelloParts) -> Seq<u8> {
    framed_body(
        parts.version,
        parts.record_len,
        parts.message_len,
        written_body(parts.hello, parts_block(parts)),
    ) + parts.rest
}

/// Whether the parts are those of a ClientHello, with lengths that fit.
pub open spec fn parts_fit(parts: HelloParts) -> bool {
    &&& parts.version.len() == 2
    &&& parts.record_len < 65536
    &&& parts.message_len < 16777216
    &&& writable_hello(parts.hello)
    &&& forall|i: int|
        0 <= i < parts.before.len() ==> other_extension(#[trigger] parts.before[i])
    &&& parts_block(parts).len() < 65536
    &&& parts_packet(parts).len() >= 5 + parts.record_len
    &&& parts_packet(parts).len() >= 9 + parts.message_len
}

/// The body of a ClientHello whose extensions were found is what it was written from.
proof fn found_body_was_written(packet: Seq<u8>) -> (hello: Hello)
    requires
        extensions_span(packet) is Some,
    ensures
        ({
            let (start, end) = extensions_span(packet)->0;
            &&& writable_hello(hello)
            &&& start <= end <= packet.len()
            &&& end - start < 65536
            &&& written_body(hello, packet.subrange(start, end)) + packet.skip(end) == packet.skip(
                9,
            )
        }),
{
    let (start, end) = extensions_span(packet)->0;
    let session = 43int;
    let ciphers = session + 1 + packet[session];
    let compression = ciphers + 2 + be16(packet[ciphers], packet[ciphers + 1]);
    let extensions = compression + 1 + packet[compression];
    let block = packet.subrange(start, end);
    let rest = packet.skip(end);
    let hello = Hello {
        version: packet.subrange(9, 11),
        random: packet.subrange(11, 43),
        session: packet.subrange(44, ciphers),
        ciphers: packet.subrange(ciphers + 2, compression),
        compression: packet.subrange(compression + 1, extensions),
    };
    let b8 = written16(block.len()) + block;
    let b7 = hello.compression + b8;
    let b6 = seq![hello.compression.len() as u8] + b7;
    let b5 = hello.ciphers + b6;
    let b4 = written16(hello.ciphers.len()) + b5;
    let b3 = hello.session + b4;
    let b2 = seq![hello.session.len() as u8] + b3;
    let b1 = hello.random + b2;
    assert(block + rest =~= packet.skip(start));
    assert(b8 + rest == packet.skip(extensions)) by {
        bytes_are_their_number(packet[extensions], packet[extensions + 1]);
        assert(packet.subrange(extensions, extensions + 2) =~= written16(block.len()));
        part_and_rest(packet, extensions, written16(block.len()), block, rest);
    }
    part_and_rest(packet, compression + 1, hello.compression, b8, rest);
    assert(b6 + rest == packet.skip(compression)) by {
        let length = seq![hello.compression.len() as u8];
        assert(packet.subrange(compression, compression + 1) =~= length);
        part_and_rest(packet, compression, length, b7, rest);
    }
    part_and_rest(packet, ciphers + 2, hello.ciphers, b6, rest);
    assert(b4 + rest == packet.skip(ciphers)) by {
        bytes_are_their_number(packet[ciphers], packet[ciphers + 1]);
        assert(packet.subrange(ciphers, ciphers + 2) =~= written16(hello.ciphers.len()));
        part_and_rest(packet, ciphers, written16(hello.ciphers.len()), b5, rest);
    }
    part_and_rest(packet, 44, hello.session, b4, rest);
    assert(b2 + rest == packet.skip(43)) by {
        let length = seq![hello.session.len() as u8];
        assert(packet.subrange(43, 44) =~= length);
        part_and_rest(packet, 43, length, b3, rest);
    }
    part_and_rest(packet, 11, hello.random, b2, rest);
    part_and_rest(packet, 9, hello.version, b1, rest);
    hello
}

/// A packet that begins like a ClientHello is its frame around the body.
proof fn found_frame_was_written(packet: Seq<u8>, body: Seq<u8>, rest: Seq<u8>)
    requires
        packet.len() >= 9,
        packet[0] == 22,
        packet[5] == 1,
        body + rest == packet.skip(9),
    ensures
        packet == framed_body(
            packet.subrange(1, 3),
            be16(packet[3], packet[4]) as nat,
            be24(packet[6], packet[7], packet[8]) as nat,
            body,
        ) + rest,
{
    let version = packet.subrange(1, 3);
    let first = written16(be16(packet[3], packet[4]) as nat);
    let second = written24(be24(packet[6], packet[7], packet[8]) as nat);
    bytes_are_their_number(packet[3], packet[4]);
    assert(second =~= seq![packet[6], packet[7], packet[8]]);
    let a4 = second + body;
    let a3 = seq![1u8] + a4;
    let a2 = first + a3;
    let a1 = version + a2;
    assert(packet.subrange(6, 9) =~= second);
    part_and_rest(packet, 6, second, body, rest);
    assert(packet.subrange(5, 6) =~= seq![1u8]);
    part_and_rest(packet, 5, seq![1u8], a4, rest);
    assert(packet.subrange(3, 5) =~= first);
    part_and_rest(packet, 3, first, a3, rest);
    part_and_rest(packet, 1, version, a2, rest);
    assert(packet.subrange(0, 1) =~= seq![22u8]);
    part_and_rest(packet, 0, seq![22u8], a1, rest);
    assert(packet.skip(0) =~= packet);
}

/// A host that is read from a packet was written there: the packet is a record of type 22 with a
/// message of type 1, whose first server name extension names that host.
pub proof fn read_hello_was_written(packet: Seq<u8>) -> (parts: HelloParts)
    requires
        hello_host(packet) is Some,
    ensures
        parts_fit(parts),
        packet == parts_packet(parts),
        hello_host(packet) == extension_host(parts.server_name),
{
    let (start, end) = extensions_span(packet)->0;
    let (from, to) = server_name_entry(packet, start, end)->0;
    let hello = found_body_was_written(packet);
    let before = found_server_name_was_written(packet, start, end);
    let server_name = packet.subrange(from, to);
    let after = packet.subrange(to, end);
    let rest = packet.skip(end);
    let record_len = be16(packet[3], packet[4]) as nat;
    let message_len = be24(packet[6], packet[7], packet[8]) as nat;
    let version = packet.subrange(1, 3);
    let parts = HelloParts {
        version,
        record_len,
        message_len,
        hello,
        before,
        server_name,
        after,
        rest,
    };
    let block = parts_block(parts);
    assert(block =~= packet.subrange(start, end)) by {
        assert(packet.subrange(start, end) =~= packet.subrange(start, to) + packet.subrange(
            to,
            end,
        ));
    }
    found_frame_was_written(packet, written_body(hello, block), rest);
    assert(packet == parts_packet(parts));
    parts
}

/// A packet that does not begin with 22, or has no 1 behind five bytes, names no host.
pub proof fn other_record_names_no_host(packet: Seq<u8>)
    requires
        packet.len() < 9 || packet[0] != 22 || packet[5] != 1,
    ensures
        hello_host(packet) is None,
{
}

/// Taking the parts of a ClientHello together again gives the host that they name.
pub proof fn hello_parts_are_read(parts: HelloParts)
    requires
        parts_fit(parts),
    ensures
        hello_host(parts_packet(parts)) == extension_host(parts.server_name),
{
    framed_hello_is_read(
        parts.version,
        parts.record_len,
        parts.message_len,
        parts.hello,
        parts.before,
        parts.server_name,
        parts.after,
        parts.rest,
    );
}

} // verus!
