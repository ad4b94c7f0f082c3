//! Big-endian numbers in packets, and bytes read as text.
use vstd::prelude::*;
use vstd::utf8::{decode_utf8, encode_utf8, valid_utf8};

verus! {

/// The number that two bytes write, high byte first.
pub open spec fn be16(high: u8, low: u8) -> int {
    high * 256 + low
}

/// The number that three bytes write, high byte first.
pub open spec fn be24(high: u8, middle: u8, low: u8) -> int {
    high * 65536 + middle * 256 + low
}

/// Whether `part` stands in `packet` at `at`.
pub open spec fn stands_in(packet: Seq<u8>, part: Seq<u8>, at: int) -> bool {
    0 <= at && at + part.len() <= packet.len() && packet.subrange(at, at + part.len()) == part
}

/// Reads the two bytes at `at` as a number.
pub fn read_u16(bytes: &[u8], at: usize) -> (number: u16)
    requires
        at + 1 < bytes@.len(),
    ensures
        number == be16(bytes@[at as int], bytes@[at + 1]),
{
    bytes[at] as u16 * 256 + bytes[at + 1] as u16
}

/// Reads three bytes as a number. There must be three of them.
pub fn read_u24(bytes: &[u8]) -> (number: Option<usize>)
    ensures
        match number {
            Some(value) => bytes@.len() == 3 && value == be24(bytes@[0], bytes@[1], bytes@[2]),
            None => bytes@.len() != 3,
        },
{
    if bytes.len() != 3 {
        return None;
    }
    Some(bytes[0] as usize * 65536 + bytes[1] as usize * 256 + bytes[2] as usize)
}

/// What `String::from_utf8_lossy` makes of bytes that are not UTF-8.
pub uninterp spec fn repaired_text(bytes: Seq<u8>) -> Seq<char>;

/// Bytes read as text: as UTF-8 where they are UTF-8, repaired where they are not.
pub open spec fn lossy_text(bytes: Seq<u8>) -> Seq<char> {
    if valid_utf8(bytes) {
        decode_utf8(bytes)
    } else {
        repaired_text(bytes)
    }
}

/// `String::from_utf8_lossy`: valid UTF-8 is decoded as it stands. Of other bytes it replaces what
/// is not UTF-8 with U+FFFD; the outcome depends on the bytes alone, and how many of them one U+FFFD
/// stands for is not said here.
#[verifier::external_body]
fn from_utf8_lossy(bytes: &[u8]) -> (text: String)
    ensures
        valid_utf8(bytes@) ==> text@ == decode_utf8(bytes@),
        !valid_utf8(bytes@) ==> text@ == repaired_text(bytes@) && text@.contains('\u{fffd}'),
{
    String::from_utf8_lossy(bytes).into_owned()
}

/// Reads `bytes` as text.
pub fn read_text(bytes: &[u8]) -> (text: String)
    ensures
        text@ == lossy_text(bytes@),
        !valid_utf8(bytes@) ==> text@.contains('\u{fffd}'),
{
    from_utf8_lossy(bytes)
}

/// ASCII bytes read as the characters of the same numbers.
pub proof fn ascii_reads_as_itself(bytes: Seq<u8>)
    requires
        forall|i: int| 0 <= i < bytes.len() ==> bytes[i] < 128,
    ensures
        valid_utf8(bytes),
        lossy_text(bytes) == bytes.map_values(|b: u8| b as char),
    decreases bytes.len(),
{
    let expected = bytes.map_values(|b: u8| b as char);
    if bytes.len() == 0 {
        assert(decode_utf8(bytes) =~= expected);
    } else {
        let first = bytes[0];
        let rest = vstd::utf8::pop_first_scalar(bytes);
        assert(first & 0x7f == first) by (bit_vector)
            requires
                first < 128,
        ;
        assert(rest =~= bytes.drop_first());
        ascii_reads_as_itself(rest);
        assert(vstd::utf8::decode_first_scalar(bytes) == first as u32);
        assert(expected =~= seq![first as char] + rest.map_values(|b: u8| b as char));
    }
}

/// The two bytes that write a number below 65536.
pub open spec fn written16(number: nat) -> Seq<u8> {
    seq![(number / 256) as u8, (number % 256) as u8]
}

/// The three bytes that write a number below 16777216.
pub open spec fn written24(number: nat) -> Seq<u8> {
    seq![(number / 65536) as u8, (number / 256 % 256) as u8, (number % 256) as u8]
}

/// Reading two bytes gives back the number that they write.
pub proof fn written16_is_read(number: nat)
    requires
        number < 65536,
    ensures
        be16(written16(number)[0], written16(number)[1]) == number,
{
}

/// Reading three bytes gives back the number that they write.
pub proof fn written24_is_read(number: nat)
    requires
        number < 16777216,
    ensures
        be24(written24(number)[0], written24(number)[1], written24(number)[2]) == number,
{
}

/// Where two parts stand one behind the other, each of them stands.
pub proof fn parts_stand(packet: Seq<u8>, first: Seq<u8>, second: Seq<u8>, at: int)
    requires
        stands_in(packet, first + second, at),
    ensures
        stands_in(packet, first, at),
        stands_in(packet, second, at + first.len()),
{
    let both = first + second;
    let range = packet.subrange(at, at + both.len());
    assert forall|i: int| 0 <= i < first.len() implies packet[at + i] == first[i] by {
        assert(range[i] == both[i]);
    }
    assert(packet.subrange(at, at + first.len()) =~= first);
    let next = at + first.len();
    assert forall|i: int| 0 <= i < second.len() implies packet[next + i] == second[i] by {
        assert(range[first.len() + i] == both[first.len() + i]);
    }
    assert(packet.subrange(next, next + second.len()) =~= second);
}

/// The bytes of a part that stands in a packet.
pub proof fn part_bytes(packet: Seq<u8>, part: Seq<u8>, at: int)
    requires
        stands_in(packet, part, at),
    ensures
        forall|i: int| #![trigger part[i]] 0 <= i < part.len() ==> packet[at + i] == part[i],
{
    let range = packet.subrange(at, at + part.len());
    assert forall|i: int| #![trigger part[i]] 0 <= i < part.len() implies packet[at + i] == part[i] by {
        assert(range[i] == part[i]);
    }
}

/// Bytes that are UTF-8 are read as the text that is written as those bytes, and others as the
/// repaired text.
pub proof fn valid_text_is_written_back(bytes: Seq<u8>)
    ensures
        valid_utf8(bytes) ==> encode_utf8(lossy_text(bytes)) == bytes,
        !valid_utf8(bytes) ==> lossy_text(bytes) == repaired_text(bytes),
{
    if valid_utf8(bytes) {
        vstd::utf8::decode_utf8_encode_utf8(bytes);
    }
}

} // verus!
