//! Names and questions of DNS messages.
use vstd::prelude::*;

use crate::bytes::{be16, lossy_text, read_text, read_u16};
use crate::text::{ascii_lower, texts, to_ascii_lower};

verus! {

/// A byte that begins a compression pointer in place of a label.
pub open spec fn is_pointer(byte: u8) -> bool {
    byte >= 0xc0
}

/// Where the compression pointer at `at` leads.
pub open spec fn pointer_target(packet: Seq<u8>, at: int) -> int {
    be16((packet[at] % 64) as u8, packet[at + 1])
}

/// Where the bytes of each label of the name at `at` stand, as start and end, in at most `steps`
/// steps: each label, each pointer and the end of the name is a step. `None` where the name leaves
/// the packet or takes more steps.
pub open spec fn name_spans(packet: Seq<u8>, at: int, steps: nat) -> Option<Seq<(int, int)>>
    decreases steps,
{
    if steps == 0 || at < 0 || at >= packet.len() {
        None
    } else if is_pointer(packet[at]) {
        if at + 1 < packet.len() {
            name_spans(packet, pointer_target(packet, at), (steps - 1) as nat)
        } else {
            None
        }
    } else if packet[at] == 0 {
        Some(seq![])
    } else {
        let start = at + 1;
        let end = start + packet[at];
        if end > packet.len() {
            None
        } else {
            match name_spans(packet, end, (steps - 1) as nat) {
                Some(rest) => Some(seq![(start, end)] + rest),
                None => None,
            }
        }
    }
}

/// The position behind the name at `at`: behind its end, or behind its first pointer.
pub open spec fn name_end(packet: Seq<u8>, at: int) -> int
    decreases
            (if at < packet.len() {
                packet.len() - at
            } else {
                0
            }),
{
    if at < 0 || at >= packet.len() {
        at
    } else if is_pointer(packet[at]) {
        at + 2
    } else if packet[at] == 0 {
        at + 1
    } else {
        name_end(packet, at + 1 + packet[at])
    }
}

/// Labels with a dot between each two.
pub open spec fn dotted(labels: Seq<Seq<char>>) -> Seq<char>
    decreases labels.len(),
{
    if labels.len() == 0 {
        seq![]
    } else if labels.len() == 1 {
        labels[0]
    } else {
        dotted(labels.drop_last()) + seq!['.'] + labels.last()
    }
}

/// The domain name that labels write: in ASCII lower case, with dots between the labels.
pub open spec fn domain_of(labels: Seq<Seq<u8>>) -> Seq<char> {
    ascii_lower(dotted(labels.map_values(|label: Seq<u8>| lossy_text(label))))
}

/// The bytes of the labels that stand at `spans`.
pub open spec fn labels_at(packet: Seq<u8>, spans: Seq<(int, int)>) -> Seq<Seq<u8>> {
    spans.map_values(|span: (int, int)| packet.subrange(span.0, span.1))
}

/// The name at `at` and the position behind it. A name may take one step more than the packet has
/// bytes, so that one that runs in a circle is no name.
pub open spec fn dns_name(packet: Seq<u8>, at: int) -> Option<(Seq<char>, int)> {
    match name_spans(packet, at, packet.len() + 1) {
        Some(spans) => Some((domain_of(labels_at(packet, spans)), name_end(packet, at))),
        None => None,
    }
}

/// The names of `count` questions from `at` on, up to the first that is not complete. The root,
/// whose name is empty, is left out.
pub open spec fn question_names(packet: Seq<u8>, at: int, count: nat) -> Seq<Seq<char>>
    decreases count,
{
    if count == 0 {
        seq![]
    } else {
        match dns_name(packet, at) {
            Some((name, end)) => if end + 4 > packet.len() {
                seq![]
            } else {
                let rest = question_names(packet, end + 4, (count - 1) as nat);
                if name.len() > 0 {
                    seq![name] + rest
                } else {
                    rest
                }
            },
            None => seq![],
        }
    }
}

/// The names that a DNS query asks for. A response asks for none.
pub open spec fn query_domains(packet: Seq<u8>) -> Seq<Seq<char>> {
    if packet.len() < 12 || packet[2] >= 128 {
        seq![]
    } else {
        question_names(packet, 12, be16(packet[4], packet[5]) as nat)
    }
}

/// The positions of a list of spans.
pub open spec fn positions(spans: Seq<(usize, usize)>) -> Seq<(int, int)> {
    spans.map_values(|span: (usize, usize)| (span.0 as int, span.1 as int))
}

/// The end of a name lies in the packet.
proof fn name_end_fits(packet: Seq<u8>, at: int, steps: nat)
    requires
        name_spans(packet, at, steps) is Some,
    ensures
        at < name_end(packet, at) <= packet.len(),
    decreases steps,
{
    if !is_pointer(packet[at]) && packet[at] != 0 {
        name_end_fits(packet, at + 1 + packet[at], (steps - 1) as nat);
    }
}

/// The spans of a name lie in the packet.
proof fn name_spans_fit(packet: Seq<u8>, at: int, steps: nat)
    requires
        name_spans(packet, at, steps) is Some,
    ensures
        forall|i: int|
            #![trigger name_spans(packet, at, steps)->0[i]]
            0 <= i < name_spans(packet, at, steps)->0.len() ==> {
                let span = name_spans(packet, at, steps)->0[i];
                0 <= span.0 < span.1 <= packet.len()
            },
    decreases steps,
{
    if is_pointer(packet[at]) {
        name_spans_fit(packet, pointer_target(packet, at), (steps - 1) as nat);
    } else if packet[at] != 0 {
        let end = at + 1 + packet[at];
        name_spans_fit(packet, end, (steps - 1) as nat);
        let rest = name_spans(packet, end, (steps - 1) as nat)->0;
        let spans = name_spans(packet, at, steps)->0;
        assert forall|i: int| #![trigger spans[i]] 0 <= i < spans.len() implies 0 <= spans[i].0
            < spans[i].1 <= packet.len() by {
            if i > 0 {
                assert(spans[i] == rest[i - 1]);
            }
        }
    }
}

/// Finds where the labels of the name at `offset` stand, and the position behind the name.
pub fn dns_name_spans(packet: &[u8], offset: usize) -> (found: Option<(Vec<(usize, usize)>, usize)>)
    ensures
        match found {
            Some((spans, end)) => {
                &&& name_spans(packet@, offset as int, packet@.len() + 1) == Some(
                    positions(spans@),
                )
                &&& end == name_end(packet@, offset as int)
            },
            None => name_spans(packet@, offset as int, packet@.len() + 1) is None,
        },
{
    let mut spans: Vec<(usize, usize)> = Vec::new();
    let mut at: usize = offset;
    let mut jumped: bool = false;
    let mut end: usize = offset;
    let mut budget: usize = packet.len();
    assert(positions(spans@) =~= Seq::<(int, int)>::empty());
    proof {
        if let Some(all) = name_spans(packet@, offset as int, packet@.len() + 1) {
            assert(positions(spans@) + all =~= all);
        }
    }
    loop
        invariant
            budget <= packet@.len(),
            match name_spans(packet@, at as int, (budget + 1) as nat) {
                Some(rest) => name_spans(packet@, offset as int, packet@.len() + 1) == Some(
                    positions(spans@) + rest,
                ),
                None => name_spans(packet@, offset as int, packet@.len() + 1) is None,
            },
            !jumped ==> name_end(packet@, offset as int) == name_end(packet@, at as int),
            jumped ==> name_end(packet@, offset as int) == end,
        decreases budget,
    {
        if at >= packet.len() {
            return None;
        }
        let length: u8 = packet[at];
        if length >= 0xc0 {
            if packet.len() - at < 2 {
                return None;
            }
            if !jumped {
                end = at + 2;
            }
            at = (length % 64) as usize * 256 + packet[at + 1] as usize;
            jumped = true;
        } else if length == 0 {
            if !jumped {
                end = at + 1;
            }
            assert(positions(spans@) + Seq::<(int, int)>::empty() =~= positions(spans@));
            return Some((spans, end));
        } else {
            let start: usize = at + 1;
            if packet.len() - start < length as usize {
                return None;
            }
            let stop: usize = start + length as usize;
            let ghost before = positions(spans@);
            spans.push((start, stop));
            proof {
                assert(positions(spans@) =~= before.push((start as int, stop as int)));
                if let Some(rest) = name_spans(packet@, stop as int, budget as nat) {
                    assert(positions(spans@) + rest =~= before + (seq![(start as int, stop as int)]
                        + rest));
                }
            }
            at = stop;
        }
        if budget == 0 {
            assert(name_spans(packet@, at as int, 0) is None);
            return None;
        }
        budget -= 1;
    }
}

/// Joins labels with dots and puts the name in ASCII lower case.
pub fn join_name(labels: &Vec<String>) -> (name: String)
    ensures
        name@ == ascii_lower(dotted(texts(labels@))),
{
    let mut joined = String::new();
    let mut i: usize = 0;
    while i < labels.len()
        invariant
            i <= labels@.len(),
            joined@ == dotted(texts(labels@).take(i as int)),
        decreases labels@.len() - i,
    {
        if i > 0 {
            joined.push('.');
        }
        joined.append(labels[i].as_str());
        i += 1;
        let ghost list = texts(labels@);
        assert(list.take(i as int).drop_last() =~= list.take(i - 1));
        assert(list.take(i as int).last() == list[i - 1]);
        assert(list[i - 1] == labels@[i - 1]@);
        if i == 1 {
            assert(joined@ =~= list.take(1)[0]);
        } else {
            assert(joined@ =~= dotted(list.take(i - 1)) + seq!['.'] + list[i - 1]);
        }
    }
    assert(texts(labels@).take(i as int) =~= texts(labels@));
    to_ascii_lower(joined.as_str())
}

/// Reads the name at `offset` and gives the position behind it.
pub fn parse_dns_name(packet: &[u8], offset: usize) -> (found: Option<(String, usize)>)
    ensures
        match found {
            Some((name, end)) => dns_name(packet@, offset as int) == Some((name@, end as int)),
            None => dns_name(packet@, offset as int) is None,
        },
        found is Some ==> offset < (found->0).1 <= packet@.len(),
{
    match dns_name_spans(packet, offset) {
        Some((spans, end)) => {
            let mut labels: Vec<String> = Vec::new();
            let mut i: usize = 0;
            proof {
                name_spans_fit(packet@, offset as int, packet@.len() + 1);
                name_end_fits(packet@, offset as int, packet@.len() + 1);
            }
            let ghost all = labels_at(packet@, positions(spans@)).map_values(
                |label: Seq<u8>| lossy_text(label),
            );
            assert forall|j: int| #![trigger spans@[j]] 0 <= j < spans@.len() implies spans@[j].0
                < spans@[j].1 <= packet@.len() by {
                assert(positions(spans@)[j] == (spans@[j].0 as int, spans@[j].1 as int));
            }
            while i < spans.len()
                invariant
                    i <= spans@.len(),
                    forall|j: int|
                        #![trigger spans@[j]]
                        0 <= j < spans@.len() ==> spans@[j].0 < spans@[j].1 <= packet@.len(),
                    all == labels_at(packet@, positions(spans@)).map_values(
                        |label: Seq<u8>| lossy_text(label),
                    ),
                    texts(labels@) == all.take(i as int),
                decreases spans@.len() - i,
            {
                let (start, stop) = spans[i];
                let ghost before = labels@;
                labels.push(read_text(&packet[start..stop]));
                i += 1;
                assert(texts(labels@) =~= texts(before).push(all[i - 1]));
                assert(all.take(i as int) =~= all.take(i - 1).push(all[i - 1]));
            }
            assert(all.take(i as int) =~= all);
            Some((join_name(&labels), end))
        },
        None => None,
    }
}

/// Reads the names that a DNS query asks for.
pub fn parse_dns_query_domains(packet: &[u8]) -> (domains: Vec<String>)
    ensures
        texts(domains@) == query_domains(packet@),
{
    let mut domains: Vec<String> = Vec::new();
    assert(texts(domains@) =~= Seq::<Seq<char>>::empty());
    if packet.len() < 12 || packet[2] >= 128 {
        return domains;
    }
    let mut left: u16 = read_u16(packet, 4);
    let mut offset: usize = 12;
    assert(texts(domains@) + question_names(packet@, 12, left as nat) =~= question_names(
        packet@,
        12,
        left as nat,
    ));
    while left > 0
        invariant
            packet@.len() >= 12,
            texts(domains@) + question_names(packet@, offset as int, left as nat) == query_domains(
                packet@,
            ),
        decreases left,
    {
        match parse_dns_name(packet, offset) {
            Some((domain, end)) => {
                if packet.len() - end < 4 {
                    assert(texts(domains@) + Seq::<Seq<char>>::empty() =~= texts(domains@));
                    return domains;
                }
                let ghost before = texts(domains@);
                let ghost rest = question_names(packet@, end + 4, (left - 1) as nat);
                if !domain.as_str().is_empty() {
                    let ghost name = domain@;
                    domains.push(domain);
                    assert(texts(domains@) =~= before.push(name));
                    assert(texts(domains@) + rest =~= before + (seq![name] + rest));
                }
                offset = end + 4;
                left -= 1;
            },
            None => {
                assert(texts(domains@) + Seq::<Seq<char>>::empty() =~= texts(domains@));
                return domains;
            },
        }
    }
    assert(texts(domains@) + Seq::<Seq<char>>::empty() =~= texts(domains@));
    domains
}

} // verus!
