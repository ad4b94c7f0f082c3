//! Names and queries written as bytes, and what reading them gives back.
use vstd::prelude::*;

use crate::bytes::{ascii_reads_as_itself, be16, lossy_text, stands_in};
use crate::dns::{
    dns_name, domain_of, dotted, is_pointer, labels_at, name_end, name_spans, pointer_target,
    query_domains, question_names,
};
use crate::text::{ascii_lower, lower_is_idempotent};

verus! {

/// A label that can be written behind its length: neither empty nor so long that its length would
/// be read as a pointer.
pub open spec fn writable(label: Seq<u8>) -> bool {
    1 <= label.len() < 0xc0
}

/// A name as bytes: each label behind its length, then a zero.
pub open spec fn written_name(labels: Seq<Seq<u8>>) -> Seq<u8>
    decreases labels.len(),
{
    if labels.len() == 0 {
        seq![0u8]
    } else {
        seq![labels[0].len() as u8] + labels[0] + written_name(labels.drop_first())
    }
}

/// A question: the labels of its name, and its type and class as four bytes.
pub struct Question {
    pub labels: Seq<Seq<u8>>,
    pub kind: Seq<u8>,
}

/// A question that can be written.
pub open spec fn askable(question: Question) -> bool {
    &&& question.kind.len() == 4
    &&& forall|i: int| 0 <= i < question.labels.len() ==> writable(#[trigger] question.labels[i])
}

/// Questions as bytes: each name, then its type and class.
pub open spec fn written_questions(questions: Seq<Question>) -> Seq<u8>
    decreases questions.len(),
{
    if questions.len() == 0 {
        seq![]
    } else {
        written_name(questions[0].labels) + questions[0].kind + written_questions(
            questions.drop_first(),
        )
    }
}

/// The domains that questions ask for, without the root.
pub open spec fn asked_domains(questions: Seq<Question>) -> Seq<Seq<char>>
    decreases questions.len(),
{
    if questions.len() == 0 {
        seq![]
    } else {
        let name = domain_of(questions[0].labels);
        let rest = asked_domains(questions.drop_first());
        if name.len() > 0 {
            seq![name] + rest
        } else {
            rest
        }
    }
}

/// A name takes more bytes than it has labels.
proof fn written_name_is_longer(labels: Seq<Seq<u8>>)
    ensures
        written_name(labels).len() > labels.len(),
    decreases labels.len(),
{
    if labels.len() > 0 {
        written_name_is_longer(labels.drop_first());
    }
}

/// The spans of a written name are those of its labels, and its end is found.
proof fn written_name_spans(packet: Seq<u8>, at: int, labels: Seq<Seq<u8>>, steps: nat)
    requires
        stands_in(packet, written_name(labels), at),
        forall|i: int| 0 <= i < labels.len() ==> writable(#[trigger] labels[i]),
        steps > labels.len(),
    ensures
        name_spans(packet, at, steps) is Some,
        labels_at(packet, name_spans(packet, at, steps)->0) == labels,
        name_end(packet, at) == at + written_name(labels).len(),
    decreases labels.len(),
{
    let written = written_name(labels);
    assert(packet[at] == packet.subrange(at, at + written.len())[0]);
    assert(packet[at] == written[0]);
    if labels.len() == 0 {
        assert(labels_at(packet, name_spans(packet, at, steps)->0) =~= labels);
    } else {
        let first = labels[0];
        let others = labels.drop_first();
        let tail = written_name(others);
        let start = at + 1;
        let end = start + first.len();
        assert(writable(labels[0]));
        assert(packet[at] == first.len());
        assert forall|i: int| 0 <= i < first.len() implies packet[start + i] == first[i] by {
            assert(packet.subrange(at, at + written.len())[1 + i] == written[1 + i]);
        }
        assert(packet.subrange(start, end) =~= first);
        assert forall|i: int| 0 <= i < tail.len() implies packet[end + i] == tail[i] by {
            assert(packet.subrange(at, at + written.len())[1 + first.len() + i] == written[1
                + first.len() + i]);
        }
        assert(packet.subrange(end, end + tail.len()) =~= tail);
        assert forall|i: int| 0 <= i < others.len() implies writable(#[trigger] others[i]) by {
            assert(others[i] == labels[i + 1]);
        }
        written_name_spans(packet, end, others, (steps - 1) as nat);
        let rest = name_spans(packet, end, (steps - 1) as nat)->0;
        assert(name_spans(packet, at, steps) == Some(seq![(start, end)] + rest));
        assert(labels_at(packet, seq![(start, end)] + rest) =~= seq![first] + labels_at(
            packet,
            rest,
        ));
        assert(seq![first] + others =~= labels);
    }
}

/// Reading a written name gives the domain of its labels and the position behind it, wherever the
/// name stands in the packet.
pub proof fn written_name_is_read(packet: Seq<u8>, at: int, labels: Seq<Seq<u8>>)
    requires
        stands_in(packet, written_name(labels), at),
        forall|i: int| 0 <= i < labels.len() ==> writable(#[trigger] labels[i]),
    ensures
        dns_name(packet, at) == Some((domain_of(labels), at + written_name(labels).len())),
{
    written_name_is_longer(labels);
    written_name_spans(packet, at, labels, packet.len() + 1);
}

/// A compression pointer to a written name gives the domain of that name, and the position behind
/// the pointer.
pub proof fn pointer_is_followed(packet: Seq<u8>, at: int, labels: Seq<Seq<u8>>)
    requires
        0 <= at,
        at + 1 < packet.len(),
        packet[at] >= 0xc0,
        stands_in(
            packet,
            written_name(labels),
            (packet[at] - 0xc0) * 256 + packet[at + 1],
        ),
        forall|i: int| 0 <= i < labels.len() ==> writable(#[trigger] labels[i]),
    ensures
        dns_name(packet, at) == Some((domain_of(labels), at + 2)),
{
    written_name_is_longer(labels);
    written_name_spans(packet, pointer_target(packet, at), labels, packet.len());
}

/// Whether each step from an offset of `offsets` stays in them or leaves the packet, and none is
/// the end of a name.
pub open spec fn runs_in(packet: Seq<u8>, offsets: Set<int>) -> bool {
    forall|at: int|
        #![trigger offsets.contains(at)]
        offsets.contains(at) && 0 <= at < packet.len() ==> if packet[at] >= 0xc0 {
            at + 1 < packet.len() ==> offsets.contains(
                (packet[at] - 0xc0) * 256 + packet[at + 1],
            )
        } else {
            packet[at] != 0 && (at + 1 + packet[at] <= packet.len() ==> offsets.contains(
                at + 1 + packet[at],
            ))
        }
}

proof fn circle_has_no_spans(packet: Seq<u8>, at: int, offsets: Set<int>, steps: nat)
    requires
        offsets.contains(at),
        runs_in(packet, offsets),
    ensures
        name_spans(packet, at, steps) is None,
    decreases steps,
{
    if steps > 0 && 0 <= at < packet.len() {
        if is_pointer(packet[at]) {
            if at + 1 < packet.len() {
                circle_has_no_spans(
                    packet,
                    pointer_target(packet, at),
                    offsets,
                    (steps - 1) as nat,
                );
            }
        } else if at + 1 + packet[at] <= packet.len() {
            circle_has_no_spans(packet, at + 1 + packet[at], offsets, (steps - 1) as nat);
        }
    }
}

/// A name that never ends, because its labels and pointers run in a circle, is no name.
pub proof fn circle_is_no_name(packet: Seq<u8>, at: int, offsets: Set<int>)
    requires
        offsets.contains(at),
        runs_in(packet, offsets),
    ensures
        dns_name(packet, at) is None,
{
    circle_has_no_spans(packet, at, offsets, packet.len() + 1);
}

/// Where a name goes on from `at`: at the target of a pointer, or behind a label. `None` where it
/// ends or leaves the packet.
pub open spec fn next_offset(packet: Seq<u8>, at: int) -> Option<int> {
    if at < 0 || at >= packet.len() || packet[at] == 0 {
        None
    } else if packet[at] >= 0xc0 {
        if at + 1 < packet.len() {
            Some((packet[at] - 0xc0) * 256 + packet[at + 1])
        } else {
            None
        }
    } else if at + 1 + packet[at] <= packet.len() {
        Some(at + 1 + packet[at])
    } else {
        None
    }
}

/// Where a name that begins at `at` is after so many steps.
pub open spec fn offset_after(packet: Seq<u8>, at: int, steps: nat) -> Option<int>
    decreases steps,
{
    if steps == 0 {
        Some(at)
    } else {
        match next_offset(packet, at) {
            Some(next) => offset_after(packet, next, (steps - 1) as nat),
            None => None,
        }
    }
}

/// Whether a name that is at `at` leaves the packet there: it neither goes on nor ends.
pub open spec fn leaves(packet: Seq<u8>, at: int) -> bool {
    next_offset(packet, at) is None && !(0 <= at < packet.len() && packet[at] == 0)
}

/// Whether a name that begins at `at` leaves the packet.
pub open spec fn leaves_in_time(packet: Seq<u8>, at: int) -> bool {
    exists|steps: nat|
        (#[trigger] offset_after(packet, at, steps)) is Some && leaves(
            packet,
            offset_after(packet, at, steps)->0,
        )
}

/// Whether a name that begins at `at` comes back to an offset where it was.
pub open spec fn comes_back(packet: Seq<u8>, at: int) -> bool {
    exists|first: nat, second: nat|
        first < second && (#[trigger] offset_after(packet, at, first)) is Some && offset_after(
            packet,
            at,
            first,
        ) == #[trigger] offset_after(packet, at, second)
}

/// A name without an end in so many steps leaves the packet, or stays in it for all of them.
proof fn endless_name_stays(packet: Seq<u8>, at: int, steps: nat)
    requires
        name_spans(packet, at, steps) is None,
    ensures
        leaves_in_time(packet, at) || forall|n: nat|
            n < steps ==> (#[trigger] offset_after(packet, at, n)) is Some && 0 <= offset_after(
                packet,
                at,
                n,
            )->0 < packet.len(),
    decreases steps,
{
    if steps > 0 {
        assert(offset_after(packet, at, 0) == Some(at));
        if !leaves(packet, at) {
            let next = next_offset(packet, at)->0;
            endless_name_stays(packet, next, (steps - 1) as nat);
            if leaves_in_time(packet, next) {
                let n = choose|n: nat|
                    (#[trigger] offset_after(packet, next, n)) is Some && leaves(
                        packet,
                        offset_after(packet, next, n)->0,
                    );
                assert(offset_after(packet, at, n + 1) == offset_after(packet, next, n));
            } else {
                assert forall|n: nat| n < steps implies (#[trigger] offset_after(
                    packet,
                    at,
                    n,
                )) is Some && 0 <= offset_after(packet, at, n)->0 < packet.len() by {
                    if n > 0 {
                        assert(offset_after(packet, at, n) == offset_after(
                            packet,
                            next,
                            (n - 1) as nat,
                        ));
                    }
                }
            }
        }
    }
}

/// A name is refused only if it leaves the packet or comes back to where it was.
pub proof fn refused_name_leaves_or_comes_back(packet: Seq<u8>, at: int)
    requires
        dns_name(packet, at) is None,
    ensures
        leaves_in_time(packet, at) || comes_back(packet, at),
{
    let count = packet.len() + 1;
    endless_name_stays(packet, at, count);
    if !leaves_in_time(packet, at) {
        let offsets = Seq::new(count, |n: int| offset_after(packet, at, n as nat)->0);
        let inside = vstd::set_lib::set_int_range(0, packet.len() as int);
        assert forall|n: int| 0 <= n < count implies 0 <= #[trigger] offsets[n] < packet.len() by {
            assert(offset_after(packet, at, n as nat) is Some);
        }
        vstd::set_lib::lemma_int_range(0, packet.len() as int);
        assert(offsets.to_set().subset_of(inside));
        vstd::set_lib::lemma_len_subset(offsets.to_set(), inside);
        if offsets.no_duplicates() {
            offsets.unique_seq_to_set();
        }
        let (i, j) = choose|i: int, j: int|
            0 <= i < offsets.len() && 0 <= j < offsets.len() && i != j && offsets[i] == offsets[j];
        let first = if i < j {
            i
        } else {
            j
        };
        let second = if i < j {
            j
        } else {
            i
        };
        assert(offset_after(packet, at, first as nat) is Some);
        assert(offset_after(packet, at, second as nat) is Some);
        assert(offsets[first] == offsets[second]);
        assert(comes_back(packet, at));
    }
}

/// Going on from where a name is after some steps is going on from its beginning for all of them.
proof fn offsets_follow_each_other(packet: Seq<u8>, at: int, first: nat, second: nat)
    requires
        offset_after(packet, at, first) is Some,
    ensures
        offset_after(packet, at, first + second) == offset_after(
            packet,
            offset_after(packet, at, first)->0,
            second,
        ),
    decreases first,
{
    if first > 0 {
        let next = next_offset(packet, at)->0;
        offsets_follow_each_other(packet, next, (first - 1) as nat, second);
        assert((first + second - 1) as nat == (first - 1) as nat + second);
    }
}

/// A name that ends in so many steps goes no further, and does not leave the packet.
proof fn ended_name_stays(packet: Seq<u8>, at: int, steps: nat, n: nat)
    requires
        name_spans(packet, at, steps) is Some,
        offset_after(packet, at, n) is Some,
    ensures
        n < steps,
        !leaves(packet, offset_after(packet, at, n)->0),
    decreases n,
{
    if n > 0 {
        let next = next_offset(packet, at)->0;
        ended_name_stays(packet, next, (steps - 1) as nat, (n - 1) as nat);
    }
}

/// A name that comes back to where it was does so again and again.
proof fn circle_goes_on(packet: Seq<u8>, at: int, period: nat, rounds: nat)
    requires
        offset_after(packet, at, period) == Some(at),
    ensures
        offset_after(packet, at, rounds * period) == Some(at),
    decreases rounds,
{
    if rounds == 0 {
        assert(rounds * period == 0) by (nonlinear_arith)
            requires
                rounds == 0,
        ;
    } else {
        let fewer = (rounds - 1) as nat;
        circle_goes_on(packet, at, period, fewer);
        offsets_follow_each_other(packet, at, period, fewer * period);
        assert(rounds * period == period + fewer * period) by (nonlinear_arith)
            requires
                rounds == fewer + 1,
        ;
    }
}

/// A name that ends neither leaves the packet nor comes back to where it was.
proof fn ended_name_neither_leaves_nor_comes_back(packet: Seq<u8>, at: int, count: nat)
    requires
        name_spans(packet, at, count) is Some,
    ensures
        !leaves_in_time(packet, at),
        !comes_back(packet, at),
{
    if leaves_in_time(packet, at) {
        let steps = choose|steps: nat|
            (#[trigger] offset_after(packet, at, steps)) is Some && leaves(
                packet,
                offset_after(packet, at, steps)->0,
            );
        ended_name_stays(packet, at, count, steps);
    }
    if comes_back(packet, at) {
        let (first, second) = choose|first: nat, second: nat|
            first < second && (#[trigger] offset_after(packet, at, first)) is Some && offset_after(
                packet,
                at,
                first,
            ) == #[trigger] offset_after(packet, at, second);
        let there = offset_after(packet, at, first)->0;
        let period = (second - first) as nat;
        offsets_follow_each_other(packet, at, first, period);
        circle_goes_on(packet, there, period, count);
        offsets_follow_each_other(packet, at, first, count * period);
        ended_name_stays(packet, at, count, first + count * period);
        assert(count * period >= count) by (nonlinear_arith)
            requires
                period >= 1,
        ;
    }
}

/// A name that leaves the packet or comes back to where it was is refused.
pub proof fn name_that_leaves_or_comes_back_is_refused(packet: Seq<u8>, at: int)
    requires
        leaves_in_time(packet, at) || comes_back(packet, at),
    ensures
        dns_name(packet, at) is None,
{
    if name_spans(packet, at, packet.len() + 1) is Some {
        ended_name_neither_leaves_nor_comes_back(packet, at, packet.len() + 1);
    }
}

proof fn written_questions_are_read(packet: Seq<u8>, at: int, questions: Seq<Question>)
    requires
        stands_in(packet, written_questions(questions), at),
        forall|i: int| 0 <= i < questions.len() ==> askable(#[trigger] questions[i]),
    ensures
        question_names(packet, at, questions.len()) == asked_domains(questions),
    decreases questions.len(),
{
    if questions.len() > 0 {
        let written = written_questions(questions);
        let first = questions[0];
        let others = questions.drop_first();
        let name = written_name(first.labels);
        let tail = written_questions(others);
        let end = at + name.len();
        assert(askable(questions[0]));
        assert(written =~= name + first.kind + tail);
        assert forall|i: int| 0 <= i < name.len() implies packet[at + i] == name[i] by {
            assert(packet.subrange(at, at + written.len())[i] == written[i]);
        }
        assert(packet.subrange(at, end) =~= name);
        assert forall|i: int| 0 <= i < tail.len() implies packet[end + 4 + i] == tail[i] by {
            assert(packet.subrange(at, at + written.len())[name.len() + 4 + i] == written[name.len()
                + 4 + i]);
        }
        assert(packet.subrange(end + 4, end + 4 + tail.len()) =~= tail);
        assert forall|i: int| 0 <= i < others.len() implies askable(#[trigger] others[i]) by {
            assert(others[i] == questions[i + 1]);
        }
        written_name_is_read(packet, at, first.labels);
        written_questions_are_read(packet, end + 4, others);
    }
}

/// Reading a written query gives the domains that its questions ask for, in their order. The
/// header is twelve bytes; it says that the message is a query and how many questions follow.
/// Whatever follows the questions does not matter.
pub proof fn written_query_is_read(header: Seq<u8>, questions: Seq<Question>, rest: Seq<u8>)
    requires
        header.len() == 12,
        header[2] < 128,
        be16(header[4], header[5]) == questions.len(),
        forall|i: int| 0 <= i < questions.len() ==> askable(#[trigger] questions[i]),
    ensures
        query_domains(header + written_questions(questions) + rest) == asked_domains(questions),
{
    let written = written_questions(questions);
    let packet = header + written + rest;
    assert(packet.subrange(12, (12 + written.len()) as int) =~= written);
    written_questions_are_read(packet, 12, questions);
}

proof fn longer_packet_has_the_name(
    packet: Seq<u8>,
    more: Seq<u8>,
    at: int,
    steps: nat,
    longer_steps: nat,
)
    requires
        name_spans(packet, at, steps) is Some,
        steps <= longer_steps,
    ensures
        name_spans(packet + more, at, longer_steps) == name_spans(packet, at, steps),
        labels_at(packet + more, name_spans(packet, at, steps)->0) == labels_at(
            packet,
            name_spans(packet, at, steps)->0,
        ),
        name_end(packet + more, at) == name_end(packet, at),
    decreases steps,
{
    let longer = packet + more;
    assert(longer[at] == packet[at]);
    if is_pointer(packet[at]) {
        assert(longer[at + 1] == packet[at + 1]);
        longer_packet_has_the_name(
            packet,
            more,
            pointer_target(packet, at),
            (steps - 1) as nat,
            (longer_steps - 1) as nat,
        );
    } else if packet[at] == 0 {
        assert(labels_at(longer, name_spans(packet, at, steps)->0) =~= labels_at(
            packet,
            name_spans(packet, at, steps)->0,
        ));
    } else {
        let start = at + 1;
        let end = start + packet[at];
        longer_packet_has_the_name(
            packet,
            more,
            end,
            (steps - 1) as nat,
            (longer_steps - 1) as nat,
        );
        let rest = name_spans(packet, end, (steps - 1) as nat)->0;
        let spans = seq![(start, end)] + rest;
        assert(longer.subrange(start, end) =~= packet.subrange(start, end));
        assert(labels_at(longer, spans) =~= seq![longer.subrange(start, end)] + labels_at(
            longer,
            rest,
        ));
        assert(labels_at(packet, spans) =~= seq![packet.subrange(start, end)] + labels_at(
            packet,
            rest,
        ));
    }
}

proof fn longer_packet_has_the_questions(packet: Seq<u8>, more: Seq<u8>, at: int, count: nat)
    ensures
        question_names(packet, at, count).is_prefix_of(question_names(packet + more, at, count)),
    decreases count,
{
    let names = question_names(packet, at, count);
    let longer_names = question_names(packet + more, at, count);
    if count > 0 && dns_name(packet, at) is Some {
        longer_packet_has_the_name(
            packet,
            more,
            at,
            packet.len() + 1,
            (packet + more).len() + 1,
        );
        let (name, end) = dns_name(packet, at)->0;
        assert(dns_name(packet + more, at) == Some((name, end)));
        if end + 4 <= packet.len() {
            longer_packet_has_the_questions(packet, more, end + 4, (count - 1) as nat);
            let rest = question_names(packet, end + 4, (count - 1) as nat);
            let longer_rest = question_names(packet + more, end + 4, (count - 1) as nat);
            assert(longer_rest.take(rest.len() as int) =~= rest);
            assert forall|i: int| 0 <= i < rest.len() implies rest[i] == longer_rest[i] by {
                assert(longer_rest.take(rest.len() as int)[i] == longer_rest[i]);
            }
            assert(names =~= longer_names.take(names.len() as int));
        } else {
            assert(names =~= longer_names.take(0));
        }
    } else {
        assert(names =~= longer_names.take(0));
    }
}

/// Bytes behind a message take no domain away: it asks for the same domains, and perhaps for more.
pub proof fn longer_message_asks_for_no_less(packet: Seq<u8>, more: Seq<u8>)
    ensures
        query_domains(packet).is_prefix_of(query_domains(packet + more)),
{
    let longer = packet + more;
    if packet.len() >= 12 {
        assert(longer[2] == packet[2] && longer[4] == packet[4] && longer[5] == packet[5]);
        longer_packet_has_the_questions(packet, more, 12, be16(packet[4], packet[5]) as nat);
    }
    assert(query_domains(packet).len() == 0 ==> query_domains(longer).take(0) =~= query_domains(
        packet,
    ));
}

/// A response asks for nothing, whatever it holds.
pub proof fn response_asks_for_nothing(packet: Seq<u8>)
    requires
        packet.len() >= 3,
        packet[2] >= 128,
    ensures
        query_domains(packet).len() == 0,
{
}

proof fn question_names_are_plain(packet: Seq<u8>, at: int, count: nat)
    ensures
        forall|i: int|
            #![trigger question_names(packet, at, count)[i]]
            0 <= i < question_names(packet, at, count).len() ==> {
                let name = question_names(packet, at, count)[i];
                name.len() > 0 && ascii_lower(name) == name
            },
    decreases count,
{
    if count > 0 {
        if let Some((name, end)) = dns_name(packet, at) {
            if end + 4 <= packet.len() {
                question_names_are_plain(packet, end + 4, (count - 1) as nat);
                let rest = question_names(packet, end + 4, (count - 1) as nat);
                let names = question_names(packet, at, count);
                let spans = name_spans(packet, at, packet.len() + 1)->0;
                lower_is_idempotent(
                    dotted(
                        labels_at(packet, spans).map_values(
                            |label: Seq<u8>| crate::bytes::lossy_text(label),
                        ),
                    ),
                );
                assert forall|i: int| #![trigger names[i]] 0 <= i < names.len() implies names[i].len()
                    > 0 && ascii_lower(names[i]) == names[i] by {
                    if name.len() > 0 {
                        if i > 0 {
                            assert(names[i] == rest[i - 1]);
                        }
                    }
                }
            }
        }
    }
}

/// No domain of a query is empty, and none holds an ASCII capital.
pub proof fn query_domains_are_plain(packet: Seq<u8>, i: int)
    requires
        0 <= i < query_domains(packet).len(),
    ensures
        query_domains(packet)[i].len() > 0,
        ascii_lower(query_domains(packet)[i]) == query_domains(packet)[i],
{
    question_names_are_plain(packet, 12, be16(packet[4], packet[5]) as nat);
}

/// The pieces of a text between its dots.
pub open spec fn pieces(text: Seq<char>) -> Seq<Seq<char>>
    decreases text.len(),
{
    if text.len() == 0 {
        seq![seq![]]
    } else {
        let head = pieces(text.drop_last());
        if text.last() == '.' {
            head.push(seq![])
        } else {
            head.drop_last().push(head.last().push(text.last()))
        }
    }
}

proof fn text_without_dots_goes_on(text: Seq<char>, more: Seq<char>)
    requires
        !more.contains('.'),
    ensures
        pieces(text).len() > 0,
        pieces(text + more) == pieces(text).drop_last().push(pieces(text).last() + more),
    decreases more.len(),
{
    some_piece(text);
    let head = pieces(text);
    if more.len() == 0 {
        assert(text + more =~= text);
        assert(head.last() + more =~= head.last());
        assert(head =~= head.drop_last().push(head.last()));
    } else {
        let rest = more.drop_last();
        assert(!rest.contains('.')) by {
            assert forall|i: int| 0 <= i < rest.len() implies rest[i] != '.' by {
                assert(more.contains(more[i]));
            }
        }
        text_without_dots_goes_on(text, rest);
        let whole = text + more;
        assert(whole.drop_last() =~= text + rest);
        assert(more.contains(more.last()));
        assert(whole.last() == more.last());
        let before = pieces(text + rest);
        assert(before.last() == head.last() + rest);
        assert(before.drop_last() =~= head.drop_last());
        assert((head.last() + rest).push(more.last()) =~= head.last() + more);
    }
}

proof fn some_piece(text: Seq<char>)
    ensures
        pieces(text).len() > 0,
    decreases text.len(),
{
    if text.len() > 0 {
        some_piece(text.drop_last());
    }
}

/// The lengths of labels, added up.
pub open spec fn total_len(labels: Seq<Seq<char>>) -> int
    decreases labels.len(),
{
    if labels.len() == 0 {
        0
    } else {
        total_len(labels.drop_last()) + labels.last().len()
    }
}

/// Labels are joined by one dot between each two: the name is as long as its labels and the dots
/// between them, and where no label holds a dot, cutting the name at its dots gives back the labels.
pub proof fn dotted_name_is_its_labels(labels: Seq<Seq<char>>)
    requires
        labels.len() > 0,
    ensures
        dotted(labels).len() == total_len(labels) + labels.len() - 1,
        (forall|i: int| 0 <= i < labels.len() ==> !(#[trigger] labels[i]).contains('.')) ==> pieces(
            dotted(labels),
        ) == labels,
    decreases labels.len(),
{
    let plain = forall|i: int| 0 <= i < labels.len() ==> !(#[trigger] labels[i]).contains('.');
    let head = labels.drop_last();
    let last = labels.last();
    assert(last == labels[labels.len() - 1]);
    if labels.len() == 1 {
        assert(total_len(head) == 0);
        if plain {
            assert(Seq::<char>::empty() + last =~= last);
            text_without_dots_goes_on(seq![], last);
            assert(pieces(seq![]) =~= seq![seq![]]);
            assert(pieces(last) =~= labels);
        }
    } else {
        dotted_name_is_its_labels(head);
        if plain {
            assert forall|i: int| 0 <= i < head.len() implies !(#[trigger] head[i]).contains(
                '.',
            ) by {
                assert(head[i] == labels[i]);
            }
            let begun = dotted(head) + seq!['.'];
            assert(begun.drop_last() =~= dotted(head));
            assert(begun.last() == '.');
            let nothing = Seq::<char>::empty();
            assert(pieces(begun) == head.push(nothing));
            text_without_dots_goes_on(begun, last);
            assert(head.push(nothing).drop_last() =~= head);
            assert(nothing + last =~= last);
            assert(head.push(last) =~= labels);
        }
    }
}

proof fn dotted_from_the_front(first: Seq<char>, rest: Seq<Seq<char>>)
    requires
        rest.len() > 0,
    ensures
        dotted(seq![first] + rest) == first + seq!['.'] + dotted(rest),
    decreases rest.len(),
{
    let labels = seq![first] + rest;
    assert(labels.last() == rest.last());
    if rest.len() == 1 {
        assert(labels.drop_last() =~= seq![first]);
        assert(dotted(labels.drop_last()) == first);
        assert(dotted(rest) == rest.last());
    } else {
        assert(labels.drop_last() =~= seq![first] + rest.drop_last());
        dotted_from_the_front(first, rest.drop_last());
        assert(dotted(labels) =~= first + seq!['.'] + dotted(rest));
    }
}

/// A domain is its first label in ASCII lower case, then a dot and the domain of the other labels if
/// there are any. The root is empty.
pub proof fn domain_begins_with_its_first_label(first: Seq<u8>, rest: Seq<Seq<u8>>)
    ensures
        domain_of(seq![]) == Seq::<char>::empty(),
        domain_of(seq![first] + rest) == ascii_lower(lossy_text(first)) + (if rest.len() == 0 {
            seq![]
        } else {
            seq!['.'] + domain_of(rest)
        }),
{
    let read = |label: Seq<u8>| lossy_text(label);
    let texts = (seq![first] + rest).map_values(read);
    let others = rest.map_values(read);
    let head = lossy_text(first);
    assert(Seq::<Seq<u8>>::empty().map_values(read) =~= seq![]);
    assert(domain_of(seq![]) =~= seq![]);
    assert(texts =~= seq![head] + others);
    if rest.len() == 0 {
        assert(texts =~= seq![head]);
        assert(dotted(texts) == head);
        assert(domain_of(seq![first] + rest) =~= ascii_lower(head));
    } else {
        dotted_from_the_front(head, others);
        assert(ascii_lower(head + seq!['.'] + dotted(others)) =~= ascii_lower(head) + (seq!['.']
            + ascii_lower(dotted(others))));
    }
}

proof fn lower_of_dotted(labels: Seq<Seq<char>>)
    ensures
        ascii_lower(dotted(labels)) == dotted(
            labels.map_values(|label: Seq<char>| ascii_lower(label)),
        ),
    decreases labels.len(),
{
    let lowered = labels.map_values(|label: Seq<char>| ascii_lower(label));
    if labels.len() == 0 {
        assert(ascii_lower(dotted(labels)) =~= dotted(lowered));
    } else if labels.len() >= 2 {
        let head = labels.drop_last();
        lower_of_dotted(head);
        assert(lowered.drop_last() =~= head.map_values(|label: Seq<char>| ascii_lower(label)));
        assert(ascii_lower(dotted(head) + seq!['.'] + labels.last()) =~= ascii_lower(dotted(head))
            + seq!['.'] + ascii_lower(labels.last()));
    }
}

/// A domain spells its labels: of ASCII labels without dots, the pieces between the dots of the
/// domain are the labels, byte by byte, with capitals in lower case.
pub proof fn domain_spells_its_labels(labels: Seq<Seq<u8>>, i: int, j: int)
    requires
        0 <= i < labels.len(),
        0 <= j < labels[i].len(),
        forall|k: int, m: int|
            0 <= k < labels.len() && 0 <= m < labels[k].len() ==> (#[trigger] labels[k][m]) < 128
                && labels[k][m] != 46,
    ensures
        pieces(domain_of(labels)).len() == labels.len(),
        pieces(domain_of(labels))[i].len() == labels[i].len(),
        pieces(domain_of(labels))[i][j] as int == (if 65 <= labels[i][j] <= 90 {
            labels[i][j] + 32
        } else {
            labels[i][j] as int
        }),
{
    let read = |label: Seq<u8>| lossy_text(label);
    let texts = labels.map_values(read);
    let lowered = texts.map_values(|label: Seq<char>| ascii_lower(label));
    lower_of_dotted(texts);
    assert forall|k: int| 0 <= k < labels.len() implies {
        &&& !(#[trigger] lowered[k]).contains('.')
        &&& lowered[k].len() == labels[k].len()
        &&& forall|m: int|
            0 <= m < labels[k].len() ==> (#[trigger] lowered[k][m]) as int == (if 65 <= labels[k][m]
                <= 90 {
                labels[k][m] + 32
            } else {
                labels[k][m] as int
            })
    } by {
        let label = labels[k];
        assert forall|m: int| 0 <= m < label.len() implies label[m] < 128 by {
            assert(labels[k][m] < 128);
        }
        ascii_reads_as_itself(label);
        assert(lowered[k] == ascii_lower(label.map_values(|b: u8| b as char)));
        assert forall|m: int| 0 <= m < label.len() implies (#[trigger] lowered[k][m]) as int == (
        if 65 <= label[m] <= 90 {
            label[m] + 32
        } else {
            label[m] as int
        }) && lowered[k][m] != '.' by {
            assert(labels[k][m] != 46);
        }
    }
    dotted_name_is_its_labels(lowered);
    assert(lowered[i][j] == pieces(domain_of(labels))[i][j]);
}

/// Whether a name goes through `labels` from `at` in so many steps: a zero ends it, a length below
/// 192 is that of a label, and a larger one is the first of two bytes that say where the name goes
/// on.
pub open spec fn walks(packet: Seq<u8>, at: int, labels: Seq<Seq<u8>>, steps: nat) -> bool
    decreases steps,
{
    &&& steps > 0
    &&& 0 <= at < packet.len()
    &&& if packet[at] == 0 {
        labels.len() == 0
    } else if packet[at] >= 0xc0 {
        &&& at + 1 < packet.len()
        &&& walks(
            packet,
            (packet[at] - 0xc0) * 256 + packet[at + 1],
            labels,
            (steps - 1) as nat,
        )
    } else {
        &&& labels.len() > 0
        &&& at + 1 + packet[at] <= packet.len()
        &&& labels[0] == packet.subrange(at + 1, at + 1 + packet[at])
        &&& walks(packet, at + 1 + packet[at], labels.drop_first(), (steps - 1) as nat)
    }
}

/// Whether so many labels stand from `at` on, and then, right before `end`, a zero or a pointer.
pub open spec fn stops_before(packet: Seq<u8>, at: int, count: nat, end: int) -> bool
    decreases count,
{
    &&& 0 <= at < packet.len()
    &&& if count == 0 {
        packet[at] == 0 && end == at + 1 || packet[at] >= 0xc0 && end == at + 2
    } else {
        0 < packet[at] < 0xc0 && stops_before(
            packet,
            at + 1 + packet[at],
            (count - 1) as nat,
            end,
        )
    }
}

proof fn walk_has_spans(packet: Seq<u8>, at: int, labels: Seq<Seq<u8>>, steps: nat)
    requires
        walks(packet, at, labels, steps),
    ensures
        name_spans(packet, at, steps) is Some,
        labels_at(packet, name_spans(packet, at, steps)->0) == labels,
    decreases steps,
{
    if packet[at] == 0 {
        assert(labels_at(packet, name_spans(packet, at, steps)->0) =~= labels);
    } else if packet[at] >= 0xc0 {
        let target = (packet[at] - 0xc0) * 256 + packet[at + 1];
        assert(target == pointer_target(packet, at));
        walk_has_spans(packet, target, labels, (steps - 1) as nat);
    } else {
        let start = at + 1;
        let stop = start + packet[at];
        walk_has_spans(packet, stop, labels.drop_first(), (steps - 1) as nat);
        let rest = name_spans(packet, stop, (steps - 1) as nat)->0;
        assert(labels_at(packet, seq![(start, stop)] + rest) =~= seq![packet.subrange(start, stop)]
            + labels_at(packet, rest));
        assert(seq![labels[0]] + labels.drop_first() =~= labels);
    }
}

proof fn stop_is_the_end(packet: Seq<u8>, at: int, count: nat, end: int)
    requires
        stops_before(packet, at, count, end),
    ensures
        name_end(packet, at) == end,
    decreases count,
{
    if count > 0 {
        stop_is_the_end(packet, at + 1 + packet[at], (count - 1) as nat, end);
    }
}

/// A name that goes through some labels, by whatever pointers, is read as the domain of those
/// labels, and the position behind it is that behind its end or its first pointer.
pub proof fn walked_name_is_read(
    packet: Seq<u8>,
    at: int,
    labels: Seq<Seq<u8>>,
    steps: nat,
    count: nat,
    end: int,
)
    requires
        walks(packet, at, labels, steps),
        stops_before(packet, at, count, end),
    ensures
        dns_name(packet, at) == Some((domain_of(labels), end)),
{
    walk_has_spans(packet, at, labels, steps);
    stop_is_the_end(packet, at, count, end);
    let budget = packet.len() + 1;
    if name_spans(packet, at, budget) is None {
        refused_name_leaves_or_comes_back(packet, at);
        ended_name_neither_leaves_nor_comes_back(packet, at, steps);
    }
    let nothing = Seq::<u8>::empty();
    assert(packet + nothing =~= packet);
    if budget <= steps {
        longer_packet_has_the_name(packet, nothing, at, budget, steps);
    } else {
        longer_packet_has_the_name(packet, nothing, at, steps, budget);
    }
}

proof fn spans_are_walked(packet: Seq<u8>, at: int, steps: nat) -> (count: nat)
    requires
        name_spans(packet, at, steps) is Some,
    ensures
        walks(packet, at, labels_at(packet, name_spans(packet, at, steps)->0), steps),
        stops_before(packet, at, count, name_end(packet, at)),
    decreases steps,
{
    let spans = name_spans(packet, at, steps)->0;
    if packet[at] == 0 {
        0
    } else if packet[at] >= 0xc0 {
        let target = (packet[at] - 0xc0) * 256 + packet[at + 1];
        assert(target == pointer_target(packet, at));
        let _ = spans_are_walked(packet, target, (steps - 1) as nat);
        0
    } else {
        let start = at + 1;
        let stop = start + packet[at];
        let count = spans_are_walked(packet, stop, (steps - 1) as nat);
        let rest = name_spans(packet, stop, (steps - 1) as nat)->0;
        let labels = labels_at(packet, spans);
        assert(spans =~= seq![(start, stop)] + rest);
        assert(labels.drop_first() =~= labels_at(packet, rest));
        count + 1
    }
}

/// A name that is read is the domain of labels that the name goes through.
pub proof fn read_name_was_walked(packet: Seq<u8>, at: int) -> (found: (Seq<Seq<u8>>, nat))
    requires
        dns_name(packet, at) is Some,
    ensures
        (dns_name(packet, at)->0).0 == domain_of(found.0),
        walks(packet, at, found.0, packet.len() + 1),
        stops_before(packet, at, found.1, (dns_name(packet, at)->0).1),
{
    let count = spans_are_walked(packet, at, packet.len() + 1);
    (labels_at(packet, name_spans(packet, at, packet.len() + 1)->0), count)
}

/// Whether the questions of a packet from `at` on have the names `names`, each with four bytes
/// behind it, up to `end`.
pub open spec fn questions_follow(
    packet: Seq<u8>,
    at: int,
    names: Seq<Seq<char>>,
    end: int,
) -> bool
    decreases names.len(),
{
    if names.len() == 0 {
        at == end
    } else {
        match dns_name(packet, at) {
            Some((name, behind)) => {
                &&& name == names[0]
                &&& behind + 4 <= packet.len()
                &&& questions_follow(packet, behind + 4, names.drop_first(), end)
            },
            None => false,
        }
    }
}

/// Whether no complete question stands at `at`.
pub open spec fn no_question(packet: Seq<u8>, at: int) -> bool {
    match dns_name(packet, at) {
        Some((_, behind)) => behind + 4 > packet.len(),
        None => true,
    }
}

proof fn following_questions_are_read(
    packet: Seq<u8>,
    at: int,
    names: Seq<Seq<char>>,
    end: int,
    count: nat,
)
    requires
        questions_follow(packet, at, names, end),
        names.len() <= count,
        names.len() == count || no_question(packet, end),
    ensures
        question_names(packet, at, count) == names.filter(|name: Seq<char>| name.len() > 0),
    decreases names.len(),
{
    let shown = |name: Seq<char>| name.len() > 0;
    if names.len() == 0 {
        reveal(Seq::filter);
        assert(names.filter(shown) =~= seq![]);
    } else {
        let rest = names.drop_first();
        let (name, behind) = dns_name(packet, at)->0;
        following_questions_are_read(packet, behind + 4, rest, end, (count - 1) as nat);
        let first = seq![names[0]];
        assert(names =~= first + rest);
        Seq::filter_distributes_over_add(first, rest, shown);
        reveal_with_fuel(Seq::filter, 2);
        assert(first.drop_last() =~= seq![]);
        assert(first.filter(shown) =~= if shown(names[0]) {
            first
        } else {
            seq![]
        });
        assert(question_names(packet, at, count) =~= first.filter(shown) + rest.filter(shown));
    }
}

/// A query asks for the names of its questions, in their order and without the root: for as many
/// questions as the header says, or up to the first that is not complete.
pub proof fn query_asks_for_the_names_of_its_questions(
    packet: Seq<u8>,
    names: Seq<Seq<char>>,
    end: int,
)
    requires
        packet.len() >= 12,
        packet[2] < 128,
        questions_follow(packet, 12, names, end),
        names.len() <= packet[4] * 256 + packet[5],
        names.len() == packet[4] * 256 + packet[5] || no_question(packet, end),
    ensures
        query_domains(packet) == names.filter(|name: Seq<char>| name.len() > 0),
{
    following_questions_are_read(packet, 12, names, end, (packet[4] * 256 + packet[5]) as nat);
}

/// A message without a whole header asks for nothing.
pub proof fn short_message_asks_for_nothing(packet: Seq<u8>)
    requires
        packet.len() < 12,
    ensures
        query_domains(packet).len() == 0,
{
}

} // verus!
