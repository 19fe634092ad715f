//! Which authenticated packets are let through: every payload frame, and every
//! control packet once.

use vstd::prelude::*;

use crate::crypto::replay::{
    greatest, lemma_a_counter_is_accepted_once_and_in_time, lemma_never_accepted_twice, Seen,
};
use crate::crypto::ReplayWindow;
use crate::frame::PacketKind;
use crate::header::Header;

verus! {

/// The window after a packet has been let through, or nothing if it is a replay.
/// `Data` is not checked, since a retransmission is a legitimate repeat.
pub open spec fn guarded(replay: Seen, header: Header) -> Option<Seen> {
    if header.kind is Data {
        Some(replay)
    } else if replay.fresh(header.seq as nat) {
        Some(replay.with(header.seq as nat))
    } else {
        None
    }
}

/// Check a packet that has been authenticated against the replay window.
pub fn guard(replay: &mut ReplayWindow, header: Header) -> (ok: bool)
    ensures
        match guarded(old(replay)@, header) {
            Some(after) => ok && final(replay)@ == after,
            None => !ok && final(replay)@ == old(replay)@,
        },
{
    match header.kind {
        PacketKind::Data => true,
        _ => replay.accept(header.seq).is_ok(),
    }
}

/// A control packet that has been let through once is refused from then on: the
/// same counter does not pass a second time, whatever passes in between.
pub proof fn lemma_a_control_packet_passes_once(replay: Seen, header: Header, between: Seq<Header>)
    requires
        !(header.kind is Data),
        guarded(replay, header) is Some,
    ensures
        guarded(passed(guarded(replay, header)->0, between), header) is None,
{
    let counters = counters_of(between);
    lemma_passed(guarded(replay, header)->0, between);
    let cs = seq![header.seq as nat] + counters + seq![header.seq as nat];
    let last = cs.len() - 1;
    assert(cs.take(last) =~= seq![header.seq as nat] + counters);
    lemma_never_accepted_twice(replay, cs, 0, last);
    lemma_after_first(replay, header.seq as nat, counters);
}

/// Whether a packet is to be let through that comes after those with `headers`:
/// every payload frame, and a control packet if none with its counter has come
/// before and its counter lies no more than 1024 below the greatest that has.
pub open spec fn lets_through(headers: Seq<Header>, header: Header) -> bool {
    let cs = counters_of(headers);
    let c = header.seq as nat;
    header.kind is Data || (!cs.contains(c) && (cs.len() == 0 || greatest(cs) - c <= 1024))
}

/// What is let through goes by the headers that have come before, and by nothing
/// else.
pub proof fn lemma_what_is_let_through(headers: Seq<Header>, header: Header)
    ensures
        guarded(passed(Seen::nothing(), headers), header) is Some <==> lets_through(
            headers,
            header,
        ),
{
    lemma_passed(Seen::nothing(), headers);
    lemma_a_counter_is_accepted_once_and_in_time(counters_of(headers), header.seq as nat);
}

/// The window after each of `headers` has been checked in turn.
pub open spec fn passed(replay: Seen, headers: Seq<Header>) -> Seen
    decreases headers.len(),
{
    if headers.len() == 0 {
        replay
    } else {
        let before = passed(replay, headers.drop_last());
        match guarded(before, headers.last()) {
            Some(after) => after,
            None => before,
        }
    }
}

/// The counters of the control packets among `headers`, in order.
pub open spec fn counters_of(headers: Seq<Header>) -> Seq<nat>
    decreases headers.len(),
{
    if headers.len() == 0 {
        Seq::empty()
    } else if headers.last().kind is Data {
        counters_of(headers.drop_last())
    } else {
        counters_of(headers.drop_last()).push(headers.last().seq as nat)
    }
}

proof fn lemma_passed(replay: Seen, headers: Seq<Header>)
    ensures
        passed(replay, headers) == replay.after(counters_of(headers)),
    decreases headers.len(),
{
    if headers.len() > 0 {
        lemma_passed(replay, headers.drop_last());
        let cs = counters_of(headers);
        if !(headers.last().kind is Data) {
            assert(cs.drop_last() =~= counters_of(headers.drop_last()));
        }
    }
}

proof fn lemma_after_first(replay: Seen, c: nat, cs: Seq<nat>)
    ensures
        replay.after(seq![c] + cs) == replay.offered(c).after(cs),
    decreases cs.len(),
{
    if cs.len() == 0 {
        assert(seq![c] + cs =~= seq![c]);
        assert(seq![c].drop_last() =~= Seq::<nat>::empty());
        reveal_with_fuel(Seen::after, 2);
    } else {
        lemma_after_first(replay, c, cs.drop_last());
        assert((seq![c] + cs).drop_last() =~= seq![c] + cs.drop_last());
    }
}

} // verus!
