//! What holds of a retransmission ring over everything that is stored in it.

use vstd::prelude::*;

use super::retrans::{beyond, find, lemma_total_bytes_push, max_u32, total_bytes, Ring};
use crate::types::XferSeq;

verus! {

/// What is found was stored under that number.
pub proof fn lemma_found_was_stored(entries: Seq<(XferSeq, Seq<u8>)>, seq: XferSeq)
    ensures
        find(entries, seq) matches Some(d) ==> entries.contains((seq, d)),
    decreases entries.len(),
{
    if entries.len() > 0 {
        lemma_found_was_stored(entries.skip(1), seq);
        if entries[0].0 != seq {
            if let Some(d) = find(entries.skip(1), seq) {
                let i = choose|i: int| 0 <= i < entries.len() - 1 && entries.skip(1)[i] == (seq, d);
                assert(entries[i + 1] == (seq, d));
            }
        }
    }
}

/// An acknowledgement leaves a suffix of what was there.
pub proof fn lemma_beyond_is_suffix(entries: Seq<(XferSeq, Seq<u8>)>, contiguous: u32)
    ensures
        beyond(entries, contiguous).len() <= entries.len(),
        beyond(entries, contiguous) == entries.skip(
            entries.len() - beyond(entries, contiguous).len(),
        ),
    decreases entries.len(),
{
    if entries.len() > 0 && entries[0].0.0 <= contiguous {
        lemma_beyond_is_suffix(entries.skip(1), contiguous);
        let n = beyond(entries, contiguous).len();
        assert(entries.skip(1).skip(entries.len() - 1 - n) =~= entries.skip(entries.len() - n));
    } else {
        assert(entries.skip(0) =~= entries);
    }
}

impl Ring {
    /// Whether the entries ascend and lie above everything that was given up.
    pub open spec fn in_order(self) -> bool {
        &&& forall|i: int| 0 <= i < self.entries.len() ==> self.lost_below < (#[trigger]
            self.entries[i]).0.0
        &&& forall|i: int, j: int|
            0 <= i < j < self.entries.len() ==> (#[trigger] self.entries[i]).0.0 < (#[trigger]
                self.entries[j]).0.0
    }

    proof fn lemma_trimmed_in_order(self)
        requires
            self.in_order(),
        ensures
            self.trimmed().in_order(),
        decreases self.entries.len(),
    {
        if !self.in_budget() && self.entries.len() > 0 {
            self.evicted().lemma_trimmed_in_order();
        }
    }

    /// Storing frames in ascending order keeps the ring in order.
    pub proof fn lemma_pushed_in_order(self, seq: XferSeq, datagram: Seq<u8>)
        requires
            self.in_order(),
            self.lost_below < seq.0,
            self.entries.len() > 0 ==> self.entries.last().0.0 < seq.0,
        ensures
            self.pushed(seq, datagram).in_order(),
    {
        let grown = Ring { entries: self.entries.push((seq, datagram)), ..self };
        grown.lemma_trimmed_in_order();
    }

    /// An acknowledgement keeps the ring in order.
    pub proof fn lemma_acked_in_order(self, contiguous: u32)
        requires
            self.in_order(),
        ensures
            self.acked(contiguous).in_order(),
        decreases self.entries.len(),
    {
        if self.entries.len() > 0 && self.entries[0].0.0 <= contiguous {
            self.evicted().lemma_acked_in_order(contiguous);
        }
    }

    /// In a ring that was filled in order, a frame that is reported lost is gone:
    /// no request for it is ever answered.
    pub proof fn lemma_lost_frames_are_gone(self, seq: XferSeq)
        requires
            self.in_order(),
            seq.0 <= self.lost_below,
        ensures
            find(self.entries, seq) is None,
    {
        lemma_found_was_stored(self.entries, seq);
    }
}

proof fn lemma_stored_is_found(entries: Seq<(XferSeq, Seq<u8>)>, i: int)
    requires
        0 <= i < entries.len(),
        forall|x: int, y: int|
            0 <= x < y < entries.len() ==> (#[trigger] entries[x]).0.0 < (
            #[trigger] entries[y]).0.0,
    ensures
        find(entries, entries[i].0) == Some(entries[i].1),
    decreases entries.len(),
{
    if i > 0 {
        let rest = entries.skip(1);
        assert(rest[i - 1] == entries[i]);
        assert(entries[0].0.0 < entries[i].0.0);
        lemma_stored_is_found(rest, i - 1);
    }
}

/// One call of a [`RetransRing`](super::RetransRing) that changes its state.
pub enum RingInput {
    Push { seq: XferSeq, datagram: Seq<u8> },
    Ack { contiguous: u32 },
}

impl Ring {
    pub open spec fn step(self, input: RingInput) -> Ring {
        match input {
            RingInput::Push { seq, datagram } => self.pushed(seq, datagram),
            RingInput::Ack { contiguous } => self.acked(contiguous),
        }
    }

    /// The ring after a series of calls.
    pub open spec fn run(self, inputs: Seq<RingInput>) -> Ring
        decreases inputs.len(),
    {
        if inputs.len() == 0 {
            self
        } else {
            self.run(inputs.drop_last()).step(inputs.last())
        }
    }
}

/// The highest number that the calls store anything under, or zero.
pub open spec fn highest_pushed(inputs: Seq<RingInput>) -> u32
    decreases inputs.len(),
{
    if inputs.len() == 0 {
        0
    } else {
        let before = highest_pushed(inputs.drop_last());
        match inputs.last() {
            RingInput::Push { seq, .. } => max_u32(before, seq.0),
            RingInput::Ack { .. } => before,
        }
    }
}

/// What the calls store under `seq`.
pub open spec fn pushed_as(inputs: Seq<RingInput>, seq: XferSeq) -> Option<Seq<u8>>
    decreases inputs.len(),
{
    if inputs.len() == 0 {
        None
    } else {
        match inputs.last() {
            RingInput::Push { seq: s, datagram } if s == seq => Some(datagram),
            _ => pushed_as(inputs.drop_last(), seq),
        }
    }
}

/// Whether the calls store frames in strictly ascending order, from 1 on, and
/// acknowledge nothing that has not been stored.
pub open spec fn orderly(inputs: Seq<RingInput>) -> bool
    decreases inputs.len(),
{
    inputs.len() == 0 || {
        &&& orderly(inputs.drop_last())
        &&& match inputs.last() {
            RingInput::Push { seq, .. } => seq.0 > highest_pushed(inputs.drop_last()),
            RingInput::Ack { contiguous } => contiguous <= highest_pushed(inputs.drop_last()),
        }
    }
}

proof fn lemma_trimmed_keeps(ring: Ring, high: u32)
    requires
        ring.in_order(),
        ring.lost_below <= high,
        forall|i: int| 0 <= i < ring.entries.len() ==> (#[trigger] ring.entries[i]).0.0 <= high,
    ensures
        ring.trimmed().lost_below <= high,
        forall|i: int|
            0 <= i < ring.entries.len() && (#[trigger] ring.entries[i]).0.0
                > ring.trimmed().lost_below ==> ring.trimmed().entries.contains(ring.entries[i]),
        forall|i: int|
            0 <= i < ring.trimmed().entries.len() ==> ring.entries.contains(
                #[trigger] ring.trimmed().entries[i],
            ),
    decreases ring.entries.len(),
{
    let t = ring.trimmed();
    ring.lemma_trimmed();
    if !ring.in_budget() && ring.entries.len() > 0 {
        let e = ring.evicted();
        lemma_trimmed_keeps(e, high);
        e.lemma_trimmed();
        assert forall|i: int|
            0 <= i < ring.entries.len() && (#[trigger] ring.entries[i]).0.0
                > t.lost_below implies t.entries.contains(ring.entries[i]) by {
            if i > 0 {
                assert(e.entries[i - 1] == ring.entries[i]);
            }
        }
    }
    assert forall|i: int| 0 <= i < t.entries.len() implies ring.entries.contains(
        #[trigger] t.entries[i],
    ) by {
        assert(t.entries[i] == ring.entries[ring.entries.len() - t.entries.len() + i]);
    }
}

proof fn lemma_beyond_keeps(entries: Seq<(XferSeq, Seq<u8>)>, contiguous: u32)
    ensures
        forall|i: int|
            0 <= i < entries.len() && (#[trigger] entries[i]).0.0 > contiguous ==> beyond(
                entries,
                contiguous,
            ).contains(entries[i]),
    decreases entries.len(),
{
    if entries.len() > 0 && entries[0].0.0 <= contiguous {
        let rest = entries.skip(1);
        lemma_beyond_keeps(rest, contiguous);
        assert forall|i: int|
            0 <= i < entries.len() && (#[trigger] entries[i]).0.0 > contiguous implies beyond(
            entries,
            contiguous,
        ).contains(entries[i]) by {
            if i > 0 {
                assert(rest[i - 1] == entries[i]);
            }
        }
    }
}

/// What holds of a ring after an orderly series of calls.
spec fn kept(inputs: Seq<RingInput>, r: Ring) -> bool {
    &&& r.in_order()
    &&& r.lost_below <= highest_pushed(inputs)
    &&& forall|i: int|
        0 <= i < r.entries.len() ==> (#[trigger] r.entries[i]).0.0 <= highest_pushed(inputs)
            && pushed_as(inputs, r.entries[i].0) == Some(r.entries[i].1)
    &&& forall|seq: XferSeq|
        (#[trigger] pushed_as(inputs, seq)) matches Some(d) ==> seq.0 <= highest_pushed(inputs) && (
        seq.0 > r.lost_below ==> r.entries.contains((seq, d)))
}

proof fn lemma_kept(max_frames: usize, max_bytes: usize, inputs: Seq<RingInput>)
    requires
        orderly(inputs),
    ensures
        kept(inputs, Ring::empty(max_frames, max_bytes).run(inputs)),
    decreases inputs.len(),
{
    if inputs.len() > 0 {
        let before = inputs.drop_last();
        lemma_kept(max_frames, max_bytes, before);
        let r = Ring::empty(max_frames, max_bytes).run(before);
        let t = r.step(inputs.last());
        match inputs.last() {
            RingInput::Push { seq, datagram } => {
                let grown = Ring { entries: r.entries.push((seq, datagram)), ..r };
                r.lemma_pushed_in_order(seq, datagram);
                lemma_trimmed_keeps(grown, seq.0);
                assert forall|i: int| 0 <= i < t.entries.len() implies (
                #[trigger] t.entries[i]).0.0 <= highest_pushed(inputs) && pushed_as(
                    inputs,
                    t.entries[i].0,
                ) == Some(t.entries[i].1) by {
                    assert(grown.entries.contains(t.entries[i]));
                    let j = choose|j: int|
                        0 <= j < grown.entries.len() && grown.entries[j] == t.entries[i];
                    if j < r.entries.len() {
                        assert(grown.entries[j] == r.entries[j]);
                    }
                }
                assert forall|s: XferSeq| (#[trigger] pushed_as(inputs, s)) matches Some(
                    d,
                ) implies s.0 <= highest_pushed(inputs) && (s.0 > t.lost_below
                    ==> t.entries.contains((s, pushed_as(inputs, s)->0))) by {
                    if s == seq {
                        assert(grown.entries[r.entries.len() as int] == (seq, datagram));
                    } else {
                        let d = pushed_as(before, s)->0;
                        grown.lemma_trimmed();
                        if s.0 > t.lost_below {
                            let j = choose|j: int|
                                0 <= j < r.entries.len() && r.entries[j] == (s, d);
                            assert(grown.entries[j] == (s, d));
                        }
                    }
                }
            },
            RingInput::Ack { contiguous } => {
                r.lemma_acked_in_order(contiguous);
                lemma_beyond_keeps(r.entries, contiguous);
                lemma_beyond_is_suffix(r.entries, contiguous);
                assert forall|i: int| 0 <= i < t.entries.len() implies (
                #[trigger] t.entries[i]).0.0 <= highest_pushed(inputs) && pushed_as(
                    inputs,
                    t.entries[i].0,
                ) == Some(t.entries[i].1) by {
                    let j = r.entries.len() - t.entries.len() + i;
                    assert(t.entries[i] == r.entries[j]);
                }
                assert forall|s: XferSeq| (#[trigger] pushed_as(inputs, s)) matches Some(
                    d,
                ) implies s.0 <= highest_pushed(inputs) && (s.0 > t.lost_below
                    ==> t.entries.contains((s, pushed_as(inputs, s)->0))) by {
                    let d = pushed_as(before, s)->0;
                    if s.0 > t.lost_below {
                        let j = choose|j: int| 0 <= j < r.entries.len() && r.entries[j] == (s, d);
                        assert(r.entries[j].0.0 > contiguous);
                    }
                }
            },
        }
    }
}

/// A ring that frames are stored in in order tells exactly what it has: above
/// the number that it reports as lost, every frame that was stored is found, with
/// the bytes that it was stored with; up to that number, none is.
pub proof fn lemma_the_ring_has_what_it_has_not_lost(
    max_frames: usize,
    max_bytes: usize,
    inputs: Seq<RingInput>,
    seq: XferSeq,
)
    requires
        orderly(inputs),
    ensures
        ({
            let r = Ring::empty(max_frames, max_bytes).run(inputs);
            find(r.entries, seq) == if seq.0 > r.lost_below {
                pushed_as(inputs, seq)
            } else {
                None
            }
        }),
{
    lemma_kept(max_frames, max_bytes, inputs);
    let r = Ring::empty(max_frames, max_bytes).run(inputs);
    lemma_found_was_stored(r.entries, seq);
    if let Some(d) = find(r.entries, seq) {
        let i = choose|i: int| 0 <= i < r.entries.len() && r.entries[i] == (seq, d);
        assert(pushed_as(inputs, r.entries[i].0) == Some(r.entries[i].1));
    }
    if seq.0 > r.lost_below {
        if let Some(d) = pushed_as(inputs, seq) {
            let i = choose|i: int| 0 <= i < r.entries.len() && r.entries[i] == (seq, d);
            lemma_stored_is_found(r.entries, i);
        }
    }
}

/// What the calls first store under `seq`.
pub open spec fn first_pushed(inputs: Seq<RingInput>, seq: XferSeq) -> Option<Seq<u8>>
    decreases inputs.len(),
{
    if inputs.len() == 0 {
        None
    } else {
        match first_pushed(inputs.drop_last(), seq) {
            Some(d) => Some(d),
            None => match inputs.last() {
                RingInput::Push { seq: s, datagram } if s == seq => Some(datagram),
                _ => None,
            },
        }
    }
}

proof fn lemma_find_push(entries: Seq<(XferSeq, Seq<u8>)>, e: (XferSeq, Seq<u8>), seq: XferSeq)
    ensures
        find(entries.push(e), seq) == match find(entries, seq) {
            Some(d) => Some(d),
            None => if e.0 == seq {
                Some(e.1)
            } else {
                None
            },
        },
    decreases entries.len(),
{
    reveal_with_fuel(find, 2);
    if entries.len() == 0 {
        assert(entries.push(e).skip(1) =~= entries);
    } else {
        lemma_find_push(entries.skip(1), e, seq);
        assert(entries.push(e).skip(1) =~= entries.skip(1).push(e));
    }
}

proof fn lemma_trimmed_finds(ring: Ring, seq: XferSeq)
    requires
        seq.0 > ring.trimmed().lost_below,
    ensures
        find(ring.trimmed().entries, seq) == find(ring.entries, seq),
    decreases ring.entries.len(),
{
    if !ring.in_budget() && ring.entries.len() > 0 {
        ring.evicted().lemma_trimmed();
        lemma_trimmed_finds(ring.evicted(), seq);
    }
}

proof fn lemma_beyond_finds(entries: Seq<(XferSeq, Seq<u8>)>, contiguous: u32, seq: XferSeq)
    requires
        seq.0 > contiguous,
    ensures
        find(beyond(entries, contiguous), seq) == find(entries, seq),
    decreases entries.len(),
{
    if entries.len() > 0 && entries[0].0.0 <= contiguous {
        lemma_beyond_finds(entries.skip(1), contiguous, seq);
    }
}

/// Whatever is stored and acknowledged, in whatever order: above the number that
/// the ring reports as lost, every frame that was stored is found, with the bytes
/// that it was first stored with, and nothing else is.
pub proof fn lemma_the_ring_keeps_what_it_has_not_lost(
    max_frames: usize,
    max_bytes: usize,
    inputs: Seq<RingInput>,
    seq: XferSeq,
)
    requires
        seq.0 > Ring::empty(max_frames, max_bytes).run(inputs).lost_below,
    ensures
        find(Ring::empty(max_frames, max_bytes).run(inputs).entries, seq) == first_pushed(
            inputs,
            seq,
        ),
    decreases inputs.len(),
{
    if inputs.len() > 0 {
        let before = inputs.drop_last();
        let r = Ring::empty(max_frames, max_bytes).run(before);
        match inputs.last() {
            RingInput::Push { seq: s, datagram } => {
                let grown = Ring { entries: r.entries.push((s, datagram)), ..r };
                grown.lemma_trimmed();
                lemma_trimmed_finds(grown, seq);
                lemma_find_push(r.entries, (s, datagram), seq);
            },
            RingInput::Ack { contiguous } => {
                lemma_beyond_finds(r.entries, contiguous, seq);
            },
        }
        lemma_the_ring_keeps_what_it_has_not_lost(max_frames, max_bytes, before, seq);
    }
}

/// The greatest number among the first `n` of `entries`, or `from` if that is
/// greater.
pub open spec fn greatest_of(entries: Seq<(XferSeq, Seq<u8>)>, n: nat, from: u32) -> u32
    decreases n,
{
    if n == 0 {
        from
    } else {
        max_u32(greatest_of(entries, (n - 1) as nat, from), entries[n - 1].0.0)
    }
}

proof fn lemma_greatest_of_rest(entries: Seq<(XferSeq, Seq<u8>)>, n: nat, from: u32)
    requires
        n < entries.len(),
    ensures
        greatest_of(entries.skip(1), n, max_u32(from, entries[0].0.0)) == greatest_of(
            entries,
            n + 1,
            from,
        ),
    decreases n,
{
    reveal_with_fuel(greatest_of, 2);
    if n > 0 {
        lemma_greatest_of_rest(entries, (n - 1) as nat, from);
        assert(entries.skip(1)[n - 1] == entries[n as int]);
    }
}

/// Storing a datagram puts it last. Then the oldest entries leave, and no more of
/// them than it takes to hold at most `max_frames` datagrams of at most
/// `max_bytes` bytes together: if any leaves, what was there with the last of
/// them was too much. The number that is reported as lost is the greatest that
/// has left.
pub proof fn lemma_a_push_evicts_only_what_it_must(r: Ring, seq: XferSeq, datagram: Seq<u8>)
    ensures
        ({
            let t = r.pushed(seq, datagram);
            let all = r.entries.push((seq, datagram));
            let gone = all.len() - t.entries.len();
            &&& 0 <= gone
            &&& t.entries == all.skip(gone)
            &&& t.entries.len() <= r.max_frames
            &&& total_bytes(t.entries) <= r.max_bytes
            &&& gone > 0 ==> all.skip(gone - 1).len() > r.max_frames || total_bytes(
                all.skip(gone - 1),
            ) > r.max_bytes
            &&& t.lost_below == greatest_of(all, gone as nat, r.lost_below)
            &&& t.max_frames == r.max_frames
            &&& t.max_bytes == r.max_bytes
        }),
{
    let grown = Ring { entries: r.entries.push((seq, datagram)), ..r };
    grown.lemma_trimmed();
    lemma_trimmed_loses(grown);
    let gone = grown.entries.len() - grown.trimmed().entries.len();
    if gone > 0 {
        assert(!grown.suffix_fits((grown.trimmed().entries.len() + 1) as int));
    }
}

proof fn lemma_trimmed_loses(ring: Ring)
    ensures
        ring.trimmed().entries.len() <= ring.entries.len(),
        ring.trimmed().lost_below == greatest_of(
            ring.entries,
            (ring.entries.len() - ring.trimmed().entries.len()) as nat,
            ring.lost_below,
        ),
    decreases ring.entries.len(),
{
    if !ring.in_budget() && ring.entries.len() > 0 {
        let e = ring.evicted();
        lemma_trimmed_loses(e);
        lemma_greatest_of_rest(
            ring.entries,
            (e.entries.len() - e.trimmed().entries.len()) as nat,
            ring.lost_below,
        );
    }
}

/// An acknowledgement drops the leading entries up to the number it confirms, and
/// no other: what is left is a tail that does not begin with such an entry. What
/// is reported as lost reaches at least that number.
pub proof fn lemma_an_acknowledgement_drops_what_it_confirms(r: Ring, contiguous: u32)
    ensures
        ({
            let t = r.acked(contiguous);
            let gone = r.entries.len() - t.entries.len();
            &&& 0 <= gone
            &&& t.entries == r.entries.skip(gone)
            &&& forall|i: int| 0 <= i < gone ==> (#[trigger] r.entries[i]).0.0 <= contiguous
            &&& t.entries.len() > 0 ==> t.entries[0].0.0 > contiguous
            &&& t.lost_below == if contiguous > r.lost_below {
                contiguous
            } else {
                r.lost_below
            }
            &&& t.max_frames == r.max_frames
            &&& t.max_bytes == r.max_bytes
        }),
{
    lemma_beyond_is_suffix(r.entries, contiguous);
    lemma_beyond_leads(r.entries, contiguous);
}

proof fn lemma_beyond_leads(entries: Seq<(XferSeq, Seq<u8>)>, contiguous: u32)
    ensures
        beyond(entries, contiguous).len() <= entries.len(),
        forall|i: int|
            0 <= i < entries.len() - beyond(entries, contiguous).len() ==> (
            #[trigger] entries[i]).0.0 <= contiguous,
        beyond(entries, contiguous).len() > 0 ==> beyond(entries, contiguous)[0].0.0 > contiguous,
    decreases entries.len(),
{
    if entries.len() > 0 && entries[0].0.0 <= contiguous {
        let rest = entries.skip(1);
        lemma_beyond_leads(rest, contiguous);
        assert forall|i: int|
            0 <= i < entries.len() - beyond(entries, contiguous).len() implies (
        #[trigger] entries[i]).0.0 <= contiguous by {
            if i > 0 {
                assert(rest[i - 1] == entries[i]);
            }
        }
    }
}

/// A ring starts empty with nothing lost, and each of its limits is at least one.
/// The bytes of its entries add up.
pub proof fn lemma_a_ring_starts_empty(
    max_frames: usize,
    max_bytes: usize,
    entries: Seq<(XferSeq, Seq<u8>)>,
    e: (XferSeq, Seq<u8>),
)
    ensures
        ({
            let r = Ring::empty(max_frames, max_bytes);
            &&& r.entries.len() == 0
            &&& r.lost_below == 0
            &&& r.max_frames == max_frames || (max_frames == 0 && r.max_frames == 1)
            &&& r.max_bytes == max_bytes || (max_bytes == 0 && r.max_bytes == 1)
        }),
        total_bytes(Seq::empty()) == 0,
        total_bytes(entries.push(e)) == total_bytes(entries) + e.1.len(),
{
    lemma_total_bytes_push(entries, e);
}

/// What is found under a number is the oldest entry with that number: there is
/// one, none before it has that number, and if nothing is found no entry has it.
pub proof fn lemma_the_oldest_entry_is_found(entries: Seq<(XferSeq, Seq<u8>)>, seq: XferSeq)
    ensures
        find(entries, seq) matches Some(d) ==> exists|i: int|
            0 <= i < entries.len() && #[trigger] entries[i] == (seq, d) && forall|j: int|
                0 <= j < i ==> (#[trigger] entries[j]).0 != seq,
        find(entries, seq) is None ==> forall|i: int|
            0 <= i < entries.len() ==> (#[trigger] entries[i]).0 != seq,
    decreases entries.len(),
{
    if entries.len() > 0 && entries[0].0 != seq {
        let rest = entries.skip(1);
        lemma_the_oldest_entry_is_found(rest, seq);
        if let Some(d) = find(rest, seq) {
            let i = choose|i: int|
                0 <= i < rest.len() && #[trigger] rest[i] == (seq, d) && forall|j: int|
                    0 <= j < i ==> (#[trigger] rest[j]).0 != seq;
            assert(entries[i + 1] == (seq, d));
            assert forall|j: int| 0 <= j < i + 1 implies (#[trigger] entries[j]).0 != seq by {
                if j > 0 {
                    assert(rest[j - 1] == entries[j]);
                }
            }
        } else {
            assert forall|i: int| 0 <= i < entries.len() implies (#[trigger] entries[i]).0
                != seq by {
                if i > 0 {
                    assert(rest[i - 1] == entries[i]);
                }
            }
        }
    } else if entries.len() > 0 {
        assert(entries[0] == (seq, entries[0].1));
    }
}

/// What the calls store, in order.
pub open spec fn stored(inputs: Seq<RingInput>) -> Seq<(XferSeq, Seq<u8>)>
    decreases inputs.len(),
{
    if inputs.len() == 0 {
        Seq::empty()
    } else {
        match inputs.last() {
            RingInput::Push { seq, datagram } => stored(inputs.drop_last()).push((seq, datagram)),
            RingInput::Ack { .. } => stored(inputs.drop_last()),
        }
    }
}

/// Whatever is stored and acknowledged, the ring holds the newest part of what was
/// stored, unchanged and in order.
pub proof fn lemma_the_ring_holds_the_newest(
    max_frames: usize,
    max_bytes: usize,
    inputs: Seq<RingInput>,
)
    ensures
        ({
            let held = Ring::empty(max_frames, max_bytes).run(inputs).entries;
            let all = stored(inputs);
            &&& held.len() <= all.len()
            &&& held == all.skip(all.len() - held.len())
        }),
    decreases inputs.len(),
{
    if inputs.len() > 0 {
        let before = inputs.drop_last();
        lemma_the_ring_holds_the_newest(max_frames, max_bytes, before);
        let r = Ring::empty(max_frames, max_bytes).run(before);
        let t = r.step(inputs.last());
        let all = stored(inputs);
        match inputs.last() {
            RingInput::Push { seq, datagram } => {
                lemma_a_push_evicts_only_what_it_must(r, seq, datagram);
                assert(r.entries.push((seq, datagram)) =~= all.skip(
                    all.len() - 1 - r.entries.len(),
                ));
            },
            RingInput::Ack { contiguous } => {
                lemma_an_acknowledgement_drops_what_it_confirms(r, contiguous);
            },
        }
        assert(t.entries =~= all.skip(all.len() - t.entries.len()));
    }
}

} // verus!
