//! Sealed datagrams, kept until the receiver has confirmed them.

use std::collections::VecDeque;

use vstd::prelude::*;

use crate::types::XferSeq;

verus! {

/// Sealed datagrams held for retransmission.
///
/// The ring stores **already-encrypted bytes**, and there is deliberately no
/// way to put a plaintext frame in. Re-sealing a frame for a retransmission
/// would mean encrypting different bytes under a nonce that has already been
/// used, which leaks the Poly1305 key, so the type simply does not offer that
/// operation. A retransmission is a byte-identical resend and nothing else.
#[derive(Debug)]
pub struct RetransRing {
    entries: VecDeque<(XferSeq, Vec<u8>)>,
    bytes: u128,
    max_frames: usize,
    max_bytes: usize,
    /// Highest sequence number that has fallen out of the ring. Reported to the
    /// receiver so it can abandon the reliable stream in one round trip instead
    /// of spending its whole NACK budget on frames that no longer exist.
    lost_below: u32,
}

/// The state of a [`RetransRing`], oldest entry first.
#[verifier::ext_equal]
pub struct Ring {
    pub entries: Seq<(XferSeq, Seq<u8>)>,
    pub max_frames: usize,
    pub max_bytes: usize,
    pub lost_below: u32,
}

/// How many bytes the datagrams of `entries` have together.
pub open spec fn total_bytes(entries: Seq<(XferSeq, Seq<u8>)>) -> nat
    decreases entries.len(),
{
    if entries.len() == 0 {
        0
    } else {
        entries[0].1.len() + total_bytes(entries.skip(1))
    }
}

/// The oldest datagram stored for `seq`.
pub open spec fn find(entries: Seq<(XferSeq, Seq<u8>)>, seq: XferSeq) -> Option<Seq<u8>>
    decreases entries.len(),
{
    if entries.len() == 0 {
        None
    } else if entries[0].0 == seq {
        Some(entries[0].1)
    } else {
        find(entries.skip(1), seq)
    }
}

/// What is left of `entries` once the leading ones up to `contiguous` are gone.
pub open spec fn beyond(entries: Seq<(XferSeq, Seq<u8>)>, contiguous: u32) -> Seq<
    (XferSeq, Seq<u8>),
>
    decreases entries.len(),
{
    if entries.len() > 0 && entries[0].0.0 <= contiguous {
        beyond(entries.skip(1), contiguous)
    } else {
        entries
    }
}

pub open spec fn max_u32(a: u32, b: u32) -> u32 {
    if a < b {
        b
    } else {
        a
    }
}

impl Ring {
    pub open spec fn empty(max_frames: usize, max_bytes: usize) -> Ring {
        Ring {
            entries: Seq::empty(),
            max_frames: if max_frames == 0 {
                1
            } else {
                max_frames
            },
            max_bytes: if max_bytes == 0 {
                1
            } else {
                max_bytes
            },
            lost_below: 0,
        }
    }

    pub open spec fn in_budget(self) -> bool {
        self.entries.len() <= self.max_frames && total_bytes(self.entries) <= self.max_bytes
    }

    /// Whether the newest `n` entries would be within the budget.
    pub open spec fn suffix_fits(self, n: int) -> bool {
        Ring { entries: self.entries.skip(self.entries.len() - n), ..self }.in_budget()
    }

    /// The ring without its oldest entry, which now counts as lost.
    pub open spec fn evicted(self) -> Ring {
        Ring {
            entries: self.entries.skip(1),
            lost_below: max_u32(self.lost_below, self.entries[0].0.0),
            ..self
        }
    }

    /// The ring after evicting as few of the oldest entries as the budget asks.
    pub open spec fn trimmed(self) -> Ring
        decreases self.entries.len(),
    {
        if self.in_budget() || self.entries.len() == 0 {
            self
        } else {
            self.evicted().trimmed()
        }
    }

    /// The ring after `datagram` has been stored for `seq`.
    pub open spec fn pushed(self, seq: XferSeq, datagram: Seq<u8>) -> Ring {
        Ring { entries: self.entries.push((seq, datagram)), ..self }.trimmed()
    }

    /// The ring after the receiver has confirmed everything up to `contiguous`.
    pub open spec fn acked(self, contiguous: u32) -> Ring {
        Ring {
            entries: beyond(self.entries, contiguous),
            lost_below: max_u32(self.lost_below, contiguous),
            ..self
        }
    }

    /// Trimming leaves the longest suffix of what was there that is within the
    /// budget, and keeps the limits.
    pub proof fn lemma_trimmed(self)
        ensures
            self.trimmed().in_budget(),
            self.trimmed().max_frames == self.max_frames,
            self.trimmed().max_bytes == self.max_bytes,
            self.trimmed().entries.len() <= self.entries.len(),
            self.trimmed().entries == self.entries.skip(
                self.entries.len() - self.trimmed().entries.len(),
            ),
            self.lost_below <= self.trimmed().lost_below,
            forall|n: int|
                self.trimmed().entries.len() < n <= self.entries.len() ==> !self.suffix_fits(n),
        decreases self.entries.len(),
    {
        if self.in_budget() || self.entries.len() == 0 {
            assert(self.entries.skip(0) =~= self.entries);
        } else {
            let e = self.evicted();
            e.lemma_trimmed();
            let n = self.trimmed().entries.len();
            assert forall|m: int| n < m <= self.entries.len() implies !self.suffix_fits(m) by {
                let skipped = self.entries.len() - m;
                if skipped == 0 {
                    assert(self.entries.skip(0) =~= self.entries);
                } else {
                    assert(e.entries.skip(skipped - 1) =~= self.entries.skip(skipped));
                    assert(!e.suffix_fits(m));
                }
            }
            assert(self.entries.skip(1).skip(self.entries.len() - 1 - n) =~= self.entries.skip(
                self.entries.len() - n,
            ));
        }
    }

    /// What is held after an acknowledgement was held before it, above the
    /// confirmed prefix.
    pub proof fn lemma_acked_budget(self, contiguous: u32)
        requires
            self.in_budget(),
        ensures
            self.acked(contiguous).in_budget(),
    {
        lemma_beyond(self.entries, contiguous);
    }
}

proof fn lemma_beyond(entries: Seq<(XferSeq, Seq<u8>)>, contiguous: u32)
    ensures
        beyond(entries, contiguous).len() <= entries.len(),
        total_bytes(beyond(entries, contiguous)) <= total_bytes(entries),
    decreases entries.len(),
{
    if entries.len() > 0 && entries[0].0.0 <= contiguous {
        lemma_beyond(entries.skip(1), contiguous);
    }
}

pub proof fn lemma_total_bytes_push(entries: Seq<(XferSeq, Seq<u8>)>, e: (XferSeq, Seq<u8>))
    ensures
        total_bytes(entries.push(e)) == total_bytes(entries) + e.1.len(),
    decreases entries.len(),
{
    if entries.len() == 0 {
        assert(entries.push(e).skip(1) =~= entries);
    } else {
        lemma_total_bytes_push(entries.skip(1), e);
        assert(entries.push(e).skip(1) =~= entries.skip(1).push(e));
    }
}

impl View for RetransRing {
    type V = Ring;

    closed spec fn view(&self) -> Ring {
        Ring {
            entries: self.entries@.map_values(|e: (XferSeq, Vec<u8>)| (e.0, e.1@)),
            max_frames: self.max_frames,
            max_bytes: self.max_bytes,
            lost_below: self.lost_below,
        }
    }
}

impl RetransRing {
    /// The byte count is right and both limits are kept.
    pub closed spec fn wf(&self) -> bool {
        &&& self.bytes == total_bytes(self@.entries)
        &&& self@.in_budget()
    }

    /// A ring never holds more than its two limits allow.
    pub proof fn lemma_wf(&self)
        requires
            self.wf(),
        ensures
            self@.in_budget(),
    {
    }

    pub fn new(max_frames: usize, max_bytes: usize) -> (r: Self)
        ensures
            r.wf(),
            r@ == Ring::empty(max_frames, max_bytes),
    {
        let r = RetransRing {
            entries: VecDeque::new(),
            bytes: 0,
            max_frames: if max_frames == 0 {
                1
            } else {
                max_frames
            },
            max_bytes: if max_bytes == 0 {
                1
            } else {
                max_bytes
            },
            lost_below: 0,
        };
        assert(r@ =~= Ring::empty(max_frames, max_bytes));
        r
    }

    /// Store a sealed datagram, evicting the oldest entries to stay in budget.
    pub fn push(&mut self, seq: XferSeq, sealed: Vec<u8>)
        requires
            old(self).wf(),
        ensures
            final(self).wf(),
            final(self)@ == old(self)@.pushed(seq, sealed@),
    {
        let ghost before = self@;
        self.bytes = self.bytes + sealed.len() as u128;
        self.entries.push_back((seq, sealed));
        let ghost grown = Ring { entries: before.entries.push((seq, sealed@)), ..before };
        proof {
            lemma_total_bytes_push(before.entries, (seq, sealed@));
            assert(self@ =~= grown);
        }
        while self.entries.len() > self.max_frames || self.bytes > self.max_bytes as u128
            invariant
                self.bytes == total_bytes(self@.entries),
                self@.trimmed() == grown.trimmed(),
            decreases self.entries@.len(),
        {
            self.evict_oldest();
        }
    }

    /// The exact bytes previously sent for `seq`, if still held.
    pub fn get(&self, seq: XferSeq) -> (r: Option<&[u8]>)
        ensures
            match r {
                Some(d) => find(self@.entries, seq) == Some(d@),
                None => find(self@.entries, seq) is None,
            },
    {
        let n: usize = self.entries.len();
        let mut i: usize = 0;
        proof {
            assert(self@.entries.skip(0) =~= self@.entries);
        }
        while i < n
            invariant
                i <= n == self.entries@.len(),
                find(self@.entries, seq) == find(self@.entries.skip(i as int), seq),
            decreases n - i,
        {
            let e = &self.entries[i];
            assert(self@.entries.skip(i as int)[0] == (e.0, e.1@));
            if e.0.0 == seq.0 {
                return Some(e.1.as_slice());
            }
            assert(self@.entries.skip(i as int).skip(1) =~= self@.entries.skip(i + 1));
            i += 1;
        }
        None
    }

    /// Drop everything the receiver has confirmed.
    pub fn ack_through(&mut self, contiguous: XferSeq)
        requires
            old(self).wf(),
        ensures
            final(self).wf(),
            final(self)@ == old(self)@.acked(contiguous.0),
    {
        let ghost before = self@;
        proof {
            before.lemma_acked_budget(contiguous.0);
        }
        while self.entries.len() > 0 && self.entries[0].0.0 <= contiguous.0
            invariant
                self.bytes == total_bytes(self@.entries),
                self@.max_frames == before.max_frames,
                self@.max_bytes == before.max_bytes,
                beyond(self@.entries, contiguous.0) == beyond(before.entries, contiguous.0),
                before.lost_below <= self.lost_below <= max_u32(before.lost_below, contiguous.0),
            decreases self.entries@.len(),
        {
            self.evict_oldest();
        }
        // Frames up to the confirmed prefix are gone by agreement, and will
        // never be asked for again.
        if self.lost_below < contiguous.0 {
            self.lost_below = contiguous.0;
        }
    }

    /// Frames up to this are gone and will never be retransmitted.
    pub fn lost_below(&self) -> (s: XferSeq)
        ensures
            s.0 == self@.lost_below,
    {
        XferSeq(self.lost_below)
    }

    pub fn len(&self) -> (n: usize)
        ensures
            n == self@.entries.len(),
    {
        self.entries.len()
    }

    pub fn is_empty(&self) -> (b: bool)
        ensures
            b == (self@.entries.len() == 0),
    {
        self.entries.len() == 0
    }

    pub fn bytes(&self) -> (n: usize)
        requires
            self.wf(),
        ensures
            n == total_bytes(self@.entries),
    {
        self.bytes as usize
    }

    fn evict_oldest(&mut self) -> (r: Option<XferSeq>)
        requires
            old(self).bytes == total_bytes(old(self)@.entries),
        ensures
            final(self).bytes == total_bytes(final(self)@.entries),
            old(self)@.entries.len() == 0 ==> r is None && final(self)@ == old(self)@,
            old(self)@.entries.len() > 0 ==> r == Some(old(self)@.entries[0].0) && final(self)@
                == old(self)@.evicted(),
    {
        let ghost before = self@;
        match self.entries.pop_front() {
            None => None,
            Some((seq, data)) => {
                assert(before.entries[0] == (seq, data@));
                self.bytes = self.bytes - data.len() as u128;
                if self.lost_below < seq.0 {
                    self.lost_below = seq.0;
                }
                assert(self@ =~= before.evicted());
                Some(seq)
            },
        }
    }
}

} // verus!
