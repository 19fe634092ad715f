//! Which sequence numbers of a transfer have arrived.

use std::collections::BTreeSet;

use vstd::prelude::*;
use vstd::std_specs::btree::increasing_seq;
use vstd::std_specs::cmp::OrdSpec;

use crate::types::XferSeq;

verus! {

/// Tracks which transfer sequence numbers have arrived.
///
/// Keeps a contiguous prefix plus a set of everything above it. The prefix is
/// what the reliable stream may release and what `Ack.contiguous` reports; the
/// set is the reorder buffer's index.
#[derive(Debug)]
pub struct GapTracker {
    /// Everything up to and including this has arrived. Zero means nothing yet,
    /// since sequence numbers start at 1.
    contiguous: u32,
    /// Arrived, but above the prefix.
    ahead: BTreeSet<u32>,
    /// Highest sequence number seen at all.
    highest: u32,
}

/// The state of a [`GapTracker`].
#[verifier::ext_equal]
pub struct Arrivals {
    pub contiguous: u32,
    pub ahead: Set<u32>,
    pub highest: u32,
}

/// Where the unbroken run of members of `s` that follows `from` ends.
pub open spec fn run_end(from: u32, s: Set<u32>) -> u32
    decreases u32::MAX - from,
{
    if from < u32::MAX && s.contains((from + 1) as u32) {
        run_end((from + 1) as u32, s)
    } else {
        from
    }
}

/// The run is unbroken, and it ends where the next number is absent.
pub proof fn lemma_run_end(from: u32, s: Set<u32>)
    ensures
        from <= run_end(from, s),
        forall|k: u32| from < k <= run_end(from, s) ==> #[trigger] s.contains(k),
        run_end(from, s) < u32::MAX ==> !s.contains((run_end(from, s) + 1) as u32),
    decreases u32::MAX - from,
{
    if from < u32::MAX && s.contains((from + 1) as u32) {
        lemma_run_end((from + 1) as u32, s);
    }
}

impl Arrivals {
    /// Nothing has arrived.
    pub open spec fn none() -> Arrivals {
        Arrivals { contiguous: 0, ahead: Set::empty(), highest: 0 }
    }

    /// The prefix is as long as it can be, and nothing lies above `highest`.
    pub open spec fn valid(self) -> bool {
        &&& self.contiguous <= self.highest
        &&& self.ahead.finite()
        &&& forall|k: u32| #[trigger]
            self.ahead.contains(k) ==> self.contiguous + 1 < k <= self.highest
    }

    /// Whether `s` is on record as having arrived.
    pub open spec fn has(self, s: u32) -> bool {
        s <= self.contiguous || self.ahead.contains(s)
    }

    /// Whether an arrival of `s` is news. Zero is no sequence number.
    pub open spec fn fresh(self, s: u32) -> bool {
        s > self.contiguous && !self.ahead.contains(s)
    }

    /// The state after `s` has arrived.
    pub open spec fn recorded(self, s: u32) -> Arrivals {
        if self.fresh(s) {
            let all = self.ahead.insert(s);
            let contiguous = run_end(self.contiguous, all);
            Arrivals {
                contiguous,
                ahead: all.filter(|k: u32| k > contiguous),
                highest: if s > self.highest {
                    s
                } else {
                    self.highest
                },
            }
        } else {
            self
        }
    }

    /// Whether `k` is missing while something beyond it has arrived.
    pub open spec fn is_gap(self, k: u32) -> bool {
        !self.has(k) && exists|h: u32| #[trigger] self.ahead.contains(h) && k < h
    }

    /// The gaps below `end`, in ascending order.
    pub open spec fn gaps_below(self, end: nat) -> Seq<XferSeq>
        decreases end,
    {
        if end == 0 {
            Seq::empty()
        } else {
            let k = (end - 1) as u32;
            if self.is_gap(k) {
                self.gaps_below((end - 1) as nat).push(XferSeq(k))
            } else {
                self.gaps_below((end - 1) as nat)
            }
        }
    }

    /// All gaps, in ascending order.
    pub open spec fn gaps(self) -> Seq<XferSeq> {
        self.gaps_below(self.highest as nat)
    }

    /// The lowest gaps, at most `limit` of them.
    pub open spec fn first_gaps(self, limit: nat) -> Seq<XferSeq> {
        if self.gaps().len() <= limit {
            self.gaps()
        } else {
            self.gaps().take(limit as int)
        }
    }

    /// Nobody waits for what is missing any more.
    pub open spec fn abandoned(self) -> Arrivals {
        Arrivals { contiguous: self.highest, ahead: Set::empty(), highest: self.highest }
    }

    /// How far ahead of the prefix the furthest arrival sits.
    pub open spec fn span(self) -> nat {
        (self.highest - self.contiguous) as nat
    }

    /// Recording keeps the state valid, and only ever adds to what is on record.
    pub proof fn lemma_recorded(self, s: u32)
        requires
            self.valid(),
        ensures
            self.recorded(s).valid(),
            self.contiguous <= self.recorded(s).contiguous,
            self.highest <= self.recorded(s).highest,
            forall|k: u32| #[trigger]
                self.recorded(s).has(k) <==> self.has(k) || k == s,
    {
        if self.fresh(s) {
            let all = self.ahead.insert(s);
            lemma_run_end(self.contiguous, all);
            let c = run_end(self.contiguous, all);
            assert(c > self.contiguous ==> all.contains(c));
            assert forall|k: u32| #[trigger] self.recorded(s).has(k) <==> self.has(k) || k == s by {
                if self.contiguous < k <= c {
                    assert(all.contains(k));
                }
            }
        }
    }

    /// One arrival adds at most one number to those above the prefix.
    pub proof fn lemma_recorded_len(self, s: u32)
        requires
            self.valid(),
        ensures
            self.recorded(s).ahead.len() <= self.ahead.len() + 1,
    {
        if self.fresh(s) {
            let c = self.recorded(s).contiguous;
            self.ahead.insert(s).lemma_len_filter(|k: u32| k > c);
        }
    }

    proof fn lemma_gaps_prefix(self, a: nat, b: nat)
        requires
            a <= b,
        ensures
            self.gaps_below(a).len() <= self.gaps_below(b).len(),
            self.gaps_below(b).take(self.gaps_below(a).len() as int) == self.gaps_below(a),
        decreases b,
    {
        if a < b {
            self.lemma_gaps_prefix(a, (b - 1) as nat);
            let n = self.gaps_below(a).len() as int;
            assert(self.gaps_below(b).take(n) =~= self.gaps_below((b - 1) as nat).take(n));
        } else {
            assert(self.gaps_below(b).take(self.gaps_below(b).len() as int) =~= self.gaps_below(b));
        }
    }

    proof fn lemma_no_gaps_from(self, a: nat, b: nat)
        requires
            a <= b <= u32::MAX + 1,
            forall|h: u32| #[trigger] self.ahead.contains(h) ==> h <= a,
        ensures
            self.gaps_below(b) == self.gaps_below(a),
        decreases b,
    {
        if a < b {
            self.lemma_no_gaps_from(a, (b - 1) as nat);
        }
    }

    proof fn lemma_no_gaps_upto(self, b: nat)
        requires
            b <= self.contiguous + 1,
        ensures
            self.gaps_below(b).len() == 0,
        decreases b,
    {
        if b > 0 {
            self.lemma_no_gaps_upto((b - 1) as nat);
        }
    }

    /// The list of gaps is what it says: strictly ascending, and it holds every
    /// gap below `end` and nothing else.
    pub proof fn lemma_gaps_below(self, end: nat)
        requires
            end <= u32::MAX + 1,
        ensures
            forall|i: int, j: int|
                0 <= i < j < self.gaps_below(end).len() ==> #[trigger] self.gaps_below(end)[i].0
                    < #[trigger] self.gaps_below(end)[j].0,
            forall|i: int|
                0 <= i < self.gaps_below(end).len() ==> self.is_gap(
                    #[trigger] self.gaps_below(end)[i].0,
                ) && self.gaps_below(end)[i].0 < end,
            forall|k: u32|
                k < end && #[trigger] self.is_gap(k) ==> self.gaps_below(end).contains(XferSeq(k)),
        decreases end,
    {
        if end > 0 {
            let e = (end - 1) as nat;
            self.lemma_gaps_below(e);
            let g = self.gaps_below(e);
            let all = self.gaps_below(end);
            assert forall|k: u32| k < end && #[trigger] self.is_gap(k) implies all.contains(
                XferSeq(k),
            ) by {
                if k < e {
                    let i = choose|i: int| 0 <= i < g.len() && g[i] == XferSeq(k);
                    assert(all[i] == XferSeq(k));
                } else {
                    assert(all[all.len() - 1] == XferSeq(k));
                }
            }
        }
    }
}

proof fn lemma_ascending(s: Seq<&u32>)
    requires
        increasing_seq(s),
    ensures
        forall|i: int, j: int| 0 <= i < j < s.len() ==> *#[trigger] s[i] < *#[trigger] s[j],
{
    broadcast use vstd::laws_cmp::group_laws_cmp;

    assert(vstd::laws_cmp::obeys_cmp::<&u32>());
    assert forall|i: int, j: int| 0 <= i < j < s.len() implies *#[trigger] s[i] < *#[trigger] s[j] by {
        assert((&s[i]).cmp_spec(&s[j]) is Less);
    }
}

impl View for GapTracker {
    type V = Arrivals;

    closed spec fn view(&self) -> Arrivals {
        Arrivals { contiguous: self.contiguous, ahead: self.ahead@, highest: self.highest }
    }
}

impl Default for GapTracker {
    fn default() -> (g: Self)
        ensures
            g@ == Arrivals::none(),
    {
        GapTracker::new()
    }
}

impl GapTracker {
    pub fn new() -> (g: Self)
        ensures
            g@ == Arrivals::none(),
            g@.valid(),
    {
        GapTracker { contiguous: 0, ahead: BTreeSet::new(), highest: 0 }
    }

    /// Record an arrival. Returns `false` if it was a duplicate or already
    /// below the prefix, which is how a caller drops retransmissions it no
    /// longer needs without treating them as an error.
    pub fn record(&mut self, seq: XferSeq) -> (fresh: bool)
        requires
            old(self)@.valid(),
        ensures
            fresh == old(self)@.fresh(seq.0),
            final(self)@ == old(self)@.recorded(seq.0),
            final(self)@.valid(),
    {
        let ghost before = self@;
        proof {
            before.lemma_recorded(seq.0);
        }
        let s: u32 = seq.0;
        if s == 0 || s <= self.contiguous {
            return false;
        }
        if !self.ahead.insert(s) {
            assert(self@ =~= before);
            return false;
        }
        if s > self.highest {
            self.highest = s;
        }
        let ghost all = before.ahead.insert(s);
        assert(self.ahead@ =~= all.filter(|k: u32| k > before.contiguous));
        while self.contiguous < u32::MAX && self.ahead.remove(&(self.contiguous + 1))
            invariant
                self.highest == before.recorded(s).highest,
                run_end(self.contiguous, all) == run_end(before.contiguous, all),
                self.ahead@ == all.filter(|k: u32| k > self.contiguous),
            decreases u32::MAX - self.contiguous,
        {
            self.contiguous += 1;
            assert(self.ahead@ =~= all.filter(|k: u32| k > self.contiguous));
        }
        true
    }

    pub fn contiguous(&self) -> (s: XferSeq)
        ensures
            s.0 == self@.contiguous,
    {
        XferSeq(self.contiguous)
    }

    pub fn highest(&self) -> (s: XferSeq)
        ensures
            s.0 == self@.highest,
    {
        XferSeq(self.highest)
    }

    /// True once every sequence number up to `final_seq` has arrived.
    pub fn is_complete(&self, final_seq: XferSeq) -> (b: bool)
        ensures
            b == (self@.contiguous >= final_seq.0),
    {
        self.contiguous >= final_seq.0
    }

    /// Sequence numbers between the prefix and the highest arrival, capped at
    /// `limit` so one `Nack` stays inside the MTU.
    pub fn missing(&self, limit: usize) -> (out: Vec<XferSeq>)
        requires
            self@.valid(),
        ensures
            out@ == self@.first_gaps(limit as nat),
    {
        let mut out: Vec<XferSeq> = Vec::new();
        let mut expect: u64 = self.contiguous as u64 + 1;
        let ghost all = self@.gaps();
        proof {
            self@.lemma_no_gaps_upto(expect as nat);
        }
        for have in it: self.ahead.iter()
            invariant
                self@.valid(),
                all == self@.gaps(),
                self.contiguous < expect <= u32::MAX + 1,
                it.seq().unref().to_set() == self.ahead@,
                increasing_seq(it.seq()),
                forall|i: int| 0 <= i < it.index() ==> *#[trigger] it.seq()[i] < expect,
                expect == self.contiguous + 1 || (0 < it.index() && expect == *it.seq()[it.index() - 1] + 1),
                out@ == self@.gaps_below(expect as nat),
                out@.len() <= limit,
        {
            proof {
                lemma_ascending(it.seq());
                assert(it.seq().unref()[it.index()] == *have);
                assert(self.ahead@.contains(*have));
                assert forall|k: u32| #[trigger]
                    self.ahead@.contains(k) && k < *have implies k < expect by {
                    let i = choose|i: int| 0 <= i < it.seq().len() && it.seq().unref()[i] == k;
                    assert(*it.seq()[i] == k);
                    assert(*it.seq()[it.index()] == *have);
                }
            }
            while expect < *have as u64 && out.len() < limit
                invariant
                    self@.valid(),
                    self.ahead@.contains(*have),
                    self.contiguous < expect <= *have,
                    forall|k: u32| #[trigger] self.ahead@.contains(k) && k < *have ==> k < expect,
                    out@ == self@.gaps_below(expect as nat),
                    out@.len() <= limit,
                decreases *have - expect,
            {
                assert(self@.is_gap(expect as u32));
                out.push(XferSeq(expect as u32));
                expect += 1;
            }
            if out.len() >= limit {
                proof {
                    self@.lemma_gaps_prefix(expect as nat, self@.highest as nat);
                    assert(all.take(all.len() as int) =~= all);
                }
                return out;
            }
            assert(!self@.is_gap(*have));
            expect = *have as u64 + 1;
        }
        proof {
            if expect <= self@.highest {
                self@.lemma_no_gaps_from(expect as nat, self@.highest as nat);
            } else {
                self@.lemma_no_gaps_from(self@.highest as nat, expect as nat);
            }
        }
        out
    }

    /// How far ahead of the prefix the furthest arrival sits. The receiver's
    /// reorder window is a bound on this.
    pub fn window_span(&self) -> (n: u32)
        requires
            self@.valid(),
        ensures
            n == self@.span(),
    {
        self.highest.saturating_sub(self.contiguous)
    }

    /// Drop everything and jump the prefix forward, for when nobody is waiting
    /// for what is missing any more: from then on everything up to the highest
    /// arrival counts as arrived.
    pub fn abandon(&mut self)
        requires
            old(self)@.valid(),
        ensures
            final(self)@ == old(self)@.abandoned(),
            final(self)@ == (Arrivals {
                contiguous: old(self)@.highest,
                ahead: Set::empty(),
                ..old(self)@
            }),
            final(self)@.valid(),
    {
        self.contiguous = self.highest;
        self.ahead.clear();
    }
}

} // verus!
