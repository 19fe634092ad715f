//! What holds of a gap tracker over everything that has arrived.

use vstd::prelude::*;

use super::gap_tracker::Arrivals;
use crate::types::XferSeq;

verus! {

impl Arrivals {
    /// The state after each of `seqs` has arrived in turn.
    pub open spec fn after(self, seqs: Seq<u32>) -> Arrivals
        decreases seqs.len(),
    {
        if seqs.len() == 0 {
            self
        } else {
            self.after(seqs.drop_last()).recorded(seqs.last())
        }
    }
}

proof fn lemma_on_record(seqs: Seq<u32>)
    ensures
        ({
            let a = Arrivals::none().after(seqs);
            &&& a.valid()
            &&& forall|k: u32| #[trigger] a.has(k) <==> k == 0 || seqs.contains(k)
            &&& a.highest > 0 ==> seqs.contains(a.highest)
        }),
    decreases seqs.len(),
{
    let a = Arrivals::none().after(seqs);
    if seqs.len() > 0 {
        let before = seqs.drop_last();
        let b = Arrivals::none().after(before);
        lemma_on_record(before);
        b.lemma_recorded(seqs.last());
        assert(seqs[seqs.len() - 1] == seqs.last());
        assert forall|k: u32| seqs.contains(k) <==> before.contains(k) || k == seqs.last() by {
            if before.contains(k) {
                let i = choose|i: int| 0 <= i < before.len() && before[i] == k;
                assert(seqs[i] == k);
            }
            if seqs.contains(k) {
                let i = choose|i: int| 0 <= i < seqs.len() && seqs[i] == k;
                if i < before.len() {
                    assert(before[i] == k);
                }
            }
        }
        assert forall|k: u32| #[trigger] a.has(k) <==> k == 0 || seqs.contains(k) by {
            assert(b.has(k) <==> k == 0 || before.contains(k));
        }
    }
}

/// The tracker goes by what has arrived, in whatever order and however often: an
/// arrival is news exactly if its number is not zero and has not arrived before;
/// the prefix ends before the first number that has not arrived; and the highest
/// number is the greatest that has.
pub proof fn lemma_what_has_arrived(seqs: Seq<u32>)
    ensures
        ({
            let a = Arrivals::none().after(seqs);
            &&& forall|k: u32| #[trigger] a.fresh(k) <==> k != 0 && !seqs.contains(k)
            &&& forall|k: u32| 1 <= k <= a.contiguous ==> #[trigger] seqs.contains(k)
            &&& a.contiguous < u32::MAX ==> !seqs.contains((a.contiguous + 1) as u32)
            &&& forall|i: int| 0 <= i < seqs.len() ==> #[trigger] seqs[i] <= a.highest
            &&& a.highest > 0 ==> seqs.contains(a.highest)
            &&& a.span() == a.highest - a.contiguous
        }),
{
    let a = Arrivals::none().after(seqs);
    lemma_on_record(seqs);
    assert forall|k: u32| #[trigger] a.fresh(k) <==> k != 0 && !seqs.contains(k) by {
        assert(a.has(k) <==> k == 0 || seqs.contains(k));
    }
    assert forall|k: u32| 1 <= k <= a.contiguous implies #[trigger] seqs.contains(k) by {
        assert(a.has(k));
    }
    if a.contiguous < u32::MAX {
        assert(!a.has((a.contiguous + 1) as u32));
    }
    assert forall|i: int| 0 <= i < seqs.len() implies #[trigger] seqs[i] <= a.highest by {
        assert(seqs.contains(seqs[i]));
        assert(a.has(seqs[i]));
    }
}

/// What is missing: numbers below the highest arrival that have not arrived, in
/// ascending order, at most `limit` of them; if one is left out, there are `limit`
/// lower ones.
pub proof fn lemma_what_is_missing(seqs: Seq<u32>, limit: nat)
    ensures
        ({
            let a = Arrivals::none().after(seqs);
            let g = a.first_gaps(limit);
            &&& g.len() <= limit
            &&& forall|i: int, j: int|
                0 <= i < j < g.len() ==> (#[trigger] g[i]).0 < (#[trigger] g[j]).0
            &&& forall|i: int|
                0 <= i < g.len() ==> 0 < (#[trigger] g[i]).0 < a.highest && !seqs.contains(g[i].0)
            &&& forall|k: u32|
                0 < k < a.highest && !(#[trigger] seqs.contains(k)) && !g.contains(XferSeq(k))
                    ==> g.len() == limit && (limit > 0 ==> g.last().0 < k)
        }),
{
    let a = Arrivals::none().after(seqs);
    let all = a.gaps();
    let g = a.first_gaps(limit);
    lemma_on_record(seqs);
    a.lemma_gaps_below(a.highest as nat);
    assert forall|i: int| 0 <= i < g.len() implies 0 < (#[trigger] g[i]).0 < a.highest
        && !seqs.contains(g[i].0) by {
        assert(g[i] == all[i]);
        assert(a.is_gap(all[i].0));
        assert(!a.has(g[i].0));
    }
    assert forall|k: u32|
        0 < k < a.highest && !(#[trigger] seqs.contains(k)) && !g.contains(
            XferSeq(k),
        ) implies g.len() == limit && (limit > 0 ==> g.last().0 < k) by {
        assert(!a.has(k));
        assert(a.has(a.highest));
        assert(a.ahead.contains(a.highest));
        assert(a.is_gap(k));
        let i = choose|i: int| 0 <= i < all.len() && all[i] == XferSeq(k);
        if i < g.len() {
            assert(g[i] == XferSeq(k));
        } else if limit > 0 {
            assert(all[limit - 1].0 < all[i].0);
        }
    }
}

/// Once nobody waits any more, everything up to the highest arrival counts as
/// arrived, nothing is missing, and only a number beyond it is news.
pub proof fn lemma_nothing_is_missing_once_abandoned(a: Arrivals, k: u32)
    requires
        a.valid(),
    ensures
        a.abandoned().contiguous == a.highest,
        a.abandoned().highest == a.highest,
        a.abandoned().fresh(k) <==> k > a.highest,
        a.abandoned().gaps().len() == 0,
{
    let b = a.abandoned();
    b.lemma_gaps_below(b.highest as nat);
    if b.gaps().len() > 0 {
        assert(b.is_gap(b.gaps()[0].0));
    }
}

} // verus!
