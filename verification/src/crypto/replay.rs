//! Replay protection for control packets.

use vstd::prelude::*;

use crate::error::{Error, Result};

verus! {

/// Words in the bitmap.
const WORDS: usize = 16;

/// Guards against a captured control packet being replayed later.
///
/// The cipher proves a packet was authentic when it was written; it says nothing
/// about whether it was already delivered. Without this a recorded `Nack` could
/// be re-injected to drive pointless retransmission.
///
/// Applies to control packets only. `Data` is deduplicated by transfer sequence
/// number instead, because a legitimate retransmission is a byte-identical
/// resend and would otherwise be rejected here.
#[derive(Debug)]
pub struct ReplayWindow {
    highest: u64,
    /// Bitmap of the [`Self::WIDTH`] counters below `highest`; bit `i` stands for
    /// `highest - 1 - i`. `highest` itself is implicitly seen and has no bit.
    seen: [u64; WORDS],
    started: bool,
}

/// What a window knows: nothing yet, or the highest counter accepted and which
/// of the counters from there down to [`ReplayWindow::WIDTH`] below were accepted.
#[verifier::ext_equal]
pub struct Seen {
    pub started: bool,
    pub highest: nat,
    pub counters: Set<nat>,
}

impl Seen {
    /// Nothing has been accepted.
    pub open spec fn nothing() -> Seen {
        Seen { started: false, highest: 0, counters: Set::empty() }
    }

    /// Whether `c` is new: above everything so far, or within reach below it and
    /// not accepted before.
    pub open spec fn fresh(self, c: nat) -> bool {
        !self.started || c > self.highest || (self.highest - c <= ReplayWindow::WIDTH
            && !self.counters.contains(c))
    }

    /// The window after `c` has been accepted.
    pub open spec fn with(self, c: nat) -> Seen {
        let highest = if self.started && self.highest > c {
            self.highest
        } else {
            c
        };
        Seen {
            started: true,
            highest,
            counters: self.counters.insert(c).filter(|k: nat| highest - k <= ReplayWindow::WIDTH),
        }
    }

    /// The window after `c` has been offered to it.
    pub open spec fn offered(self, c: nat) -> Seen {
        if self.fresh(c) {
            self.with(c)
        } else {
            self
        }
    }

    /// The window after each counter of `cs` has been offered in turn.
    pub open spec fn after(self, cs: Seq<nat>) -> Seen
        decreases cs.len(),
    {
        if cs.len() == 0 {
            self
        } else {
            self.after(cs.drop_last()).offered(cs.last())
        }
    }

    /// Whether `c` is behind the window, or remembered by it.
    spec fn spent(self, c: nat) -> bool {
        self.started && c <= self.highest && (self.highest - c > ReplayWindow::WIDTH
            || self.counters.contains(c))
    }
}

/// Bit `b` of the word `w`.
spec fn bit(w: u64, b: u64) -> bool {
    (w >> b) & 1 == 1
}

/// Bit `i` of a bitmap.
spec fn bit_at(words: Seq<u64>, i: int) -> bool {
    bit(words[i / 64], (i % 64) as u64)
}

impl View for ReplayWindow {
    type V = Seen;

    closed spec fn view(&self) -> Seen {
        Seen {
            started: self.started,
            highest: self.highest as nat,
            counters: Set::new(
                |k: nat|
                    self.started && (k == self.highest || (k < self.highest && self.highest - k
                        <= ReplayWindow::WIDTH && bit_at(self.seen@, self.highest - 1 - k))),
            ),
        }
    }
}

proof fn lemma_set_bit(w: u64, b: u64)
    requires
        b < 64,
    ensures
        forall|k: u64| k < 64 ==> #[trigger] bit(w | (1u64 << b), k) == (k == b || bit(w, k)),
{
    assert forall|k: u64| k < 64 implies #[trigger] bit(w | (1u64 << b), k) == (k == b || bit(
        w,
        k,
    )) by {
        assert(((w | (1u64 << b)) >> k) & 1 == 1 <==> (k == b || (w >> k) & 1 == 1))
            by (bit_vector)
            requires
                k < 64,
                b < 64,
        ;
    }
}

proof fn lemma_test_bit(w: u64, b: u64)
    requires
        b < 64,
    ensures
        (w & (1u64 << b) != 0) == bit(w, b),
{
    assert((w & (1u64 << b) != 0) <==> ((w >> b) & 1 == 1)) by (bit_vector)
        requires
            b < 64,
    ;
}

proof fn lemma_zero_bits()
    ensures
        forall|k: u64| k < 64 ==> !#[trigger] bit(0, k),
{
    assert forall|k: u64| k < 64 implies !#[trigger] bit(0, k) by {
        assert((0u64 >> k) & 1 == 0) by (bit_vector)
            requires
                k < 64,
        ;
    }
}

/// Shifting a word up by `s` and filling in from the word below.
proof fn lemma_shift_bits(w: u64, below: u64, s: u64)
    requires
        0 < s < 64,
    ensures
        forall|k: u64|
            k < 64 ==> #[trigger] bit((w << s) | (below >> (64 - s) as u64), k) == if k >= s {
                bit(w, (k - s) as u64)
            } else {
                bit(below, (64 - s + k) as u64)
            },
{
    assert forall|k: u64| k < 64 implies #[trigger] bit(
        (w << s) | (below >> (64 - s) as u64),
        k,
    ) == if k >= s {
        bit(w, (k - s) as u64)
    } else {
        bit(below, (64 - s + k) as u64)
    } by {
        if k >= s {
            assert((((w << s) | (below >> ((64 - s) as u64))) >> k) & 1 == (w >> ((k - s) as u64))
                & 1) by (bit_vector)
                requires
                    s <= k < 64,
                    0 < s < 64,
            ;
        } else {
            assert((((w << s) | (below >> ((64 - s) as u64))) >> k) & 1 == (below >> ((64 - s
                + k) as u64)) & 1) by (bit_vector)
                requires
                    k < s < 64,
            ;
        }
    }
}

impl Default for ReplayWindow {
    fn default() -> (w: Self)
        ensures
            w@ == Seen::nothing(),
    {
        ReplayWindow::new()
    }
}

impl ReplayWindow {
    /// Number of counters below the highest that a window remembers.
    pub const WIDTH: u64 = 1024;

    pub fn new() -> (w: Self)
        ensures
            w@ == Seen::nothing(),
    {
        let w = ReplayWindow { highest: 0, seen: [0u64; WORDS], started: false };
        assert(w@ =~= Seen::nothing());
        w
    }

    /// Record `counter`, returning `Err` if it was already seen or has fallen
    /// out of the window.
    pub fn accept(&mut self, counter: u32) -> (r: Result<()>)
        ensures
            r == (if old(self)@.fresh(counter as nat) {
                Ok::<(), Error>(())
            } else {
                Err::<(), Error>(Error::Replay(counter))
            }),
            final(self)@ == old(self)@.offered(counter as nat),
    {
        let c: u64 = counter as u64;
        let ghost before = *self;

        if !self.started {
            self.started = true;
            self.highest = c;
            self.seen = [0u64; WORDS];
            proof {
                lemma_zero_bits();
                assert(self@ =~= before@.with(c as nat));
            }
            return Ok(());
        }
        if c > self.highest {
            // `shift_by` records the outgoing highest, which is now `shift`
            // positions back. The incoming one needs no bit.
            let shift: u64 = c - self.highest;
            self.shift_by(shift);
            self.highest = c;
            proof {
                assert forall|k: nat| self@.counters.contains(k) == before@.with(
                    c as nat,
                ).counters.contains(k) by {
                    if k < c && c - k <= Self::WIDTH {
                        let i = c - 1 - k;
                        assert(shifted(before.seen@, self.seen@, shift as int, i));
                    }
                }
                assert(self@ =~= before@.with(c as nat));
            }
            return Ok(());
        }
        let back: u64 = self.highest - c;
        if back == 0 || back > Self::WIDTH {
            return Err(Error::Replay(counter));
        }
        if self.get(back - 1) {
            return Err(Error::Replay(counter));
        }
        self.set(back - 1);
        assert(self@ =~= before@.with(c as nat));
        Ok(())
    }

    /// Make room for a highest counter `shift` above the current one.
    fn shift_by(&mut self, shift: u64)
        requires
            shift > 0,
        ensures
            final(self).highest == old(self).highest,
            final(self).started == old(self).started,
            forall|i: int|
                0 <= i < Self::WIDTH ==> #[trigger] shifted(
                    old(self).seen@,
                    final(self).seen@,
                    shift as int,
                    i,
                ),
    {
        let ghost before = self.seen@;
        proof {
            lemma_zero_bits();
        }
        if shift > Self::WIDTH {
            self.seen = [0u64; WORDS];
            return;
        }
        let words: usize = (shift / 64) as usize;
        let bits: u64 = shift % 64;
        let mut i: usize = WORDS;
        while i > 0
            invariant
                i <= WORDS,
                words <= WORDS,
                self.highest == old(self).highest,
                self.started == old(self).started,
                forall|j: int|
                    i <= j < WORDS ==> #[trigger] self.seen@[j] == moved_word(
                        before,
                        j - words,
                    ),
                forall|j: int| 0 <= j < i ==> #[trigger] self.seen@[j] == before[j],
            decreases i,
        {
            i -= 1;
            self.seen[i] = if i >= words {
                self.seen[i - words]
            } else {
                0
            };
        }
        if bits > 0 {
            let mut carry: u64 = 0;
            let mut i: usize = 0;
            proof {
                assert(0u64 >> (64 - bits) as u64 == 0) by (bit_vector)
                    requires
                        0 < bits < 64,
                ;
            }
            while i < WORDS
                invariant
                    i <= WORDS,
                    words <= WORDS,
                    0 < bits < 64,
                    self.highest == old(self).highest,
                    self.started == old(self).started,
                    carry == moved_word(before, i - 1 - words) >> (64 - bits) as u64,
                    forall|j: int|
                        0 <= j < i ==> #[trigger] self.seen@[j] == (moved_word(before, j - words)
                            << bits) | (moved_word(before, j - 1 - words) >> (64 - bits) as u64),
                    forall|j: int|
                        i <= j < WORDS ==> #[trigger] self.seen@[j] == moved_word(
                            before,
                            j - words,
                        ),
                decreases WORDS - i,
            {
                let w: u64 = self.seen[i];
                let next: u64 = w >> (64 - bits);
                self.seen[i] = (w << bits) | carry;
                carry = next;
                i += 1;
            }
        }
        let ghost mid = self.seen@;
        proof {
            assert forall|i: int| 0 <= i < Self::WIDTH implies bit_at(mid, i) == (i >= shift
                && bit_at(before, i - shift)) by {
                lemma_moved_bit(before, mid, words as int, bits, i);
            }
        }
        // The previous `highest` is now `shift` positions back.
        self.set(shift - 1);
    }

    fn set(&mut self, bit: u64)
        requires
            bit < Self::WIDTH,
        ensures
            final(self).highest == old(self).highest,
            final(self).started == old(self).started,
            forall|i: int|
                0 <= i < Self::WIDTH ==> #[trigger] bit_at(final(self).seen@, i) == (i == bit
                    || bit_at(old(self).seen@, i)),
    {
        let word: usize = (bit / 64) as usize;
        let w: u64 = self.seen[word];
        self.seen[word] = w | (1u64 << (bit % 64));
        proof {
            lemma_set_bit(w, bit % 64);
        }
    }

    fn get(&self, bit: u64) -> (b: bool)
        requires
            bit < Self::WIDTH,
        ensures
            b == bit_at(self.seen@, bit as int),
    {
        let w: u64 = self.seen[(bit / 64) as usize];
        proof {
            lemma_test_bit(w, bit % 64);
        }
        w & (1u64 << (bit % 64)) != 0
    }
}

/// Bit `i` after a shift: the old highest has moved to `shift - 1`, everything
/// else has moved up by `shift`.
spec fn shifted(before: Seq<u64>, after: Seq<u64>, shift: int, i: int) -> bool {
    bit_at(after, i) == (i == shift - 1 || (i >= shift && bit_at(before, i - shift)))
}

/// Word `j` of `words`, or zero below the first.
spec fn moved_word(words: Seq<u64>, j: int) -> u64 {
    if j >= 0 {
        words[j]
    } else {
        0
    }
}

proof fn lemma_moved_bit(before: Seq<u64>, after: Seq<u64>, words: int, bits: u64, i: int)
    requires
        before.len() == WORDS,
        after.len() == WORDS,
        0 <= words <= WORDS,
        bits < 64,
        0 <= i < ReplayWindow::WIDTH,
        bits == 0 ==> forall|j: int|
            0 <= j < WORDS ==> #[trigger] after[j] == moved_word(before, j - words),
        bits > 0 ==> forall|j: int|
            0 <= j < WORDS ==> #[trigger] after[j] == (moved_word(before, j - words) << bits) | (
            moved_word(before, j - 1 - words) >> (64 - bits) as u64),
    ensures
        bit_at(after, i) == (i >= 64 * words + bits && bit_at(before, i - (64 * words + bits))),
{
    lemma_zero_bits();
    let j = i / 64;
    let k = (i % 64) as u64;
    let shift = 64 * words + bits;
    let w = moved_word(before, j - words);
    let below = moved_word(before, j - 1 - words);
    if bits == 0 {
        if i >= shift {
            assert((i - shift) / 64 == j - words && (i - shift) % 64 == k);
        }
    } else {
        lemma_shift_bits(w, below, bits);
        assert(after[j] == (w << bits) | (below >> (64 - bits) as u64));
        if k >= bits {
            if i >= shift {
                assert((i - shift) / 64 == j - words && (i - shift) % 64 == k - bits);
            }
        } else {
            if i >= shift {
                assert((i - shift) / 64 == j - 1 - words && (i - shift) % 64 == 64 - bits + k);
            }
        }
    }
}

/// No counter is ever accepted twice: once a counter has been offered, whatever
/// is offered in between, it is refused when it is offered again.
pub proof fn lemma_never_accepted_twice(start: Seen, cs: Seq<nat>, i: int, j: int)
    requires
        0 <= i < j < cs.len(),
        cs[i] == cs[j],
    ensures
        !start.after(cs.take(j)).fresh(cs[j]),
{
    lemma_offered_is_spent(start, cs.take(j), i);
}

proof fn lemma_offered_is_spent(start: Seen, cs: Seq<nat>, i: int)
    requires
        0 <= i < cs.len(),
    ensures
        start.after(cs).spent(cs[i]),
    decreases cs.len(),
{
    if i < cs.len() - 1 {
        lemma_offered_is_spent(start, cs.drop_last(), i);
    }
}

/// Reordering is harmless: a counter that was never offered is accepted as long
/// as it lies at most [`ReplayWindow::WIDTH`] below the highest one accepted.
pub proof fn lemma_late_arrivals_are_accepted(cs: Seq<nat>, c: nat)
    requires
        !cs.contains(c),
        Seen::nothing().after(cs).highest - c <= ReplayWindow::WIDTH,
    ensures
        Seen::nothing().after(cs).fresh(c),
{
    if Seen::nothing().after(cs).counters.contains(c) {
        lemma_remembered_was_offered(cs, c);
    }
}

proof fn lemma_remembered_was_offered(cs: Seq<nat>, c: nat)
    requires
        Seen::nothing().after(cs).counters.contains(c),
    ensures
        cs.contains(c),
    decreases cs.len(),
{
    if cs.len() > 0 {
        if c == cs.last() {
            assert(cs[cs.len() - 1] == c);
        } else {
            lemma_remembered_was_offered(cs.drop_last(), c);
            let i = choose|i: int| 0 <= i < cs.drop_last().len() && cs.drop_last()[i] == c;
            assert(cs[i] == c);
        }
    }
}

/// The greatest of `cs`, or zero.
pub open spec fn greatest(cs: Seq<nat>) -> nat
    decreases cs.len(),
{
    if cs.len() == 0 {
        0
    } else {
        let before = greatest(cs.drop_last());
        if cs.last() > before {
            cs.last()
        } else {
            before
        }
    }
}

/// None of `cs` is above the greatest, which is one of them unless it is zero.
pub proof fn lemma_greatest(cs: Seq<nat>)
    ensures
        forall|i: int| 0 <= i < cs.len() ==> #[trigger] cs[i] <= greatest(cs),
        greatest(cs) > 0 ==> cs.contains(greatest(cs)),
    decreases cs.len(),
{
    if cs.len() > 0 {
        let before = cs.drop_last();
        lemma_greatest(before);
        assert(cs[cs.len() - 1] == cs.last());
        assert forall|i: int| 0 <= i < cs.len() implies #[trigger] cs[i] <= greatest(cs) by {
            if i < before.len() {
                assert(before[i] == cs[i]);
            }
        }
        if greatest(cs) > 0 && greatest(cs) == greatest(before) {
            let i = choose|i: int| 0 <= i < before.len() && before[i] == greatest(before);
            assert(cs[i] == greatest(cs));
        }
    }
}

proof fn lemma_highest_is_greatest(cs: Seq<nat>)
    ensures
        Seen::nothing().after(cs).started == (cs.len() > 0),
        Seen::nothing().after(cs).highest == greatest(cs),
    decreases cs.len(),
{
    if cs.len() > 0 {
        lemma_highest_is_greatest(cs.drop_last());
    }
}

/// A counter is accepted exactly if it was never offered before and lies no more
/// than 1024 below the greatest that was, whatever was offered and in whatever
/// order. The first counter of all is accepted, whatever it is.
pub proof fn lemma_a_counter_is_accepted_once_and_in_time(cs: Seq<nat>, c: nat)
    ensures
        Seen::nothing().after(cs).fresh(c) <==> !cs.contains(c) && (cs.len() == 0 || greatest(cs) - c
            <= 1024),
{
    lemma_highest_is_greatest(cs);
    if cs.contains(c) {
        let i = choose|i: int| 0 <= i < cs.len() && cs[i] == c;
        lemma_offered_is_spent(Seen::nothing(), cs, i);
    } else if cs.len() > 0 && greatest(cs) - c <= 1024 {
        lemma_late_arrivals_are_accepted(cs, c);
    }
}

/// Counters too far back are refused, seen or not.
pub proof fn lemma_too_old_is_refused(w: Seen, c: nat)
    requires
        w.started,
        w.highest - c > ReplayWindow::WIDTH,
    ensures
        !w.fresh(c),
{
}

} // verus!
