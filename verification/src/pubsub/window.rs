//! Which sequence numbers of a feed have been received.

use vstd::prelude::*;

verus! {

/// How many sequence numbers are remembered.
pub const WINDOW: u64 = 64;

/// The highest sequence number received, and which of the last sixty-four have
/// been received: bit `n` stands for the one that is `n` lower.
#[derive(Clone, Copy, Debug, Eq, PartialEq)]
pub struct ReceiveWindow {
    highest: u64,
    bitmap: u64,
}

/// What a window remembers.
#[verifier::ext_equal]
pub struct WindowView {
    pub highest: u64,
    pub seen: Set<u64>,
}

/// The sequence number is not too old to be remembered.
pub open spec fn is_recent(highest: u64, seq: u64) -> bool {
    seq <= highest && highest - seq < WINDOW
}

/// The window of a feed whose first message has this sequence number.
pub open spec fn first_window(seq: u64) -> WindowView {
    WindowView { highest: seq, seen: Set::empty().insert(seq) }
}

/// The sequence number is new: higher than all, or recent and not received.
pub open spec fn is_new(window: WindowView, seq: u64) -> bool {
    seq > window.highest || is_recent(window.highest, seq) && !window.seen.contains(seq)
}

/// The window once the sequence number has been looked at.
pub open spec fn looked_at(window: WindowView, seq: u64) -> WindowView {
    if is_new(window, seq) {
        let highest = if seq > window.highest {
            seq
        } else {
            window.highest
        };
        WindowView {
            highest,
            seen: Set::new(
                |s: u64| (window.seen.contains(s) || s == seq) && is_recent(highest, s),
            ),
        }
    } else {
        window
    }
}

/// Whether a bit of a number is set.
spec fn bit(bitmap: u64, n: u64) -> bool {
    (bitmap >> n) & 1 == 1
}

/// The bits of a number that is moved up and gets a lowest bit.
proof fn bits_move_up(bitmap: u64, shift: u64, n: u64)
    requires
        1 <= shift < 64,
        n < 64,
    ensures
        bit((bitmap << shift) | 1, n) == (n == 0 || n >= shift && bit(
            bitmap,
            (n - shift) as u64,
        )),
{
    if n >= shift {
        let m = (n - shift) as u64;
        assert((((bitmap << shift) | 1) >> n) & 1 == (if n == 0 {
            1
        } else {
            (bitmap >> m) & 1
        })) by (bit_vector)
            requires
                1 <= shift < 64,
                n < 64,
                n >= shift,
                m == n - shift,
        ;
    } else {
        assert((((bitmap << shift) | 1) >> n) & 1 == (if n == 0 {
            1u64
        } else {
            0u64
        })) by (bit_vector)
            requires
                1 <= shift < 64,
                n < shift,
        ;
    }
}

/// The bits of a number in which one bit is set.
proof fn bits_with(bitmap: u64, age: u64, n: u64)
    requires
        age < 64,
        n < 64,
    ensures
        bit(bitmap | (1u64 << age), n) == (n == age || bit(bitmap, n)),
        (bitmap & (1u64 << age) != 0) == bit(bitmap, age),
{
    assert(((bitmap | (1u64 << age)) >> n) & 1 == 1 <==> (n == age || (bitmap >> n) & 1 == 1))
        by (bit_vector)
        requires
            age < 64,
            n < 64,
    ;
    assert((bitmap & (1u64 << age) != 0) == ((bitmap >> age) & 1 == 1)) by (bit_vector)
        requires
            age < 64,
    ;
}

/// The bits of one.
proof fn bits_of_one(n: u64)
    requires
        n < 64,
    ensures
        bit(1, n) == (n == 0),
{
    assert((1u64 >> n) & 1 == 1 <==> n == 0) by (bit_vector)
        requires
            n < 64,
    ;
}

impl View for ReceiveWindow {
    type V = WindowView;

    closed spec fn view(&self) -> WindowView {
        WindowView {
            highest: self.highest,
            seen: Set::new(
                |seq: u64|
                    is_recent(self.highest, seq) && bit(
                        self.bitmap,
                        (self.highest - seq) as u64,
                    ),
            ),
        }
    }
}

impl ReceiveWindow {
    /// The window of a feed whose first message has this sequence number.
    pub(crate) fn first(seq: u64) -> (window: Self)
        ensures
            window@ == first_window(seq),
    {
        let window = ReceiveWindow { highest: seq, bitmap: 1 };
        proof {
            assert forall|s: u64| window@.seen.contains(s) <==> s == seq by {
                if is_recent(seq, s) {
                    bits_of_one((seq - s) as u64);
                }
            }
            assert(window@ =~= first_window(seq));
        }
        window
    }

    /// Looks at a sequence number: whether it is new, so that its message is
    /// to be taken.
    pub(crate) fn accept(&mut self, seq: u64) -> (accepted: bool)
        ensures
            accepted == is_new(old(self)@, seq),
            final(self)@ == looked_at(old(self)@, seq),
    {
        let ghost before = *self;
        if seq > self.highest {
            let shift: u64 = seq - self.highest;
            self.bitmap = if shift >= 64 {
                1
            } else {
                (self.bitmap << shift) | 1
            };
            self.highest = seq;
            proof {
                let goal = looked_at(before@, seq);
                assert forall|s: u64| self@.seen.contains(s) <==> goal.seen.contains(s) by {
                    if is_recent(seq, s) {
                        let n = (seq - s) as u64;
                        if shift >= 64 {
                            bits_of_one(n);
                        } else {
                            bits_move_up(before.bitmap, shift, n);
                            if n >= shift {
                                assert((n - shift) as u64 == (before.highest - s) as u64);
                            }
                        }
                    }
                }
                assert(self@ =~= goal);
            }
            return true;
        }
        let age: u64 = self.highest - seq;
        if age >= 64 {
            return false;
        }
        let mask: u64 = 1u64 << age;
        proof {
            bits_with(self.bitmap, age, age);
        }
        if self.bitmap & mask != 0 {
            false
        } else {
            self.bitmap = self.bitmap | mask;
            proof {
                let goal = looked_at(before@, seq);
                assert forall|s: u64| self@.seen.contains(s) <==> goal.seen.contains(s) by {
                    if is_recent(self.highest, s) {
                        bits_with(before.bitmap, age, (self.highest - s) as u64);
                    }
                }
                assert(self@ =~= goal);
            }
            true
        }
    }
}

/// Once a sequence number is not new, it never becomes new again.
pub proof fn what_is_not_new_stays_so(window: WindowView, seq: u64, other: u64)
    requires
        !is_new(window, seq),
    ensures
        !is_new(looked_at(window, other), seq),
{
}

/// A sequence number that has been looked at is not new.
pub proof fn what_was_looked_at_is_not_new(window: WindowView, seq: u64)
    ensures
        !is_new(looked_at(window, seq), seq),
{
}

/// The window once all the sequence numbers have been looked at.
pub open spec fn looked_at_all(window: WindowView, seqs: Seq<u64>) -> WindowView
    decreases seqs.len(),
{
    if seqs.len() == 0 {
        window
    } else {
        looked_at(looked_at_all(window, seqs.drop_last()), seqs.last())
    }
}

/// No sequence number is new twice, however many others come in between and in
/// whatever order.
pub proof fn nothing_is_new_twice(window: WindowView, seq: u64, between: Seq<u64>)
    ensures
        !is_new(looked_at_all(looked_at(window, seq), between), seq),
    decreases between.len(),
{
    if between.len() == 0 {
        what_was_looked_at_is_not_new(window, seq);
    } else {
        nothing_is_new_twice(window, seq, between.drop_last());
        what_is_not_new_stays_so(
            looked_at_all(looked_at(window, seq), between.drop_last()),
            seq,
            between.last(),
        );
    }
}

/// Messages that overtake one another by fewer than sixty-four are all taken:
/// a recent sequence number that was not received is new.
pub proof fn reordering_is_tolerated(window: WindowView, seq: u64)
    requires
        is_recent(window.highest, seq),
        !window.seen.contains(seq),
    ensures
        is_new(window, seq),
{
}

} // verus!
