//! A ring driven by one thread at a time.
//!
//! `Ring` keeps the shared layout of the protocol (slots, per-slot generation
//! flags, `head`, `tail`, `epoch`) in ordinary memory and runs each producer and
//! consumer step of `crate::protocol` to completion before the next one starts.
//! Its contracts state what the protocol guarantees of every such run.
use vstd::prelude::*;
use vstd::arithmetic::div_mod::{
    lemma_add_mod_noop, lemma_mod_mod, lemma_small_mod, lemma_mod_multiples_basic,
    lemma_sub_mod_noop,
};
use vstd::arithmetic::power2::{is_pow2, is_pow2_equiv, pow2, lemma_pow2_adds, lemma2_to64,
    lemma_pow2_strictly_increases};
use crate::cell::UnsafeCell;
use crate::protocol::{
    Claim, Step, claimed_at, distance, drain, lap_after, positions, valid_capacity,
};

verus! {

/// Reducing a cursor modulo the number of cursor values keeps its slot.
proof fn lemma_wrap_slot(a: int, j: int, n: int)
    requires
        valid_capacity(n),
    ensures
        ((a % positions()) + j) % n == (a + j) % n,
{
    let q = positions() / n;
    assert(positions() == n * q) by {
        vstd::arithmetic::div_mod::lemma_fundamental_div_mod(positions(), n);
    }
    assert(q > 0) by (nonlinear_arith)
        requires
            positions() == n * q,
            n > 0,
    ;
    lemma_mod_mod(a, n, q);
    lemma_add_mod_noop(a % positions(), j, n);
    lemma_add_mod_noop(a, j, n);
}

/// Positions fewer than `n` apart fall in different slots.
proof fn lemma_distinct_slots(a: int, i: int, j: int, n: int)
    requires
        n > 0,
        0 <= i < j,
        j - i < n,
    ensures
        (a + i) % n != (a + j) % n,
{
    if (a + i) % n == (a + j) % n {
        lemma_sub_mod_noop(a + j, a + i, n);
        assert((a + j) - (a + i) == j - i);
        lemma_small_mod((j - i) as nat, n as nat);
        lemma_small_mod(0, n as nat);
        assert(false);
    }
}

/// Any `n` consecutive positions reach every slot.
proof fn lemma_cover(a: int, s: int, n: int)
    requires
        n > 0,
        0 <= s < n,
    ensures
        0 <= (s - a) % n < n,
        (a + (s - a) % n) % n == s,
{
    lemma_add_mod_noop(a, s - a, n);
    lemma_add_mod_noop(a, (s - a) % n, n);
    vstd::arithmetic::div_mod::lemma_mod_twice(s - a, n);
    lemma_small_mod(s as nat, n as nat);
}

/// A power of two no larger than half the cursor range divides the cursor range.
proof fn lemma_pow2_capacity(size: int)
    requires
        is_pow2(size),
        size <= 0x8000_0000,
    ensures
        valid_capacity(size),
{
    is_pow2_equiv(size);
    let i = choose|i: nat| vstd::arithmetic::power::pow(2, i) == size;
    lemma2_to64();
    vstd::arithmetic::power::lemma_pow_positive(2, i);
    assert(pow2(i) == size);
    if i >= 32 {
        if i > 32 {
            lemma_pow2_strictly_increases(32, i);
        }
        assert(false);
    }
    lemma_pow2_adds(i, (32 - i) as nat);
    let rest = pow2((32 - i) as nat) as int;
    assert(pow2(32) == size * rest);
    vstd::arithmetic::mul::lemma_mul_is_commutative(size, rest);
    lemma_mod_multiples_basic(rest, size);
    assert(positions() == rest * size);
}

/// Moving a cursor one step back from `to` shortens the distance by one.
proof fn lemma_distance_pop(from: u32, to: u32)
    requires
        from != to,
    ensures
        distance(from.wrapping_add(1), to) == distance(from, to) - 1,
{
    if from == u32::MAX {
        assert(from.wrapping_add(1) == 0);
    } else {
        assert(from.wrapping_add(1) == from + 1);
    }
}

/// Moving `to` one step forward lengthens the distance by one.
proof fn lemma_distance_push(from: u32, to: u32)
    requires
        distance(from, to) < positions() - 1,
    ensures
        distance(from, to.wrapping_add(1)) == distance(from, to) + 1,
{
    if to == u32::MAX {
        assert(to.wrapping_add(1) == 0);
    } else {
        assert(to.wrapping_add(1) == to + 1);
    }
}

/// The distance is zero exactly when the cursors meet.
proof fn lemma_distance_zero(from: u32, to: u32)
    ensures
        0 <= distance(from, to) < positions(),
        distance(from, to) == 0 <==> from == to,
{
}

/// A cursor `k` positions ahead of `to` is `distance(from, to) + k` ahead of `from`.
proof fn lemma_distance_ahead(from: u32, to: u32, k: int)
    requires
        0 <= k,
        distance(from, to) + k < positions(),
    ensures
        distance(from, ((to + k) % positions()) as u32) == distance(from, to) + k,
{
    let a = to + k;
    lemma_sub_mod_noop(a, from as int, positions());
    lemma_small_mod(from as nat, positions() as nat);
    lemma_add_mod_noop(to - from, k, positions());
    lemma_small_mod(k as nat, positions() as nat);
    lemma_small_mod((distance(from, to) + k) as nat, positions() as nat);
    assert(a - from == (to - from) + k);
}

/// `to` lies `distance(from, to)` positions past `from`, modulo the cursor range.
proof fn lemma_distance_pos(from: u32, to: u32)
    ensures
        to as int == (from + distance(from, to)) % positions(),
{
    vstd::arithmetic::div_mod::lemma_add_mod_noop_right(from as int, to - from, positions());
    lemma_small_mod(to as nat, positions() as nat);
}

/// Stepping a wrapped cursor is stepping the position it stands for.
proof fn lemma_wrap_next(x: u32, a: int)
    requires
        x as int == a % positions(),
    ensures
        x.wrapping_add(1) as int == (a + 1) % positions(),
{
    lemma_add_mod_noop(a, 1, positions());
    lemma_small_mod(1, positions() as nat);
    if x == u32::MAX {
        assert(x.wrapping_add(1) == 0);
    } else {
        assert(x.wrapping_add(1) == x + 1);
        lemma_small_mod((x + 1) as nat, positions() as nat);
    }
}

/// One lap past an even epoch is even again, and differs from it.
proof fn lemma_lap_after_even(e: u64)
    requires
        e % 2 == 0,
    ensures
        lap_after(e) % 2 == 0,
        lap_after(e) != e,
        e.wrapping_add(2) == lap_after(e),
        e.wrapping_add(1) == claimed_at(e),
        claimed_at(e) == e + 1,
        claimed_at(e).wrapping_add(1) == lap_after(e),
{
    if e + 2 >= 0x1_0000_0000_0000_0000 {
        assert(e == 0xffff_ffff_ffff_fffe);
        assert(lap_after(e) == 0);
    } else {
        assert(lap_after(e) == e + 2);
    }
}

/// A fixed-capacity ring of slots with the protocol's cursors and generation flags.
pub struct Ring<T> {
    slots: Vec<UnsafeCell<Option<T>>>,
    flags: Vec<u64>,
    head: u32,
    tail: u32,
    epoch: u64,
}

impl<T> Ring<T> {
    pub closed spec fn capacity(&self) -> int {
        self.slots@.len() as int
    }

    /// The consumer's cursor: the position read next.
    pub closed spec fn head(&self) -> u32 {
        self.head
    }

    /// The producers' cursor: the position published next.
    pub closed spec fn tail(&self) -> u32 {
        self.tail
    }

    /// The shared epoch.
    pub closed spec fn epoch(&self) -> u64 {
        self.epoch
    }

    /// The generation flag of each slot.
    pub closed spec fn flags(&self) -> Seq<u64> {
        self.flags@
    }

    /// Number of published values not yet popped.
    pub closed spec fn count(&self) -> int {
        distance(self.head, self.tail)
    }

    closed spec fn slot(&self, pos: int) -> Option<T> {
        self.slots@[pos % self.capacity()].get()
    }

    closed spec fn flag_at(&self, pos: int) -> u64 {
        self.flags@[pos % self.capacity()]
    }

    /// Advancing the epoch when the slot at `tail` is already one lap past it
    /// leaves every flag equal to the new epoch.
    proof fn lemma_advance_synced(self, pre: Self)
        requires
            pre.wf(),
            pre.synced(),
            pre.flag_at(pre.tail as int) != pre.epoch,
            self.slots == pre.slots,
            self.flags == pre.flags,
            self.head == pre.head,
            self.tail == pre.tail,
            self.epoch == lap_after(pre.epoch),
        ensures
            self.synced(),
            forall|s: int| 0 <= s < self.capacity() ==> #[trigger] self.flags@[s] == self.epoch,
    {
        let n = self.capacity();
        lemma_lap_after_even(pre.epoch);
        lemma_lap_after_even(self.epoch);
        assert(pre.tail + 0 == pre.tail as int);
        assert(0 <= (pre.tail as int) % n < n);
        assert(pre.flags@[(pre.tail as int) % n] == pre.epoch || pre.flags@[(pre.tail as int) % n] == lap_after(pre.epoch));
        assert forall|s: int| 0 <= s < n implies #[trigger] self.flags@[s] == self.epoch by {
            lemma_cover(pre.tail as int, s, n);
            let j = (s - pre.tail) % n;
            assert(pre.flag_at(pre.tail + 0) == lap_after(pre.epoch));
            assert(pre.flag_at(pre.tail + j) == lap_after(pre.epoch));
        }
    }

    /// The state after a claim at `tail` is written, published and settled.
    proof fn lemma_published(self, pre: Self, t: T)
        requires
            pre.wf(),
            pre.count() < pre.capacity(),
            pre.flag_at(pre.tail as int) == pre.epoch,
            self.slots@.len() == pre.slots@.len(),
            self.slots@[(pre.tail as int) % pre.capacity()].get() == Some(t),
            forall|s: int| 0 <= s < pre.capacity() && s != (pre.tail as int) % pre.capacity()
                ==> #[trigger] self.slots@[s] == pre.slots@[s],
            self.flags@ == pre.flags@.update((pre.tail as int) % pre.capacity(), lap_after(pre.epoch)),
            self.head == pre.head,
            self.tail == pre.tail.wrapping_add(1),
            self.epoch == pre.epoch,
        ensures
            self.wf(),
            self@ == pre@.push(t),
            pre.synced() ==> self.synced(),
    {
        let n = self.capacity();
        let at = (pre.tail as int) % n;
        lemma_lap_after_even(pre.epoch);
        lemma_distance_push(pre.head, pre.tail);
        lemma_distance_pos(pre.head, pre.tail);
        lemma_wrap_slot(pre.head + pre.count(), 0, n);
        lemma_wrap_next(pre.tail, pre.tail as int);
        lemma_small_mod(pre.tail as nat, positions() as nat);
        assert forall|i: int| 0 <= i < pre.count() implies #[trigger] self.slot(self.head + i)
            == pre.slot(pre.head + i) by {
            lemma_distinct_slots(pre.head as int, i, pre.count(), n);
        }
        assert(self.slot(self.head + pre.count()) == Some(t));
        assert forall|i: int| 0 <= i < self.count() implies (#[trigger] self.slot(
            self.head + i,
        )).is_some() by {
            if i < pre.count() {
                assert(self.slot(self.head + i) == pre.slot(pre.head + i));
            }
        }
        assert forall|s: int| 0 <= s < n implies #[trigger] self.flags@[s] % 2 == 0 by {
            if s != at {
                assert(self.flags@[s] == pre.flags@[s]);
            }
        }
        assert(self@ =~= pre@.push(t));
        if pre.synced() {
            assert forall|s: int| 0 <= s < n implies #[trigger] self.flags@[s] == self.epoch
                || self.flags@[s] == lap_after(self.epoch) by {
                if s != at {
                    assert(self.flags@[s] == pre.flags@[s]);
                }
            }
            assert forall|j1: int, j2: int|
                0 <= j1 <= j2 < n && #[trigger] self.flag_at(self.tail + j1) == lap_after(
                    self.epoch,
                ) implies #[trigger] self.flag_at(self.tail + j2) == lap_after(self.epoch) by {
                lemma_wrap_slot(pre.tail + 1, j1, n);
                lemma_wrap_slot(pre.tail + 1, j2, n);
                if j2 == n - 1 {
                    vstd::arithmetic::div_mod::lemma_mod_add_multiples_vanish(pre.tail as int, n);
                    assert(pre.tail + 1 + j2 == pre.tail + n);
                } else {
                    lemma_distinct_slots(pre.tail as int, 0, 1 + j2, n);
                    lemma_distinct_slots(pre.tail as int, 0, 1 + j1, n);
                    assert(pre.tail + 0 == pre.tail as int);
                    assert(self.flag_at(self.tail + j1) == pre.flag_at(pre.tail + (1 + j1)));
                    assert(self.flag_at(self.tail + j2) == pre.flag_at(pre.tail + (1 + j2)));
                }
            }
        }
    }

    /// The layout invariant: consistent sizes, cursors at most a lap apart, every
    /// published slot written, and no write in progress between operations.
    pub closed spec fn wf(&self) -> bool {
        &&& valid_capacity(self.capacity())
        &&& self.flags@.len() == self.capacity()
        &&& self.count() <= self.capacity()
        &&& self.epoch % 2 == 0
        &&& forall|s: int| 0 <= s < self.capacity() ==> #[trigger] self.flags@[s] % 2 == 0
        &&& forall|i: int|
            0 <= i < self.count() ==> (#[trigger] self.slot(self.head + i)).is_some()
    }

    /// The epoch is in step with the flags: every flag is the epoch or one lap past
    /// it, and walking forward from `tail`, the slots one lap past come last.
    /// Under this condition a producer always finds a free slot when one exists.
    pub closed spec fn synced(&self) -> bool {
        &&& forall|s: int|
            0 <= s < self.capacity() ==> #[trigger] self.flags@[s] == self.epoch
                || self.flags@[s] == lap_after(self.epoch)
        &&& forall|j1: int, j2: int|
            0 <= j1 <= j2 < self.capacity() && #[trigger] self.flag_at(self.tail + j1)
                == lap_after(self.epoch) ==> #[trigger] self.flag_at(self.tail + j2)
                == lap_after(self.epoch)
    }
}

impl<T> View for Ring<T> {
    type V = Seq<T>;

    /// The published values not yet popped, oldest first.
    closed spec fn view(&self) -> Seq<T> {
        Seq::new(self.count() as nat, |i: int| self.slot(self.head + i)->Some_0)
    }
}

/// Creates an empty ring with `size` slots.
pub fn new<T: Copy>(size: usize) -> (r: Ring<T>)
    requires
        is_pow2(size as int),
        size <= 0x8000_0000,
    ensures
        r.wf(),
        r.synced(),
        r.capacity() == size,
        r@ == Seq::<T>::empty(),
{
    proof {
        lemma_pow2_capacity(size as int);
    }
    let mut slots: Vec<UnsafeCell<Option<T>>> = Vec::with_capacity(size);
    let mut flags: Vec<u64> = Vec::with_capacity(size);
    let mut i: usize = 0;
    while i < size
        invariant
            i <= size,
            slots@.len() == i,
            flags@.len() == i,
            forall|s: int| 0 <= s < i ==> #[trigger] flags@[s] == 0,
        decreases size - i,
    {
        slots.push(UnsafeCell::new(None));
        flags.push(0);
        i = i + 1;
    }
    let r = Ring { slots, flags, head: 0, tail: 0, epoch: 0 };
    assert(r@ =~= Seq::<T>::empty());
    r
}

/// Reads a slot's content out of its cell.
fn copy_out<T: Copy>(p: &Option<T>) -> (o: Option<T>)
    ensures
        o == *p,
{
    *p
}

impl<T: Copy> Ring<T> {
    /// Publishes `t` after the values already in the ring, or hands it back.
    ///
    /// The producer claims the slot at `tail` when its flag carries the epoch,
    /// writes `t`, publishes it by moving `tail` on, and settles the flag one lap
    /// past the epoch. `Full` comes back, with `t` untouched, when every slot is
    /// published and unpopped. While the epoch is in step with the flags
    /// (`synced`), a push into a ring with room always succeeds.
    pub fn push(&mut self, t: T) -> (r: Result<(), T>)
        requires
            old(self).wf(),
        ensures
            final(self).wf(),
            final(self).capacity() == old(self).capacity(),
            r is Ok ==> final(self)@ == old(self)@.push(t),
            r is Err ==> r == Err::<(), T>(t) && final(self)@ == old(self)@,
            old(self)@.len() == old(self).capacity() ==> r is Err,
            old(self).synced() && old(self)@.len() < old(self).capacity() ==> r is Ok,
            old(self).synced() ==> final(self).synced(),
            final(self).head() == old(self).head(),
    {
        let n = self.slots.len() as u32;
        let mut c = Claim::start(n, self.head, self.tail, self.epoch);
        let ghost mut k: int = 0;
        proof {
            lemma_small_mod(self.tail as nat, positions() as nat);
        }
        loop
            invariant
                self.wf(),
                self.slots == old(self).slots,
                self.flags == old(self).flags,
                self.head == old(self).head,
                self.tail == old(self).tail,
                n as int == self.capacity(),
                c.capacity == n,
                c.head == self.head,
                c.epoch == self.epoch,
                c.settled,
                c.checked.is_none() || c.checked == Some(self.head),
                0 <= k,
                self.count() + k <= n,
                c.tail as int == (self.tail + k) % positions(),
                c.failed == (k > 0),
                forall|j: int| 0 <= j < k ==> #[trigger] self.flag_at(self.tail + j) != self.epoch,
                old(self).synced() ==> self.synced(),
                old(self).synced() && self.count() < n && c.checked.is_some() ==> k == 0
                    && forall|s: int| 0 <= s < n ==> #[trigger] self.flags@[s] == self.epoch,
            decreases
                (if c.checked.is_none() { 1int } else { 0int }),
                n - self.count() - k,
        {
            proof {
                lemma_distance_ahead(self.head, self.tail, k);
                lemma_lap_after_even(self.epoch);
            }
            match c.next() {
                Step::Broken => {
                    // the local tail never runs more than a lap ahead of head
                    proof {
                        assert(false);
                    }
                    return Err(t);
                },
                Step::Full => {
                    return Err(t);
                },
                Step::Refresh { advance } => {
                    let ghost pre = *self;
                    if advance {
                        self.epoch = c.advanced();
                    }
                    let e = self.epoch;
                    c.refreshed(self.head, self.tail, e);
                    proof {
                        assert forall|p: int| #[trigger] self.slot(p) == pre.slot(p) by {}
                        if old(self).synced() && advance {
                            self.lemma_advance_synced(pre);
                        }
                        k = 0;
                    }
                },
                Step::Claim { index } => {
                    proof {
                        lemma_wrap_slot(self.tail + k, 0, n as int);
                    }
                    let seen = self.flags[index];
                    assert(seen == self.flag_at(self.tail + k));
                    if seen == c.expected() {
                        proof {
                            if self.synced() && k > 0 {
                                assert(self.flag_at(self.tail + 0) != self.epoch);
                                assert(self.flag_at(self.tail + k) == lap_after(self.epoch));
                            }
                        }
                        if c.tail != self.tail {
                            // A claim past the shared tail is published only after
                            // other producers fill the gap; alone, hand the value back.
                            return Err(t);
                        }
                        let ghost pre = *self;
                        self.flags.set(index, c.claimed());
                        self.slots.set(index, UnsafeCell::new(Some(t)));
                        self.tail = self.tail.wrapping_add(1);
                        let settled = self.flags[index].wrapping_add(1);
                        self.flags.set(index, settled);
                        proof {
                            assert(index as int == (pre.tail as int) % (n as int));
                            assert(settled == lap_after(pre.epoch));
                            assert(self.flags@ =~= pre.flags@.update(
                                (pre.tail as int) % pre.capacity(),
                                lap_after(pre.epoch),
                            ));
                            self.lemma_published(pre, t);
                        }
                        return Ok(());
                    }
                    let ghost before = c.tail;
                    c.missed(seen);
                    proof {
                        lemma_wrap_next(before, self.tail + k);
                        k = k + 1;
                    }
                },
            }
        }
    }

    /// Removes and returns the oldest published value, or `None` when nothing is
    /// published.
    pub fn pop(&mut self) -> (r: Option<T>)
        requires
            old(self).wf(),
        ensures
            final(self).wf(),
            final(self).capacity() == old(self).capacity(),
            old(self)@.len() == 0 ==> r.is_none() && final(self)@ == old(self)@,
            old(self)@.len() > 0 ==> r == Some(old(self)@[0]) && final(self)@
                == old(self)@.drop_first(),
            old(self)@.len() == 0 ==> final(self).head() == old(self).head(),
            old(self)@.len() > 0 ==> final(self).head() == old(self).head().wrapping_add(1),
            final(self).tail() == old(self).tail(),
            final(self).epoch() == old(self).epoch(),
            final(self).flags() == old(self).flags(),
            old(self).synced() ==> final(self).synced(),
    {
        proof {
            lemma_distance_zero(self.head, self.tail);
        }
        let n = self.slots.len() as u32;
        match drain(self.head, self.tail, n) {
            None => None,
            Some(index) => {
                let ghost pre = *self;
                assert(pre.slot(pre.head + 0) == pre.slots@[index as int].get());
                let v = self.slots[index].with(copy_out::<T>);
                self.head = self.head.wrapping_add(1);
                proof {
                    lemma_distance_pop(pre.head, pre.tail);
                    assert forall|i: int| 0 <= i < self.count() implies #[trigger] self.slot(self.head + i)
                        == pre.slot(pre.head + (i + 1)) by {
                        lemma_wrap_slot(pre.head + 1, i, n as int);
                    }
                    assert(self@ =~= pre@.drop_first());
                    assert(pre.synced() ==> self.synced()) by {
                        assert forall|p: int| #[trigger] self.flag_at(p) == pre.flag_at(p) by {}
                    }
                }
                v
            },
        }
    }

    /// Moves the shared epoch one lap on without any other step, as a producer's
    /// cooperative advance does. The published values stay as they are.
    pub fn advance_epoch(&mut self)
        requires
            old(self).wf(),
        ensures
            final(self).wf(),
            final(self).capacity() == old(self).capacity(),
            final(self)@ == old(self)@,
            final(self).epoch() == lap_after(old(self).epoch()),
            final(self).head() == old(self).head(),
            final(self).tail() == old(self).tail(),
            final(self).flags() == old(self).flags(),
    {
        proof {
            lemma_lap_after_even(self.epoch);
        }
        self.epoch = self.epoch.wrapping_add(2);
        assert forall|p: int| #[trigger] self.slot(p) == old(self).slot(p) by {}
        assert(self@ =~= old(self)@);
    }
}


/// A well-formed ring never holds more unpopped values than it has slots.
pub proof fn lemma_capacity_bound<T>(r: &Ring<T>)
    requires
        r.wf(),
    ensures
        r@.len() <= r.capacity(),
{
}

} // verus!
