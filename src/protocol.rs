//! The decisions of the claim/publish/drain protocol.
//!
//! A producer keeps a small local state, a `Claim`, while it looks for a slot.
//! The party that owns the shared memory asks `Claim::next` what to do, performs
//! that step on the shared cursors and flags, and reports the outcome back with
//! `Claim::refreshed` or `Claim::missed`.
use vstd::prelude::*;

verus! {

/// Number of distinct cursor values: `head` and `tail` are `u32` positions that wrap.
pub open spec fn positions() -> int {
    0x1_0000_0000
}

/// How far `to` lies ahead of `from` on the wrapping cursor circle.
pub open spec fn distance(from: u32, to: u32) -> int {
    (to as int - from as int) % positions()
}

/// A slot count that the wrapping cursors can address: it divides the number of
/// cursor values, so `position % capacity` agrees across a wrap of the cursor.
pub open spec fn valid_capacity(capacity: int) -> bool {
    0 < capacity <= 0x8000_0000 && positions() % capacity == 0
}

/// The generation a slot takes once it is claimed at `epoch` (odd: write in progress).
pub open spec fn claimed_at(epoch: u64) -> u64 {
    ((epoch + 1) % 0x1_0000_0000_0000_0000) as u64
}

/// One lap past `epoch`: the generation of a slot written at `epoch`, and the
/// epoch after a cooperative advance.
pub open spec fn lap_after(epoch: u64) -> u64 {
    ((epoch + 2) % 0x1_0000_0000_0000_0000) as u64
}

/// What a producer does next.
pub enum Step {
    /// The cursors are further apart than the capacity: the protocol is broken.
    Broken,
    /// The ring is full and did not drain since the last check: report `Full`.
    Full,
    /// Re-read `head` and `tail`; if `advance`, move the shared epoch one lap on
    /// with a compare-and-swap from the producer's epoch, else re-read it.
    Refresh { advance: bool },
    /// Try to move the flag of slot `index` from `Claim::expected` to `Claim::claimed`.
    Claim { index: usize },
}

/// A producer's local view while it looks for a slot to claim.
pub struct Claim {
    pub capacity: u32,
    /// The last `head` read.
    pub head: u32,
    /// The position whose slot is tried next.
    pub tail: u32,
    /// The generation a claimable slot must carry.
    pub epoch: u64,
    /// The `head` held at the last fullness check of this call, if there was one.
    pub checked: Option<u32>,
    /// A claim failed since the last fullness check.
    pub failed: bool,
    /// Every failed claim since the last fullness check saw a settled (even) flag.
    pub settled: bool,
}

impl Claim {
    pub fn start(capacity: u32, head: u32, tail: u32, epoch: u64) -> (c: Claim)
        ensures
            c == (Claim { capacity, head, tail, epoch, checked: None, failed: false, settled: true }),
    {
        Claim { capacity, head, tail, epoch, checked: None, failed: false, settled: true }
    }

    /// The step that follows from the local view.
    pub fn next(&self) -> (s: Step)
        requires
            self.capacity > 0,
        ensures
            distance(self.head, self.tail) > self.capacity ==> s == Step::Broken,
            distance(self.head, self.tail) == self.capacity && self.checked == Some(self.head)
                ==> s == Step::Full,
            distance(self.head, self.tail) == self.capacity && self.checked != Some(self.head)
                ==> s == (Step::Refresh { advance: self.failed && self.settled }),
            distance(self.head, self.tail) < self.capacity ==> s == (Step::Claim {
                index: (self.tail % self.capacity) as usize,
            }),
    {
        let d = self.tail.wrapping_sub(self.head);
        if d > self.capacity {
            Step::Broken
        } else if d == self.capacity {
            match self.checked {
                Some(h) if h == self.head => Step::Full,
                _ => Step::Refresh { advance: self.failed && self.settled },
            }
        } else {
            Step::Claim { index: (self.tail % self.capacity) as usize }
        }
    }

    /// The flag value a claim of the slot at `self.tail` expects.
    pub fn expected(&self) -> (r: u64)
        ensures
            r == self.epoch,
    {
        self.epoch
    }

    /// The flag value a successful claim leaves in the slot.
    pub fn claimed(&self) -> (r: u64)
        ensures
            r == claimed_at(self.epoch),
    {
        self.epoch.wrapping_add(1)
    }

    /// The epoch a cooperative advance installs.
    pub fn advanced(&self) -> (r: u64)
        ensures
            r == lap_after(self.epoch),
    {
        self.epoch.wrapping_add(2)
    }

    /// Records the outcome of a `Step::Refresh`: the cursors and the epoch read anew.
    pub fn refreshed(&mut self, head: u32, tail: u32, epoch: u64)
        ensures
            *final(self) == (Claim {
                capacity: old(self).capacity,
                head,
                tail,
                epoch,
                checked: Some(old(self).head),
                failed: false,
                settled: true,
            }),
    {
        self.checked = Some(self.head);
        self.head = head;
        self.tail = tail;
        self.epoch = epoch;
        self.failed = false;
        self.settled = true;
    }

    /// Records a failed claim that found `seen` in the flag; moves on to the next slot.
    pub fn missed(&mut self, seen: u64)
        ensures
            *final(self) == (Claim {
                tail: old(self).tail.wrapping_add(1),
                failed: true,
                settled: old(self).settled && seen % 2 == 0,
                ..*old(self)
            }),
    {
        self.tail = self.tail.wrapping_add(1);
        self.failed = true;
        self.settled = self.settled && seen % 2 == 0;
    }
}

/// The consumer's decision: the slot to read next, or `None` when nothing is published.
pub fn drain(head: u32, tail: u32, capacity: u32) -> (r: Option<usize>)
    requires
        capacity > 0,
    ensures
        head == tail ==> r.is_none(),
        head != tail ==> r == Some((head % capacity) as usize),
{
    if head == tail {
        None
    } else {
        Some((head % capacity) as usize)
    }
}

} // verus!
