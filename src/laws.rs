//! Laws that relate several operations on a ring.
//!
//! `Ring::push` appends its value on success and `Ring::pop` returns the oldest
//! value. `replay` runs any sequence of calls on a `Ring` and states what every
//! such run gives; the spec functions and proofs state the same of the contents.
use vstd::prelude::*;
use crate::ring::Ring;

verus! {

/// The contents of a ring after each of `xs` is pushed, in order, with success:
/// each successful push appends its value (see `Ring::push`).
pub open spec fn pushed_all<T>(q: Seq<T>, xs: Seq<T>) -> Seq<T>
    decreases xs.len(),
{
    if xs.len() == 0 {
        q
    } else {
        pushed_all(q.push(xs[0]), xs.drop_first())
    }
}

/// The values that popping a ring with contents `q` returns until it reports
/// empty, in order: each pop returns the oldest value (see `Ring::pop`).
pub open spec fn drained<T>(q: Seq<T>) -> Seq<T>
    decreases q.len(),
{
    if q.len() == 0 {
        Seq::empty()
    } else {
        seq![q[0]] + drained(q.drop_first())
    }
}

/// Successful pushes add their values behind the values already there.
pub proof fn lemma_pushed_all<T>(q: Seq<T>, xs: Seq<T>)
    ensures
        pushed_all(q, xs) == q + xs,
    decreases xs.len(),
{
    if xs.len() > 0 {
        lemma_pushed_all(q.push(xs[0]), xs.drop_first());
        assert(q.push(xs[0]) + xs.drop_first() =~= q + xs);
    }
}

/// Draining a ring returns exactly its contents, oldest first.
pub proof fn lemma_drained<T>(q: Seq<T>)
    ensures
        drained(q) == q,
    decreases q.len(),
{
    if q.len() > 0 {
        lemma_drained(q.drop_first());
        assert(seq![q[0]] + q.drop_first() =~= q);
    }
}

/// No loss, no duplication, and publication order kept: after the values `xs`
/// are pushed with success into a ring holding `q`, draining it returns `q`
/// and then `xs`, in the order they were pushed; every value comes out exactly
/// as many times as it went in.
pub proof fn lemma_no_loss_in_order<T>(q: Seq<T>, xs: Seq<T>)
    ensures
        drained(pushed_all(q, xs)) == q + xs,
        drained(pushed_all(q, xs)).to_multiset() == q.to_multiset().add(xs.to_multiset()),
{
    lemma_pushed_all(q, xs);
    lemma_drained(q + xs);
    vstd::seq_lib::lemma_multiset_commutative(q, xs);
}

/// A value published before another is popped before it.
pub proof fn lemma_published_first_popped_first<T>(q: Seq<T>, a: T, b: T)
    ensures
        drained(pushed_all(q, seq![a, b])) == q + seq![a, b],
        drained(pushed_all(q, seq![a, b]))[q.len() as int] == a,
        drained(pushed_all(q, seq![a, b]))[q.len() as int + 1] == b,
{
    lemma_no_loss_in_order(q, seq![a, b]);
}

/// Backpressure: once as many values as there are slots have been pushed with
/// success into an empty ring and none popped, the ring is full, so the next
/// `Ring::push` reports `Full` with its value unchanged.
pub proof fn lemma_full_after_capacity_pushes<T>(r: &Ring<T>, xs: Seq<T>)
    requires
        r.wf(),
        xs.len() == r.capacity(),
        r@ == pushed_all(Seq::<T>::empty(), xs),
    ensures
        r@.len() == r.capacity(),
{
    lemma_pushed_all(Seq::<T>::empty(), xs);
    assert(Seq::<T>::empty() + xs =~= xs);
}

/// One operation on a ring.
pub enum Call<T> {
    Push(T),
    Pop,
    AdvanceEpoch,
}

/// Performs `calls` on `r` in order and returns the values whose push was
/// accepted and the values that pops returned, each in the order it happened.
///
/// Whatever the calls, including any number of extra epoch advances anywhere:
/// the values that went in (the contents at the start, then every accepted
/// push) are exactly the values that came out (every popped value, then what
/// is left), in the same order. So no value is lost or returned twice, values
/// come out in the order they were published, and a ring drained until `pop`
/// returns `None` has returned every accepted value exactly once. Epoch
/// advances add and remove nothing: they show up in neither sequence.
pub fn replay<T: Copy>(r: &mut Ring<T>, calls: &Vec<Call<T>>) -> (out: (Vec<T>, Vec<T>))
    requires
        old(r).wf(),
    ensures
        final(r).wf(),
        final(r).capacity() == old(r).capacity(),
        old(r)@ + out.0@ == out.1@ + final(r)@,
        out.0@.len() <= calls@.len(),
        out.1@.len() <= calls@.len(),
{
    let mut accepted: Vec<T> = Vec::new();
    let mut popped: Vec<T> = Vec::new();
    let mut i: usize = 0;
    while i < calls.len()
        invariant
            i <= calls@.len(),
            r.wf(),
            r.capacity() == old(r).capacity(),
            old(r)@ + accepted@ == popped@ + r@,
            accepted@.len() <= i,
            popped@.len() <= i,
        decreases calls@.len() - i,
    {
        let ghost before = r@;
        let ghost acc = accepted@;
        let ghost pop = popped@;
        match &calls[i] {
            Call::Push(t) => {
                if r.push(*t).is_ok() {
                    accepted.push(*t);
                    assert(old(r)@ + accepted@ =~= (old(r)@ + acc).push(*t));
                    assert(popped@ + r@ =~= (pop + before).push(*t));
                }
            },
            Call::Pop => {
                if let Some(v) = r.pop() {
                    popped.push(v);
                    assert(pop + before =~= popped@ + r@);
                }
            },
            Call::AdvanceEpoch => {
                r.advance_epoch();
            },
        }
        i = i + 1;
    }
    (accepted, popped)
}

/// Extra epoch advances never change what the consumer sees: two runs of
/// `replay` from the same contents whose accepted pushes agree and whose pops
/// returned values equally often (one run may hold any number of extra
/// `AdvanceEpoch` calls) popped the same values in the same order.
pub proof fn lemma_same_pushes_same_pops<T>(
    q: Seq<T>,
    accepted: Seq<T>,
    popped: Seq<T>,
    rest: Seq<T>,
    popped2: Seq<T>,
    rest2: Seq<T>,
)
    requires
        q + accepted == popped + rest,
        q + accepted == popped2 + rest2,
        popped.len() == popped2.len(),
    ensures
        popped == popped2,
{
    assert forall|i: int| 0 <= i < popped.len() implies popped[i] == popped2[i] by {
        assert((popped + rest)[i] == popped[i]);
        assert((popped2 + rest2)[i] == popped2[i]);
        assert((popped + rest)[i] == (popped2 + rest2)[i]);
    }
    assert(popped =~= popped2);
}

} // verus!
