//! A model of the slot's protocol in single steps.
//!
//! The operations of the slot take all that the two halves share at once, so one
//! runs after the other. The model takes them apart: a send is two steps, a write
//! to the back buffer and a swap; a receive is two steps, a swap and a read of the
//! front buffer. Only the swaps touch what both halves can see. The laws are of
//! this model: however the steps of the two halves interleave in it, they never
//! touch the same buffer, and a receive gives the value that was published last
//! before its swap. What ties the model to the slot is that each operation leads
//! where its two steps lead.

use vstd::prelude::*;

use crate::atomic_slot;
use crate::atomic_slot::{Shared, SlotReceiver, SlotSender};

verus! {

/// A slot of the model, between any two steps.
#[verifier::ext_equal]
pub ghost struct Protocol<T> {
    pub buffers: Seq<Option<T>>,
    pub back: int,
    pub middle: int,
    pub front: int,
    pub dirty: bool,
    /// The value that the producer wrote and has not published yet.
    pub written: Option<T>,
    /// The value that was published and not acquired yet.
    pub published: Option<T>,
    /// The value that the consumer acquired and has not read yet.
    pub acquired: Option<T>,
}

/// A step of either half.
pub ghost enum Step<T> {
    /// The producer writes a value to its buffer.
    Write(T),
    /// The producer swaps its buffer with the middle one and sets the flag.
    Publish,
    /// The consumer swaps its buffer with the middle one and clears the flag.
    Acquire,
    /// The consumer takes the value out of its buffer.
    Read,
}

impl<T> Protocol<T> {
    /// The roles have a buffer each, and each buffer holds what its role says.
    pub open spec fn inv(self) -> bool {
        &&& self.buffers.len() == 3
        &&& 0 <= self.back < 3
        &&& 0 <= self.middle < 3
        &&& 0 <= self.front < 3
        &&& self.back != self.middle
        &&& self.middle != self.front
        &&& self.back != self.front
        &&& self.dirty <==> self.published is Some
        &&& self.buffers[self.middle] == self.published
        &&& self.buffers[self.front] == self.acquired
        &&& self.written is Some ==> self.buffers[self.back] == self.written
    }

    /// Whether a step can be taken: a publish follows a write, a read follows an
    /// acquire, and there must be something to acquire.
    pub open spec fn enabled(self, step: Step<T>) -> bool {
        match step {
            Step::Write(_) => self.written is None,
            Step::Publish => self.written is Some,
            Step::Acquire => self.dirty && self.acquired is None,
            Step::Read => self.acquired is Some,
        }
    }

    /// Where a step leads.
    pub open spec fn after(self, step: Step<T>) -> Protocol<T> {
        match step {
            Step::Write(value) => Protocol {
                buffers: self.buffers.update(self.back, Some(value)),
                written: Some(value),
                ..self
            },
            Step::Publish => Protocol {
                back: self.middle,
                middle: self.back,
                dirty: true,
                written: None,
                published: self.written,
                ..self
            },
            Step::Acquire => Protocol {
                front: self.middle,
                middle: self.front,
                dirty: false,
                published: None,
                acquired: self.published,
                ..self
            },
            Step::Read => Protocol {
                buffers: self.buffers.update(self.front, None),
                acquired: None,
                ..self
            },
        }
    }

    /// What a read gives.
    pub open spec fn value_read(self) -> Option<T> {
        self.buffers[self.front]
    }
}

/// Whether a run of steps can be taken.
pub open spec fn runs<T>(p: Protocol<T>, steps: Seq<Step<T>>) -> bool
    decreases steps.len(),
{
    steps.len() > 0 ==> p.enabled(steps[0]) && runs(p.after(steps[0]), steps.skip(1))
}

/// Where a run of steps leads.
pub open spec fn after_all<T>(p: Protocol<T>, steps: Seq<Step<T>>) -> Protocol<T>
    decreases steps.len(),
{
    if steps.len() == 0 {
        p
    } else {
        after_all(p.after(steps[0]), steps.skip(1))
    }
}

/// However the steps of the two halves interleave in the model, the producer and
/// the consumer never have the same buffer, and a read gives the value that was
/// acquired, which is the one published last.
pub proof fn law_halves_never_share<T>(p: Protocol<T>, steps: Seq<Step<T>>)
    requires
        p.inv(),
        runs(p, steps),
    ensures
        after_all(p, steps).inv(),
        after_all(p, steps).back != after_all(p, steps).front,
        after_all(p, steps).value_read() == after_all(p, steps).acquired,
    decreases steps.len(),
{
    if steps.len() > 0 {
        law_halves_never_share(p.after(steps[0]), steps.skip(1));
    }
}

/// A step of one half of the model leaves the other half's buffer and its value
/// alone.
pub proof fn law_steps_are_independent<T>(p: Protocol<T>, step: Step<T>)
    requires
        p.inv(),
        p.enabled(step),
    ensures
        step is Write || step is Publish ==> {
            &&& p.after(step).front == p.front
            &&& p.after(step).value_read() == p.value_read()
        },
        step is Acquire || step is Read ==> {
            &&& p.after(step).back == p.back
            &&& p.after(step).buffers[p.back] == p.buffers[p.back]
            &&& p.after(step).written == p.written
        },
{
}

/// A slot as a state of the model in which neither half is in the middle of
/// something.
pub open spec fn at_rest<T>(
    tx: SlotSender<T>,
    rx: SlotReceiver<T>,
    shared: Shared<T>,
) -> Protocol<T> {
    Protocol {
        buffers: shared.buffers@,
        back: tx.back as int,
        middle: shared.middle() as int,
        front: rx.front as int,
        dirty: shared.dirty(),
        written: None,
        published: shared.pending(),
        acquired: None,
    }
}

/// Halves that belong together stand for a state of the model.
pub proof fn law_linked_is_at_rest<T>(tx: SlotSender<T>, rx: SlotReceiver<T>, shared: Shared<T>)
    requires
        atomic_slot::linked(tx, rx, shared),
    ensures
        at_rest(tx, rx, shared).inv(),
{
}

/// A send leads where a write and a publish of the model lead.
pub proof fn law_send_in_steps<T>(
    tx: SlotSender<T>,
    rx: SlotReceiver<T>,
    shared: Shared<T>,
    value: T,
    tx_after: SlotSender<T>,
    shared_after: Shared<T>,
)
    requires
        atomic_slot::linked(tx, rx, shared),
        atomic_slot::sent(tx, shared, value, tx_after, shared_after),
    ensures
        runs(at_rest(tx, rx, shared), seq![Step::Write(value), Step::Publish]),
        after_all(at_rest(tx, rx, shared), seq![Step::Write(value), Step::Publish]) == at_rest(
            tx_after,
            rx,
            shared_after,
        ),
{
    let p = at_rest(tx, rx, shared);
    let steps = seq![Step::Write(value), Step::Publish];
    let one = p.after(steps[0]);
    let two = one.after(steps[1]);
    assert(steps.skip(1) =~= seq![Step::Publish]);
    assert(steps.skip(1).skip(1) =~= Seq::empty());
    reveal_with_fuel(runs, 3);
    reveal_with_fuel(after_all, 3);
    assert(two =~= at_rest(tx_after, rx, shared_after));
}

/// A receive of a value leads where an acquire and a read of the model lead, and
/// gives what that read gives.
pub proof fn law_receive_in_steps<T>(
    tx: SlotSender<T>,
    rx: SlotReceiver<T>,
    shared: Shared<T>,
    rx_after: SlotReceiver<T>,
    shared_after: Shared<T>,
)
    requires
        atomic_slot::linked(tx, rx, shared),
        shared.dirty(),
        atomic_slot::received(rx, shared, rx_after, shared_after),
    ensures
        runs(at_rest(tx, rx, shared), seq![Step::Acquire, Step::Read]),
        after_all(at_rest(tx, rx, shared), seq![Step::Acquire, Step::Read]) == at_rest(
            tx,
            rx_after,
            shared_after,
        ),
        at_rest(tx, rx, shared).after(Step::Acquire).value_read() == shared.pending(),
{
    let p = at_rest(tx, rx, shared);
    let steps = seq![Step::<T>::Acquire, Step::<T>::Read];
    let one = p.after(steps[0]);
    let two = one.after(steps[1]);
    assert(steps.skip(1) =~= seq![Step::<T>::Read]);
    assert(steps.skip(1).skip(1) =~= Seq::empty());
    reveal_with_fuel(runs, 3);
    reveal_with_fuel(after_all, 3);
    assert(two =~= at_rest(tx, rx_after, shared_after));
}

} // verus!
