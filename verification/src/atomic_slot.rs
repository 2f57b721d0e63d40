//! Single-slot channel for one producer and one consumer, where the latest value
//! overwrites what was not read.
//!
//! Three buffers are allocated once. The producer owns one (the back), the
//! consumer owns one (the front), and the third (the middle) is where they
//! exchange: a send writes the back and swaps it with the middle, a receive
//! swaps the front with the middle and takes what it holds. The three indices
//! are always distinct, so no two roles ever share a buffer.
//!
//! Every operation works on the state that both halves share, one operation at
//! a time.

use std::marker::PhantomData;

use vstd::prelude::*;

verus! {

/// Dirty flag: bit 0 of the packed state byte.
pub const DIRTY: u8 = 1;

/// Sending half of the slot.
pub struct SlotSender<T> {
    /// Index of the producer's buffer.
    pub back: u8,
    pub marker: PhantomData<T>,
}

/// Receiving half of the slot.
pub struct SlotReceiver<T> {
    /// Index of the consumer's buffer.
    pub front: u8,
    pub marker: PhantomData<T>,
}

/// What both halves share: the three buffers and the packed state.
pub struct Shared<T> {
    pub buffers: [Option<T>; 3],
    /// Bit 0: whether new data is available. Bits 1 and 2: index of the middle
    /// buffer.
    pub state: u8,
    /// Halves that are not dropped yet.
    pub refcount: u8,
}

impl<T> Shared<T> {
    /// Index of the middle buffer.
    pub open spec fn middle(&self) -> u8 {
        self.state >> 1
    }

    /// Whether there is a value that was not received yet.
    pub open spec fn dirty(&self) -> bool {
        self.state & DIRTY != 0
    }

    /// The value that the next receive gives.
    pub open spec fn pending(&self) -> Option<T> {
        if self.dirty() {
            self.buffers@[self.middle() as int]
        } else {
            None
        }
    }

    /// There is a value in the middle exactly while there is one to receive.
    pub open spec fn wf(&self) -> bool {
        &&& self.middle() < 3
        &&& self.dirty() <==> self.buffers@[self.middle() as int] is Some
    }
}

/// Whether the halves and what they share belong together: each role has a
/// buffer of its own, and the consumer's is empty.
pub open spec fn linked<T>(tx: SlotSender<T>, rx: SlotReceiver<T>, shared: Shared<T>) -> bool {
    &&& shared.wf()
    &&& tx.back < 3
    &&& rx.front < 3
    &&& tx.back != shared.middle()
    &&& rx.front != shared.middle()
    &&& tx.back != rx.front
    &&& shared.buffers@[rx.front as int] is None
}

/// Whether a send of `value` leads from one state of the producer's half and
/// what is shared to another: the back takes the value and becomes the middle,
/// which becomes the back.
pub open spec fn sent<T>(
    tx: SlotSender<T>,
    shared: Shared<T>,
    value: T,
    tx_after: SlotSender<T>,
    shared_after: Shared<T>,
) -> bool {
    &&& shared_after.buffers@ == shared.buffers@.update(tx.back as int, Some(value))
    &&& shared_after.middle() == tx.back
    &&& shared_after.dirty()
    &&& tx_after.back == shared.middle()
    &&& shared_after.refcount == shared.refcount
}

/// Whether a receive leads from one state of the consumer's half and what is
/// shared to another: where there is a value, the front becomes the middle, and
/// the middle, emptied, becomes the front. Else nothing changes.
pub open spec fn received<T>(
    rx: SlotReceiver<T>,
    shared: Shared<T>,
    rx_after: SlotReceiver<T>,
    shared_after: Shared<T>,
) -> bool {
    if shared.dirty() {
        &&& shared_after.buffers@ == shared.buffers@.update(shared.middle() as int, None)
        &&& shared_after.middle() == rx.front
        &&& !shared_after.dirty()
        &&& rx_after.front == shared.middle()
        &&& shared_after.refcount == shared.refcount
    } else {
        rx_after == rx && shared_after == shared
    }
}

/// Create a slot: the two halves and what they share. The back is buffer 0, the
/// middle is buffer 1, the front is buffer 2.
#[must_use]
pub fn slot<T>() -> (r: (SlotSender<T>, SlotReceiver<T>, Shared<T>))
    ensures
        linked(r.0, r.1, r.2),
        r.2.pending() is None,
        forall|i: int| 0 <= i < 3 ==> (#[trigger] r.2.buffers@[i]) is None,
        r.2.refcount == 2,
{
    assert(2u8 >> 1 == 1 && 2u8 & 1 == 0) by (bit_vector);
    let shared = Shared { buffers: [None, None, None], state: 2, refcount: 2 };
    (
        SlotSender { back: 0, marker: PhantomData },
        SlotReceiver { front: 2, marker: PhantomData },
        shared,
    )
}

impl<T> SlotSender<T> {
    /// Store a new value. Whatever the back buffer held is dropped.
    pub fn send(&mut self, shared: &mut Shared<T>, value: T)
        requires
            old(shared).wf(),
            old(self).back < 3,
            old(self).back != old(shared).middle(),
        ensures
            final(shared).pending() == pending_after(
                old(shared).pending(),
                SlotOp::Send(value),
            ),
            sent(*old(self), *old(shared), value, *final(self), *final(shared)),
            forall|rx: SlotReceiver<T>|
                linked(*old(self), rx, *old(shared)) ==> linked(
                    *final(self),
                    rx,
                    *final(shared),
                ),
    {
        let back: u8 = self.back;
        let old_state: u8 = shared.state;
        shared.buffers[back as usize] = Some(value);
        // Publish: swap back and middle, set the dirty flag.
        shared.state = (back << 1) | DIRTY;
        self.back = old_state >> 1;
        proof {
            assert(((back << 1) | 1) >> 1 == back && ((back << 1) | 1) & 1 != 0) by (bit_vector)
                requires
                    back < 3,
            ;
        }
    }

    /// Whether the receiver has been dropped.
    #[must_use]
    pub fn is_abandoned(&self, shared: &Shared<T>) -> (r: bool)
        ensures
            r == (shared.refcount == 1),
    {
        shared.refcount == 1
    }
}

impl<T> SlotReceiver<T> {
    /// Take the latest value, if there is one since the last receive.
    #[must_use]
    pub fn recv(&mut self, shared: &mut Shared<T>) -> (r: Option<T>)
        requires
            old(shared).wf(),
            old(self).front < 3,
            old(self).front != old(shared).middle(),
            old(shared).buffers@[old(self).front as int] is None,
        ensures
            r == old(shared).pending(),
            final(shared).pending() == pending_after(old(shared).pending(), SlotOp::Receive),
            received(*old(self), *old(shared), *final(self), *final(shared)),
            forall|tx: SlotSender<T>|
                linked(tx, *old(self), *old(shared)) ==> linked(tx, *final(self), *final(shared)),
    {
        // Nothing new: return without swapping.
        if shared.state & DIRTY == 0 {
            return None;
        }
        let front: u8 = self.front;
        let old_state: u8 = shared.state;
        // Take: swap front and middle, clear the dirty flag.
        shared.state = front << 1;
        let new_front: u8 = old_state >> 1;
        self.front = new_front;
        proof {
            assert((front << 1) >> 1 == front && (front << 1) & 1 == 0) by (bit_vector)
                requires
                    front < 3,
            ;
        }
        shared.buffers[new_front as usize].take()
    }

    /// Whether the sender has been dropped.
    #[must_use]
    pub fn is_abandoned(&self, shared: &Shared<T>) -> (r: bool)
        ensures
            r == (shared.refcount == 1),
    {
        shared.refcount == 1
    }
}

/// Count one half as dropped. Returns whether it was the last one, so that what
/// is shared can go.
pub fn drop_half<T>(shared: &mut Shared<T>) -> (last: bool)
    requires
        old(shared).refcount > 0,
    ensures
        last == (old(shared).refcount == 1),
        final(shared).refcount == old(shared).refcount - 1,
        final(shared).buffers == old(shared).buffers,
        final(shared).state == old(shared).state,
{
    shared.refcount = shared.refcount - 1;
    shared.refcount == 0
}

/// What can be done with a slot.
pub ghost enum SlotOp<T> {
    Send(T),
    Receive,
}

/// What is pending after an operation.
pub open spec fn pending_after<T>(pending: Option<T>, op: SlotOp<T>) -> Option<T> {
    match op {
        SlotOp::Send(value) => Some(value),
        SlotOp::Receive => None,
    }
}

/// What is pending after a run of operations.
pub open spec fn pending_after_all<T>(pending: Option<T>, ops: Seq<SlotOp<T>>) -> Option<T>
    decreases ops.len(),
{
    if ops.len() == 0 {
        pending
    } else {
        pending_after_all(pending_after(pending, ops[0]), ops.skip(1))
    }
}

/// After any run of operations, a receive gives the value of the last send if
/// nothing was received since, and nothing otherwise: values that were not
/// received in time are dropped.
pub proof fn law_latest_value_wins<T>(pending: Option<T>, ops: Seq<SlotOp<T>>)
    requires
        ops.len() > 0,
    ensures
        pending_after_all(pending, ops) == pending_after(pending, ops.last()),
    decreases ops.len(),
{
    let next = pending_after(pending, ops[0]);
    if ops.len() > 1 {
        law_latest_value_wins(next, ops.skip(1));
    } else {
        assert(pending_after_all(next, ops.skip(1)) == next);
    }
}

/// A value that is sent is the next one received, whatever was sent or received
/// before; after it, until the next send, there is nothing to receive.
pub proof fn law_send_then_receive<T>(
    tx: &mut SlotSender<T>,
    shared: &mut Shared<T>,
    value: T,
    rx: &mut SlotReceiver<T>,
    at_first: &mut Shared<T>,
    got: Option<T>,
    rx_again: &mut SlotReceiver<T>,
    at_second: &mut Shared<T>,
    then: Option<T>,
)
    requires
        linked(*old(tx), *old(rx), *old(shared)),
        call_ensures(SlotSender::<T>::send, (tx, shared, value), ()),
        *old(at_first) == *final(shared),
        call_ensures(SlotReceiver::<T>::recv, (rx, at_first), got),
        *old(rx_again) == *final(rx),
        *old(at_second) == *final(at_first),
        call_ensures(SlotReceiver::<T>::recv, (rx_again, at_second), then),
    ensures
        got == Some(value),
        then is None,
        linked(*final(tx), *final(rx_again), *final(at_second)),
        final(at_second).refcount == old(shared).refcount,
{
}

/// Of two values sent in a row, the later one is received.
pub proof fn law_later_send_wins<T>(
    tx: &mut SlotSender<T>,
    shared: &mut Shared<T>,
    first: T,
    tx_again: &mut SlotSender<T>,
    between: &mut Shared<T>,
    second: T,
    rx: &mut SlotReceiver<T>,
    after: &mut Shared<T>,
    got: Option<T>,
)
    requires
        linked(*old(tx), *old(rx), *old(shared)),
        call_ensures(SlotSender::<T>::send, (tx, shared, first), ()),
        *old(tx_again) == *final(tx),
        *old(between) == *final(shared),
        call_ensures(SlotSender::<T>::send, (tx_again, between, second), ()),
        *old(after) == *final(between),
        call_ensures(SlotReceiver::<T>::recv, (rx, after), got),
    ensures
        got == Some(second),
{
}

/// A new slot has nothing to receive, and neither half sees the other as gone; once a
/// half is dropped, the other one does.
pub proof fn law_abandoned_after_drop<T>(
    made: (SlotSender<T>, SlotReceiver<T>, Shared<T>),
    tx_sees: bool,
    rx_sees: bool,
    dropped: &mut Shared<T>,
    last: bool,
    tx_sees_then: bool,
    rx_sees_then: bool,
)
    requires
        call_ensures(slot::<T>, (), made),
        call_ensures(SlotSender::<T>::is_abandoned, (&made.0, &made.2), tx_sees),
        call_ensures(SlotReceiver::<T>::is_abandoned, (&made.1, &made.2), rx_sees),
        *old(dropped) == made.2,
        call_ensures(drop_half::<T>, (dropped,), last),
        call_ensures(SlotSender::<T>::is_abandoned, (&made.0, final(dropped)), tx_sees_then),
        call_ensures(SlotReceiver::<T>::is_abandoned, (&made.1, final(dropped)), rx_sees_then),
    ensures
        made.2.pending() is None,
        linked(made.0, made.1, made.2),
        !tx_sees,
        !rx_sees,
        !last,
        tx_sees_then,
        rx_sees_then,
{
}

/// Dropping a half takes one off the count of those left and leaves the values alone;
/// it was the last one exactly where none is left. A half sees the other as gone
/// exactly where one half is left.
pub proof fn law_halves_left<T>(
    shared: &mut Shared<T>,
    last: bool,
    tx: &SlotSender<T>,
    rx: &SlotReceiver<T>,
    tx_sees: bool,
    rx_sees: bool,
)
    requires
        old(shared).refcount > 0,
        call_ensures(drop_half::<T>, (shared,), last),
        call_ensures(SlotSender::<T>::is_abandoned, (tx, final(shared)), tx_sees),
        call_ensures(SlotReceiver::<T>::is_abandoned, (rx, final(shared)), rx_sees),
    ensures
        final(shared).refcount + 1 == old(shared).refcount,
        last <==> final(shared).refcount == 0,
        final(shared).buffers == old(shared).buffers,
        final(shared).state == old(shared).state,
        tx_sees <==> final(shared).refcount == 1,
        rx_sees <==> final(shared).refcount == 1,
{
}

} // verus!
