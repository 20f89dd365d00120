//! The two ends of a `ringbuf` ring buffer.
//!
//! Each end keeps a record, for proofs only, of what has passed through it, and both
//! know the traffic of their queue: what it accepts first, second and so on, for as long
//! as it is used. Nothing but the functions of this module, which make the calls, sets
//! these records.
use crate::command::Command;
use ringbuf::traits::{Consumer, Producer, Split};
use vstd::prelude::*;

verus! {

/// The sending half of a `ringbuf` ring buffer.
#[verifier::external_body]
#[verifier::reject_recursive_types(T)]
struct RingProducer<T> {
    half: ringbuf::HeapProd<T>,
}

/// The receiving half of a `ringbuf` ring buffer.
#[verifier::external_body]
#[verifier::reject_recursive_types(T)]
struct RingConsumer<T> {
    half: ringbuf::HeapCons<T>,
}

/// What can go through a queue. No item may be made up from what is there for proofs
/// only: such an item could depend on the traffic that it is part of.
pub(crate) trait Item {

}

impl Item for u32 {

}

impl Item for Command {

}

/// The sending end of a queue. Its view is what the queue has accepted so far.
#[verifier::reject_recursive_types(T)]
pub struct Sender<T> {
    producer: RingProducer<T>,
    capacity: Ghost<nat>,
    offers: Ghost<Seq<(T, bool)>>,
    traffic: Ghost<spec_fn(nat) -> T>,
}

/// The receiving end of a queue. Its view is what it has handed out so far.
#[verifier::reject_recursive_types(T)]
pub struct Receiver<T> {
    consumer: RingConsumer<T>,
    answers: Ghost<Seq<Option<T>>>,
    traffic: Ghost<spec_fn(nat) -> T>,
}

/// The items that a queue accepted among those that it was offered one by one, each with
/// whether it was accepted.
pub open spec fn taken<T>(offers: Seq<(T, bool)>) -> Seq<T>
    decreases offers.len(),
{
    if offers.len() == 0 {
        Seq::empty()
    } else if offers.last().1 {
        taken(offers.drop_last()).push(offers.last().0)
    } else {
        taken(offers.drop_last())
    }
}

/// The items among the answers of a queue that was asked for its oldest item time
/// and again; it answers `None` where it has none.
pub open spec fn given<T>(answers: Seq<Option<T>>) -> Seq<T>
    decreases answers.len(),
{
    if answers.len() == 0 {
        Seq::empty()
    } else {
        match answers.last() {
            Some(item) => given(answers.drop_last()).push(item),
            None => given(answers.drop_last()),
        }
    }
}

impl<T> View for Sender<T> {
    type V = Seq<T>;

    open spec fn view(&self) -> Seq<T> {
        taken(self.offers())
    }
}

impl<T> Sender<T> {
    /// What the queue was offered so far, each item with whether it was accepted.
    pub closed spec fn offers(&self) -> Seq<(T, bool)> {
        self.offers@
    }

    /// What the queue accepts first, second and so on.
    pub closed spec fn traffic(&self) -> spec_fn(nat) -> T {
        self.traffic@
    }

    /// Whether all that was accepted so far stands in its place in the traffic.
    pub open spec fn in_order(&self) -> bool {
        forall|i: nat| i < self@.len() ==> #[trigger] self@[i as int] == (self.traffic())(i)
    }

    /// The number of items that the queue holds at once.
    pub closed spec fn capacity(&self) -> nat {
        self.capacity@
    }
}

impl<T> View for Receiver<T> {
    type V = Seq<T>;

    open spec fn view(&self) -> Seq<T> {
        given(self.answers())
    }
}

impl<T> Receiver<T> {
    /// What the queue has answered so far, each time it was asked for an item.
    pub closed spec fn answers(&self) -> Seq<Option<T>> {
        self.answers@
    }

    /// What the queue accepts first, second and so on.
    pub closed spec fn traffic(&self) -> spec_fn(nat) -> T {
        self.traffic@
    }

    /// Whether all that was handed out so far stands in its place in the traffic.
    pub open spec fn in_order(&self) -> bool {
        forall|i: nat| i < self@.len() ==> #[trigger] self@[i as int] == (self.traffic())(i)
    }
}

/// Calls `ringbuf::HeapRb::new`, splits the buffer into its halves and puts each
/// into an end of a queue. The buffer holds as many items as it is asked to, and
/// nothing has passed through it; both ends know the same traffic. The call panics
/// on a capacity of zero. The buffer adds up indices that run to twice the capacity,
/// so four times the capacity has to fit a `usize`. It can still run out of memory.
#[verifier::external_body]
pub(crate) fn ring<T: Item>(capacity: usize) -> (ends: (Sender<T>, Receiver<T>))
    requires
        0 < capacity <= usize::MAX / 4,
    ensures
        ends.0.offers() == Seq::<(T, bool)>::empty(),
        ends.0.capacity() == capacity,
        ends.1.answers() == Seq::<Option<T>>::empty(),
        ends.1.traffic() == ends.0.traffic(),
{
    let (tx, rx) = ringbuf::HeapRb::new(capacity).split();
    let producer = RingProducer { half: tx };
    let consumer = RingConsumer { half: rx };
    let traffic = Ghost(|place: nat| arbitrary());
    let (capacity, offers) = (Ghost(capacity as nat), Ghost(Seq::empty()));
    (
        Sender { producer, capacity, offers, traffic },
        Receiver { consumer, answers: Ghost(Seq::empty()), traffic },
    )
}

/// Calls `ringbuf::traits::Producer::try_push`. The item and whether it was accepted
/// are entered in the record of the sender, and an item that is accepted is the next one
/// in the traffic. An item is turned away only where the buffer is full, and it then
/// comes back as it was; a buffer that has not yet accepted as many items as it holds is
/// not full. Beyond that, whether the buffer is full depends on how far the receiving
/// thread has got, and nothing is said of it.
#[verifier::external_body]
pub(crate) fn try_push<T: Item>(sender: &mut Sender<T>, item: T) -> (result: Result<(), T>)
    ensures
        final(sender).capacity() == old(sender).capacity(),
        final(sender).traffic() == old(sender).traffic(),
        final(sender).offers() == old(sender).offers().push((item, result is Ok)),
        match result {
            Ok(()) => item == (old(sender).traffic())(old(sender)@.len()),
            Err(back) => back == item && old(sender)@.len() >= old(sender).capacity(),
        },
{
    sender.producer.half.try_push(item)
}

/// Calls `ringbuf::traits::Consumer::try_pop`, which gives the oldest item in the
/// buffer, if there is one: the next one in the traffic. The answer is entered in the
/// record of the receiver. Whether there is an item in the buffer depends on the sending
/// thread, so nothing is said of that.
#[verifier::external_body]
pub(crate) fn try_pop<T: Item>(receiver: &mut Receiver<T>) -> (item: Option<T>)
    ensures
        final(receiver).traffic() == old(receiver).traffic(),
        final(receiver).answers() == old(receiver).answers().push(item),
        item matches Some(x) ==> x == (old(receiver).traffic())(old(receiver)@.len()),
{
    receiver.consumer.half.try_pop()
}

/// What a queue accepted are the items offered to it that it did not turn away, in order.
pub proof fn accepted_items_are_taken_in_turn<T>(offers: Seq<(T, bool)>, item: T)
    ensures
        taken(Seq::<(T, bool)>::empty()) == Seq::<T>::empty(),
        taken(offers.push((item, true))) == taken(offers).push(item),
        taken(offers.push((item, false))) == taken(offers),
{
    assert(offers.push((item, true)).drop_last() =~= offers);
    assert(offers.push((item, false)).drop_last() =~= offers);
}

/// What a queue handed out are the items among its answers, in order.
pub proof fn answered_items_are_given_in_turn<T>(answers: Seq<Option<T>>, item: T)
    ensures
        given(Seq::<Option<T>>::empty()) == Seq::<T>::empty(),
        given(answers.push(Some(item))) == given(answers).push(item),
        given(answers.push(None)) == given(answers),
{
    assert(answers.push(Some(item)).drop_last() =~= answers);
    assert(answers.push(None).drop_last() =~= answers);
}

}
