//! A bounded queue from one thread to another.
//!
//! The queue itself is the lock-free ring buffer of `ringbuf`.
pub mod ring;

pub use crate::queue::ring::{Receiver, Sender};
use crate::queue::ring::{ring, try_pop, try_push, Item};
use vstd::prelude::*;

verus! {

/// Whether the offers to a queue of the given capacity, `before` at first, are `after`
/// once each of the items was offered to it, in order and once, and nothing else. None
/// is turned away before the queue has accepted as many items as it holds.
pub open spec fn were_offered<T>(
    before: Seq<(T, bool)>,
    items: Seq<T>,
    after: Seq<(T, bool)>,
    capacity: nat,
) -> bool {
    &&& after.len() == before.len() + items.len()
    &&& forall|i: int| 0 <= i < before.len() ==> #[trigger] after[i] == before[i]
    &&& forall|i: int|
        before.len() <= i < after.len() ==> (#[trigger] after[i]).0 == items[i - before.len()] && (
        after[i].1 || ring::taken(after.take(i)).len() >= capacity)
}

/// An empty queue that holds up to `capacity` items.
#[allow(private_bounds)]
pub fn queue<T: Item>(capacity: usize) -> (ends: (Sender<T>, Receiver<T>))
    requires
        0 < capacity <= usize::MAX / 4,
    ensures
        ends.0.offers() == Seq::<(T, bool)>::empty(),
        ends.0@ == Seq::<T>::empty(),
        ends.0.capacity() == capacity,
        ends.0.in_order(),
        ends.1.answers() == Seq::<Option<T>>::empty(),
        ends.1@ == Seq::<T>::empty(),
        ends.1.in_order(),
        ends.1.traffic() == ends.0.traffic(),
{
    ring(capacity)
}

#[allow(private_bounds)]
impl<T: Item> Sender<T> {
    /// Appends an item, or gives it back where the queue is full. A queue that has
    /// not yet been sent as many items as it holds is not full.
    pub fn send(&mut self, item: T) -> (result: Result<(), T>)
        ensures
            final(self).capacity() == old(self).capacity(),
            final(self).traffic() == old(self).traffic(),
            old(self).in_order() ==> final(self).in_order(),
            final(self).offers() == old(self).offers().push((item, result is Ok)),
            match result {
                Ok(()) => final(self)@ == old(self)@.push(item),
                Err(back) => back == item && final(self)@ == old(self)@ && old(self)@.len() >= old(
                    self,
                ).capacity(),
            },
    {
        let ghost earlier = self.offers();
        let result = try_push(self, item);
        assert(self.offers().drop_last() =~= earlier);
        result
    }
}

#[allow(private_bounds)]
impl<T: Item> Receiver<T> {
    /// Asks the queue once for its oldest item and gives the answer. Whether there
    /// is an item depends on the sending thread.
    pub fn receive(&mut self) -> (item: Option<T>)
        ensures
            final(self).traffic() == old(self).traffic(),
            old(self).in_order() ==> final(self).in_order(),
            final(self).answers() == old(self).answers().push(item),
            match item {
                Some(x) => final(self)@ == old(self)@.push(x),
                None => final(self)@ == old(self)@,
            },
    {
        let ghost earlier = self.answers();
        let ghost before = *self;
        let item = try_pop(self);
        proof {
            assert(self.answers().drop_last() =~= earlier);
            if before.in_order() {
                assert forall|i: nat| i < self@.len() implies #[trigger] self@[i as int] == (
                self.traffic())(i) by {
                    if i < before@.len() {
                        assert(before@[i as int] == (before.traffic())(i));
                    }
                }
            }
        }
        item
    }
}

/// First in, first out: at every place that both ends of a queue have reached, the item
/// handed out is the item accepted.
pub proof fn items_arrive_in_order<T>(sender: Sender<T>, receiver: Receiver<T>, place: nat)
    requires
        sender.traffic() == receiver.traffic(),
        sender.in_order(),
        receiver.in_order(),
        place < sender@.len(),
        place < receiver@.len(),
    ensures
        receiver@[place as int] == sender@[place as int],
{
}

/// One more item is offered.
pub(crate) proof fn lemma_offered_one<T>(
    before: Seq<(T, bool)>,
    items: Seq<T>,
    part: Seq<(T, bool)>,
    item: T,
    accepted: bool,
    capacity: nat,
)
    requires
        were_offered(before, items, part, capacity),
        accepted || ring::taken(part).len() >= capacity,
    ensures
        were_offered(before, items.push(item), part.push((item, accepted)), capacity),
{
    let after = part.push((item, accepted));
    let more = items.push(item);
    assert forall|i: int| before.len() <= i < after.len() implies (#[trigger] after[i]).0
        == more[i - before.len()] && (after[i].1 || ring::taken(after.take(i)).len()
        >= capacity) by {
        if i < part.len() {
            assert(after[i] == part[i]);
            assert(after.take(i) =~= part.take(i));
        } else {
            assert(after.take(i) =~= part);
        }
    }
    assert forall|i: int| 0 <= i < before.len() implies #[trigger] after[i] == before[i] by {
        assert(after[i] == part[i]);
    }
}

/// Items are lost only where the queue is full: as long as all that is offered fits,
/// all of it is accepted, in order.
pub proof fn what_fits_is_kept<T>(
    before: Seq<(T, bool)>,
    items: Seq<T>,
    after: Seq<(T, bool)>,
    capacity: nat,
)
    requires
        were_offered(before, items, after, capacity),
        ring::taken(before).len() + items.len() <= capacity,
    ensures
        ring::taken(after) == ring::taken(before) + items,
    decreases items.len(),
{
    if items.len() == 0 {
        assert(after =~= before);
        assert(ring::taken(before) + items =~= ring::taken(before));
    } else {
        let rest = items.drop_last();
        let part = after.drop_last();
        assert forall|i: int| before.len() <= i < part.len() implies (#[trigger] part[i]).0
            == rest[i - before.len()] && (part[i].1 || ring::taken(part.take(i)).len()
            >= capacity) by {
            assert(part[i] == after[i]);
            assert(part.take(i) =~= after.take(i));
        }
        assert forall|i: int| 0 <= i < before.len() implies #[trigger] part[i] == before[i] by {
            assert(part[i] == after[i]);
        }
        what_fits_is_kept(before, rest, part, capacity);
        let last = after.len() - 1;
        assert(after.take(last) =~= part);
        assert(after[last].1 && after[last].0 == items.last());
        assert((ring::taken(before) + rest).push(items.last()) =~= ring::taken(before) + items);
    }
}

/// Items that are offered enter the record of the offers one for one and in order, behind
/// what was offered before. One that is turned away finds that the queue has accepted as
/// many items as it holds.
pub proof fn offers_are_recorded_one_for_one<T>(
    before: Seq<(T, bool)>,
    items: Seq<T>,
    after: Seq<(T, bool)>,
    capacity: nat,
    i: int,
)
    requires
        were_offered(before, items, after, capacity),
        0 <= i < items.len(),
    ensures
        after.len() == before.len() + items.len(),
        after.take(before.len() as int) == before,
        after[before.len() + i].0 == items[i],
        !after[before.len() + i].1 ==> ring::taken(after.take(before.len() + i)).len() >= capacity,
{
    assert(after.take(before.len() as int) =~= before);
    assert(after[before.len() + i].0 == items[before.len() + i - before.len()]);
}

}
