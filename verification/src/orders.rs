//! The order sets: the destination set owned by each elevator and the
//! hall queue owned by the master are both sets of `Order` values with
//! idempotent insertion, kept here as a vector without duplicates.

use vstd::prelude::*;
use crate::types::Order;

verus! {

/// A set of orders. Inserting an order already present changes nothing,
/// which is what makes replayed order deliveries safe.
pub struct OrderSet {
    orders: Vec<Order>,
}

impl OrderSet {
    /// The mathematical contents of the set.
    pub closed spec fn view(&self) -> Set<Order> {
        self.orders@.to_set()
    }

    /// Well-formed: the backing vector holds no duplicates, so the
    /// vector's length is the set's cardinality. Every constructor and
    /// mutation preserves it.
    pub closed spec fn wf(&self) -> bool {
        self.orders@.no_duplicates()
    }

    /// The empty order set.
    pub fn new() -> (r: Self)
        ensures
            r@ == Set::<Order>::empty(),
            r.wf(),
    {
        let r = OrderSet { orders: Vec::new() };
        proof {
            assert(r.orders@.to_set() =~= Set::<Order>::empty());
        }
        r
    }

    /// Whether the set holds this order.
    pub fn contains(&self, o: &Order) -> (r: bool)
        ensures
            r == self@.contains(*o),
    {
        let mut i: usize = 0;
        while i < self.orders.len()
            invariant
                i <= self.orders@.len(),
                forall|j: int| 0 <= j < i ==> self.orders@[j] != *o,
            decreases self.orders@.len() - i,
        {
            if self.orders[i] == *o {
                proof {
                    assert(self.orders@.contains(*o));
                }
                return true;
            }
            i = i + 1;
        }
        proof {
            assert(!self.orders@.contains(*o));
        }
        false
    }

    /// Adds an order; a duplicate is absorbed.
    pub fn insert(&mut self, o: Order)
        requires
            old(self).wf(),
        ensures
            final(self)@ == old(self)@.insert(o),
            final(self).wf(),
    {
        broadcast use vstd::seq_lib::lemma_seq_contains_after_push;

        if !self.contains(&o) {
            self.orders.push(o);
            proof {
                assert(self@ =~= old(self)@.insert(o));
            }
        } else {
            proof {
                assert(self@ =~= old(self)@.insert(o));
            }
        }
    }

    /// Removes an order; removing an absent order changes nothing.
    pub fn remove(&mut self, o: &Order)
        requires
            old(self).wf(),
        ensures
            final(self)@ == old(self)@.remove(*o),
            final(self).wf(),
    {
        let mut i: usize = 0;
        while i < self.orders.len()
            invariant
                i <= self.orders@.len(),
                forall|j: int| 0 <= j < i ==> self.orders@[j] != *o,
                self.orders@ == old(self).orders@,
                self.orders@.no_duplicates(),
            decreases self.orders@.len() - i,
        {
            if self.orders[i] == *o {
                let ghost pre = self.orders@;
                self.orders.remove(i);
                proof {
                    pre.remove_ensures(i as int);
                    assert forall|a: int, b: int|
                        0 <= a < self.orders@.len() && 0 <= b < self.orders@.len() && a
                            != b implies self.orders@[a] != self.orders@[b] by {
                        let pa: int = if a < i { a } else { a + 1 };
                        let pb: int = if b < i { b } else { b + 1 };
                        assert(self.orders@[a] == pre[pa]);
                        assert(self.orders@[b] == pre[pb]);
                    }
                    assert forall|x: Order| self.orders@.contains(x) <==> (pre.contains(x) && x
                        != *o) by {
                        pre.remove_ensures(i as int);
                        if pre.contains(x) && x != *o {
                            let k = choose|k: int| 0 <= k < pre.len() && pre[k] == x;
                            if k < i {
                                assert(self.orders@[k] == x);
                            } else {
                                assert(k > i);
                                assert(self.orders@[k - 1] == x);
                            }
                            assert(self.orders@.contains(x));
                        }
                        if self.orders@.contains(x) {
                            let k = choose|k: int|
                                0 <= k < self.orders@.len() && self.orders@[k] == x;
                            if k < i {
                                assert(pre[k] == x);
                            } else {
                                assert(pre[k + 1] == x);
                            }
                            assert(pre.contains(x));
                            assert(x != *o);
                        }
                    }
                    assert(self@ =~= old(self)@.remove(*o));
                }
                return ;
            }
            i = i + 1;
        }
        proof {
            assert(!self.orders@.contains(*o));
            assert(self@ =~= old(self)@.remove(*o));
        }
    }

    /// Whether the set is empty.
    pub fn is_empty(&self) -> (r: bool)
        ensures
            r <==> self@ == Set::<Order>::empty(),
    {
        if self.orders.len() == 0 {
            proof {
                assert(self@ =~= Set::<Order>::empty());
            }
            true
        } else {
            proof {
                assert(self.orders@.contains(self.orders@[0]));
                assert(self@.contains(self.orders@[0]));
            }
            false
        }
    }

    /// How many distinct orders the set holds.
    pub fn len(&self) -> (r: usize)
        requires
            self.wf(),
        ensures
            r == self@.len(),
    {
        proof {
            self.orders@.unique_seq_to_set();
        }
        self.orders.len()
    }

    /// The orders as a duplicate-free vector, for iteration.
    pub fn as_vec(&self) -> (r: &Vec<Order>)
        requires
            self.wf(),
        ensures
            r@.to_set() == self@,
            r@.no_duplicates(),
    {
        &self.orders
    }

    /// A duplicate-free vector copy of the orders, for snapshots handed
    /// across channels.
    pub fn to_vec(&self) -> (r: Vec<Order>)
        requires
            self.wf(),
        ensures
            r@.to_set() == self@,
            r@.no_duplicates(),
    {
        let mut r: Vec<Order> = Vec::new();
        let mut i: usize = 0;
        while i < self.orders.len()
            invariant
                i <= self.orders@.len(),
                r@ == self.orders@.subrange(0, i as int),
            decreases self.orders@.len() - i,
        {
            r.push(self.orders[i]);
            proof {
                assert(r@ =~= self.orders@.subrange(0, i + 1));
            }
            i = i + 1;
        }
        proof {
            assert(r@ =~= self.orders@);
        }
        r
    }
}

/// Inserting the same order into a destination set twice leaves the set
/// as one insertion does: order delivery is idempotent.
pub proof fn lemma_insert_idempotent(s: Set<Order>, o: Order)
    ensures
        s.insert(o).insert(o) == s.insert(o),
{
    assert(s.insert(o).insert(o) =~= s.insert(o));
}

/// One recorded operation on the hall queue: an insertion when a hall
/// button press reaches the master, a deletion when an acknowledgement
/// or a completion clears it.
#[derive(Clone, Copy, Debug, PartialEq, Eq, Structural)]
pub enum QueueEvent {
    Insert(Order),
    Delete(Order),
}

/// The hall queue contents after a history of insertions and deletions,
/// starting from the empty queue.
pub open spec fn queue_after(es: Seq<QueueEvent>) -> Set<Order>
    decreases es.len(),
{
    if es.len() == 0 {
        Set::empty()
    } else {
        let prior = queue_after(es.drop_last());
        match es.last() {
            QueueEvent::Insert(o) => prior.insert(o),
            QueueEvent::Delete(o) => prior.remove(o),
        }
    }
}

/// One recorded event advances the queue exactly as the owning set's
/// insertion or removal does.
pub proof fn lemma_queue_step(es: Seq<QueueEvent>, e: QueueEvent)
    ensures
        queue_after(es.push(e)) == match e {
            QueueEvent::Insert(o) => queue_after(es).insert(o),
            QueueEvent::Delete(o) => queue_after(es).remove(o),
        },
{
    assert(es.push(e).drop_last() =~= es);
    assert(es.push(e).last() == e);
}

/// The queue holds an order exactly when some insertion of it has no
/// later deletion.
pub proof fn lemma_queue_contains(es: Seq<QueueEvent>, o: Order)
    ensures
        queue_after(es).contains(o) <==> exists|i: int|
            0 <= i < es.len() && es[i] == QueueEvent::Insert(o) && (forall|j: int|
                i < j < es.len() ==> es[j] != QueueEvent::Delete(o)),
    decreases es.len(),
{
    if es.len() == 0 {
    } else {
        let prior = es.drop_last();
        lemma_queue_contains(prior, o);
        let last = es.last();
        if last == QueueEvent::Insert(o) {
            let i = es.len() - 1;
            assert(es[i] == QueueEvent::Insert(o) && (forall|j: int|
                i < j < es.len() ==> es[j] != QueueEvent::Delete(o)));
        } else if last == QueueEvent::Delete(o) {
            assert(!queue_after(es).contains(o));
            assert forall|i: int|
                0 <= i < es.len() && es[i] == QueueEvent::Insert(o) implies !(forall|j: int|
                i < j < es.len() ==> es[j] != QueueEvent::Delete(o)) by {
                assert(i < es.len() - 1);
                assert(es[es.len() - 1] == QueueEvent::Delete(o));
            }
        } else {
            assert(queue_after(es).contains(o) <==> queue_after(prior).contains(o));
            if queue_after(prior).contains(o) {
                let i = choose|i: int|
                    0 <= i < prior.len() && prior[i] == QueueEvent::Insert(o) && (forall|j: int|
                        i < j < prior.len() ==> prior[j] != QueueEvent::Delete(o));
                assert(es[i] == QueueEvent::Insert(o));
                assert forall|j: int| i < j < es.len() implies es[j] != QueueEvent::Delete(o) by {
                    if j < es.len() - 1 {
                        assert(prior[j] == es[j]);
                    }
                }
            }
            if exists|i: int|
                0 <= i < es.len() && es[i] == QueueEvent::Insert(o) && (forall|j: int|
                    i < j < es.len() ==> es[j] != QueueEvent::Delete(o)) {
                let i = choose|i: int|
                    0 <= i < es.len() && es[i] == QueueEvent::Insert(o) && (forall|j: int|
                        i < j < es.len() ==> es[j] != QueueEvent::Delete(o));
                assert(i < es.len() - 1);
                assert(prior[i] == QueueEvent::Insert(o));
                assert forall|j: int| i < j < prior.len() implies prior[j]
                    != QueueEvent::Delete(o) by {
                    assert(prior[j] == es[j]);
                }
                assert(queue_after(prior).contains(o));
            }
        }
    }
}

/// The hall queue is empty exactly when every hall button press recorded
/// in the history has later been cleared by an acknowledgement or a
/// completion.
pub proof fn lemma_queue_empty_iff_all_served(es: Seq<QueueEvent>)
    ensures
        queue_after(es) == Set::<Order>::empty() <==> (forall|i: int, o: Order|
            0 <= i < es.len() && es[i] == QueueEvent::Insert(o) ==> exists|j: int|
                i < j < es.len() && es[j] == QueueEvent::Delete(o)),
{
    if forall|i: int, o: Order|
        0 <= i < es.len() && es[i] == QueueEvent::Insert(o) ==> exists|j: int|
            i < j < es.len() && es[j] == QueueEvent::Delete(o) {
        assert forall|o: Order| !queue_after(es).contains(o) by {
            lemma_queue_contains(es, o);
            if queue_after(es).contains(o) {
                let i = choose|i: int|
                    0 <= i < es.len() && es[i] == QueueEvent::Insert(o) && (forall|j: int|
                        i < j < es.len() ==> es[j] != QueueEvent::Delete(o));
                let j = choose|j: int| i < j < es.len() && es[j] == QueueEvent::Delete(o);
                assert(false);
            }
        }
        assert(queue_after(es) =~= Set::<Order>::empty());
    }
    if queue_after(es) == Set::<Order>::empty() {
        assert forall|i: int, o: Order|
            0 <= i < es.len() && es[i] == QueueEvent::Insert(o) implies exists|j: int|
            i < j < es.len() && es[j] == QueueEvent::Delete(o) by {
            lemma_queue_contains(es, o);
            assert(!queue_after(es).contains(o));
            if forall|j: int| i < j < es.len() ==> es[j] != QueueEvent::Delete(o) {
                assert(es[i] == QueueEvent::Insert(o) && (forall|j: int|
                    i < j < es.len() ==> es[j] != QueueEvent::Delete(o)));
                assert(false);
            }
        }
    }
}

} // verus!
