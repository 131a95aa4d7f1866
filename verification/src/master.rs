//! The master core: the hall-call queue and the assignment algorithm.
//! Each queued hall call is costed against every live peer and sent to
//! the cheapest one; the call stays queued, and is re-sent every
//! assignment tick, until the chosen node acknowledges it.

use vstd::prelude::*;
use crate::orders::OrderSet;
use crate::types::{
    Communication, CommType, HallDirection, InternalCommunication, Intention, Order, Role, State,
    Status, wf_internal,
};

verus! {

/// Distance between two floors.
pub open spec fn spec_abs_diff(a: int, b: int) -> int {
    if a >= b {
        a - b
    } else {
        b - a
    }
}

/// Whether the order lies on the elevator's current path: strictly
/// between the last floor and the target floor, heading the same way.
pub open spec fn spec_on_path(order: Order, last_floor: int, target_floor: int) -> bool {
    ||| (order.direction is Up && last_floor < order.floor_number < target_floor)
    ||| (order.direction is Down && target_floor < order.floor_number < last_floor)
}

/// The cost of assigning an order to an elevator with this status: the
/// plain distance when the elevator is idle or the order lies on its
/// path, otherwise the detour over the target floor.
pub open spec fn spec_cost(order: Order, status: Status) -> int {
    let lf = status.last_floor as int;
    let of = order.floor_number as int;
    match status.target_floor {
        None => spec_abs_diff(lf, of),
        Some(t) => if spec_on_path(order, lf, t as int) {
            spec_abs_diff(lf, of)
        } else {
            spec_abs_diff(lf, t as int) + spec_abs_diff(t as int, of)
        },
    }
}

/// Finds the relative distance to an order based on the current target
/// floor. Two floor distances can sum past a byte, so the cost is a
/// wider integer.
pub fn cost_of_order(order: Order, status: Status) -> (r: u16)
    ensures
        r as int == spec_cost(order, status),
{
    let lf = status.last_floor as u16;
    let of = order.floor_number as u16;
    match status.target_floor {
        None => {
            if lf >= of {
                lf - of
            } else {
                of - lf
            }
        },
        Some(t) => {
            let tf = t as u16;
            let on_path = (matches!(order.direction, HallDirection::Up) && status.last_floor
                < order.floor_number && order.floor_number < t) || (matches!(
                order.direction,
                HallDirection::Down,
            ) && t < order.floor_number && order.floor_number < status.last_floor);
            if on_path {
                if lf >= of {
                    lf - of
                } else {
                    of - lf
                }
            } else {
                let a = if lf >= tf {
                    lf - tf
                } else {
                    tf - lf
                };
                let b = if tf >= of {
                    tf - of
                } else {
                    of - tf
                };
                a + b
            }
        },
    }
}

/// The peer at this position is the best choice for the order: no peer
/// is cheaper, and among equally cheap peers none has a lower id.
pub open spec fn spec_is_best_peer(states: Seq<State>, o: Order, i: int) -> bool {
    &&& 0 <= i < states.len()
    &&& forall|j: int|
        0 <= j < states.len() ==> spec_cost(o, states[i].status) < spec_cost(
            o,
            #[trigger] states[j].status,
        ) || (spec_cost(o, states[i].status) == spec_cost(o, states[j].status) && states[i].id
            <= states[j].id)
}

/// The message assigns the order to a best peer.
pub open spec fn spec_assigned(states: Seq<State>, o: Order, m: Communication) -> bool {
    &&& m.comm_type is OrderTransfer
    &&& m.status is None
    &&& m.order == Some(o)
    &&& exists|i: int| #[trigger] spec_is_best_peer(states, o, i) && m.target == states[i].id
}

/// Assigns every queued order to the cheapest live peer, ties broken by
/// the lowest node id, and builds one order transfer per order. The
/// queue is left untouched: orders are re-sent each tick until an
/// acknowledgement deletes them.
pub fn order_up(order_list: &Vec<Order>, state_list: &Vec<State>) -> (r: Vec<Communication>)
    requires
        state_list@.len() > 0,
    ensures
        r@.len() == order_list@.len(),
        forall|k: int|
            0 <= k < r@.len() ==> spec_assigned(state_list@, order_list@[k], #[trigger] r@[k]),
{
    let mut r: Vec<Communication> = Vec::new();
    let mut k: usize = 0;
    while k < order_list.len()
        invariant
            k <= order_list@.len(),
            r@.len() == k,
            state_list@.len() > 0,
            forall|q: int|
                0 <= q < k ==> spec_assigned(state_list@, order_list@[q], #[trigger] r@[q]),
        decreases order_list@.len() - k,
    {
        let o = order_list[k];
        let mut best: usize = 0;
        let mut best_cost: u16 = cost_of_order(o, state_list[0].status);
        let mut j: usize = 1;
        while j < state_list.len()
            invariant
                1 <= j <= state_list@.len(),
                0 <= best < j,
                best_cost as int == spec_cost(o, state_list@[best as int].status),
                forall|q: int|
                    0 <= q < j ==> spec_cost(o, state_list@[best as int].status) < spec_cost(
                        o,
                        #[trigger] state_list@[q].status,
                    ) || (spec_cost(o, state_list@[best as int].status) == spec_cost(
                        o,
                        state_list@[q].status,
                    ) && state_list@[best as int].id <= state_list@[q].id),
            decreases state_list@.len() - j,
        {
            let c = cost_of_order(o, state_list[j].status);
            if c < best_cost || (c == best_cost && state_list[j].id < state_list[best].id) {
                best = j;
                best_cost = c;
            }
            j = j + 1;
        }
        let m = Communication {
            sender: u8::MAX,
            sender_role: Role::Slave,
            target: state_list[best].id,
            comm_type: CommType::OrderTransfer,
            status: None,
            order: Some(o),
        };
        proof {
            assert(spec_is_best_peer(state_list@, o, best as int));
            assert(spec_assigned(state_list@, o, m));
        }
        r.push(m);
        k = k + 1;
    }
    r
}

/// Processes one message arriving at the master. A forwarded hall
/// press — an order transfer addressed to the master — is inserted
/// into the hall queue; an acknowledgement deletes the acknowledged
/// order; status broadcasts are the peer table's business and are
/// dropped here.
pub fn receive_message(message: Communication) -> (r: Option<InternalCommunication>)
    ensures
        message.comm_type is OrderAck && message.order is Some ==> r == Some(
            InternalCommunication {
                intention: Intention::Delete,
                order: message.order,
                direction: None,
            },
        ),
        message.comm_type is OrderTransfer && message.order is Some ==> r == Some(
            InternalCommunication {
                intention: Intention::Insert,
                order: message.order,
                direction: None,
            },
        ),
        message.comm_type is StatusMessage || message.order is None ==> r is None,
{
    match message.comm_type {
        CommType::OrderAck => {
            if message.order.is_some() {
                Some(
                    InternalCommunication {
                        intention: Intention::Delete,
                        order: message.order,
                        direction: None,
                    },
                )
            } else {
                None
            }
        },
        CommType::OrderTransfer => {
            if message.order.is_some() {
                Some(
                    InternalCommunication {
                        intention: Intention::Insert,
                        order: message.order,
                        direction: None,
                    },
                )
            } else {
                None
            }
        },
        CommType::StatusMessage => None,
    }
}

/// A hall call pressed at this node becomes an insertion into the hall
/// queue; the caller also lights the pressed button.
pub fn add_hall_call(floor: u8, direction: HallDirection) -> (r: InternalCommunication)
    ensures
        r.intention is Insert,
        r.direction is None,
        r.order matches Some(o) && o.floor_number == floor && o.direction == direction,
{
    InternalCommunication {
        intention: Intention::Insert,
        order: Some(Order { floor_number: floor, direction }),
        direction: None,
    }
}

/// The hall-call queue, owned by one thread and driven purely by
/// internal requests.
pub struct OrderMemory {
    order_list: OrderSet,
}

impl OrderMemory {
    /// The queued hall calls.
    pub closed spec fn queue(&self) -> Set<Order> {
        self.order_list@
    }

    pub closed spec fn wf(&self) -> bool {
        self.order_list.wf()
    }

    /// An empty queue.
    pub fn new() -> (r: Self)
        ensures
            r.queue() == Set::<Order>::empty(),
            r.wf(),
    {
        OrderMemory { order_list: OrderSet::new() }
    }

    /// Applies one internal request: an insertion when a hall press is
    /// forwarded (idempotent), a deletion when an acknowledgement
    /// clears a call (deleting an absent order changes nothing), and a
    /// snapshot on request. Direction requests are not this owner's
    /// business and change nothing.
    pub fn apply(&mut self, c: InternalCommunication) -> (r: Option<Vec<Order>>)
        requires
            old(self).wf(),
            wf_internal(c),
        ensures
            final(self).wf(),
            c.intention is Insert ==> (c.order matches Some(o) && final(self).queue() == old(
                self,
            ).queue().insert(o) && r is None),
            c.intention is Delete ==> (c.order matches Some(o) && final(self).queue() == old(
                self,
            ).queue().remove(o) && r is None),
            c.intention is RequestOrders ==> *final(self) == *old(self) && (r matches Some(v)
                && v@.to_set() == old(self).queue() && v@.no_duplicates()),
            c.intention is RequestDirection || c.intention is UpdateDirection ==> *final(self)
                == *old(self) && r is None,
    {
        match c.intention {
            Intention::Insert => {
                let o = c.order.unwrap();
                self.order_list.insert(o);
                None
            },
            Intention::Delete => {
                let o = c.order.unwrap();
                self.order_list.remove(&o);
                None
            },
            Intention::RequestOrders => Some(self.order_list.to_vec()),
            Intention::RequestDirection => None,
            Intention::UpdateDirection => None,
        }
    }
}

} // verus!
