//! Envelope handling around the broadcast bus: stamping outgoing
//! messages, dispatching received ones, answering order transfers with
//! acknowledgements, and building the periodic status message.

use vstd::prelude::*;
use crate::fsm::{has_floor, target_floor_function};
use crate::orders::OrderSet;
use crate::roles::NetworkUnit;
use crate::types::{
    Communication, CommType, InternalCommunication, Intention, MotorDirection, Order, Role, State,
    Status, TARGET_ALL, TARGET_MASTER,
};

verus! {

/// Stamps an outgoing message with this node's identity and role, as
/// the sending thread does just before serialization.
pub fn stamp_message(message: Communication, id: u8, role: Role) -> (r: Communication)
    ensures
        r.sender == id,
        r.sender_role == role,
        r.target == message.target,
        r.comm_type == message.comm_type,
        r.status == message.status,
        r.order == message.order,
{
    Communication { sender: id, sender_role: role, ..message }
}

/// Where the receiver hands a parsed message.
#[derive(Clone, Copy, Debug, PartialEq, Eq, Structural)]
pub enum Dispatch {
    ToMaster,
    ToElevator,
    Dropped,
}

/// Dispatches one received broadcast. A message addressed to the
/// master is forwarded only when this node is the master. A message
/// addressed to this node or to everyone updates the peer table when
/// it is a status, goes to the elevator when it is an order transfer,
/// and to the master core when it is an acknowledgement. Everything
/// else — including a node's own echoes, which carry its status back
/// into its table — is dropped after any table update.
pub fn network_message_handler(network_unit: &mut NetworkUnit, message: Communication, now: u64)
    -> (r: Dispatch)
    requires
        old(network_unit).wf(),
    ensures
        final(network_unit).wf(),
        final(network_unit).id == old(network_unit).id,
        final(network_unit).role == old(network_unit).role,
        final(network_unit).my_master == old(network_unit).my_master,
        message.target == TARGET_MASTER ==> final(network_unit).peers() == old(
            network_unit,
        ).peers() && r == (if old(network_unit).role is Master {
            Dispatch::ToMaster
        } else {
            Dispatch::Dropped
        }),
        message.target != TARGET_MASTER && message.target != old(network_unit).id
            && message.target != TARGET_ALL ==> final(network_unit).peers() == old(
            network_unit,
        ).peers() && r is Dropped,
        (message.target == old(network_unit).id || message.target == TARGET_ALL)
            && message.target != TARGET_MASTER ==> match message.comm_type {
            CommType::StatusMessage => r is Dropped && (match message.status {
                Some(st) => final(network_unit).peers().contains(
                    crate::roles::PeerEntry {
                        state: State {
                            id: message.sender,
                            role: message.sender_role,
                            status: st,
                        },
                        last_seen: now,
                    },
                ),
                None => final(network_unit).peers() == old(network_unit).peers(),
            }),
            CommType::OrderTransfer => r is ToElevator && final(network_unit).peers() == old(
                network_unit,
            ).peers(),
            CommType::OrderAck => r is ToMaster && final(network_unit).peers() == old(
                network_unit,
            ).peers(),
        },
{
    if message.target == TARGET_MASTER {
        if matches!(network_unit.role, Role::Master) {
            Dispatch::ToMaster
        } else {
            Dispatch::Dropped
        }
    } else if message.target == network_unit.id || message.target == TARGET_ALL {
        match message.comm_type {
            CommType::StatusMessage => {
                if let Some(st) = message.status {
                    let new_state = State {
                        id: message.sender,
                        role: message.sender_role,
                        status: st,
                    };
                    network_unit.update_state_list(new_state, now);
                }
                Dispatch::Dropped
            },
            CommType::OrderTransfer => Dispatch::ToElevator,
            CommType::OrderAck => Dispatch::ToMaster,
        }
    } else {
        Dispatch::Dropped
    }
}

/// The acknowledgement a node answers an order transfer with: the same
/// order, sent back to the node the transfer came from.
pub open spec fn spec_ack_of(message: Communication) -> Communication {
    Communication {
        sender: u8::MAX,
        sender_role: Role::Slave,
        target: message.sender,
        comm_type: CommType::OrderAck,
        status: None,
        order: message.order,
    }
}

/// Handles a message forwarded to this node's elevator. An order
/// transfer yields the insertion for the destination set — idempotent,
/// so replayed transfers are harmless — and the acknowledgement to
/// send back. Status messages and acknowledgements are not for the
/// elevator and yield nothing.
pub fn handle_message_from_master(message: Communication) -> (r: (
    Option<InternalCommunication>,
    Option<Communication>,
))
    ensures
        message.comm_type is OrderTransfer && message.order is Some ==> r.0 == Some(
            InternalCommunication {
                intention: Intention::Insert,
                order: message.order,
                direction: None,
            },
        ) && r.1 == Some(spec_ack_of(message)),
        !(message.comm_type is OrderTransfer && message.order is Some) ==> r.0 is None && r.1
            is None,
{
    match message.comm_type {
        CommType::OrderTransfer => {
            if message.order.is_some() {
                let insert = InternalCommunication {
                    intention: Intention::Insert,
                    order: message.order,
                    direction: None,
                };
                let ack = Communication {
                    sender: u8::MAX,
                    sender_role: Role::Slave,
                    target: message.sender,
                    comm_type: CommType::OrderAck,
                    status: None,
                    order: message.order,
                };
                (Some(insert), Some(ack))
            } else {
                (None, None)
            }
        },
        _ => (None, None),
    }
}

/// Every order transfer is acknowledged at once with the same order,
/// addressed back to its sender: whenever a transfer carrying an order
/// reaches a live node, that node's answer is an acknowledgement for
/// exactly that order. Re-sent transfers produce the same insertion,
/// which the destination set absorbs, and the same acknowledgement.
pub proof fn lemma_transfer_acknowledged(message: Communication)
    requires
        message.comm_type is OrderTransfer,
        message.order is Some,
    ensures
        spec_ack_of(message).comm_type is OrderAck,
        spec_ack_of(message).target == message.sender,
        spec_ack_of(message).order == message.order,
{
}

/// Builds the periodic status broadcast: the elevator's last floor,
/// its committed direction and its current target floor, addressed to
/// everyone. The sending thread stamps the sender fields.
pub fn send_status_update(
    last_floor: u8,
    direction: MotorDirection,
    destination_list: &OrderSet,
) -> (r: Communication)
    requires
        destination_list.wf(),
    ensures
        r.target == TARGET_ALL,
        r.comm_type is StatusMessage,
        r.order is None,
        r.status matches Some(st) && st.last_floor == last_floor && st.direction == direction
            && !st.errors && !st.obstructions,
        r.status matches Some(st) ==> ((st.target_floor is None) <==> destination_list@
            == Set::<Order>::empty()),
        r.status matches Some(st) && st.target_floor matches Some(t) ==> match direction {
            MotorDirection::Up => has_floor(destination_list@, t) && (forall|o: Order|
                destination_list@.contains(o) ==> o.floor_number <= t),
            MotorDirection::Down => has_floor(destination_list@, t) && (forall|o: Order|
                destination_list@.contains(o) ==> o.floor_number >= t),
            MotorDirection::Stop => t == last_floor,
        },
{
    let target_floor = target_floor_function(direction, destination_list, last_floor);
    let current_status = Status {
        last_floor,
        direction,
        errors: false,
        obstructions: false,
        target_floor,
    };
    Communication {
        sender: u8::MAX,
        sender_role: Role::Slave,
        target: TARGET_ALL,
        comm_type: CommType::StatusMessage,
        status: Some(current_status),
        order: None,
    }
}

} // verus!
