use elevator_core::master::{
    add_hall_call, cost_of_order, order_up, receive_message, OrderMemory,
};
use elevator_core::net::{
    handle_message_from_master, network_message_handler, send_status_update, stamp_message,
    Dispatch,
};
use elevator_core::orders::OrderSet;
use elevator_core::roles::NetworkUnit;
use elevator_core::types::{
    CommType, Communication, HallDirection, Intention, MotorDirection, Order, Role, State,
    Status, TARGET_ALL, TARGET_MASTER,
};

fn idle_status(floor: u8) -> Status {
    Status {
        last_floor: floor,
        direction: MotorDirection::Stop,
        errors: false,
        obstructions: false,
        target_floor: None,
    }
}

fn state(id: u8, role: Role, status: Status) -> State {
    State { id, role, status }
}

#[test]
fn cost_of_order_matches_the_three_rules() {
    // S4: hall-down call at floor 3 in a four-floor building
    let o = Order {
        floor_number: 3,
        direction: HallDirection::Down,
    };
    // A idle at 0: plain distance
    assert_eq!(cost_of_order(o, idle_status(0)), 3);
    // B moving up, last floor 1, target 2: off the path, detour cost
    let b = Status {
        last_floor: 1,
        direction: MotorDirection::Up,
        errors: false,
        obstructions: false,
        target_floor: Some(2),
    };
    assert_eq!(cost_of_order(o, b), 2);
    // C idle at 3: already there
    assert_eq!(cost_of_order(o, idle_status(3)), 0);
}

#[test]
fn cost_of_order_on_path() {
    // an up call strictly between the last floor and the target lies
    // on the path and costs the plain distance
    let o = Order {
        floor_number: 2,
        direction: HallDirection::Up,
    };
    let s = Status {
        last_floor: 0,
        direction: MotorDirection::Up,
        errors: false,
        obstructions: false,
        target_floor: Some(3),
    };
    assert_eq!(cost_of_order(o, s), 2);
}

#[test]
fn assignment_picks_cheapest_peer() {
    // S4: the idle car already at the floor wins
    let o = Order {
        floor_number: 3,
        direction: HallDirection::Down,
    };
    let b = Status {
        last_floor: 1,
        direction: MotorDirection::Up,
        errors: false,
        obstructions: false,
        target_floor: Some(2),
    };
    let states = vec![
        state(1, Role::Master, idle_status(0)),
        state(2, Role::MasterBackup, b),
        state(3, Role::Slave, idle_status(3)),
    ];
    let msgs = order_up(&vec![o], &states);
    assert_eq!(msgs.len(), 1);
    assert_eq!(msgs[0].target, 3);
    assert_eq!(msgs[0].comm_type, CommType::OrderTransfer);
    assert_eq!(msgs[0].order, Some(o));
    assert_eq!(msgs[0].status, None);
}

#[test]
fn assignment_breaks_ties_by_lowest_id() {
    let o = Order {
        floor_number: 2,
        direction: HallDirection::Up,
    };
    let states = vec![
        state(7, Role::Master, idle_status(1)),
        state(4, Role::Slave, idle_status(0)),
        state(9, Role::Slave, idle_status(3)),
    ];
    // peers 7 and 9 both cost 1, peer 4 costs 2; the lowest id wins
    let msgs = order_up(&vec![o], &states);
    assert_eq!(msgs[0].target, 7);
}

#[test]
fn master_deletes_on_acknowledgement() {
    let o = Order {
        floor_number: 1,
        direction: HallDirection::Down,
    };
    let ack = Communication {
        sender: 2,
        sender_role: Role::Slave,
        target: 1,
        comm_type: CommType::OrderAck,
        status: None,
        order: Some(o),
    };
    let r = receive_message(ack).unwrap();
    assert_eq!(r.intention, Intention::Delete);
    assert_eq!(r.order, Some(o));
    // a forwarded hall press is queued
    let forwarded = Communication {
        sender: 2,
        sender_role: Role::Slave,
        target: TARGET_MASTER,
        comm_type: CommType::OrderTransfer,
        status: None,
        order: Some(o),
    };
    let r = receive_message(forwarded).unwrap();
    assert_eq!(r.intention, Intention::Insert);
    assert_eq!(r.order, Some(o));
    // a status message asks nothing of the master loop
    let status_msg = Communication {
        sender: 2,
        sender_role: Role::Slave,
        target: TARGET_ALL,
        comm_type: CommType::StatusMessage,
        status: Some(idle_status(0)),
        order: None,
    };
    assert_eq!(receive_message(status_msg), None);
}

#[test]
fn hall_press_becomes_queue_insert() {
    let r = add_hall_call(2, HallDirection::Down);
    assert_eq!(r.intention, Intention::Insert);
    assert_eq!(
        r.order,
        Some(Order {
            floor_number: 2,
            direction: HallDirection::Down,
        })
    );
}

#[test]
fn lost_ack_is_absorbed_by_replay() {
    // S5: the master re-sends a transfer whose ack was lost; the node
    // inserts the order again (a no-op) and acks again; the ack then
    // empties the queue.
    let o = Order {
        floor_number: 2,
        direction: HallDirection::Up,
    };
    let mut queue = OrderMemory::new();
    queue.apply(add_hall_call(2, HallDirection::Up));

    let transfer = Communication {
        sender: 1,
        sender_role: Role::Master,
        target: 2,
        comm_type: CommType::OrderTransfer,
        status: None,
        order: Some(o),
    };
    let mut dests = OrderSet::new();
    // first delivery
    let (insert, ack1) = handle_message_from_master(transfer);
    dests.insert(insert.unwrap().order.unwrap());
    let _lost = ack1.unwrap();
    // replayed delivery
    let (insert, ack2) = handle_message_from_master(transfer);
    dests.insert(insert.unwrap().order.unwrap());
    let ack2 = ack2.unwrap();
    assert_eq!(ack2.comm_type, CommType::OrderAck);
    assert_eq!(ack2.target, 1);
    assert_eq!(ack2.order, Some(o));
    // the destination set holds the order exactly once
    assert_eq!(dests.len(), 1);
    // the ack clears the queue
    let delete = receive_message(ack2).unwrap();
    queue.apply(delete);
    let snapshot = queue.apply(request_orders()).unwrap();
    assert!(snapshot.is_empty());
}

fn request_orders() -> elevator_core::types::InternalCommunication {
    elevator_core::types::InternalCommunication {
        intention: Intention::RequestOrders,
        order: None,
        direction: None,
    }
}

#[test]
fn roles_follow_the_election_rules() {
    // no other master in sight: claim the master role
    let mut a = NetworkUnit::new(1);
    let (role, master) = a.determine_role();
    assert_eq!(role, Role::Master);
    assert_eq!(master, Some(1));
    a.update_role();
    assert_eq!(a.role, Role::Master);
    assert_eq!(a.my_master, Some(1));

    // a master is visible: become its backup, towards the lowest id
    let mut b = NetworkUnit::new(2);
    b.update_state_list(state(1, Role::Master, idle_status(0)), 10);
    let (role, master) = b.determine_role();
    assert_eq!(role, Role::MasterBackup);
    assert_eq!(master, Some(1));

    // master and backup both visible: slave
    b.update_state_list(state(3, Role::MasterBackup, idle_status(0)), 11);
    let (role, master) = b.determine_role();
    assert_eq!(role, Role::Slave);
    assert_eq!(master, Some(1));

    // two masters visible: the lowest id is followed
    b.update_state_list(state(3, Role::Master, idle_status(0)), 12);
    let (_, master) = b.determine_role();
    assert_eq!(master, Some(1));
}

#[test]
fn own_entry_does_not_elect_self() {
    // a node's own echo carries its master role back into its table;
    // that must not demote it
    let mut a = NetworkUnit::new(1);
    a.update_state_list(state(1, Role::Master, idle_status(0)), 5);
    let (role, master) = a.determine_role();
    assert_eq!(role, Role::Master);
    assert_eq!(master, Some(1));
}

#[test]
fn peer_table_keeps_the_freshest_state() {
    let mut u = NetworkUnit::new(9);
    u.update_state_list(state(1, Role::Master, idle_status(0)), 1);
    u.update_state_list(state(1, Role::Slave, idle_status(2)), 2);
    let states = u.get_state_list();
    assert_eq!(states.len(), 1);
    assert_eq!(states[0].role, Role::Slave);
    assert_eq!(states[0].status.last_floor, 2);
}

#[test]
fn silent_peers_expire_and_backup_promotes() {
    // S3: B follows master A; A falls silent past the TTL; B promotes
    let mut b = NetworkUnit::new(2);
    b.update_state_list(state(1, Role::Master, idle_status(0)), 1000);
    b.update_role();
    assert_eq!(b.role, Role::MasterBackup);
    assert_eq!(b.my_master, Some(1));
    b.expire(5000, 3000);
    b.update_role();
    assert_eq!(b.role, Role::Master);
    assert_eq!(b.my_master, Some(2));
}

#[test]
fn expire_keeps_fresh_peers() {
    let mut u = NetworkUnit::new(9);
    u.update_state_list(state(1, Role::Master, idle_status(0)), 1000);
    u.update_state_list(state(2, Role::Slave, idle_status(1)), 4000);
    u.expire(5000, 3000);
    let states = u.get_state_list();
    assert_eq!(states.len(), 1);
    assert_eq!(states[0].id, 2);
}

#[test]
fn placeholder_status() {
    let st = NetworkUnit::fetch_status();
    assert_eq!(st.last_floor, 0);
    assert_eq!(st.direction, MotorDirection::Stop);
    assert_eq!(st.target_floor, None);
    let st = Status::new();
    assert_eq!(st.last_floor, u8::MAX);
    assert_eq!(st.target_floor, None);
    let o = Order::new();
    assert_eq!(o.floor_number, u8::MAX);
}

#[test]
fn stamping_sets_sender_identity() {
    let m = send_status_update(2, MotorDirection::Stop, &OrderSet::new());
    let stamped = stamp_message(m, 7, Role::MasterBackup);
    assert_eq!(stamped.sender, 7);
    assert_eq!(stamped.sender_role, Role::MasterBackup);
    assert_eq!(stamped.target, TARGET_ALL);
    assert_eq!(stamped.comm_type, CommType::StatusMessage);
}

#[test]
fn status_update_carries_target_floor() {
    let mut dests = OrderSet::new();
    dests.insert(Order {
        floor_number: 3,
        direction: HallDirection::Up,
    });
    let m = send_status_update(1, MotorDirection::Up, &dests);
    let st = m.status.unwrap();
    assert_eq!(st.last_floor, 1);
    assert_eq!(st.direction, MotorDirection::Up);
    assert_eq!(st.target_floor, Some(3));
    assert_eq!(m.order, None);
    // an idle empty car reports no target
    let m = send_status_update(1, MotorDirection::Stop, &OrderSet::new());
    assert_eq!(m.status.unwrap().target_floor, None);
}

#[test]
fn receiver_dispatches_by_target_and_type() {
    let mut u = NetworkUnit::new(2);
    let transfer = Communication {
        sender: 1,
        sender_role: Role::Master,
        target: 2,
        comm_type: CommType::OrderTransfer,
        status: None,
        order: Some(Order {
            floor_number: 1,
            direction: HallDirection::Up,
        }),
    };
    assert_eq!(
        network_message_handler(&mut u, transfer, 0),
        Dispatch::ToElevator
    );
    // an acknowledgement goes to the master core
    let ack = Communication {
        comm_type: CommType::OrderAck,
        ..transfer
    };
    assert_eq!(network_message_handler(&mut u, ack, 0), Dispatch::ToMaster);
    // a message for another node is dropped
    let elsewhere = Communication {
        target: 9,
        ..transfer
    };
    assert_eq!(network_message_handler(&mut u, elsewhere, 0), Dispatch::Dropped);
}

#[test]
fn receiver_forwards_to_master_only_when_master() {
    let call = Communication {
        sender: 3,
        sender_role: Role::Slave,
        target: TARGET_MASTER,
        comm_type: CommType::OrderTransfer,
        status: None,
        order: Some(Order {
            floor_number: 0,
            direction: HallDirection::Up,
        }),
    };
    let mut master = NetworkUnit::new(1);
    assert_eq!(network_message_handler(&mut master, call, 0), Dispatch::ToMaster);
    let mut slave = NetworkUnit::new(2);
    slave.role = Role::Slave;
    assert_eq!(network_message_handler(&mut slave, call, 0), Dispatch::Dropped);
}

#[test]
fn receiver_applies_status_broadcasts() {
    let mut u = NetworkUnit::new(2);
    let status_msg = Communication {
        sender: 5,
        sender_role: Role::Master,
        target: TARGET_ALL,
        comm_type: CommType::StatusMessage,
        status: Some(idle_status(1)),
        order: None,
    };
    assert_eq!(network_message_handler(&mut u, status_msg, 42), Dispatch::Dropped);
    let states = u.get_state_list();
    assert_eq!(states.len(), 1);
    assert_eq!(states[0].id, 5);
    assert_eq!(states[0].role, Role::Master);
    assert_eq!(states[0].status.last_floor, 1);
}

#[test]
fn transfer_is_acknowledged_with_the_same_order() {
    // P2 kernel: an order transfer is answered at once with an ack for
    // exactly the carried order, addressed to the sender
    let o = Order {
        floor_number: 3,
        direction: HallDirection::Down,
    };
    let transfer = Communication {
        sender: 4,
        sender_role: Role::Master,
        target: 2,
        comm_type: CommType::OrderTransfer,
        status: None,
        order: Some(o),
    };
    let (insert, ack) = handle_message_from_master(transfer);
    let insert = insert.unwrap();
    assert_eq!(insert.intention, Intention::Insert);
    assert_eq!(insert.order, Some(o));
    let ack = ack.unwrap();
    assert_eq!(ack.comm_type, CommType::OrderAck);
    assert_eq!(ack.target, 4);
    assert_eq!(ack.order, Some(o));
    // nothing happens for a status message
    let status_msg = Communication {
        comm_type: CommType::StatusMessage,
        ..transfer
    };
    assert_eq!(handle_message_from_master(status_msg), (None, None));
}

#[test]
fn queue_is_empty_exactly_when_every_press_is_cleared() {
    // two presses, one cleared: the queue still holds the other
    let mut queue = OrderMemory::new();
    queue.apply(add_hall_call(1, HallDirection::Up));
    queue.apply(add_hall_call(2, HallDirection::Down));
    let ack = Communication {
        sender: 2,
        sender_role: Role::Slave,
        target: 1,
        comm_type: CommType::OrderAck,
        status: None,
        order: Some(Order {
            floor_number: 1,
            direction: HallDirection::Up,
        }),
    };
    queue.apply(receive_message(ack).unwrap());
    let pending = queue.apply(request_orders()).unwrap();
    assert_eq!(
        pending,
        vec![Order {
            floor_number: 2,
            direction: HallDirection::Down,
        }]
    );
    // a re-press after clearing re-queues the call
    queue.apply(add_hall_call(1, HallDirection::Up));
    let pending = queue.apply(request_orders()).unwrap();
    assert_eq!(pending.len(), 2);
    // clearing both empties the queue
    let ack2 = Communication {
        order: Some(Order {
            floor_number: 2,
            direction: HallDirection::Down,
        }),
        ..ack
    };
    queue.apply(receive_message(ack).unwrap());
    queue.apply(receive_message(ack2).unwrap());
    assert!(queue.apply(request_orders()).unwrap().is_empty());
}
