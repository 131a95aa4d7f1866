use elevator_core::fsm::{
    check_continue_or_not, check_for_bottom, check_for_stop, check_lights, floor_received,
    handle_cab_order, send_elevator_startup, split_destinations, target_floor_function,
    Controller, ElevatorMemory, MemoryReply, MotorCommand,
};
use elevator_core::orders::OrderSet;
use elevator_core::types::{
    direction_to_string, elevdirn_to_halldirn, halldirn_to_elevdirn, opposite_direction_hall,
    HallDirection, Intention, InternalCommunication, MotorDirection, Order,
};

fn order(floor: u8, direction: HallDirection) -> Order {
    Order {
        floor_number: floor,
        direction,
    }
}

#[test]
fn direction_conversions() {
    assert_eq!(
        halldirn_to_elevdirn(HallDirection::Up),
        MotorDirection::Up
    );
    assert_eq!(
        halldirn_to_elevdirn(HallDirection::Down),
        MotorDirection::Down
    );
    assert_eq!(
        elevdirn_to_halldirn(MotorDirection::Up),
        Some(HallDirection::Up)
    );
    assert_eq!(
        elevdirn_to_halldirn(MotorDirection::Down),
        Some(HallDirection::Down)
    );
    assert_eq!(elevdirn_to_halldirn(MotorDirection::Stop), None);
    assert_eq!(
        opposite_direction_hall(HallDirection::Up),
        HallDirection::Down
    );
    assert_eq!(
        opposite_direction_hall(HallDirection::Down),
        HallDirection::Up
    );
}

#[test]
fn direction_names() {
    assert_eq!(direction_to_string(MotorDirection::Up), "Oppover");
    assert_eq!(direction_to_string(MotorDirection::Down), "Nedover");
    assert_eq!(direction_to_string(MotorDirection::Stop), "Stoppet");
}

#[test]
fn insert_twice_leaves_set_unchanged() {
    let mut s = OrderSet::new();
    let o = order(2, HallDirection::Up);
    s.insert(o);
    s.insert(o);
    assert_eq!(s.len(), 1);
    assert!(s.contains(&o));
    let v = s.to_vec();
    assert_eq!(v, vec![o]);
}

#[test]
fn remove_absent_order_is_harmless() {
    let mut s = OrderSet::new();
    s.insert(order(1, HallDirection::Down));
    s.remove(&order(3, HallDirection::Up));
    assert_eq!(s.len(), 1);
    s.remove(&order(1, HallDirection::Down));
    assert!(s.is_empty());
}

#[test]
fn target_floor_follows_direction() {
    let mut s = OrderSet::new();
    s.insert(order(1, HallDirection::Up));
    s.insert(order(3, HallDirection::Down));
    s.insert(order(2, HallDirection::Up));
    assert_eq!(target_floor_function(MotorDirection::Up, &s, 0), Some(3));
    assert_eq!(target_floor_function(MotorDirection::Down, &s, 0), Some(1));
    assert_eq!(target_floor_function(MotorDirection::Stop, &s, 2), Some(2));
    let empty = OrderSet::new();
    assert_eq!(target_floor_function(MotorDirection::Up, &empty, 0), None);
}

#[test]
fn boundary_stop_at_shaft_ends() {
    assert_eq!(
        check_for_bottom(MotorDirection::Up, 3, 4),
        Some(MotorDirection::Stop)
    );
    assert_eq!(
        check_for_bottom(MotorDirection::Down, 0, 4),
        Some(MotorDirection::Stop)
    );
    assert_eq!(check_for_bottom(MotorDirection::Up, 2, 4), None);
    assert_eq!(check_for_bottom(MotorDirection::Down, 1, 4), None);
    assert_eq!(check_for_bottom(MotorDirection::Stop, 0, 4), None);
}

#[test]
fn heading_continues_towards_target() {
    assert_eq!(
        check_continue_or_not(MotorDirection::Up, 1, 3),
        MotorDirection::Up
    );
    assert_eq!(
        check_continue_or_not(MotorDirection::Up, 3, 3),
        MotorDirection::Stop
    );
    assert_eq!(
        check_continue_or_not(MotorDirection::Down, 2, 0),
        MotorDirection::Down
    );
    assert_eq!(
        check_continue_or_not(MotorDirection::Stop, 2, 3),
        MotorDirection::Stop
    );
}

#[test]
fn stop_for_matching_direction_or_target() {
    let mut s = OrderSet::new();
    s.insert(order(2, HallDirection::Up));
    // moving up through floor 2: the up order is served
    assert_eq!(
        check_for_stop(2, MotorDirection::Up, &s, 3),
        Some(order(2, HallDirection::Up))
    );
    // moving down through floor 2 towards floor 0: direction differs
    // and the floor is not the target, so no stop
    assert_eq!(check_for_stop(2, MotorDirection::Down, &s, 0), None);
    // moving down with floor 2 as the target: served despite direction
    assert_eq!(
        check_for_stop(2, MotorDirection::Down, &s, 2),
        Some(order(2, HallDirection::Up))
    );
    // some other floor entirely
    assert_eq!(check_for_stop(1, MotorDirection::Up, &s, 3), None);
}

#[test]
fn lights_rule() {
    // heading stop at the top floor: everything at the floor goes off
    let l = check_lights(MotorDirection::Stop, 3, 4);
    assert!(l.cab_off && l.hall_up_off && l.hall_down_off);
    // heading up mid-shaft: only up (and cab) go off
    let l = check_lights(MotorDirection::Up, 1, 4);
    assert!(l.cab_off && l.hall_up_off && !l.hall_down_off);
    // heading down mid-shaft: only down (and cab) go off
    let l = check_lights(MotorDirection::Down, 2, 4);
    assert!(l.cab_off && !l.hall_up_off && l.hall_down_off);
    // heading up at the top floor: both hall lights go off
    let l = check_lights(MotorDirection::Up, 3, 4);
    assert!(l.hall_up_off && l.hall_down_off);
    // heading down at the bottom floor: both hall lights go off
    let l = check_lights(MotorDirection::Down, 0, 4);
    assert!(l.hall_up_off && l.hall_down_off);
}

#[test]
fn cab_calls_encode_preferred_direction() {
    // idle at floor 1, presses at 0, 2 and 3 as in a four-floor car
    let c0 = handle_cab_order(0, 1);
    let c2 = handle_cab_order(2, 1);
    let c3 = handle_cab_order(3, 1);
    assert_eq!(c0.intention, Intention::Insert);
    assert_eq!(c0.order, Some(order(0, HallDirection::Down)));
    assert_eq!(c2.order, Some(order(2, HallDirection::Up)));
    assert_eq!(c3.order, Some(order(3, HallDirection::Up)));
}

#[test]
fn startup_nudge_prefers_up() {
    let mut s = OrderSet::new();
    s.insert(order(0, HallDirection::Down));
    s.insert(order(2, HallDirection::Up));
    s.insert(order(3, HallDirection::Up));
    // S2: idle at floor 1 with floors above and below: up wins
    assert_eq!(
        send_elevator_startup(1, MotorDirection::Stop, &s),
        Some(MotorDirection::Up)
    );
    // only a floor below
    let mut below = OrderSet::new();
    below.insert(order(0, HallDirection::Down));
    assert_eq!(
        send_elevator_startup(2, MotorDirection::Stop, &below),
        Some(MotorDirection::Down)
    );
    // already moving: no nudge
    assert_eq!(send_elevator_startup(1, MotorDirection::Up, &s), None);
    // nothing pending
    let empty = OrderSet::new();
    assert_eq!(send_elevator_startup(1, MotorDirection::Stop, &empty), None);
}

#[test]
fn floor_event_serves_top_floor_order() {
    // S6: moving up with destination (3, up) in a four-floor building,
    // the sensor reports floor 3
    let mut s = OrderSet::new();
    s.insert(order(3, HallDirection::Up));
    let out = floor_received(3, MotorDirection::Up, &s, 4);
    assert_eq!(out.removed, Some(order(3, HallDirection::Up)));
    assert!(out.door_open);
    assert_eq!(out.target_floor, 3);
    assert_eq!(out.heading, MotorDirection::Stop);
    // boundary stop first, then the temporary stop, then the heading
    assert_eq!(
        out.commands,
        vec![
            MotorCommand::Commit(MotorDirection::Stop),
            MotorCommand::StopTemp,
            MotorCommand::Commit(MotorDirection::Stop),
        ]
    );
    // at the top floor the hall-down light goes off as well
    let l = out.lights.unwrap();
    assert!(l.cab_off && l.hall_up_off && l.hall_down_off);
}

#[test]
fn floor_event_passes_through() {
    // S1 fragment: moving up towards floor 2, passing floor 1
    let mut s = OrderSet::new();
    s.insert(order(2, HallDirection::Up));
    let out = floor_received(1, MotorDirection::Up, &s, 4);
    assert_eq!(out.removed, None);
    assert!(!out.door_open);
    assert_eq!(out.lights, None);
    assert_eq!(out.heading, MotorDirection::Up);
    assert_eq!(out.commands, vec![MotorCommand::Commit(MotorDirection::Up)]);
}

#[test]
fn floor_event_arrival_stops() {
    // S1: the car reaches floor 2 with the hall-up order pending
    let mut s = OrderSet::new();
    s.insert(order(2, HallDirection::Up));
    let out = floor_received(2, MotorDirection::Up, &s, 4);
    assert_eq!(out.removed, Some(order(2, HallDirection::Up)));
    assert!(out.door_open);
    assert_eq!(out.heading, MotorDirection::Stop);
    assert_eq!(
        out.commands,
        vec![
            MotorCommand::StopTemp,
            MotorCommand::Commit(MotorDirection::Stop),
        ]
    );
    // the resultant heading is stop, so both hall lights go off
    let l = out.lights.unwrap();
    assert!(l.hall_up_off && l.hall_down_off);
}

#[test]
fn controller_commits_and_restores() {
    let mut c = Controller::new();
    let (act, update) = c.step(MotorCommand::Commit(MotorDirection::Up));
    assert_eq!(act.first, MotorDirection::Up);
    assert_eq!(act.restore, None);
    let update = update.unwrap();
    assert_eq!(update.intention, Intention::UpdateDirection);
    assert_eq!(update.direction, Some(MotorDirection::Up));
    // a temporary stop restores the committed direction
    let (act, update) = c.step(MotorCommand::StopTemp);
    assert_eq!(act.first, MotorDirection::Stop);
    assert_eq!(act.restore, Some(MotorDirection::Up));
    assert_eq!(update, None);
}

#[test]
fn elevator_memory_owns_destinations_and_direction() {
    let mut m = ElevatorMemory::new();
    let insert = InternalCommunication {
        intention: Intention::Insert,
        order: Some(order(2, HallDirection::Up)),
        direction: None,
    };
    assert_eq!(m.apply(insert), None);
    assert_eq!(m.apply(insert), None);
    let snapshot = InternalCommunication {
        intention: Intention::RequestOrders,
        order: None,
        direction: None,
    };
    match m.apply(snapshot) {
        Some(MemoryReply::Destinations(v)) => assert_eq!(v, vec![order(2, HallDirection::Up)]),
        other => panic!("expected a destinations snapshot, got {:?}", other),
    }
    let set_dir = InternalCommunication {
        intention: Intention::UpdateDirection,
        order: None,
        direction: Some(MotorDirection::Up),
    };
    assert_eq!(m.apply(set_dir), None);
    let ask_dir = InternalCommunication {
        intention: Intention::RequestDirection,
        order: None,
        direction: None,
    };
    assert_eq!(
        m.apply(ask_dir),
        Some(MemoryReply::Direction(MotorDirection::Up))
    );
    let delete = InternalCommunication {
        intention: Intention::Delete,
        order: Some(order(2, HallDirection::Up)),
        direction: None,
    };
    assert_eq!(m.apply(delete), None);
    match m.apply(snapshot) {
        Some(MemoryReply::Destinations(v)) => assert!(v.is_empty()),
        other => panic!("expected an empty snapshot, got {:?}", other),
    }
}

#[test]
fn readout_splits_destinations_by_direction() {
    let mut s = OrderSet::new();
    s.insert(order(1, HallDirection::Up));
    s.insert(order(2, HallDirection::Down));
    s.insert(order(3, HallDirection::Up));
    let (up, down) = split_destinations(&s);
    let mut up = up;
    up.sort();
    assert_eq!(up, vec![1, 3]);
    assert_eq!(down, vec![2]);
}

#[test]
fn cab_sequence_serves_all_floors() {
    // S2 end to end over the pure transitions: cab calls at 0, 2, 3
    // while idle at floor 1
    let mut dests = OrderSet::new();
    for c in [
        handle_cab_order(0, 1),
        handle_cab_order(2, 1),
        handle_cab_order(3, 1),
    ] {
        dests.insert(c.order.unwrap());
    }
    assert_eq!(dests.len(), 3);
    // nudge picks up
    assert_eq!(
        send_elevator_startup(1, MotorDirection::Stop, &dests),
        Some(MotorDirection::Up)
    );
    // floor 2: serve (2, up) and continue up towards 3
    let out = floor_received(2, MotorDirection::Up, &dests, 4);
    assert_eq!(out.removed, Some(order(2, HallDirection::Up)));
    assert_eq!(out.heading, MotorDirection::Up);
    dests.remove(&out.removed.unwrap());
    // floor 3: serve (3, up), then stop
    let out = floor_received(3, MotorDirection::Up, &dests, 4);
    assert_eq!(out.removed, Some(order(3, HallDirection::Up)));
    assert_eq!(out.heading, MotorDirection::Stop);
    dests.remove(&out.removed.unwrap());
    // reversal: nudge now picks down
    assert_eq!(
        send_elevator_startup(3, MotorDirection::Stop, &dests),
        Some(MotorDirection::Down)
    );
    // floor 0: serve (0, down); nothing left
    let out = floor_received(0, MotorDirection::Down, &dests, 4);
    assert_eq!(out.removed, Some(order(0, HallDirection::Down)));
    dests.remove(&out.removed.unwrap());
    assert!(dests.is_empty());
}
