use elevator_core::types::{
    CommType, Communication, HallDirection, MotorDirection, Order, Role, Status, TARGET_ALL,
    TARGET_MASTER,
};
use elevator_core::wire::{decode_communication, encode_communication};

fn sample_status() -> Status {
    Status {
        last_floor: 3,
        direction: MotorDirection::Down,
        errors: false,
        obstructions: true,
        target_floor: Some(0),
    }
}

fn transfer_message() -> Communication {
    Communication {
        sender: 5,
        sender_role: Role::Master,
        target: 254,
        comm_type: CommType::OrderTransfer,
        status: None,
        order: Some(Order {
            floor_number: 2,
            direction: HallDirection::Up,
        }),
    }
}

fn status_message() -> Communication {
    Communication {
        sender: 0,
        sender_role: Role::Slave,
        target: TARGET_ALL,
        comm_type: CommType::StatusMessage,
        status: Some(sample_status()),
        order: None,
    }
}

#[test]
fn encoding_is_the_expected_text() {
    let bytes = encode_communication(&transfer_message());
    let text = String::from_utf8(bytes).unwrap();
    assert_eq!(
        text,
        "{\"sender\":5,\"sender_role\":0,\"target\":254,\"comm_type\":1,\
         \"status\":null,\"order\":{\"floor_number\":2,\"direction\":0}}"
    );
    let bytes = encode_communication(&status_message());
    let text = String::from_utf8(bytes).unwrap();
    assert_eq!(
        text,
        "{\"sender\":0,\"sender_role\":2,\"target\":255,\"comm_type\":0,\
         \"status\":{\"last_floor\":3,\"direction\":255,\"errors\":false,\
         \"obstructions\":true,\"target_floor\":0},\"order\":null}"
    );
}

#[test]
fn encoding_parses_as_json_with_the_wire_codes() {
    let bytes = encode_communication(&status_message());
    let v: serde_json::Value = serde_json::from_slice(&bytes).unwrap();
    assert_eq!(v.get("sender").unwrap().as_u64(), Some(0));
    assert_eq!(v.get("sender_role").unwrap().as_u64(), Some(2));
    assert_eq!(v.get("target").unwrap().as_u64(), Some(255));
    assert_eq!(v.get("comm_type").unwrap().as_u64(), Some(0));
    assert!(v.get("order").unwrap().is_null());
    let st = v.get("status").unwrap();
    assert_eq!(st.get("last_floor").unwrap().as_u64(), Some(3));
    assert_eq!(st.get("direction").unwrap().as_u64(), Some(255));
    assert_eq!(st.get("errors").unwrap().as_bool(), Some(false));
    assert_eq!(st.get("obstructions").unwrap().as_bool(), Some(true));
    assert_eq!(st.get("target_floor").unwrap().as_u64(), Some(0));

    let bytes = encode_communication(&transfer_message());
    let v: serde_json::Value = serde_json::from_slice(&bytes).unwrap();
    let o = v.get("order").unwrap();
    assert_eq!(o.get("floor_number").unwrap().as_u64(), Some(2));
    assert_eq!(o.get("direction").unwrap().as_u64(), Some(0));
}

#[test]
fn round_trip_preserves_every_message() {
    let statuses = [
        None,
        Some(sample_status()),
        Some(Status {
            last_floor: 255,
            direction: MotorDirection::Up,
            errors: true,
            obstructions: false,
            target_floor: None,
        }),
        Some(Status {
            last_floor: 100,
            direction: MotorDirection::Stop,
            errors: false,
            obstructions: false,
            target_floor: Some(255),
        }),
    ];
    let orders = [
        None,
        Some(Order {
            floor_number: 0,
            direction: HallDirection::Up,
        }),
        Some(Order {
            floor_number: 10,
            direction: HallDirection::Down,
        }),
    ];
    let roles = [Role::Master, Role::MasterBackup, Role::Slave];
    let types = [
        CommType::StatusMessage,
        CommType::OrderTransfer,
        CommType::OrderAck,
    ];
    for status in statuses {
        for order in orders {
            for (k, role) in roles.iter().enumerate() {
                let m = Communication {
                    sender: (k as u8) * 100,
                    sender_role: *role,
                    target: TARGET_MASTER,
                    comm_type: types[k],
                    status,
                    order,
                };
                let bytes = encode_communication(&m);
                assert_eq!(decode_communication(&bytes), Some(m));
            }
        }
    }
}

#[test]
fn malformed_datagrams_are_rejected() {
    // truncation anywhere is rejected
    let bytes = encode_communication(&status_message());
    for cut in 0..bytes.len() {
        let prefix: Vec<u8> = bytes[..cut].to_vec();
        assert_eq!(decode_communication(&prefix), None);
    }
    // trailing bytes are rejected
    let mut long = bytes.clone();
    long.push(b' ');
    assert_eq!(decode_communication(&long), None);
    // arbitrary text is rejected
    assert_eq!(decode_communication(&b"hello".to_vec()), None);
    assert_eq!(decode_communication(&Vec::new()), None);
}

#[test]
fn non_canonical_numbers_are_rejected() {
    let text = "{\"sender\":05,\"sender_role\":0,\"target\":254,\"comm_type\":1,\
                \"status\":null,\"order\":null}";
    assert_eq!(decode_communication(&text.as_bytes().to_vec()), None);
    let text = "{\"sender\":256,\"sender_role\":0,\"target\":254,\"comm_type\":1,\
                \"status\":null,\"order\":null}";
    assert_eq!(decode_communication(&text.as_bytes().to_vec()), None);
}

#[test]
fn unknown_wire_codes_are_rejected() {
    // role code 7 names no role
    let text = "{\"sender\":5,\"sender_role\":7,\"target\":254,\"comm_type\":1,\
                \"status\":null,\"order\":null}";
    assert_eq!(decode_communication(&text.as_bytes().to_vec()), None);
    // message type 9 names no type
    let text = "{\"sender\":5,\"sender_role\":0,\"target\":254,\"comm_type\":9,\
                \"status\":null,\"order\":null}";
    assert_eq!(decode_communication(&text.as_bytes().to_vec()), None);
    // motor direction 7 names no direction
    let text = "{\"sender\":5,\"sender_role\":0,\"target\":254,\"comm_type\":0,\
                \"status\":{\"last_floor\":3,\"direction\":7,\"errors\":false,\
                \"obstructions\":true,\"target_floor\":0},\"order\":null}";
    assert_eq!(decode_communication(&text.as_bytes().to_vec()), None);
}

#[test]
fn spacing_is_not_tolerated() {
    // the wire form is exactly the canonical text; a datagram from a
    // foreign serializer with extra whitespace is dropped
    let text = "{\"sender\": 5,\"sender_role\":0,\"target\":254,\"comm_type\":1,\
                \"status\":null,\"order\":null}";
    assert_eq!(decode_communication(&text.as_bytes().to_vec()), None);
}

#[test]
fn canonical_text_decodes() {
    let text = "{\"sender\":5,\"sender_role\":0,\"target\":254,\"comm_type\":2,\
                \"status\":null,\"order\":{\"floor_number\":3,\"direction\":1}}";
    let m = decode_communication(&text.as_bytes().to_vec()).unwrap();
    assert_eq!(m.sender, 5);
    assert_eq!(m.sender_role, Role::Master);
    assert_eq!(m.target, 254);
    assert_eq!(m.comm_type, CommType::OrderAck);
    assert_eq!(m.status, None);
    assert_eq!(
        m.order,
        Some(Order {
            floor_number: 3,
            direction: HallDirection::Down,
        })
    );
}
