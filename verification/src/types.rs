//! The data model shared by every component: directions, roles, orders,
//! statuses and the message envelope, together with the numeric wire
//! codes and the conversions between them.

use vstd::prelude::*;

verus! {

// Wire codes for call-button kinds and hall directions.
pub const HALL_UP: u8 = 0;
pub const HALL_DOWN: u8 = 1;
pub const CAB: u8 = 2;

// Wire codes for motor directions.
pub const DIRN_UP: u8 = 1;
pub const DIRN_DOWN: u8 = 255;
pub const DIRN_STOP: u8 = 0;

// Wire codes for roles.
pub const ROLE_MASTER: u8 = 0;
pub const ROLE_MASTER_BACKUP: u8 = 1;
pub const ROLE_SLAVE: u8 = 2;

// Wire codes for message types.
pub const STATUS_MESSAGE: u8 = 0;
pub const ORDER_TRANSFER: u8 = 1;
pub const ORDER_ACK: u8 = 2;

// Reserved target values of the envelope; any other value is a node id.
pub const TARGET_MASTER: u8 = 254;
pub const TARGET_ALL: u8 = 255;

/// Direction requested by a hall button, and the preferred stop
/// direction recorded in an order.
#[derive(Clone, Copy, Debug, PartialEq, Eq, Structural)]
pub enum HallDirection {
    Up,
    Down,
}

/// Direction commanded to the motor.
#[derive(Clone, Copy, Debug, PartialEq, Eq, Structural)]
pub enum MotorDirection {
    Up,
    Down,
    Stop,
}

/// Role a node plays in the cluster.
#[derive(Clone, Copy, Debug, PartialEq, Eq, Structural)]
pub enum Role {
    Master,
    MasterBackup,
    Slave,
}

/// Kind of a broadcast message.
#[derive(Clone, Copy, Debug, PartialEq, Eq, Structural)]
pub enum CommType {
    StatusMessage,
    OrderTransfer,
    OrderAck,
}

/// A hall order: a floor together with the preferred stop direction.
/// Equal orders are deduplicated by the order sets.
#[derive(Clone, Copy, Debug, PartialEq, Eq, Structural)]
pub struct Order {
    pub floor_number: u8,
    pub direction: HallDirection,
}

impl Order {
    /// Placeholder order, outside every building: no floor is ever
    /// `u8::MAX` because floors lie below the configured floor count.
    pub fn new() -> (r: Self)
        ensures
            r.floor_number == u8::MAX,
            r.direction is Up,
    {
        Order { floor_number: u8::MAX, direction: HallDirection::Up }
    }
}

/// Snapshot of one elevator, produced every status tick and replacing
/// any prior status from the same node.
#[derive(Clone, Copy, Debug, PartialEq, Eq)]
pub struct Status {
    pub last_floor: u8,
    pub direction: MotorDirection,
    pub errors: bool,
    pub obstructions: bool,
    pub target_floor: Option<u8>,
}

impl Status {
    /// Placeholder status: the floor is still unknown, so it carries the
    /// sentinel `u8::MAX`, above every real floor.
    pub fn new() -> (r: Self)
        ensures
            r.last_floor == u8::MAX,
            r.direction is Stop,
            !r.errors,
            !r.obstructions,
            r.target_floor is None,
    {
        Status {
            last_floor: u8::MAX,
            direction: MotorDirection::Stop,
            errors: false,
            obstructions: false,
            target_floor: None,
        }
    }
}

/// One peer's latest broadcast state, as kept in the peer table.
#[derive(Clone, Copy, Debug, PartialEq, Eq)]
pub struct State {
    pub id: u8,
    pub role: Role,
    pub status: Status,
}

/// A node's own identity and status, as broadcast on the wire.
#[derive(Clone, Copy, Debug, PartialEq, Eq)]
pub struct Broadcast {
    pub id: u8,
    pub role: Role,
    pub status: Status,
}

/// The envelope of every broadcast datagram. `sender` and `sender_role`
/// are meaningful only after `stamp_message`: builders leave them at
/// placeholder values and the sending side stamps its own identity.
#[derive(Clone, Copy, Debug, PartialEq, Eq)]
pub struct Communication {
    pub sender: u8,
    pub sender_role: Role,
    pub target: u8,
    pub comm_type: CommType,
    pub status: Option<Status>,
    pub order: Option<Order>,
}

/// What an internal request asks a memory owner to do.
#[derive(Clone, Copy, Debug, PartialEq, Eq, Structural)]
pub enum Intention {
    Insert,
    Delete,
    RequestOrders,
    RequestDirection,
    UpdateDirection,
}

/// A request to a memory owner: the intention plus its payload.
#[derive(Clone, Copy, Debug, PartialEq, Eq)]
pub struct InternalCommunication {
    pub intention: Intention,
    pub order: Option<Order>,
    pub direction: Option<MotorDirection>,
}

/// An internal request is well formed when it carries the payload its
/// intention needs.
pub open spec fn wf_internal(c: InternalCommunication) -> bool {
    &&& c.intention is Insert ==> c.order is Some
    &&& c.intention is Delete ==> c.order is Some
    &&& c.intention is UpdateDirection ==> c.direction is Some
}

/// Turns a hall direction into the motor direction that serves it.
pub fn halldirn_to_elevdirn(dirn: HallDirection) -> (r: MotorDirection)
    ensures
        r == spec_hall_to_motor(dirn),
{
    match dirn {
        HallDirection::Up => MotorDirection::Up,
        HallDirection::Down => MotorDirection::Down,
    }
}

/// The motor direction that serves a hall direction.
pub open spec fn spec_hall_to_motor(dirn: HallDirection) -> MotorDirection {
    match dirn {
        HallDirection::Up => MotorDirection::Up,
        HallDirection::Down => MotorDirection::Down,
    }
}

/// Turns a motor direction into the hall direction it serves; the motor
/// at rest serves no hall direction.
pub fn elevdirn_to_halldirn(dirn: MotorDirection) -> (r: Option<HallDirection>)
    ensures
        dirn is Up ==> r == Some(HallDirection::Up),
        dirn is Down ==> r == Some(HallDirection::Down),
        dirn is Stop ==> r is None,
{
    match dirn {
        MotorDirection::Up => Some(HallDirection::Up),
        MotorDirection::Down => Some(HallDirection::Down),
        MotorDirection::Stop => None,
    }
}

/// The opposite hall direction.
pub fn opposite_direction_hall(direction: HallDirection) -> (r: HallDirection)
    ensures
        direction is Up ==> r is Down,
        direction is Down ==> r is Up,
{
    match direction {
        HallDirection::Up => HallDirection::Down,
        HallDirection::Down => HallDirection::Up,
    }
}

/// The wire code of a hall direction.
pub fn hall_direction_code(d: HallDirection) -> (r: u8)
    ensures
        r == spec_hall_code(d),
{
    match d {
        HallDirection::Up => HALL_UP,
        HallDirection::Down => HALL_DOWN,
    }
}

pub open spec fn spec_hall_code(d: HallDirection) -> u8 {
    match d {
        HallDirection::Up => HALL_UP,
        HallDirection::Down => HALL_DOWN,
    }
}

/// The hall direction a wire code names, if any.
pub fn hall_direction_from_code(c: u8) -> (r: Option<HallDirection>)
    ensures
        r == spec_hall_from_code(c),
{
    if c == HALL_UP {
        Some(HallDirection::Up)
    } else if c == HALL_DOWN {
        Some(HallDirection::Down)
    } else {
        None
    }
}

pub open spec fn spec_hall_from_code(c: u8) -> Option<HallDirection> {
    if c == HALL_UP {
        Some(HallDirection::Up)
    } else if c == HALL_DOWN {
        Some(HallDirection::Down)
    } else {
        None
    }
}

/// The wire code of a motor direction.
pub fn motor_direction_code(d: MotorDirection) -> (r: u8)
    ensures
        r == spec_motor_code(d),
{
    match d {
        MotorDirection::Up => DIRN_UP,
        MotorDirection::Down => DIRN_DOWN,
        MotorDirection::Stop => DIRN_STOP,
    }
}

pub open spec fn spec_motor_code(d: MotorDirection) -> u8 {
    match d {
        MotorDirection::Up => DIRN_UP,
        MotorDirection::Down => DIRN_DOWN,
        MotorDirection::Stop => DIRN_STOP,
    }
}

/// The motor direction a wire code names, if any.
pub fn motor_direction_from_code(c: u8) -> (r: Option<MotorDirection>)
    ensures
        r == spec_motor_from_code(c),
{
    if c == DIRN_UP {
        Some(MotorDirection::Up)
    } else if c == DIRN_DOWN {
        Some(MotorDirection::Down)
    } else if c == DIRN_STOP {
        Some(MotorDirection::Stop)
    } else {
        None
    }
}

pub open spec fn spec_motor_from_code(c: u8) -> Option<MotorDirection> {
    if c == DIRN_UP {
        Some(MotorDirection::Up)
    } else if c == DIRN_DOWN {
        Some(MotorDirection::Down)
    } else if c == DIRN_STOP {
        Some(MotorDirection::Stop)
    } else {
        None
    }
}

/// The wire code of a role.
pub fn role_code(r: Role) -> (c: u8)
    ensures
        c == spec_role_code(r),
{
    match r {
        Role::Master => ROLE_MASTER,
        Role::MasterBackup => ROLE_MASTER_BACKUP,
        Role::Slave => ROLE_SLAVE,
    }
}

pub open spec fn spec_role_code(r: Role) -> u8 {
    match r {
        Role::Master => ROLE_MASTER,
        Role::MasterBackup => ROLE_MASTER_BACKUP,
        Role::Slave => ROLE_SLAVE,
    }
}

/// The role a wire code names, if any.
pub fn role_from_code(c: u8) -> (r: Option<Role>)
    ensures
        r == spec_role_from_code(c),
{
    if c == ROLE_MASTER {
        Some(Role::Master)
    } else if c == ROLE_MASTER_BACKUP {
        Some(Role::MasterBackup)
    } else if c == ROLE_SLAVE {
        Some(Role::Slave)
    } else {
        None
    }
}

pub open spec fn spec_role_from_code(c: u8) -> Option<Role> {
    if c == ROLE_MASTER {
        Some(Role::Master)
    } else if c == ROLE_MASTER_BACKUP {
        Some(Role::MasterBackup)
    } else if c == ROLE_SLAVE {
        Some(Role::Slave)
    } else {
        None
    }
}

/// The wire code of a message type.
pub fn comm_type_code(t: CommType) -> (c: u8)
    ensures
        c == spec_comm_type_code(t),
{
    match t {
        CommType::StatusMessage => STATUS_MESSAGE,
        CommType::OrderTransfer => ORDER_TRANSFER,
        CommType::OrderAck => ORDER_ACK,
    }
}

pub open spec fn spec_comm_type_code(t: CommType) -> u8 {
    match t {
        CommType::StatusMessage => STATUS_MESSAGE,
        CommType::OrderTransfer => ORDER_TRANSFER,
        CommType::OrderAck => ORDER_ACK,
    }
}

/// The message type a wire code names, if any.
pub fn comm_type_from_code(c: u8) -> (r: Option<CommType>)
    ensures
        r == spec_comm_type_from_code(c),
{
    if c == STATUS_MESSAGE {
        Some(CommType::StatusMessage)
    } else if c == ORDER_TRANSFER {
        Some(CommType::OrderTransfer)
    } else if c == ORDER_ACK {
        Some(CommType::OrderAck)
    } else {
        None
    }
}

pub open spec fn spec_comm_type_from_code(c: u8) -> Option<CommType> {
    if c == STATUS_MESSAGE {
        Some(CommType::StatusMessage)
    } else if c == ORDER_TRANSFER {
        Some(CommType::OrderTransfer)
    } else if c == ORDER_ACK {
        Some(CommType::OrderAck)
    } else {
        None
    }
}

/// Names a motor direction for the status readout.
pub fn direction_to_string(dirn: MotorDirection) -> (r: String)
    ensures
        dirn is Up ==> r@ == "Oppover"@,
        dirn is Down ==> r@ == "Nedover"@,
        dirn is Stop ==> r@ == "Stoppet"@,
{
    match dirn {
        MotorDirection::Up => "Oppover".to_string(),
        MotorDirection::Down => "Nedover".to_string(),
        MotorDirection::Stop => "Stoppet".to_string(),
    }
}

} // verus!
