//! The per-node elevator state machine: given sensor events and the
//! destination set it decides when to stop, where to head next, which
//! lights to clear and what to tell the motor. The surrounding event
//! loop performs the commands; every decision is taken here.

use vstd::prelude::*;
use crate::orders::OrderSet;
use crate::types::{
    Communication, CommType, HallDirection, InternalCommunication, Intention, MotorDirection,
    Order, Role, spec_hall_to_motor, halldirn_to_elevdirn, wf_internal,
};

verus! {

/// Every order in the set lies inside a building with `n` floors.
pub open spec fn valid_orders(s: Set<Order>, n: u8) -> bool {
    forall|o: Order| s.contains(o) ==> o.floor_number < n
}

/// Some order in the set has this floor.
pub open spec fn has_floor(s: Set<Order>, f: u8) -> bool {
    exists|o: Order| s.contains(o) && o.floor_number == f
}

/// Some order in the set lies strictly above this floor.
pub open spec fn has_floor_above(s: Set<Order>, f: u8) -> bool {
    exists|o: Order| s.contains(o) && o.floor_number > f
}

/// Some order in the set lies strictly below this floor.
pub open spec fn has_floor_below(s: Set<Order>, f: u8) -> bool {
    exists|o: Order| s.contains(o) && o.floor_number < f
}

/// The target floor: the farthest destination in the current direction,
/// the nearest when heading down, the last floor when at rest.
///
/// Returns `None` exactly when the destination set is empty; otherwise,
/// moving up it is the highest destination floor, moving down the
/// lowest, and at rest the last floor visited.
pub fn target_floor_function(
    dirn: MotorDirection,
    destination_list: &OrderSet,
    last_floor: u8,
) -> (r: Option<u8>)
    requires
        destination_list.wf(),
    ensures
        (r is None) <==> destination_list@ == Set::<Order>::empty(),
        r matches Some(t) ==> match dirn {
            MotorDirection::Up => has_floor(destination_list@, t) && (forall|o: Order|
                destination_list@.contains(o) ==> o.floor_number <= t),
            MotorDirection::Down => has_floor(destination_list@, t) && (forall|o: Order|
                destination_list@.contains(o) ==> o.floor_number >= t),
            MotorDirection::Stop => t == last_floor,
        },
{
    let v = destination_list.as_vec();
    if v.len() == 0 {
        proof {
            assert(destination_list@ =~= Set::<Order>::empty());
        }
        return None;
    }
    proof {
        assert(v@.contains(v@[0]));
        assert(destination_list@.contains(v@[0]));
    }
    match dirn {
        MotorDirection::Up => {
            let mut m: u8 = v[0].floor_number;
            let mut i: usize = 1;
            while i < v.len()
                invariant
                    1 <= i <= v@.len(),
                    exists|j: int| 0 <= j < i && v@[j].floor_number == m,
                    forall|j: int| 0 <= j < i ==> v@[j].floor_number <= m,
                decreases v@.len() - i,
            {
                if v[i].floor_number > m {
                    m = v[i].floor_number;
                }
                i = i + 1;
            }
            proof {
                let j = choose|j: int| 0 <= j < v@.len() && v@[j].floor_number == m;
                assert(v@.contains(v@[j]));
                assert(destination_list@.contains(v@[j]));
                assert forall|o: Order| destination_list@.contains(o) implies o.floor_number
                    <= m by {
                    assert(v@.contains(o));
                }
            }
            Some(m)
        },
        MotorDirection::Down => {
            let mut m: u8 = v[0].floor_number;
            let mut i: usize = 1;
            while i < v.len()
                invariant
                    1 <= i <= v@.len(),
                    exists|j: int| 0 <= j < i && v@[j].floor_number == m,
                    forall|j: int| 0 <= j < i ==> v@[j].floor_number >= m,
                decreases v@.len() - i,
            {
                if v[i].floor_number < m {
                    m = v[i].floor_number;
                }
                i = i + 1;
            }
            proof {
                let j = choose|j: int| 0 <= j < v@.len() && v@[j].floor_number == m;
                assert(v@.contains(v@[j]));
                assert(destination_list@.contains(v@[j]));
                assert forall|o: Order| destination_list@.contains(o) implies o.floor_number
                    >= m by {
                    assert(v@.contains(o));
                }
            }
            Some(m)
        },
        MotorDirection::Stop => Some(last_floor),
    }
}

/// Whether arriving at this floor in this direction runs into the end
/// of the shaft, which must command an immediate stop.
pub open spec fn spec_boundary_stop(dirn: MotorDirection, floor: u8, n: u8) -> bool {
    (dirn is Up && floor == n - 1) || (dirn is Down && floor == 0)
}

/// Boundary safety check on a floor event: at the top moving up, or at
/// the bottom moving down, the motor is stopped at once.
pub fn check_for_bottom(dirn: MotorDirection, floor: u8, elev_num_floors: u8) -> (r: Option<
    MotorDirection,
>)
    requires
        elev_num_floors >= 1,
    ensures
        r == if spec_boundary_stop(dirn, floor, elev_num_floors) {
            Some(MotorDirection::Stop)
        } else {
            None::<MotorDirection>
        },
{
    if (matches!(dirn, MotorDirection::Up) && floor == elev_num_floors - 1) || (matches!(
        dirn,
        MotorDirection::Down,
    ) && floor == 0) {
        Some(MotorDirection::Stop)
    } else {
        None
    }
}

/// The heading after a floor: keep going while the target lies ahead in
/// the current direction, otherwise stop.
pub open spec fn spec_heading(dirn: MotorDirection, floor: u8, target: u8) -> MotorDirection {
    if dirn is Up && floor < target {
        MotorDirection::Up
    } else if dirn is Down && floor > target {
        MotorDirection::Down
    } else {
        MotorDirection::Stop
    }
}

/// Decides whether to continue past this floor towards the target.
pub fn check_continue_or_not(dirn: MotorDirection, floor: u8, target_floor: u8) -> (r:
    MotorDirection)
    ensures
        r == spec_heading(dirn, floor, target_floor),
{
    if (matches!(dirn, MotorDirection::Up) && floor < target_floor) || (matches!(
        dirn,
        MotorDirection::Down,
    ) && floor > target_floor) {
        dirn
    } else {
        MotorDirection::Stop
    }
}

/// An order is served at this floor when it names the floor and either
/// asks for the direction the elevator is moving in or the floor is the
/// target of the trip.
pub open spec fn spec_should_stop(
    o: Order,
    floor: u8,
    dirn: MotorDirection,
    target: u8,
) -> bool {
    o.floor_number == floor && (spec_hall_to_motor(o.direction) == dirn || floor == target)
}

/// Picks a destination served at this floor, if there is one. The
/// caller removes the returned order and opens the door.
pub fn check_for_stop(
    floor: u8,
    dirn: MotorDirection,
    destination_list: &OrderSet,
    target_floor: u8,
) -> (r: Option<Order>)
    requires
        destination_list.wf(),
    ensures
        r matches Some(d) ==> destination_list@.contains(d) && spec_should_stop(
            d,
            floor,
            dirn,
            target_floor,
        ),
        r is None ==> forall|o: Order|
            destination_list@.contains(o) ==> !spec_should_stop(o, floor, dirn, target_floor),
{
    let v = destination_list.as_vec();
    let mut i: usize = 0;
    while i < v.len()
        invariant
            i <= v@.len(),
            v@.to_set() == destination_list@,
            forall|j: int|
                0 <= j < i ==> !spec_should_stop(v@[j], floor, dirn, target_floor),
        decreases v@.len() - i,
    {
        let d = v[i];
        if d.floor_number == floor {
            if halldirn_to_elevdirn(d.direction) == dirn || floor == target_floor {
                proof {
                    assert(v@.contains(d));
                    assert(destination_list@.contains(d));
                }
                return Some(d);
            }
        }
        i = i + 1;
    }
    proof {
        assert forall|o: Order| destination_list@.contains(o) implies !spec_should_stop(
            o,
            floor,
            dirn,
            target_floor,
        ) by {
            assert(v@.contains(o));
        }
    }
    None
}

/// Which call-button lights to switch off on a stop.
#[derive(Clone, Copy, Debug, PartialEq, Eq, Structural)]
pub struct LightActions {
    pub cab_off: bool,
    pub hall_up_off: bool,
    pub hall_down_off: bool,
}

/// The lights rule on a stop at `floor` with resultant heading `dirn`:
/// the cab light goes off; the hall-down light goes off when heading
/// down, resting, or at the top; the hall-up light goes off when
/// heading up, resting, or at the bottom.
pub fn check_lights(dirn: MotorDirection, floor: u8, num_floors: u8) -> (r: LightActions)
    requires
        num_floors >= 1,
    ensures
        r.cab_off,
        r.hall_down_off <==> (dirn is Down || dirn is Stop || floor == num_floors - 1),
        r.hall_up_off <==> (dirn is Up || dirn is Stop || floor == 0),
{
    let hall_down_off = matches!(dirn, MotorDirection::Down) || matches!(
        dirn,
        MotorDirection::Stop,
    ) || floor == num_floors - 1;
    let hall_up_off = matches!(dirn, MotorDirection::Up) || matches!(dirn, MotorDirection::Stop)
        || floor == 0;
    LightActions { cab_off: true, hall_up_off, hall_down_off }
}

/// A cab call at `floor` becomes a destination whose preferred stop
/// direction points back at where the car last was: down when the call
/// lies below the last floor, up otherwise.
pub fn handle_cab_order(floor: u8, last_floor: u8) -> (r: InternalCommunication)
    ensures
        r.intention is Insert,
        r.direction is None,
        r.order matches Some(o) && o.floor_number == floor && o.direction == (if floor
            < last_floor {
            HallDirection::Down
        } else {
            HallDirection::Up
        }),
{
    let direction = if floor < last_floor {
        HallDirection::Down
    } else {
        HallDirection::Up
    };
    InternalCommunication {
        intention: Intention::Insert,
        order: Some(Order { floor_number: floor, direction }),
        direction: None,
    }
}

/// A hall call is not served locally: it is forwarded to the elected
/// master as an order transfer addressed to `TARGET_MASTER`.
pub fn handle_hall_call(floor: u8, direction: HallDirection) -> (r: Communication)
    ensures
        r.target == crate::types::TARGET_MASTER,
        r.comm_type is OrderTransfer,
        r.status is None,
        r.order matches Some(o) && o.floor_number == floor && o.direction == direction,
        r.sender == u8::MAX,
{
    Communication {
        sender: u8::MAX,
        sender_role: Role::Slave,
        target: crate::types::TARGET_MASTER,
        comm_type: CommType::OrderTransfer,
        status: None,
        order: Some(Order { floor_number: floor, direction }),
    }
}

/// The startup nudge: an idle car with pending destinations is sent
/// towards them, preferring up when any destination lies above.
pub fn send_elevator_startup(
    last_floor: u8,
    direction: MotorDirection,
    destination_list: &OrderSet,
) -> (r: Option<MotorDirection>)
    requires
        destination_list.wf(),
    ensures
        r == Some(MotorDirection::Up) <==> (direction is Stop && has_floor_above(
            destination_list@,
            last_floor,
        )),
        r == Some(MotorDirection::Down) <==> (direction is Stop && !has_floor_above(
            destination_list@,
            last_floor,
        ) && has_floor_below(destination_list@, last_floor)),
        r is Some ==> (r != Some(MotorDirection::Stop)),
{
    if !matches!(direction, MotorDirection::Stop) {
        return None;
    }
    let v = destination_list.as_vec();
    let mut above: bool = false;
    let mut below: bool = false;
    let mut i: usize = 0;
    while i < v.len()
        invariant
            i <= v@.len(),
            above <==> exists|j: int| 0 <= j < i && v@[j].floor_number > last_floor,
            below <==> exists|j: int| 0 <= j < i && v@[j].floor_number < last_floor,
        decreases v@.len() - i,
    {
        if v[i].floor_number > last_floor {
            above = true;
        }
        if v[i].floor_number < last_floor {
            below = true;
        }
        i = i + 1;
    }
    proof {
        assert(above <==> has_floor_above(destination_list@, last_floor)) by {
            if above {
                let j = choose|j: int| 0 <= j < v@.len() && v@[j].floor_number > last_floor;
                assert(v@.contains(v@[j]));
                assert(destination_list@.contains(v@[j]));
            }
            if has_floor_above(destination_list@, last_floor) {
                let o = choose|o: Order|
                    destination_list@.contains(o) && o.floor_number > last_floor;
                assert(v@.contains(o));
                let j = choose|j: int| 0 <= j < v@.len() && v@[j] == o;
                assert(v@[j].floor_number > last_floor);
            }
        }
        assert(below <==> has_floor_below(destination_list@, last_floor)) by {
            if below {
                let j = choose|j: int| 0 <= j < v@.len() && v@[j].floor_number < last_floor;
                assert(v@.contains(v@[j]));
                assert(destination_list@.contains(v@[j]));
            }
            if has_floor_below(destination_list@, last_floor) {
                let o = choose|o: Order|
                    destination_list@.contains(o) && o.floor_number < last_floor;
                assert(v@.contains(o));
                let j = choose|j: int| 0 <= j < v@.len() && v@[j] == o;
                assert(v@[j].floor_number < last_floor);
            }
        }
    }
    if above {
        Some(MotorDirection::Up)
    } else if below {
        Some(MotorDirection::Down)
    } else {
        None
    }
}

/// A command to the motor controller: either commit a direction, or
/// stop temporarily for the door-open window and then restore the
/// committed direction.
#[derive(Clone, Copy, Debug, PartialEq, Eq, Structural)]
pub enum MotorCommand {
    Commit(MotorDirection),
    StopTemp,
}

/// What the motor controller does with one command: drive the motor to
/// `first`; when `restore` is set, wait the door-open interval and then
/// drive the motor there.
#[derive(Clone, Copy, Debug, PartialEq, Eq, Structural)]
pub struct MotorActions {
    pub first: MotorDirection,
    pub restore: Option<MotorDirection>,
}

/// The committed direction after a command sequence.
pub open spec fn committed_after(d0: MotorDirection, cmds: Seq<MotorCommand>) -> MotorDirection
    decreases cmds.len(),
{
    if cmds.len() == 0 {
        d0
    } else {
        match cmds.last() {
            MotorCommand::Commit(d) => d,
            MotorCommand::StopTemp => committed_after(d0, cmds.drop_last()),
        }
    }
}

/// Every direction the motor is actually driven to while a command
/// sequence is processed, in order: a commit drives the motor once, a
/// temporary stop drives it to stop and then back to the direction
/// committed at that moment.
pub open spec fn motor_settings(d0: MotorDirection, cmds: Seq<MotorCommand>) -> Seq<
    MotorDirection,
>
    decreases cmds.len(),
{
    if cmds.len() == 0 {
        Seq::empty()
    } else {
        let prior = motor_settings(d0, cmds.drop_last());
        match cmds.last() {
            MotorCommand::Commit(d) => prior.push(d),
            MotorCommand::StopTemp => prior + seq![
                MotorDirection::Stop,
                committed_after(d0, cmds.drop_last()),
            ],
        }
    }
}

/// The motor controller: owner of the physical motor command. It keeps
/// the committed direction so that a temporary stop can restore it.
pub struct Controller {
    direction: MotorDirection,
}

impl Controller {
    /// The committed direction.
    pub closed spec fn view(&self) -> MotorDirection {
        self.direction
    }

    /// A fresh controller; the car is sent down on startup, so the
    /// initial committed direction is down.
    pub fn new() -> (r: Self)
        ensures
            r@ is Down,
    {
        Controller { direction: MotorDirection::Down }
    }

    /// Processes one command. A commit changes the committed direction
    /// and reports it to the memory owner; a temporary stop leaves it
    /// untouched and schedules the restore.
    pub fn step(&mut self, cmd: MotorCommand) -> (r: (MotorActions, Option<
        InternalCommunication,
    >))
        ensures
            final(self)@ == committed_after(old(self)@, seq![cmd]),
            cmd matches MotorCommand::Commit(d) ==> r.0 == (MotorActions {
                first: d,
                restore: None,
            }) && r.1 == Some(
                InternalCommunication {
                    intention: Intention::UpdateDirection,
                    order: None,
                    direction: Some(d),
                },
            ),
            cmd is StopTemp ==> r.0 == (MotorActions {
                first: MotorDirection::Stop,
                restore: Some(old(self)@),
            }) && r.1 is None,
            motor_settings(old(self)@, seq![cmd]) == match r.0.restore {
                Some(d) => seq![r.0.first, d],
                None => seq![r.0.first],
            },
    {
        let ghost d0 = self.direction;
        proof {
            assert(seq![cmd].drop_last() =~= Seq::<MotorCommand>::empty());
            assert(motor_settings(d0, seq![cmd].drop_last()) == Seq::<MotorDirection>::empty());
            assert(committed_after(d0, seq![cmd].drop_last()) == d0);
            assert(seq![cmd].last() == cmd);
        }
        match cmd {
            MotorCommand::Commit(d) => {
                self.direction = d;
                let update = InternalCommunication {
                    intention: Intention::UpdateDirection,
                    order: None,
                    direction: Some(d),
                };
                proof {
                    assert(motor_settings(d0, seq![cmd]) =~= seq![d]);
                }
                (MotorActions { first: d, restore: None }, Some(update))
            },
            MotorCommand::StopTemp => {
                proof {
                    assert(motor_settings(d0, seq![cmd]) =~= seq![MotorDirection::Stop, d0]);
                }
                (MotorActions { first: MotorDirection::Stop, restore: Some(self.direction) }, None)
            },
        }
    }
}

/// The commands a floor event emits, in order: the boundary stop when
/// the car runs into the end of the shaft, the temporary stop when a
/// destination is served here, and finally the heading.
pub open spec fn spec_floor_commands(
    dirn: MotorDirection,
    floor: u8,
    n: u8,
    target: u8,
    stopped: bool,
) -> Seq<MotorCommand> {
    (if spec_boundary_stop(dirn, floor, n) {
        seq![MotorCommand::Commit(MotorDirection::Stop)]
    } else {
        Seq::empty()
    }) + (if stopped {
        seq![MotorCommand::StopTemp]
    } else {
        Seq::empty()
    }) + seq![MotorCommand::Commit(spec_heading(dirn, floor, target))]
}

/// Everything a floor event decides: the motor commands to run, the
/// served order to remove from the destination set, whether to open the
/// door, the lights to clear, and the target and heading that informed
/// those choices.
pub struct FloorOutcome {
    pub commands: Vec<MotorCommand>,
    pub removed: Option<Order>,
    pub door_open: bool,
    pub lights: Option<LightActions>,
    pub target_floor: u8,
    pub heading: MotorDirection,
}

/// Processes a floor-sensor event: stops at the boundary, serves at
/// most one destination at this floor, and emits the next heading.
/// The caller removes `removed` from the destination set, opens the
/// door for the door interval when asked, and feeds `commands` to the
/// motor controller in order.
pub fn floor_received(
    floor: u8,
    dirn: MotorDirection,
    destination_list: &OrderSet,
    elev_num_floors: u8,
) -> (r: FloorOutcome)
    requires
        destination_list.wf(),
        elev_num_floors >= 1,
        floor < elev_num_floors,
        valid_orders(destination_list@, elev_num_floors),
    ensures
        r.target_floor < elev_num_floors,
        destination_list@ == Set::<Order>::empty() ==> r.target_floor == floor,
        destination_list@ != Set::<Order>::empty() ==> match dirn {
            MotorDirection::Up => has_floor(destination_list@, r.target_floor) && (forall|
                o: Order,
            |
                destination_list@.contains(o) ==> o.floor_number <= r.target_floor),
            MotorDirection::Down => has_floor(destination_list@, r.target_floor) && (forall|
                o: Order,
            |
                destination_list@.contains(o) ==> o.floor_number >= r.target_floor),
            MotorDirection::Stop => r.target_floor == floor,
        },
        r.heading == spec_heading(dirn, floor, r.target_floor),
        r.removed matches Some(d) ==> destination_list@.contains(d) && spec_should_stop(
            d,
            floor,
            dirn,
            r.target_floor,
        ),
        r.removed is None ==> forall|o: Order|
            destination_list@.contains(o) ==> !spec_should_stop(o, floor, dirn, r.target_floor),
        r.door_open == (r.removed is Some),
        r.lights matches Some(l) ==> r.removed is Some && l.cab_off && (l.hall_down_off <==> (
        r.heading is Down || r.heading is Stop || floor == elev_num_floors - 1)) && (l.hall_up_off
            <==> (r.heading is Up || r.heading is Stop || floor == 0)),
        r.lights is None <==> r.removed is None,
        r.commands@ == spec_floor_commands(
            dirn,
            floor,
            elev_num_floors,
            r.target_floor,
            r.removed is Some,
        ),
{
    let target_floor = match target_floor_function(dirn, destination_list, floor) {
        Some(t) => t,
        None => floor,
    };
    proof {
        if destination_list@ != Set::<Order>::empty() && (dirn is Up || dirn is Down) {
            let o = choose|o: Order|
                destination_list@.contains(o) && o.floor_number == target_floor;
            assert(o.floor_number < elev_num_floors);
        }
    }
    let heading = check_continue_or_not(dirn, floor, target_floor);
    let removed = check_for_stop(floor, dirn, destination_list, target_floor);
    let door_open = removed.is_some();
    let lights = if removed.is_some() {
        Some(check_lights(heading, floor, elev_num_floors))
    } else {
        None
    };

    let mut commands: Vec<MotorCommand> = Vec::new();
    if check_for_bottom(dirn, floor, elev_num_floors).is_some() {
        commands.push(MotorCommand::Commit(MotorDirection::Stop));
    }
    if removed.is_some() {
        commands.push(MotorCommand::StopTemp);
    }
    commands.push(MotorCommand::Commit(heading));
    proof {
        assert(commands@ =~= spec_floor_commands(
            dirn,
            floor,
            elev_num_floors,
            target_floor,
            removed is Some,
        ));
    }
    FloorOutcome { commands, removed, door_open, lights, target_floor, heading }
}

/// The committed direction stays clear of a forbidden direction as long
/// as every commit is clear of it and, when no commit has happened yet,
/// the initial committed direction is clear of it too.
proof fn lemma_committed_avoids(d0: MotorDirection, cmds: Seq<MotorCommand>, bad: MotorDirection)
    requires
        forall|k: int|
            0 <= k < cmds.len() ==> (#[trigger] cmds[k] matches MotorCommand::Commit(d) ==> d
                != bad),
        (exists|k: int| 0 <= k < cmds.len() && #[trigger] cmds[k] is Commit) || d0 != bad,
    ensures
        committed_after(d0, cmds) != bad,
    decreases cmds.len(),
{
    if cmds.len() == 0 {
    } else {
        match cmds.last() {
            MotorCommand::Commit(d) => {
                assert(cmds[cmds.len() - 1] matches MotorCommand::Commit(x) && x == d);
            },
            MotorCommand::StopTemp => {
                let prior = cmds.drop_last();
                if exists|k: int| 0 <= k < cmds.len() && #[trigger] cmds[k] is Commit {
                    let k = choose|k: int| 0 <= k < cmds.len() && #[trigger] cmds[k] is Commit;
                    assert(k < cmds.len() - 1);
                    assert(prior[k] is Commit);
                }
                lemma_committed_avoids(d0, prior, bad);
            },
        }
    }
}

/// No motor setting reaches a forbidden direction as long as every
/// commit avoids it, no temporary stop can restore an initial committed
/// direction equal to it, and stopping itself is not forbidden.
proof fn lemma_settings_avoid(d0: MotorDirection, cmds: Seq<MotorCommand>, bad: MotorDirection)
    requires
        bad !is Stop,
        forall|k: int|
            0 <= k < cmds.len() ==> (#[trigger] cmds[k] matches MotorCommand::Commit(d) ==> d
                != bad),
        forall|k: int|
            0 <= k < cmds.len() && #[trigger] cmds[k] is StopTemp ==> ((exists|j: int|
                0 <= j < k && #[trigger] cmds[j] is Commit) || d0 != bad),
    ensures
        !motor_settings(d0, cmds).contains(bad),
    decreases cmds.len(),
{
    if cmds.len() == 0 {
    } else {
        let prior = cmds.drop_last();
        assert forall|k: int|
            0 <= k < prior.len() implies (#[trigger] prior[k] matches MotorCommand::Commit(d)
            ==> d != bad) by {
            assert(cmds[k] == prior[k]);
        }
        assert forall|k: int|
            0 <= k < prior.len() && #[trigger] prior[k] is StopTemp implies ((exists|j: int|
            0 <= j < k && #[trigger] prior[j] is Commit) || d0 != bad) by {
            assert(cmds[k] == prior[k]);
            if exists|j: int| 0 <= j < k && #[trigger] cmds[j] is Commit {
                let j = choose|j: int| 0 <= j < k && #[trigger] cmds[j] is Commit;
                assert(prior[j] is Commit);
            }
        }
        lemma_settings_avoid(d0, prior, bad);
        match cmds.last() {
            MotorCommand::Commit(d) => {
                assert(cmds[cmds.len() - 1] matches MotorCommand::Commit(x) && x == d);
                assert forall|i: int|
                    0 <= i < motor_settings(d0, cmds).len() implies motor_settings(d0, cmds)[i]
                    != bad by {
                    if i < motor_settings(d0, prior).len() {
                        assert(motor_settings(d0, prior).contains(motor_settings(d0, prior)[i]))
                        ;
                    }
                }
                if motor_settings(d0, cmds).contains(bad) {
                    let i = choose|i: int|
                        0 <= i < motor_settings(d0, cmds).len() && motor_settings(d0, cmds)[i]
                            == bad;
                    assert(false);
                }
            },
            MotorCommand::StopTemp => {
                assert(cmds[cmds.len() - 1] is StopTemp);
                assert(committed_after(d0, prior) != bad) by {
                    if exists|j: int| 0 <= j < cmds.len() - 1 && #[trigger] cmds[j] is Commit {
                        let j = choose|j: int|
                            0 <= j < cmds.len() - 1 && #[trigger] cmds[j] is Commit;
                        assert(prior[j] is Commit);
                        lemma_committed_avoids(d0, prior, bad);
                    } else {
                        lemma_committed_avoids(d0, prior, bad);
                    }
                }
                assert forall|i: int|
                    0 <= i < motor_settings(d0, cmds).len() implies motor_settings(d0, cmds)[i]
                    != bad by {
                    if i < motor_settings(d0, prior).len() {
                        assert(motor_settings(d0, prior).contains(motor_settings(d0, prior)[i]))
                        ;
                    }
                }
                if motor_settings(d0, cmds).contains(bad) {
                    let i = choose|i: int|
                        0 <= i < motor_settings(d0, cmds).len() && motor_settings(d0, cmds)[i]
                            == bad;
                    assert(false);
                }
            },
        }
    }
}

/// Boundary safety of the floor-event commands: whatever the event
/// sequence led to this state, while the commands of a floor event are
/// processed the motor is never driven up at the top floor, nor down at
/// the bottom floor. The initial committed direction of the controller
/// is the direction the car arrived with.
pub proof fn lemma_boundary_safety(
    dirn: MotorDirection,
    floor: u8,
    n: u8,
    target: u8,
    stopped: bool,
)
    requires
        n >= 1,
        floor < n,
        target < n,
    ensures
        floor == n - 1 ==> !motor_settings(
            dirn,
            spec_floor_commands(dirn, floor, n, target, stopped),
        ).contains(MotorDirection::Up),
        floor == 0 ==> !motor_settings(
            dirn,
            spec_floor_commands(dirn, floor, n, target, stopped),
        ).contains(MotorDirection::Down),
{
    let cmds = spec_floor_commands(dirn, floor, n, target, stopped);
    let h = spec_heading(dirn, floor, target);
    if floor == n - 1 {
        assert(h != MotorDirection::Up);
        assert forall|k: int|
            0 <= k < cmds.len() implies (#[trigger] cmds[k] matches MotorCommand::Commit(d)
            ==> d != MotorDirection::Up) by {}
        assert forall|k: int|
            0 <= k < cmds.len() && #[trigger] cmds[k] is StopTemp implies ((exists|j: int|
            0 <= j < k && #[trigger] cmds[j] is Commit) || dirn != MotorDirection::Up) by {
            if dirn is Up {
                assert(spec_boundary_stop(dirn, floor, n));
                assert(cmds[0] is Commit);
                assert(k > 0);
            }
        }
        lemma_settings_avoid(dirn, cmds, MotorDirection::Up);
    }
    if floor == 0 {
        assert(h != MotorDirection::Down);
        assert forall|k: int|
            0 <= k < cmds.len() implies (#[trigger] cmds[k] matches MotorCommand::Commit(d)
            ==> d != MotorDirection::Down) by {}
        assert forall|k: int|
            0 <= k < cmds.len() && #[trigger] cmds[k] is StopTemp implies ((exists|j: int|
            0 <= j < k && #[trigger] cmds[j] is Commit) || dirn != MotorDirection::Down) by {
            if dirn is Down {
                assert(spec_boundary_stop(dirn, floor, n));
                assert(cmds[0] is Commit);
                assert(k > 0);
            }
        }
        lemma_settings_avoid(dirn, cmds, MotorDirection::Down);
    }
}

/// Splits the destination set into the floors requested upwards and
/// the floors requested downwards, for the status readout.
pub fn split_destinations(destination_list: &OrderSet) -> (r: (Vec<u8>, Vec<u8>))
    requires
        destination_list.wf(),
    ensures
        forall|f: u8|
            r.0@.contains(f) <==> destination_list@.contains(
                Order { floor_number: f, direction: HallDirection::Up },
            ),
        forall|f: u8|
            r.1@.contains(f) <==> destination_list@.contains(
                Order { floor_number: f, direction: HallDirection::Down },
            ),
{
    broadcast use vstd::seq_lib::lemma_seq_contains_after_push;

    let v = destination_list.as_vec();
    let mut up: Vec<u8> = Vec::new();
    let mut down: Vec<u8> = Vec::new();
    let mut i: usize = 0;
    while i < v.len()
        invariant
            i <= v@.len(),
            forall|f: u8|
                up@.contains(f) <==> (exists|j: int|
                    0 <= j < i && v@[j] == (Order { floor_number: f, direction: HallDirection::Up
                    })),
            forall|f: u8|
                down@.contains(f) <==> (exists|j: int|
                    0 <= j < i && v@[j] == (Order {
                        floor_number: f,
                        direction: HallDirection::Down,
                    })),
        decreases v@.len() - i,
    {
        let o = v[i];
        let ghost up0 = up@;
        let ghost down0 = down@;
        if matches!(o.direction, HallDirection::Up) {
            up.push(o.floor_number);
            proof {
                assert(v@[i as int] == o);
                assert(o == (Order { floor_number: o.floor_number, direction: HallDirection::Up
                }));
                assert forall|f: u8|
                    up@.contains(f) <==> (exists|j: int|
                        0 <= j < i + 1 && v@[j] == (Order {
                            floor_number: f,
                            direction: HallDirection::Up,
                        })) by {
                    let ord = Order { floor_number: f, direction: HallDirection::Up };
                    if up@.contains(f) {
                        let k = choose|k: int| 0 <= k < up@.len() && up@[k] == f;
                        if k < up0.len() {
                            assert(up0.contains(f));
                            let j = choose|j: int| 0 <= j < i && v@[j] == ord;
                        } else {
                            assert(f == o.floor_number);
                            assert(v@[i as int] == ord);
                        }
                    }
                    if exists|j: int| 0 <= j < i + 1 && v@[j] == ord {
                        let j = choose|j: int| 0 <= j < i + 1 && v@[j] == ord;
                        if j < i {
                            assert(up0.contains(f));
                            let k = choose|k: int| 0 <= k < up0.len() && up0[k] == f;
                            assert(up@[k] == f);
                        } else {
                            assert(o == ord);
                            assert(up@[up@.len() - 1] == f);
                        }
                        assert(up@.contains(f));
                    }
                }
                assert forall|f: u8|
                    down@.contains(f) <==> (exists|j: int|
                        0 <= j < i + 1 && v@[j] == (Order {
                            floor_number: f,
                            direction: HallDirection::Down,
                        })) by {
                    let ord = Order { floor_number: f, direction: HallDirection::Down };
                    if exists|j: int| 0 <= j < i + 1 && v@[j] == ord {
                        let j = choose|j: int| 0 <= j < i + 1 && v@[j] == ord;
                        assert(j != i);
                    }
                }
            }
        } else {
            down.push(o.floor_number);
            proof {
                assert(v@[i as int] == o);
                assert(o == (Order {
                    floor_number: o.floor_number,
                    direction: HallDirection::Down,
                }));
                assert forall|f: u8|
                    down@.contains(f) <==> (exists|j: int|
                        0 <= j < i + 1 && v@[j] == (Order {
                            floor_number: f,
                            direction: HallDirection::Down,
                        })) by {
                    let ord = Order { floor_number: f, direction: HallDirection::Down };
                    if down@.contains(f) {
                        let k = choose|k: int| 0 <= k < down@.len() && down@[k] == f;
                        if k < down0.len() {
                            assert(down0.contains(f));
                            let j = choose|j: int| 0 <= j < i && v@[j] == ord;
                        } else {
                            assert(f == o.floor_number);
                            assert(v@[i as int] == ord);
                        }
                    }
                    if exists|j: int| 0 <= j < i + 1 && v@[j] == ord {
                        let j = choose|j: int| 0 <= j < i + 1 && v@[j] == ord;
                        if j < i {
                            assert(down0.contains(f));
                            let k = choose|k: int| 0 <= k < down0.len() && down0[k] == f;
                            assert(down@[k] == f);
                        } else {
                            assert(o == ord);
                            assert(down@[down@.len() - 1] == f);
                        }
                        assert(down@.contains(f));
                    }
                }
                assert forall|f: u8|
                    up@.contains(f) <==> (exists|j: int|
                        0 <= j < i + 1 && v@[j] == (Order {
                            floor_number: f,
                            direction: HallDirection::Up,
                        })) by {
                    let ord = Order { floor_number: f, direction: HallDirection::Up };
                    if exists|j: int| 0 <= j < i + 1 && v@[j] == ord {
                        let j = choose|j: int| 0 <= j < i + 1 && v@[j] == ord;
                        assert(j != i);
                    }
                }
            }
        }
        i = i + 1;
    }
    proof {
        assert forall|f: u8|
            up@.contains(f) <==> destination_list@.contains(
                Order { floor_number: f, direction: HallDirection::Up },
            ) by {
            let o = Order { floor_number: f, direction: HallDirection::Up };
            if up@.contains(f) {
                let j = choose|j: int| 0 <= j < v@.len() && v@[j] == o;
                assert(v@.contains(o));
            }
            if destination_list@.contains(o) {
                assert(v@.contains(o));
                let j = choose|j: int| 0 <= j < v@.len() && v@[j] == o;
            }
        }
        assert forall|f: u8|
            down@.contains(f) <==> destination_list@.contains(
                Order { floor_number: f, direction: HallDirection::Down },
            ) by {
            let o = Order { floor_number: f, direction: HallDirection::Down };
            if down@.contains(f) {
                let j = choose|j: int| 0 <= j < v@.len() && v@[j] == o;
                assert(v@.contains(o));
            }
            if destination_list@.contains(o) {
                assert(v@.contains(o));
                let j = choose|j: int| 0 <= j < v@.len() && v@[j] == o;
            }
        }
    }
    (up, down)
}

/// A reply from the elevator memory owner: a snapshot of the
/// destinations or the current direction register.
#[derive(Debug, PartialEq, Eq)]
pub enum MemoryReply {
    Destinations(Vec<Order>),
    Direction(MotorDirection),
}

/// The elevator memory: the destination set and the direction register,
/// owned by one thread and driven purely by internal requests.
pub struct ElevatorMemory {
    destination_list: OrderSet,
    direction: MotorDirection,
}

impl ElevatorMemory {
    /// The destination set contents.
    pub closed spec fn destinations(&self) -> Set<Order> {
        self.destination_list@
    }

    /// The direction register.
    pub closed spec fn direction(&self) -> MotorDirection {
        self.direction
    }

    pub closed spec fn wf(&self) -> bool {
        self.destination_list.wf()
    }

    /// Fresh memory: no destinations, direction register down, as the
    /// car is sent down on startup.
    pub fn new() -> (r: Self)
        ensures
            r.destinations() == Set::<Order>::empty(),
            r.direction() is Down,
            r.wf(),
    {
        ElevatorMemory { destination_list: OrderSet::new(), direction: MotorDirection::Down }
    }

    /// Applies one internal request: insertions and deletions mutate
    /// the destination set (insertion is idempotent), requests are
    /// answered with a snapshot, and a direction update sets the
    /// register.
    pub fn apply(&mut self, c: InternalCommunication) -> (r: Option<MemoryReply>)
        requires
            old(self).wf(),
            wf_internal(c),
        ensures
            final(self).wf(),
            c.intention is Insert ==> (c.order matches Some(o)
                && final(self).destinations() == old(self).destinations().insert(o)
                && final(self).direction() == old(self).direction() && r is None),
            c.intention is Delete ==> (c.order matches Some(o)
                && final(self).destinations() == old(self).destinations().remove(o)
                && final(self).direction() == old(self).direction() && r is None),
            c.intention is RequestOrders ==> *final(self) == *old(self) && (r matches Some(
                MemoryReply::Destinations(v),
            ) && v@.to_set() == old(self).destinations() && v@.no_duplicates()),
            c.intention is RequestDirection ==> *final(self) == *old(self) && r == Some(
                MemoryReply::Direction(old(self).direction()),
            ),
            c.intention is UpdateDirection ==> (c.direction matches Some(d)
                && final(self).direction() == d
                && final(self).destinations() == old(self).destinations() && r is None),
    {
        match c.intention {
            Intention::Insert => {
                let o = c.order.unwrap();
                self.destination_list.insert(o);
                None
            },
            Intention::Delete => {
                let o = c.order.unwrap();
                self.destination_list.remove(&o);
                None
            },
            Intention::RequestOrders => Some(
                MemoryReply::Destinations(self.destination_list.to_vec()),
            ),
            Intention::RequestDirection => Some(MemoryReply::Direction(self.direction)),
            Intention::UpdateDirection => {
                self.direction = c.direction.unwrap();
                None
            },
        }
    }
}

} // verus!
