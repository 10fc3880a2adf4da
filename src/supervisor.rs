use vstd::prelude::*;
use crate::allow_list::{allowed_controllers, allowed_records};
use crate::controller::{BluetoothController, BluetoothError, ControllerView, DeviceInfo};
use crate::model::{addresses, clamped, merged, reconciled, texts, views};
use crate::state::{position_of, BluetoothState};

verus! {

/// Seconds to wait after a failed initialization before the next attempt.
pub const INIT_RETRY_SECS: u64 = 5;

/// Seconds between the end of one tick and the start of the next.
pub const TICK_INTERVAL_SECS: u64 = 1;

/// Whether the transport connection has been established.
#[derive(Clone, Copy, Debug, PartialEq, Eq, Structural)]
pub enum SupervisorPhase {
    Uninitialized,
    Ready,
}

/// The decisions of the polling cycle, and what it remembers between ticks.
pub struct PollingSupervisor {
    pub phase: SupervisorPhase,
    /// Addresses of the controller list at the end of the last completed tick.
    pub last_seen: Vec<String>,
}

/// The addresses of `current` that `last` lacks, in list order.
pub open spec fn newly_present(last: Seq<Seq<char>>, current: Seq<ControllerView>) -> Seq<Seq<char>>
    decreases current.len(),
{
    if current.len() == 0 {
        Seq::empty()
    } else {
        let prev = newly_present(last, current.drop_last());
        if last.contains(current.last().address) {
            prev
        } else {
            prev.push(current.last().address)
        }
    }
}

/// The discovery flag shown: the adapter's answer, or the last commanded
/// intent when the query failed.
pub open spec fn discovery_shown(reading: Result<bool, BluetoothError>, intent: bool) -> bool {
    match reading {
        Ok(b) => b,
        Err(_) => intent,
    }
}

/// The discovery flag to show for a query result and the commanded intent.
pub fn discovery_state(reading: Result<bool, BluetoothError>, intent: bool) -> (r: bool)
    ensures
        r == discovery_shown(reading, intent),
{
    match reading {
        Ok(discovering) => discovering,
        Err(_) => intent,
    }
}

/// The index of the first device of a snapshot whose address is `address`,
/// or `DeviceNotFound` when there is none.
pub fn find_device(device_addresses: &Vec<String>, address: &str) -> (r: Result<usize, BluetoothError>)
    ensures
        match r {
            Ok(i) => i < device_addresses.len() && device_addresses@[i as int]@ == address@
                && forall|m: int| 0 <= m < i ==> device_addresses@[m]@ != address@,
            Err(e) => e == BluetoothError::DeviceNotFound && !texts(device_addresses@).contains(address@),
        },
{
    let wanted = address.to_owned();
    match position_of(device_addresses, &wanted) {
        Some(i) => Ok(i),
        None => Err(BluetoothError::DeviceNotFound),
    }
}

/// Applies the first power query of a tick. Unless the adapter answered that
/// it is powered, the list is hard-reset and the tick ends (`false`).
pub fn apply_power_reading(state: &mut BluetoothState, reading: Result<bool, BluetoothError>) -> (go_on: bool)
    requires
        old(state).wf(),
    ensures
        final(state).wf(),
        go_on == (reading == Ok::<bool, BluetoothError>(true)),
        go_on ==> final(state).controllers == old(state).controllers
            && final(state).controller_order == old(state).controller_order
            && final(state).selected_controller == old(state).selected_controller
            && final(state).adapter_powered,
        !go_on ==> final(state).controllers@.len() == 0 && !final(state).adapter_powered
            && final(state).selected_controller == 0,
        final(state).scanning == old(state).scanning,
{
    match reading {
        Ok(true) => {
            state.adapter_powered = true;
            true
        },
        _ => {
            state.clear_unpowered();
            false
        },
    }
}

/// Applies the device snapshot of a tick: on success its recognized devices
/// are reconciled into the list; on failure the state stays as it was and
/// the tick ends (`false`).
pub fn apply_snapshot(state: &mut BluetoothState, snapshot: Result<Vec<DeviceInfo>, BluetoothError>) -> (go_on: bool)
    requires
        old(state).wf(),
    ensures
        final(state).wf(),
        go_on == snapshot is Ok,
        match snapshot {
            Ok(devices) => {
                &&& views(final(state).controllers@) == reconciled(old(state).order(), allowed_records(devices@))
                &&& final(state).order() == addresses(merged(old(state).order(), allowed_records(devices@)))
                &&& final(state).selected_controller == clamped(
                    old(state).selected_controller as int,
                    merged(old(state).order(), allowed_records(devices@)).len() as int,
                )
                &&& final(state).selection_valid()
                &&& final(state).scanning == old(state).scanning
                &&& final(state).adapter_powered == old(state).adapter_powered
            },
            Err(_) => *final(state) == *old(state),
        },
{
    match snapshot {
        Ok(devices) => {
            let controllers = allowed_controllers(&devices);
            state.update_controllers(controllers);
            true
        },
        Err(_) => false,
    }
}

/// The addresses of `current` that `last` lacks, in list order.
fn new_addresses(last: &Vec<String>, current: &Vec<BluetoothController>) -> (r: Vec<String>)
    ensures
        texts(r@) == newly_present(texts(last@), views(current@)),
{
    let mut r: Vec<String> = Vec::new();
    let mut i: usize = 0;
    while i < current.len()
        invariant
            i <= current.len(),
            texts(r@) == newly_present(texts(last@), views(current@).take(i as int)),
        decreases current.len() - i,
    {
        assert(views(current@).take(i + 1).drop_last() =~= views(current@).take(i as int));
        assert(views(current@).take(i + 1).last() == current@[i as int]@);
        let ghost before = texts(r@);
        if position_of(last, &current[i].address).is_none() {
            r.push(current[i].address.clone());
            assert(texts(r@) =~= before.push(current@[i as int]@.address));
        } else {
            assert(texts(last@).contains(current@[i as int]@.address)) by {
                let p = choose|p: int| 0 <= p < last.len() && #[trigger] last@[p]@ == current@[i as int]@.address;
                assert(texts(last@)[p] == current@[i as int]@.address);
            }
        }
        i += 1;
    }
    assert(views(current@).take(current.len() as int) =~= views(current@));
    r
}

/// The addresses of a list of records, as strings.
fn address_list(current: &Vec<BluetoothController>) -> (r: Vec<String>)
    ensures
        texts(r@) == addresses(views(current@)),
{
    let mut r: Vec<String> = Vec::new();
    let mut i: usize = 0;
    while i < current.len()
        invariant
            i <= current.len(),
            texts(r@) =~= addresses(views(current@)).take(i as int),
        decreases current.len() - i,
    {
        let ghost before = texts(r@);
        r.push(current[i].address.clone());
        assert(texts(r@) =~= before.push(addresses(views(current@))[i as int]));
        i += 1;
    }
    assert(addresses(views(current@)).take(current.len() as int) =~= addresses(views(current@)));
    r
}

impl PollingSupervisor {
    /// A supervisor that has not connected to the transport yet and has seen
    /// no controller.
    pub fn new() -> (r: PollingSupervisor)
        ensures
            r.phase == SupervisorPhase::Uninitialized,
            r.last_seen@.len() == 0,
    {
        PollingSupervisor { phase: SupervisorPhase::Uninitialized, last_seen: Vec::new() }
    }

    /// Records the outcome of an attempt to connect to the transport and
    /// returns the seconds to wait before the next step.
    pub fn initialization_result(&mut self, connected: bool) -> (delay: u64)
        ensures
            connected ==> final(self).phase == SupervisorPhase::Ready && delay == 0,
            !connected ==> final(self).phase == SupervisorPhase::Uninitialized && delay == INIT_RETRY_SECS,
            final(self).last_seen == old(self).last_seen,
    {
        if connected {
            self.phase = SupervisorPhase::Ready;
            0
        } else {
            self.phase = SupervisorPhase::Uninitialized;
            INIT_RETRY_SECS
        }
    }

    /// Ends a tick whose snapshot was applied: mirrors the discovery flag
    /// (falling back to the commanded intent) and the power flag (kept when
    /// the query failed), returns the addresses to auto-connect, those of the
    /// list that the previous tick had not seen, and remembers the list.
    pub fn finish_tick(
        &mut self,
        state: &mut BluetoothState,
        discovering: Result<bool, BluetoothError>,
        intent: bool,
        powered: Result<bool, BluetoothError>,
    ) -> (to_connect: Vec<String>)
        requires
            old(state).wf(),
        ensures
            final(state).wf(),
            final(state).controllers == old(state).controllers,
            final(state).controller_order == old(state).controller_order,
            final(state).selected_controller == old(state).selected_controller,
            final(state).scanning == discovery_shown(discovering, intent),
            final(state).adapter_powered == match powered {
                Ok(p) => p,
                Err(_) => old(state).adapter_powered,
            },
            texts(to_connect@) == newly_present(texts(old(self).last_seen@), views(old(state).controllers@)),
            texts(final(self).last_seen@) == addresses(views(old(state).controllers@)),
            final(self).phase == old(self).phase,
    {
        state.scanning = discovery_state(discovering, intent);
        match powered {
            Ok(p) => {
                state.adapter_powered = p;
            },
            Err(_) => {},
        }
        let to_connect = new_addresses(&self.last_seen, &state.controllers);
        self.last_seen = address_list(&state.controllers);
        to_connect
    }
}

} // verus!
