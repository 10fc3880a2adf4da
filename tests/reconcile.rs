use bios::{
    allowed_controllers, apply_power_reading, decimal_text, suffixed_name, apply_snapshot, controller_status, discovery_state, find_device,
    is_allowed_controller, BluetoothController, BluetoothError, BluetoothState, ControllerStatus, DeviceInfo,
    PollingSupervisor, SupervisorPhase, INIT_RETRY_SECS,
};

fn ctrl(address: &str, name: &str) -> BluetoothController {
    BluetoothController {
        address: address.to_string(),
        name: name.to_string(),
        status: ControllerStatus::Disconnected,
        paired: false,
        trusted: false,
    }
}

fn device(address: &str, name: &str, connected: bool) -> DeviceInfo {
    DeviceInfo {
        address: address.to_string(),
        name: name.to_string(),
        paired: true,
        trusted: false,
        connected,
    }
}

fn addresses(state: &BluetoothState) -> Vec<String> {
    state.controllers.iter().map(|c| c.address.clone()).collect()
}

fn names(state: &BluetoothState) -> Vec<String> {
    state.controllers.iter().map(|c| c.name.clone()).collect()
}

#[test]
fn new_state_is_empty() {
    let s = BluetoothState::new();
    assert!(s.controllers.is_empty());
    assert!(s.controller_order.is_empty());
    assert!(!s.scanning);
    assert!(!s.adapter_powered);
    assert_eq!(s.selected_controller, 0);
    assert!(s.get_controller(0).is_none());
    assert!(s.get_selected_controller().is_none());
}

#[test]
fn duplicate_names_are_disambiguated() {
    let mut s = BluetoothState::new();
    s.update_controllers(vec![ctrl("A1", "Wireless Controller"), ctrl("B1", "Wireless Controller")]);
    assert_eq!(addresses(&s), vec!["A1", "B1"]);
    assert_eq!(names(&s), vec!["Wireless Controller", "Wireless Controller (2)"]);
    assert_eq!(s.controller_order, vec!["A1".to_string(), "B1".to_string()]);
}

#[test]
fn third_occurrence_gets_rank_three_and_others_stay_bare() {
    let mut s = BluetoothState::new();
    s.update_controllers(vec![
        ctrl("A", "Wireless Controller"),
        ctrl("B", "Xbox Wireless Controller"),
        ctrl("C", "Wireless Controller"),
        ctrl("D", "Wireless Controller"),
    ]);
    assert_eq!(
        names(&s),
        vec!["Wireless Controller", "Xbox Wireless Controller", "Wireless Controller (2)", "Wireless Controller (3)"]
    );
}

#[test]
fn rank_ten_is_written_in_decimal() {
    let mut s = BluetoothState::new();
    let list: Vec<BluetoothController> = (0..10).map(|i| ctrl(&format!("X{}", i), "Wireless Controller")).collect();
    s.update_controllers(list);
    assert_eq!(s.controllers[9].name, "Wireless Controller (10)");
    assert_eq!(s.controllers[0].name, "Wireless Controller");
}

#[test]
fn same_address_set_keeps_order() {
    let mut s = BluetoothState::new();
    s.update_controllers(vec![ctrl("A", "Wireless Controller"), ctrl("B", "Xbox Wireless Controller"), ctrl("C", "Wireless Controller")]);
    let first = s.controller_order.clone();
    s.update_controllers(vec![ctrl("C", "Wireless Controller"), ctrl("A", "Wireless Controller"), ctrl("B", "Xbox Wireless Controller")]);
    assert_eq!(s.controller_order, first);
    assert_eq!(addresses(&s), vec!["A", "B", "C"]);
}

#[test]
fn continuing_controllers_keep_relative_order() {
    let mut s = BluetoothState::new();
    s.update_controllers(vec![ctrl("A", "Wireless Controller"), ctrl("B", "Wireless Controller"), ctrl("C", "Wireless Controller")]);
    s.update_controllers(vec![ctrl("D", "Xbox Wireless Controller"), ctrl("C", "Wireless Controller"), ctrl("A", "Wireless Controller")]);
    assert_eq!(addresses(&s), vec!["A", "C", "D"]);
    assert_eq!(names(&s), vec!["Wireless Controller", "Wireless Controller (2)", "Xbox Wireless Controller"]);
}

#[test]
fn records_are_replaced_by_new_values() {
    let mut s = BluetoothState::new();
    s.update_controllers(vec![ctrl("A", "Wireless Controller")]);
    let mut updated = ctrl("A", "Xbox Wireless Controller");
    updated.status = ControllerStatus::Connected;
    updated.paired = true;
    s.update_controllers(vec![updated]);
    assert_eq!(s.controllers[0].name, "Xbox Wireless Controller");
    assert_eq!(s.controllers[0].status, ControllerStatus::Connected);
    assert!(s.controllers[0].paired);
}

#[test]
fn repeated_address_last_record_wins() {
    let mut s = BluetoothState::new();
    s.update_controllers(vec![ctrl("A", "Wireless Controller"), ctrl("B", "Wireless Controller"), ctrl("A", "Xbox Wireless Controller")]);
    assert_eq!(addresses(&s), vec!["B", "A"]);
    assert_eq!(names(&s), vec!["Wireless Controller", "Xbox Wireless Controller"]);
}

#[test]
fn empty_snapshot_clears_list_and_cursor() {
    let mut s = BluetoothState::new();
    s.update_controllers(vec![ctrl("A", "Wireless Controller"), ctrl("B", "Wireless Controller")]);
    s.selected_controller = 1;
    s.update_controllers(Vec::new());
    assert!(s.controllers.is_empty());
    assert!(s.controller_order.is_empty());
    assert_eq!(s.selected_controller, 0);
}

#[test]
fn cursor_is_clamped_after_shrinking() {
    let mut s = BluetoothState::new();
    s.update_controllers(vec![ctrl("A", "Wireless Controller"), ctrl("B", "Wireless Controller"), ctrl("C", "Wireless Controller")]);
    s.selected_controller = 2;
    s.update_controllers(vec![ctrl("A", "Wireless Controller")]);
    assert_eq!(s.selected_controller, 0);
    assert_eq!(s.get_selected_controller().unwrap().address, "A");
}

#[test]
fn remove_clamps_cursor() {
    let mut s = BluetoothState::new();
    s.update_controllers(vec![ctrl("A", "Wireless Controller"), ctrl("B", "Xbox Wireless Controller")]);
    s.selected_controller = 1;
    s.remove_controller(0);
    assert_eq!(s.controllers.len(), 1);
    assert_eq!(s.selected_controller, 0);
    assert_eq!(s.controller_order, vec!["B".to_string()]);
    assert_eq!(s.get_controller(0).unwrap().address, "B");
}

#[test]
fn remove_out_of_range_is_a_no_op() {
    let mut s = BluetoothState::new();
    s.update_controllers(vec![ctrl("A", "Wireless Controller")]);
    s.remove_controller(5);
    assert_eq!(addresses(&s), vec!["A"]);
    assert_eq!(s.controller_order, vec!["A".to_string()]);
}

#[test]
fn remove_last_resets_cursor() {
    let mut s = BluetoothState::new();
    s.update_controllers(vec![ctrl("A", "Wireless Controller")]);
    s.remove_controller(0);
    assert!(s.controllers.is_empty());
    assert_eq!(s.selected_controller, 0);
}

#[test]
fn allow_list_is_exact() {
    assert!(is_allowed_controller("Wireless Controller"));
    assert!(is_allowed_controller("Xbox Wireless Controller"));
    assert!(is_allowed_controller("8BitDo Ultimate 2C Wireless"));
    assert!(!is_allowed_controller("Random Device"));
    assert!(!is_allowed_controller("wireless controller"));
    assert!(!is_allowed_controller("Wireless Controller "));
    assert!(!is_allowed_controller(""));
}

#[test]
fn unrecognized_devices_never_listed() {
    let mut s = BluetoothState::new();
    let devices = vec![
        device("R1", "Random Device", true),
        device("A1", "Wireless Controller", false),
        device("R2", "Random Device", false),
    ];
    assert!(apply_snapshot(&mut s, Ok(devices)));
    assert_eq!(addresses(&s), vec!["A1"]);
    assert!(s.controllers.iter().all(|c| c.name != "Random Device"));
}

#[test]
fn filter_maps_status_from_link_state() {
    let devices = vec![device("A", "Wireless Controller", true), device("B", "Xbox Wireless Controller", false)];
    let list = allowed_controllers(&devices);
    assert_eq!(list.len(), 2);
    assert_eq!(list[0].status, ControllerStatus::Connected);
    assert_eq!(list[1].status, ControllerStatus::Disconnected);
    assert!(list[0].paired);
}

#[test]
fn status_is_never_connecting() {
    assert_eq!(controller_status(true, false), ControllerStatus::Connected);
    assert_eq!(controller_status(true, true), ControllerStatus::Connected);
    assert_eq!(controller_status(false, true), ControllerStatus::Disconnected);
    assert_eq!(controller_status(false, false), ControllerStatus::Disconnected);
}

#[test]
fn power_query_failure_resets_state() {
    let mut s = BluetoothState::new();
    s.update_controllers(vec![ctrl("A", "Wireless Controller"), ctrl("B", "Wireless Controller")]);
    s.adapter_powered = true;
    s.selected_controller = 1;
    assert!(!apply_power_reading(&mut s, Err(BluetoothError::TransportCallFailed)));
    assert!(s.controllers.is_empty());
    assert!(s.controller_order.is_empty());
    assert!(!s.adapter_powered);
    assert_eq!(s.selected_controller, 0);
}

#[test]
fn unpowered_adapter_resets_state() {
    let mut s = BluetoothState::new();
    s.update_controllers(vec![ctrl("A", "Wireless Controller")]);
    s.adapter_powered = true;
    assert!(!apply_power_reading(&mut s, Ok(false)));
    assert!(s.controllers.is_empty());
    assert!(!s.adapter_powered);
}

#[test]
fn powered_adapter_keeps_state() {
    let mut s = BluetoothState::new();
    s.update_controllers(vec![ctrl("A", "Wireless Controller")]);
    assert!(apply_power_reading(&mut s, Ok(true)));
    assert!(s.adapter_powered);
    assert_eq!(addresses(&s), vec!["A"]);
}

#[test]
fn failed_snapshot_leaves_state_unchanged() {
    let mut s = BluetoothState::new();
    s.update_controllers(vec![ctrl("A", "Wireless Controller")]);
    assert!(!apply_snapshot(&mut s, Err(BluetoothError::DecodeError)));
    assert_eq!(addresses(&s), vec!["A"]);
    assert_eq!(s.controller_order, vec!["A".to_string()]);
}

#[test]
fn discovery_falls_back_to_intent() {
    assert!(discovery_state(Ok(true), false));
    assert!(!discovery_state(Ok(false), true));
    assert!(discovery_state(Err(BluetoothError::TransportCallFailed), true));
    assert!(!discovery_state(Err(BluetoothError::TransportUnavailable), false));
}

#[test]
fn unknown_address_is_not_found() {
    let addrs = vec!["AA:BB".to_string(), "CC:DD".to_string()];
    assert_eq!(find_device(&addrs, "unknown-address"), Err(BluetoothError::DeviceNotFound));
    assert_eq!(find_device(&Vec::new(), "unknown-address"), Err(BluetoothError::DeviceNotFound));
    assert_eq!(find_device(&addrs, "CC:DD"), Ok(1));
}

#[test]
fn find_device_takes_first_match() {
    let addrs = vec!["X".to_string(), "Y".to_string(), "X".to_string()];
    assert_eq!(find_device(&addrs, "X"), Ok(0));
}

#[test]
fn initialization_failure_waits_and_retries() {
    let mut sup = PollingSupervisor::new();
    assert_eq!(sup.phase, SupervisorPhase::Uninitialized);
    assert_eq!(sup.initialization_result(false), INIT_RETRY_SECS);
    assert_eq!(INIT_RETRY_SECS, 5);
    assert_eq!(sup.phase, SupervisorPhase::Uninitialized);
    assert_eq!(sup.initialization_result(true), 0);
    assert_eq!(sup.phase, SupervisorPhase::Ready);
}

fn tick(sup: &mut PollingSupervisor, s: &mut BluetoothState, devices: Vec<DeviceInfo>) -> Vec<String> {
    assert!(apply_power_reading(s, Ok(true)));
    assert!(apply_snapshot(s, Ok(devices)));
    sup.finish_tick(s, Ok(true), false, Ok(true))
}

#[test]
fn new_controllers_are_auto_connected_once() {
    let mut sup = PollingSupervisor::new();
    sup.initialization_result(true);
    let mut s = BluetoothState::new();
    let first = tick(&mut sup, &mut s, vec![device("A", "Wireless Controller", false)]);
    assert_eq!(first, vec!["A".to_string()]);
    let second = tick(&mut sup, &mut s, vec![device("A", "Wireless Controller", false), device("B", "Wireless Controller", false)]);
    assert_eq!(second, vec!["B".to_string()]);
    assert!(s.scanning);
    assert!(s.adapter_powered);
}

#[test]
fn reappearing_controller_is_new_again() {
    let mut sup = PollingSupervisor::new();
    sup.initialization_result(true);
    let mut s = BluetoothState::new();
    assert_eq!(tick(&mut sup, &mut s, vec![device("A", "Wireless Controller", false)]), vec!["A".to_string()]);
    assert!(tick(&mut sup, &mut s, Vec::new()).is_empty());
    assert_eq!(tick(&mut sup, &mut s, vec![device("A", "Wireless Controller", false)]), vec!["A".to_string()]);
}

#[test]
fn finish_tick_keeps_power_flag_when_query_fails() {
    let mut sup = PollingSupervisor::new();
    let mut s = BluetoothState::new();
    s.adapter_powered = true;
    let out = sup.finish_tick(&mut s, Err(BluetoothError::TransportCallFailed), true, Err(BluetoothError::TransportCallFailed));
    assert!(out.is_empty());
    assert!(s.scanning);
    assert!(s.adapter_powered);
    sup.finish_tick(&mut s, Ok(false), true, Ok(false));
    assert!(!s.scanning);
    assert!(!s.adapter_powered);
}

#[test]
fn consistency_check_detects_out_of_sync_order() {
    let mut s = BluetoothState::new();
    assert!(s.is_consistent());
    s.update_controllers(vec![ctrl("A", "Wireless Controller"), ctrl("B", "Wireless Controller")]);
    assert!(s.is_consistent());
    s.controller_order.reverse();
    assert!(!s.is_consistent());
    s.controller_order = vec!["A".to_string(), "A".to_string()];
    s.controllers[1].address = "A".to_string();
    assert!(!s.is_consistent());
    s.controller_order.pop();
    assert!(!s.is_consistent());
}

#[test]
fn decimal_text_writes_digits() {
    assert_eq!(decimal_text(0), "0");
    assert_eq!(decimal_text(7), "7");
    assert_eq!(decimal_text(10), "10");
    assert_eq!(decimal_text(1234), "1234");
    assert_eq!(decimal_text(usize::MAX), usize::MAX.to_string());
}

#[test]
fn suffixed_name_appends_rank() {
    assert_eq!(suffixed_name(&"Wireless Controller".to_string(), 2), "Wireless Controller (2)");
    assert_eq!(suffixed_name(&String::new(), 15), " (15)");
}
