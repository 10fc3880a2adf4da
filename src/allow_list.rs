use vstd::prelude::*;
use crate::controller::{record_of, BluetoothController, ControllerView, DeviceInfo};
use crate::model::views;

verus! {

/// The advertised names of the recognized controllers.
pub open spec fn allowed_names() -> Seq<Seq<char>> {
    seq!["Wireless Controller"@, "Xbox Wireless Controller"@, "8BitDo Ultimate 2C Wireless"@]
}

/// Whether `name` is exactly one of the recognized names.
pub open spec fn is_allowed(name: Seq<char>) -> bool {
    allowed_names().contains(name)
}

/// The records of the devices of `devices` that carry a recognized name, in
/// snapshot order.
pub open spec fn allowed_records(devices: Seq<DeviceInfo>) -> Seq<ControllerView>
    decreases devices.len(),
{
    if devices.len() == 0 {
        Seq::empty()
    } else {
        let prev = allowed_records(devices.drop_last());
        if is_allowed(devices.last().name@) {
            prev.push(record_of(devices.last()))
        } else {
            prev
        }
    }
}

/// Whether a device name is one of the recognized controller names.
pub fn is_allowed_controller(name: &str) -> (r: bool)
    ensures
        r == is_allowed(name@),
{
    let n = name.to_owned();
    let a = "Wireless Controller".to_owned();
    let b = "Xbox Wireless Controller".to_owned();
    let c = "8BitDo Ultimate 2C Wireless".to_owned();
    let r = n == a || n == b || n == c;
    proof {
        assert(allowed_names()[0] == a@ && allowed_names()[1] == b@ && allowed_names()[2] == c@);
        if allowed_names().contains(n@) {
            let i = choose|i: int| 0 <= i < allowed_names().len() && allowed_names()[i] == n@;
            assert(i == 0 || i == 1 || i == 2);
        }
    }
    r
}

/// The controller records of the recognized devices of a snapshot; all
/// other devices are dropped.
pub fn allowed_controllers(devices: &Vec<DeviceInfo>) -> (r: Vec<BluetoothController>)
    ensures
        views(r@) == allowed_records(devices@),
{
    let mut r: Vec<BluetoothController> = Vec::new();
    let mut i: usize = 0;
    while i < devices.len()
        invariant
            i <= devices.len(),
            views(r@) == allowed_records(devices@.take(i as int)),
        decreases devices.len() - i,
    {
        assert(devices@.take(i + 1).drop_last() =~= devices@.take(i as int));
        assert(devices@.take(i + 1).last() == devices@[i as int]);
        let ghost before = views(r@);
        if is_allowed_controller(devices[i].name.as_str()) {
            let c = devices[i].to_controller();
            r.push(c);
            assert(views(r@) =~= before.push(record_of(devices@[i as int])));
        }
        i += 1;
    }
    assert(devices@.take(devices.len() as int) =~= devices@);
    r
}

} // verus!
