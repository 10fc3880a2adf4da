use vstd::prelude::*;
use crate::allow_list::{allowed_records, is_allowed};
use crate::controller::{ControllerView, DeviceInfo};
use crate::model::{
    addresses, continuing, fresh, labelled, lemma_addresses_add, lemma_continuing_all,
    lemma_continuing_prefix, lemma_distinct_no_duplicates, lemma_fresh_empty, lemma_lookup,
    lemma_merged_covers, lemma_merged_distinct, lemma_merged_from_incoming, lookup, merged,
    reconciled, suffixed,
};
use crate::supervisor::newly_present;

verus! {

/// Reconciling twice with snapshots that hold the same set of addresses, in
/// whatever order, leaves the order of the first reconciliation unchanged.
pub proof fn lemma_same_addresses_keep_order(
    order: Seq<Seq<char>>,
    first: Seq<ControllerView>,
    second: Seq<ControllerView>,
)
    requires
        order.no_duplicates(),
        addresses(first).to_set() == addresses(second).to_set(),
    ensures
        addresses(merged(addresses(merged(order, first)), second)) == addresses(merged(order, first)),
{
    let m1 = merged(order, first);
    let o1 = addresses(m1);
    lemma_merged_distinct(order, first);
    lemma_distinct_no_duplicates(m1);
    lemma_merged_from_incoming(order, first);
    assert forall|q: int| 0 <= q < o1.len() implies #[trigger] lookup(second, o1[q]) is Some by {
        assert(first.contains(m1[q]));
        let i = choose|i: int| 0 <= i < first.len() && first[i] == m1[q];
        assert(addresses(first)[i] == o1[q]);
        assert(addresses(first).to_set().contains(o1[q]));
        assert(addresses(second).to_set().contains(o1[q]));
        let j = choose|j: int| 0 <= j < addresses(second).len() && addresses(second)[j] == o1[q];
        assert(second[j].address == o1[q]);
        lemma_lookup(second, o1[q]);
    }
    lemma_continuing_all(o1, second, o1.len() as int);
    assert forall|j: int| 0 <= j < second.len() implies o1.contains(#[trigger] second[j].address) by {
        assert(addresses(second)[j] == second[j].address);
        assert(addresses(second).to_set().contains(second[j].address));
        assert(addresses(first).to_set().contains(second[j].address));
        let i = choose|i: int| 0 <= i < addresses(first).len() && addresses(first)[i] == second[j].address;
        lemma_merged_covers(order, first, i);
    }
    lemma_fresh_empty(o1, second, second.len() as int);
    lemma_addresses_add(
        continuing(o1, second, o1.len() as int),
        fresh(o1, second, second.len() as int),
    );
    assert(o1.take(o1.len() as int) =~= o1);
    assert(addresses(fresh(o1, second, second.len() as int)) =~= Seq::<Seq<char>>::empty());
    assert(addresses(merged(o1, second)) =~= o1);
}

/// Two controllers of the previous order that are both still present keep
/// their relative order in the reconciled list.
pub proof fn lemma_continuing_keep_relative_order(
    order: Seq<Seq<char>>,
    incoming: Seq<ControllerView>,
    i: int,
    j: int,
)
    requires
        order.no_duplicates(),
        0 <= i < j < order.len(),
        addresses(incoming).contains(order[i]),
        addresses(incoming).contains(order[j]),
    ensures
        exists|p: int, q: int|
            0 <= p < q < merged(order, incoming).len()
                && #[trigger] addresses(merged(order, incoming))[p] == order[i]
                && #[trigger] addresses(merged(order, incoming))[q] == order[j],
{
    let n: int = order.len() as int;
    let m = merged(order, incoming);
    let all = continuing(order, incoming, n);
    let ki = choose|k: int| 0 <= k < incoming.len() && addresses(incoming)[k] == order[i];
    let kj = choose|k: int| 0 <= k < incoming.len() && addresses(incoming)[k] == order[j];
    assert(incoming[ki].address == order[i]);
    assert(incoming[kj].address == order[j]);
    lemma_lookup(incoming, order[i]);
    lemma_lookup(incoming, order[j]);
    let p: int = continuing(order, incoming, i).len() as int;
    let q: int = continuing(order, incoming, j).len() as int;
    lemma_continuing_prefix(order, incoming, i + 1, n);
    lemma_continuing_prefix(order, incoming, j + 1, n);
    lemma_continuing_prefix(order, incoming, i + 1, j);
    assert(continuing(order, incoming, i + 1)[p] == lookup(incoming, order[i]).unwrap());
    assert(continuing(order, incoming, j + 1)[q] == lookup(incoming, order[j]).unwrap());
    assert(m[p] == all[p]);
    assert(m[q] == all[q]);
    assert(addresses(m)[p] == order[i]);
    assert(addresses(m)[q] == order[j]);
}

/// An address that was listed, then missing from the next list, and listed
/// again in the one after, is handed to auto-connect again on that tick.
pub proof fn lemma_reappearance_is_new(
    first: Seq<ControllerView>,
    second: Seq<ControllerView>,
    third: Seq<ControllerView>,
    a: Seq<char>,
)
    requires
        addresses(first).contains(a),
        !addresses(second).contains(a),
        addresses(third).contains(a),
    ensures
        newly_present(addresses(second), third).contains(a),
    decreases third.len(),
{
    let init = third.drop_last();
    if third.last().address == a {
        let r = newly_present(addresses(second), third);
        assert(r[r.len() - 1] == a);
    } else {
        let k = choose|k: int| 0 <= k < addresses(third).len() && addresses(third)[k] == a;
        assert(addresses(init)[k] == a);
        lemma_reappearance_is_new(first, second, init, a);
        let prev = newly_present(addresses(second), init);
        let p = choose|p: int| 0 <= p < prev.len() && prev[p] == a;
        let r = newly_present(addresses(second), third);
        assert(r[p] == a);
    }
}

/// Every record built from a snapshot carries a recognized name.
proof fn lemma_allowed_records_named(devices: Seq<DeviceInfo>)
    ensures
        forall|i: int| 0 <= i < allowed_records(devices).len() ==> is_allowed(#[trigger] allowed_records(devices)[i].name),
    decreases devices.len(),
{
    if devices.len() > 0 {
        lemma_allowed_records_named(devices.drop_last());
    }
}

/// A device named "Random Device" never appears in a reconciled list,
/// whatever else the snapshot holds.
pub proof fn lemma_unrecognized_never_listed(order: Seq<Seq<char>>, devices: Seq<DeviceInfo>)
    requires
        order.no_duplicates(),
    ensures
        forall|i: int| 0 <= i < reconciled(order, allowed_records(devices)).len()
            ==> #[trigger] reconciled(order, allowed_records(devices))[i].name != "Random Device"@,
{
    reveal_strlit("Random Device");
    reveal_strlit("Wireless Controller");
    reveal_strlit("Xbox Wireless Controller");
    reveal_strlit("8BitDo Ultimate 2C Wireless");
    let inc = allowed_records(devices);
    let m = merged(order, inc);
    lemma_merged_from_incoming(order, inc);
    lemma_allowed_records_named(devices);
    assert forall|i: int| 0 <= i < reconciled(order, inc).len()
        implies #[trigger] reconciled(order, inc)[i].name != "Random Device"@ by {
        assert(inc.contains(m[i]));
        let k = choose|k: int| 0 <= k < inc.len() && inc[k] == m[i];
        assert(is_allowed(inc[k].name));
        assert(m[i].name.len() >= 19);
        let shown = labelled(m)[i].name;
        assert(shown == m[i].name || exists|n: nat| shown == suffixed(m[i].name, n));
        assert(shown.len() >= 19);
    }
}

} // verus!
