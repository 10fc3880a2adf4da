use vstd::prelude::*;
use crate::controller::BluetoothController;
use crate::naming::suffixed_name;
use crate::model::{
    addresses, clamped, continuing, display_name, fresh, is_last_of_address, labelled,
    lemma_distinct_no_duplicates, lemma_labelled_addresses, lemma_merged_distinct, lookup, merged, name_count, reconciled, renamed, texts, views,
};

verus! {

/// The state read by the user interface: the ordered list of recognized
/// controllers, the adapter flags and the cursor into the list.
#[derive(Clone, Debug)]
pub struct BluetoothState {
    pub controllers: Vec<BluetoothController>,
    pub scanning: bool,
    pub adapter_powered: bool,
    pub selected_controller: usize,
    /// Addresses of `controllers`, in the same order; kept across
    /// reconciliations so that continuing controllers keep their places.
    pub controller_order: Vec<String>,
}

/// The last index of `v` whose record has address `a`.
fn find_last(v: &Vec<BluetoothController>, a: &String) -> (r: Option<usize>)
    ensures
        match r {
            Some(i) => i < v.len() && lookup(views(v@), a@) == Some(v@[i as int]@),
            None => lookup(views(v@), a@) is None,
        },
{
    let mut found: Option<usize> = None;
    let mut j: usize = 0;
    while j < v.len()
        invariant
            j <= v.len(),
            match found {
                Some(i) => i < j && lookup(views(v@).take(j as int), a@) == Some(v@[i as int]@),
                None => lookup(views(v@).take(j as int), a@) is None,
            },
        decreases v.len() - j,
    {
        assert(views(v@).take(j + 1).drop_last() =~= views(v@).take(j as int));
        if v[j].address == *a {
            found = Some(j);
        }
        j += 1;
    }
    assert(views(v@).take(v.len() as int) =~= views(v@));
    found
}

/// Whether no later record of `v` has the address of record `i`.
fn is_last_at(v: &Vec<BluetoothController>, i: usize) -> (r: bool)
    requires
        i < v.len(),
    ensures
        r == is_last_of_address(views(v@), i as int),
{
    let mut j: usize = i + 1;
    while j < v.len()
        invariant
            i < j <= v.len(),
            forall|m: int| i < m < j ==> v@[m]@.address != v@[i as int]@.address,
        decreases v.len() - j,
    {
        if v[j].address == v[i].address {
            assert(views(v@)[j as int].address == views(v@)[i as int].address);
            return false;
        }
        j += 1;
    }
    assert forall|m: int| i < m < views(v@).len() implies #[trigger] views(v@)[m].address != views(v@)[i as int].address by {
        assert(views(v@)[m] == v@[m]@);
    }
    true
}

/// Whether `order` holds `a`.
fn holds_text(order: &Vec<String>, a: &String) -> (r: bool)
    ensures
        r == texts(order@).contains(a@),
{
    let mut j: usize = 0;
    while j < order.len()
        invariant
            j <= order.len(),
            forall|m: int| 0 <= m < j ==> order@[m]@ != a@,
        decreases order.len() - j,
    {
        if order[j] == *a {
            assert(texts(order@)[j as int] == a@);
            return true;
        }
        j += 1;
    }
    false
}

/// The first position of `a` in `order`.
pub(crate) fn position_of(order: &Vec<String>, a: &String) -> (r: Option<usize>)
    ensures
        match r {
            Some(p) => p < order.len() && order@[p as int]@ == a@
                && forall|m: int| 0 <= m < p ==> order@[m]@ != a@,
            None => !texts(order@).contains(a@),
        },
{
    let mut j: usize = 0;
    while j < order.len()
        invariant
            j <= order.len(),
            forall|m: int| 0 <= m < j ==> order@[m]@ != a@,
        decreases order.len() - j,
    {
        if order[j] == *a {
            return Some(j);
        }
        j += 1;
    }
    None
}

/// How many of the first `k` records of `v` are named `name`.
fn count_named(v: &Vec<BluetoothController>, name: &String, k: usize) -> (r: usize)
    requires
        k <= v.len(),
    ensures
        r == name_count(views(v@), name@, k as int),
{
    let mut c: usize = 0;
    let mut j: usize = 0;
    while j < k
        invariant
            j <= k <= v.len(),
            c <= j,
            c == name_count(views(v@), name@, j as int),
        decreases k - j,
    {
        if v[j].name == *name {
            c += 1;
        }
        j += 1;
    }
    c
}

impl BluetoothState {
    /// The remembered order of addresses.
    pub open spec fn order(&self) -> Seq<Seq<char>> {
        texts(self.controller_order@)
    }

    /// The remembered order is that of `controllers`, with no address twice.
    pub open spec fn wf(&self) -> bool {
        &&& self.order() == addresses(views(self.controllers@))
        &&& self.order().no_duplicates()
    }

    /// The cursor points into the list, or is 0 when the list is empty.
    pub open spec fn selection_valid(&self) -> bool {
        if self.controllers.len() == 0 {
            self.selected_controller == 0
        } else {
            self.selected_controller < self.controllers.len()
        }
    }

    /// An empty state: no controllers, not scanning, adapter unpowered.
    pub fn new() -> (r: BluetoothState)
        ensures
            r.wf(),
            r.controllers@.len() == 0,
            !r.scanning,
            !r.adapter_powered,
            r.selected_controller == 0,
    {
        let r = BluetoothState {
            controllers: Vec::new(),
            scanning: false,
            adapter_powered: false,
            selected_controller: 0,
            controller_order: Vec::new(),
        };
        assert(r.order() =~= addresses(views(r.controllers@)));
        r
    }

    /// Whether the remembered order is that of `controllers`, with no address
    /// twice.
    pub fn is_consistent(&self) -> (r: bool)
        ensures
            r == self.wf(),
    {
        let n: usize = self.controllers.len();
        if self.controller_order.len() != n {
            assert(self.order().len() != addresses(views(self.controllers@)).len());
            return false;
        }
        let mut i: usize = 0;
        while i < n
            invariant
                n == self.controllers.len() == self.controller_order.len(),
                i <= n,
                forall|m: int| 0 <= m < i ==> #[trigger] self.order()[m] == addresses(views(self.controllers@))[m],
                forall|m: int, k: int| 0 <= m < k < i ==> self.order()[m] != self.order()[k],
            decreases n - i,
        {
            if self.controller_order[i] != self.controllers[i].address {
                assert(self.order()[i as int] != addresses(views(self.controllers@))[i as int]);
                return false;
            }
            let mut j: usize = 0;
            while j < i
                invariant
                    n == self.controllers.len() == self.controller_order.len(),
                    j <= i < n,
                    forall|m: int| 0 <= m < j ==> self.order()[m] != self.order()[i as int],
                decreases i - j,
            {
                if self.controller_order[j] == self.controller_order[i] {
                    assert(self.order()[j as int] == self.order()[i as int]);
                    return false;
                }
                j += 1;
            }
            i += 1;
        }
        assert(self.order() =~= addresses(views(self.controllers@)));
        assert forall|m: int, k: int| 0 <= m < self.order().len() && 0 <= k < self.order().len() && m != k
            implies self.order()[m] != self.order()[k] by {
            if k < m {
                assert(self.order()[k] != self.order()[m]);
            }
        }
        true
    }

    /// The record at `index`, if there is one.
    pub fn get_controller(&self, index: usize) -> (r: Option<&BluetoothController>)
        ensures
            match r {
                Some(c) => index < self.controllers.len() && *c == self.controllers@[index as int],
                None => index >= self.controllers.len(),
            },
    {
        if index < self.controllers.len() {
            Some(&self.controllers[index])
        } else {
            None
        }
    }

    /// The record under the cursor, if there is one.
    pub fn get_selected_controller(&self) -> (r: Option<&BluetoothController>)
        ensures
            match r {
                Some(c) => self.selected_controller < self.controllers.len()
                    && *c == self.controllers@[self.selected_controller as int],
                None => self.selected_controller >= self.controllers.len(),
            },
    {
        self.get_controller(self.selected_controller)
    }

    /// Removes the record at `index` and its address, then clamps the cursor
    /// to the shorter list; an index past the end changes nothing.
    pub fn remove_controller(&mut self, index: usize)
        requires
            old(self).wf(),
        ensures
            final(self).wf(),
            index < old(self).controllers.len() ==> {
                &&& views(final(self).controllers@) == views(old(self).controllers@).remove(index as int)
                &&& final(self).selected_controller == clamped(
                    old(self).selected_controller as int,
                    old(self).controllers.len() - 1,
                )
                &&& final(self).scanning == old(self).scanning
                &&& final(self).adapter_powered == old(self).adapter_powered
            },
            index >= old(self).controllers.len() ==> *final(self) == *old(self),
    {
        if index < self.controllers.len() {
            let ghost before = self.controllers@;
            let ghost order = self.order();
            let address = self.controllers[index].address.clone();
            self.controllers.remove(index);
            assert(order[index as int] == address@);
            match position_of(&self.controller_order, &address) {
                Some(pos) => {
                    assert(order[pos as int] == address@);
                    assert(pos == index);
                    self.controller_order.remove(pos);
                },
                None => {
                    assert(texts(self.controller_order@)[index as int] == address@);
                },
            }
            assert(views(self.controllers@) =~= views(before).remove(index as int));
            assert(self.order() =~= order.remove(index as int));
            assert(self.order() =~= addresses(views(self.controllers@)));
            assert forall|i: int, j: int| 0 <= i < self.order().len() && 0 <= j < self.order().len() && i != j
                implies self.order()[i] != self.order()[j] by {
                let oi = if i < index { i } else { i + 1 };
                let oj = if j < index { j } else { j + 1 };
                assert(self.order()[i] == order[oi] && self.order()[j] == order[oj]);
            }
            if self.selected_controller >= self.controllers.len() && self.controllers.len() > 0 {
                self.selected_controller = self.controllers.len() - 1;
            } else if self.controllers.len() == 0 {
                self.selected_controller = 0;
            }
        }
    }

    /// Hard reset after the adapter was found unpowered or unreachable: no
    /// controllers, adapter unpowered, cursor at 0.
    pub fn clear_unpowered(&mut self)
        ensures
            final(self).wf(),
            final(self).controllers@.len() == 0,
            !final(self).adapter_powered,
            final(self).selected_controller == 0,
            final(self).scanning == old(self).scanning,
    {
        self.controllers = Vec::new();
        self.controller_order = Vec::new();
        self.adapter_powered = false;
        self.selected_controller = 0;
        assert(self.order() =~= addresses(views(self.controllers@)));
    }

    /// Merges a filtered device snapshot into the list: controllers still
    /// present keep their relative order and take their new records, newly
    /// seen ones follow in the order of the snapshot (where an address occurs
    /// twice, its last record wins), repeated names are disambiguated and the
    /// cursor is clamped to the new list.
    pub fn update_controllers(&mut self, new_controllers: Vec<BluetoothController>)
        requires
            old(self).wf(),
        ensures
            final(self).wf(),
            views(final(self).controllers@) == reconciled(old(self).order(), views(new_controllers@)),
            final(self).order() == addresses(merged(old(self).order(), views(new_controllers@))),
            final(self).selected_controller == clamped(
                old(self).selected_controller as int,
                merged(old(self).order(), views(new_controllers@)).len() as int,
            ),
            final(self).selection_valid(),
            final(self).scanning == old(self).scanning,
            final(self).adapter_powered == old(self).adapter_powered,
    {
        let ghost order = self.order();
        let ghost inc = views(new_controllers@);
        let mut result: Vec<BluetoothController> = Vec::new();
        let mut k: usize = 0;
        while k < self.controller_order.len()
            invariant
                order == texts(self.controller_order@),
                inc == views(new_controllers@),
                k <= self.controller_order.len(),
                views(result@) == continuing(order, inc, k as int),
            decreases self.controller_order.len() - k,
        {
            let found = find_last(&new_controllers, &self.controller_order[k]);
            assert(order[k as int] == self.controller_order@[k as int]@);
            match found {
                Some(i) => {
                    let c = new_controllers[i].duplicate();
                    result.push(c);
                    assert(views(result@) =~= continuing(order, inc, k as int + 1));
                },
                None => {},
            }
            k += 1;
        }
        let ghost kept = views(result@);
        let mut i: usize = 0;
        while i < new_controllers.len()
            invariant
                order == texts(self.controller_order@),
                inc == views(new_controllers@),
                i <= new_controllers.len(),
                views(result@) == kept + fresh(order, inc, i as int),
                kept == continuing(order, inc, order.len() as int),
            decreases new_controllers.len() - i,
        {
            let last = is_last_at(&new_controllers, i);
            let present = holds_text(&self.controller_order, &new_controllers[i].address);
            let ghost before = views(result@);
            assert(inc[i as int] == new_controllers@[i as int]@);
            if last && !present {
                let c = new_controllers[i].duplicate();
                result.push(c);
                assert(views(result@) =~= before.push(inc[i as int]));
            }
            assert(views(result@) =~= kept + fresh(order, inc, i as int + 1));
            i += 1;
        }
        let ghost m = views(result@);
        assert(m == merged(order, inc));
        let mut named: Vec<BluetoothController> = Vec::new();
        let mut p: usize = 0;
        while p < result.len()
            invariant
                m == views(result@),
                p <= result.len(),
                views(named@) =~= labelled(m).take(p as int),
            decreases result.len() - p,
        {
            let k: usize = count_named(&result, &result[p].name, p + 1);
            let name = if k > 1 {
                suffixed_name(&result[p].name, k)
            } else {
                result[p].name.clone()
            };
            let c = BluetoothController {
                address: result[p].address.clone(),
                name,
                status: result[p].status,
                paired: result[p].paired,
                trusted: result[p].trusted,
            };
            assert(c@ == renamed(m[p as int], display_name(m, p as int)));
            let ghost before = views(named@);
            named.push(c);
            assert(views(named@) =~= before.push(labelled(m)[p as int]));
            assert(views(named@) =~= labelled(m).take(p as int + 1));
            p += 1;
        }
        assert(labelled(m).take(m.len() as int) =~= labelled(m));
        let mut new_order: Vec<String> = Vec::new();
        let mut q: usize = 0;
        while q < named.len()
            invariant
                q <= named.len(),
                texts(new_order@) =~= addresses(views(named@)).take(q as int),
            decreases named.len() - q,
        {
            let ghost before = texts(new_order@);
            new_order.push(named[q].address.clone());
            assert(texts(new_order@) =~= before.push(addresses(views(named@))[q as int]));
            assert(texts(new_order@) =~= addresses(views(named@)).take(q as int + 1));
            q += 1;
        }
        assert(addresses(views(named@)).take(named.len() as int) =~= addresses(views(named@)));
        proof {
            lemma_merged_distinct(order, inc);
            lemma_labelled_addresses(m);
            lemma_distinct_no_duplicates(m);
        }
        let len: usize = named.len();
        self.controllers = named;
        self.controller_order = new_order;
        if len == 0 {
            self.selected_controller = 0;
        } else if self.selected_controller >= len {
            self.selected_controller = len - 1;
        }
    }
}

} // verus!
