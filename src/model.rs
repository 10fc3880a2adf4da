use vstd::prelude::*;
use crate::controller::{BluetoothController, ControllerView};

verus! {

/// The values of a list of controller records.
pub open spec fn views(s: Seq<BluetoothController>) -> Seq<ControllerView> {
    s.map_values(|c: BluetoothController| c@)
}

/// The values of a list of strings.
pub open spec fn texts(s: Seq<String>) -> Seq<Seq<char>> {
    s.map_values(|t: String| t@)
}

/// The addresses of a list of records, in the same order.
pub open spec fn addresses(s: Seq<ControllerView>) -> Seq<Seq<char>> {
    s.map_values(|c: ControllerView| c.address)
}

/// The record that `incoming` holds for address `a`: where an address occurs
/// more than once, the last occurrence wins.
pub open spec fn lookup(incoming: Seq<ControllerView>, a: Seq<char>) -> Option<ControllerView>
    decreases incoming.len(),
{
    if incoming.len() == 0 {
        None
    } else if incoming.last().address == a {
        Some(incoming.last())
    } else {
        lookup(incoming.drop_last(), a)
    }
}

/// The controllers that continue from the first `k` addresses of the previous
/// order: each address still present, in its previous position, with its new
/// record.
pub open spec fn continuing(order: Seq<Seq<char>>, incoming: Seq<ControllerView>, k: int) -> Seq<ControllerView>
    decreases k,
{
    if k <= 0 {
        Seq::empty()
    } else {
        let prev = continuing(order, incoming, k - 1);
        match lookup(incoming, order[k - 1]) {
            Some(c) => prev.push(c),
            None => prev,
        }
    }
}

/// No later record of `incoming` has the address of record `i`.
pub open spec fn is_last_of_address(incoming: Seq<ControllerView>, i: int) -> bool {
    forall|j: int| i < j < incoming.len() ==> #[trigger] incoming[j].address != incoming[i].address
}

/// `c` is among the first `k` records of `incoming` and is the last record of
/// its address.
pub open spec fn last_record_before(incoming: Seq<ControllerView>, k: int, c: ControllerView) -> bool {
    exists|j: int| 0 <= j < k && is_last_of_address(incoming, j) && #[trigger] incoming[j] == c
}

/// The newly seen controllers among the first `k` records of `incoming`:
/// those whose address the previous order lacks, one per address, in the
/// order of their last occurrence.
pub open spec fn fresh(order: Seq<Seq<char>>, incoming: Seq<ControllerView>, k: int) -> Seq<ControllerView>
    decreases k,
{
    if k <= 0 {
        Seq::empty()
    } else {
        let prev = fresh(order, incoming, k - 1);
        if is_last_of_address(incoming, k - 1) && !order.contains(incoming[k - 1].address) {
            prev.push(incoming[k - 1])
        } else {
            prev
        }
    }
}

/// The merged list before disambiguation: continuing controllers in their
/// previous order, then the newly seen ones.
pub open spec fn merged(order: Seq<Seq<char>>, incoming: Seq<ControllerView>) -> Seq<ControllerView> {
    continuing(order, incoming, order.len() as int) + fresh(order, incoming, incoming.len() as int)
}

/// How many of the first `k` records of `s` carry the name `name`.
pub open spec fn name_count(s: Seq<ControllerView>, name: Seq<char>, k: int) -> nat
    decreases k,
{
    if k <= 0 {
        0
    } else {
        name_count(s, name, k - 1) + if s[k - 1].name == name { 1nat } else { 0nat }
    }
}

/// The decimal digit for `d < 10`.
pub open spec fn digit(d: nat) -> char {
    seq!['0', '1', '2', '3', '4', '5', '6', '7', '8', '9'][d as int]
}

/// The decimal notation of `n`, without leading zeros.
pub open spec fn decimal(n: nat) -> Seq<char>
    decreases n,
{
    if n < 10 {
        seq![digit(n)]
    } else {
        decimal(n / 10).push(digit(n % 10))
    }
}

/// `base` followed by ` (k)`.
pub open spec fn suffixed(base: Seq<char>, k: nat) -> Seq<char> {
    base + seq![' ', '('] + decimal(k) + seq![')']
}

/// The name shown for record `i`: its own name at the first occurrence of
/// that name, and with its occurrence rank appended at every later one.
pub open spec fn display_name(s: Seq<ControllerView>, i: int) -> Seq<char> {
    let k: nat = name_count(s, s[i].name, i + 1);
    if k > 1 {
        suffixed(s[i].name, k)
    } else {
        s[i].name
    }
}

/// Record `c` shown under `name`.
pub open spec fn renamed(c: ControllerView, name: Seq<char>) -> ControllerView {
    ControllerView { address: c.address, name, status: c.status, paired: c.paired, trusted: c.trusted }
}

/// The list with every repeated name disambiguated.
pub open spec fn labelled(s: Seq<ControllerView>) -> Seq<ControllerView> {
    Seq::new(s.len(), |i: int| renamed(s[i], display_name(s, i)))
}

/// The reconciled list of controllers.
pub open spec fn reconciled(order: Seq<Seq<char>>, incoming: Seq<ControllerView>) -> Seq<ControllerView> {
    labelled(merged(order, incoming))
}

/// The cursor after the list has changed to length `len`.
pub open spec fn clamped(selected: int, len: int) -> int {
    if len == 0 {
        0
    } else if selected >= len {
        len - 1
    } else {
        selected
    }
}

/// The addresses of `s` are pairwise distinct.
pub open spec fn distinct_addresses(s: Seq<ControllerView>) -> bool {
    forall|i: int, j: int| 0 <= i < j < s.len() ==> s[i].address != s[j].address
}

pub proof fn lemma_lookup(incoming: Seq<ControllerView>, a: Seq<char>)
    ensures
        lookup(incoming, a) is Some <==> exists|j: int| 0 <= j < incoming.len() && incoming[j].address == a,
        lookup(incoming, a) is Some ==> lookup(incoming, a).unwrap().address == a
            && incoming.contains(lookup(incoming, a).unwrap()),
        lookup(incoming, a) is Some ==> last_record_before(incoming, incoming.len() as int, lookup(incoming, a).unwrap()),
    decreases incoming.len(),
{
    if incoming.len() > 0 {
        let init = incoming.drop_last();
        lemma_lookup(init, a);
        if incoming.last().address == a {
            assert(incoming[incoming.len() - 1] == incoming.last());
            assert(is_last_of_address(incoming, incoming.len() - 1));
        } else if lookup(init, a) is Some {
            let c = lookup(init, a).unwrap();
            let j = choose|j: int| 0 <= j < init.len() && is_last_of_address(init, j) && #[trigger] init[j] == c;
            assert(incoming[j] == c);
            assert forall|m: int| j < m < incoming.len() implies #[trigger] incoming[m].address != incoming[j].address by {
                if m < init.len() {
                    assert(init[m] == incoming[m]);
                }
            }
        }
        if incoming.last().address != a {
            if exists|j: int| 0 <= j < incoming.len() && incoming[j].address == a {
                let j = choose|j: int| 0 <= j < incoming.len() && incoming[j].address == a;
                assert(init[j].address == a);
            }
            if lookup(init, a) is Some {
                let c = lookup(init, a).unwrap();
                let j = choose|j: int| 0 <= j < init.len() && init[j] == c;
                assert(incoming[j] == c);
            }
        } else {
            assert(incoming[incoming.len() - 1] == incoming.last());
        }
    }
}

/// The continuing controllers have distinct addresses, each taken from the
/// first `k` of the previous order.
pub proof fn lemma_continuing(order: Seq<Seq<char>>, incoming: Seq<ControllerView>, k: int)
    requires
        order.no_duplicates(),
        0 <= k <= order.len(),
    ensures
        distinct_addresses(continuing(order, incoming, k)),
        forall|p: int| 0 <= p < continuing(order, incoming, k).len()
            ==> order.take(k).contains(#[trigger] continuing(order, incoming, k)[p].address),
        forall|p: int| 0 <= p < continuing(order, incoming, k).len()
            ==> lookup(incoming, #[trigger] continuing(order, incoming, k)[p].address)
                == Some(continuing(order, incoming, k)[p]),
    decreases k,
{
    if k > 0 {
        lemma_continuing(order, incoming, k - 1);
        lemma_lookup(incoming, order[k - 1]);
        let prev = continuing(order, incoming, k - 1);
        let cur = continuing(order, incoming, k);
        assert forall|p: int| 0 <= p < prev.len() implies order.take(k).contains(#[trigger] prev[p].address) by {
            let q = choose|q: int| 0 <= q < k - 1 && #[trigger] order.take(k - 1)[q] == prev[p].address;
            assert(order.take(k)[q] == prev[p].address);
        }
        if lookup(incoming, order[k - 1]) is Some {
            assert forall|p: int| 0 <= p < prev.len() implies prev[p].address != order[k - 1] by {
                let q = choose|q: int| 0 <= q < k - 1 && #[trigger] order.take(k - 1)[q] == prev[p].address;
                assert(order[q] == prev[p].address);
            }
            assert(order.take(k)[k - 1] == order[k - 1]);
            assert forall|p: int| 0 <= p < cur.len() implies order.take(k).contains(#[trigger] cur[p].address) by {
                if p < prev.len() {
                    assert(cur[p] == prev[p]);
                }
            }
        }
    }
}

/// The newly seen controllers have distinct addresses, none of them in the
/// previous order, and each is the last record of its address.
pub proof fn lemma_fresh(order: Seq<Seq<char>>, incoming: Seq<ControllerView>, k: int)
    requires
        0 <= k <= incoming.len(),
    ensures
        distinct_addresses(fresh(order, incoming, k)),
        forall|p: int| 0 <= p < fresh(order, incoming, k).len()
            ==> !order.contains(#[trigger] fresh(order, incoming, k)[p].address),
        forall|p: int| 0 <= p < fresh(order, incoming, k).len()
            ==> last_record_before(incoming, k, #[trigger] fresh(order, incoming, k)[p]),
    decreases k,
{
    if k > 0 {
        lemma_fresh(order, incoming, k - 1);
        let prev = fresh(order, incoming, k - 1);
        let cur = fresh(order, incoming, k);
        if is_last_of_address(incoming, k - 1) && !order.contains(incoming[k - 1].address) {
            assert forall|p: int| 0 <= p < prev.len() implies prev[p].address != incoming[k - 1].address by {
                let j = choose|j: int| 0 <= j < k - 1 && is_last_of_address(incoming, j) && incoming[j] == prev[p];
                assert(incoming[k - 1].address != incoming[j].address);
            }
            assert forall|p: int| 0 <= p < cur.len() implies last_record_before(incoming, k, #[trigger] cur[p]) by {
                if p < prev.len() {
                    let j = choose|j: int| 0 <= j < k - 1 && is_last_of_address(incoming, j) && incoming[j] == prev[p];
                    assert(cur[p] == prev[p]);
                    assert(incoming[j] == cur[p]);
                } else {
                    assert(cur[p] == incoming[k - 1]);
                }
            }
            assert forall|p: int| 0 <= p < cur.len() implies !order.contains(#[trigger] cur[p].address) by {
                if p < prev.len() {
                    assert(cur[p] == prev[p]);
                }
            }
        } else {
            assert forall|p: int| 0 <= p < cur.len() implies last_record_before(incoming, k, #[trigger] cur[p]) by {
                let j = choose|j: int| 0 <= j < k - 1 && is_last_of_address(incoming, j) && incoming[j] == prev[p];
                assert(incoming[j] == cur[p]);
            }
        }
    }
}

/// The merged list has distinct addresses.
pub proof fn lemma_merged_distinct(order: Seq<Seq<char>>, incoming: Seq<ControllerView>)
    requires
        order.no_duplicates(),
    ensures
        distinct_addresses(merged(order, incoming)),
{
    let c = continuing(order, incoming, order.len() as int);
    let f = fresh(order, incoming, incoming.len() as int);
    lemma_continuing(order, incoming, order.len() as int);
    lemma_fresh(order, incoming, incoming.len() as int);
    assert(order.take(order.len() as int) =~= order);
    let m = merged(order, incoming);
    assert forall|i: int, j: int| 0 <= i < j < m.len() implies m[i].address != m[j].address by {
        if j >= c.len() && i < c.len() {
            assert(m[i] == c[i]);
            assert(m[j] == f[j - c.len()]);
        } else if j < c.len() {
            assert(m[i] == c[i] && m[j] == c[j]);
        } else {
            assert(m[i] == f[i - c.len()] && m[j] == f[j - c.len()]);
        }
    }
}

/// Disambiguation changes names only.
pub proof fn lemma_labelled_addresses(s: Seq<ControllerView>)
    ensures
        addresses(labelled(s)) =~= addresses(s),
        labelled(s).len() == s.len(),
{
}

/// Distinct addresses, read as a sequence, hold no duplicates.
pub proof fn lemma_distinct_no_duplicates(s: Seq<ControllerView>)
    requires
        distinct_addresses(s),
    ensures
        addresses(s).no_duplicates(),
{
    assert forall|i: int, j: int| 0 <= i < addresses(s).len() && 0 <= j < addresses(s).len() && i != j
        implies addresses(s)[i] != addresses(s)[j] by {
        if i < j {
            assert(s[i].address != s[j].address);
        } else {
            assert(s[j].address != s[i].address);
        }
    }
}

/// Splitting a list splits its addresses.
pub proof fn lemma_addresses_add(a: Seq<ControllerView>, b: Seq<ControllerView>)
    ensures
        addresses(a + b) =~= addresses(a) + addresses(b),
{
}

/// For `k <= n`, the continuing controllers from the first `k` addresses
/// start the list of those from the first `n`.
pub proof fn lemma_continuing_prefix(order: Seq<Seq<char>>, incoming: Seq<ControllerView>, k: int, n: int)
    requires
        0 <= k <= n,
    ensures
        continuing(order, incoming, k).len() <= continuing(order, incoming, n).len(),
        forall|p: int| 0 <= p < continuing(order, incoming, k).len()
            ==> #[trigger] continuing(order, incoming, n)[p] == continuing(order, incoming, k)[p],
    decreases n - k,
{
    if k < n {
        lemma_continuing_prefix(order, incoming, k, n - 1);
        let prev = continuing(order, incoming, n - 1);
        let cur = continuing(order, incoming, n);
        assert forall|p: int| 0 <= p < prev.len() implies #[trigger] cur[p] == prev[p] by {}
    }
}

/// Each address present in `incoming` among the first `k` of the previous
/// order is among the continuing controllers' addresses.
pub proof fn lemma_continuing_covers(order: Seq<Seq<char>>, incoming: Seq<ControllerView>, k: int, q: int)
    requires
        0 <= q < k <= order.len(),
        lookup(incoming, order[q]) is Some,
    ensures
        addresses(continuing(order, incoming, k)).contains(order[q]),
    decreases k,
{
    lemma_lookup(incoming, order[q]);
    let cur = continuing(order, incoming, k);
    if q == k - 1 {
        assert(addresses(cur)[cur.len() - 1] == order[q]);
    } else {
        lemma_continuing_covers(order, incoming, k - 1, q);
        let prev = continuing(order, incoming, k - 1);
        let p = choose|p: int| 0 <= p < addresses(prev).len() && addresses(prev)[p] == order[q];
        assert(cur[p] == prev[p]);
        assert(addresses(cur)[p] == order[q]);
    }
}

/// Each last record of its address among the first `k` of `incoming`, whose
/// address the previous order lacks, is among the newly seen controllers.
pub proof fn lemma_fresh_covers(order: Seq<Seq<char>>, incoming: Seq<ControllerView>, k: int, j: int)
    requires
        0 <= j < k <= incoming.len(),
        is_last_of_address(incoming, j),
        !order.contains(incoming[j].address),
    ensures
        fresh(order, incoming, k).contains(incoming[j]),
    decreases k,
{
    let cur = fresh(order, incoming, k);
    if j == k - 1 {
        assert(cur[cur.len() - 1] == incoming[j]);
    } else {
        lemma_fresh_covers(order, incoming, k - 1, j);
        let prev = fresh(order, incoming, k - 1);
        let p = choose|p: int| 0 <= p < prev.len() && prev[p] == incoming[j];
        assert(cur[p] == prev[p]);
    }
}

/// With every address of `incoming` already in the previous order, nothing
/// is newly seen.
pub proof fn lemma_fresh_empty(order: Seq<Seq<char>>, incoming: Seq<ControllerView>, k: int)
    requires
        0 <= k <= incoming.len(),
        forall|j: int| 0 <= j < incoming.len() ==> order.contains(#[trigger] incoming[j].address),
    ensures
        fresh(order, incoming, k).len() == 0,
    decreases k,
{
    if k > 0 {
        lemma_fresh_empty(order, incoming, k - 1);
    }
}

/// With every address of the previous order present in `incoming`, the
/// continuing controllers carry exactly the first `k` addresses.
pub proof fn lemma_continuing_all(order: Seq<Seq<char>>, incoming: Seq<ControllerView>, k: int)
    requires
        0 <= k <= order.len(),
        forall|q: int| 0 <= q < order.len() ==> #[trigger] lookup(incoming, order[q]) is Some,
    ensures
        addresses(continuing(order, incoming, k)) =~= order.take(k),
    decreases k,
{
    if k > 0 {
        lemma_continuing_all(order, incoming, k - 1);
        lemma_lookup(incoming, order[k - 1]);
        assert(lookup(incoming, order[k - 1]) is Some);
    }
}

/// Every record of the merged list is a record of `incoming`.
pub proof fn lemma_merged_from_incoming(order: Seq<Seq<char>>, incoming: Seq<ControllerView>)
    requires
        order.no_duplicates(),
    ensures
        forall|i: int| 0 <= i < merged(order, incoming).len() ==> incoming.contains(#[trigger] merged(order, incoming)[i]),
{
    let c = continuing(order, incoming, order.len() as int);
    let f = fresh(order, incoming, incoming.len() as int);
    lemma_continuing(order, incoming, order.len() as int);
    lemma_fresh(order, incoming, incoming.len() as int);
    let m = merged(order, incoming);
    assert forall|i: int| 0 <= i < m.len() implies incoming.contains(#[trigger] m[i]) by {
        if i < c.len() {
            assert(m[i] == c[i]);
            lemma_lookup(incoming, c[i].address);
        } else {
            assert(m[i] == f[i - c.len()]);
            assert(last_record_before(incoming, incoming.len() as int, f[i - c.len()]));
        }
    }
}

/// Every address of `incoming` is an address of the merged list.
pub proof fn lemma_merged_covers(order: Seq<Seq<char>>, incoming: Seq<ControllerView>, j: int)
    requires
        0 <= j < incoming.len(),
    ensures
        addresses(merged(order, incoming)).contains(incoming[j].address),
{
    let a = incoming[j].address;
    let c = continuing(order, incoming, order.len() as int);
    let f = fresh(order, incoming, incoming.len() as int);
    lemma_addresses_add(c, f);
    lemma_lookup(incoming, a);
    assert(lookup(incoming, a) is Some);
    if order.contains(a) {
        let q = choose|q: int| 0 <= q < order.len() && order[q] == a;
        lemma_continuing_covers(order, incoming, order.len() as int, q);
        let p = choose|p: int| 0 <= p < addresses(c).len() && addresses(c)[p] == a;
        assert(addresses(merged(order, incoming))[p] == a);
    } else {
        let r = lookup(incoming, a).unwrap();
        let jj = choose|jj: int| 0 <= jj < incoming.len() && is_last_of_address(incoming, jj) && #[trigger] incoming[jj] == r;
        lemma_fresh_covers(order, incoming, incoming.len() as int, jj);
        let p = choose|p: int| 0 <= p < f.len() && f[p] == incoming[jj];
        assert(addresses(merged(order, incoming))[c.len() + p] == a);
    }
}

} // verus!
