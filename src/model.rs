//! Devices, device-host rows, their mathematical views and the predicates
//! the reconciler is specified with.
use vstd::prelude::*;

verus! {

/// A node of the storage topology.
pub struct Device {
    pub id: String,
    pub parent_ids: Vec<String>,
    pub max_depth: u64,
}

/// The association of a device with a host, keyed by `(device_id, fqdn)`.
pub struct DeviceHost {
    pub device_id: String,
    pub fqdn: String,
    pub local: bool,
}

/// Errors of a reconciliation.
#[derive(Debug, PartialEq, Eq, Structural)]
pub enum ReconcileError {
    /// A parent reference names no device, or the parent relation has a
    /// cycle.
    InvalidInput,
}

/// The mathematical view of a `Device`.
pub struct DeviceV {
    pub id: Seq<char>,
    pub parent_ids: Seq<Seq<char>>,
    pub max_depth: u64,
}

/// The mathematical view of a `DeviceHost`.
pub struct DeviceHostV {
    pub device_id: Seq<char>,
    pub fqdn: Seq<char>,
    pub local: bool,
}

impl View for Device {
    type V = DeviceV;

    open spec fn view(&self) -> DeviceV {
        DeviceV {
            id: self.id@,
            parent_ids: self.parent_ids@.map_values(|s: String| s@),
            max_depth: self.max_depth,
        }
    }
}

impl View for DeviceHost {
    type V = DeviceHostV;

    open spec fn view(&self) -> DeviceHostV {
        DeviceHostV { device_id: self.device_id@, fqdn: self.fqdn@, local: self.local }
    }
}

/// The views of a list of devices, in order.
pub open spec fn devices_view(v: Seq<Device>) -> Seq<DeviceV> {
    v.map_values(|d: Device| d@)
}

/// The views of a list of rows, in order.
pub open spec fn rows_view(v: Seq<DeviceHost>) -> Seq<DeviceHostV> {
    v.map_values(|r: DeviceHost| r@)
}

/// No two devices share an id (a `Devices` mapping).
pub open spec fn ids_unique(g: Seq<DeviceV>) -> bool {
    forall|i: int, j: int|
        0 <= i < g.len() && 0 <= j < g.len() && #[trigger] g[i].id == #[trigger] g[j].id ==> i == j
}

/// No two rows share a `(device_id, fqdn)` key (a `DeviceHosts` mapping).
pub open spec fn keys_unique(r: Seq<DeviceHostV>) -> bool {
    forall|i: int, j: int|
        0 <= i < r.len() && 0 <= j < r.len() && #[trigger] r[i].device_id == #[trigger] r[j].device_id
            && r[i].fqdn == r[j].fqdn ==> i == j
}

/// Some device of `g` has the id.
pub open spec fn has_device(g: Seq<DeviceV>, id: Seq<char>) -> bool {
    exists|i: int| 0 <= i < g.len() && #[trigger] g[i].id == id
}

/// Some row has the key `(d, h)`.
pub open spec fn has_row(r: Seq<DeviceHostV>, d: Seq<char>, h: Seq<char>) -> bool {
    exists|k: int| 0 <= k < r.len() && #[trigger] r[k].device_id == d && r[k].fqdn == h
}

/// Some local row has the key `(d, h)`.
pub open spec fn has_local_row(r: Seq<DeviceHostV>, d: Seq<char>, h: Seq<char>) -> bool {
    exists|k: int| 0 <= k < r.len() && #[trigger] r[k].device_id == d && r[k].fqdn == h && r[k].local
}

/// Some host reports the device as physically attached.
pub open spec fn local_somewhere(r: Seq<DeviceHostV>, d: Seq<char>) -> bool {
    exists|k: int| 0 <= k < r.len() && #[trigger] r[k].device_id == d && r[k].local
}

/// The host appears in some row.
pub open spec fn has_host(r: Seq<DeviceHostV>, h: Seq<char>) -> bool {
    exists|k: int| 0 <= k < r.len() && #[trigger] r[k].fqdn == h
}

/// Device `j` is an immediate parent of device `i`.
pub open spec fn is_parent(g: Seq<DeviceV>, j: int, i: int) -> bool {
    g[i].parent_ids.contains(g[j].id)
}

/// Some device lists `id` among its parents.
pub open spec fn referenced_as_parent(g: Seq<DeviceV>, id: Seq<char>) -> bool {
    exists|i: int| 0 <= i < g.len() && #[trigger] g[i].parent_ids.contains(id)
}

/// The `k`-th parent id of device `i` names a device of `g` that is strictly
/// shallower than device `i`.
pub open spec fn parent_ok(g: Seq<DeviceV>, i: int, k: int) -> bool {
    exists|j: int|
        0 <= j < g.len() && #[trigger] g[j].id == g[i].parent_ids[k] && g[j].max_depth
            < g[i].max_depth
}

/// Every parent reference names a device of `g` that is strictly shallower
/// than the child. This rules out dangling references and cycles.
pub open spec fn graph_valid(g: Seq<DeviceV>) -> bool {
    forall|i: int, k: int| 0 <= i < g.len() && 0 <= k < g[i].parent_ids.len() ==> #[trigger] parent_ok(g, i, k)
}

/// `p` walks from a device to one of its ancestors, one parent step at a time.
pub open spec fn is_parent_path(g: Seq<DeviceV>, p: Seq<int>) -> bool {
    p.len() >= 2 && (forall|k: int| 0 <= k < p.len() ==> 0 <= #[trigger] p[k] < g.len()) && (forall|
        k: int,
    |
        0 <= k < p.len() - 1 ==> is_parent(g, p[k + 1], #[trigger] p[k]))
}

/// Device `a` is reached from device `i` by one or more parent steps.
pub open spec fn is_ancestor(g: Seq<DeviceV>, a: int, i: int) -> bool {
    exists|p: Seq<int>| #[trigger] is_parent_path(g, p) && p[0] == i && p.last() == a
}

/// Every ancestor of device `i` has a row for host `h`.
pub open spec fn ancestors_have_rows(
    g: Seq<DeviceV>,
    r: Seq<DeviceHostV>,
    h: Seq<char>,
    i: int,
) -> bool {
    forall|a: int| #[trigger] is_ancestor(g, a, i) ==> has_row(r, g[a].id, h)
}

/// Some row names the device, for any host.
pub open spec fn has_any_row(r: Seq<DeviceHostV>, d: Seq<char>) -> bool {
    exists|k: int| 0 <= k < r.len() && #[trigger] r[k].device_id == d
}

/// A device may be seen by hosts that do not report it only through shared
/// ancestors: a device without parents is never propagated.
pub open spec fn propagable(g: Seq<DeviceV>, r: Seq<DeviceHostV>, i: int) -> bool {
    g[i].parent_ids.len() > 0
}

/// Every row names a device of `g`.
pub open spec fn rows_named(r: Seq<DeviceHostV>, g: Seq<DeviceV>) -> bool {
    forall|k: int| 0 <= k < r.len() ==> #[trigger] has_device(g, r[k].device_id)
}

/// Visibility of device `i` on host `h`, unfolded at most `n` levels.
pub open spec fn visible_within(
    g: Seq<DeviceV>,
    r: Seq<DeviceHostV>,
    h: Seq<char>,
    i: int,
    n: nat,
) -> bool
    decreases n,
{
    has_local_row(r, g[i].id, h) || (n > 0 && propagable(g, r, i) && forall|a: int|
        #[trigger] is_ancestor(g, a, i) ==> visible_within(g, r, h, a, (n - 1) as nat))
}

/// Device `i` is visible on host `h`: `h` reports it, or it is propagable
/// and every one of its ancestors is visible on `h`.
pub open spec fn visible(g: Seq<DeviceV>, r: Seq<DeviceHostV>, h: Seq<char>, i: int) -> bool {
    visible_within(g, r, h, i, (g[i].max_depth + 1) as nat)
}

pub open spec fn ancestors_visible(
    g: Seq<DeviceV>,
    r: Seq<DeviceHostV>,
    h: Seq<char>,
    i: int,
) -> bool {
    forall|a: int| #[trigger] is_ancestor(g, a, i) ==> visible(g, r, h, a)
}

/// Whether the corrected state holds a row `(d, h)`, given the merged
/// devices `g` and rows `r` of a pass for the reporting host `f`.
pub open spec fn expected_row(
    g: Seq<DeviceV>,
    r: Seq<DeviceHostV>,
    f: Seq<char>,
    d: Seq<char>,
    h: Seq<char>,
) -> bool {
    if h == f {
        has_row(r, d, h)
    } else {
        has_local_row(r, d, h) || (has_host(r, h) && exists|i: int|
            0 <= i < g.len() && #[trigger] g[i].id == d && visible(g, r, h, i))
    }
}

/// The views of a list of strings, in order.
pub open spec fn strs_view(v: Seq<String>) -> Seq<Seq<char>> {
    v.map_values(|s: String| s@)
}

/// Whether `v` holds a string equal to `s`.
pub fn contains_str(v: &Vec<String>, s: &String) -> (r: bool)
    ensures
        r == strs_view(v@).contains(s@),
{
    let mut k: usize = 0;
    while k < v.len()
        invariant
            k <= v@.len(),
            forall|x: int| 0 <= x < k ==> v@[x]@ != s@,
        decreases v@.len() - k,
    {
        if v[k] == *s {
            assert(strs_view(v@)[k as int] == s@);
            return true;
        }
        k = k + 1;
    }
    proof {
        if strs_view(v@).contains(s@) {
            let x = choose|x: int| 0 <= x < strs_view(v@).len() && strs_view(v@)[x] == s@;
            assert(v@[x]@ == s@);
        }
    }
    false
}

/// A copy of the row.
pub fn copy_row(row: &DeviceHost) -> (c: DeviceHost)
    ensures
        c@ == row@,
{
    DeviceHost { device_id: row.device_id.clone(), fqdn: row.fqdn.clone(), local: row.local }
}

/// A copy of the device.
pub fn copy_device(dev: &Device) -> (c: Device)
    ensures
        c@ == dev@,
{
    let mut parent_ids: Vec<String> = Vec::new();
    let mut k: usize = 0;
    while k < dev.parent_ids.len()
        invariant
            k <= dev.parent_ids@.len(),
            parent_ids@.len() == k,
            forall|x: int| 0 <= x < k ==> parent_ids@[x]@ == dev.parent_ids@[x]@,
        decreases dev.parent_ids@.len() - k,
    {
        let s: String = dev.parent_ids[k].clone();
        parent_ids.push(s);
        k = k + 1;
    }
    let c = Device { id: dev.id.clone(), parent_ids, max_depth: dev.max_depth };
    assert(c@.parent_ids =~= dev@.parent_ids);
    c
}

/// Every parent id names a device of `g`.
pub open spec fn parents_exist(g: Seq<DeviceV>) -> bool {
    forall|i: int, k: int|
        0 <= i < g.len() && 0 <= k < g[i].parent_ids.len() ==> #[trigger] has_device(
            g,
            g[i].parent_ids[k],
        )
}

/// Some chain of parent steps returns to where it started.
pub open spec fn has_cycle(g: Seq<DeviceV>) -> bool {
    exists|i: int| #[trigger] is_ancestor(g, i, i)
}

/// Every parent id names a device, and a device without parents has depth
/// 0 while any other has one more than the deepest of its parents.
pub open spec fn depths_consistent(g: Seq<DeviceV>) -> bool {
    &&& parents_exist(g)
    &&& forall|i: int, j: int| 0 <= i < g.len() && 0 <= j < g.len() && #[trigger] is_parent(g, j, i)
        ==> g[j].max_depth < g[i].max_depth
    &&& forall|i: int| 0 <= i < g.len() && g[i].parent_ids.len() == 0 ==> #[trigger] g[i].max_depth == 0
    &&& forall|i: int| 0 <= i < g.len() && g[i].parent_ids.len() > 0 ==> exists|j: int|
        0 <= j < g.len() && #[trigger] is_parent(g, j, i) && g[j].max_depth + 1 == g[i].max_depth
}

/// `a` and `b` list the same devices, apart from their depths.
pub open spec fn same_shape(a: Seq<DeviceV>, b: Seq<DeviceV>) -> bool {
    a.len() == b.len() && forall|i: int| 0 <= i < a.len() ==> #[trigger] a[i].id == b[i].id
        && a[i].parent_ids == b[i].parent_ids
}

} // verus!
