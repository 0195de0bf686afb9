//! One reconciliation pass: local rows are kept, rows that a host saw only
//! through shared ancestors are recomputed for every host but the reporter.
use vstd::prelude::*;
use crate::model::{
    Device, DeviceHost, DeviceHostV, DeviceV, devices_view, rows_view, strs_view, has_row,
    has_local_row, has_host, keys_unique, ids_unique, graph_valid, visible, expected_row,
    contains_str, copy_row, copy_device, ReconcileError, is_ancestor, has_device, has_any_row,
    parents_exist, has_cycle, depths_consistent, same_shape, is_parent, rows_named,
};
use crate::graph::{row_present, find_device, ancestor_at};
use crate::depth::compute_depths;
use crate::narrowing::closed_sublist;
use crate::merge::{merge_state, settled_devices, not_replaced, device_has_row, replaced_rows, union_devices, prune_devices};
use crate::visibility::{visible_at, lemma_visible_fuel, settled_ok};

verus! {

/// The row is one of the first `n` of `r` that a pass keeps as they are: a
/// row of the reporting host `f`, or a local row.
pub open spec fn kept_row(r: Seq<DeviceHostV>, f: Seq<char>, x: DeviceHostV, n: int) -> bool {
    exists|k: int| 0 <= k < n && k < r.len() && #[trigger] r[k] == x && (x.fqdn == f || x.local)
}

/// The row is a propagated one that the pass justifies.
pub open spec fn justified_virtual_row(
    g: Seq<DeviceV>,
    r: Seq<DeviceHostV>,
    f: Seq<char>,
    x: DeviceHostV,
) -> bool {
    !x.local && x.fqdn != f && has_host(r, x.fqdn) && exists|i: int|
        0 <= i < g.len() && #[trigger] g[i].id == x.device_id && visible(g, r, x.fqdn, i)
}

pub proof fn lemma_push_rows(s: Seq<DeviceHostV>, x: DeviceHostV)
    ensures
        forall|d: Seq<char>, h: Seq<char>| has_row(s, d, h) ==> #[trigger] has_row(s.push(x), d, h),
        has_row(s.push(x), x.device_id, x.fqdn),
        forall|d: Seq<char>, h: Seq<char>|
            #[trigger] has_row(s.push(x), d, h) ==> has_row(s, d, h) || (d == x.device_id && h
                == x.fqdn),
        !has_row(s, x.device_id, x.fqdn) && keys_unique(s) ==> keys_unique(s.push(x)),
        forall|y: DeviceHostV| s.contains(y) ==> #[trigger] s.push(x).contains(y),
{
    assert forall|y: DeviceHostV| s.contains(y) implies #[trigger] s.push(x).contains(y) by {
        let k = choose|k: int| 0 <= k < s.len() && s[k] == y;
        assert(s.push(x)[k] == y);
    }
    assert forall|d: Seq<char>, h: Seq<char>| has_row(s, d, h) implies #[trigger] has_row(
        s.push(x),
        d,
        h,
    ) by {
        let k = choose|k: int| 0 <= k < s.len() && #[trigger] s[k].device_id == d && s[k].fqdn == h;
        assert(s.push(x)[k] == s[k]);
    }
    assert(s.push(x)[s.len() as int] == x);
    assert forall|d: Seq<char>, h: Seq<char>| #[trigger] has_row(s.push(x), d, h) implies has_row(
        s,
        d,
        h,
    ) || (d == x.device_id && h == x.fqdn) by {
        let k = choose|k: int|
            0 <= k < s.push(x).len() && #[trigger] s.push(x)[k].device_id == d && s.push(x)[k].fqdn
                == h;
        if k < s.len() {
            assert(s.push(x)[k] == s[k]);
        }
    }
    if !has_row(s, x.device_id, x.fqdn) && keys_unique(s) {
        assert forall|i: int, j: int|
            0 <= i < s.push(x).len() && 0 <= j < s.push(x).len() && #[trigger] s.push(x)[i].device_id
                == #[trigger] s.push(x)[j].device_id && s.push(x)[i].fqdn == s.push(x)[j].fqdn
            implies i == j by {
            if i < s.len() {
                assert(s.push(x)[i] == s[i]);
            }
            if j < s.len() {
                assert(s.push(x)[j] == s[j]);
            }
            if i < s.len() && j == s.len() {
                assert(s[i].device_id == x.device_id);
            }
            if j < s.len() && i == s.len() {
                assert(s[j].device_id == x.device_id);
            }
        }
    }
}

/// The hosts, other than `fqdn`, that appear in some row, each once.
pub fn other_hosts(rows: &Vec<DeviceHost>, fqdn: &String) -> (hosts: Vec<String>)
    ensures
        forall|x: int| 0 <= x < hosts@.len() ==> hosts@[x]@ != fqdn@ && has_host(rows_view(rows@), #[trigger] hosts@[x]@),
        forall|h: Seq<char>| h != fqdn@ && has_host(rows_view(rows@), h) ==> #[trigger] strs_view(hosts@).contains(h),
{
    let ghost r = rows_view(rows@);
    let mut hosts: Vec<String> = Vec::new();
    let mut k: usize = 0;
    while k < rows.len()
        invariant
            k <= rows@.len(),
            r == rows_view(rows@),
            forall|x: int| 0 <= x < hosts@.len() ==> hosts@[x]@ != fqdn@ && has_host(r, #[trigger] hosts@[x]@),
            forall|kk: int| 0 <= kk < k && r[kk].fqdn != fqdn@ ==> #[trigger] strs_view(hosts@).contains(r[kk].fqdn),
        decreases rows@.len() - k,
    {
        assert(r[k as int] == rows@[k as int]@);
        let ghost before = hosts@;
        if rows[k].fqdn != *fqdn && !contains_str(&hosts, &rows[k].fqdn) {
            hosts.push(rows[k].fqdn.clone());
            proof {
                assert(has_host(r, r[k as int].fqdn));
            }
        }
        proof {
            assert forall|kk: int| 0 <= kk < k + 1 && r[kk].fqdn != fqdn@ implies #[trigger] strs_view(hosts@).contains(r[kk].fqdn) by {
                if kk < k {
                    assert(strs_view(before).contains(r[kk].fqdn));
                    let x = choose|x: int| 0 <= x < strs_view(before).len() && strs_view(before)[x] == r[kk].fqdn;
                    assert(hosts@[x] == before[x]);
                    assert(strs_view(hosts@)[x] == r[kk].fqdn);
                } else if hosts@.len() > before.len() {
                    assert(strs_view(hosts@)[before.len() as int] == r[kk].fqdn);
                }
            }
        }
        k = k + 1;
    }
    proof {
        assert forall|h: Seq<char>| h != fqdn@ && has_host(r, h) implies #[trigger] strs_view(hosts@).contains(h) by {
            let kk = choose|kk: int| 0 <= kk < r.len() && #[trigger] r[kk].fqdn == h;
        }
    }
    hosts
}

/// The rows of the corrected state: the rows of `fqdn` and every local row
/// as they are, and for each other host a propagated row for each device
/// that is visible there and that the host does not report itself.
pub fn reconcile_rows(fqdn: &String, devs: &Vec<Device>, rows: &Vec<DeviceHost>) -> (out: Vec<
    DeviceHost,
>)
    requires
        ids_unique(devices_view(devs@)),
        graph_valid(devices_view(devs@)),
        keys_unique(rows_view(rows@)),
    ensures
        keys_unique(rows_view(out@)),
        forall|d: Seq<char>, h: Seq<char>| #[trigger]
            has_row(rows_view(out@), d, h) == expected_row(
                devices_view(devs@),
                rows_view(rows@),
                fqdn@,
                d,
                h,
            ),
        forall|d: Seq<char>, h: Seq<char>| #[trigger]
            has_local_row(rows_view(out@), d, h) == has_local_row(rows_view(rows@), d, h),
        forall|k: int|
            0 <= k < rows@.len() && (rows_view(rows@)[k].fqdn == fqdn@ || rows_view(rows@)[k].local)
                ==> #[trigger] rows_view(out@).contains(rows_view(rows@)[k]),
{
    let ghost g = devices_view(devs@);
    let ghost r = rows_view(rows@);
    let ghost f = fqdn@;
    let mut out: Vec<DeviceHost> = Vec::new();
    let mut k: usize = 0;
    while k < rows.len()
        invariant
            k <= rows@.len(),
            r == rows_view(rows@),
            f == fqdn@,
            keys_unique(r),
            keys_unique(rows_view(out@)),
            forall|x: int|
                0 <= x < out@.len() ==> kept_row(r, f, #[trigger] rows_view(out@)[x], k as int),
            forall|kk: int|
                0 <= kk < k && (r[kk].fqdn == f || r[kk].local) ==> #[trigger] rows_view(
                    out@,
                ).contains(r[kk]),
        decreases rows@.len() - k,
    {
        assert(r[k as int] == rows@[k as int]@);
        let ghost before = rows_view(out@);
        if rows[k].fqdn == *fqdn || rows[k].local {
            let row = copy_row(&rows[k]);
            proof {
                if has_row(before, row@.device_id, row@.fqdn) {
                    let x = choose|x: int|
                        0 <= x < before.len() && #[trigger] before[x].device_id == row@.device_id
                            && before[x].fqdn == row@.fqdn;
                    assert(kept_row(r, f, before[x], k as int));
                    let kk = choose|kk: int|
                        0 <= kk < k && kk < r.len() && #[trigger] r[kk] == before[x] && (before[x].fqdn
                            == f || before[x].local);
                    assert(r[kk].device_id == r[k as int].device_id);
                }
                lemma_push_rows(before, row@);
            }
            out.push(row);
            assert(rows_view(out@) == before.push(row@));
        }
        proof {
            assert forall|x: int| 0 <= x < out@.len() implies kept_row(
                r,
                f,
                #[trigger] rows_view(out@)[x],
                k + 1,
            ) by {
                if x < before.len() {
                    assert(rows_view(out@)[x] == before[x]);
                    assert(kept_row(r, f, before[x], k as int));
                    let kk = choose|kk: int|
                        0 <= kk < k && kk < r.len() && #[trigger] r[kk] == before[x] && (before[x].fqdn
                            == f || before[x].local);
                } else {
                    assert(r[k as int] == rows_view(out@)[x]);
                }
            }
            assert forall|kk: int|
                0 <= kk < k + 1 && (r[kk].fqdn == f || r[kk].local) implies #[trigger] rows_view(
                out@,
            ).contains(r[kk]) by {
                if kk < k {
                    assert(before.contains(r[kk]));
                } else {
                    assert(rows_view(out@)[out@.len() - 1] == r[kk]);
                }
            }
        }
        k = k + 1;
    }
    let hosts = other_hosts(rows, fqdn);
    let mut hi: usize = 0;
    while hi < hosts.len()
        invariant
            hi <= hosts@.len(),
            g == devices_view(devs@),
            r == rows_view(rows@),
            f == fqdn@,
            ids_unique(g),
            graph_valid(g),
            forall|x: int| 0 <= x < hosts@.len() ==> hosts@[x]@ != f && has_host(r, #[trigger] hosts@[x]@),
            keys_unique(rows_view(out@)),
            forall|x: int|
                0 <= x < out@.len() ==> kept_row(r, f, #[trigger] rows_view(out@)[x], r.len() as int)
                    || justified_virtual_row(g, r, f, rows_view(out@)[x]),
            forall|kk: int|
                0 <= kk < r.len() && (r[kk].fqdn == f || r[kk].local) ==> #[trigger] rows_view(
                    out@,
                ).contains(r[kk]),
            forall|hh: int, i: int|
                0 <= hh < hi && 0 <= i < g.len() && visible(g, r, hosts@[hh]@, i) ==> #[trigger] has_row(
                    rows_view(out@),
                    g[i].id,
                    hosts@[hh]@,
                ),
        decreases hosts@.len() - hi,
    {
        let mut settled: Vec<bool> = Vec::new();
        while settled.len() < devs.len()
            invariant
                settled@.len() <= devs@.len(),
                forall|j: int| 0 <= j < settled@.len() ==> !#[trigger] settled@[j],
            decreases devs@.len() - settled@.len(),
        {
            settled.push(false);
        }
        let mut i: usize = 0;
        while i < devs.len()
            invariant
                settled_ok(g, r, hosts@[hi as int]@, settled@),
                hi < hosts@.len(),
                i <= devs@.len(),
                g == devices_view(devs@),
                r == rows_view(rows@),
                f == fqdn@,
                ids_unique(g),
                graph_valid(g),
                forall|x: int| 0 <= x < hosts@.len() ==> hosts@[x]@ != f && has_host(r, #[trigger] hosts@[x]@),
                keys_unique(rows_view(out@)),
                forall|x: int|
                    0 <= x < out@.len() ==> kept_row(r, f, #[trigger] rows_view(out@)[x], r.len() as int)
                        || justified_virtual_row(g, r, f, rows_view(out@)[x]),
                forall|kk: int|
                    0 <= kk < r.len() && (r[kk].fqdn == f || r[kk].local) ==> #[trigger] rows_view(
                        out@,
                    ).contains(r[kk]),
                forall|hh: int, i: int|
                    0 <= hh < hi && 0 <= i < g.len() && visible(g, r, hosts@[hh]@, i) ==> #[trigger] has_row(
                        rows_view(out@),
                        g[i].id,
                        hosts@[hh]@,
                    ),
                forall|ii: int|
                    0 <= ii < i && visible(g, r, hosts@[hi as int]@, ii) ==> #[trigger] has_row(
                        rows_view(out@),
                        g[ii].id,
                        hosts@[hi as int]@,
                    ),
            decreases devs@.len() - i,
        {
            assert(g[i as int] == devs@[i as int]@);
            let ghost before = rows_view(out@);
            if !row_present(&out, &devs[i].id, &hosts[hi]) && visible_at(devs, rows, &hosts[hi], i, &mut settled) {
                let row = DeviceHost { device_id: devs[i].id.clone(), fqdn: hosts[hi].clone(), local: false };
                proof {
                    lemma_push_rows(before, row@);
                    assert(has_host(r, hosts@[hi as int]@));
                }
                out.push(row);
                assert(rows_view(out@) == before.push(row@));
                proof {
                    assert forall|x: int| 0 <= x < out@.len() implies kept_row(r, f, #[trigger] rows_view(out@)[x], r.len() as int)
                        || justified_virtual_row(g, r, f, rows_view(out@)[x]) by {
                        if x < before.len() {
                            assert(rows_view(out@)[x] == before[x]);
                        } else {
                            assert(rows_view(out@)[x] == row@);
                            assert(g[i as int].id == row@.device_id);
                        }
                    }
                }
            }
            i = i + 1;
        }
        hi = hi + 1;
    }
    proof {
        let ov = rows_view(out@);
        assert forall|d: Seq<char>, h: Seq<char>| #[trigger] has_row(ov, d, h) implies expected_row(g, r, f, d, h) by {
            let x = choose|x: int| 0 <= x < ov.len() && #[trigger] ov[x].device_id == d && ov[x].fqdn == h;
            if kept_row(r, f, ov[x], r.len() as int) {
                let kk = choose|kk: int|
                    0 <= kk < r.len() && kk < r.len() && #[trigger] r[kk] == ov[x] && (ov[x].fqdn == f || ov[x].local);
                assert(r[kk].device_id == d);
            } else {
                assert(justified_virtual_row(g, r, f, ov[x]));
            }
        }
        assert forall|d: Seq<char>, h: Seq<char>| expected_row(g, r, f, d, h) implies #[trigger] has_row(ov, d, h) by {
            if h == f {
                let kk = choose|kk: int| 0 <= kk < r.len() && #[trigger] r[kk].device_id == d && r[kk].fqdn == h;
                assert(ov.contains(r[kk]));
                let x = choose|x: int| 0 <= x < ov.len() && ov[x] == r[kk];
                assert(ov[x].device_id == d);
            } else if has_local_row(r, d, h) {
                let kk = choose|kk: int| 0 <= kk < r.len() && #[trigger] r[kk].device_id == d && r[kk].fqdn == h && r[kk].local;
                assert(ov.contains(r[kk]));
                let x = choose|x: int| 0 <= x < ov.len() && ov[x] == r[kk];
                assert(ov[x].device_id == d);
            } else {
                let i = choose|i: int| 0 <= i < g.len() && #[trigger] g[i].id == d && visible(g, r, h, i);
                assert(strs_view(hosts@).contains(h));
                let hh = choose|hh: int| 0 <= hh < strs_view(hosts@).len() && strs_view(hosts@)[hh] == h;
                assert(hosts@[hh]@ == h);
                assert(has_row(ov, g[i].id, hosts@[hh]@));
            }
        }
        assert forall|d: Seq<char>, h: Seq<char>| #[trigger] has_local_row(ov, d, h) == has_local_row(r, d, h) by {
            if has_local_row(ov, d, h) {
                let x = choose|x: int| 0 <= x < ov.len() && #[trigger] ov[x].device_id == d && ov[x].fqdn == h && ov[x].local;
                assert(kept_row(r, f, ov[x], r.len() as int));
                let kk = choose|kk: int|
                    0 <= kk < r.len() && kk < r.len() && #[trigger] r[kk] == ov[x] && (ov[x].fqdn == f || ov[x].local);
                assert(r[kk].device_id == d);
            }
            if has_local_row(r, d, h) {
                let kk = choose|kk: int| 0 <= kk < r.len() && #[trigger] r[kk].device_id == d && r[kk].fqdn == h && r[kk].local;
                assert(ov.contains(r[kk]));
                let x = choose|x: int| 0 <= x < ov.len() && ov[x] == r[kk];
                assert(ov[x].device_id == d);
            }
        }
    }
    out
}

/// `out` is the corrected row set of a pass for host `f` over the merged
/// devices `g` and rows `r`: keys are unique, a row exists exactly where
/// `expected_row` says, the local rows are those of `r`, and every row of `f`
/// and every local row of `r` is kept as it is.
pub open spec fn corrected_rows(
    g: Seq<DeviceV>,
    r: Seq<DeviceHostV>,
    f: Seq<char>,
    out: Seq<DeviceHostV>,
) -> bool {
    &&& keys_unique(out)
    &&& forall|d: Seq<char>, h: Seq<char>| #[trigger] has_row(out, d, h) == expected_row(g, r, f, d, h)
    &&& forall|d: Seq<char>, h: Seq<char>| #[trigger] has_local_row(out, d, h) == has_local_row(r, d, h)
    &&& forall|k: int|
        0 <= k < r.len() && (r[k].fqdn == f || r[k].local) ==> #[trigger] out.contains(r[k])
}

/// The rows of a pass before reconciliation: the persisted rows with those
/// of `f` replaced by its report.
pub open spec fn merged_rows(
    f: Seq<char>,
    inc_rows: Seq<DeviceHostV>,
    db_rows: Seq<DeviceHostV>,
) -> Seq<DeviceHostV> {
    replaced_rows(f, inc_rows, db_rows)
}

/// The devices of a pass before reconciliation.
pub open spec fn merged_devices(
    f: Seq<char>,
    inc_devs: Seq<DeviceV>,
    inc_rows: Seq<DeviceHostV>,
    db_devs: Seq<DeviceV>,
    db_rows: Seq<DeviceHostV>,
) -> Seq<DeviceV> {
    settled_devices(inc_devs, replaced_rows(f, inc_rows, db_rows), union_devices(inc_devs, db_devs))
}

/// Rows that a pass keeps as they are: those of `f`, and local ones.
pub open spec fn carried(f: Seq<char>) -> spec_fn(DeviceHostV) -> bool {
    |x: DeviceHostV| x.fqdn == f || x.local
}

/// The rows of `rows` that a pass keeps as they are, in order.
pub fn carried_rows(fqdn: &String, rows: &Vec<DeviceHost>) -> (out: Vec<DeviceHost>)
    ensures
        rows_view(out@) == rows_view(rows@).filter(carried(fqdn@)),
{
    let ghost rv = rows_view(rows@);
    let ghost p = carried(fqdn@);
    let mut out: Vec<DeviceHost> = Vec::new();
    assert(rv.take(0).filter(p) =~= Seq::<DeviceHostV>::empty()) by {
        reveal(Seq::filter);
    }
    let mut k: usize = 0;
    while k < rows.len()
        invariant
            k <= rows@.len(),
            rv == rows_view(rows@),
            p == carried(fqdn@),
            rows_view(out@) == rv.take(k as int).filter(p),
        decreases rows@.len() - k,
    {
        let ghost before = rows_view(out@);
        assert(rv[k as int] == rows@[k as int]@);
        assert(rv.take(k + 1) == rv.take(k as int).push(rv[k as int]));
        proof {
            rv.take(k as int).lemma_filter_push(rv[k as int], p);
        }
        if rows[k].fqdn == *fqdn || rows[k].local {
            let row = copy_row(&rows[k]);
            out.push(row);
            assert(rows_view(out@) =~= before.push(row@));
        }
        k = k + 1;
    }
    assert(rv.take(k as int) == rv);
    out
}

/// Whether every row names a device of `devs`.
pub fn check_rows_named(rows: &Vec<DeviceHost>, devs: &Vec<Device>) -> (r: bool)
    ensures
        r == rows_named(rows_view(rows@), devices_view(devs@)),
{
    let ghost rv = rows_view(rows@);
    let mut k: usize = 0;
    while k < rows.len()
        invariant
            k <= rows@.len(),
            rv == rows_view(rows@),
            forall|x: int| 0 <= x < k ==> #[trigger] has_device(devices_view(devs@), rv[x].device_id),
        decreases rows@.len() - k,
    {
        assert(rv[k as int] == rows@[k as int]@);
        if find_device(devs, &rows[k].device_id).is_none() {
            assert(!has_device(devices_view(devs@), rv[k as int].device_id));
            return false;
        }
        k = k + 1;
    }
    true
}

/// The devices a pass propagates among: the merged devices (with depths
/// recomputed) that are reported, named by a row of the reporter or by a
/// local row, or an ancestor of such a device.
pub open spec fn supported_devices(
    inc: Seq<DeviceV>,
    r: Seq<DeviceHostV>,
    f: Seq<char>,
    g: Seq<DeviceV>,
) -> Seq<DeviceV> {
    g.filter(still_needed(inc, r.filter(carried(f)), g))
}

/// `devs` and `rows` are what a pass for host `f` yields from the merged
/// devices `g` and rows `r`: the depths recomputed (`g2`), the devices cut
/// to those supported (`g3`), the rows corrected over `g3`, and the devices
/// of `g3` still needed by the corrected rows.
pub open spec fn reconciled_from(
    inc: Seq<DeviceV>,
    r: Seq<DeviceHostV>,
    f: Seq<char>,
    g: Seq<DeviceV>,
    devs: Seq<DeviceV>,
    rows: Seq<DeviceHostV>,
) -> bool {
    exists|g2: Seq<DeviceV>|
        {
            let g3 = supported_devices(inc, r, f, g2);
            &&& #[trigger] same_shape(g2, g)
            &&& depths_consistent(g2)
            &&& ids_unique(g2)
            &&& graph_valid(g3)
            &&& ids_unique(g3)
            &&& corrected_rows(g3, r, f, rows)
            &&& devs == g3.filter(still_needed(inc, rows, g3))
        }
}

/// The corrected global state after host `fqdn` reported `incoming_devices`
/// and `incoming_device_hosts`.
///
/// The report is merged into the persisted state (`merge_state`). If a
/// parent id of the merged graph names no device, the parent relation has a
/// cycle, or a merged row names no device, the call fails with
/// `InvalidInput`. Otherwise every depth is recomputed (0 for a root, else
/// one more than the deepest parent), and devices that no report, no row of
/// the reporter and no local row anchors, directly or as an ancestor, are
/// dropped with their propagated rows. The rows of `fqdn` and all local rows
/// stay as they are, and for every other known host a propagated row exists
/// exactly for the remaining devices visible there (see `visible`) that it
/// does not report itself. Every returned row names a returned device.
pub fn build_new_state(
    fqdn: &String,
    incoming_devices: &Vec<Device>,
    incoming_device_hosts: &Vec<DeviceHost>,
    db_devices: &Vec<Device>,
    db_device_hosts: &Vec<DeviceHost>,
) -> (result: Result<(Vec<Device>, Vec<DeviceHost>), ReconcileError>)
    requires
        ids_unique(devices_view(incoming_devices@)),
        ids_unique(devices_view(db_devices@)),
        keys_unique(rows_view(incoming_device_hosts@)),
        keys_unique(rows_view(db_device_hosts@)),
    ensures
        ({
            let inc = devices_view(incoming_devices@);
            let g = merged_devices(
                fqdn@,
                inc,
                rows_view(incoming_device_hosts@),
                devices_view(db_devices@),
                rows_view(db_device_hosts@),
            );
            let r = merged_rows(fqdn@, rows_view(incoming_device_hosts@), rows_view(db_device_hosts@));
            &&& result is Err <==> (!parents_exist(g) || has_cycle(g) || !rows_named(r, g))
            &&& match result {
                Err(e) => e == ReconcileError::InvalidInput,
                Ok((devs, rows)) => {
                    &&& depths_consistent(devices_view(devs@))
                    &&& ids_unique(devices_view(devs@))
                    &&& rows_named(rows_view(rows@), devices_view(devs@))
                    &&& reconciled_from(inc, r, fqdn@, g, devices_view(devs@), rows_view(rows@))
                },
            }
        }),
{
    let (devices, rows) = merge_state(
        fqdn,
        incoming_devices,
        incoming_device_hosts,
        db_devices,
        db_device_hosts,
    );
    let ghost g = devices_view(devices@);
    let devices = match compute_depths(&devices) {
        Err(e) => {
            return Err(e);
        },
        Ok(d) => d,
    };
    let ghost g2 = devices_view(devices@);
    proof {
        assert forall|d: Seq<char>| #[trigger] has_device(g2, d) == has_device(g, d) by {
            if has_device(g2, d) {
                let i = choose|i: int| 0 <= i < g2.len() && #[trigger] g2[i].id == d;
                assert(g[i].id == g2[i].id);
            }
            if has_device(g, d) {
                let i = choose|i: int| 0 <= i < g.len() && #[trigger] g[i].id == d;
                assert(g[i].id == g2[i].id);
            }
        }
    }
    if !check_rows_named(&rows, &devices) {
        proof {
            let rv = rows_view(rows@);
            let k = choose|k: int| 0 <= k < rv.len() && !#[trigger] has_device(g2, rv[k].device_id);
            assert(!has_device(g, rv[k].device_id));
        }
        return Err(ReconcileError::InvalidInput);
    }
    proof {
        let rv = rows_view(rows@);
        assert forall|k: int| 0 <= k < rv.len() implies #[trigger] has_device(g, rv[k].device_id) by {
            assert(has_device(g2, rv[k].device_id));
        }
    }
    let kept = carried_rows(fqdn, &rows);
    let supported = prune_unneeded(incoming_devices, &kept, &devices);
    let ghost g3 = devices_view(supported@);
    proof {
        lemma_needed_closed(devices_view(incoming_devices@), rows_view(kept@), g2);
        crate::narrowing::lemma_closed_sublist_valid(g3, g2);
        lemma_closed_depths_consistent(g3, g2);
    }
    let new_rows = reconcile_rows(fqdn, &supported, &rows);
    let new_devices = prune_unneeded(incoming_devices, &new_rows, &supported);
    proof {
        lemma_needed_closed(devices_view(incoming_devices@), rows_view(new_rows@), g3);
        lemma_closed_depths_consistent(devices_view(new_devices@), g3);
        lemma_output_rows_named(
            devices_view(incoming_devices@),
            rows_view(rows@),
            fqdn@,
            g2,
            rows_view(new_rows@),
        );
        assert(same_shape(g2, g));
    }
    Ok((new_devices, new_rows))
}

/// Every row of a corrected state names one of the devices the pass keeps.
pub proof fn lemma_output_rows_named(
    inc: Seq<DeviceV>,
    r: Seq<DeviceHostV>,
    f: Seq<char>,
    g2: Seq<DeviceV>,
    out: Seq<DeviceHostV>,
)
    requires
        rows_named(r, g2),
        ids_unique(g2),
        corrected_rows(supported_devices(inc, r, f, g2), r, f, out),
    ensures
        ({
            let g3 = supported_devices(inc, r, f, g2);
            rows_named(out, g3.filter(still_needed(inc, out, g3)))
        }),
{
    let kr = r.filter(carried(f));
    let g3 = supported_devices(inc, r, f, g2);
    let sn2 = still_needed(inc, kr, g2);
    let sn3 = still_needed(inc, out, g3);
    assert forall|k: int| 0 <= k < out.len() implies #[trigger] has_device(g3.filter(sn3), out[k].device_id) by {
        let d = out[k].device_id;
        let h = out[k].fqdn;
        assert(has_row(out, d, h));
        assert(expected_row(g3, r, f, d, h));
        let x: int = if exists|x: int| 0 <= x < g3.len() && #[trigger] g3[x].id == d {
            choose|x: int| 0 <= x < g3.len() && #[trigger] g3[x].id == d
        } else {
            -1
        };
        if x < 0 {
            // the row is a kept row of `r`
            let kk: int = if h == f {
                choose|kk: int| 0 <= kk < r.len() && #[trigger] r[kk].device_id == d && r[kk].fqdn == h
            } else {
                choose|kk: int| 0 <= kk < r.len() && #[trigger] r[kk].device_id == d && r[kk].fqdn == h && r[kk].local
            };
            assert(carried(f)(r[kk]));
            r.lemma_filter_contains(carried(f), kk);
            let m = choose|m: int| 0 <= m < kr.len() && kr[m] == r[kk];
            assert(has_any_row(kr, d));
            assert(has_device(g2, r[kk].device_id));
            let i = choose|i: int| 0 <= i < g2.len() && #[trigger] g2[i].id == d;
            assert(sn2(g2[i]));
            g2.lemma_filter_contains(sn2, i);
            let y = choose|y: int| 0 <= y < g3.len() && g3[y] == g2[i];
            assert(g3[y].id == d);
            assert(false);
        }
        assert(has_any_row(out, d));
        assert(sn3(g3[x]));
        g3.lemma_filter_contains(sn3, x);
        let z = choose|z: int| 0 <= z < g3.filter(sn3).len() && g3.filter(sn3)[z] == g3[x];
        assert(g3.filter(sn3)[z].id == d);
    }
}

/// The devices a pass keeps hold every parent of their members.
pub proof fn lemma_needed_closed(inc: Seq<DeviceV>, rows: Seq<DeviceHostV>, g: Seq<DeviceV>)
    requires
        ids_unique(g),
    ensures
        closed_sublist(g.filter(still_needed(inc, rows, g)), g),
{
    let sn = still_needed(inc, rows, g);
    let s = g.filter(sn);
    assert forall|x: int| 0 <= x < s.len() implies g.contains(#[trigger] s[x]) by {
        assert(s.contains(s[x]));
        g.lemma_filter_contains_rev(sn, s[x]);
    }
    assert forall|x: int, j: int|
        0 <= x < s.len() && 0 <= j < g.len() && #[trigger] s[x].parent_ids.contains(#[trigger] g[j].id)
        implies s.contains(g[j]) by {
        assert(s.contains(s[x]));
        g.lemma_filter_contains_rev(sn, s[x]);
        let i = choose|i: int| 0 <= i < g.len() && g[i] == s[x];
        g.lemma_filter_pred(sn, x);
        assert(is_parent(g, j, i));
        crate::graph::lemma_parent_is_ancestor(g, j, i);
        if anchored(inc, rows, g[i]) {
            assert(g[j].id == g[j].id && is_ancestor(g, j, i));
        } else {
            let (a0, k) = choose|a0: int, k: int|
                0 <= a0 < g.len() && #[trigger] g[a0].id == g[i].id && #[trigger] is_ancestor(g, a0, k)
                    && anchored(inc, rows, g[k]);
            assert(a0 == i);
            crate::graph::lemma_ancestor_extend(g, j, i, k);
        }
        assert(sn(g[j]));
        g.lemma_filter_contains(sn, j);
    }
}

/// A sub-list that holds every parent of its members keeps consistent
/// depths.
pub proof fn lemma_closed_depths_consistent(s: Seq<DeviceV>, g: Seq<DeviceV>)
    requires
        closed_sublist(s, g),
        depths_consistent(g),
        ids_unique(g),
    ensures
        depths_consistent(s),
{
    assert forall|x: int, k: int| 0 <= x < s.len() && 0 <= k < s[x].parent_ids.len() implies #[trigger] has_device(s, s[x].parent_ids[k]) by {
        assert(g.contains(s[x]));
        let i = choose|i: int| 0 <= i < g.len() && g[i] == s[x];
        assert(has_device(g, g[i].parent_ids[k]));
        let j = choose|j: int| 0 <= j < g.len() && #[trigger] g[j].id == g[i].parent_ids[k];
        assert(s[x].parent_ids.contains(g[j].id));
        let y = choose|y: int| 0 <= y < s.len() && s[y] == g[j];
        assert(s[y].id == s[x].parent_ids[k]);
    }
    assert forall|x: int, y: int| 0 <= x < s.len() && 0 <= y < s.len() && #[trigger] is_parent(s, y, x) implies s[y].max_depth < s[x].max_depth by {
        assert(g.contains(s[x]));
        let i = choose|i: int| 0 <= i < g.len() && g[i] == s[x];
        assert(g.contains(s[y]));
        let j = choose|j: int| 0 <= j < g.len() && g[j] == s[y];
        assert(is_parent(g, j, i));
    }
    assert forall|x: int| 0 <= x < s.len() && s[x].parent_ids.len() > 0 implies exists|y: int|
        0 <= y < s.len() && #[trigger] is_parent(s, y, x) && s[y].max_depth + 1 == s[x].max_depth by {
        assert(g.contains(s[x]));
        let i = choose|i: int| 0 <= i < g.len() && g[i] == s[x];
        let j = choose|j: int| 0 <= j < g.len() && #[trigger] is_parent(g, j, i) && g[j].max_depth + 1 == g[i].max_depth;
        let k = choose|k: int| 0 <= k < g[i].parent_ids.len() && g[i].parent_ids[k] == g[j].id;
        assert(s[x].parent_ids.contains(g[j].id));
        let y = choose|y: int| 0 <= y < s.len() && s[y] == g[j];
        assert(is_parent(s, y, x));
    }
    assert forall|x: int| 0 <= x < s.len() && s[x].parent_ids.len() == 0 implies #[trigger] s[x].max_depth == 0 by {
        assert(g.contains(s[x]));
        let i = choose|i: int| 0 <= i < g.len() && g[i] == s[x];
    }
}

/// A propagated row never stands without its justification: when a host
/// other than the reporter has a row for a device that it does not report
/// itself, it has a row for every ancestor of that device too.
pub proof fn lemma_propagated_rows_have_ancestors(
    g: Seq<DeviceV>,
    r: Seq<DeviceHostV>,
    f: Seq<char>,
    out: Seq<DeviceHostV>,
    h: Seq<char>,
    i: int,
    a: int,
)
    requires
        graph_valid(g),
        ids_unique(g),
        corrected_rows(g, r, f, out),
        0 <= i < g.len(),
        h != f,
        has_row(out, g[i].id, h),
        !has_local_row(out, g[i].id, h),
        is_ancestor(g, a, i),
    ensures
        has_row(out, g[a].id, h),
{
    assert(expected_row(g, r, f, g[i].id, h));
    assert(!has_local_row(r, g[i].id, h));
    let j = choose|j: int| 0 <= j < g.len() && #[trigger] g[j].id == g[i].id && visible(g, r, h, j);
    assert(j == i);
    lemma_visible_fuel(g, r, h, i, (g[i].max_depth + 1) as nat);
    crate::graph::lemma_ancestor_cases(g, a, i);
    assert(visible(g, r, h, a));
    assert(expected_row(g, r, f, g[a].id, h));
}

/// Retraction: in the state after host `f` reported only local rows of its
/// own, no host keeps a propagated row for a device once it has no row for
/// one of the device's ancestors. `g` is the merged graph with its depths
/// recomputed, as `build_new_state` states it.
pub proof fn lemma_retraction(
    f: Seq<char>,
    inc_rows: Seq<DeviceHostV>,
    db_rows: Seq<DeviceHostV>,
    g: Seq<DeviceV>,
    out: Seq<DeviceHostV>,
    h: Seq<char>,
    i: int,
    a: int,
)
    requires
        graph_valid(g),
        ids_unique(g),
        corrected_rows(g, merged_rows(f, inc_rows, db_rows), f, out),
        0 <= i < g.len(),
        is_ancestor(g, a, i),
        !has_row(out, g[a].id, h),
        forall|k: int| 0 <= k < inc_rows.len() ==> #[trigger] inc_rows[k].fqdn == f && inc_rows[k].local,
    ensures
        !(has_row(out, g[i].id, h) && !has_local_row(out, g[i].id, h)),
{
    let r = merged_rows(f, inc_rows, db_rows);
    if has_row(out, g[i].id, h) && !has_local_row(out, g[i].id, h) {
        if h == f {
            assert(has_row(r, g[i].id, h));
            let k = choose|k: int| 0 <= k < r.len() && #[trigger] r[k].device_id == g[i].id && r[k].fqdn == h;
            let dbf = db_rows.filter(not_replaced(f, inc_rows));
            if k < dbf.len() {
                db_rows.lemma_filter_pred(not_replaced(f, inc_rows), k);
                assert(r[k] == dbf[k]);
            } else {
                assert(r[k] == inc_rows[k - dbf.len()]);
                assert(has_local_row(r, g[i].id, h));
            }
        } else {
            lemma_propagated_rows_have_ancestors(g, r, f, out, h, i, a);
        }
    }
}

/// Reports do not interfere across hosts: after host `f` reported rows of
/// its own only, the local rows of every other host are exactly those that
/// were persisted.
pub proof fn lemma_other_hosts_local_rows_kept(
    f: Seq<char>,
    inc_rows: Seq<DeviceHostV>,
    db_rows: Seq<DeviceHostV>,
    g: Seq<DeviceV>,
    out: Seq<DeviceHostV>,
)
    requires
        corrected_rows(g, merged_rows(f, inc_rows, db_rows), f, out),
        forall|k: int| 0 <= k < inc_rows.len() ==> #[trigger] inc_rows[k].fqdn == f,
    ensures
        forall|k: int|
            0 <= k < db_rows.len() && db_rows[k].fqdn != f && db_rows[k].local ==> #[trigger] out.contains(db_rows[k]),
        forall|y: DeviceHostV| #[trigger] out.contains(y) && y.fqdn != f && y.local ==> db_rows.contains(y),
{
    let r = merged_rows(f, inc_rows, db_rows);
    let p = not_replaced(f, inc_rows);
    let dbf = db_rows.filter(p);
    assert forall|k: int|
        0 <= k < db_rows.len() && db_rows[k].fqdn != f && db_rows[k].local implies #[trigger] out.contains(db_rows[k]) by {
        if has_row(inc_rows, db_rows[k].device_id, db_rows[k].fqdn) {
            let x = choose|x: int| 0 <= x < inc_rows.len() && #[trigger] inc_rows[x].device_id == db_rows[k].device_id && inc_rows[x].fqdn == db_rows[k].fqdn;
            assert(inc_rows[x].fqdn == f);
        }
        db_rows.lemma_filter_contains(p, k);
        let x = choose|x: int| 0 <= x < dbf.len() && dbf[x] == db_rows[k];
        assert(r[x] == db_rows[k]);
    }
    assert forall|y: DeviceHostV| #[trigger] out.contains(y) && y.fqdn != f && y.local implies db_rows.contains(y) by {
        let x = choose|x: int| 0 <= x < out.len() && out[x] == y;
        assert(has_local_row(out, y.device_id, y.fqdn));
        assert(has_local_row(r, y.device_id, y.fqdn));
        let k = choose|k: int| 0 <= k < r.len() && #[trigger] r[k].device_id == y.device_id && r[k].fqdn == y.fqdn && r[k].local;
        assert(out.contains(r[k]));
        let z = choose|z: int| 0 <= z < out.len() && out[z] == r[k];
        assert(out[z].device_id == out[x].device_id);
        assert(z == x);
        if k < dbf.len() {
            assert(r[k] == dbf[k]);
            assert(dbf.contains(dbf[k]));
            db_rows.lemma_filter_contains_rev(p, dbf[k]);
        } else {
            assert(r[k] == inc_rows[k - dbf.len()]);
        }
    }
}

/// The device is reported, or some row names it.
pub open spec fn anchored(inc: Seq<DeviceV>, rows: Seq<DeviceHostV>, x: DeviceV) -> bool {
    has_device(inc, x.id) || has_any_row(rows, x.id)
}

/// A device of `g` stays in the corrected state while it is anchored or is
/// an ancestor of an anchored device.
pub open spec fn still_needed(
    inc: Seq<DeviceV>,
    rows: Seq<DeviceHostV>,
    g: Seq<DeviceV>,
) -> spec_fn(DeviceV) -> bool {
    |x: DeviceV|
        anchored(inc, rows, x) || exists|a: int, j: int|
            0 <= a < g.len() && #[trigger] g[a].id == x.id && #[trigger] is_ancestor(g, a, j)
                && anchored(inc, rows, g[j])
}

/// Keeps, in order, the devices of `devs` that are still needed.
pub fn prune_unneeded(incoming: &Vec<Device>, rows: &Vec<DeviceHost>, devs: &Vec<Device>) -> (out: Vec<
    Device,
>)
    requires
        ids_unique(devices_view(devs@)),
        graph_valid(devices_view(devs@)),
    ensures
        devices_view(out@) == devices_view(devs@).filter(
            still_needed(devices_view(incoming@), rows_view(rows@), devices_view(devs@)),
        ),
        ids_unique(devices_view(out@)),
{
    let ghost g = devices_view(devs@);
    let ghost inc = devices_view(incoming@);
    let ghost rv = rows_view(rows@);
    let ghost p = still_needed(inc, rv, g);
    let mut out: Vec<Device> = Vec::new();
    let mut k: usize = 0;
    while k < devs.len()
        invariant
            k <= devs@.len(),
            g == devices_view(devs@),
            inc == devices_view(incoming@),
            rv == rows_view(rows@),
            p == still_needed(inc, rv, g),
            ids_unique(g),
            graph_valid(g),
            devices_view(out@) == g.take(k as int).filter(p),
            ids_unique(devices_view(out@)),
        decreases devs@.len() - k,
    {
        let ghost before = devices_view(out@);
        assert(g[k as int] == devs@[k as int]@);
        assert(g.take(k + 1) == g.take(k as int).push(g[k as int]));
        proof {
            g.take(k as int).lemma_filter_push(g[k as int], p);
        }
        let mut keep = find_device(incoming, &devs[k].id).is_some() || device_has_row(rows, &devs[k].id);
        let mut j: usize = 0;
        while !keep && j < devs.len()
            invariant
                k < devs@.len(),
                j <= devs@.len(),
                g == devices_view(devs@),
                ids_unique(g),
                graph_valid(g),
                inc == devices_view(incoming@),
                rv == rows_view(rows@),
                p == still_needed(inc, rv, g),
                keep ==> p(g[k as int]),
                !keep ==> !anchored(inc, rv, g[k as int]),
                !keep ==> forall|jj: int|
                    0 <= jj < j ==> !(#[trigger] is_ancestor(g, k as int, jj) && anchored(inc, rv, g[jj])),
            decreases devs@.len() - j,
        {
            assert(g[j as int] == devs@[j as int]@);
            if (find_device(incoming, &devs[j].id).is_some() || device_has_row(rows, &devs[j].id))
                && ancestor_at(devs, k, j) {
                proof {
                    assert(anchored(inc, rv, g[j as int]));
                    assert(g[k as int].id == g[k as int].id && is_ancestor(g, k as int, j as int));
                }
                keep = true;
            }
            j = j + 1;
        }
        proof {
            if !keep {
                assert forall|a: int, jj: int|
                    0 <= a < g.len() && #[trigger] g[a].id == g[k as int].id && #[trigger] is_ancestor(g, a, jj)
                    implies !anchored(inc, rv, g[jj]) by {
                    assert(a == k);
                    crate::graph::lemma_ancestor_shallower(g, a, jj);
                }
            }
        }
        assert(keep == p(g[k as int]));
        if keep {
            let d = copy_device(&devs[k]);
            proof {
                crate::merge::lemma_push_devices(before, d@);
                if has_device(before, d@.id) {
                    let x = choose|x: int| 0 <= x < before.len() && #[trigger] before[x].id == d@.id;
                    assert(before.contains(before[x]));
                    g.take(k as int).lemma_filter_contains_rev(p, before[x]);
                    let jj = choose|jj: int| 0 <= jj < k && g.take(k as int)[jj] == before[x];
                    assert(g[jj].id == g[k as int].id);
                }
            }
            out.push(d);
            assert(devices_view(out@) =~= before.push(d@));
        }
        k = k + 1;
    }
    assert(g.take(k as int) == g);
    out
}

/// Re-applying a report of host `f` (whose rows are all keyed by `f`) to the
/// state it produced leaves the rows of `f` and every local row as they were.
pub proof fn lemma_reapplied_report_keeps_reported_and_local_rows(
    f: Seq<char>,
    inc_devs: Seq<DeviceV>,
    inc_rows: Seq<DeviceHostV>,
    db_devs: Seq<DeviceV>,
    db_rows: Seq<DeviceHostV>,
    first_devs: Seq<DeviceV>,
    first_rows: Seq<DeviceHostV>,
    second_rows: Seq<DeviceHostV>,
)
    requires
        forall|k: int| 0 <= k < inc_rows.len() ==> #[trigger] inc_rows[k].fqdn == f,
        corrected_rows(
            merged_devices(f, inc_devs, inc_rows, db_devs, db_rows),
            merged_rows(f, inc_rows, db_rows),
            f,
            first_rows,
        ),
        corrected_rows(
            merged_devices(f, inc_devs, inc_rows, first_devs, first_rows),
            merged_rows(f, inc_rows, first_rows),
            f,
            second_rows,
        ),
    ensures
        forall|d: Seq<char>, h: Seq<char>|
            #[trigger] has_local_row(second_rows, d, h) == has_local_row(first_rows, d, h),
        forall|d: Seq<char>| #[trigger] has_row(second_rows, d, f) == has_row(first_rows, d, f),
{
    crate::merge::lemma_replaced_rows_membership(f, inc_rows, db_rows);
    crate::merge::lemma_replaced_rows_membership(f, inc_rows, first_rows);
    assert forall|d: Seq<char>, h: Seq<char>| h != f implies !#[trigger] has_row(inc_rows, d, h) by {
        if has_row(inc_rows, d, h) {
            let k = choose|k: int| 0 <= k < inc_rows.len() && #[trigger] inc_rows[k].device_id == d && inc_rows[k].fqdn == h;
        }
    }
    assert forall|d: Seq<char>, h: Seq<char>|
        #[trigger] has_local_row(second_rows, d, h) == has_local_row(first_rows, d, h) by {
        if h != f {
            assert(!has_row(inc_rows, d, h));
            if has_local_row(inc_rows, d, h) {
                let k = choose|k: int| 0 <= k < inc_rows.len() && #[trigger] inc_rows[k].device_id == d && inc_rows[k].fqdn == h && inc_rows[k].local;
                assert(has_row(inc_rows, d, h));
            }
        }
    }
    assert forall|d: Seq<char>| #[trigger] has_row(second_rows, d, f) == has_row(first_rows, d, f) by {
        assert(expected_row(
            merged_devices(f, inc_devs, inc_rows, first_devs, first_rows),
            merged_rows(f, inc_rows, first_rows),
            f,
            d,
            f,
        ) == has_row(inc_rows, d, f));
        assert(expected_row(
            merged_devices(f, inc_devs, inc_rows, db_devs, db_rows),
            merged_rows(f, inc_rows, db_rows),
            f,
            d,
            f,
        ) == has_row(inc_rows, d, f));
    }
}

/// Depth monotonicity over a returned state: when a host other than the
/// reporter has a propagated row for a returned device, it has a row for
/// every ancestor of that device in the returned device list.
pub proof fn lemma_result_propagated_rows_have_ancestors(
    inc: Seq<DeviceV>,
    r: Seq<DeviceHostV>,
    f: Seq<char>,
    g: Seq<DeviceV>,
    devs: Seq<DeviceV>,
    rows: Seq<DeviceHostV>,
    h: Seq<char>,
    x: int,
    y: int,
)
    requires
        reconciled_from(inc, r, f, g, devs, rows),
        ids_unique(devs),
        0 <= x < devs.len(),
        h != f,
        has_row(rows, devs[x].id, h),
        !has_local_row(rows, devs[x].id, h),
        is_ancestor(devs, y, x),
    ensures
        has_row(rows, devs[y].id, h),
{
    let g2 = choose|g2: Seq<DeviceV>|
        {
            let g3 = supported_devices(inc, r, f, g2);
            &&& #[trigger] same_shape(g2, g)
            &&& depths_consistent(g2)
            &&& ids_unique(g2)
            &&& graph_valid(g3)
            &&& ids_unique(g3)
            &&& corrected_rows(g3, r, f, rows)
            &&& devs == g3.filter(still_needed(inc, rows, g3))
        };
    let g3 = supported_devices(inc, r, f, g2);
    lemma_needed_closed(inc, rows, g3);
    crate::graph::lemma_ancestor_cases(devs, y, x);
    assert(g3.contains(devs[x]));
    let i = choose|i: int| 0 <= i < g3.len() && g3[i] == devs[x];
    assert(g3.contains(devs[y]));
    let a = choose|a: int| 0 <= a < g3.len() && g3[a] == devs[y];
    crate::narrowing::lemma_sublist_ancestor(devs, g3, x, i, y, a);
    lemma_propagated_rows_have_ancestors(g3, r, f, rows, h, i, a);
}

/// Retraction over a returned state: after host `f` reported only local
/// rows of its own, no host keeps a propagated row for a returned device
/// once it has no row for one of the device's ancestors in the returned
/// device list.
pub proof fn lemma_result_retraction(
    inc: Seq<DeviceV>,
    inc_rows: Seq<DeviceHostV>,
    db_rows: Seq<DeviceHostV>,
    f: Seq<char>,
    g: Seq<DeviceV>,
    devs: Seq<DeviceV>,
    rows: Seq<DeviceHostV>,
    h: Seq<char>,
    x: int,
    y: int,
)
    requires
        reconciled_from(inc, merged_rows(f, inc_rows, db_rows), f, g, devs, rows),
        ids_unique(devs),
        0 <= x < devs.len(),
        is_ancestor(devs, y, x),
        !has_row(rows, devs[y].id, h),
        forall|k: int| 0 <= k < inc_rows.len() ==> #[trigger] inc_rows[k].fqdn == f && inc_rows[k].local,
    ensures
        !(has_row(rows, devs[x].id, h) && !has_local_row(rows, devs[x].id, h)),
{
    let g2 = choose|g2: Seq<DeviceV>|
        {
            let g3 = supported_devices(inc, merged_rows(f, inc_rows, db_rows), f, g2);
            &&& #[trigger] same_shape(g2, g)
            &&& depths_consistent(g2)
            &&& ids_unique(g2)
            &&& graph_valid(g3)
            &&& ids_unique(g3)
            &&& corrected_rows(g3, merged_rows(f, inc_rows, db_rows), f, rows)
            &&& devs == g3.filter(still_needed(inc, rows, g3))
        };
    let g3 = supported_devices(inc, merged_rows(f, inc_rows, db_rows), f, g2);
    lemma_needed_closed(inc, rows, g3);
    crate::graph::lemma_ancestor_cases(devs, y, x);
    assert(g3.contains(devs[x]));
    let i = choose|i: int| 0 <= i < g3.len() && g3[i] == devs[x];
    assert(g3.contains(devs[y]));
    let a = choose|a: int| 0 <= a < g3.len() && g3[a] == devs[y];
    crate::narrowing::lemma_sublist_ancestor(devs, g3, x, i, y, a);
    lemma_retraction(f, inc_rows, db_rows, g3, rows, h, i, a);
}

/// No cross-host interference over a returned state: after host `f`
/// reported rows of its own only, the local rows of every other host are
/// exactly those that were persisted.
pub proof fn lemma_result_other_hosts_local_rows_kept(
    inc: Seq<DeviceV>,
    inc_rows: Seq<DeviceHostV>,
    db_rows: Seq<DeviceHostV>,
    f: Seq<char>,
    g: Seq<DeviceV>,
    devs: Seq<DeviceV>,
    rows: Seq<DeviceHostV>,
)
    requires
        reconciled_from(inc, merged_rows(f, inc_rows, db_rows), f, g, devs, rows),
        forall|k: int| 0 <= k < inc_rows.len() ==> #[trigger] inc_rows[k].fqdn == f,
    ensures
        forall|k: int|
            0 <= k < db_rows.len() && db_rows[k].fqdn != f && db_rows[k].local ==> #[trigger] rows.contains(db_rows[k]),
        forall|y: DeviceHostV| #[trigger] rows.contains(y) && y.fqdn != f && y.local ==> db_rows.contains(y),
{
    let g2 = choose|g2: Seq<DeviceV>|
        {
            let g3 = supported_devices(inc, merged_rows(f, inc_rows, db_rows), f, g2);
            &&& #[trigger] same_shape(g2, g)
            &&& depths_consistent(g2)
            &&& ids_unique(g2)
            &&& graph_valid(g3)
            &&& ids_unique(g3)
            &&& corrected_rows(g3, merged_rows(f, inc_rows, db_rows), f, rows)
            &&& devs == g3.filter(still_needed(inc, rows, g3))
        };
    let g3 = supported_devices(inc, merged_rows(f, inc_rows, db_rows), f, g2);
    lemma_other_hosts_local_rows_kept(f, inc_rows, db_rows, g3, rows);
}

} // verus!
