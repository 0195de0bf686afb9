//! Folding one host's report into the persisted state: the host's rows are
//! replaced by its report, devices are united with the report's winning,
//! and devices that nothing refers to any more are dropped.
use vstd::prelude::*;
use crate::model::{
    Device, DeviceHost, DeviceHostV, DeviceV, devices_view, rows_view, strs_view, has_device,
    has_row, has_any_row, keys_unique, ids_unique, referenced_as_parent, contains_str, copy_row,
    copy_device,
};
use crate::graph::{find_device, row_present};

verus! {

/// A device of the persisted state that the report does not describe again.
pub open spec fn not_reported(inc: Seq<DeviceV>) -> spec_fn(DeviceV) -> bool {
    |x: DeviceV| !has_device(inc, x.id)
}

/// A persisted row that the report of host `f` does not replace.
pub open spec fn not_replaced(f: Seq<char>, inc: Seq<DeviceHostV>) -> spec_fn(DeviceHostV) -> bool {
    |x: DeviceHostV| x.fqdn != f && !has_row(inc, x.device_id, x.fqdn)
}

/// Every reported device, then every persisted device that the report does
/// not describe.
pub open spec fn union_devices(inc: Seq<DeviceV>, db: Seq<DeviceV>) -> Seq<DeviceV> {
    inc + db.filter(not_reported(inc))
}

/// The persisted rows of other hosts that the report does not replace, then
/// every reported row.
pub open spec fn replaced_rows(
    f: Seq<char>,
    inc: Seq<DeviceHostV>,
    db: Seq<DeviceHostV>,
) -> Seq<DeviceHostV> {
    db.filter(not_replaced(f, inc)) + inc
}

/// A device stays while the report describes it, a row names it, or a
/// device of `all` lists it as a parent.
pub open spec fn still_referenced(
    inc: Seq<DeviceV>,
    rows: Seq<DeviceHostV>,
    all: Seq<DeviceV>,
) -> spec_fn(DeviceV) -> bool {
    |x: DeviceV| has_device(inc, x.id) || has_any_row(rows, x.id) || referenced_as_parent(all, x.id)
}

pub open spec fn pruned_devices(
    inc: Seq<DeviceV>,
    rows: Seq<DeviceHostV>,
    all: Seq<DeviceV>,
) -> Seq<DeviceV> {
    all.filter(still_referenced(inc, rows, all))
}

/// Prunes `all` again and again until a round drops nothing.
pub open spec fn settled_devices(
    inc: Seq<DeviceV>,
    rows: Seq<DeviceHostV>,
    all: Seq<DeviceV>,
) -> Seq<DeviceV>
    decreases all.len(),
{
    let next = pruned_devices(inc, rows, all);
    if next.len() < all.len() {
        settled_devices(inc, rows, next)
    } else {
        all
    }
}

pub proof fn lemma_push_devices(s: Seq<DeviceV>, x: DeviceV)
    ensures
        forall|id: Seq<char>| #[trigger] has_device(s.push(x), id) == (has_device(s, id) || id == x.id),
        ids_unique(s) && !has_device(s, x.id) ==> ids_unique(s.push(x)),
{
    assert(s.push(x)[s.len() as int] == x);
    assert forall|id: Seq<char>| #[trigger] has_device(s.push(x), id) == (has_device(s, id) || id == x.id) by {
        if has_device(s, id) {
            let i = choose|i: int| 0 <= i < s.len() && #[trigger] s[i].id == id;
            assert(s.push(x)[i] == s[i]);
        }
        if has_device(s.push(x), id) {
            let i = choose|i: int| 0 <= i < s.push(x).len() && #[trigger] s.push(x)[i].id == id;
            if i < s.len() {
                assert(s.push(x)[i] == s[i]);
            }
        }
    }
    if ids_unique(s) && !has_device(s, x.id) {
        assert forall|i: int, j: int|
            0 <= i < s.push(x).len() && 0 <= j < s.push(x).len() && #[trigger] s.push(x)[i].id
                == #[trigger] s.push(x)[j].id implies i == j by {
            if i < s.len() {
                assert(s.push(x)[i] == s[i]);
            }
            if j < s.len() {
                assert(s.push(x)[j] == s[j]);
            }
        }
    }
}

pub fn device_has_row(rows: &Vec<DeviceHost>, d: &String) -> (r: bool)
    ensures
        r == has_any_row(rows_view(rows@), d@),
{
    let ghost rv = rows_view(rows@);
    let mut k: usize = 0;
    while k < rows.len()
        invariant
            k <= rows@.len(),
            rv == rows_view(rows@),
            rv.len() == rows@.len(),
            forall|x: int| 0 <= x < k ==> rv[x].device_id != d@,
        decreases rows@.len() - k,
    {
        assert(rv[k as int] == rows@[k as int]@);
        if rows[k].device_id == *d {
            assert(rv[k as int].device_id == d@);
            return true;
        }
        k = k + 1;
    }
    false
}

pub fn is_referenced(devs: &Vec<Device>, id: &String) -> (r: bool)
    ensures
        r == referenced_as_parent(devices_view(devs@), id@),
{
    let ghost g = devices_view(devs@);
    let mut i: usize = 0;
    while i < devs.len()
        invariant
            i <= devs@.len(),
            g == devices_view(devs@),
            forall|x: int| 0 <= x < i ==> !g[x].parent_ids.contains(id@),
        decreases devs@.len() - i,
    {
        assert(g[i as int] == devs@[i as int]@);
        assert(g[i as int].parent_ids == strs_view(devs@[i as int].parent_ids@));
        if contains_str(&devs[i].parent_ids, id) {
            assert(g[i as int].parent_ids.contains(id@));
            return true;
        }
        i = i + 1;
    }
    false
}

/// Keeps, in order, the devices of `devs` that are still referenced.
pub fn prune_devices(incoming: &Vec<Device>, rows: &Vec<DeviceHost>, devs: &Vec<Device>) -> (out: Vec<
    Device,
>)
    ensures
        devices_view(out@) == pruned_devices(
            devices_view(incoming@),
            rows_view(rows@),
            devices_view(devs@),
        ),
        ids_unique(devices_view(devs@)) ==> ids_unique(devices_view(out@)),
{
    let ghost g = devices_view(devs@);
    let ghost p = still_referenced(devices_view(incoming@), rows_view(rows@), g);
    let mut out: Vec<Device> = Vec::new();
    let mut k: usize = 0;
    while k < devs.len()
        invariant
            k <= devs@.len(),
            g == devices_view(devs@),
            p == still_referenced(devices_view(incoming@), rows_view(rows@), g),
            devices_view(out@) == g.take(k as int).filter(p),
            ids_unique(g) ==> ids_unique(devices_view(out@)),
        decreases devs@.len() - k,
    {
        let ghost before = devices_view(out@);
        assert(g[k as int] == devs@[k as int]@);
        assert(g.take(k + 1) == g.take(k as int).push(g[k as int]));
        proof {
            g.take(k as int).lemma_filter_push(g[k as int], p);
        }
        let keep = find_device(incoming, &devs[k].id).is_some() || device_has_row(rows, &devs[k].id)
            || is_referenced(devs, &devs[k].id);
        assert(keep == p(g[k as int]));
        if keep {
            let d = copy_device(&devs[k]);
            proof {
                lemma_push_devices(before, d@);
                if ids_unique(g) && has_device(before, d@.id) {
                    let x = choose|x: int| 0 <= x < before.len() && #[trigger] before[x].id == d@.id;
                    assert(before.contains(before[x]));
                    g.take(k as int).lemma_filter_contains_rev(p, before[x]);
                    let j = choose|j: int| 0 <= j < k && g.take(k as int)[j] == before[x];
                    assert(g[j].id == g[k as int].id);
                }
            }
            out.push(d);
            assert(devices_view(out@) =~= before.push(d@));
        }
        k = k + 1;
    }
    assert(g.take(k as int) == g);
    out
}

/// Every reported device, then every persisted device that the report does
/// not describe.
pub fn union_of(incoming: &Vec<Device>, db: &Vec<Device>) -> (out: Vec<Device>)
    requires
        ids_unique(devices_view(incoming@)),
        ids_unique(devices_view(db@)),
    ensures
        devices_view(out@) == union_devices(devices_view(incoming@), devices_view(db@)),
        ids_unique(devices_view(out@)),
{
    let ghost inc = devices_view(incoming@);
    let ghost dbv = devices_view(db@);
    let ghost p = not_reported(inc);
    let mut out: Vec<Device> = Vec::new();
    let mut k: usize = 0;
    while k < incoming.len()
        invariant
            k <= incoming@.len(),
            inc == devices_view(incoming@),
            ids_unique(inc),
            devices_view(out@) == inc.take(k as int),
        decreases incoming@.len() - k,
    {
        assert(inc[k as int] == incoming@[k as int]@);
        let d = copy_device(&incoming[k]);
        let ghost bv = out@;
        out.push(d);
        assert(out@ == bv.push(d));
        assert(devices_view(out@) =~= devices_view(bv).push(d@));
        assert(devices_view(out@) =~= inc.take(k + 1));
        k = k + 1;
    }
    assert(inc.take(k as int) == inc);
    assert(inc.filter(p).len() == 0 || true);
    assert(dbv.take(0).filter(p) =~= Seq::<DeviceV>::empty()) by {
        reveal(Seq::filter);
    }
    assert(devices_view(out@) =~= inc + dbv.take(0).filter(p));
    let mut k: usize = 0;
    while k < db.len()
        invariant
            k <= db@.len(),
            inc == devices_view(incoming@),
            dbv == devices_view(db@),
            p == not_reported(inc),
            ids_unique(inc),
            ids_unique(dbv),
            devices_view(out@) == inc + dbv.take(k as int).filter(p),
            ids_unique(devices_view(out@)),
        decreases db@.len() - k,
    {
        let ghost before = devices_view(out@);
        assert(dbv[k as int] == db@[k as int]@);
        assert(dbv.take(k + 1) == dbv.take(k as int).push(dbv[k as int]));
        proof {
            dbv.take(k as int).lemma_filter_push(dbv[k as int], p);
        }
        if find_device(incoming, &db[k].id).is_none() {
            assert(p(dbv[k as int]));
            let d = copy_device(&db[k]);
            proof {
                lemma_push_devices(before, d@);
                if has_device(before, d@.id) {
                    let x = choose|x: int| 0 <= x < before.len() && #[trigger] before[x].id == d@.id;
                    if x < inc.len() {
                        assert(before[x] == inc[x]);
                        assert(has_device(inc, d@.id));
                    } else {
                        let fl = dbv.take(k as int).filter(p);
                        assert(before[x] == fl[x - inc.len()]);
                        assert(fl.contains(fl[x - inc.len()]));
                        dbv.take(k as int).lemma_filter_contains_rev(p, before[x]);
                        let j = choose|j: int| 0 <= j < k && dbv.take(k as int)[j] == before[x];
                        assert(dbv[j].id == dbv[k as int].id);
                    }
                }
            }
            out.push(d);
            assert(devices_view(out@) =~= before.push(d@));
            assert(devices_view(out@) =~= inc + dbv.take(k + 1).filter(p));
        } else {
            assert(!p(dbv[k as int]));
            assert(devices_view(out@) =~= inc + dbv.take(k + 1).filter(p));
        }
        k = k + 1;
    }
    assert(dbv.take(k as int) == dbv);
    out
}

/// The persisted rows of other hosts that the report does not replace, then
/// every reported row.
pub fn replace_rows(fqdn: &String, incoming: &Vec<DeviceHost>, db: &Vec<DeviceHost>) -> (out: Vec<
    DeviceHost,
>)
    requires
        keys_unique(rows_view(incoming@)),
        keys_unique(rows_view(db@)),
    ensures
        rows_view(out@) == replaced_rows(fqdn@, rows_view(incoming@), rows_view(db@)),
        keys_unique(rows_view(out@)),
{
    let ghost inc = rows_view(incoming@);
    let ghost dbv = rows_view(db@);
    let ghost p = not_replaced(fqdn@, inc);
    let mut out: Vec<DeviceHost> = Vec::new();
    assert(dbv.take(0).filter(p) =~= Seq::<DeviceHostV>::empty()) by {
        reveal(Seq::filter);
    }
    let mut k: usize = 0;
    while k < db.len()
        invariant
            k <= db@.len(),
            inc == rows_view(incoming@),
            dbv == rows_view(db@),
            p == not_replaced(fqdn@, inc),
            keys_unique(dbv),
            rows_view(out@) == dbv.take(k as int).filter(p),
            keys_unique(rows_view(out@)),
        decreases db@.len() - k,
    {
        let ghost before = rows_view(out@);
        assert(dbv[k as int] == db@[k as int]@);
        assert(dbv.take(k + 1) == dbv.take(k as int).push(dbv[k as int]));
        proof {
            dbv.take(k as int).lemma_filter_push(dbv[k as int], p);
        }
        let keep = db[k].fqdn != *fqdn && !row_present(incoming, &db[k].device_id, &db[k].fqdn);
        assert(keep == p(dbv[k as int]));
        if keep {
            let row = copy_row(&db[k]);
            proof {
                crate::reconcile::lemma_push_rows(before, row@);
                if has_row(before, row@.device_id, row@.fqdn) {
                    let x = choose|x: int|
                        0 <= x < before.len() && #[trigger] before[x].device_id == row@.device_id
                            && before[x].fqdn == row@.fqdn;
                    assert(before.contains(before[x]));
                    dbv.take(k as int).lemma_filter_contains_rev(p, before[x]);
                    let j = choose|j: int| 0 <= j < k && dbv.take(k as int)[j] == before[x];
                    assert(dbv[j].device_id == dbv[k as int].device_id);
                }
            }
            out.push(row);
            assert(rows_view(out@) =~= before.push(row@));
        }
        k = k + 1;
    }
    assert(dbv.take(k as int) == dbv);
    let ghost kept = rows_view(out@);
    assert(rows_view(out@) =~= kept + inc.take(0));
    let mut k: usize = 0;
    while k < incoming.len()
        invariant
            k <= incoming@.len(),
            inc == rows_view(incoming@),
            p == not_replaced(fqdn@, inc),
            keys_unique(inc),
            kept == dbv.filter(p),
            rows_view(out@) == kept + inc.take(k as int),
            keys_unique(rows_view(out@)),
        decreases incoming@.len() - k,
    {
        let ghost before = rows_view(out@);
        assert(inc[k as int] == incoming@[k as int]@);
        let row = copy_row(&incoming[k]);
        proof {
            crate::reconcile::lemma_push_rows(before, row@);
            if has_row(before, row@.device_id, row@.fqdn) {
                let x = choose|x: int|
                    0 <= x < before.len() && #[trigger] before[x].device_id == row@.device_id
                        && before[x].fqdn == row@.fqdn;
                if x < kept.len() {
                    assert(before[x] == kept[x]);
                    dbv.lemma_filter_pred(p, x);
                    assert(inc[k as int].device_id == row@.device_id);
                    assert(has_row(inc, before[x].device_id, before[x].fqdn));
                } else {
                    assert(before[x] == inc[x - kept.len()]);
                }
            }
        }
        out.push(row);
        assert(rows_view(out@) =~= before.push(row@));
        assert(rows_view(out@) =~= kept + inc.take(k + 1));
        k = k + 1;
    }
    assert(inc.take(k as int) == inc);
    out
}

/// Folds the report of host `fqdn` into the persisted state: the host's
/// persisted rows give way to the reported ones, the reported devices win
/// over persisted ones of the same id, and a persisted device that is not
/// reported, has no row left and is no remaining device's parent is dropped
/// (repeatedly, until nothing more goes).
pub fn merge_state(
    fqdn: &String,
    incoming_devices: &Vec<Device>,
    incoming_device_hosts: &Vec<DeviceHost>,
    db_devices: &Vec<Device>,
    db_device_hosts: &Vec<DeviceHost>,
) -> (r: (Vec<Device>, Vec<DeviceHost>))
    requires
        ids_unique(devices_view(incoming_devices@)),
        ids_unique(devices_view(db_devices@)),
        keys_unique(rows_view(incoming_device_hosts@)),
        keys_unique(rows_view(db_device_hosts@)),
    ensures
        rows_view(r.1@) == replaced_rows(
            fqdn@,
            rows_view(incoming_device_hosts@),
            rows_view(db_device_hosts@),
        ),
        devices_view(r.0@) == settled_devices(
            devices_view(incoming_devices@),
            rows_view(r.1@),
            union_devices(devices_view(incoming_devices@), devices_view(db_devices@)),
        ),
        ids_unique(devices_view(r.0@)),
        keys_unique(rows_view(r.1@)),
{
    let rows = replace_rows(fqdn, incoming_device_hosts, db_device_hosts);
    let all = union_of(incoming_devices, db_devices);
    let ghost u = devices_view(all@);
    let mut devices = all;
    loop
        invariant
            ids_unique(devices_view(devices@)),
            settled_devices(devices_view(incoming_devices@), rows_view(rows@), devices_view(devices@))
                == settled_devices(devices_view(incoming_devices@), rows_view(rows@), u),
        ensures
            devices_view(devices@) == settled_devices(
                devices_view(incoming_devices@),
                rows_view(rows@),
                u,
            ),
        decreases devices@.len(),
    {
        let next = prune_devices(incoming_devices, &rows, &devices);
        proof {
            devices_view(devices@).lemma_filter_len(
                still_referenced(devices_view(incoming_devices@), rows_view(rows@), devices_view(devices@)),
            );
        }
        if next.len() == devices.len() {
            assert(devices_view(next@).len() == devices_view(devices@).len());
            assert(settled_devices(devices_view(incoming_devices@), rows_view(rows@), devices_view(devices@))
                == devices_view(devices@));
            break;
        }
        devices = next;
    }
    (devices, rows)
}

/// Which keys the merged rows hold: every reported key, and the persisted
/// keys of other hosts; a local row is a reported one, or a persisted one of
/// another host that the report does not replace.
pub proof fn lemma_replaced_rows_membership(f: Seq<char>, inc: Seq<DeviceHostV>, db: Seq<DeviceHostV>)
    ensures
        forall|d: Seq<char>, h: Seq<char>|
            #[trigger] has_row(replaced_rows(f, inc, db), d, h) == (has_row(inc, d, h) || (h != f
                && has_row(db, d, h))),
        forall|d: Seq<char>, h: Seq<char>|
            #[trigger] crate::model::has_local_row(replaced_rows(f, inc, db), d, h) == (
            crate::model::has_local_row(inc, d, h) || (h != f && !has_row(inc, d, h)
                && crate::model::has_local_row(db, d, h))),
{
    let p = not_replaced(f, inc);
    let dbf = db.filter(p);
    let m = replaced_rows(f, inc, db);
    assert forall|d: Seq<char>, h: Seq<char>|
        #[trigger] has_row(m, d, h) == (has_row(inc, d, h) || (h != f && has_row(db, d, h))) by {
        if has_row(m, d, h) {
            let k = choose|k: int| 0 <= k < m.len() && #[trigger] m[k].device_id == d && m[k].fqdn == h;
            if k < dbf.len() {
                assert(m[k] == dbf[k]);
                db.lemma_filter_pred(p, k);
                assert(dbf.contains(dbf[k]));
                db.lemma_filter_contains_rev(p, dbf[k]);
                let x = choose|x: int| 0 <= x < db.len() && db[x] == dbf[k];
                assert(db[x].device_id == d);
            } else {
                assert(m[k] == inc[k - dbf.len()]);
            }
        }
        if has_row(inc, d, h) {
            let k = choose|k: int| 0 <= k < inc.len() && #[trigger] inc[k].device_id == d && inc[k].fqdn == h;
            assert(m[k + dbf.len()] == inc[k]);
        } else if h != f && has_row(db, d, h) {
            let k = choose|k: int| 0 <= k < db.len() && #[trigger] db[k].device_id == d && db[k].fqdn == h;
            db.lemma_filter_contains(p, k);
            let x = choose|x: int| 0 <= x < dbf.len() && dbf[x] == db[k];
            assert(m[x] == dbf[x]);
        }
    }
    assert forall|d: Seq<char>, h: Seq<char>|
        #[trigger] crate::model::has_local_row(m, d, h) == (crate::model::has_local_row(inc, d, h) || (h
            != f && !has_row(inc, d, h) && crate::model::has_local_row(db, d, h))) by {
        if crate::model::has_local_row(m, d, h) {
            let k = choose|k: int|
                0 <= k < m.len() && #[trigger] m[k].device_id == d && m[k].fqdn == h && m[k].local;
            if k < dbf.len() {
                assert(m[k] == dbf[k]);
                db.lemma_filter_pred(p, k);
                assert(dbf.contains(dbf[k]));
                db.lemma_filter_contains_rev(p, dbf[k]);
                let x = choose|x: int| 0 <= x < db.len() && db[x] == dbf[k];
                assert(db[x].device_id == d);
            } else {
                assert(m[k] == inc[k - dbf.len()]);
            }
        }
        if crate::model::has_local_row(inc, d, h) {
            let k = choose|k: int|
                0 <= k < inc.len() && #[trigger] inc[k].device_id == d && inc[k].fqdn == h && inc[k].local;
            assert(m[k + dbf.len()] == inc[k]);
        } else if h != f && !has_row(inc, d, h) && crate::model::has_local_row(db, d, h) {
            let k = choose|k: int|
                0 <= k < db.len() && #[trigger] db[k].device_id == d && db[k].fqdn == h && db[k].local;
            db.lemma_filter_contains(p, k);
            let x = choose|x: int| 0 <= x < dbf.len() && dbf[x] == db[k];
            assert(m[x] == dbf[x]);
        }
    }
}

pub proof fn lemma_filter_keeps_all<A>(s: Seq<A>, p: spec_fn(A) -> bool)
    requires
        forall|i: int| 0 <= i < s.len() ==> p(#[trigger] s[i]),
    ensures
        s.filter(p) == s,
    decreases s.len(),
{
    reveal(Seq::filter);
    if s.len() > 0 {
        let t = s.drop_last();
        assert forall|i: int| 0 <= i < t.len() implies p(#[trigger] t[i]) by {
            assert(t[i] == s[i]);
        }
        lemma_filter_keeps_all(t, p);
        assert(p(s.last()));
        assert(s.drop_last().push(s.last()) =~= s);
    }
}

/// A settled device list is left as it is by another settling.
pub proof fn lemma_settled_is_stable(inc: Seq<DeviceV>, rows: Seq<DeviceHostV>, all: Seq<DeviceV>)
    ensures
        settled_devices(inc, rows, settled_devices(inc, rows, all)) == settled_devices(inc, rows, all),
    decreases all.len(),
{
    let next = pruned_devices(inc, rows, all);
    if next.len() < all.len() {
        lemma_settled_is_stable(inc, rows, next);
    }
}

/// Settling keeps the reported devices in front and adds only unreported ones.
pub proof fn lemma_settled_shape(inc: Seq<DeviceV>, rows: Seq<DeviceHostV>, rest: Seq<DeviceV>)
    requires
        forall|i: int| 0 <= i < rest.len() ==> not_reported(inc)(#[trigger] rest[i]),
    ensures
        exists|kept: Seq<DeviceV>|
            settled_devices(inc, rows, inc + rest) == inc + kept && forall|i: int|
                0 <= i < kept.len() ==> not_reported(inc)(#[trigger] kept[i]),
    decreases rest.len(),
{
    let all = inc + rest;
    let pr = still_referenced(inc, rows, all);
    assert forall|i: int| 0 <= i < inc.len() implies pr(#[trigger] inc[i]) by {
        assert(has_device(inc, inc[i].id));
    }
    lemma_filter_keeps_all(inc, pr);
    Seq::filter_distributes_over_add(inc, rest, pr);
    let rest2 = rest.filter(pr);
    assert(pruned_devices(inc, rows, all) == inc + rest2);
    assert forall|i: int| 0 <= i < rest2.len() implies not_reported(inc)(#[trigger] rest2[i]) by {
        assert(rest2.contains(rest2[i]));
        rest.lemma_filter_contains_rev(pr, rest2[i]);
    }
    rest.lemma_filter_len(pr);
    if rest2.len() < rest.len() {
        lemma_settled_shape(inc, rows, rest2);
    } else {
        assert(forall|i: int| 0 <= i < rest.len() ==> not_reported(inc)(#[trigger] rest[i]));
    }
}

/// Merging a report again into the state that merging it produced changes
/// nothing.
pub proof fn lemma_merge_idempotent(
    f: Seq<char>,
    inc_devs: Seq<DeviceV>,
    inc_rows: Seq<DeviceHostV>,
    db_devs: Seq<DeviceV>,
    db_rows: Seq<DeviceHostV>,
)
    ensures
        ({
            let rows1 = replaced_rows(f, inc_rows, db_rows);
            let devs1 = settled_devices(inc_devs, rows1, union_devices(inc_devs, db_devs));
            &&& replaced_rows(f, inc_rows, rows1) == rows1
            &&& settled_devices(inc_devs, rows1, union_devices(inc_devs, devs1)) == devs1
        }),
{
    let p = not_replaced(f, inc_rows);
    let dbf = db_rows.filter(p);
    let rows1 = replaced_rows(f, inc_rows, db_rows);
    Seq::filter_distributes_over_add(dbf, inc_rows, p);
    assert forall|i: int| 0 <= i < dbf.len() implies p(#[trigger] dbf[i]) by {
        db_rows.lemma_filter_pred(p, i);
    }
    lemma_filter_keeps_all(dbf, p);
    assert forall|i: int| 0 <= i < inc_rows.len() implies !p(#[trigger] inc_rows[i]) by {
        assert(has_row(inc_rows, inc_rows[i].device_id, inc_rows[i].fqdn));
    }
    inc_rows.lemma_all_neg_filter_empty(p);
    assert(inc_rows.filter(p) =~= Seq::<DeviceHostV>::empty());
    assert(rows1.filter(p) == dbf);
    let q = not_reported(inc_devs);
    let dbd = db_devs.filter(q);
    assert forall|i: int| 0 <= i < dbd.len() implies q(#[trigger] dbd[i]) by {
        db_devs.lemma_filter_pred(q, i);
    }
    lemma_settled_shape(inc_devs, rows1, dbd);
    let devs1 = settled_devices(inc_devs, rows1, union_devices(inc_devs, db_devs));
    let kept = choose|kept: Seq<DeviceV>|
        settled_devices(inc_devs, rows1, inc_devs + dbd) == inc_devs + kept && forall|i: int|
            0 <= i < kept.len() ==> q(#[trigger] kept[i]);
    assert forall|i: int| 0 <= i < inc_devs.len() implies !q(#[trigger] inc_devs[i]) by {
        assert(has_device(inc_devs, inc_devs[i].id));
    }
    inc_devs.lemma_all_neg_filter_empty(q);
    assert(inc_devs.filter(q) =~= Seq::<DeviceV>::empty());
    Seq::filter_distributes_over_add(inc_devs, kept, q);
    lemma_filter_keeps_all(kept, q);
    assert(devs1.filter(q) =~= kept);
    assert(union_devices(inc_devs, devs1) =~= devs1);
    lemma_settled_is_stable(inc_devs, rows1, union_devices(inc_devs, db_devs));
}

} // verus!
