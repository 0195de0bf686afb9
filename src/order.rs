//! The order in which inputs list their devices and rows does not change
//! which rows a pass produces.
use vstd::prelude::*;
use crate::model::{
    DeviceV, DeviceHostV, ids_unique, graph_valid, has_row, has_local_row, has_any_row,
    has_device, referenced_as_parent, parent_ok, parents_exist, has_cycle, is_parent,
    is_parent_path, same_shape, depths_consistent,
};
use crate::merge::{
    not_reported, union_devices, pruned_devices, still_referenced, settled_devices,
    lemma_push_devices, lemma_replaced_rows_membership,
};
use crate::reconcile::{
    merged_devices, merged_rows, corrected_rows, still_needed, anchored, reconciled_from,
    supported_devices, carried,
};
use crate::model::is_ancestor;
use crate::narrowing::{closed_sublist, lemma_sublist_ancestor};
use crate::reapply::lemma_corrected_rows_ignore_order;

verus! {

/// `a` and `b` hold the same elements.
pub open spec fn same_elements<A>(a: Seq<A>, b: Seq<A>) -> bool {
    &&& forall|x: int| 0 <= x < a.len() ==> b.contains(#[trigger] a[x])
    &&& forall|y: int| 0 <= y < b.len() ==> a.contains(#[trigger] b[y])
}

proof fn lemma_filter_ids_unique(s: Seq<DeviceV>, p: spec_fn(DeviceV) -> bool)
    requires
        ids_unique(s),
    ensures
        ids_unique(s.filter(p)),
    decreases s.len(),
{
    reveal(Seq::filter);
    if s.len() > 0 {
        let t = s.drop_last();
        assert forall|i: int, j: int|
            0 <= i < t.len() && 0 <= j < t.len() && #[trigger] t[i].id == #[trigger] t[j].id implies i == j by {
            assert(t[i] == s[i] && t[j] == s[j]);
        }
        lemma_filter_ids_unique(t, p);
        let tf = t.filter(p);
        if p(s.last()) {
            if has_device(tf, s.last().id) {
                let x = choose|x: int| 0 <= x < tf.len() && #[trigger] tf[x].id == s.last().id;
                assert(tf.contains(tf[x]));
                t.lemma_filter_contains_rev(p, tf[x]);
                let k = choose|k: int| 0 <= k < t.len() && t[k] == tf[x];
                assert(s[k].id == s[s.len() - 1].id);
            }
            lemma_push_devices(tf, s.last());
        }
    }
}

proof fn lemma_filter_same_elements<A>(a: Seq<A>, b: Seq<A>, p: spec_fn(A) -> bool, p2: spec_fn(A) -> bool)
    requires
        same_elements(a, b),
        forall|v: A| #[trigger] p(v) == p2(v),
    ensures
        same_elements(a.filter(p), b.filter(p2)),
{
    let af = a.filter(p);
    let bf = b.filter(p2);
    assert forall|x: int| 0 <= x < af.len() implies bf.contains(#[trigger] af[x]) by {
        assert(af.contains(af[x]));
        a.lemma_filter_contains_rev(p, af[x]);
        a.lemma_filter_pred(p, x);
        assert(b.contains(af[x]));
        let k = choose|k: int| 0 <= k < b.len() && b[k] == af[x];
        b.lemma_filter_contains(p2, k);
    }
    assert forall|y: int| 0 <= y < bf.len() implies af.contains(#[trigger] bf[y]) by {
        assert(bf.contains(bf[y]));
        b.lemma_filter_contains_rev(p2, bf[y]);
        b.lemma_filter_pred(p2, y);
        assert(a.contains(bf[y]));
        let k = choose|k: int| 0 <= k < a.len() && a[k] == bf[y];
        a.lemma_filter_contains(p, k);
    }
}

proof fn lemma_same_elements_len(a: Seq<DeviceV>, b: Seq<DeviceV>)
    requires
        same_elements(a, b),
        ids_unique(a),
        ids_unique(b),
    ensures
        a.len() == b.len(),
{
    assert forall|i: int, j: int| 0 <= i < a.len() && 0 <= j < a.len() && i != j implies a[i] != a[j] by {
        if a[i] == a[j] {
            assert(a[i].id == a[j].id);
        }
    }
    assert forall|i: int, j: int| 0 <= i < b.len() && 0 <= j < b.len() && i != j implies b[i] != b[j] by {
        if b[i] == b[j] {
            assert(b[i].id == b[j].id);
        }
    }
    assert(a.no_duplicates());
    assert(b.no_duplicates());
    a.unique_seq_to_set();
    b.unique_seq_to_set();
    assert forall|v: DeviceV| a.to_set().contains(v) == b.to_set().contains(v) by {
        if a.contains(v) {
            let k = choose|k: int| 0 <= k < a.len() && a[k] == v;
        }
        if b.contains(v) {
            let k = choose|k: int| 0 <= k < b.len() && b[k] == v;
        }
    }
    assert(a.to_set() =~= b.to_set());
}

proof fn lemma_same_elements_has_device(a: Seq<DeviceV>, b: Seq<DeviceV>)
    requires
        same_elements(a, b),
    ensures
        forall|id: Seq<char>| #[trigger] has_device(a, id) == has_device(b, id),
        forall|id: Seq<char>| #[trigger] referenced_as_parent(a, id) == referenced_as_parent(b, id),
{
    assert forall|id: Seq<char>| #[trigger] has_device(a, id) == has_device(b, id) by {
        if has_device(a, id) {
            let i = choose|i: int| 0 <= i < a.len() && #[trigger] a[i].id == id;
            assert(b.contains(a[i]));
            let k = choose|k: int| 0 <= k < b.len() && b[k] == a[i];
            assert(b[k].id == id);
        }
        if has_device(b, id) {
            let i = choose|i: int| 0 <= i < b.len() && #[trigger] b[i].id == id;
            assert(a.contains(b[i]));
            let k = choose|k: int| 0 <= k < a.len() && a[k] == b[i];
            assert(a[k].id == id);
        }
    }
    assert forall|id: Seq<char>| #[trigger] referenced_as_parent(a, id) == referenced_as_parent(b, id) by {
        if referenced_as_parent(a, id) {
            let i = choose|i: int| 0 <= i < a.len() && #[trigger] a[i].parent_ids.contains(id);
            assert(b.contains(a[i]));
            let k = choose|k: int| 0 <= k < b.len() && b[k] == a[i];
            assert(b[k].parent_ids.contains(id));
        }
        if referenced_as_parent(b, id) {
            let i = choose|i: int| 0 <= i < b.len() && #[trigger] b[i].parent_ids.contains(id);
            assert(a.contains(b[i]));
            let k = choose|k: int| 0 <= k < a.len() && a[k] == b[i];
            assert(a[k].parent_ids.contains(id));
        }
    }
}

proof fn lemma_union_unique(inc: Seq<DeviceV>, db: Seq<DeviceV>)
    requires
        ids_unique(inc),
        ids_unique(db),
    ensures
        ids_unique(union_devices(inc, db)),
{
    let q = not_reported(inc);
    let dbf = db.filter(q);
    lemma_filter_ids_unique(db, q);
    let u = union_devices(inc, db);
    assert forall|i: int, j: int|
        0 <= i < u.len() && 0 <= j < u.len() && #[trigger] u[i].id == #[trigger] u[j].id implies i == j by {
        if i < inc.len() && j >= inc.len() {
            assert(u[j] == dbf[j - inc.len()]);
            db.lemma_filter_pred(q, j - inc.len());
            assert(has_device(inc, u[i].id));
        } else if j < inc.len() && i >= inc.len() {
            assert(u[i] == dbf[i - inc.len()]);
            db.lemma_filter_pred(q, i - inc.len());
            assert(has_device(inc, u[j].id));
        } else if i >= inc.len() {
            assert(u[i] == dbf[i - inc.len()] && u[j] == dbf[j - inc.len()]);
        }
    }
}

proof fn lemma_settled_same(
    inc: Seq<DeviceV>,
    inc2: Seq<DeviceV>,
    rows: Seq<DeviceHostV>,
    rows2: Seq<DeviceHostV>,
    all: Seq<DeviceV>,
    all2: Seq<DeviceV>,
)
    requires
        same_elements(inc, inc2),
        forall|id: Seq<char>| #[trigger] has_any_row(rows, id) == has_any_row(rows2, id),
        same_elements(all, all2),
        ids_unique(all),
        ids_unique(all2),
    ensures
        same_elements(settled_devices(inc, rows, all), settled_devices(inc2, rows2, all2)),
        ids_unique(settled_devices(inc, rows, all)),
        ids_unique(settled_devices(inc2, rows2, all2)),
    decreases all.len(),
{
    lemma_same_elements_has_device(inc, inc2);
    lemma_same_elements_has_device(all, all2);
    let p = still_referenced(inc, rows, all);
    let p2 = still_referenced(inc2, rows2, all2);
    assert forall|v: DeviceV| #[trigger] p(v) == p2(v) by {
    }
    lemma_filter_same_elements(all, all2, p, p2);
    lemma_filter_ids_unique(all, p);
    lemma_filter_ids_unique(all2, p2);
    let next = pruned_devices(inc, rows, all);
    let next2 = pruned_devices(inc2, rows2, all2);
    lemma_same_elements_len(all, all2);
    lemma_same_elements_len(next, next2);
    all.lemma_filter_len(p);
    if next.len() < all.len() {
        lemma_settled_same(inc, inc2, rows, rows2, next, next2);
    }
}

proof fn lemma_same_elements_cycle(g: Seq<DeviceV>, g2: Seq<DeviceV>)
    requires
        same_elements(g, g2),
        has_cycle(g),
    ensures
        has_cycle(g2),
{
    let i = choose|i: int| #[trigger] is_ancestor(g, i, i);
    let p = choose|p: Seq<int>| #[trigger] is_parent_path(g, p) && p[0] == i && p.last() == i;
    let q = Seq::new(p.len(), |k: int| choose|y: int| 0 <= y < g2.len() && g2[y] == g[p[k]]);
    assert forall|k: int| 0 <= k < p.len() implies 0 <= #[trigger] q[k] < g2.len() && g2[q[k]] == g[p[k]] by {
        assert(0 <= p[k] < g.len());
        assert(g2.contains(g[p[k]]));
    }
    assert forall|k: int| 0 <= k < q.len() - 1 implies is_parent(g2, q[k + 1], #[trigger] q[k]) by {
        assert(is_parent(g, p[k + 1], p[k]));
        assert(g2[q[k]] == g[p[k]]);
        assert(g2[q[k + 1]] == g[p[k + 1]]);
    }
    assert forall|k: int| 0 <= k < q.len() implies 0 <= #[trigger] q[k] < g2.len() by {
    }
    assert(is_parent_path(g2, q));
    assert(q[0] == q.last());
    assert(is_ancestor(g2, q[0], q[0]));
}

proof fn lemma_same_elements_parents_exist(g: Seq<DeviceV>, g2: Seq<DeviceV>)
    requires
        same_elements(g, g2),
        parents_exist(g),
    ensures
        parents_exist(g2),
{
    lemma_same_elements_has_device(g, g2);
    assert forall|i: int, k: int| 0 <= i < g2.len() && 0 <= k < g2[i].parent_ids.len() implies #[trigger] has_device(g2, g2[i].parent_ids[k]) by {
        assert(g.contains(g2[i]));
        let x = choose|x: int| 0 <= x < g.len() && g[x] == g2[i];
        assert(has_device(g, g[x].parent_ids[k]));
    }
}

proof fn lemma_graph_valid_same_elements(g: Seq<DeviceV>, g2: Seq<DeviceV>)
    requires
        same_elements(g, g2),
        graph_valid(g),
    ensures
        graph_valid(g2),
{
    assert forall|i: int, k: int| 0 <= i < g2.len() && 0 <= k < g2[i].parent_ids.len() implies #[trigger] parent_ok(g2, i, k) by {
        assert(g.contains(g2[i]));
        let x = choose|x: int| 0 <= x < g.len() && g[x] == g2[i];
        assert(parent_ok(g, x, k));
        let j = choose|j: int| 0 <= j < g.len() && #[trigger] g[j].id == g[x].parent_ids[k] && g[j].max_depth < g[x].max_depth;
        assert(g2.contains(g[j]));
        let y = choose|y: int| 0 <= y < g2.len() && g2[y] == g[j];
        assert(g2[y].id == g2[i].parent_ids[k]);
    }
}

proof fn lemma_same_rows(a: Seq<DeviceHostV>, b: Seq<DeviceHostV>)
    requires
        same_elements(a, b),
    ensures
        forall|d: Seq<char>, h: Seq<char>| #[trigger] has_row(a, d, h) == has_row(b, d, h),
        forall|d: Seq<char>, h: Seq<char>| #[trigger] has_local_row(a, d, h) == has_local_row(b, d, h),
{
    assert forall|d: Seq<char>, h: Seq<char>| #[trigger] has_row(a, d, h) == has_row(b, d, h) by {
        if has_row(a, d, h) {
            let k = choose|k: int| 0 <= k < a.len() && #[trigger] a[k].device_id == d && a[k].fqdn == h;
            assert(b.contains(a[k]));
            let m = choose|m: int| 0 <= m < b.len() && b[m] == a[k];
            assert(b[m].device_id == d);
        }
        if has_row(b, d, h) {
            let k = choose|k: int| 0 <= k < b.len() && #[trigger] b[k].device_id == d && b[k].fqdn == h;
            assert(a.contains(b[k]));
            let m = choose|m: int| 0 <= m < a.len() && a[m] == b[k];
            assert(a[m].device_id == d);
        }
    }
    assert forall|d: Seq<char>, h: Seq<char>| #[trigger] has_local_row(a, d, h) == has_local_row(b, d, h) by {
        if has_local_row(a, d, h) {
            let k = choose|k: int| 0 <= k < a.len() && #[trigger] a[k].device_id == d && a[k].fqdn == h && a[k].local;
            assert(b.contains(a[k]));
            let m = choose|m: int| 0 <= m < b.len() && b[m] == a[k];
            assert(b[m].device_id == d);
        }
        if has_local_row(b, d, h) {
            let k = choose|k: int| 0 <= k < b.len() && #[trigger] b[k].device_id == d && b[k].fqdn == h && b[k].local;
            assert(a.contains(b[k]));
            let m = choose|m: int| 0 <= m < a.len() && a[m] == b[k];
            assert(a[m].device_id == d);
        }
    }
}

proof fn lemma_still_needed_same(
    inc: Seq<DeviceV>,
    inc2: Seq<DeviceV>,
    out: Seq<DeviceHostV>,
    out2: Seq<DeviceHostV>,
    g: Seq<DeviceV>,
    g2: Seq<DeviceV>,
)
    requires
        same_elements(inc, inc2),
        same_elements(g, g2),
        graph_valid(g),
        ids_unique(g),
        ids_unique(g2),
        forall|d: Seq<char>, h: Seq<char>| #[trigger] has_row(out, d, h) == has_row(out2, d, h),
    ensures
        same_elements(g.filter(still_needed(inc, out, g)), g2.filter(still_needed(inc2, out2, g2))),
{
    lemma_same_elements_has_device(inc, inc2);
    assert forall|id: Seq<char>| #[trigger] has_any_row(out, id) == has_any_row(out2, id) by {
        if has_any_row(out, id) {
            let k = choose|k: int| 0 <= k < out.len() && #[trigger] out[k].device_id == id;
            assert(has_row(out, id, out[k].fqdn));
            assert(has_row(out2, id, out[k].fqdn));
            let m = choose|m: int| 0 <= m < out2.len() && #[trigger] out2[m].device_id == id && out2[m].fqdn == out[k].fqdn;
        }
        if has_any_row(out2, id) {
            let k = choose|k: int| 0 <= k < out2.len() && #[trigger] out2[k].device_id == id;
            assert(has_row(out2, id, out2[k].fqdn));
            assert(has_row(out, id, out2[k].fqdn));
            let m = choose|m: int| 0 <= m < out.len() && #[trigger] out[m].device_id == id && out[m].fqdn == out2[k].fqdn;
        }
    }
    assert(closed_sublist(g2, g));
    let p = still_needed(inc, out, g);
    let p2 = still_needed(inc2, out2, g2);
    assert forall|v: DeviceV| #[trigger] p(v) == p2(v) by {
        assert(anchored(inc, out, v) == anchored(inc2, out2, v));
        if !anchored(inc, out, v) {
            if p(v) {
                let (a, j) = choose|a: int, j: int|
                    0 <= a < g.len() && #[trigger] g[a].id == v.id && #[trigger] is_ancestor(g, a, j)
                        && anchored(inc, out, g[j]);
                crate::graph::lemma_ancestor_cases(g, a, j);
                assert(g2.contains(g[a]));
                let y = choose|y: int| 0 <= y < g2.len() && g2[y] == g[a];
                assert(g2.contains(g[j]));
                let x = choose|x: int| 0 <= x < g2.len() && g2[x] == g[j];
                lemma_sublist_ancestor(g2, g, x, j, y, a);
                assert(anchored(inc2, out2, g2[x]));
                assert(g2[y].id == v.id && is_ancestor(g2, y, x));
            }
            if p2(v) {
                let (y, x) = choose|y: int, x: int|
                    0 <= y < g2.len() && #[trigger] g2[y].id == v.id && #[trigger] is_ancestor(g2, y, x)
                        && anchored(inc2, out2, g2[x]);
                crate::graph::lemma_ancestor_cases(g2, y, x);
                assert(g.contains(g2[y]));
                let a = choose|a: int| 0 <= a < g.len() && g[a] == g2[y];
                assert(g.contains(g2[x]));
                let j = choose|j: int| 0 <= j < g.len() && g[j] == g2[x];
                lemma_sublist_ancestor(g2, g, x, j, y, a);
                assert(anchored(inc, out, g[j]));
                assert(g[a].id == v.id && is_ancestor(g, a, j));
            }
        }
    }
    lemma_filter_same_elements(g, g2, p, p2);
}

/// Determinism: listing the reported and persisted devices and rows in
/// another order changes neither whether a pass succeeds, nor which rows it
/// produces, nor which devices it keeps. Failure (a dangling parent or a
/// cycle in the merged graph) comes for both orders or for neither; rows
/// and devices are stated for passes taken on the merged graphs as they
/// stand, not for the recomputed and cut graph that `build_new_state` works
/// on.
pub proof fn lemma_build_new_state_ignores_input_order(
    f: Seq<char>,
    inc_devs: Seq<DeviceV>,
    inc_rows: Seq<DeviceHostV>,
    db_devs: Seq<DeviceV>,
    db_rows: Seq<DeviceHostV>,
    inc_devs2: Seq<DeviceV>,
    inc_rows2: Seq<DeviceHostV>,
    db_devs2: Seq<DeviceV>,
    db_rows2: Seq<DeviceHostV>,
    out: Seq<DeviceHostV>,
    out2: Seq<DeviceHostV>,
)
    requires
        ids_unique(inc_devs),
        ids_unique(db_devs),
        ids_unique(inc_devs2),
        ids_unique(db_devs2),
        same_elements(inc_devs, inc_devs2),
        same_elements(db_devs, db_devs2),
        same_elements(inc_rows, inc_rows2),
        same_elements(db_rows, db_rows2),
    ensures
        ({
            let g = merged_devices(f, inc_devs, inc_rows, db_devs, db_rows);
            let g2 = merged_devices(f, inc_devs2, inc_rows2, db_devs2, db_rows2);
            &&& same_elements(g, g2)
            &&& ids_unique(g)
            &&& ids_unique(g2)
            &&& forall|d: Seq<char>, h: Seq<char>|
                #[trigger] has_row(merged_rows(f, inc_rows, db_rows), d, h) == has_row(merged_rows(f, inc_rows2, db_rows2), d, h)
            &&& forall|d: Seq<char>, h: Seq<char>|
                #[trigger] has_local_row(merged_rows(f, inc_rows, db_rows), d, h) == has_local_row(merged_rows(f, inc_rows2, db_rows2), d, h)
            &&& graph_valid(g) == graph_valid(g2)
            &&& parents_exist(g) == parents_exist(g2)
            &&& has_cycle(g) == has_cycle(g2)
            &&& graph_valid(g) && corrected_rows(g, merged_rows(f, inc_rows, db_rows), f, out)
                && corrected_rows(g2, merged_rows(f, inc_rows2, db_rows2), f, out2) ==> {
                &&& forall|d: Seq<char>, h: Seq<char>| #[trigger] has_row(out, d, h) == has_row(out2, d, h)
                &&& same_elements(
                    g.filter(still_needed(inc_devs, out, g)),
                    g2.filter(still_needed(inc_devs2, out2, g2)),
                )
            }
        }),
{
    let r = merged_rows(f, inc_rows, db_rows);
    let r2 = merged_rows(f, inc_rows2, db_rows2);
    lemma_same_rows(inc_rows, inc_rows2);
    lemma_same_rows(db_rows, db_rows2);
    lemma_replaced_rows_membership(f, inc_rows, db_rows);
    lemma_replaced_rows_membership(f, inc_rows2, db_rows2);
    assert forall|d: Seq<char>, h: Seq<char>| #[trigger] has_row(r, d, h) == has_row(r2, d, h) by {
    }
    assert forall|d: Seq<char>, h: Seq<char>| #[trigger] has_local_row(r, d, h) == has_local_row(r2, d, h) by {
    }
    assert forall|id: Seq<char>| #[trigger] has_any_row(r, id) == has_any_row(r2, id) by {
        if has_any_row(r, id) {
            let k = choose|k: int| 0 <= k < r.len() && #[trigger] r[k].device_id == id;
            assert(has_row(r, id, r[k].fqdn));
            assert(has_row(r2, id, r[k].fqdn));
            let m = choose|m: int| 0 <= m < r2.len() && #[trigger] r2[m].device_id == id && r2[m].fqdn == r[k].fqdn;
        }
        if has_any_row(r2, id) {
            let k = choose|k: int| 0 <= k < r2.len() && #[trigger] r2[k].device_id == id;
            assert(has_row(r2, id, r2[k].fqdn));
            assert(has_row(r, id, r2[k].fqdn));
            let m = choose|m: int| 0 <= m < r.len() && #[trigger] r[m].device_id == id && r[m].fqdn == r2[k].fqdn;
        }
    }
    lemma_same_elements_has_device(inc_devs, inc_devs2);
    let q = not_reported(inc_devs);
    let q2 = not_reported(inc_devs2);
    assert forall|v: DeviceV| #[trigger] q(v) == q2(v) by {
    }
    lemma_filter_same_elements(db_devs, db_devs2, q, q2);
    let u = union_devices(inc_devs, db_devs);
    let u2 = union_devices(inc_devs2, db_devs2);
    let dbf = db_devs.filter(q);
    let dbf2 = db_devs2.filter(q2);
    assert forall|x: int| 0 <= x < u.len() implies u2.contains(#[trigger] u[x]) by {
        if x < inc_devs.len() {
            assert(inc_devs2.contains(inc_devs[x]));
            let k = choose|k: int| 0 <= k < inc_devs2.len() && inc_devs2[k] == inc_devs[x];
            assert(u2[k] == inc_devs2[k]);
        } else {
            assert(u[x] == dbf[x - inc_devs.len()]);
            assert(dbf2.contains(dbf[x - inc_devs.len()]));
            let k = choose|k: int| 0 <= k < dbf2.len() && dbf2[k] == dbf[x - inc_devs.len()];
            assert(u2[k + inc_devs2.len()] == dbf2[k]);
        }
    }
    assert forall|x: int| 0 <= x < u2.len() implies u.contains(#[trigger] u2[x]) by {
        if x < inc_devs2.len() {
            assert(inc_devs.contains(inc_devs2[x]));
            let k = choose|k: int| 0 <= k < inc_devs.len() && inc_devs[k] == inc_devs2[x];
            assert(u[k] == inc_devs[k]);
        } else {
            assert(u2[x] == dbf2[x - inc_devs2.len()]);
            assert(dbf.contains(dbf2[x - inc_devs2.len()]));
            let k = choose|k: int| 0 <= k < dbf.len() && dbf[k] == dbf2[x - inc_devs2.len()];
            assert(u[k + inc_devs.len()] == dbf[k]);
        }
    }
    lemma_union_unique(inc_devs, db_devs);
    lemma_union_unique(inc_devs2, db_devs2);
    lemma_settled_same(inc_devs, inc_devs2, r, r2, u, u2);
    let g = merged_devices(f, inc_devs, inc_rows, db_devs, db_rows);
    let g2 = merged_devices(f, inc_devs2, inc_rows2, db_devs2, db_rows2);
    if graph_valid(g) {
        lemma_graph_valid_same_elements(g, g2);
    }
    if parents_exist(g) {
        lemma_same_elements_parents_exist(g, g2);
    }
    if parents_exist(g2) {
        lemma_same_elements_parents_exist(g2, g);
    }
    if has_cycle(g) {
        lemma_same_elements_cycle(g, g2);
    }
    if has_cycle(g2) {
        lemma_same_elements_cycle(g2, g);
    }
    if graph_valid(g2) {
        lemma_graph_valid_same_elements(g2, g);
    }
    if graph_valid(g) && corrected_rows(g, r, f, out) && corrected_rows(g2, r2, f, out2) {
        lemma_corrected_rows_ignore_order(f, g, r, out, g2, r2, out2);
        lemma_still_needed_same(inc_devs, inc_devs2, out, out2, g, g2);
    }
}

proof fn lemma_consistent_graph_valid(g: Seq<DeviceV>)
    requires
        depths_consistent(g),
    ensures
        graph_valid(g),
{
    assert forall|i: int, k: int| 0 <= i < g.len() && 0 <= k < g[i].parent_ids.len() implies #[trigger] parent_ok(g, i, k) by {
        assert(has_device(g, g[i].parent_ids[k]));
        let j = choose|j: int| 0 <= j < g.len() && #[trigger] g[j].id == g[i].parent_ids[k];
        assert(is_parent(g, j, i));
    }
}

/// A parent of device `i` in `a` has a partner in `b` that is a parent of
/// the partner `j` of `i` and holds the same device.
proof fn lemma_parent_partner(
    a: Seq<DeviceV>,
    b: Seq<DeviceV>,
    ga: Seq<DeviceV>,
    gb: Seq<DeviceV>,
    i: int,
    j: int,
    p: int,
) -> (q: int)
    requires
        same_elements(ga, gb),
        same_shape(a, ga),
        same_shape(b, gb),
        0 <= i < a.len(),
        0 <= j < b.len(),
        0 <= p < a.len(),
        ga[i] == gb[j],
        is_parent(a, p, i),
    ensures
        0 <= q < b.len(),
        is_parent(b, q, j),
        ga[p] == gb[q],
{
    assert(a[i].id == ga[i].id && b[j].id == gb[j].id);
    assert(a[p].id == ga[p].id);
    assert(gb.contains(ga[p]));
    let q = choose|q: int| 0 <= q < gb.len() && gb[q] == ga[p];
    assert(b[q].id == gb[q].id);
    q
}

/// Two recomputations of the same devices listed in two orders agree on
/// every depth.
proof fn lemma_cross_depth(a: Seq<DeviceV>, b: Seq<DeviceV>, ga: Seq<DeviceV>, gb: Seq<DeviceV>, i: int, j: int)
    requires
        same_elements(ga, gb),
        same_shape(a, ga),
        same_shape(b, gb),
        depths_consistent(a),
        depths_consistent(b),
        0 <= i < a.len(),
        0 <= j < b.len(),
        ga[i] == gb[j],
    ensures
        a[i].max_depth == b[j].max_depth,
    decreases a[i].max_depth,
{
    assert(a[i].id == ga[i].id && b[j].id == gb[j].id);
    assert(a[i].parent_ids == b[j].parent_ids);
    if a[i].parent_ids.len() > 0 {
        let p1 = choose|p: int| 0 <= p < a.len() && #[trigger] is_parent(a, p, i) && a[p].max_depth + 1 == a[i].max_depth;
        let q1 = lemma_parent_partner(a, b, ga, gb, i, j, p1);
        lemma_cross_depth(a, b, ga, gb, p1, q1);
        assert(b[q1].max_depth < b[j].max_depth);
        let q2 = choose|q: int| 0 <= q < b.len() && #[trigger] is_parent(b, q, j) && b[q].max_depth + 1 == b[j].max_depth;
        let p2 = lemma_parent_partner(b, a, gb, ga, j, i, q2);
        assert(a[p2].max_depth < a[i].max_depth);
        lemma_cross_depth(a, b, ga, gb, p2, q2);
    }
}

/// Determinism over returned states: two passes whose inputs list the same
/// devices and rows in different orders return the same rows and the same
/// devices.
pub proof fn lemma_result_ignores_input_order(
    f: Seq<char>,
    inc_devs: Seq<DeviceV>,
    inc_rows: Seq<DeviceHostV>,
    db_devs: Seq<DeviceV>,
    db_rows: Seq<DeviceHostV>,
    inc_devs2: Seq<DeviceV>,
    inc_rows2: Seq<DeviceHostV>,
    db_devs2: Seq<DeviceV>,
    db_rows2: Seq<DeviceHostV>,
    devs: Seq<DeviceV>,
    rows: Seq<DeviceHostV>,
    devs2: Seq<DeviceV>,
    rows2: Seq<DeviceHostV>,
)
    requires
        ids_unique(inc_devs),
        ids_unique(db_devs),
        ids_unique(inc_devs2),
        ids_unique(db_devs2),
        same_elements(inc_devs, inc_devs2),
        same_elements(db_devs, db_devs2),
        same_elements(inc_rows, inc_rows2),
        same_elements(db_rows, db_rows2),
        reconciled_from(
            inc_devs,
            merged_rows(f, inc_rows, db_rows),
            f,
            merged_devices(f, inc_devs, inc_rows, db_devs, db_rows),
            devs,
            rows,
        ),
        reconciled_from(
            inc_devs2,
            merged_rows(f, inc_rows2, db_rows2),
            f,
            merged_devices(f, inc_devs2, inc_rows2, db_devs2, db_rows2),
            devs2,
            rows2,
        ),
    ensures
        forall|d: Seq<char>, h: Seq<char>| #[trigger] has_row(rows, d, h) == has_row(rows2, d, h),
        same_elements(devs, devs2),
{
    let g = merged_devices(f, inc_devs, inc_rows, db_devs, db_rows);
    let gp = merged_devices(f, inc_devs2, inc_rows2, db_devs2, db_rows2);
    let r = merged_rows(f, inc_rows, db_rows);
    let rp = merged_rows(f, inc_rows2, db_rows2);
    lemma_build_new_state_ignores_input_order(
        f, inc_devs, inc_rows, db_devs, db_rows, inc_devs2, inc_rows2, db_devs2, db_rows2, rows, rows2,
    );
    let a = choose|g2: Seq<DeviceV>|
        {
            let g3 = supported_devices(inc_devs, r, f, g2);
            &&& #[trigger] same_shape(g2, g)
            &&& depths_consistent(g2)
            &&& ids_unique(g2)
            &&& graph_valid(g3)
            &&& ids_unique(g3)
            &&& corrected_rows(g3, r, f, rows)
            &&& devs == g3.filter(still_needed(inc_devs, rows, g3))
        };
    let b = choose|g2: Seq<DeviceV>|
        {
            let g3 = supported_devices(inc_devs2, rp, f, g2);
            &&& #[trigger] same_shape(g2, gp)
            &&& depths_consistent(g2)
            &&& ids_unique(g2)
            &&& graph_valid(g3)
            &&& ids_unique(g3)
            &&& corrected_rows(g3, rp, f, rows2)
            &&& devs2 == g3.filter(still_needed(inc_devs2, rows2, g3))
        };
    assert forall|x: int| 0 <= x < a.len() implies b.contains(#[trigger] a[x]) by {
        assert(gp.contains(g[x]));
        let y = choose|y: int| 0 <= y < gp.len() && gp[y] == g[x];
        lemma_cross_depth(a, b, g, gp, x, y);
        assert(a[x].id == g[x].id && b[y].id == gp[y].id);
        assert(a[x].parent_ids == g[x].parent_ids && b[y].parent_ids == gp[y].parent_ids);
        assert(a[x] == b[y]);
    }
    assert forall|y: int| 0 <= y < b.len() implies a.contains(#[trigger] b[y]) by {
        assert(g.contains(gp[y]));
        let x = choose|x: int| 0 <= x < g.len() && g[x] == gp[y];
        lemma_cross_depth(a, b, g, gp, x, y);
        assert(a[x].id == g[x].id && b[y].id == gp[y].id);
        assert(a[x].parent_ids == g[x].parent_ids && b[y].parent_ids == gp[y].parent_ids);
        assert(a[x] == b[y]);
    }
    lemma_consistent_graph_valid(a);
    let kr = r.filter(carried(f));
    let krp = rp.filter(carried(f));
    assert forall|d: Seq<char>, h: Seq<char>| #[trigger] has_row(kr, d, h) == has_row(krp, d, h) by {
        lemma_carried_rows(r, f, d, h);
        lemma_carried_rows(rp, f, d, h);
    }
    lemma_still_needed_same(inc_devs, inc_devs2, kr, krp, a, b);
    let g3 = supported_devices(inc_devs, r, f, a);
    let g3p = supported_devices(inc_devs2, rp, f, b);
    lemma_corrected_rows_ignore_order(f, g3, r, rows, g3p, rp, rows2);
    lemma_still_needed_same(inc_devs, inc_devs2, rows, rows2, g3, g3p);
}

/// A row kept as it is by a pass is one of `f`, or a local one.
proof fn lemma_carried_rows(r: Seq<DeviceHostV>, f: Seq<char>, d: Seq<char>, h: Seq<char>)
    ensures
        has_row(r.filter(carried(f)), d, h) == ((h == f && has_row(r, d, h)) || has_local_row(r, d, h)),
{
    let p = carried(f);
    let kr = r.filter(p);
    if has_row(kr, d, h) {
        let k = choose|k: int| 0 <= k < kr.len() && #[trigger] kr[k].device_id == d && kr[k].fqdn == h;
        r.lemma_filter_pred(p, k);
        assert(kr.contains(kr[k]));
        r.lemma_filter_contains_rev(p, kr[k]);
        let m = choose|m: int| 0 <= m < r.len() && r[m] == kr[k];
        assert(r[m].device_id == d);
    }
    if (h == f && has_row(r, d, h)) || has_local_row(r, d, h) {
        let m = if has_local_row(r, d, h) {
            choose|m: int| 0 <= m < r.len() && #[trigger] r[m].device_id == d && r[m].fqdn == h && r[m].local
        } else {
            choose|m: int| 0 <= m < r.len() && #[trigger] r[m].device_id == d && r[m].fqdn == h
        };
        r.lemma_filter_contains(p, m);
        let k = choose|k: int| 0 <= k < kr.len() && kr[k] == r[m];
        assert(kr[k].device_id == d);
    }
}

} // verus!
