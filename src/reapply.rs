//! Reconciling the same report twice: the second pass changes nothing.
use vstd::prelude::*;
use crate::model::{
    DeviceV, DeviceHostV, ids_unique, graph_valid, is_ancestor, is_parent, has_row,
    has_local_row, has_any_row, has_host, has_device, referenced_as_parent, visible, expected_row,
};
use crate::merge::{
    not_reported, not_replaced, union_devices, replaced_rows, pruned_devices, still_referenced,
    settled_devices, lemma_filter_keeps_all, lemma_settled_shape, lemma_replaced_rows_membership,
};
use crate::reconcile::{
    merged_devices, merged_rows, corrected_rows, still_needed, anchored,
    lemma_reapplied_report_keeps_reported_and_local_rows,
};
use crate::narrowing::{closed_sublist, lemma_closed_sublist_valid, lemma_sublist_ancestor, lemma_sublist_visible};
use crate::graph::{lemma_parent_is_ancestor, lemma_ancestor_extend, lemma_ancestor_last_step};
use crate::visibility::lemma_visible_same_locals;

verus! {

/// The devices a pass keeps are its merged devices filtered, reported ones
/// first, and hold every parent of their members.
proof fn lemma_kept_devices_shape(
    f: Seq<char>,
    inc_devs: Seq<DeviceV>,
    inc_rows: Seq<DeviceHostV>,
    db_devs: Seq<DeviceV>,
    db_rows: Seq<DeviceHostV>,
    rows1: Seq<DeviceHostV>,
)
    requires
        ids_unique(merged_devices(f, inc_devs, inc_rows, db_devs, db_rows)),
    ensures
        ({
            let g1 = merged_devices(f, inc_devs, inc_rows, db_devs, db_rows);
            let devs1 = g1.filter(still_needed(inc_devs, rows1, g1));
            &&& union_devices(inc_devs, devs1) == devs1
            &&& closed_sublist(devs1, g1)
        }),
{
    let g1 = merged_devices(f, inc_devs, inc_rows, db_devs, db_rows);
    let mr1 = merged_rows(f, inc_rows, db_rows);
    let sn1 = still_needed(inc_devs, rows1, g1);
    let devs1 = g1.filter(sn1);
    let q = not_reported(inc_devs);
    let dbd = db_devs.filter(q);
    assert forall|i: int| 0 <= i < dbd.len() implies q(#[trigger] dbd[i]) by {
        db_devs.lemma_filter_pred(q, i);
    }
    lemma_settled_shape(inc_devs, mr1, dbd);
    let kept = choose|kept: Seq<DeviceV>|
        settled_devices(inc_devs, mr1, inc_devs + dbd) == inc_devs + kept && forall|i: int|
            0 <= i < kept.len() ==> q(#[trigger] kept[i]);
    assert(g1 == inc_devs + kept);
    assert forall|i: int| 0 <= i < inc_devs.len() implies sn1(#[trigger] inc_devs[i]) by {
        assert(has_device(inc_devs, inc_devs[i].id));
    }
    lemma_filter_keeps_all(inc_devs, sn1);
    Seq::filter_distributes_over_add(inc_devs, kept, sn1);
    let kept2 = kept.filter(sn1);
    assert(devs1 == inc_devs + kept2);
    assert forall|i: int| 0 <= i < kept2.len() implies q(#[trigger] kept2[i]) by {
        assert(kept2.contains(kept2[i]));
        kept.lemma_filter_contains_rev(sn1, kept2[i]);
    }
    assert forall|i: int| 0 <= i < inc_devs.len() implies !q(#[trigger] inc_devs[i]) by {
        assert(has_device(inc_devs, inc_devs[i].id));
    }
    inc_devs.lemma_all_neg_filter_empty(q);
    assert(inc_devs.filter(q) =~= Seq::<DeviceV>::empty());
    Seq::filter_distributes_over_add(inc_devs, kept2, q);
    lemma_filter_keeps_all(kept2, q);
    assert(devs1.filter(q) =~= kept2);
    assert(union_devices(inc_devs, devs1) =~= devs1);
    assert forall|x: int| 0 <= x < devs1.len() implies g1.contains(#[trigger] devs1[x]) by {
        assert(devs1.contains(devs1[x]));
        g1.lemma_filter_contains_rev(sn1, devs1[x]);
    }
    assert forall|x: int, j: int|
        0 <= x < devs1.len() && 0 <= j < g1.len() && #[trigger] devs1[x].parent_ids.contains(#[trigger] g1[j].id)
        implies devs1.contains(g1[j]) by {
        assert(devs1.contains(devs1[x]));
        g1.lemma_filter_contains_rev(sn1, devs1[x]);
        let i = choose|i: int| 0 <= i < g1.len() && g1[i] == devs1[x];
        g1.lemma_filter_pred(sn1, x);
        assert(is_parent(g1, j, i));
        lemma_parent_is_ancestor(g1, j, i);
        if anchored(inc_devs, rows1, g1[i]) {
            assert(g1[j].id == g1[j].id && is_ancestor(g1, j, i));
        } else {
            let (a0, k) = choose|a0: int, k: int|
                0 <= a0 < g1.len() && #[trigger] g1[a0].id == g1[i].id && #[trigger] is_ancestor(g1, a0, k)
                    && anchored(inc_devs, rows1, g1[k]);
            assert(a0 == i);
            lemma_ancestor_extend(g1, j, i, k);
        }
        assert(sn1(g1[j]));
        g1.lemma_filter_contains(sn1, j);
    }
}

/// The first pass for host `f` succeeded on the given state and produced
/// `devs1` and `rows1`; the report's rows are all keyed by `f`.
pub open spec fn first_pass(
    f: Seq<char>,
    inc_devs: Seq<DeviceV>,
    inc_rows: Seq<DeviceHostV>,
    db_devs: Seq<DeviceV>,
    db_rows: Seq<DeviceHostV>,
    devs1: Seq<DeviceV>,
    rows1: Seq<DeviceHostV>,
) -> bool {
    let g1 = merged_devices(f, inc_devs, inc_rows, db_devs, db_rows);
    &&& forall|k: int| 0 <= k < inc_rows.len() ==> #[trigger] inc_rows[k].fqdn == f
    &&& graph_valid(g1)
    &&& ids_unique(g1)
    &&& corrected_rows(g1, merged_rows(f, inc_rows, db_rows), f, rows1)
    &&& devs1 == g1.filter(still_needed(inc_devs, rows1, g1))
    &&& ids_unique(devs1)
}

proof fn lemma_rows_carry_over(
    f: Seq<char>,
    inc_devs: Seq<DeviceV>,
    inc_rows: Seq<DeviceHostV>,
    db_devs: Seq<DeviceV>,
    db_rows: Seq<DeviceHostV>,
    devs1: Seq<DeviceV>,
    rows1: Seq<DeviceHostV>,
)
    requires
        first_pass(f, inc_devs, inc_rows, db_devs, db_rows, devs1, rows1),
    ensures
        forall|d: Seq<char>, h: Seq<char>| h != f ==> !#[trigger] has_row(inc_rows, d, h),
        forall|d: Seq<char>, h: Seq<char>|
            #[trigger] has_row(rows1, d, h) ==> has_row(merged_rows(f, inc_rows, rows1), d, h),
{
    let g1 = merged_devices(f, inc_devs, inc_rows, db_devs, db_rows);
    let mr1 = merged_rows(f, inc_rows, db_rows);
    let mr2 = merged_rows(f, inc_rows, rows1);
    lemma_replaced_rows_membership(f, inc_rows, db_rows);
    lemma_replaced_rows_membership(f, inc_rows, rows1);
    assert forall|d: Seq<char>, h: Seq<char>| h != f implies !#[trigger] has_row(inc_rows, d, h) by {
        if has_row(inc_rows, d, h) {
            let k = choose|k: int| 0 <= k < inc_rows.len() && #[trigger] inc_rows[k].device_id == d && inc_rows[k].fqdn == h;
        }
    }
    assert forall|d: Seq<char>, h: Seq<char>| #[trigger] has_row(rows1, d, h) implies has_row(mr2, d, h) by {
        if h == f {
            assert(expected_row(g1, mr1, f, d, h));
        }
    }
}

/// A device the first pass kept is still referenced in the second merge.
proof fn lemma_kept_device_referenced(
    f: Seq<char>,
    inc_devs: Seq<DeviceV>,
    inc_rows: Seq<DeviceHostV>,
    db_devs: Seq<DeviceV>,
    db_rows: Seq<DeviceHostV>,
    devs1: Seq<DeviceV>,
    rows1: Seq<DeviceHostV>,
    x: int,
)
    requires
        first_pass(f, inc_devs, inc_rows, db_devs, db_rows, devs1, rows1),
        0 <= x < devs1.len(),
    ensures
        still_referenced(inc_devs, merged_rows(f, inc_rows, rows1), devs1)(devs1[x]),
{
    let g1 = merged_devices(f, inc_devs, inc_rows, db_devs, db_rows);
    let mr2 = merged_rows(f, inc_rows, rows1);
    let sn1 = still_needed(inc_devs, rows1, g1);
    lemma_rows_carry_over(f, inc_devs, inc_rows, db_devs, db_rows, devs1, rows1);
    assert(devs1.contains(devs1[x]));
    g1.lemma_filter_contains_rev(sn1, devs1[x]);
    let i = choose|i: int| 0 <= i < g1.len() && g1[i] == devs1[x];
    g1.lemma_filter_pred(sn1, x);
    if has_any_row(rows1, g1[i].id) {
        let k = choose|k: int| 0 <= k < rows1.len() && #[trigger] rows1[k].device_id == g1[i].id;
        assert(has_row(rows1, g1[i].id, rows1[k].fqdn));
        assert(has_row(mr2, g1[i].id, rows1[k].fqdn));
        let m = choose|m: int| 0 <= m < mr2.len() && #[trigger] mr2[m].device_id == g1[i].id && mr2[m].fqdn == rows1[k].fqdn;
    } else if !has_device(inc_devs, g1[i].id) {
        let (a0, k) = choose|a0: int, k: int|
            0 <= a0 < g1.len() && #[trigger] g1[a0].id == g1[i].id && #[trigger] is_ancestor(g1, a0, k)
                && anchored(inc_devs, rows1, g1[k]);
        assert(a0 == i);
        lemma_ancestor_last_step(g1, i, k);
        let c = if is_parent(g1, i, k) {
            k
        } else {
            choose|c: int| 0 <= c < g1.len() && is_parent(g1, i, c) && #[trigger] is_ancestor(g1, c, k)
        };
        if c != k {
            assert(g1[c].id == g1[c].id && is_ancestor(g1, c, k));
        }
        assert(sn1(g1[c]));
        g1.lemma_filter_contains(sn1, c);
        let y = choose|y: int| 0 <= y < devs1.len() && devs1[y] == g1[c];
        assert(devs1[y].parent_ids.contains(devs1[x].id));
        assert(referenced_as_parent(devs1, devs1[x].id));
    }
}

/// The second merge holds exactly the devices the first pass kept.
proof fn lemma_second_merge_devices(
    f: Seq<char>,
    inc_devs: Seq<DeviceV>,
    inc_rows: Seq<DeviceHostV>,
    db_devs: Seq<DeviceV>,
    db_rows: Seq<DeviceHostV>,
    devs1: Seq<DeviceV>,
    rows1: Seq<DeviceHostV>,
)
    requires
        first_pass(f, inc_devs, inc_rows, db_devs, db_rows, devs1, rows1),
    ensures
        merged_devices(f, inc_devs, inc_rows, devs1, rows1) == devs1,
        closed_sublist(devs1, merged_devices(f, inc_devs, inc_rows, db_devs, db_rows)),
        graph_valid(devs1),
{
    let g1 = merged_devices(f, inc_devs, inc_rows, db_devs, db_rows);
    let mr2 = merged_rows(f, inc_rows, rows1);
    let sn1 = still_needed(inc_devs, rows1, g1);
    lemma_kept_devices_shape(f, inc_devs, inc_rows, db_devs, db_rows, rows1);
    lemma_rows_carry_over(f, inc_devs, inc_rows, db_devs, db_rows, devs1, rows1);
    let sr = still_referenced(inc_devs, mr2, devs1);
    assert forall|x: int| 0 <= x < devs1.len() implies sr(#[trigger] devs1[x]) by {
        lemma_kept_device_referenced(f, inc_devs, inc_rows, db_devs, db_rows, devs1, rows1, x);
    }
    lemma_filter_keeps_all(devs1, sr);
    assert(pruned_devices(inc_devs, mr2, devs1) == devs1);
    lemma_closed_sublist_valid(devs1, g1);
}

proof fn lemma_second_rows(
    f: Seq<char>,
    inc_devs: Seq<DeviceV>,
    inc_rows: Seq<DeviceHostV>,
    db_devs: Seq<DeviceV>,
    db_rows: Seq<DeviceHostV>,
    devs1: Seq<DeviceV>,
    rows1: Seq<DeviceHostV>,
    rows2: Seq<DeviceHostV>,
)
    requires
        first_pass(f, inc_devs, inc_rows, db_devs, db_rows, devs1, rows1),
        corrected_rows(
            merged_devices(f, inc_devs, inc_rows, devs1, rows1),
            merged_rows(f, inc_rows, rows1),
            f,
            rows2,
        ),
    ensures
        forall|d: Seq<char>, h: Seq<char>| #[trigger] has_row(rows2, d, h) == has_row(rows1, d, h),
        forall|d: Seq<char>, h: Seq<char>|
            #[trigger] has_local_row(rows2, d, h) == has_local_row(rows1, d, h),
{
    let g1 = merged_devices(f, inc_devs, inc_rows, db_devs, db_rows);
    let mr1 = merged_rows(f, inc_rows, db_rows);
    let mr2 = merged_rows(f, inc_rows, rows1);
    let g2 = merged_devices(f, inc_devs, inc_rows, devs1, rows1);
    let sn1 = still_needed(inc_devs, rows1, g1);
    lemma_second_merge_devices(f, inc_devs, inc_rows, db_devs, db_rows, devs1, rows1);
    lemma_rows_carry_over(f, inc_devs, inc_rows, db_devs, db_rows, devs1, rows1);
    lemma_replaced_rows_membership(f, inc_rows, rows1);
    lemma_reapplied_report_keeps_reported_and_local_rows(
        f,
        inc_devs,
        inc_rows,
        db_devs,
        db_rows,
        devs1,
        rows1,
        rows2,
    );
    assert forall|d: Seq<char>, h: Seq<char>| #[trigger] has_local_row(mr1, d, h) == has_local_row(mr2, d, h) by {
        assert(has_local_row(rows1, d, h) == has_local_row(mr1, d, h));
        assert(has_local_row(rows2, d, h) == has_local_row(mr2, d, h));
    }
    assert forall|d: Seq<char>, h: Seq<char>| #[trigger] has_row(rows2, d, h) == has_row(rows1, d, h) by {
        if h != f {
            if has_row(rows1, d, h) && !has_local_row(rows1, d, h) {
                assert(expected_row(g1, mr1, f, d, h));
                assert(!has_local_row(mr1, d, h));
                let i = choose|i: int| 0 <= i < g1.len() && #[trigger] g1[i].id == d && visible(g1, mr1, h, i);
                assert(has_row(mr2, d, h));
                let m = choose|m: int| 0 <= m < mr2.len() && #[trigger] mr2[m].device_id == d && mr2[m].fqdn == h;
                assert(has_host(mr2, h));
                let k = choose|k: int| 0 <= k < rows1.len() && #[trigger] rows1[k].device_id == d && rows1[k].fqdn == h;
                assert(has_any_row(rows1, g1[i].id));
                assert(sn1(g1[i]));
                g1.lemma_filter_contains(sn1, i);
                let x = choose|x: int| 0 <= x < devs1.len() && devs1[x] == g1[i];
                lemma_sublist_visible(devs1, g1, mr1, h, x, i);
                lemma_visible_same_locals(devs1, mr1, mr2, h, x);
                assert(expected_row(g2, mr2, f, d, h));
            }
            if has_row(rows2, d, h) && !has_local_row(rows2, d, h) {
                assert(expected_row(g2, mr2, f, d, h));
                assert(!has_local_row(mr2, d, h));
                let x = choose|x: int| 0 <= x < g2.len() && #[trigger] g2[x].id == d && visible(g2, mr2, h, x);
                let m = choose|m: int| 0 <= m < mr2.len() && #[trigger] mr2[m].fqdn == h;
                assert(has_row(mr2, mr2[m].device_id, h));
                assert(has_row(rows1, mr2[m].device_id, h));
                assert(expected_row(g1, mr1, f, mr2[m].device_id, h));
                if has_local_row(mr1, mr2[m].device_id, h) {
                    let z = choose|z: int| 0 <= z < mr1.len() && #[trigger] mr1[z].device_id == mr2[m].device_id && mr1[z].fqdn == h && mr1[z].local;
                    assert(has_host(mr1, h));
                }
                assert(g1.contains(devs1[x]));
                let i = choose|i: int| 0 <= i < g1.len() && g1[i] == devs1[x];
                lemma_visible_same_locals(devs1, mr1, mr2, h, x);
                lemma_sublist_visible(devs1, g1, mr1, h, x, i);
                assert(expected_row(g1, mr1, f, d, h));
            }
        }
    }
}

/// Idempotence: reconciling a report of host `f` (whose rows are all keyed
/// by `f`) again, against the state its first reconciliation produced,
/// succeeds and yields the same devices, in the same order, and the same
/// rows. It is stated for passes taken on the merged graphs as they stand
/// (`corrected_rows` over the merged devices), not for the recomputed and
/// cut graph that `build_new_state` works on.
pub proof fn lemma_build_new_state_idempotent(
    f: Seq<char>,
    inc_devs: Seq<DeviceV>,
    inc_rows: Seq<DeviceHostV>,
    db_devs: Seq<DeviceV>,
    db_rows: Seq<DeviceHostV>,
    devs1: Seq<DeviceV>,
    rows1: Seq<DeviceHostV>,
    rows2: Seq<DeviceHostV>,
)
    requires
        first_pass(f, inc_devs, inc_rows, db_devs, db_rows, devs1, rows1),
        corrected_rows(
            merged_devices(f, inc_devs, inc_rows, devs1, rows1),
            merged_rows(f, inc_rows, rows1),
            f,
            rows2,
        ),
    ensures
        ({
            let g2 = merged_devices(f, inc_devs, inc_rows, devs1, rows1);
            &&& graph_valid(g2)
            &&& ids_unique(g2)
            &&& g2.filter(still_needed(inc_devs, rows2, g2)) == devs1
            &&& forall|d: Seq<char>, h: Seq<char>| #[trigger] has_row(rows2, d, h) == has_row(rows1, d, h)
            &&& forall|d: Seq<char>, h: Seq<char>|
                #[trigger] has_local_row(rows2, d, h) == has_local_row(rows1, d, h)
        }),
{
    let g1 = merged_devices(f, inc_devs, inc_rows, db_devs, db_rows);
    let sn1 = still_needed(inc_devs, rows1, g1);
    lemma_second_merge_devices(f, inc_devs, inc_rows, db_devs, db_rows, devs1, rows1);
    lemma_second_rows(f, inc_devs, inc_rows, db_devs, db_rows, devs1, rows1, rows2);
    let sn2 = still_needed(inc_devs, rows2, devs1);
    assert forall|y: int| 0 <= y < devs1.len() implies sn2(#[trigger] devs1[y]) by {
        assert(devs1.contains(devs1[y]));
        g1.lemma_filter_contains_rev(sn1, devs1[y]);
        let i = choose|i: int| 0 <= i < g1.len() && g1[i] == devs1[y];
        g1.lemma_filter_pred(sn1, y);
        if has_any_row(rows1, g1[i].id) {
            let k = choose|k: int| 0 <= k < rows1.len() && #[trigger] rows1[k].device_id == g1[i].id;
            assert(has_row(rows1, g1[i].id, rows1[k].fqdn));
            assert(has_row(rows2, g1[i].id, rows1[k].fqdn));
            let m = choose|m: int| 0 <= m < rows2.len() && #[trigger] rows2[m].device_id == g1[i].id && rows2[m].fqdn == rows1[k].fqdn;
            assert(has_any_row(rows2, devs1[y].id));
        } else if !has_device(inc_devs, g1[i].id) {
            let (a0, k) = choose|a0: int, k: int|
                0 <= a0 < g1.len() && #[trigger] g1[a0].id == g1[i].id && #[trigger] is_ancestor(g1, a0, k)
                    && anchored(inc_devs, rows1, g1[k]);
            assert(a0 == i);
            assert(sn1(g1[k]));
            g1.lemma_filter_contains(sn1, k);
            let z = choose|z: int| 0 <= z < devs1.len() && devs1[z] == g1[k];
            lemma_sublist_ancestor(devs1, g1, z, k, y, i);
            if has_any_row(rows1, g1[k].id) {
                let kk = choose|kk: int| 0 <= kk < rows1.len() && #[trigger] rows1[kk].device_id == g1[k].id;
                assert(has_row(rows1, g1[k].id, rows1[kk].fqdn));
                assert(has_row(rows2, g1[k].id, rows1[kk].fqdn));
                let m = choose|m: int| 0 <= m < rows2.len() && #[trigger] rows2[m].device_id == g1[k].id && rows2[m].fqdn == rows1[kk].fqdn;
            }
            assert(anchored(inc_devs, rows2, devs1[z]));
            assert(devs1[y].id == devs1[y].id && is_ancestor(devs1, y, z));
        }
    }
    lemma_filter_keeps_all(devs1, sn2);
}

/// Order does not matter: two merged states that hold the same devices and
/// the same rows, each in any order, get the same corrected rows.
pub proof fn lemma_corrected_rows_ignore_order(
    f: Seq<char>,
    g: Seq<DeviceV>,
    r: Seq<DeviceHostV>,
    out: Seq<DeviceHostV>,
    g2: Seq<DeviceV>,
    r2: Seq<DeviceHostV>,
    out2: Seq<DeviceHostV>,
)
    requires
        graph_valid(g),
        ids_unique(g),
        ids_unique(g2),
        forall|x: int| 0 <= x < g2.len() ==> g.contains(#[trigger] g2[x]),
        forall|i: int| 0 <= i < g.len() ==> g2.contains(#[trigger] g[i]),
        forall|d: Seq<char>, h: Seq<char>| #[trigger] has_row(r, d, h) == has_row(r2, d, h),
        forall|d: Seq<char>, h: Seq<char>| #[trigger] has_local_row(r, d, h) == has_local_row(r2, d, h),
        corrected_rows(g, r, f, out),
        corrected_rows(g2, r2, f, out2),
    ensures
        forall|d: Seq<char>, h: Seq<char>| #[trigger] has_row(out, d, h) == has_row(out2, d, h),
        forall|d: Seq<char>, h: Seq<char>|
            #[trigger] has_local_row(out, d, h) == has_local_row(out2, d, h),
{
    assert(closed_sublist(g2, g));
    lemma_closed_sublist_valid(g2, g);
    assert forall|h: Seq<char>| #[trigger] has_host(r, h) == has_host(r2, h) by {
        if has_host(r, h) {
            let k = choose|k: int| 0 <= k < r.len() && #[trigger] r[k].fqdn == h;
            assert(has_row(r, r[k].device_id, h));
            assert(has_row(r2, r[k].device_id, h));
            let m = choose|m: int| 0 <= m < r2.len() && #[trigger] r2[m].device_id == r[k].device_id && r2[m].fqdn == h;
            assert(has_host(r2, h));
        }
        if has_host(r2, h) {
            let k = choose|k: int| 0 <= k < r2.len() && #[trigger] r2[k].fqdn == h;
            assert(has_row(r2, r2[k].device_id, h));
            assert(has_row(r, r2[k].device_id, h));
            let m = choose|m: int| 0 <= m < r.len() && #[trigger] r[m].device_id == r2[k].device_id && r[m].fqdn == h;
            assert(has_host(r, h));
        }
    }
    assert forall|d: Seq<char>, h: Seq<char>| #[trigger] has_row(out, d, h) == has_row(out2, d, h) by {
        if h != f && has_host(r, h) {
            if exists|i: int| 0 <= i < g.len() && #[trigger] g[i].id == d && visible(g, r, h, i) {
                let i = choose|i: int| 0 <= i < g.len() && #[trigger] g[i].id == d && visible(g, r, h, i);
                assert(g2.contains(g[i]));
                let x = choose|x: int| 0 <= x < g2.len() && g2[x] == g[i];
                lemma_sublist_visible(g2, g, r, h, x, i);
                lemma_visible_same_locals(g2, r, r2, h, x);
                assert(g2[x].id == d);
            }
            if exists|x: int| 0 <= x < g2.len() && #[trigger] g2[x].id == d && visible(g2, r2, h, x) {
                let x = choose|x: int| 0 <= x < g2.len() && #[trigger] g2[x].id == d && visible(g2, r2, h, x);
                assert(g.contains(g2[x]));
                let i = choose|i: int| 0 <= i < g.len() && g[i] == g2[x];
                lemma_sublist_visible(g2, g, r, h, x, i);
                lemma_visible_same_locals(g2, r, r2, h, x);
                assert(g[i].id == d);
            }
        }
        assert(expected_row(g, r, f, d, h) == expected_row(g2, r2, f, d, h));
    }
}

} // verus!
