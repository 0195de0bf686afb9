//! Visibility of devices on hosts, decided from the hosts' local rows.
use vstd::prelude::*;
use crate::model::{
    Device, DeviceHost, DeviceV, DeviceHostV, devices_view, rows_view, has_local_row,
    local_somewhere, is_ancestor, is_parent, graph_valid, ids_unique, visible_within, visible,
    ancestors_visible, propagable,
};
use crate::graph::{
    find_device, lemma_ancestor_cases, lemma_ancestor_shallower, lemma_parent_shallower,
    lemma_parent_is_ancestor, lemma_ancestor_step,
};

verus! {

/// Unfolding deeper than the depth of a device changes nothing.
pub proof fn lemma_visible_fuel(
    g: Seq<DeviceV>,
    r: Seq<DeviceHostV>,
    h: Seq<char>,
    i: int,
    n: nat,
)
    requires
        graph_valid(g),
        ids_unique(g),
        0 <= i < g.len(),
        n > g[i].max_depth,
    ensures
        visible_within(g, r, h, i, n) == visible(g, r, h, i),
        visible(g, r, h, i) == (has_local_row(r, g[i].id, h) || (propagable(g, r, i)
            && ancestors_visible(g, r, h, i))),
    decreases g[i].max_depth,
{
    let m = (g[i].max_depth + 1) as nat;
    assert forall|a: int| #[trigger] is_ancestor(g, a, i) implies visible_within(
        g,
        r,
        h,
        a,
        (n - 1) as nat,
    ) == visible(g, r, h, a) && visible_within(g, r, h, a, (m - 1) as nat) == visible(g, r, h, a) by {
        lemma_ancestor_shallower(g, a, i);
        lemma_visible_fuel(g, r, h, a, (n - 1) as nat);
        lemma_visible_fuel(g, r, h, a, (m - 1) as nat);
    }
}

pub fn local_row_present(rows: &Vec<DeviceHost>, d: &String, h: &String) -> (r: bool)
    ensures
        r == has_local_row(rows_view(rows@), d@, h@),
{
    let ghost rv = rows_view(rows@);
    let mut k: usize = 0;
    while k < rows.len()
        invariant
            k <= rows@.len(),
            rv == rows_view(rows@),
            rv.len() == rows@.len(),
            forall|x: int|
                0 <= x < k ==> !(rv[x].device_id == d@ && rv[x].fqdn == h@ && rv[x].local),
        decreases rows@.len() - k,
    {
        assert(rv[k as int] == rows@[k as int]@);
        if rows[k].device_id == *d && rows[k].fqdn == *h && rows[k].local {
            assert(rv[k as int].device_id == d@);
            return true;
        }
        k = k + 1;
    }
    false
}

/// A device marked in `settled` is visible on `host`, and so is each of its
/// ancestors.
pub open spec fn settled_ok(
    g: Seq<DeviceV>,
    r: Seq<DeviceHostV>,
    host: Seq<char>,
    settled: Seq<bool>,
) -> bool {
    settled.len() == g.len() && forall|j: int|
        0 <= j < g.len() && #[trigger] settled[j] ==> visible(g, r, host, j) && ancestors_visible(
            g,
            r,
            host,
            j,
        )
}

/// Decides whether device `i` is visible on `host`.
pub fn visible_at(
    devs: &Vec<Device>,
    rows: &Vec<DeviceHost>,
    host: &String,
    i: usize,
    settled: &mut Vec<bool>,
) -> (r: bool)
    requires
        i < devs@.len(),
        ids_unique(devices_view(devs@)),
        graph_valid(devices_view(devs@)),
        settled_ok(devices_view(devs@), rows_view(rows@), host@, old(settled)@),
    ensures
        settled_ok(devices_view(devs@), rows_view(rows@), host@, final(settled)@),
        r == visible(devices_view(devs@), rows_view(rows@), host@, i as int),
    decreases devs@[i as int].max_depth, 1nat,
{
    let ghost g = devices_view(devs@);
    proof {
        assert(g[i as int] == devs@[i as int]@);
        lemma_visible_fuel(g, rows_view(rows@), host@, i as int, (g[i as int].max_depth + 1) as nat);
    }
    if local_row_present(rows, &devs[i].id, host) {
        return true;
    }
    if devs[i].parent_ids.len() == 0 {
        return false;
    }
    ancestors_visible_at(devs, rows, host, i, settled)
}

/// Decides whether every ancestor of device `i` is visible on `host`,
/// skipping ancestors already settled and settling those it confirms.
pub fn ancestors_visible_at(
    devs: &Vec<Device>,
    rows: &Vec<DeviceHost>,
    host: &String,
    i: usize,
    settled: &mut Vec<bool>,
) -> (r: bool)
    requires
        i < devs@.len(),
        ids_unique(devices_view(devs@)),
        graph_valid(devices_view(devs@)),
        settled_ok(devices_view(devs@), rows_view(rows@), host@, old(settled)@),
    ensures
        settled_ok(devices_view(devs@), rows_view(rows@), host@, final(settled)@),
        r == ancestors_visible(devices_view(devs@), rows_view(rows@), host@, i as int),
    decreases devs@[i as int].max_depth, 0nat,
{
    let ghost g = devices_view(devs@);
    let ghost r = rows_view(rows@);
    let mut k: usize = 0;
    while k < devs[i].parent_ids.len()
        invariant
            i < devs@.len(),
            k <= devs@[i as int].parent_ids@.len(),
            g == devices_view(devs@),
            r == rows_view(rows@),
            ids_unique(g),
            graph_valid(g),
            settled_ok(g, r, host@, settled@),
            forall|j: int|
                0 <= j < g.len() && #[trigger] g[i as int].parent_ids.subrange(0, k as int).contains(
                    g[j].id,
                ) ==> visible(g, r, host@, j) && ancestors_visible(g, r, host@, j),
        decreases devs@[i as int].parent_ids@.len() - k,
    {
        assert(g[i as int] == devs@[i as int]@);
        assert(g[i as int].parent_ids[k as int] == devs@[i as int].parent_ids@[k as int]@);
        let j = match find_device(devs, &devs[i].parent_ids[k]) {
            Some(j) => j,
            None => {
                proof {
                    assert(crate::model::parent_ok(g, i as int, k as int));
                }
                return false;
            },
        };
        assert(g[j as int] == devs@[j as int]@);
        assert(is_parent(g, j as int, i as int));
        proof {
            lemma_parent_shallower(g, j as int, i as int);
            lemma_parent_is_ancestor(g, j as int, i as int);
        }
        if !settled[j] {
            if !visible_at(devs, rows, host, j, settled) {
                return false;
            }
            if !ancestors_visible_at(devs, rows, host, j, settled) {
                proof {
                    let a = choose|a: int| #[trigger] is_ancestor(g, a, j as int) && !visible(g, r, host@, a);
                    lemma_ancestor_step(g, a, j as int, i as int);
                }
                return false;
            }
            settled[j] = true;
        }
        assert(visible(g, r, host@, j as int) && ancestors_visible(g, r, host@, j as int));
        proof {
            assert forall|jj: int|
                0 <= jj < g.len() && #[trigger] g[i as int].parent_ids.subrange(0, k + 1).contains(
                    g[jj].id,
                ) implies visible(g, r, host@, jj) && ancestors_visible(g, r, host@, jj) by {
                let x = choose|x: int|
                    0 <= x < k + 1 && #[trigger] g[i as int].parent_ids.subrange(0, k + 1)[x] == g[jj].id;
                if x < k {
                    assert(g[i as int].parent_ids.subrange(0, k as int)[x] == g[jj].id);
                    assert(g[i as int].parent_ids.subrange(0, k as int).contains(g[jj].id));
                } else {
                    assert(g[jj].id == g[j as int].id);
                    assert(jj == j);
                }
            }
        }
        k = k + 1;
    }
    proof {
        assert(g[i as int] == devs@[i as int]@);
        assert(g[i as int].parent_ids.subrange(0, k as int) == g[i as int].parent_ids);
        assert forall|a: int| #[trigger] is_ancestor(g, a, i as int) implies visible(g, r, host@, a) by {
            lemma_ancestor_cases(g, a, i as int);
            if !is_parent(g, a, i as int) {
                let j = choose|j: int|
                    0 <= j < g.len() && is_parent(g, j, i as int) && #[trigger] is_ancestor(g, a, j);
                assert(g[i as int].parent_ids.subrange(0, k as int).contains(g[j].id));
            } else {
                assert(g[i as int].parent_ids.subrange(0, k as int).contains(g[a].id));
            }
        }
    }
    true
}

/// Visibility reads the rows only through their local ones.
pub proof fn lemma_visible_same_locals(
    g: Seq<DeviceV>,
    r1: Seq<DeviceHostV>,
    r2: Seq<DeviceHostV>,
    h: Seq<char>,
    i: int,
)
    requires
        graph_valid(g),
        ids_unique(g),
        0 <= i < g.len(),
        forall|d: Seq<char>, hh: Seq<char>| #[trigger] has_local_row(r1, d, hh) == has_local_row(r2, d, hh),
    ensures
        visible(g, r1, h, i) == visible(g, r2, h, i),
    decreases g[i].max_depth,
{
    lemma_visible_fuel(g, r1, h, i, (g[i].max_depth + 1) as nat);
    lemma_visible_fuel(g, r2, h, i, (g[i].max_depth + 1) as nat);
    if local_somewhere(r1, g[i].id) {
        let k = choose|k: int| 0 <= k < r1.len() && #[trigger] r1[k].device_id == g[i].id && r1[k].local;
        assert(has_local_row(r1, g[i].id, r1[k].fqdn));
        assert(has_local_row(r2, g[i].id, r1[k].fqdn));
        let m = choose|m: int| 0 <= m < r2.len() && #[trigger] r2[m].device_id == g[i].id && r2[m].fqdn == r1[k].fqdn && r2[m].local;
        assert(local_somewhere(r2, g[i].id));
    }
    if local_somewhere(r2, g[i].id) {
        let k = choose|k: int| 0 <= k < r2.len() && #[trigger] r2[k].device_id == g[i].id && r2[k].local;
        assert(has_local_row(r2, g[i].id, r2[k].fqdn));
        assert(has_local_row(r1, g[i].id, r2[k].fqdn));
        let m = choose|m: int| 0 <= m < r1.len() && #[trigger] r1[m].device_id == g[i].id && r1[m].fqdn == r2[k].fqdn && r1[m].local;
        assert(local_somewhere(r1, g[i].id));
    }
    assert(propagable(g, r1, i) == propagable(g, r2, i));
    assert forall|a: int| #[trigger] is_ancestor(g, a, i) implies visible(g, r1, h, a) == visible(g, r2, h, a) by {
        lemma_ancestor_shallower(g, a, i);
        lemma_visible_same_locals(g, r1, r2, h, a);
    }
}

} // verus!
