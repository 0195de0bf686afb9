//! Lookups in the device graph, its validation, and the ancestor check.
use vstd::prelude::*;
use crate::model::{parents_exist, has_cycle, ReconcileError, Device, DeviceV, DeviceHostV, DeviceHost, devices_view, rows_view, has_device, has_row, is_ancestor, is_parent_path, is_parent, ancestors_have_rows, graph_valid, ids_unique, parent_ok};

verus! {

pub fn find_device(devs: &Vec<Device>, id: &String) -> (r: Option<usize>)
    ensures
        match r {
            Some(j) => j < devs@.len() && devs@[j as int]@.id == id@,
            None => !has_device(devices_view(devs@), id@),
        },
        r.is_some() == has_device(devices_view(devs@), id@),
{
    let mut j: usize = 0;
    while j < devs.len()
        invariant
            j <= devs@.len(),
            forall|x: int| 0 <= x < j ==> devs@[x]@.id != id@,
        decreases devs@.len() - j,
    {
        if devs[j].id == *id {
            assert(devices_view(devs@)[j as int] == devs@[j as int]@);
            return Some(j);
        }
        j = j + 1;
    }
    None
}

pub fn row_present(rows: &Vec<DeviceHost>, d: &String, h: &String) -> (r: bool)
    ensures
        r == has_row(rows_view(rows@), d@, h@),
{
    let mut k: usize = 0;
    while k < rows.len()
        invariant
            k <= rows@.len(),
            forall|x: int| 0 <= x < k ==> !(rows@[x]@.device_id == d@ && rows@[x]@.fqdn == h@),
        decreases rows@.len() - k,
    {
        if rows[k].device_id == *d && rows[k].fqdn == *h {
            proof {
                let rv = rows_view(rows@);
                assert(rv[k as int] == rows@[k as int]@);
                assert(rv[k as int].device_id == d@ && rv[k as int].fqdn == h@);
                assert(0 <= k < rv.len());
            }
            return true;
        }
        k = k + 1;
    }
    proof {
        if has_row(rows_view(rows@), d@, h@) {
            let x = choose|x: int|
                0 <= x < rows_view(rows@).len() && #[trigger] rows_view(rows@)[x].device_id == d@
                    && rows_view(rows@)[x].fqdn == h@;
            assert(rows_view(rows@)[x] == rows@[x]@);
        }
    }
    false
}

pub proof fn lemma_ancestor_step(g: Seq<DeviceV>, a: int, j: int, i: int)
    requires
        0 <= i < g.len(),
        0 <= j < g.len(),
        is_parent(g, j, i),
        is_ancestor(g, a, j),
    ensures
        is_ancestor(g, a, i),
{
    let p = choose|p: Seq<int>| #[trigger] is_parent_path(g, p) && p[0] == j && p.last() == a;
    let q = seq![i].add(p);
    assert forall|k: int| 0 <= k < q.len() - 1 implies is_parent(g, q[k + 1], #[trigger] q[k]) by {
        if k > 0 {
            assert(q[k] == p[k - 1] && q[k + 1] == p[k]);
        }
    }
    assert forall|k: int| 0 <= k < q.len() implies 0 <= #[trigger] q[k] < g.len() by {
        if k > 0 {
            assert(q[k] == p[k - 1]);
        }
    }
    assert(is_parent_path(g, q));
    assert(q.last() == p.last());
}

pub proof fn lemma_parent_is_ancestor(g: Seq<DeviceV>, j: int, i: int)
    requires
        0 <= i < g.len(),
        0 <= j < g.len(),
        is_parent(g, j, i),
    ensures
        is_ancestor(g, j, i),
{
    let q = seq![i, j];
    assert(is_parent_path(g, q));
}

/// Unfolds the ancestor relation by one parent step.
pub proof fn lemma_ancestor_cases(g: Seq<DeviceV>, a: int, i: int)
    requires
        is_ancestor(g, a, i),
    ensures
        0 <= a < g.len(),
        0 <= i < g.len(),
        is_parent(g, a, i) || exists|j: int|
            0 <= j < g.len() && is_parent(g, j, i) && #[trigger] is_ancestor(g, a, j),
{
    let p = choose|p: Seq<int>| #[trigger] is_parent_path(g, p) && p[0] == i && p.last() == a;
    assert(0 <= p[p.len() - 1] < g.len());
    assert(0 <= p[0] < g.len());
    assert(is_parent(g, p[1], p[0]));
    if p.len() > 2 {
        let q = p.drop_first();
        assert forall|k: int| 0 <= k < q.len() - 1 implies is_parent(g, q[k + 1], #[trigger] q[k]) by {
            assert(q[k] == p[k + 1] && q[k + 1] == p[k + 2]);
        }
        assert forall|k: int| 0 <= k < q.len() implies 0 <= #[trigger] q[k] < g.len() by {
            assert(q[k] == p[k + 1]);
        }
        assert(is_parent_path(g, q));
        assert(is_ancestor(g, a, p[1]));
    }
}

/// Every ancestor is strictly shallower than its descendant.
pub proof fn lemma_ancestor_shallower(g: Seq<DeviceV>, a: int, i: int)
    requires
        graph_valid(g),
        ids_unique(g),
        is_ancestor(g, a, i),
    ensures
        0 <= a < g.len(),
        0 <= i < g.len(),
        g[a].max_depth < g[i].max_depth,
    decreases g[i].max_depth,
{
    lemma_ancestor_cases(g, a, i);
    if is_parent(g, a, i) {
        lemma_parent_shallower(g, a, i);
    } else {
        let j = choose|j: int| 0 <= j < g.len() && is_parent(g, j, i) && #[trigger] is_ancestor(g, a, j);
        lemma_parent_shallower(g, j, i);
        lemma_ancestor_shallower(g, a, j);
    }
}

pub proof fn lemma_parent_shallower(g: Seq<DeviceV>, j: int, i: int)
    requires
        graph_valid(g),
        ids_unique(g),
        0 <= i < g.len(),
        0 <= j < g.len(),
        is_parent(g, j, i),
    ensures
        g[j].max_depth < g[i].max_depth,
{
    let k = choose|k: int| 0 <= k < g[i].parent_ids.len() && g[i].parent_ids[k] == g[j].id;
    assert(parent_ok(g, i, k));
    let jj = choose|jj: int|
        0 <= jj < g.len() && #[trigger] g[jj].id == g[i].parent_ids[k]
            && g[jj].max_depth < g[i].max_depth;
    assert(g[jj].id == g[j].id);
}

/// A device marked in `visited` has a row for `host`, and so has each of its
/// ancestors.
pub open spec fn visited_ok(
    g: Seq<DeviceV>,
    r: Seq<DeviceHostV>,
    host: Seq<char>,
    visited: Seq<bool>,
) -> bool {
    visited.len() == g.len() && forall|j: int|
        0 <= j < g.len() && #[trigger] visited[j] ==> has_row(r, g[j].id, host)
            && ancestors_have_rows(g, r, host, j)
}

/// Walks the ancestors of device `i`, skipping those already in `visited`
/// and marking each one whose whole ancestry is found to have rows, so that
/// shared ancestors are examined once.
fn ancestors_present_from(
    devs: &Vec<Device>,
    rows: &Vec<DeviceHost>,
    host: &String,
    i: usize,
    visited: &mut Vec<bool>,
) -> (r: bool)
    requires
        i < devs@.len(),
        ids_unique(devices_view(devs@)),
        graph_valid(devices_view(devs@)),
        visited_ok(devices_view(devs@), rows_view(rows@), host@, old(visited)@),
    ensures
        visited_ok(devices_view(devs@), rows_view(rows@), host@, final(visited)@),
        r == ancestors_have_rows(devices_view(devs@), rows_view(rows@), host@, i as int),
    decreases devs@[i as int].max_depth,
{
    let ghost g = devices_view(devs@);
    let ghost r = rows_view(rows@);
    let mut k: usize = 0;
    while k < devs[i].parent_ids.len()
        invariant
            i < devs@.len(),
            k <= devs@[i as int].parent_ids@.len(),
            g == devices_view(devs@),
            r == rows_view(rows@),
            ids_unique(g),
            graph_valid(g),
            visited_ok(g, r, host@, visited@),
            forall|j: int|
                0 <= j < g.len() && #[trigger] g[i as int].parent_ids.subrange(0, k as int).contains(
                    g[j].id,
                ) ==> has_row(r, g[j].id, host@) && ancestors_have_rows(g, r, host@, j),
        decreases devs@[i as int].parent_ids@.len() - k,
    {
        assert(g[i as int] == devs@[i as int]@);
        assert(g[i as int].parent_ids[k as int] == devs@[i as int].parent_ids@[k as int]@);
        let j = match find_device(devs, &devs[i].parent_ids[k]) {
            Some(j) => j,
            None => {
                proof {
                    assert(parent_ok(g, i as int, k as int));
                }
                return false;
            },
        };
        assert(g[j as int] == devs@[j as int]@);
        assert(is_parent(g, j as int, i as int));
        proof {
            lemma_parent_shallower(g, j as int, i as int);
            lemma_parent_is_ancestor(g, j as int, i as int);
        }
        if !visited[j] {
            if !row_present(rows, &devs[j].id, host) {
                return false;
            }
            if !ancestors_present_from(devs, rows, host, j, visited) {
                proof {
                    let a = choose|a: int| #[trigger] is_ancestor(g, a, j as int) && !has_row(r, g[a].id, host@);
                    lemma_ancestor_step(g, a, j as int, i as int);
                }
                return false;
            }
            visited[j] = true;
        }
        assert(has_row(r, g[j as int].id, host@) && ancestors_have_rows(g, r, host@, j as int));
        proof {
            assert forall|jj: int|
                0 <= jj < g.len() && #[trigger] g[i as int].parent_ids.subrange(0, k + 1).contains(
                    g[jj].id,
                ) implies has_row(r, g[jj].id, host@) && ancestors_have_rows(g, r, host@, jj) by {
                let x = choose|x: int|
                    0 <= x < k + 1 && #[trigger] g[i as int].parent_ids.subrange(0, k + 1)[x] == g[jj].id;
                if x < k {
                    assert(g[i as int].parent_ids.subrange(0, k as int)[x] == g[jj].id);
                    assert(g[i as int].parent_ids.subrange(0, k as int).contains(g[jj].id));
                } else {
                    assert(g[jj].id == g[j as int].id);
                    assert(jj == j);
                }
            }
        }
        k = k + 1;
    }
    proof {
        assert(g[i as int] == devs@[i as int]@);
        assert(g[i as int].parent_ids.subrange(0, k as int) == g[i as int].parent_ids);
        assert forall|a: int| #[trigger] is_ancestor(g, a, i as int) implies has_row(r, g[a].id, host@) by {
            lemma_ancestor_cases(g, a, i as int);
            if !is_parent(g, a, i as int) {
                let j = choose|j: int|
                    0 <= j < g.len() && is_parent(g, j, i as int) && #[trigger] is_ancestor(g, a, j);
                assert(g[i as int].parent_ids.subrange(0, k as int).contains(g[j].id));
            } else {
                assert(g[i as int].parent_ids.subrange(0, k as int).contains(g[a].id));
            }
        }
    }
    true
}

/// Whether every ancestor of the device `device_id` has a row, local or
/// propagated, for `host`. A device without parents, or one that `devices`
/// does not hold, has no ancestors. Fails with `InvalidInput` exactly when a
/// parent id names no device or the parent relation has a cycle.
pub fn all_parents_available(
    devices: &Vec<Device>,
    device_hosts: &Vec<DeviceHost>,
    host: &String,
    device_id: &String,
) -> (r: Result<bool, ReconcileError>)
    requires
        ids_unique(devices_view(devices@)),
    ensures
        r is Err <==> (!parents_exist(devices_view(devices@)) || has_cycle(devices_view(devices@))),
        r matches Err(e) ==> e == ReconcileError::InvalidInput,
        r matches Ok(b) ==> b == (forall|i: int|
            0 <= i < devices@.len() && #[trigger] devices_view(devices@)[i].id == device_id@
                ==> ancestors_have_rows(
                devices_view(devices@),
                rows_view(device_hosts@),
                host@,
                i,
            )),
{
    let devs = match crate::depth::compute_depths(devices) {
        Err(e) => {
            return Err(e);
        },
        Ok(d) => d,
    };
    let ghost g = devices_view(devices@);
    let ghost g2 = devices_view(devs@);
    proof {
        assert forall|x: int| 0 <= x < g.len() implies ancestors_have_rows(g2, rows_view(device_hosts@), host@, x)
            == ancestors_have_rows(g, rows_view(device_hosts@), host@, x) by {
            assert forall|a: int| is_ancestor(g2, a, x) == is_ancestor(g, a, x) by {
                crate::depth::lemma_same_shape_ancestor(g2, g, a, x);
            }
            assert forall|a: int| 0 <= a < g.len() implies g2[a].id == g[a].id by {
            }
        }
    }
    match find_device(&devs, device_id) {
        None => {
            proof {
                assert forall|x: int| 0 <= x < g.len() implies g[x].id != device_id@ by {
                    assert(g2[x].id == g[x].id);
                }
            }
            Ok(true)
        },
        Some(i) => {
            let mut visited: Vec<bool> = Vec::new();
            while visited.len() < devs.len()
                invariant
                    visited@.len() <= devs@.len(),
                    forall|j: int| 0 <= j < visited@.len() ==> !#[trigger] visited@[j],
                decreases devs@.len() - visited@.len(),
            {
                visited.push(false);
            }
            let b = ancestors_present_from(&devs, device_hosts, host, i, &mut visited);
            proof {
                assert forall|x: int| 0 <= x < devices@.len() && #[trigger] g[x].id == device_id@
                    implies ancestors_have_rows(g, rows_view(device_hosts@), host@, x) == b by {
                    assert(g2[x].id == g[x].id);
                    assert(g2[x].id == g2[i as int].id);
                }
            }
            Ok(b)
        },
    }
}

/// Decides whether device `a` is an ancestor of device `i`.
pub fn ancestor_at(devs: &Vec<Device>, a: usize, i: usize) -> (r: bool)
    requires
        a < devs@.len(),
        i < devs@.len(),
        ids_unique(devices_view(devs@)),
        graph_valid(devices_view(devs@)),
    ensures
        r == is_ancestor(devices_view(devs@), a as int, i as int),
    decreases devs@[i as int].max_depth,
{
    let ghost g = devices_view(devs@);
    let mut k: usize = 0;
    while k < devs[i].parent_ids.len()
        invariant
            i < devs@.len(),
            a < devs@.len(),
            k <= devs@[i as int].parent_ids@.len(),
            g == devices_view(devs@),
            ids_unique(g),
            graph_valid(g),
            forall|j: int|
                0 <= j < g.len() && #[trigger] g[i as int].parent_ids.subrange(0, k as int).contains(
                    g[j].id,
                ) ==> j != a && !is_ancestor(g, a as int, j),
        decreases devs@[i as int].parent_ids@.len() - k,
    {
        assert(g[i as int] == devs@[i as int]@);
        assert(g[i as int].parent_ids[k as int] == devs@[i as int].parent_ids@[k as int]@);
        let j = match find_device(devs, &devs[i].parent_ids[k]) {
            Some(j) => j,
            None => {
                proof {
                    assert(parent_ok(g, i as int, k as int));
                }
                return false;
            },
        };
        assert(g[j as int] == devs@[j as int]@);
        assert(is_parent(g, j as int, i as int));
        proof {
            lemma_parent_shallower(g, j as int, i as int);
            lemma_parent_is_ancestor(g, j as int, i as int);
        }
        if j == a {
            return true;
        }
        if ancestor_at(devs, a, j) {
            proof {
                lemma_ancestor_step(g, a as int, j as int, i as int);
            }
            return true;
        }
        proof {
            assert forall|jj: int|
                0 <= jj < g.len() && #[trigger] g[i as int].parent_ids.subrange(0, k + 1).contains(
                    g[jj].id,
                ) implies jj != a && !is_ancestor(g, a as int, jj) by {
                let x = choose|x: int|
                    0 <= x < k + 1 && #[trigger] g[i as int].parent_ids.subrange(0, k + 1)[x] == g[jj].id;
                if x < k {
                    assert(g[i as int].parent_ids.subrange(0, k as int)[x] == g[jj].id);
                    assert(g[i as int].parent_ids.subrange(0, k as int).contains(g[jj].id));
                } else {
                    assert(g[jj].id == g[j as int].id);
                    assert(jj == j);
                }
            }
        }
        k = k + 1;
    }
    proof {
        assert(g[i as int] == devs@[i as int]@);
        assert(g[i as int].parent_ids.subrange(0, k as int) == g[i as int].parent_ids);
        if is_ancestor(g, a as int, i as int) {
            lemma_ancestor_cases(g, a as int, i as int);
            if !is_parent(g, a as int, i as int) {
                let j = choose|j: int|
                    0 <= j < g.len() && is_parent(g, j, i as int) && #[trigger] is_ancestor(g, a as int, j);
                assert(g[i as int].parent_ids.subrange(0, k as int).contains(g[j].id));
            } else {
                assert(g[i as int].parent_ids.subrange(0, k as int).contains(g[a as int].id));
            }
        }
    }
    false
}

/// A parent of an ancestor is an ancestor.
pub proof fn lemma_ancestor_extend(g: Seq<DeviceV>, j: int, a: int, i: int)
    requires
        0 <= j < g.len(),
        is_ancestor(g, a, i),
        is_parent(g, j, a),
    ensures
        is_ancestor(g, j, i),
{
    let p = choose|p: Seq<int>| #[trigger] is_parent_path(g, p) && p[0] == i && p.last() == a;
    let q = p.push(j);
    assert forall|k: int| 0 <= k < q.len() - 1 implies is_parent(g, q[k + 1], #[trigger] q[k]) by {
        if k < p.len() - 1 {
            assert(q[k] == p[k] && q[k + 1] == p[k + 1]);
        } else {
            assert(q[k] == p.last());
        }
    }
    assert forall|k: int| 0 <= k < q.len() implies 0 <= #[trigger] q[k] < g.len() by {
        if k < p.len() {
            assert(q[k] == p[k]);
        }
    }
    assert(is_parent_path(g, q));
}

/// Splits off the last parent step of an ancestry.
pub proof fn lemma_ancestor_last_step(g: Seq<DeviceV>, a: int, i: int)
    requires
        is_ancestor(g, a, i),
    ensures
        is_parent(g, a, i) || exists|c: int|
            0 <= c < g.len() && is_parent(g, a, c) && #[trigger] is_ancestor(g, c, i),
{
    let p = choose|p: Seq<int>| #[trigger] is_parent_path(g, p) && p[0] == i && p.last() == a;
    assert(is_parent(g, p[p.len() - 1], p[p.len() - 2]));
    if p.len() > 2 {
        let q = p.drop_last();
        assert forall|k: int| 0 <= k < q.len() - 1 implies is_parent(g, q[k + 1], #[trigger] q[k]) by {
            assert(q[k] == p[k] && q[k + 1] == p[k + 1]);
        }
        assert forall|k: int| 0 <= k < q.len() implies 0 <= #[trigger] q[k] < g.len() by {
            assert(q[k] == p[k]);
        }
        assert(is_parent_path(g, q));
        assert(is_ancestor(g, p[p.len() - 2], i));
    }
}

} // verus!
