//! Recomputing device depths: a root has depth 0, any other device one more
//! than its deepest parent. Fails on a dangling parent or a cycle.
use vstd::prelude::*;
use vstd::set_lib::{set_int_range, lemma_int_range, lemma_len_subset};
use crate::model::{
    Device, DeviceV, ReconcileError, devices_view, ids_unique, has_device, is_parent,
    is_parent_path, is_ancestor, parents_exist, has_cycle, depths_consistent, same_shape,
    graph_valid, parent_ok, strs_view, copy_device,
};
use crate::graph::{find_device, lemma_ancestor_shallower};

verus! {

pub open spec fn num_unassigned(s: Seq<bool>) -> nat
    decreases s.len(),
{
    if s.len() == 0 {
        0
    } else {
        num_unassigned(s.drop_last()) + if s.last() {
            0nat
        } else {
            1nat
        }
    }
}

proof fn lemma_unassigned_update(s: Seq<bool>, j: int)
    requires
        0 <= j < s.len(),
        !s[j],
    ensures
        num_unassigned(s.update(j, true)) + 1 == num_unassigned(s),
    decreases s.len(),
{
    let t = s.update(j, true);
    if j < s.len() - 1 {
        assert(t.drop_last() =~= s.drop_last().update(j, true));
        lemma_unassigned_update(s.drop_last(), j);
    } else {
        assert(t.drop_last() =~= s.drop_last());
    }
}

proof fn lemma_unassigned_zero(s: Seq<bool>)
    ensures
        num_unassigned(s) == 0 <==> forall|i: int| 0 <= i < s.len() ==> #[trigger] s[i],
        num_unassigned(s) <= s.len(),
    decreases s.len(),
{
    if s.len() > 0 {
        lemma_unassigned_zero(s.drop_last());
        assert forall|i: int| 0 <= i < s.len() - 1 implies s.drop_last()[i] == #[trigger] s[i] by {
        }
    }
}

/// Whether every parent id of every device names a device.
pub fn check_parents_exist(devs: &Vec<Device>) -> (r: bool)
    ensures
        r == parents_exist(devices_view(devs@)),
{
    let ghost g = devices_view(devs@);
    let mut i: usize = 0;
    while i < devs.len()
        invariant
            i <= devs@.len(),
            g == devices_view(devs@),
            forall|a: int, k: int|
                0 <= a < i && 0 <= k < g[a].parent_ids.len() ==> #[trigger] has_device(g, g[a].parent_ids[k]),
        decreases devs@.len() - i,
    {
        assert(g[i as int] == devs@[i as int]@);
        let mut k: usize = 0;
        while k < devs[i].parent_ids.len()
            invariant
                i < devs@.len(),
                k <= devs@[i as int].parent_ids@.len(),
                g == devices_view(devs@),
                g[i as int] == devs@[i as int]@,
                forall|a: int, k: int|
                    0 <= a < i && 0 <= k < g[a].parent_ids.len() ==> #[trigger] has_device(g, g[a].parent_ids[k]),
                forall|kk: int| 0 <= kk < k ==> #[trigger] has_device(g, g[i as int].parent_ids[kk]),
            decreases devs@[i as int].parent_ids@.len() - k,
        {
            assert(g[i as int].parent_ids[k as int] == devs@[i as int].parent_ids@[k as int]@);
            if find_device(devs, &devs[i].parent_ids[k]).is_none() {
                return false;
            }
            k = k + 1;
        }
        i = i + 1;
    }
    true
}

/// Whether every parent of device `i` is marked in `assigned`.
fn parents_assigned(devs: &Vec<Device>, assigned: &Vec<bool>, i: usize) -> (r: bool)
    requires
        i < devs@.len(),
        assigned@.len() == devs@.len(),
        ids_unique(devices_view(devs@)),
        parents_exist(devices_view(devs@)),
    ensures
        r == forall|j: int| 0 <= j < devs@.len() && #[trigger] is_parent(devices_view(devs@), j, i as int)
            ==> assigned@[j],
{
    let ghost g = devices_view(devs@);
    assert(g[i as int] == devs@[i as int]@);
    let mut k: usize = 0;
    while k < devs[i].parent_ids.len()
        invariant
            i < devs@.len(),
            assigned@.len() == devs@.len(),
            k <= devs@[i as int].parent_ids@.len(),
            g == devices_view(devs@),
            g[i as int] == devs@[i as int]@,
            ids_unique(g),
            parents_exist(g),
            forall|j: int| 0 <= j < g.len() && #[trigger] g[i as int].parent_ids.subrange(0, k as int).contains(g[j].id) ==> assigned@[j],
        decreases devs@[i as int].parent_ids@.len() - k,
    {
        assert(g[i as int].parent_ids[k as int] == devs@[i as int].parent_ids@[k as int]@);
        assert(has_device(g, g[i as int].parent_ids[k as int]));
        let j = find_device(devs, &devs[i].parent_ids[k]).unwrap();
        assert(g[j as int] == devs@[j as int]@);
        if !assigned[j] {
            assert(is_parent(g, j as int, i as int));
            return false;
        }
        assert forall|jj: int| 0 <= jj < g.len() && #[trigger] g[i as int].parent_ids.subrange(0, k + 1).contains(g[jj].id) implies assigned@[jj] by {
            let x = choose|x: int| 0 <= x < k + 1 && #[trigger] g[i as int].parent_ids.subrange(0, k + 1)[x] == g[jj].id;
            if x < k {
                assert(g[i as int].parent_ids.subrange(0, k as int)[x] == g[jj].id);
                assert(g[i as int].parent_ids.subrange(0, k as int).contains(g[jj].id));
            } else {
                assert(g[jj].id == g[j as int].id);
            }
        }
        k = k + 1;
    }
    assert(g[i as int].parent_ids.subrange(0, k as int) == g[i as int].parent_ids);
    true
}

/// A step of a walk that stays among unassigned devices.
spec fn stuck_walk(g: Seq<DeviceV>, a: Seq<bool>, u: int, k: nat) -> int
    decreases k,
{
    if k == 0 {
        u
    } else {
        let p = stuck_walk(g, a, u, (k - 1) as nat);
        choose|j: int| 0 <= j < g.len() && is_parent(g, j, p) && !a[j]
    }
}

proof fn lemma_stuck_walk(g: Seq<DeviceV>, a: Seq<bool>, u: int, k: nat)
    requires
        a.len() == g.len(),
        0 <= u < g.len(),
        !a[u],
        forall|i: int| 0 <= i < g.len() && !a[i] ==> exists|j: int|
            0 <= j < g.len() && #[trigger] is_parent(g, j, i) && !a[j],
    ensures
        0 <= stuck_walk(g, a, u, k) < g.len(),
        !a[stuck_walk(g, a, u, k)],
        is_parent(g, stuck_walk(g, a, u, k + 1), stuck_walk(g, a, u, k)),
    decreases k,
{
    if k > 0 {
        lemma_stuck_walk(g, a, u, (k - 1) as nat);
    }
    let p = stuck_walk(g, a, u, k);
    assert(exists|j: int| 0 <= j < g.len() && #[trigger] is_parent(g, j, p) && !a[j]);
    assert(stuck_walk(g, a, u, k + 1) == choose|j: int| 0 <= j < g.len() && is_parent(g, j, p) && !a[j]);
}

/// When every unassigned device has an unassigned parent, and some device
/// is unassigned, the parent relation has a cycle.
proof fn lemma_stuck_has_cycle(g: Seq<DeviceV>, a: Seq<bool>, u: int)
    requires
        a.len() == g.len(),
        0 <= u < g.len(),
        !a[u],
        forall|i: int| 0 <= i < g.len() && !a[i] ==> exists|j: int|
            0 <= j < g.len() && #[trigger] is_parent(g, j, i) && !a[j],
    ensures
        has_cycle(g),
{
    let n = g.len() as int;
    let w = Seq::new((n + 1) as nat, |k: int| stuck_walk(g, a, u, k as nat));
    assert forall|k: int| 0 <= k < w.len() implies 0 <= #[trigger] w[k] < n by {
        lemma_stuck_walk(g, a, u, k as nat);
    }
    if w.no_duplicates() {
        w.unique_seq_to_set();
        lemma_int_range(0, n);
        assert(w.to_set().subset_of(set_int_range(0, n))) by {
            assert forall|v: int| w.to_set().contains(v) implies set_int_range(0, n).contains(v) by {
                let k = choose|k: int| 0 <= k < w.len() && w[k] == v;
            }
        }
        lemma_len_subset(w.to_set(), set_int_range(0, n));
        assert(false);
    }
    let (x, y) = choose|x: int, y: int| 0 <= x < w.len() && 0 <= y < w.len() && x != y && w[x] == w[y];
    let (lo, hi) = if x < y { (x, y) } else { (y, x) };
    let p = w.subrange(lo, hi + 1);
    assert forall|k: int| 0 <= k < p.len() - 1 implies is_parent(g, p[k + 1], #[trigger] p[k]) by {
        lemma_stuck_walk(g, a, u, (lo + k) as nat);
        assert(p[k] == w[lo + k] && p[k + 1] == w[lo + k + 1]);
    }
    assert forall|k: int| 0 <= k < p.len() implies 0 <= #[trigger] p[k] < g.len() by {
        assert(p[k] == w[lo + k]);
    }
    assert(is_parent_path(g, p));
    assert(is_ancestor(g, w[lo], w[lo]));
}

/// Ancestry reads only ids and parent ids.
pub proof fn lemma_same_shape_ancestor(a: Seq<DeviceV>, b: Seq<DeviceV>, x: int, y: int)
    requires
        same_shape(a, b),
    ensures
        is_ancestor(a, x, y) == is_ancestor(b, x, y),
{
    assert forall|j: int, i: int| 0 <= j < a.len() && 0 <= i < a.len() implies #[trigger] is_parent(a, j, i) == is_parent(b, j, i) by {
        assert(a[j].id == b[j].id);
        assert(a[i].id == b[i].id);
        assert(a[i].parent_ids == b[i].parent_ids);
    }
    if is_ancestor(a, x, y) {
        let p = choose|p: Seq<int>| #[trigger] is_parent_path(a, p) && p[0] == y && p.last() == x;
        assert forall|k: int| 0 <= k < p.len() - 1 implies is_parent(b, p[k + 1], #[trigger] p[k]) by {
            assert(is_parent(a, p[k + 1], p[k]));
            assert(0 <= p[k] < a.len() && 0 <= p[k + 1] < a.len());
        }
        assert(is_parent_path(b, p));
    }
    if is_ancestor(b, x, y) {
        let p = choose|p: Seq<int>| #[trigger] is_parent_path(b, p) && p[0] == y && p.last() == x;
        assert forall|k: int| 0 <= k < p.len() - 1 implies is_parent(a, p[k + 1], #[trigger] p[k]) by {
            assert(is_parent(b, p[k + 1], p[k]));
            assert(0 <= p[k] < b.len() && 0 <= p[k + 1] < b.len());
        }
        assert(is_parent_path(a, p));
    }
}

/// What a round of depth assignment keeps: assigned devices have depths
/// below `round`, their parents are assigned and shallower, a root has depth
/// 0 and any other device one more than some parent; an unassigned device
/// waits on a parent that is unassigned or was assigned in the last round.
#[verifier::opaque]
pub open spec fn round_inv(g: Seq<DeviceV>, a: Seq<bool>, d: Seq<u64>, round: int) -> bool {
    let n = g.len() as int;
    &&& forall|i: int| 0 <= i < n && #[trigger] a[i] ==> d[i] < round
    &&& forall|i: int, j: int|
        0 <= i < n && 0 <= j < n && a[i] && #[trigger] is_parent(g, j, i) ==> a[j] && d[j] < d[i]
    &&& forall|i: int| 0 <= i < n && #[trigger] a[i] && g[i].parent_ids.len() == 0 ==> d[i] == 0
    &&& forall|i: int|
        0 <= i < n && #[trigger] a[i] && g[i].parent_ids.len() > 0 ==> exists|j: int|
            0 <= j < n && #[trigger] is_parent(g, j, i) && d[j] + 1 == d[i]
    &&& forall|i: int|
        0 <= i < n && !#[trigger] a[i] && round > 0 ==> exists|j: int|
            0 <= j < n && #[trigger] is_parent(g, j, i) && (!a[j] || d[j] + 1 == round)
}

proof fn lemma_round_step(
    g: Seq<DeviceV>,
    a0: Seq<bool>,
    d0: Seq<u64>,
    ready: Seq<usize>,
    a1: Seq<bool>,
    d1: Seq<u64>,
    round: int,
)
    requires
        a0.len() == g.len(),
        d0.len() == g.len(),
        a1.len() == g.len(),
        d1.len() == g.len(),
        0 <= round < g.len(),
        g.len() <= usize::MAX,
        round <= u64::MAX,
        parents_exist(g),
        round_inv(g, a0, d0, round),
        forall|t: int| 0 <= t < ready.len() ==> #[trigger] ready[t] < g.len() && !a0[ready[t] as int]
            && forall|j: int| 0 <= j < g.len() && #[trigger] is_parent(g, j, ready[t] as int) ==> a0[j],
        forall|x: int|
            0 <= x < g.len() && !a0[x] && (forall|j: int| 0 <= j < g.len() && #[trigger] is_parent(g, j, x) ==> a0[j])
                ==> #[trigger] ready.contains(x as usize),
        forall|x: int| 0 <= x < g.len() ==> #[trigger] a1[x] == (a0[x] || ready.contains(x as usize)),
        forall|x: int| 0 <= x < g.len() ==> #[trigger] d1[x] == if ready.contains(x as usize) {
            round as u64
        } else {
            d0[x]
        },
    ensures
        round_inv(g, a1, d1, round + 1),
{
    reveal(round_inv);
    let n = g.len() as int;
    assert((round as u64) as int == round);
    assert forall|i: int| 0 <= i < n && ready.contains(i as usize) implies !a0[i]
        && (forall|j: int| 0 <= j < n && #[trigger] is_parent(g, j, i) ==> a0[j]) by {
        let k = choose|k: int| 0 <= k < ready.len() && #[trigger] ready[k] == i as usize;
    }
    assert forall|i: int| 0 <= i < n && #[trigger] a1[i] implies d1[i] < round + 1 by {
        assert(a1[i] == (a0[i] || ready.contains(i as usize)));
    }
    assert forall|i: int, j: int|
        0 <= i < n && 0 <= j < n && a1[i] && #[trigger] is_parent(g, j, i) implies a1[j] && d1[j] < d1[i] by {
        assert(a1[i] == (a0[i] || ready.contains(i as usize)));
        assert(a1[j] == (a0[j] || ready.contains(j as usize)));
    }
    assert forall|i: int| 0 <= i < n && #[trigger] a1[i] && g[i].parent_ids.len() == 0 implies d1[i] == 0 by {
        assert(a1[i] == (a0[i] || ready.contains(i as usize)));
        if !a0[i] && round > 0 {
            let j = choose|j: int| 0 <= j < n && #[trigger] is_parent(g, j, i) && (!a0[j] || d0[j] + 1 == round);
        }
    }
    assert forall|i: int|
        0 <= i < n && #[trigger] a1[i] && g[i].parent_ids.len() > 0 implies exists|j: int|
            0 <= j < n && #[trigger] is_parent(g, j, i) && d1[j] + 1 == d1[i] by {
        assert(a1[i] == (a0[i] || ready.contains(i as usize)));
        if !a0[i] {
            if round > 0 {
                let j = choose|j: int| 0 <= j < n && #[trigger] is_parent(g, j, i) && (!a0[j] || d0[j] + 1 == round);
                assert(a1[j] == (a0[j] || ready.contains(j as usize)));
                assert(d1[j] == d0[j]);
            } else {
                assert(has_device(g, g[i].parent_ids[0]));
                let j = choose|j: int| 0 <= j < g.len() && #[trigger] g[j].id == g[i].parent_ids[0];
                assert(is_parent(g, j, i));
            }
        } else {
            let j = choose|j: int| 0 <= j < n && #[trigger] is_parent(g, j, i) && d0[j] + 1 == d0[i];
            assert(a1[j] == (a0[j] || ready.contains(j as usize)));
        }
    }
    assert forall|i: int|
        0 <= i < n && !#[trigger] a1[i] && round + 1 > 0 implies exists|j: int|
            0 <= j < n && #[trigger] is_parent(g, j, i) && (!a1[j] || d1[j] + 1 == round + 1) by {
        assert(a1[i] == (a0[i] || ready.contains(i as usize)));
        assert(!(forall|j: int| 0 <= j < n && #[trigger] is_parent(g, j, i) ==> a0[j]));
        let j = choose|j: int| 0 <= j < n && #[trigger] is_parent(g, j, i) && !a0[j];
        assert(a1[j] == (a0[j] || ready.contains(j as usize)));
    }
}

/// The unassigned devices whose parents are all assigned, in increasing
/// order.
fn ready_devices(devs: &Vec<Device>, assigned: &Vec<bool>) -> (ready: Vec<usize>)
    requires
        ids_unique(devices_view(devs@)),
        parents_exist(devices_view(devs@)),
        assigned@.len() == devs@.len(),
    ensures
        forall|t: int| 0 <= t < ready@.len() ==> #[trigger] ready@[t] < devs@.len() && !assigned@[ready@[t] as int]
            && forall|j: int| 0 <= j < devs@.len() && #[trigger] is_parent(devices_view(devs@), j, ready@[t] as int) ==> assigned@[j],
        forall|t1: int, t2: int| 0 <= t1 < t2 < ready@.len() ==> ready@[t1] < ready@[t2],
        forall|x: int|
            0 <= x < devs@.len() && !assigned@[x] && (forall|j: int| 0 <= j < devs@.len() && #[trigger] is_parent(devices_view(devs@), j, x) ==> assigned@[j])
                ==> #[trigger] ready@.contains(x as usize),
{
    let ghost g = devices_view(devs@);
    let n = devs.len();
    let mut ready: Vec<usize> = Vec::new();
    let mut i: usize = 0;
    while i < n
        invariant
            n == devs@.len(),
            g == devices_view(devs@),
            ids_unique(g),
            parents_exist(g),
            assigned@.len() == n,
            i <= n,
            forall|t: int| 0 <= t < ready@.len() ==> #[trigger] ready@[t] < i && !assigned@[ready@[t] as int]
                && forall|j: int| 0 <= j < n && #[trigger] is_parent(g, j, ready@[t] as int) ==> assigned@[j],
            forall|t1: int, t2: int| 0 <= t1 < t2 < ready@.len() ==> ready@[t1] < ready@[t2],
            forall|x: int|
                0 <= x < i && !assigned@[x] && (forall|j: int| 0 <= j < n && #[trigger] is_parent(g, j, x) ==> assigned@[j])
                    ==> #[trigger] ready@.contains(x as usize),
        decreases n - i,
    {
        if !assigned[i] && parents_assigned(devs, &assigned, i) {
            let ghost before = ready@;
            ready.push(i);
            assert forall|x: int|
                0 <= x < i + 1 && !assigned@[x] && (forall|j: int| 0 <= j < n && #[trigger] is_parent(g, j, x) ==> assigned@[j])
                implies #[trigger] ready@.contains(x as usize) by {
                if x < i {
                    assert(before.contains(x as usize));
                    let t = choose|t: int| 0 <= t < before.len() && before[t] == x as usize;
                    assert(ready@[t] == x as usize);
                } else {
                    assert(ready@[before.len() as int] == x as usize);
                }
            }
        }
        i = i + 1;
    }
    ready
}

/// Marks every device of `ready` as assigned at depth `round`.
fn assign_ready(
    assigned: &mut Vec<bool>,
    depth: &mut Vec<u64>,
    ready: &Vec<usize>,
    round: u64,
    remaining: &mut usize,
)
    requires
        old(depth)@.len() == old(assigned)@.len(),
        forall|t: int| 0 <= t < ready@.len() ==> #[trigger] ready@[t] < old(assigned)@.len() && !old(assigned)@[ready@[t] as int],
        forall|t1: int, t2: int| 0 <= t1 < t2 < ready@.len() ==> ready@[t1] < ready@[t2],
        *old(remaining) == num_unassigned(old(assigned)@),
    ensures
        final(assigned)@.len() == old(assigned)@.len(),
        final(depth)@.len() == old(assigned)@.len(),
        forall|x: int| 0 <= x < old(assigned)@.len() ==> #[trigger] final(assigned)@[x] == (old(assigned)@[x] || ready@.contains(x as usize)),
        forall|x: int| 0 <= x < old(assigned)@.len() ==> #[trigger] final(depth)@[x] == if ready@.contains(x as usize) {
            round
        } else {
            old(depth)@[x]
        },
        *final(remaining) + ready@.len() == *old(remaining),
        *final(remaining) == num_unassigned(final(assigned)@),
{
    let ghost a0 = assigned@;
    let ghost d0 = depth@;
    let len = assigned.len();
    let ghost n = len as int;
    let mut t: usize = 0;
    while t < ready.len()
        invariant
            n <= usize::MAX,
            assigned@.len() == n,
            depth@.len() == n,
            a0.len() == n,
            d0.len() == n,
            t <= ready@.len(),
            forall|t: int| 0 <= t < ready@.len() ==> #[trigger] ready@[t] < n && !a0[ready@[t] as int],
            forall|t1: int, t2: int| 0 <= t1 < t2 < ready@.len() ==> ready@[t1] < ready@[t2],
            forall|x: int| 0 <= x < n ==> #[trigger] assigned@[x] == (a0[x] || ready@.subrange(0, t as int).contains(x as usize)),
            forall|x: int| 0 <= x < n ==> #[trigger] depth@[x] == if ready@.subrange(0, t as int).contains(x as usize) {
                round
            } else {
                d0[x]
            },
            *remaining + t == *old(remaining),
            *remaining == num_unassigned(assigned@),
        decreases ready@.len() - t,
    {
        let x = ready[t];
        proof {
            if ready@.subrange(0, t as int).contains(x) {
                let k = choose|k: int| 0 <= k < t && #[trigger] ready@.subrange(0, t as int)[k] == x;
                assert(ready@[k] == x);
            }
            assert(!assigned@[x as int]);
            lemma_unassigned_update(assigned@, x as int);
        }
        assigned.set(x, true);
        depth.set(x, round);
        proof {
            assert forall|y: int| 0 <= y < n implies #[trigger] assigned@[y] == (a0[y] || ready@.subrange(0, t + 1).contains(y as usize)) by {
                if ready@.subrange(0, t as int).contains(y as usize) {
                    let k = choose|k: int| 0 <= k < t && #[trigger] ready@.subrange(0, t as int)[k] == y as usize;
                    assert(ready@.subrange(0, t + 1)[k] == y as usize);
                }
                if ready@.subrange(0, t + 1).contains(y as usize) && y != x as int {
                    let k = choose|k: int| 0 <= k < t + 1 && #[trigger] ready@.subrange(0, t + 1)[k] == y as usize;
                    if k < t {
                        assert(ready@.subrange(0, t as int)[k] == y as usize);
                    } else {
                        assert(ready@[k] == x);
                        assert((y as usize) as int == y);
                    }
                }
                if y == x as int {
                    assert(ready@.subrange(0, t + 1)[t as int] == x);
                }
            }
            assert forall|y: int| 0 <= y < n implies #[trigger] depth@[y] == if ready@.subrange(0, t + 1).contains(y as usize) {
                round
            } else {
                d0[y]
            } by {
                if ready@.subrange(0, t as int).contains(y as usize) {
                    let k = choose|k: int| 0 <= k < t && #[trigger] ready@.subrange(0, t as int)[k] == y as usize;
                    assert(ready@.subrange(0, t + 1)[k] == y as usize);
                }
                if ready@.subrange(0, t + 1).contains(y as usize) && y != x as int {
                    let k = choose|k: int| 0 <= k < t + 1 && #[trigger] ready@.subrange(0, t + 1)[k] == y as usize;
                    if k < t {
                        assert(ready@.subrange(0, t as int)[k] == y as usize);
                    } else {
                        assert(ready@[k] == x);
                        assert((y as usize) as int == y);
                    }
                }
                if y == x as int {
                    assert(ready@.subrange(0, t + 1)[t as int] == x);
                }
            }
        }
        *remaining = *remaining - 1;
        t = t + 1;
    }
    assert(ready@.subrange(0, t as int) == ready@);
}

/// When no unassigned device has all its parents assigned, and some device
/// is unassigned, the parent relation has a cycle.
proof fn lemma_nothing_ready(g: Seq<DeviceV>, a: Seq<bool>)
    requires
        a.len() == g.len(),
        num_unassigned(a) > 0,
        forall|x: int|
            0 <= x < g.len() && !a[x] ==> exists|j: int| 0 <= j < g.len() && #[trigger] is_parent(g, j, x) && !a[j],
    ensures
        has_cycle(g),
{
    lemma_unassigned_zero(a);
    let u = choose|u: int| 0 <= u < a.len() && !a[u];
    lemma_stuck_has_cycle(g, a, u);
}

/// The devices in the same order with each depth recomputed: depth 0
/// without parents, else one more than the deepest parent. Fails with
/// `InvalidInput` exactly when a parent id names no device or the parent
/// relation has a cycle.
pub fn compute_depths(devs: &Vec<Device>) -> (r: Result<Vec<Device>, ReconcileError>)
    requires
        ids_unique(devices_view(devs@)),
    ensures
        r is Err <==> (!parents_exist(devices_view(devs@)) || has_cycle(devices_view(devs@))),
        r matches Err(e) ==> e == ReconcileError::InvalidInput,
        r matches Ok(out) ==> {
            &&& same_shape(devices_view(out@), devices_view(devs@))
            &&& depths_consistent(devices_view(out@))
            &&& graph_valid(devices_view(out@))
            &&& ids_unique(devices_view(out@))
        },
{
    let ghost g = devices_view(devs@);
    if !check_parents_exist(devs) {
        return Err(ReconcileError::InvalidInput);
    }
    let n = devs.len();
    let mut assigned: Vec<bool> = Vec::new();
    let mut depth: Vec<u64> = Vec::new();
    while assigned.len() < n
        invariant
            assigned@.len() <= n,
            depth@.len() == assigned@.len(),
            forall|x: int| 0 <= x < assigned@.len() ==> !#[trigger] assigned@[x],
            num_unassigned(assigned@) == assigned@.len(),
        decreases n - assigned@.len(),
    {
        let ghost before = assigned@;
        assigned.push(false);
        depth.push(0);
        assert(assigned@.drop_last() == before);
    }
    let mut remaining: usize = n;
    let mut round: usize = 0;
    proof {
        reveal(round_inv);
    }
    while remaining > 0
        invariant
            n == devs@.len(),
            g == devices_view(devs@),
            ids_unique(g),
            parents_exist(g),
            assigned@.len() == n,
            depth@.len() == n,
            remaining == num_unassigned(assigned@),
            round + remaining <= n,
            round_inv(g, assigned@, depth@, round as int),
        decreases remaining,
    {
        let ready = ready_devices(devs, &assigned);
        if ready.len() == 0 {
            proof {
                assert forall|x: int| 0 <= x < g.len() && !assigned@[x] implies exists|j: int|
                    0 <= j < g.len() && #[trigger] is_parent(g, j, x) && !assigned@[j] by {
                    if forall|j: int| 0 <= j < g.len() && #[trigger] is_parent(g, j, x) ==> assigned@[j] {
                        assert(ready@.contains(x as usize));
                    }
                }
                lemma_nothing_ready(g, assigned@);
            }
            return Err(ReconcileError::InvalidInput);
        }
        let ghost a0 = assigned@;
        let ghost d0 = depth@;
        assign_ready(&mut assigned, &mut depth, &ready, round as u64, &mut remaining);
        proof {
            assert((round as u64) as int == round as int);
            lemma_round_step(g, a0, d0, ready@, assigned@, depth@, round as int);
        }
        round = round + 1;
    }
    proof {
        lemma_unassigned_zero(assigned@);
        reveal(round_inv);
    }
    let mut out: Vec<Device> = Vec::new();
    let mut k: usize = 0;
    while k < n
        invariant
            n == devs@.len(),
            g == devices_view(devs@),
            depth@.len() == n,
            k <= n,
            out@.len() == k,
            forall|x: int| 0 <= x < k ==> #[trigger] devices_view(out@)[x] == (DeviceV {
                id: g[x].id,
                parent_ids: g[x].parent_ids,
                max_depth: depth@[x],
            }),
        decreases n - k,
    {
        let mut d = copy_device(&devs[k]);
        d.max_depth = depth[k];
        assert(g[k as int] == devs@[k as int]@);
        let ghost before = out@;
        out.push(d);
        assert(out@ == before.push(d));
        assert(devices_view(out@)[k as int] == out@[k as int]@);
        assert forall|x: int| 0 <= x < k implies #[trigger] devices_view(out@)[x] == devices_view(before)[x] by {
            assert(out@[x] == before[x]);
        }
        k = k + 1;
    }
    let ghost o = devices_view(out@);
    proof {
        assert(o.len() == n);
        assert forall|j: int, i: int| 0 <= j < n && 0 <= i < n implies #[trigger] is_parent(o, j, i) == is_parent(g, j, i) by {
            assert(o[j].id == g[j].id);
            assert(o[i].parent_ids == g[i].parent_ids);
        }
        assert forall|i: int| 0 <= i < n implies #[trigger] o[i].id == g[i].id && o[i].parent_ids == g[i].parent_ids by {
        }
        assert forall|i: int, kk: int| 0 <= i < n && 0 <= kk < o[i].parent_ids.len() implies #[trigger] has_device(o, o[i].parent_ids[kk]) by {
            assert(has_device(g, g[i].parent_ids[kk]));
            let j = choose|j: int| 0 <= j < g.len() && #[trigger] g[j].id == g[i].parent_ids[kk];
            assert(o[j].id == g[j].id);
        }
        assert forall|i: int, kk: int| 0 <= i < n && 0 <= kk < o[i].parent_ids.len() implies #[trigger] parent_ok(o, i, kk) by {
            assert(has_device(g, g[i].parent_ids[kk]));
            let j = choose|j: int| 0 <= j < g.len() && #[trigger] g[j].id == g[i].parent_ids[kk];
            assert(o[j].id == g[j].id);
            assert(is_parent(g, j, i));
        }
        assert forall|a: int, b: int| 0 <= a < n && 0 <= b < n && #[trigger] o[a].id == #[trigger] o[b].id implies a == b by {
            assert(g[a].id == g[b].id);
        }
        reveal(round_inv);
        assert forall|i: int, j: int| 0 <= i < n && 0 <= j < n && #[trigger] is_parent(o, j, i) implies o[j].max_depth < o[i].max_depth by {
            assert(assigned@[i]);
            assert(is_parent(g, j, i));
        }
        assert forall|i: int| 0 <= i < n && o[i].parent_ids.len() == 0 implies #[trigger] o[i].max_depth == 0 by {
            assert(assigned@[i]);
        }
        assert forall|i: int| 0 <= i < n && o[i].parent_ids.len() > 0 implies exists|j: int|
            0 <= j < n && #[trigger] is_parent(o, j, i) && o[j].max_depth + 1 == o[i].max_depth by {
            assert(assigned@[i]);
            let j = choose|j: int| 0 <= j < n && #[trigger] is_parent(g, j, i) && depth@[j] + 1 == depth@[i];
            assert(is_parent(o, j, i));
        }
        if has_cycle(g) {
            let i = choose|i: int| #[trigger] is_ancestor(g, i, i);
            lemma_same_shape_ancestor(o, g, i, i);
            lemma_ancestor_shallower(o, i, i);
        }
    }
    Ok(out)
}

/// Consistent depths are unique: two lists of the same devices whose
/// depths are both consistent agree on every depth.
pub proof fn lemma_consistent_depths_unique(a: Seq<DeviceV>, b: Seq<DeviceV>)
    requires
        same_shape(a, b),
        depths_consistent(a),
        depths_consistent(b),
    ensures
        a == b,
{
    assert forall|i: int| 0 <= i < a.len() implies #[trigger] a[i].max_depth == b[i].max_depth by {
        lemma_depth_agrees(a, b, i);
    }
    assert forall|i: int| 0 <= i < a.len() implies #[trigger] a[i] == b[i] by {
        assert(a[i].id == b[i].id);
        assert(a[i].max_depth == b[i].max_depth);
    }
    assert(a =~= b);
}

proof fn lemma_depth_agrees(a: Seq<DeviceV>, b: Seq<DeviceV>, i: int)
    requires
        same_shape(a, b),
        depths_consistent(a),
        depths_consistent(b),
        0 <= i < a.len(),
    ensures
        a[i].max_depth == b[i].max_depth,
    decreases a[i].max_depth,
{
    assert(a[i].id == b[i].id);
    assert forall|j: int| 0 <= j < a.len() implies #[trigger] is_parent(a, j, i) == is_parent(b, j, i) by {
        assert(a[j].id == b[j].id);
    }
    if a[i].parent_ids.len() > 0 {
        let j1 = choose|j: int| 0 <= j < a.len() && #[trigger] is_parent(a, j, i) && a[j].max_depth + 1 == a[i].max_depth;
        let j2 = choose|j: int| 0 <= j < b.len() && #[trigger] is_parent(b, j, i) && b[j].max_depth + 1 == b[i].max_depth;
        assert(is_parent(a, j2, i));
        assert(is_parent(b, j1, i));
        lemma_depth_agrees(a, b, j1);
        lemma_depth_agrees(a, b, j2);
    }
}

} // verus!
