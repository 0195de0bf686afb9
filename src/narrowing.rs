//! Ancestry and visibility do not change when the device list is narrowed
//! to a sub-list that holds every parent of its members.
use vstd::prelude::*;
use crate::model::{
    DeviceV, DeviceHostV, ids_unique, graph_valid, is_ancestor, is_parent, visible, parent_ok,
    ancestors_visible, propagable,
};
use crate::graph::{
    lemma_ancestor_cases, lemma_ancestor_step, lemma_parent_is_ancestor, lemma_parent_shallower,
    lemma_ancestor_shallower,
};
use crate::visibility::lemma_visible_fuel;

verus! {

/// Every device of `gs` is a device of `g`, and every parent, in `g`, of a
/// device of `gs` is in `gs` too.
pub open spec fn closed_sublist(gs: Seq<DeviceV>, g: Seq<DeviceV>) -> bool {
    &&& forall|x: int| 0 <= x < gs.len() ==> g.contains(#[trigger] gs[x])
    &&& forall|x: int, j: int|
        0 <= x < gs.len() && 0 <= j < g.len() && #[trigger] gs[x].parent_ids.contains(#[trigger] g[j].id)
            ==> gs.contains(g[j])
}

pub proof fn lemma_closed_sublist_valid(gs: Seq<DeviceV>, g: Seq<DeviceV>)
    requires
        closed_sublist(gs, g),
        graph_valid(g),
    ensures
        graph_valid(gs),
{
    assert forall|x: int, k: int| 0 <= x < gs.len() && 0 <= k < gs[x].parent_ids.len() implies #[trigger] parent_ok(gs, x, k) by {
        assert(g.contains(gs[x]));
        let i = choose|i: int| 0 <= i < g.len() && g[i] == gs[x];
        assert(parent_ok(g, i, k));
        let j = choose|j: int| 0 <= j < g.len() && #[trigger] g[j].id == g[i].parent_ids[k] && g[j].max_depth < g[i].max_depth;
        assert(gs[x].parent_ids.contains(g[j].id));
        let y = choose|y: int| 0 <= y < gs.len() && gs[y] == g[j];
        assert(gs[y].id == gs[x].parent_ids[k]);
    }
}

/// An ancestor, in the full list, of a member of the sub-list is in the
/// sub-list.
pub proof fn lemma_ancestor_in_sublist(gs: Seq<DeviceV>, g: Seq<DeviceV>, x: int, i: int, a: int)
    requires
        closed_sublist(gs, g),
        graph_valid(g),
        ids_unique(g),
        0 <= x < gs.len(),
        0 <= i < g.len(),
        g[i] == gs[x],
        is_ancestor(g, a, i),
    ensures
        gs.contains(g[a]),
    decreases g[i].max_depth,
{
    lemma_ancestor_cases(g, a, i);
    if is_parent(g, a, i) {
        assert(gs[x].parent_ids.contains(g[a].id));
    } else {
        let j = choose|j: int| 0 <= j < g.len() && is_parent(g, j, i) && #[trigger] is_ancestor(g, a, j);
        assert(gs[x].parent_ids.contains(g[j].id));
        let z = choose|z: int| 0 <= z < gs.len() && gs[z] == g[j];
        lemma_parent_shallower(g, j, i);
        lemma_ancestor_in_sublist(gs, g, z, j, a);
    }
}

/// Ancestry read in the sub-list is ancestry read in the full list.
pub proof fn lemma_sublist_ancestor(gs: Seq<DeviceV>, g: Seq<DeviceV>, x: int, i: int, y: int, a: int)
    requires
        closed_sublist(gs, g),
        graph_valid(g),
        ids_unique(g),
        ids_unique(gs),
        0 <= x < gs.len(),
        0 <= i < g.len(),
        g[i] == gs[x],
        0 <= y < gs.len(),
        0 <= a < g.len(),
        gs[y] == g[a],
    ensures
        is_ancestor(gs, y, x) == is_ancestor(g, a, i),
    decreases g[i].max_depth,
{
    lemma_closed_sublist_valid(gs, g);
    if is_ancestor(gs, y, x) {
        lemma_ancestor_cases(gs, y, x);
        if is_parent(gs, y, x) {
            lemma_parent_is_ancestor(g, a, i);
        } else {
            let z = choose|z: int| 0 <= z < gs.len() && is_parent(gs, z, x) && #[trigger] is_ancestor(gs, y, z);
            assert(g.contains(gs[z]));
            let j = choose|j: int| 0 <= j < g.len() && g[j] == gs[z];
            assert(is_parent(g, j, i));
            lemma_parent_shallower(g, j, i);
            lemma_sublist_ancestor(gs, g, z, j, y, a);
            lemma_ancestor_step(g, a, j, i);
        }
    }
    if is_ancestor(g, a, i) {
        lemma_ancestor_cases(g, a, i);
        if is_parent(g, a, i) {
            lemma_parent_is_ancestor(gs, y, x);
        } else {
            let j = choose|j: int| 0 <= j < g.len() && is_parent(g, j, i) && #[trigger] is_ancestor(g, a, j);
            assert(gs[x].parent_ids.contains(g[j].id));
            let z = choose|z: int| 0 <= z < gs.len() && gs[z] == g[j];
            assert(is_parent(gs, z, x));
            lemma_parent_shallower(g, j, i);
            lemma_sublist_ancestor(gs, g, z, j, y, a);
            lemma_ancestor_step(gs, y, z, x);
        }
    }
}

/// Visibility read in the sub-list is visibility read in the full list.
pub proof fn lemma_sublist_visible(
    gs: Seq<DeviceV>,
    g: Seq<DeviceV>,
    r: Seq<DeviceHostV>,
    h: Seq<char>,
    x: int,
    i: int,
)
    requires
        closed_sublist(gs, g),
        graph_valid(g),
        ids_unique(g),
        ids_unique(gs),
        0 <= x < gs.len(),
        0 <= i < g.len(),
        g[i] == gs[x],
    ensures
        visible(gs, r, h, x) == visible(g, r, h, i),
    decreases g[i].max_depth,
{
    lemma_closed_sublist_valid(gs, g);
    lemma_visible_fuel(gs, r, h, x, (gs[x].max_depth + 1) as nat);
    lemma_visible_fuel(g, r, h, i, (g[i].max_depth + 1) as nat);
    assert(propagable(gs, r, x) == propagable(g, r, i));
    if ancestors_visible(gs, r, h, x) {
        assert forall|a: int| #[trigger] is_ancestor(g, a, i) implies visible(g, r, h, a) by {
            lemma_ancestor_shallower(g, a, i);
            lemma_ancestor_in_sublist(gs, g, x, i, a);
            let y = choose|y: int| 0 <= y < gs.len() && gs[y] == g[a];
            lemma_sublist_ancestor(gs, g, x, i, y, a);
            lemma_sublist_visible(gs, g, r, h, y, a);
        }
    }
    if ancestors_visible(g, r, h, i) {
        assert forall|y: int| #[trigger] is_ancestor(gs, y, x) implies visible(gs, r, h, y) by {
            lemma_ancestor_cases(gs, y, x);
            assert(g.contains(gs[y]));
            let a = choose|a: int| 0 <= a < g.len() && g[a] == gs[y];
            lemma_sublist_ancestor(gs, g, x, i, y, a);
            lemma_ancestor_shallower(g, a, i);
            lemma_sublist_visible(gs, g, r, h, y, a);
        }
    }
}

} // verus!
