//! The device-host pairs whose visibility a pass changed, for notifying the
//! affected hosts.
use vstd::prelude::*;
use crate::model::{DeviceHost, DeviceHostV, rows_view, has_row, keys_unique};
use crate::graph::row_present;

verus! {

/// A pair `(device_id, fqdn)` that became visible (`added`) or stopped
/// being visible.
pub struct VisibilityChange {
    pub device_id: String,
    pub fqdn: String,
    pub added: bool,
}

/// The mathematical view of a `VisibilityChange`.
pub struct VisibilityChangeV {
    pub device_id: Seq<char>,
    pub fqdn: Seq<char>,
    pub added: bool,
}

impl View for VisibilityChange {
    type V = VisibilityChangeV;

    open spec fn view(&self) -> VisibilityChangeV {
        VisibilityChangeV { device_id: self.device_id@, fqdn: self.fqdn@, added: self.added }
    }
}

/// The views of a list of changes, in order.
pub open spec fn changes_view(v: Seq<VisibilityChange>) -> Seq<VisibilityChangeV> {
    v.map_values(|c: VisibilityChange| c@)
}

/// Some change has the key `(d, h)` and the direction `added`.
pub open spec fn has_change(c: Seq<VisibilityChangeV>, d: Seq<char>, h: Seq<char>, added: bool) -> bool {
    exists|k: int| 0 <= k < c.len() && #[trigger] c[k].device_id == d && c[k].fqdn == h && c[k].added == added
}

/// Each key at most once.
pub open spec fn change_keys_unique(c: Seq<VisibilityChangeV>) -> bool {
    forall|i: int, j: int|
        0 <= i < c.len() && 0 <= j < c.len() && #[trigger] c[i].device_id == #[trigger] c[j].device_id
            && c[i].fqdn == c[j].fqdn ==> i == j
}

proof fn lemma_push_change(c: Seq<VisibilityChangeV>, x: VisibilityChangeV)
    ensures
        forall|d: Seq<char>, h: Seq<char>, a: bool|
            #[trigger] has_change(c.push(x), d, h, a) == (has_change(c, d, h, a) || (d == x.device_id
                && h == x.fqdn && a == x.added)),
        change_keys_unique(c) && !has_change(c, x.device_id, x.fqdn, true) && !has_change(
            c,
            x.device_id,
            x.fqdn,
            false,
        ) ==> change_keys_unique(c.push(x)),
{
    assert(c.push(x)[c.len() as int] == x);
    assert forall|d: Seq<char>, h: Seq<char>, a: bool|
        #[trigger] has_change(c.push(x), d, h, a) == (has_change(c, d, h, a) || (d == x.device_id
            && h == x.fqdn && a == x.added)) by {
        if has_change(c, d, h, a) {
            let k = choose|k: int|
                0 <= k < c.len() && #[trigger] c[k].device_id == d && c[k].fqdn == h && c[k].added == a;
            assert(c.push(x)[k] == c[k]);
        }
        if has_change(c.push(x), d, h, a) {
            let k = choose|k: int|
                0 <= k < c.push(x).len() && #[trigger] c.push(x)[k].device_id == d && c.push(x)[k].fqdn
                    == h && c.push(x)[k].added == a;
            if k < c.len() {
                assert(c.push(x)[k] == c[k]);
            }
        }
    }
    if change_keys_unique(c) && !has_change(c, x.device_id, x.fqdn, true) && !has_change(
        c,
        x.device_id,
        x.fqdn,
        false,
    ) {
        assert forall|i: int, j: int|
            0 <= i < c.push(x).len() && 0 <= j < c.push(x).len() && #[trigger] c.push(x)[i].device_id
                == #[trigger] c.push(x)[j].device_id && c.push(x)[i].fqdn == c.push(x)[j].fqdn
            implies i == j by {
            if i < c.len() {
                assert(c.push(x)[i] == c[i]);
            }
            if j < c.len() {
                assert(c.push(x)[j] == c[j]);
            }
            if i < c.len() && j == c.len() {
                assert(c[i].device_id == x.device_id);
            }
            if j < c.len() && i == c.len() {
                assert(c[j].device_id == x.device_id);
            }
        }
    }
}

/// The pairs that have a row in exactly one of `before` and `after`: those
/// only in `after` were added, those only in `before` were retracted.
pub fn visibility_changes(before: &Vec<DeviceHost>, after: &Vec<DeviceHost>) -> (out: Vec<
    VisibilityChange,
>)
    requires
        keys_unique(rows_view(before@)),
        keys_unique(rows_view(after@)),
    ensures
        change_keys_unique(changes_view(out@)),
        forall|d: Seq<char>, h: Seq<char>|
            #[trigger] has_change(changes_view(out@), d, h, false) == (has_row(rows_view(before@), d, h)
                && !has_row(rows_view(after@), d, h)),
        forall|d: Seq<char>, h: Seq<char>|
            #[trigger] has_change(changes_view(out@), d, h, true) == (!has_row(rows_view(before@), d, h)
                && has_row(rows_view(after@), d, h)),
{
    let ghost b = rows_view(before@);
    let ghost a = rows_view(after@);
    let mut out: Vec<VisibilityChange> = Vec::new();
    let mut k: usize = 0;
    while k < before.len()
        invariant
            k <= before@.len(),
            b == rows_view(before@),
            a == rows_view(after@),
            keys_unique(b),
            change_keys_unique(changes_view(out@)),
            forall|d: Seq<char>, h: Seq<char>| !#[trigger] has_change(changes_view(out@), d, h, true),
            forall|d: Seq<char>, h: Seq<char>|
                #[trigger] has_change(changes_view(out@), d, h, false) == (exists|x: int|
                    0 <= x < k && #[trigger] b[x].device_id == d && b[x].fqdn == h && !has_row(a, d, h)),
        decreases before@.len() - k,
    {
        let ghost cv = changes_view(out@);
        assert(b[k as int] == before@[k as int]@);
        if !row_present(after, &before[k].device_id, &before[k].fqdn) {
            let c = VisibilityChange {
                device_id: before[k].device_id.clone(),
                fqdn: before[k].fqdn.clone(),
                added: false,
            };
            proof {
                lemma_push_change(cv, c@);
                if has_change(cv, c@.device_id, c@.fqdn, false) {
                    let x = choose|x: int|
                        0 <= x < k && #[trigger] b[x].device_id == c@.device_id && b[x].fqdn == c@.fqdn
                            && !has_row(a, c@.device_id, c@.fqdn);
                    assert(b[x].device_id == b[k as int].device_id);
                }
            }
            out.push(c);
            assert(changes_view(out@) =~= cv.push(c@));
        }
        proof {
            assert forall|d: Seq<char>, h: Seq<char>|
                #[trigger] has_change(changes_view(out@), d, h, false) == (exists|x: int|
                    0 <= x < k + 1 && #[trigger] b[x].device_id == d && b[x].fqdn == h && !has_row(a, d, h)) by {
                if (exists|x: int|
                    0 <= x < k + 1 && #[trigger] b[x].device_id == d && b[x].fqdn == h && !has_row(a, d, h)) {
                    let x = choose|x: int|
                        0 <= x < k + 1 && #[trigger] b[x].device_id == d && b[x].fqdn == h && !has_row(a, d, h);
                    if x < k {
                        assert(has_change(cv, d, h, false));
                    } else {
                        assert(b[k as int].device_id == d);
                    }
                }
                if has_change(changes_view(out@), d, h, false) {
                    if has_change(cv, d, h, false) {
                        let x = choose|x: int|
                            0 <= x < k && #[trigger] b[x].device_id == d && b[x].fqdn == h && !has_row(a, d, h);
                    } else {
                        assert(b[k as int].device_id == d && b[k as int].fqdn == h);
                    }
                }
            }
        }
        k = k + 1;
    }
    let mut k: usize = 0;
    while k < after.len()
        invariant
            k <= after@.len(),
            b == rows_view(before@),
            a == rows_view(after@),
            keys_unique(a),
            change_keys_unique(changes_view(out@)),
            forall|d: Seq<char>, h: Seq<char>|
                #[trigger] has_change(changes_view(out@), d, h, true) == (exists|x: int|
                    0 <= x < k && #[trigger] a[x].device_id == d && a[x].fqdn == h && !has_row(b, d, h)),
            forall|d: Seq<char>, h: Seq<char>|
                #[trigger] has_change(changes_view(out@), d, h, false) == (has_row(b, d, h) && !has_row(a, d, h)),
        decreases after@.len() - k,
    {
        let ghost cv = changes_view(out@);
        assert(a[k as int] == after@[k as int]@);
        if !row_present(before, &after[k].device_id, &after[k].fqdn) {
            let c = VisibilityChange {
                device_id: after[k].device_id.clone(),
                fqdn: after[k].fqdn.clone(),
                added: true,
            };
            proof {
                lemma_push_change(cv, c@);
                assert(a[k as int].device_id == c@.device_id && a[k as int].fqdn == c@.fqdn);
                assert(has_row(a, c@.device_id, c@.fqdn));
                if has_change(cv, c@.device_id, c@.fqdn, true) {
                    let x = choose|x: int|
                        0 <= x < k && #[trigger] a[x].device_id == c@.device_id && a[x].fqdn == c@.fqdn
                            && !has_row(b, c@.device_id, c@.fqdn);
                    assert(a[x].device_id == a[k as int].device_id);
                }
            }
            out.push(c);
            assert(changes_view(out@) =~= cv.push(c@));
        }
        proof {
            assert forall|d: Seq<char>, h: Seq<char>|
                #[trigger] has_change(changes_view(out@), d, h, true) == (exists|x: int|
                    0 <= x < k + 1 && #[trigger] a[x].device_id == d && a[x].fqdn == h && !has_row(b, d, h)) by {
                if (exists|x: int|
                    0 <= x < k + 1 && #[trigger] a[x].device_id == d && a[x].fqdn == h && !has_row(b, d, h)) {
                    let x = choose|x: int|
                        0 <= x < k + 1 && #[trigger] a[x].device_id == d && a[x].fqdn == h && !has_row(b, d, h);
                    if x < k {
                        assert(has_change(cv, d, h, true));
                    } else {
                        assert(a[k as int].device_id == d);
                    }
                }
                if has_change(changes_view(out@), d, h, true) {
                    if has_change(cv, d, h, true) {
                        let x = choose|x: int|
                            0 <= x < k && #[trigger] a[x].device_id == d && a[x].fqdn == h && !has_row(b, d, h);
                    } else {
                        assert(a[k as int].device_id == d && a[k as int].fqdn == h);
                    }
                }
            }
        }
        k = k + 1;
    }
    proof {
        let c = changes_view(out@);
        assert forall|d: Seq<char>, h: Seq<char>|
            #[trigger] has_change(c, d, h, true) == (!has_row(b, d, h) && has_row(a, d, h)) by {
            if has_row(a, d, h) {
                let x = choose|x: int| 0 <= x < a.len() && #[trigger] a[x].device_id == d && a[x].fqdn == h;
            }
        }
        assert forall|d: Seq<char>, h: Seq<char>|
            #[trigger] has_change(c, d, h, false) == (has_row(b, d, h) && !has_row(a, d, h)) by {
        }
    }
    out
}

} // verus!
