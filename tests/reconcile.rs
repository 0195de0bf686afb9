use iml_devices::graph::all_parents_available;
use iml_devices::merge::merge_state;
use iml_devices::model::{Device, DeviceHost, ReconcileError};
use iml_devices::reconcile::build_new_state;

fn dev(id: &str, parents: &[&str], depth: u64) -> Device {
    Device {
        id: id.to_string(),
        parent_ids: parents.iter().map(|p| p.to_string()).collect(),
        max_depth: depth,
    }
}

fn dh(id: &str, host: &str, local: bool) -> DeviceHost {
    DeviceHost { device_id: id.to_string(), fqdn: host.to_string(), local }
}

fn s(x: &str) -> String {
    x.to_string()
}

fn row_keys(rows: &[DeviceHost]) -> Vec<(String, String, bool)> {
    let mut v: Vec<_> = rows.iter().map(|r| (r.device_id.clone(), r.fqdn.clone(), r.local)).collect();
    v.sort();
    v
}

fn dev_keys(devs: &[Device]) -> Vec<(String, Vec<String>, u64)> {
    let mut v: Vec<_> = devs.iter().map(|d| (d.id.clone(), d.parent_ids.clone(), d.max_depth)).collect();
    v.sort();
    v
}

fn ordered_rows(rows: &[DeviceHost]) -> Vec<(String, String, bool)> {
    rows.iter().map(|r| (r.device_id.clone(), r.fqdn.clone(), r.local)).collect()
}

fn ordered_devs(devs: &[Device]) -> Vec<(String, Vec<String>, u64)> {
    devs.iter().map(|d| (d.id.clone(), d.parent_ids.clone(), d.max_depth)).collect()
}

fn key(d: &str, h: &str, local: bool) -> (String, String, bool) {
    (s(d), s(h), local)
}

/// The state after oss1 reported mpatha and vgA-lv1 while oss2 holds mpatha.
fn scenario_b_state() -> (Vec<Device>, Vec<DeviceHost>) {
    let inc_devs = vec![dev("mpatha", &[], 0), dev("vgA-lv1", &["mpatha"], 1)];
    let inc_rows = vec![dh("mpatha", "oss1", true), dh("vgA-lv1", "oss1", true)];
    let db_devs = vec![dev("mpatha", &[], 0)];
    let db_rows = vec![dh("mpatha", "oss2", true)];
    build_new_state(&s("oss1"), &inc_devs, &inc_rows, &db_devs, &db_rows).unwrap()
}

#[test]
fn shared_device_local_on_both_hosts_is_unchanged() {
    let devs = vec![dev("mpatha", &[], 0)];
    let rows = vec![dh("mpatha", "oss1", true), dh("mpatha", "oss2", true)];
    let inc_rows = vec![dh("mpatha", "oss1", true)];
    let (out_devs, out_rows) = build_new_state(&s("oss1"), &devs, &inc_rows, &devs, &rows).unwrap();
    assert_eq!(dev_keys(&out_devs), dev_keys(&devs));
    assert_eq!(row_keys(&out_rows), row_keys(&rows));
}

#[test]
fn child_of_shared_device_is_propagated_to_other_host() {
    let (out_devs, out_rows) = scenario_b_state();
    assert_eq!(
        row_keys(&out_rows),
        vec![
            key("mpatha", "oss1", true),
            key("mpatha", "oss2", true),
            key("vgA-lv1", "oss1", true),
            key("vgA-lv1", "oss2", false),
        ]
    );
    assert_eq!(dev_keys(&out_devs), dev_keys(&[dev("mpatha", &[], 0), dev("vgA-lv1", &["mpatha"], 1)]));
}

#[test]
fn removed_device_retracts_local_and_propagated_rows() {
    let (db_devs, db_rows) = scenario_b_state();
    let (out_devs, out_rows) = build_new_state(&s("oss1"), &vec![], &vec![], &db_devs, &db_rows).unwrap();
    assert_eq!(row_keys(&out_rows), vec![key("mpatha", "oss2", true)]);
    assert_eq!(dev_keys(&out_devs), dev_keys(&[dev("mpatha", &[], 0)]));
}

#[test]
fn dangling_parent_is_invalid_input() {
    let inc_devs = vec![dev("x", &["y"], 1)];
    let inc_rows = vec![dh("x", "oss1", true)];
    let r = build_new_state(&s("oss1"), &inc_devs, &inc_rows, &vec![], &vec![]);
    assert!(matches!(r, Err(ReconcileError::InvalidInput)));
}

#[test]
fn cycle_is_invalid_input() {
    let inc_devs = vec![dev("a", &["b"], 1), dev("b", &["a"], 1)];
    let inc_rows = vec![dh("a", "oss1", true), dh("b", "oss1", true)];
    let r = build_new_state(&s("oss1"), &inc_devs, &inc_rows, &vec![], &vec![]);
    assert!(matches!(r, Err(ReconcileError::InvalidInput)));
}

#[test]
fn reapplying_a_report_changes_nothing() {
    let inc_devs = vec![dev("mpatha", &[], 0), dev("vgA-lv1", &["mpatha"], 1)];
    let inc_rows = vec![dh("mpatha", "oss1", true), dh("vgA-lv1", "oss1", true)];
    let (d1, r1) = scenario_b_state();
    let (d2, r2) = build_new_state(&s("oss1"), &inc_devs, &inc_rows, &d1, &r1).unwrap();
    assert_eq!(ordered_devs(&d1), ordered_devs(&d2));
    assert_eq!(ordered_rows(&r1), ordered_rows(&r2));
}

#[test]
fn input_order_does_not_change_the_result() {
    let inc_devs = vec![dev("lv", &["vg"], 2), dev("vg", &["mpatha"], 1), dev("mpatha", &[], 0)];
    let inc_rows = vec![dh("lv", "oss1", true), dh("vg", "oss1", true), dh("mpatha", "oss1", true)];
    let db_devs = vec![dev("sdb", &[], 0), dev("mpatha", &[], 0)];
    let db_rows = vec![dh("sdb", "oss3", true), dh("mpatha", "oss2", true), dh("mpatha", "oss3", true)];
    let (d1, r1) = build_new_state(&s("oss1"), &inc_devs, &inc_rows, &db_devs, &db_rows).unwrap();
    let mut inc_devs2 = inc_devs;
    inc_devs2.reverse();
    let mut inc_rows2 = inc_rows;
    inc_rows2.reverse();
    let mut db_devs2 = db_devs;
    db_devs2.reverse();
    let mut db_rows2 = db_rows;
    db_rows2.reverse();
    let (d2, r2) = build_new_state(&s("oss1"), &inc_devs2, &inc_rows2, &db_devs2, &db_rows2).unwrap();
    assert_eq!(dev_keys(&d1), dev_keys(&d2));
    assert_eq!(row_keys(&r1), row_keys(&r2));
}

#[test]
fn two_levels_are_propagated_in_any_input_order() {
    let inc_devs = vec![dev("lv", &["vg"], 2), dev("vg", &["mpatha"], 1), dev("mpatha", &[], 0)];
    let inc_rows = vec![dh("lv", "oss1", true), dh("vg", "oss1", true), dh("mpatha", "oss1", true)];
    let db_devs = vec![dev("mpatha", &[], 0)];
    let db_rows = vec![dh("mpatha", "oss2", true)];
    let (_, rows) = build_new_state(&s("oss1"), &inc_devs, &inc_rows, &db_devs, &db_rows).unwrap();
    let keys = row_keys(&rows);
    assert!(keys.contains(&key("vg", "oss2", false)));
    assert!(keys.contains(&key("lv", "oss2", false)));
    assert_eq!(keys.len(), 6);
}

#[test]
fn propagated_rows_have_rows_for_all_ancestors() {
    let inc_devs = vec![dev("lv", &["vg"], 2), dev("vg", &["mpatha"], 1), dev("mpatha", &[], 0)];
    let inc_rows = vec![dh("lv", "oss1", true), dh("vg", "oss1", true), dh("mpatha", "oss1", true)];
    let db_devs = vec![dev("mpatha", &[], 0)];
    let db_rows = vec![dh("mpatha", "oss2", true)];
    let (devs, rows) = build_new_state(&s("oss1"), &inc_devs, &inc_rows, &db_devs, &db_rows).unwrap();
    for r in rows.iter().filter(|r| !r.local) {
        let d = devs.iter().find(|d| d.id == r.device_id).unwrap();
        for p in &d.parent_ids {
            assert!(rows.iter().any(|x| &x.device_id == p && x.fqdn == r.fqdn));
        }
    }
}

#[test]
fn device_without_shared_parent_is_not_propagated() {
    let inc_devs = vec![dev("sda", &[], 0), dev("sda1", &["sda"], 1)];
    let inc_rows = vec![dh("sda", "oss1", true), dh("sda1", "oss1", true)];
    let db_devs = vec![dev("sdb", &[], 0)];
    let db_rows = vec![dh("sdb", "oss2", true)];
    let (_, rows) = build_new_state(&s("oss1"), &inc_devs, &inc_rows, &db_devs, &db_rows).unwrap();
    assert_eq!(
        row_keys(&rows),
        vec![key("sda", "oss1", true), key("sda1", "oss1", true), key("sdb", "oss2", true)]
    );
}

#[test]
fn losing_a_shared_parent_on_a_host_retracts_its_children_there() {
    let (db_devs, db_rows) = scenario_b_state();
    // oss2 no longer sees mpatha
    let (_, rows) = build_new_state(&s("oss2"), &vec![], &vec![], &db_devs, &db_rows).unwrap();
    assert_eq!(
        row_keys(&rows),
        vec![key("mpatha", "oss1", true), key("vgA-lv1", "oss1", true)]
    );
}

#[test]
fn other_hosts_local_rows_are_untouched() {
    let (db_devs, mut db_rows) = scenario_b_state();
    db_rows.push(dh("sdz", "oss3", true));
    let mut db_devs = db_devs;
    db_devs.push(dev("sdz", &[], 0));
    let inc_devs = vec![dev("mpatha", &[], 0)];
    let inc_rows = vec![dh("mpatha", "oss1", true)];
    let (_, rows) = build_new_state(&s("oss1"), &inc_devs, &inc_rows, &db_devs, &db_rows).unwrap();
    let keys = row_keys(&rows);
    assert!(keys.contains(&key("mpatha", "oss2", true)));
    assert!(keys.contains(&key("sdz", "oss3", true)));
    assert!(!keys.iter().any(|k| k.0 == "vgA-lv1"));
}

#[test]
fn propagated_row_of_reporting_host_is_replaced_by_report() {
    let (db_devs, db_rows) = scenario_b_state();
    let inc_devs = vec![dev("mpatha", &[], 0)];
    let inc_rows = vec![dh("mpatha", "oss2", true)];
    let (_, rows) = build_new_state(&s("oss2"), &inc_devs, &inc_rows, &db_devs, &db_rows).unwrap();
    // oss2's own rows come from its report; oss1 keeps its local rows.
    assert_eq!(
        row_keys(&rows),
        vec![key("mpatha", "oss1", true), key("mpatha", "oss2", true), key("vgA-lv1", "oss1", true)]
    );
}

#[test]
fn merge_replaces_rows_of_the_reporting_host() {
    let inc_devs = vec![dev("a", &[], 5)];
    let inc_rows = vec![dh("a", "h1", true)];
    let db_devs = vec![dev("a", &[], 0), dev("b", &[], 0), dev("c", &[], 0)];
    let db_rows = vec![dh("b", "h1", true), dh("c", "h2", true), dh("a", "h1", false)];
    let (devs, rows) = merge_state(&s("h1"), &inc_devs, &inc_rows, &db_devs, &db_rows);
    assert_eq!(ordered_rows(&rows), vec![key("c", "h2", true), key("a", "h1", true)]);
    // the reported attributes of `a` win; `b` lost its only row and is dropped
    assert_eq!(ordered_devs(&devs), vec![(s("a"), vec![], 5), (s("c"), vec![], 0)]);
}

#[test]
fn merge_keeps_unreported_parent_of_a_kept_device() {
    let inc_devs = vec![dev("lv", &["vg"], 1)];
    let inc_rows = vec![dh("lv", "h1", true)];
    let db_devs = vec![dev("vg", &[], 0)];
    let (devs, _) = merge_state(&s("h1"), &inc_devs, &inc_rows, &db_devs, &vec![]);
    assert_eq!(ordered_devs(&devs), vec![(s("lv"), vec![s("vg")], 1), (s("vg"), vec![], 0)]);
}

#[test]
fn parents_available_over_a_diamond() {
    let devs = vec![
        dev("root", &[], 0),
        dev("left", &["root"], 1),
        dev("right", &["root"], 1),
        dev("top", &["left", "right"], 2),
    ];
    let rows = vec![dh("root", "h", true), dh("left", "h", false), dh("right", "h", true)];
    assert_eq!(all_parents_available(&devs, &rows, &s("h"), &s("top")), Ok(true));
    assert_eq!(all_parents_available(&devs, &rows, &s("g"), &s("top")), Ok(false));
    assert_eq!(all_parents_available(&devs, &rows, &s("g"), &s("root")), Ok(true));
    let rows2 = vec![dh("left", "h", true), dh("right", "h", true)];
    assert_eq!(all_parents_available(&devs, &rows2, &s("h"), &s("top")), Ok(false));
}

#[test]
fn parents_available_ignores_stale_depths() {
    let devs = vec![dev("a", &["b"], 0), dev("b", &[], 0)];
    let rows = vec![dh("b", "h", true)];
    assert_eq!(all_parents_available(&devs, &vec![], &s("h"), &s("a")), Ok(false));
    assert_eq!(all_parents_available(&devs, &rows, &s("h"), &s("a")), Ok(true));
}

#[test]
fn parents_available_rejects_cycle_and_dangling_parent() {
    let cyc = vec![dev("a", &["b"], 1), dev("b", &["a"], 2)];
    assert_eq!(all_parents_available(&cyc, &vec![], &s("h"), &s("a")), Err(ReconcileError::InvalidInput));
    let dangling = vec![dev("a", &["zz"], 1)];
    assert_eq!(all_parents_available(&dangling, &vec![], &s("h"), &s("a")), Err(ReconcileError::InvalidInput));
}

#[test]
fn stale_stored_depths_are_recomputed() {
    let db_devs = vec![dev("A", &[], 0), dev("B", &["A"], 1)];
    let db_rows = vec![dh("A", "oss1", true), dh("B", "oss1", true)];
    let inc_devs = vec![dev("A", &["C"], 1), dev("C", &[], 0), dev("B", &["A"], 1)];
    let inc_rows = vec![dh("A", "oss1", true), dh("B", "oss1", true), dh("C", "oss1", true)];
    let (devs, rows) = build_new_state(&s("oss1"), &inc_devs, &inc_rows, &db_devs, &db_rows).unwrap();
    assert_eq!(
        dev_keys(&devs),
        vec![(s("A"), vec![s("C")], 1), (s("B"), vec![s("A")], 2), (s("C"), vec![], 0)]
    );
    assert_eq!(row_keys(&rows).len(), 3);
}

#[test]
fn wrong_reported_depths_are_corrected() {
    let inc_devs = vec![dev("root", &[], 5), dev("child", &["root"], 0)];
    let inc_rows = vec![dh("root", "oss1", true), dh("child", "oss1", true)];
    let (devs, _) = build_new_state(&s("oss1"), &inc_devs, &inc_rows, &vec![], &vec![]).unwrap();
    assert_eq!(
        ordered_devs(&devs),
        vec![(s("root"), vec![], 0), (s("child"), vec![s("root")], 1)]
    );
}

#[test]
fn parent_kept_only_by_a_dropped_child_is_dropped_too() {
    let db_devs = vec![dev("x", &[], 0), dev("y", &["x"], 1)];
    let db_rows = vec![dh("y", "oss2", false)];
    let (d1, r1) = build_new_state(&s("oss1"), &vec![], &vec![], &db_devs, &db_rows).unwrap();
    assert!(r1.is_empty());
    assert!(d1.is_empty());
    let (d2, r2) = build_new_state(&s("oss1"), &vec![], &vec![], &d1, &r1).unwrap();
    assert!(r2.is_empty() && d2.is_empty());
}

#[test]
fn ancestors_of_a_reported_device_are_kept() {
    let inc_devs = vec![dev("lv", &["vg"], 2)];
    let inc_rows = vec![dh("lv", "oss1", true)];
    let db_devs = vec![dev("vg", &["pv"], 1), dev("pv", &[], 0)];
    let (devs, rows) = build_new_state(&s("oss1"), &inc_devs, &inc_rows, &db_devs, &vec![]).unwrap();
    assert_eq!(row_keys(&rows), vec![key("lv", "oss1", true)]);
    assert_eq!(
        ordered_devs(&devs),
        vec![(s("lv"), vec![s("vg")], 2), (s("vg"), vec![s("pv")], 1), (s("pv"), vec![], 0)]
    );
}

#[test]
fn merge_drops_a_chain_left_without_references() {
    let db_devs = vec![dev("x", &[], 0), dev("y", &["x"], 1), dev("z", &[], 0)];
    let db_rows = vec![dh("x", "h1", true), dh("y", "h1", true), dh("z", "h2", true)];
    let (devs, rows) = merge_state(&s("h1"), &vec![], &vec![], &db_devs, &db_rows);
    assert_eq!(ordered_rows(&rows), vec![key("z", "h2", true)]);
    assert_eq!(ordered_devs(&devs), vec![(s("z"), vec![], 0)]);
}

#[test]
fn merging_a_report_twice_changes_nothing() {
    let inc_devs = vec![dev("lv", &["vg"], 1)];
    let inc_rows = vec![dh("lv", "h1", true)];
    let db_devs = vec![dev("vg", &[], 0), dev("old", &["vg"], 1), dev("w", &[], 0)];
    let db_rows = vec![dh("old", "h1", true), dh("w", "h2", false)];
    let (d1, r1) = merge_state(&s("h1"), &inc_devs, &inc_rows, &db_devs, &db_rows);
    let (d2, r2) = merge_state(&s("h1"), &inc_devs, &inc_rows, &d1, &r1);
    assert_eq!(ordered_devs(&d1), ordered_devs(&d2));
    assert_eq!(ordered_rows(&r1), ordered_rows(&r2));
    assert_eq!(
        ordered_devs(&d1),
        vec![(s("lv"), vec![s("vg")], 1), (s("vg"), vec![], 0), (s("w"), vec![], 0)]
    );
}

#[test]
fn reapplying_a_report_with_stale_depths_changes_nothing() {
    let db_devs = vec![dev("A", &[], 0), dev("B", &["A"], 1)];
    let db_rows = vec![dh("A", "oss2", true), dh("B", "oss2", true)];
    let inc_devs = vec![dev("A", &["C"], 7), dev("C", &[], 3)];
    let inc_rows = vec![dh("A", "oss1", true), dh("C", "oss1", true)];
    let (d1, r1) = build_new_state(&s("oss1"), &inc_devs, &inc_rows, &db_devs, &db_rows).unwrap();
    let (d2, r2) = build_new_state(&s("oss1"), &inc_devs, &inc_rows, &d1, &r1).unwrap();
    assert_eq!(ordered_devs(&d1), ordered_devs(&d2));
    assert_eq!(ordered_rows(&r1), ordered_rows(&r2));
    assert_eq!(
        dev_keys(&d1),
        vec![(s("A"), vec![s("C")], 1), (s("B"), vec![s("A")], 2), (s("C"), vec![], 0)]
    );
}

#[test]
fn row_naming_no_device_is_invalid_input() {
    let inc_rows = vec![dh("z", "a", true)];
    let r = build_new_state(&s("a"), &vec![], &inc_rows, &vec![], &vec![]);
    assert!(matches!(r, Err(ReconcileError::InvalidInput)));
}

#[test]
fn reported_device_without_row_is_propagated() {
    let inc_devs = vec![dev("mpatha", &[], 0), dev("lv", &["mpatha"], 1)];
    let inc_rows = vec![dh("mpatha", "oss1", true)];
    let db_devs = vec![dev("mpatha", &[], 0)];
    let db_rows = vec![dh("mpatha", "oss2", true)];
    let (_, rows) = build_new_state(&s("oss1"), &inc_devs, &inc_rows, &db_devs, &db_rows).unwrap();
    assert_eq!(
        row_keys(&rows),
        vec![key("lv", "oss2", false), key("mpatha", "oss1", true), key("mpatha", "oss2", true)]
    );
}

#[test]
fn every_returned_row_names_a_returned_device() {
    let (devs, rows) = scenario_b_state();
    for r in &rows {
        assert!(devs.iter().any(|d| d.id == r.device_id));
    }
}
