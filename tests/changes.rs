use iml_devices::changes::visibility_changes;
use iml_devices::model::DeviceHost;
use iml_devices::reconcile::build_new_state;
use iml_devices::model::Device;

fn dev(id: &str, parents: &[&str], depth: u64) -> Device {
    Device {
        id: id.to_string(),
        parent_ids: parents.iter().map(|p| p.to_string()).collect(),
        max_depth: depth,
    }
}

fn dh(id: &str, host: &str, local: bool) -> DeviceHost {
    DeviceHost { device_id: id.to_string(), fqdn: host.to_string(), local }
}

#[test]
fn changes_list_added_and_retracted_pairs() {
    let before = vec![dh("a", "h1", true), dh("b", "h2", false)];
    let after = vec![dh("a", "h1", false), dh("c", "h2", true)];
    let mut got: Vec<(String, String, bool)> = visibility_changes(&before, &after)
        .into_iter()
        .map(|c| (c.device_id, c.fqdn, c.added))
        .collect();
    got.sort();
    assert_eq!(
        got,
        vec![
            ("b".to_string(), "h2".to_string(), false),
            ("c".to_string(), "h2".to_string(), true),
        ]
    );
}

#[test]
fn changes_of_a_pass_name_the_propagated_row() {
    let inc_devs = vec![dev("mpatha", &[], 0), dev("vgA-lv1", &["mpatha"], 1)];
    let inc_rows = vec![dh("mpatha", "oss1", true), dh("vgA-lv1", "oss1", true)];
    let db_devs = vec![dev("mpatha", &[], 0)];
    let db_rows = vec![dh("mpatha", "oss2", true)];
    let (_, rows) = build_new_state(&"oss1".to_string(), &inc_devs, &inc_rows, &db_devs, &db_rows).unwrap();
    let mut got: Vec<(String, String, bool)> = visibility_changes(&db_rows, &rows)
        .into_iter()
        .map(|c| (c.device_id, c.fqdn, c.added))
        .collect();
    got.sort();
    assert_eq!(
        got,
        vec![
            ("mpatha".to_string(), "oss1".to_string(), true),
            ("vgA-lv1".to_string(), "oss1".to_string(), true),
            ("vgA-lv1".to_string(), "oss2".to_string(), true),
        ]
    );
}

#[test]
fn no_changes_between_equal_states() {
    let rows = vec![dh("a", "h1", true)];
    assert!(visibility_changes(&rows, &rows).is_empty());
}
