use lxs_registry::refresh::{refresh_command, refresh_due, REFRESH_INTERVAL_SECS, REGISTRY_URL};

#[test]
fn refresh_every_ten_minutes() {
    assert_eq!(REFRESH_INTERVAL_SECS, 600);
    assert!(refresh_due(None));
    assert!(!refresh_due(Some(0)));
    assert!(!refresh_due(Some(599)));
    assert!(refresh_due(Some(600)));
    assert!(refresh_due(Some(u64::MAX)));
}

#[test]
fn first_refresh_clones_shallowly() {
    let c = refresh_command("/var/lib/lxs-registry", false);
    assert!(c.fresh_clone);
    assert_eq!(c.args, vec!["clone", "--depth", "1", REGISTRY_URL, "/var/lib/lxs-registry"]);
    assert_eq!(REGISTRY_URL, "https://github.com/getecosphere/lxs-registry.git");
}

#[test]
fn later_refreshes_pull_fast_forward() {
    let c = refresh_command("/cache", true);
    assert!(!c.fresh_clone);
    assert_eq!(c.args, vec!["-C", "/cache", "pull", "--ff-only"]);
}
