use iml_devices::page::{Page, Route};

#[test]
fn plain_routes_match_their_pages() {
    assert!(Page::About.is_active(&Route::About));
    assert!(Page::Mgts.is_active(&Route::Mgt));
    assert!(Page::Volumes.is_active(&Route::Volumes));
    assert!(!Page::Volumes.is_active(&Route::Servers));
    assert!(!Page::AppLoading.is_active(&Route::NotFound));
}

#[test]
fn record_routes_compare_ids() {
    assert!(Page::Server(3).is_active(&Route::Server(3)));
    assert!(!Page::Server(3).is_active(&Route::Server(4)));
    assert!(!Page::Target(3).is_active(&Route::Server(3)));
}

#[test]
fn dashboard_routes_compare_names() {
    let p = Page::FsDashboard("fs1".to_string());
    assert!(p.is_active(&Route::FsDashboard("fs1".to_string())));
    assert!(!p.is_active(&Route::FsDashboard("fs2".to_string())));
    assert!(!p.is_active(&Route::ServerDashboard("fs1".to_string())));
}
