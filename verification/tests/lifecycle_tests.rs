use topo_core::geo::GeoLocation;
use topo_core::lifecycle::TileLifecycleManager;

fn loc(lat: i32, lon: i32) -> GeoLocation {
    GeoLocation::from_coord(lat, lon)
}

#[test]
fn reconcile_computes_deltas() {
    let mut manager = TileLifecycleManager::new();
    let first = vec![loc(52, 20), loc(52, 19), loc(51, 20)];
    let (to_request, to_unload) = manager.reconcile(&first);
    assert_eq!(to_request, first);
    assert!(to_unload.is_empty());

    let moved = vec![loc(52, 19), loc(52, 18), loc(51, 19)];
    let (to_request, to_unload) = manager.reconcile(&moved);
    assert_eq!(to_request, vec![loc(52, 18), loc(51, 19)]);
    assert_eq!(to_unload, vec![loc(52, 20), loc(51, 20)]);
}

#[test]
fn reconcile_twice_is_idempotent() {
    let mut manager = TileLifecycleManager::new();
    let wanted = vec![loc(52, 20), loc(52, 19), loc(52, 21), loc(51, 20)];
    let _ = manager.reconcile(&wanted);
    let (to_request, to_unload) = manager.reconcile(&wanted);
    assert!(to_request.is_empty());
    assert!(to_unload.is_empty());
}

#[test]
fn reconcile_keeps_request_order_and_dedups() {
    let mut manager = TileLifecycleManager::new();
    let seeded = vec![loc(10, 10)];
    let _ = manager.reconcile(&seeded);

    let wanted = vec![loc(11, 11), loc(10, 10), loc(11, 11), loc(12, 12)];
    let (to_request, to_unload) = manager.reconcile(&wanted);
    assert_eq!(to_request, vec![loc(11, 11), loc(12, 12)]);
    assert!(to_unload.is_empty());
    let mut loaded = manager.loaded_locations().clone();
    loaded.sort();
    assert_eq!(loaded, vec![loc(10, 10), loc(11, 11), loc(12, 12)]);
}
