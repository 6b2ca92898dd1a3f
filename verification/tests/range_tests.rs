use topo_core::geo::GeoLocation;
use topo_core::range::GeoCoord;
use topo_core::range::locations_in_range;

/// Half-widths of the bounding box for a request radius, in
/// microdegrees, by the spherical small-angle bound the viewer uses.
fn range_deltas_micro(latitude_deg: f64, radius_meters: f64) -> (i64, i64) {
    let earth_radius = 6_371_000.0_f64;
    let lat_cos = latitude_deg.to_radians().cos();
    let arc_factor = 0.5 * radius_meters / earth_radius;
    let arc_factor_sin = arc_factor.sin();
    let afs_sq = arc_factor_sin * arc_factor_sin;
    let dlat = (1.0 - afs_sq).acos().to_degrees();
    let dlon = (1.0 - afs_sq / lat_cos / lat_cos).acos().to_degrees();
    ((dlat * 1e6).round() as i64, (dlon * 1e6).round() as i64)
}

fn coord(latitude_deg: f64, longitude_deg: f64) -> GeoCoord {
    GeoCoord::new(
        (latitude_deg * 1e6).round() as i64,
        (longitude_deg * 1e6).round() as i64,
    )
}

#[test]
fn check_range() {
    let (dlat, dlon) = range_deltas_micro(52.1, 100_000.0);
    let locations = locations_in_range(coord(52.1, 20.1), dlat, dlon);

    let expected = vec![
        GeoLocation::from_coord(52, 20),
        GeoLocation::from_coord(52, 19),
        GeoLocation::from_coord(52, 21),
        GeoLocation::from_coord(51, 20),
        GeoLocation::from_coord(51, 19),
        GeoLocation::from_coord(51, 21),
    ];

    assert_eq!(locations, expected);
}

#[test]
fn antimeridian_wraps_without_duplicates() {
    let (dlat, dlon) = range_deltas_micro(29.0, 100_000.0);
    let locations = locations_in_range(coord(29.0, -179.5), dlat, dlon);

    let expected = vec![
        GeoLocation::from_coord(29, -180),
        GeoLocation::from_coord(29, 179),
        GeoLocation::from_coord(29, -179),
        GeoLocation::from_coord(28, -180),
        GeoLocation::from_coord(28, 179),
        GeoLocation::from_coord(28, -179),
    ];
    assert_eq!(locations, expected);

    for (i, a) in locations.iter().enumerate() {
        for b in locations.iter().skip(i + 1) {
            assert_ne!(a, b);
        }
    }
}

#[test]
fn center_tile_always_included() {
    let samples = [
        (52.1, 20.1),
        (29.0, -179.5),
        (0.0, 0.0),
        (-33.9, 18.4),
        (67.2, -154.0),
        (-89.7, 101.3),
    ];
    for (lat, lon) in samples {
        let (dlat, dlon) = range_deltas_micro(lat, 100_000.0);
        let center = coord(lat, lon);
        let center_tile = center.enclosing_tile();
        let locations = locations_in_range(center, dlat, dlon);
        assert!(
            locations.contains(&center_tile),
            "center tile missing for ({lat}, {lon})"
        );
    }
}

#[test]
fn zero_radius_yields_single_tile() {
    let locations = locations_in_range(coord(52.5, 20.5), 0, 0);
    assert_eq!(locations, vec![GeoLocation::from_coord(52, 20)]);
}
