use topo_core::geo::GeoLocation;
use topo_core::geo::Latitude;
use topo_core::geo::LatitudeDirection;
use topo_core::geo::Longitude;
use topo_core::geo::LongitudeDirection;

#[test]
fn deserialize_geo_location_query() {
    let json = r#"{"latitude": "49N", "longitude": "20E"}"#;
    let value: serde_json::Value = serde_json::from_str(json).unwrap();
    let latitude = Latitude::parse(value["latitude"].as_str().unwrap()).unwrap();
    let longitude = Longitude::parse(value["longitude"].as_str().unwrap()).unwrap();
    let query = GeoLocation {
        latitude,
        longitude,
    };
    assert_eq!(
        query,
        GeoLocation {
            latitude: Latitude {
                degree: 49,
                direction: LatitudeDirection::N,
            },

            longitude: Longitude {
                degree: 20,
                direction: LongitudeDirection::E,
            },
        },
    )
}

#[test]
fn parse_rejects_empty_and_bad_direction() {
    assert_eq!(Latitude::parse(""), None);
    assert_eq!(Latitude::parse("N"), None);
    assert_eq!(Latitude::parse("49X"), None);
    assert_eq!(Latitude::parse("49E"), None);
    assert_eq!(Longitude::parse("20N"), None);
    assert_eq!(Longitude::parse("-5W").unwrap().degree, -5);
}

#[test]
fn from_coord_signs() {
    let l = GeoLocation::from_coord(-49, 20);
    assert_eq!(l.latitude.degree, 49);
    assert_eq!(l.latitude.direction, LatitudeDirection::S);
    assert_eq!(l.longitude.degree, 20);
    assert_eq!(l.longitude.direction, LongitudeDirection::E);

    let zero = GeoLocation::from_coord(0, 0);
    assert_eq!(zero.latitude.direction, LatitudeDirection::S);
    assert_eq!(zero.longitude.direction, LongitudeDirection::W);
}

#[test]
fn request_params_text() {
    let l = GeoLocation::from_coord(52, -20);
    assert_eq!(l.to_request_params(), "latitude=52N&longitude=20W");
    let l2 = GeoLocation::from_coord(-3, 117);
    assert_eq!(l2.to_request_params(), "latitude=3S&longitude=117E");
}
