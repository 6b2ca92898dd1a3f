use topo_core::transform::height_sample_index;
use topo_core::transform::CoordinateTransform;
use topo_core::transform::CoordinateTransformError;

#[test]
fn rejects_transformation_matrix_tag() {
    let r = CoordinateTransform::<f64>::from_geo_tag_data(
        Some(vec![1.0, 1.0, 0.0]),
        Some(vec![0.0, 0.0, 0.0, 20.0, 50.0, 0.0]),
        Some(vec![0.0; 16]),
    );
    assert_eq!(r.unwrap_err(), CoordinateTransformError::IncorrectGeoTags);
}

#[test]
fn rejects_missing_tags() {
    let r = CoordinateTransform::<f64>::from_geo_tag_data(None, None, None);
    assert_eq!(r.unwrap_err(), CoordinateTransformError::IncorrectGeoTags);
    let r = CoordinateTransform::<f64>::from_geo_tag_data(Some(vec![1.0, 1.0, 0.0]), None, None);
    assert_eq!(r.unwrap_err(), CoordinateTransformError::IncorrectGeoTags);
}

#[test]
fn rejects_wrong_tag_arity() {
    let r = CoordinateTransform::<f64>::from_geo_tag_data(
        Some(vec![1.0, 1.0]),
        Some(vec![0.0, 0.0, 0.0, 20.0, 50.0, 0.0]),
        None,
    );
    assert_eq!(r.unwrap_err(), CoordinateTransformError::IncorrectGeoTagData);
    let r = CoordinateTransform::<f64>::from_geo_tag_data(
        Some(vec![1.0, 1.0, 0.0]),
        Some(vec![0.0, 0.0, 0.0, 20.0]),
        None,
    );
    assert_eq!(r.unwrap_err(), CoordinateTransformError::IncorrectGeoTagData);
}

#[test]
fn builds_transform_from_tags() {
    let t = CoordinateTransform::<f64>::from_geo_tag_data(
        Some(vec![0.5, 0.25, 0.0]),
        Some(vec![1.0, 2.0, 0.0, 20.0, 50.0, 0.0]),
        None,
    )
    .unwrap();
    assert_eq!(t.raster_point, (1.0, 2.0));
    assert_eq!(t.model_point, (20.0, 50.0));
    assert_eq!(t.pixel_scale, (0.5, 0.25));
}

#[test]
fn to_model_and_back_is_identity() {
    // Microdegree units: one pixel is 1/1200 degree, i.e. 833 microdegrees
    // rounded to whole units for the exact integer instantiation.
    let t = CoordinateTransform::<i64> {
        raster_point: (0, 0),
        model_point: (20_000_000, 50_000_000),
        pixel_scale: (833, 833),
    };
    for &p in &[(0i64, 0i64), (1, 1), (57, 1199), (1199, 57), (600, 600)] {
        let m = t.to_model(p);
        let back = t.to_raster(m);
        assert_eq!(back, p);
    }
}

#[test]
fn to_model_matches_affine_formula() {
    let t = CoordinateTransform::<i64> {
        raster_point: (10, 20),
        model_point: (1_000, 2_000),
        pixel_scale: (5, 7),
    };
    let m = t.to_model((14, 26));
    // x: (14 - 10) * 5 + 1000; y: (26 - 20) * -7 + 2000.
    assert_eq!(m, (1_020, 1_958));
}

#[test]
fn error_messages() {
    assert_eq!(
        CoordinateTransformError::IncorrectGeoTags.message(),
        "Incorrect geo tags: only ModelPixelScaleTag and ModelTiepointTag without ModelTransformationTag supported"
    );
    assert_eq!(
        CoordinateTransformError::IncorrectGeoTagData.message(),
        "Incorrect geo tag data: ModelPixelScaleTag should have 3 and ModelTiepointTag should have 6 values"
    );
}

#[test]
fn height_sample_lookup_bounds() {
    // A 4-wide raster with 8 samples (two rows).
    assert_eq!(height_sample_index(0, 0, 4, 8), Some(0));
    assert_eq!(height_sample_index(3, 1, 4, 8), Some(7));
    assert_eq!(height_sample_index(4, 0, 4, 8), None);
    assert_eq!(height_sample_index(-1, 0, 4, 8), None);
    assert_eq!(height_sample_index(0, 2, 4, 8), None);
}
