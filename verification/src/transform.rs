//! Raster/model coordinate transform of one elevation tile: built from the
//! raster's geo tags, mapping pixel coordinates to model coordinates by a
//! pixel scale and one tie point, with the Y axis inverted (raster rows
//! grow downward).

use vstd::prelude::*;

verus! {

/// Why geo tags could not be turned into a transform.
#[derive(Debug, Clone, Copy, PartialEq, Eq, Structural)]
pub enum CoordinateTransformError {
    /// A full transformation-matrix tag is present, or the pixel-scale or
    /// tie-point tag is missing.
    IncorrectGeoTags,
    /// The pixel-scale tag does not hold exactly 3 values, or the
    /// tie-point tag does not hold exactly 6.
    IncorrectGeoTagData,
}

impl CoordinateTransformError {
    /// The display text of this error.
    pub fn message(&self) -> (r: String)
        ensures
            (*self is IncorrectGeoTags) ==> r@
                == "Incorrect geo tags: only ModelPixelScaleTag and ModelTiepointTag without ModelTransformationTag supported"@,
            (*self is IncorrectGeoTagData) ==> r@
                == "Incorrect geo tag data: ModelPixelScaleTag should have 3 and ModelTiepointTag should have 6 values"@,
    {
        match self {
            CoordinateTransformError::IncorrectGeoTags => String::from_str(
                "Incorrect geo tags: only ModelPixelScaleTag and ModelTiepointTag without ModelTransformationTag supported",
            ),
            CoordinateTransformError::IncorrectGeoTagData => String::from_str(
                "Incorrect geo tag data: ModelPixelScaleTag should have 3 and ModelTiepointTag should have 6 values",
            ),
        }
    }
}

/// Affine pixel/model mapping of one tile: anchored at one tie point
/// (`raster_point` maps to `model_point`), scaled per axis by
/// `pixel_scale`. The component type is left to the caller; the verified
/// arithmetic below works on the exact 64-bit instantiation.
#[derive(Debug)]
pub struct CoordinateTransform<T> {
    pub raster_point: (T, T),
    pub model_point: (T, T),
    pub pixel_scale: (T, T),
}

impl<T: Copy> CoordinateTransform<T> {
    /// Builds the transform from the raster's geo tags: rejects a full
    /// transformation-matrix tag and missing tags with `IncorrectGeoTags`,
    /// and wrong tag arities (pixel scale must hold 3 values, the tie
    /// point 6) with `IncorrectGeoTagData`.
    pub fn from_geo_tag_data(
        pixel_scale_data: Option<Vec<T>>,
        tie_points_data: Option<Vec<T>>,
        model_transformation_data: Option<Vec<T>>,
    ) -> (r: Result<CoordinateTransform<T>, CoordinateTransformError>)
        ensures
            model_transformation_data is Some ==> r == Err::<CoordinateTransform<T>,
            CoordinateTransformError>(CoordinateTransformError::IncorrectGeoTags),
            model_transformation_data is None && (pixel_scale_data is None || tie_points_data
                is None) ==> r == Err::<CoordinateTransform<T>, CoordinateTransformError>(
                CoordinateTransformError::IncorrectGeoTags,
            ),
            ({
                let ps = pixel_scale_data->Some_0;
                let tp = tie_points_data->Some_0;
                (model_transformation_data is None && pixel_scale_data is Some && tie_points_data
                    is Some) ==> if ps@.len() == 3 && tp@.len() == 6 {
                    r matches Ok(t) && t.pixel_scale == (ps@[0], ps@[1]) && t.raster_point == (
                    tp@[0],
                    tp@[1],
                    ) && t.model_point == (tp@[3], tp@[4])
                } else {
                    r == Err::<CoordinateTransform<T>, CoordinateTransformError>(
                        CoordinateTransformError::IncorrectGeoTagData,
                    )
                }
            }),
    {
        if model_transformation_data.is_some() {
            return Err(CoordinateTransformError::IncorrectGeoTags);
        }
        match (pixel_scale_data, tie_points_data) {
            (Some(ps), Some(tp)) => {
                if ps.len() == 3 && tp.len() == 6 {
                    Ok(
                        CoordinateTransform {
                            raster_point: (tp[0], tp[1]),
                            model_point: (tp[3], tp[4]),
                            pixel_scale: (ps[0], ps[1]),
                        },
                    )
                } else {
                    Err(CoordinateTransformError::IncorrectGeoTagData)
                }
            },
            _ => Err(CoordinateTransformError::IncorrectGeoTags),
        }
    }
}

/// Model coordinates of a pixel coordinate: offset from the tie point,
/// scaled, Y inverted.
pub open spec fn spec_to_model(t: CoordinateTransform<i64>, coord: (int, int)) -> (int, int) {
    (
        (coord.0 - t.raster_point.0) * t.pixel_scale.0 + t.model_point.0,
        (coord.1 - t.raster_point.1) * (-t.pixel_scale.1) + t.model_point.1,
    )
}

/// Pixel coordinates of a model coordinate: the algebraic inverse of
/// `spec_to_model` under Euclidean division; on the inverted Y axis the
/// offset is negated rather than the scale, which is the same quotient.
pub open spec fn spec_to_raster(t: CoordinateTransform<i64>, coord: (int, int)) -> (int, int) {
    (
        (coord.0 - t.model_point.0) / (t.pixel_scale.0 as int) + t.raster_point.0,
        (t.model_point.1 - coord.1) / (t.pixel_scale.1 as int) + t.raster_point.1,
    )
}

/// Whether all transform components are small enough that the affine
/// arithmetic stays within 64 bits for coordinates of the same size.
pub open spec fn transform_bounded(t: CoordinateTransform<i64>) -> bool {
    &&& -1_000_000_000 <= t.raster_point.0 <= 1_000_000_000
    &&& -1_000_000_000 <= t.raster_point.1 <= 1_000_000_000
    &&& -1_000_000_000 <= t.model_point.0 <= 1_000_000_000
    &&& -1_000_000_000 <= t.model_point.1 <= 1_000_000_000
    &&& -1_000_000 <= t.pixel_scale.0 <= 1_000_000
    &&& -1_000_000 <= t.pixel_scale.1 <= 1_000_000
}

impl CoordinateTransform<i64> {
    /// Maps a pixel coordinate to model coordinates.
    pub fn to_model(&self, coord: (i64, i64)) -> (r: (i64, i64))
        requires
            transform_bounded(*self),
            -1_000_000_000 <= coord.0 <= 1_000_000_000,
            -1_000_000_000 <= coord.1 <= 1_000_000_000,
        ensures
            (r.0 as int, r.1 as int) == spec_to_model(*self, (coord.0 as int, coord.1 as int)),
    {
        proof {
            assert((coord.0 - self.raster_point.0) * self.pixel_scale.0 <= 2_000_000_000
                * 1_000_000 && (coord.0 - self.raster_point.0) * self.pixel_scale.0 >= -(
            2_000_000_000 * 1_000_000)) by (nonlinear_arith)
                requires
                    -2_000_000_000 <= coord.0 - self.raster_point.0 <= 2_000_000_000,
                    -1_000_000 <= self.pixel_scale.0 <= 1_000_000,
            ;
            assert((coord.1 - self.raster_point.1) * (-self.pixel_scale.1) <= 2_000_000_000
                * 1_000_000 && (coord.1 - self.raster_point.1) * (-self.pixel_scale.1) >= -(
            2_000_000_000 * 1_000_000)) by (nonlinear_arith)
                requires
                    -2_000_000_000 <= coord.1 - self.raster_point.1 <= 2_000_000_000,
                    -1_000_000 <= self.pixel_scale.1 <= 1_000_000,
            ;
        }
        let x = (coord.0 - self.raster_point.0) * self.pixel_scale.0 + self.model_point.0;
        let y = (coord.1 - self.raster_point.1) * (-self.pixel_scale.1) + self.model_point.1;
        (x, y)
    }

    /// Maps a model coordinate back to pixel coordinates.
    pub fn to_raster(&self, coord: (i64, i64)) -> (r: (i64, i64))
        requires
            transform_bounded(*self),
            self.pixel_scale.0 > 0,
            self.pixel_scale.1 > 0,
            -4_000_000_000_000_000 <= coord.0 <= 4_000_000_000_000_000,
            -4_000_000_000_000_000 <= coord.1 <= 4_000_000_000_000_000,
        ensures
            (r.0 as int, r.1 as int) == spec_to_raster(*self, (coord.0 as int, coord.1 as int)),
    {
        proof {
            lemma_div_magnitude(coord.0 - self.model_point.0, self.pixel_scale.0 as int);
            lemma_div_magnitude(self.model_point.1 - coord.1, self.pixel_scale.1 as int);
        }
        let qx = (coord.0 - self.model_point.0).checked_div_euclid(self.pixel_scale.0).unwrap();
        let qy = (self.model_point.1 - coord.1).checked_div_euclid(self.pixel_scale.1).unwrap();
        (qx + self.raster_point.0, qy + self.raster_point.1)
    }
}

/// Whether a raster coordinate addresses a sample of the decoded
/// heightmap: inside the raster width and within the sample buffer.
pub open spec fn sample_in_raster(
    raster_x: int,
    raster_y: int,
    width: int,
    sample_count: int,
) -> bool {
    0 <= raster_x < width && 0 <= raster_y && raster_y * width + raster_x < sample_count
}

/// Index of the height sample at a raster coordinate: row times raster
/// width plus column, or `None` when the coordinate falls outside the
/// raster or past the sample buffer.
pub fn height_sample_index(raster_x: i64, raster_y: i64, width: u32, sample_count: usize) -> (r:
    Option<usize>)
    ensures
        r matches Some(i) ==> sample_in_raster(
            raster_x as int,
            raster_y as int,
            width as int,
            sample_count as int,
        ) && i == raster_y * width + raster_x,
        r is None <==> !sample_in_raster(
            raster_x as int,
            raster_y as int,
            width as int,
            sample_count as int,
        ),
{
    if raster_x < 0 || raster_y < 0 || raster_x >= width as i64 {
        return None;
    }
    let y128: u128 = raster_y as u128;
    let w128: u128 = width as u128;
    let x128: u128 = raster_x as u128;
    proof {
        assert((y128 as int) * (w128 as int) <= 0x7fff_ffff_ffff_ffff * 0x1_0000_0000)
            by (nonlinear_arith)
            requires
                0 <= y128 <= 0x7fff_ffff_ffff_ffff,
                0 <= w128 <= 0x1_0000_0000,
        ;
        assert((y128 as int) * (w128 as int) >= 0) by (nonlinear_arith)
            requires
                y128 >= 0,
                w128 >= 0,
        ;
    }
    let idx: u128 = y128 * w128 + x128;
    if idx < sample_count as u128 {
        Some(idx as usize)
    } else {
        None
    }
}

/// A Euclidean quotient by a positive divisor stays within the
/// dividend's working range.
proof fn lemma_div_magnitude(x: int, d: int)
    requires
        0 < d <= 1_000_000,
        -5_000_000_000_000_000 <= x <= 5_000_000_000_000_000,
    ensures
        -5_000_000_001_000_000 <= x / d <= 5_000_000_000_000_000,
{
    vstd::arithmetic::div_mod::lemma_fundamental_div_mod(x, d);
    vstd::arithmetic::div_mod::lemma_mod_bound(x, d);
    let q = x / d;
    let r = x % d;
    assert(d * q == x - r);
    if q > 5_000_000_000_000_000 {
        assert(d * q >= q) by (nonlinear_arith)
            requires
                d >= 1,
                q > 0,
        ;
    }
    if q < -5_000_000_001_000_000 {
        assert(d * q <= q) by (nonlinear_arith)
            requires
                d >= 1,
                q < 0,
        ;
    }
}

/// Mapping a pixel coordinate to model space and back returns the same
/// pixel coordinate: the scaled offset is divided by the exact scale that
/// produced it.
pub proof fn lemma_transform_round_trip(t: CoordinateTransform<i64>, p: (int, int))
    requires
        t.pixel_scale.0 > 0,
        t.pixel_scale.1 > 0,
    ensures
        spec_to_raster(t, spec_to_model(t, p)) == p,
{
    let sx = t.pixel_scale.0 as int;
    let sy = t.pixel_scale.1 as int;
    let m = spec_to_model(t, p);
    assert(m.0 - t.model_point.0 == (p.0 - t.raster_point.0) * sx);
    assert(t.model_point.1 - m.1 == (p.1 - t.raster_point.1) * sy) by (nonlinear_arith)
        requires
            m.1 == (p.1 - t.raster_point.1) * (-sy) + t.model_point.1,
    ;
    lemma_exact_div((p.0 - t.raster_point.0), sx);
    lemma_exact_div((p.1 - t.raster_point.1), sy);
}

/// Dividing an exact multiple by its positive factor recovers the other
/// factor.
proof fn lemma_exact_div(k: int, d: int)
    requires
        d > 0,
    ensures
        (k * d) / d == k,
{
    vstd::arithmetic::div_mod::lemma_div_multiples_vanish(k, d);
    assert(k * d == d * k) by (nonlinear_arith);
}

} // verus!
