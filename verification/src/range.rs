//! Tile range calculation: which 1x1 degree tiles must be resident around
//! a viewer position, and in which order they should be requested.
//!
//! The angular half-widths of the bounding box (derived from the request
//! radius by spherical trigonometry) are taken as inputs in microdegrees;
//! this module enumerates every integer-degree cell of the box, clamps
//! latitude to `[-90, 89]`, wraps longitude into `[-180, 180)` and orders
//! the cells closest-first.

use vstd::prelude::*;
use vstd::arithmetic::div_mod::lemma_div_is_ordered;
use vstd::multiset::Multiset;

use crate::geo::GeoLocation;
use crate::geo::spec_from_coord;

verus! {

/// A continuous viewer position, in microdegrees (one millionth of a
/// degree). The original data carries at most six decimal places, so the
/// representation is exact.
#[derive(Debug, Clone, Copy, PartialEq, Eq, Structural)]
pub struct GeoCoord {
    pub latitude_micro: i64,
    pub longitude_micro: i64,
}

impl GeoCoord {
    /// Latitude within +/-90 degrees, longitude within [-180, 180).
    pub open spec fn wf(self) -> bool {
        -90_000_000 <= self.latitude_micro <= 90_000_000 && -180_000_000
            <= self.longitude_micro < 180_000_000
    }

    pub fn new(latitude_micro: i64, longitude_micro: i64) -> (r: GeoCoord)
        ensures
            r.latitude_micro == latitude_micro,
            r.longitude_micro == longitude_micro,
    {
        GeoCoord { latitude_micro, longitude_micro }
    }

    /// The 1x1 degree tile containing this coordinate: degrees floored
    /// toward the south-west corner of the cell.
    pub fn enclosing_tile(&self) -> (r: GeoLocation)
        requires
            self.wf(),
        ensures
            r == spec_from_coord(
                floor_deg(self.latitude_micro as int),
                floor_deg(self.longitude_micro as int),
            ),
    {
        proof {
            lemma_div_is_ordered(-90_000_000, self.latitude_micro as int, 1_000_000);
            lemma_div_is_ordered(self.latitude_micro as int, 90_000_000, 1_000_000);
            lemma_div_is_ordered(-180_000_000, self.longitude_micro as int, 1_000_000);
            lemma_div_is_ordered(self.longitude_micro as int, 180_000_000, 1_000_000);
        }
        let la = floor_deg_exec(self.latitude_micro);
        let lo = floor_deg_exec(self.longitude_micro);
        GeoLocation::from_coord(la as i32, lo as i32)
    }
}

/// Whole degrees of a microdegree value, rounded toward minus infinity.
pub open spec fn floor_deg(micro: int) -> int {
    micro / 1_000_000
}

/// Longitude degrees wrapped into [-180, 180).
pub open spec fn wrap_lon(lon: int) -> int {
    (lon + 540) % 360 - 180
}

/// Absolute value.
pub open spec fn abs_of(x: int) -> int {
    if x < 0 {
        -x
    } else {
        x
    }
}

fn floor_deg_exec(micro: i64) -> (r: i64)
    ensures
        r == floor_deg(micro as int),
{
    micro.checked_div_euclid(1_000_000).unwrap()
}

fn wrap_lon_exec(lon: i64) -> (r: i64)
    requires
        -200_000 <= lon <= 200_000,
    ensures
        r == wrap_lon(lon as int),
        -180 <= r < 180,
{
    (lon + 540).checked_rem_euclid(360).unwrap() - 180
}

/// The grid cell that contains the coordinate.
pub open spec fn containing_cell(center: GeoCoord) -> (int, int) {
    (floor_deg(center.latitude_micro as int), wrap_lon(floor_deg(center.longitude_micro as int)))
}

/// Lowest latitude row of the bounding box.
pub open spec fn box_lat_lo(center: GeoCoord, dlat_micro: int) -> int {
    let raw = floor_deg(center.latitude_micro - dlat_micro);
    if raw < -90 {
        -90
    } else {
        raw
    }
}

/// Highest latitude row of the bounding box.
pub open spec fn box_lat_hi(center: GeoCoord, dlat_micro: int) -> int {
    let raw = floor_deg(center.latitude_micro + dlat_micro);
    if raw > 89 {
        89
    } else {
        raw
    }
}

/// Lowest (unwrapped) longitude column of the bounding box.
pub open spec fn box_lon_lo(center: GeoCoord, dlon_micro: int) -> int {
    floor_deg(center.longitude_micro - dlon_micro)
}

/// Highest (unwrapped) longitude column of the bounding box.
pub open spec fn box_lon_hi(center: GeoCoord, dlon_micro: int) -> int {
    floor_deg(center.longitude_micro + dlon_micro)
}

/// Whether the cell `(la, lo)` lies in the bounding box, before wrapping.
pub open spec fn in_box(la: int, lo: int, center: GeoCoord, dlat_micro: int, dlon_micro: int) -> bool {
    box_lat_lo(center, dlat_micro) <= la <= box_lat_hi(center, dlat_micro) && box_lon_lo(
        center,
        dlon_micro,
    ) <= lo <= box_lon_hi(center, dlon_micro)
}

/// Number of cells of the bounding box.
pub open spec fn box_cell_count(center: GeoCoord, dlat_micro: int, dlon_micro: int) -> int {
    let nlat = box_lat_hi(center, dlat_micro) - box_lat_lo(center, dlat_micro) + 1;
    let nlon = box_lon_hi(center, dlon_micro) - box_lon_lo(center, dlon_micro) + 1;
    if nlat <= 0 {
        0
    } else {
        nlat * nlon
    }
}

/// The cell pair of signed integer degrees.
pub open spec fn cell_of(la: int, lo: int) -> (i64, i64) {
    ((la as i64), (lo as i64))
}

/// The tile key of an (unwrapped) cell: latitude as is, longitude wrapped.
pub open spec fn cell_location(la: int, lo: int) -> GeoLocation {
    spec_from_coord(la, wrap_lon(lo))
}

/// Request order: nearer cells first, measured per axis from the center
/// cell, latitude distance before longitude distance, ties resolved by the
/// row-major enumeration order of the box.
pub open spec fn prox_le(clat: int, clon: int, a: (i64, i64), b: (i64, i64)) -> bool {
    let dla = abs_of(a.0 - clat);
    let dlb = abs_of(b.0 - clat);
    let doa = abs_of(a.1 - clon);
    let dob = abs_of(b.1 - clon);
    dla < dlb || (dla == dlb && (doa < dob || (doa == dob && (a.0 < b.0 || (a.0 == b.0 && a.1
        <= b.1)))))
}

/// Whether the sequence is ordered closest-first around the center cell.
pub open spec fn prox_sorted(s: Seq<(i64, i64)>, clat: int, clon: int) -> bool {
    forall|i: int, j: int| 0 <= i < j < s.len() ==> prox_le(clat, clon, s[i], s[j])
}

/// Every cell of the box `[lat_lo, lat_hi] x [lon_lo, lon_hi]`, row by row.
fn enumerate_cells(lat_lo: i64, lat_hi: i64, lon_lo: i64, lon_hi: i64) -> (r: Vec<(i64, i64)>)
    requires
        -1000 <= lat_lo,
        lat_hi <= 1000,
        -1000 <= lon_lo <= lon_hi <= 1000,
    ensures
        r@.len() == if lat_hi + 1 - lat_lo <= 0 {
            0
        } else {
            (lat_hi - lat_lo + 1) * (lon_hi - lon_lo + 1)
        },
        forall|k: int|
            0 <= k < r@.len() ==> lat_lo <= (#[trigger] r@[k]).0 <= lat_hi && lon_lo <= r@[k].1
                <= lon_hi,
        forall|la: i64, lo: i64|
            lat_lo <= la <= lat_hi && lon_lo <= lo <= lon_hi ==> r@.contains((la, lo)),
{
    let mut r: Vec<(i64, i64)> = Vec::new();
    if lat_hi < lat_lo {
        return r;
    }
    let nlon: i64 = lon_hi - lon_lo + 1;
    let mut la: i64 = lat_lo;
    while la <= lat_hi
        invariant
            lat_lo <= la <= lat_hi + 1,
            lat_hi <= 1000,
            -1000 <= lat_lo,
            -1000 <= lon_lo <= lon_hi <= 1000,
            nlon == lon_hi - lon_lo + 1,
            r@.len() == (la - lat_lo) * nlon,
            forall|k: int|
                0 <= k < r@.len() ==> lat_lo <= (#[trigger] r@[k]).0 < la && lon_lo <= r@[k].1
                    <= lon_hi,
            forall|la2: i64, lo2: i64|
                lat_lo <= la2 < la && lon_lo <= lo2 <= lon_hi ==> r@.contains((la2, lo2)),
        decreases lat_hi - la + 1,
    {
        let mut lo: i64 = lon_lo;
        while lo <= lon_hi
            invariant
                lat_lo <= la <= lat_hi,
                lat_hi <= 1000,
                -1000 <= lat_lo,
                -1000 <= lon_lo <= lon_hi <= 1000,
                nlon == lon_hi - lon_lo + 1,
                lon_lo <= lo <= lon_hi + 1,
                r@.len() == (la - lat_lo) * nlon + (lo - lon_lo),
                forall|k: int|
                    0 <= k < r@.len() ==> lat_lo <= (#[trigger] r@[k]).0 <= la && lon_lo <= r@[k].1
                        <= lon_hi,
                forall|k: int| 0 <= k < r@.len() ==> ((#[trigger] r@[k]).0 == la ==> r@[k].1 < lo),
                forall|la2: i64, lo2: i64|
                    (lat_lo <= la2 < la && lon_lo <= lo2 <= lon_hi) || (la2 == la && lon_lo <= lo2
                        < lo) ==> r@.contains((la2, lo2)),
            decreases lon_hi - lo + 1,
        {
            let ghost prev = r@;
            r.push((la, lo));
            proof {
                assert(r@[prev.len() as int] == (la, lo));
                assert forall|la2: i64, lo2: i64|
                    (lat_lo <= la2 < la && lon_lo <= lo2 <= lon_hi) || (la2 == la && lon_lo <= lo2
                        <= lo) implies r@.contains((la2, lo2)) by {
                    if la2 == la && lo2 == lo {
                        assert(r@[prev.len() as int] == (la2, lo2));
                    } else {
                        assert(prev.contains((la2, lo2)));
                        let k = choose|k: int| 0 <= k < prev.len() && prev[k] == (la2, lo2);
                        assert(r@[k] == (la2, lo2));
                    }
                }
            }
            lo = lo + 1;
        }
        proof {
            assert((la + 1 - lat_lo) * nlon == (la - lat_lo) * nlon + nlon) by (nonlinear_arith);
        }
        la = la + 1;
    }
    proof {
        assert((la - lat_lo) * nlon == (lat_hi - lat_lo + 1) * (lon_hi - lon_lo + 1));
    }
    r
}

/// The request order can compare any two cells.
proof fn lemma_prox_total(clat: int, clon: int, a: (i64, i64), b: (i64, i64))
    ensures
        prox_le(clat, clon, a, b) || prox_le(clat, clon, b, a),
{
}

/// The request order is transitive.
proof fn lemma_prox_trans(clat: int, clon: int, a: (i64, i64), b: (i64, i64), c: (i64, i64))
    requires
        prox_le(clat, clon, a, b),
        prox_le(clat, clon, b, c),
    ensures
        prox_le(clat, clon, a, c),
{
}

fn abs_exec(x: i64) -> (r: i64)
    requires
        -1_000_000 <= x <= 1_000_000,
    ensures
        r == abs_of(x as int),
{
    if x < 0 {
        -x
    } else {
        x
    }
}

fn prox_le_exec(clat: i64, clon: i64, a: (i64, i64), b: (i64, i64)) -> (r: bool)
    requires
        -200_000 <= clat <= 200_000,
        -200_000 <= clon <= 200_000,
        -200_000 <= a.0 <= 200_000,
        -200_000 <= a.1 <= 200_000,
        -200_000 <= b.0 <= 200_000,
        -200_000 <= b.1 <= 200_000,
    ensures
        r == prox_le(clat as int, clon as int, a, b),
{
    let dla = abs_exec(a.0 - clat);
    let dlb = abs_exec(b.0 - clat);
    let doa = abs_exec(a.1 - clon);
    let dob = abs_exec(b.1 - clon);
    dla < dlb || (dla == dlb && (doa < dob || (doa == dob && (a.0 < b.0 || (a.0 == b.0 && a.1
        <= b.1)))))
}

/// Whether every coordinate of the cell is within the working range.
pub open spec fn cell_bounded(c: (i64, i64)) -> bool {
    -200_000 <= c.0 <= 200_000 && -200_000 <= c.1 <= 200_000
}

/// Reorders the cells closest-first around the center cell `(clat, clon)`,
/// keeping exactly the given cells.
fn sort_by_proximity(cells: &Vec<(i64, i64)>, clat: i64, clon: i64) -> (r: Vec<(i64, i64)>)
    requires
        -200_000 <= clat <= 200_000,
        -200_000 <= clon <= 200_000,
        forall|k: int| 0 <= k < cells@.len() ==> cell_bounded(#[trigger] cells@[k]),
    ensures
        r@.to_multiset() == cells@.to_multiset(),
        prox_sorted(r@, clat as int, clon as int),
        forall|k: int| 0 <= k < r@.len() ==> cell_bounded(#[trigger] r@[k]),
{
    let ghost gclat = clat as int;
    let ghost gclon = clon as int;
    let mut out: Vec<(i64, i64)> = Vec::new();
    let mut idx: usize = 0;
    proof {
        broadcast use vstd::seq_lib::group_to_multiset_ensures;

        assert(cells@.subrange(0, 0) =~= Seq::<(i64, i64)>::empty());
        assert(Seq::<(i64, i64)>::empty().to_multiset() =~= Multiset::<(i64, i64)>::empty());
        assert(out@ =~= Seq::<(i64, i64)>::empty());
    }
    while idx < cells.len()
        invariant
            0 <= idx <= cells@.len(),
            -200_000 <= clat <= 200_000,
            -200_000 <= clon <= 200_000,
            gclat == clat as int,
            gclon == clon as int,
            forall|k: int| 0 <= k < cells@.len() ==> cell_bounded(#[trigger] cells@[k]),
            forall|k: int| 0 <= k < out@.len() ==> cell_bounded(#[trigger] out@[k]),
            out@.to_multiset() == cells@.subrange(0, idx as int).to_multiset(),
            prox_sorted(out@, gclat, gclon),
        decreases cells@.len() - idx,
    {
        let x = cells[idx];
        let mut j: usize = 0;
        while j < out.len() && prox_le_exec(clat, clon, out[j as usize], x)
            invariant
                0 <= j <= out@.len(),
                -200_000 <= clat <= 200_000,
                -200_000 <= clon <= 200_000,
                gclat == clat as int,
                gclon == clon as int,
                cell_bounded(x),
                forall|k: int| 0 <= k < out@.len() ==> cell_bounded(#[trigger] out@[k]),
                forall|k: int| 0 <= k < j ==> prox_le(gclat, gclon, #[trigger] out@[k], x),
            decreases out@.len() - j,
        {
            j = j + 1;
        }
        let ghost prev = out@;
        out.insert(j, x);
        proof {
            broadcast use vstd::seq_lib::group_to_multiset_ensures;

            prev.insert_ensures(j as int, x);
            crate::seq_facts::lemma_insert_to_multiset(prev, j as int, x);
            assert(cells@.subrange(0, idx + 1) =~= cells@.subrange(0, idx as int).push(x));
            if j < prev.len() {
                lemma_prox_total(gclat, gclon, prev[j as int], x);
            }
            assert forall|p: int, q: int| 0 <= p < q < out@.len() implies prox_le(
                gclat,
                gclon,
                out@[p],
                out@[q],
            ) by {
                if q <= j {
                    assert(out@[p] == prev[p] && (q == j ==> out@[q] == x) && (q < j
                        ==> out@[q] == prev[q]));
                } else if p < j {
                    assert(out@[q] == prev[q - 1]);
                    if q - 1 > j - 1 && p < q - 1 {
                        assert(prox_le(gclat, gclon, prev[p], prev[q - 1]));
                    }
                } else if p == j {
                    assert(out@[p] == x && out@[q] == prev[q - 1]);
                    assert(prox_le(gclat, gclon, x, prev[j as int]));
                    if q - 1 > j {
                        assert(prox_le(gclat, gclon, prev[j as int], prev[q - 1]));
                        lemma_prox_trans(gclat, gclon, x, prev[j as int], prev[q - 1]);
                    }
                } else {
                    assert(out@[p] == prev[p - 1] && out@[q] == prev[q - 1]);
                }
            }
            assert forall|k: int| 0 <= k < out@.len() implies cell_bounded(
                #[trigger] out@[k],
            ) by {
                if k < j {
                    assert(out@[k] == prev[k]);
                } else if k == j {
                } else {
                    assert(out@[k] == prev[k - 1]);
                }
            }
        }
        idx = idx + 1;
    }
    proof {
        assert(cells@.subrange(0, cells@.len() as int) =~= cells@);
    }
    out
}

/// The verified content of the range calculation: `cells` is the bounding
/// box of the request enumerated exactly once per cell and ordered
/// closest-first, and `r` renders those cells as tile keys, longitude
/// wrapped into [-180, 180).
pub open spec fn range_pipeline(
    cells: Seq<(i64, i64)>,
    center: GeoCoord,
    dlat_micro: int,
    dlon_micro: int,
    r: Seq<GeoLocation>,
) -> bool {
    &&& forall|k: int|
        0 <= k < cells.len() ==> in_box(
            (#[trigger] cells[k]).0 as int,
            cells[k].1 as int,
            center,
            dlat_micro,
            dlon_micro,
        )
    &&& forall|la: int, lo: int|
        in_box(la, lo, center, dlat_micro, dlon_micro) ==> cells.contains(
            #[trigger] cell_of(la, lo),
        )
    &&& cells.len() == box_cell_count(center, dlat_micro, dlon_micro)
    &&& prox_sorted(cells, containing_cell(center).0, containing_cell(center).1)
    &&& r == Seq::new(cells.len(), |i: int| cell_location(cells[i].0 as int, cells[i].1 as int))
}

/// The tiles that must be resident for a viewer at `center` when the
/// request radius spans `dlat_micro` microdegrees of latitude and
/// `dlon_micro` microdegrees of longitude, ordered closest-first.
pub fn locations_in_range(center: GeoCoord, dlat_micro: i64, dlon_micro: i64) -> (r: Vec<
    GeoLocation,
>)
    requires
        center.wf(),
        0 <= dlat_micro <= 180_000_000,
        0 <= dlon_micro <= 180_000_000,
    ensures
        r@.len() == box_cell_count(center, dlat_micro as int, dlon_micro as int),
        forall|la: int, lo: int|
            in_box(la, lo, center, dlat_micro as int, dlon_micro as int) ==> r@.contains(
                #[trigger] cell_location(la, lo),
            ),
        center.latitude_micro < 90_000_000 ==> r@.contains(
            cell_location(
                floor_deg(center.latitude_micro as int),
                floor_deg(center.longitude_micro as int),
            ),
        ),
        exists|cells: Seq<(i64, i64)>|
            range_pipeline(cells, center, dlat_micro as int, dlon_micro as int, r@),
{
    let ghost gdlat = dlat_micro as int;
    let ghost gdlon = dlon_micro as int;
    let lat_lo_raw = floor_deg_exec(center.latitude_micro - dlat_micro);
    let lat_lo: i64 = if lat_lo_raw < -90 {
        -90
    } else {
        lat_lo_raw
    };
    let lat_hi_raw = floor_deg_exec(center.latitude_micro + dlat_micro);
    let lat_hi: i64 = if lat_hi_raw > 89 {
        89
    } else {
        lat_hi_raw
    };
    let lon_lo = floor_deg_exec(center.longitude_micro - dlon_micro);
    let lon_hi = floor_deg_exec(center.longitude_micro + dlon_micro);
    proof {
        lemma_div_is_ordered(-360_000_000, center.longitude_micro - dlon_micro, 1_000_000);
        lemma_div_is_ordered(center.longitude_micro - dlon_micro, center.longitude_micro
            + dlon_micro, 1_000_000);
        lemma_div_is_ordered(center.longitude_micro + dlon_micro, 360_000_000, 1_000_000);
        lemma_div_is_ordered(-270_000_000, center.latitude_micro - dlat_micro, 1_000_000);
        lemma_div_is_ordered(center.latitude_micro + dlat_micro, 270_000_000, 1_000_000);
        assert(lat_lo == box_lat_lo(center, gdlat));
        assert(lat_hi == box_lat_hi(center, gdlat));
        assert(lon_lo == box_lon_lo(center, gdlon));
        assert(lon_hi == box_lon_hi(center, gdlon));
    }
    let cells = enumerate_cells(lat_lo, lat_hi, lon_lo, lon_hi);
    let clat = floor_deg_exec(center.latitude_micro);
    let clon_floor = floor_deg_exec(center.longitude_micro);
    proof {
        lemma_div_is_ordered(-90_000_000, center.latitude_micro as int, 1_000_000);
        lemma_div_is_ordered(center.latitude_micro as int, 90_000_000, 1_000_000);
        lemma_div_is_ordered(-180_000_000, center.longitude_micro as int, 1_000_000);
        lemma_div_is_ordered(center.longitude_micro as int, 180_000_000, 1_000_000);
    }
    let clon = wrap_lon_exec(clon_floor);
    let sorted = sort_by_proximity(&cells, clat, clon);
    proof {
        broadcast use vstd::seq_lib::group_to_multiset_ensures;

        assert(containing_cell(center) == (clat as int, clon as int));
        assert forall|k: int| 0 <= k < sorted@.len() implies in_box(
            (#[trigger] sorted@[k]).0 as int,
            sorted@[k].1 as int,
            center,
            gdlat,
            gdlon,
        ) by {
            assert(sorted@.to_multiset().count(sorted@[k]) > 0);
            assert(cells@.contains(sorted@[k]));
            let i = choose|i: int| 0 <= i < cells@.len() && cells@[i] == sorted@[k];
        }
        assert forall|la: int, lo: int| in_box(la, lo, center, gdlat, gdlon) implies sorted@
            .contains(#[trigger] cell_of(la, lo)) by {
            let la64: i64 = la as i64;
            let lo64: i64 = lo as i64;
            assert(lat_lo <= la64 <= lat_hi && lon_lo <= lo64 <= lon_hi);
            assert(cells@.contains((la64, lo64)));
            assert(cells@.to_multiset().count((la64, lo64)) > 0);
        }
    }
    let mut r: Vec<GeoLocation> = Vec::new();
    let mut i: usize = 0;
    while i < sorted.len()
        invariant
            0 <= i <= sorted@.len(),
            forall|k: int| 0 <= k < sorted@.len() ==> cell_bounded(#[trigger] sorted@[k]),
            r@ =~= Seq::new(
                i as nat,
                |k: int| cell_location(sorted@[k].0 as int, sorted@[k].1 as int),
            ),
        decreases sorted@.len() - i,
    {
        let c = sorted[i];
        let w = wrap_lon_exec(c.1);
        let loc = GeoLocation::from_coord(c.0 as i32, w as i32);
        r.push(loc);
        proof {
            assert(r@ =~= Seq::new(
                (i + 1) as nat,
                |k: int| cell_location(sorted@[k].0 as int, sorted@[k].1 as int),
            ));
        }
        i = i + 1;
    }
    proof {
        let locs = Seq::new(
            sorted@.len(),
            |k: int| cell_location(sorted@[k].0 as int, sorted@[k].1 as int),
        );
        assert(range_pipeline(sorted@, center, gdlat, gdlon, r@)) by {
            broadcast use vstd::seq_lib::group_to_multiset_ensures;

            assert(sorted@.len() == sorted@.to_multiset().len());
            assert(cells@.len() == cells@.to_multiset().len());
            assert(box_cell_count(center, gdlat, gdlon) == if lat_hi + 1 - lat_lo <= 0 {
                0int
            } else {
                (lat_hi - lat_lo + 1) * (lon_hi - lon_lo + 1)
            });
        }
        assert forall|la: int, lo: int| in_box(la, lo, center, gdlat, gdlon) implies r@.contains(
            #[trigger] cell_location(la, lo),
        ) by {
            assert(sorted@.contains(cell_of(la, lo)));
            let k = choose|k: int|
                0 <= k < sorted@.len() && sorted@[k] == ((la as i64), (lo as i64));
            assert(r@[k] == cell_location(la, lo));
        }
        if center.latitude_micro < 90_000_000 {
            let cla = floor_deg(center.latitude_micro as int);
            let clo = floor_deg(center.longitude_micro as int);
            lemma_div_is_ordered(center.latitude_micro - dlat_micro, center.latitude_micro as int,
                1_000_000);
            lemma_div_is_ordered(center.latitude_micro as int, center.latitude_micro + dlat_micro,
                1_000_000);
            lemma_div_is_ordered(center.longitude_micro - dlon_micro, center.longitude_micro as int,
                1_000_000);
            lemma_div_is_ordered(center.longitude_micro as int, center.longitude_micro + dlon_micro,
                1_000_000);
            lemma_div_is_ordered(center.latitude_micro as int, 89_999_999, 1_000_000);
            assert(in_box(cla, clo, center, gdlat, gdlon));
        }
    }
    r
}

} // verus!
