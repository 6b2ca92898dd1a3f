//! Geographic tile keys: a 1 degree by 1 degree cell is addressed by an
//! unsigned degree count together with a compass direction on each axis.

use vstd::prelude::*;
use vstd::string::StrSliceExecFns;
use vstd::string::StringExecFns;

use crate::decimal::all_digits;
use crate::decimal::dec_digits;
use crate::decimal::digits_value;
use crate::decimal::parse_digits_str;

verus! {

#[derive(Debug, Clone, Copy, PartialEq, Eq, PartialOrd, Ord, Structural, Hash)]
pub enum LatitudeDirection {
    S,
    N,
}

#[derive(Debug, Clone, Copy, PartialEq, Eq, PartialOrd, Ord, Structural, Hash)]
pub enum LongitudeDirection {
    W,
    E,
}

#[derive(Debug, Clone, Copy, PartialEq, Eq, PartialOrd, Ord, Structural, Hash)]
pub struct Latitude {
    pub degree: i32,
    pub direction: LatitudeDirection,
}

#[derive(Debug, Clone, Copy, PartialEq, Eq, PartialOrd, Ord, Structural, Hash)]
pub struct Longitude {
    pub degree: i32,
    pub direction: LongitudeDirection,
}

/// Key of one 1x1 degree tile. Invariant: both degree counts are nonnegative.
#[derive(Debug, Clone, Copy, PartialEq, Eq, PartialOrd, Ord, Structural, Hash)]
pub struct GeoLocation {
    pub latitude: Latitude,
    pub longitude: Longitude,
}

impl Latitude {
    /// Signed degrees: north is positive, south is negative.
    pub open spec fn signed(self) -> int {
        match self.direction {
            LatitudeDirection::N => self.degree as int,
            LatitudeDirection::S => -(self.degree as int),
        }
    }
}

impl Longitude {
    /// Signed degrees: east is positive, west is negative.
    pub open spec fn signed(self) -> int {
        match self.direction {
            LongitudeDirection::E => self.degree as int,
            LongitudeDirection::W => -(self.degree as int),
        }
    }
}

/// The tile key built from signed integer degrees, as `from_coord` builds
/// it: a nonpositive degree maps to the south/west direction.
pub open spec fn spec_from_coord(latitude: int, longitude: int) -> GeoLocation {
    GeoLocation {
        latitude: Latitude {
            degree: (if latitude >= 0 {
                latitude
            } else {
                -latitude
            }) as i32,
            direction: if latitude > 0 {
                LatitudeDirection::N
            } else {
                LatitudeDirection::S
            },
        },
        longitude: Longitude {
            degree: (if longitude >= 0 {
                longitude
            } else {
                -longitude
            }) as i32,
            direction: if longitude > 0 {
                LongitudeDirection::E
            } else {
                LongitudeDirection::W
            },
        },
    }
}

impl GeoLocation {
    pub open spec fn wf(self) -> bool {
        self.latitude.degree >= 0 && self.longitude.degree >= 0
    }

    pub open spec fn lat(self) -> int {
        self.latitude.signed()
    }

    pub open spec fn lon(self) -> int {
        self.longitude.signed()
    }

    /// Key of the cell with the given signed integer degrees. A nonpositive
    /// degree maps to the south/west direction, as the original grid scheme
    /// has no distinct negative zero.
    pub fn from_coord(latitude: i32, longitude: i32) -> (r: GeoLocation)
        requires
            latitude > i32::MIN,
            longitude > i32::MIN,
        ensures
            r.wf(),
            r.lat() == latitude as int,
            r.lon() == longitude as int,
            r.latitude.degree == if latitude >= 0 { latitude as int } else { -(latitude as int) },
            r.longitude.degree == if longitude >= 0 { longitude as int } else {
                -(longitude as int)
            },
            (r.latitude.direction is N) == (latitude > 0),
            (r.longitude.direction is E) == (longitude > 0),
            r == spec_from_coord(latitude as int, longitude as int),
    {
        GeoLocation {
            latitude: Latitude {
                degree: if latitude >= 0 {
                    latitude
                } else {
                    -latitude
                },
                direction: if latitude > 0 {
                    LatitudeDirection::N
                } else {
                    LatitudeDirection::S
                },
            },
            longitude: Longitude {
                degree: if longitude >= 0 {
                    longitude
                } else {
                    -longitude
                },
                direction: if longitude > 0 {
                    LongitudeDirection::E
                } else {
                    LongitudeDirection::W
                },
            },
        }
    }
}

/// The compass letter of a latitude direction.
pub open spec fn lat_dir_char(d: LatitudeDirection) -> char {
    match d {
        LatitudeDirection::N => 'N',
        LatitudeDirection::S => 'S',
    }
}

/// The compass letter of a longitude direction.
pub open spec fn lon_dir_char(d: LongitudeDirection) -> char {
    match d {
        LongitudeDirection::E => 'E',
        LongitudeDirection::W => 'W',
    }
}

/// The query string `latitude=<deg><N|S>&longitude=<deg><E|W>`.
pub open spec fn request_params_of(loc: GeoLocation) -> Seq<char> {
    "latitude="@ + dec_digits(loc.latitude.degree as nat) + seq![
        lat_dir_char(loc.latitude.direction),
    ] + "&longitude="@ + dec_digits(loc.longitude.degree as nat) + seq![
        lon_dir_char(loc.longitude.direction),
    ]
}

/// A signed decimal integer within the given nonnegative bounds; digit
/// runs longer than 18 characters are not accepted.
pub open spec fn parse_signed(s: Seq<char>, pos_max: int, neg_max: int) -> Option<int> {
    if s.len() >= 2 && s[0] == '-' {
        let body = s.subrange(1, s.len() as int);
        if 1 <= body.len() <= 18 && all_digits(body) && digits_value(body) <= neg_max {
            Some(-(digits_value(body) as int))
        } else {
            None
        }
    } else if 1 <= s.len() <= 18 && all_digits(s) && digits_value(s) <= pos_max {
        Some(digits_value(s) as int)
    } else {
        None
    }
}

/// The value of a signed decimal run of `s@[from..to]` bounded to the range
/// of 32-bit integers, or `None` when the run does not denote one.
fn parse_i32_str(s: &str, from: usize, to: usize) -> (r: Option<i32>)
    requires
        from <= to <= s@.len(),
    ensures
        match r {
            Some(v) => parse_signed(s@.subrange(from as int, to as int), i32::MAX as int, -(
            i32::MIN as int)) == Some(v as int),
            None => parse_signed(s@.subrange(from as int, to as int), i32::MAX as int, -(
            i32::MIN as int)) is None,
        },
{
    let ghost run = s@.subrange(from as int, to as int);
    if to - from >= 2 && s.get_char(from) == '-' {
        proof {
            assert(run.subrange(1, run.len() as int) =~= s@.subrange(from + 1, to as int));
        }
        match parse_digits_str(s, from + 1, to) {
            Some(v) if v <= 2_147_483_648 => Some((-(v as i64)) as i32),
            _ => None,
        }
    } else {
        match parse_digits_str(s, from, to) {
            Some(v) if v <= 2_147_483_647 => Some(v as i32),
            _ => None,
        }
    }
}

/// A latitude written as degrees followed by a compass letter, as in `49N`.
pub open spec fn parse_latitude_spec(s: Seq<char>) -> Option<Latitude> {
    if s.len() >= 2 && (s.last() == 'N' || s.last() == 'S') {
        match parse_signed(s.drop_last(), i32::MAX as int, -(i32::MIN as int)) {
            Some(v) => Some(
                Latitude {
                    degree: v as i32,
                    direction: if s.last() == 'N' {
                        LatitudeDirection::N
                    } else {
                        LatitudeDirection::S
                    },
                },
            ),
            None => None,
        }
    } else {
        None
    }
}

/// A longitude written as degrees followed by a compass letter, as in `20E`.
pub open spec fn parse_longitude_spec(s: Seq<char>) -> Option<Longitude> {
    if s.len() >= 2 && (s.last() == 'E' || s.last() == 'W') {
        match parse_signed(s.drop_last(), i32::MAX as int, -(i32::MIN as int)) {
            Some(v) => Some(
                Longitude {
                    degree: v as i32,
                    direction: if s.last() == 'E' {
                        LongitudeDirection::E
                    } else {
                        LongitudeDirection::W
                    },
                },
            ),
            None => None,
        }
    } else {
        None
    }
}

impl Latitude {
    /// Reads a latitude such as `49N` from its query-string form.
    pub fn parse(s: &str) -> (r: Option<Latitude>)
        ensures
            r == parse_latitude_spec(s@),
    {
        let n = s.unicode_len();
        if n < 2 {
            return None;
        }
        let last = s.get_char(n - 1);
        if last != 'N' && last != 'S' {
            return None;
        }
        proof {
            assert(s@.drop_last() =~= s@.subrange(0, n - 1));
        }
        match parse_i32_str(s, 0, n - 1) {
            Some(v) => Some(
                Latitude {
                    degree: v,
                    direction: if last == 'N' {
                        LatitudeDirection::N
                    } else {
                        LatitudeDirection::S
                    },
                },
            ),
            None => None,
        }
    }
}

impl Longitude {
    /// Reads a longitude such as `20E` from its query-string form.
    pub fn parse(s: &str) -> (r: Option<Longitude>)
        ensures
            r == parse_longitude_spec(s@),
    {
        let n = s.unicode_len();
        if n < 2 {
            return None;
        }
        let last = s.get_char(n - 1);
        if last != 'E' && last != 'W' {
            return None;
        }
        proof {
            assert(s@.drop_last() =~= s@.subrange(0, n - 1));
        }
        match parse_i32_str(s, 0, n - 1) {
            Some(v) => Some(
                Longitude {
                    degree: v,
                    direction: if last == 'E' {
                        LongitudeDirection::E
                    } else {
                        LongitudeDirection::W
                    },
                },
            ),
            None => None,
        }
    }
}

impl GeoLocation {
    /// Renders the query-string parameters naming this tile.
    pub fn to_request_params(&self) -> (r: String)
        requires
            self.wf(),
        ensures
            r@ == request_params_of(*self),
    {
        let mut s = String::from_str("latitude=");
        let lat_digits = crate::decimal::u32_dec_string(self.latitude.degree as u32);
        s.append(lat_digits.as_str());
        proof {
            reveal_strlit("N");
            reveal_strlit("S");
            reveal_strlit("E");
            reveal_strlit("W");
        }
        match self.latitude.direction {
            LatitudeDirection::N => s.append("N"),
            LatitudeDirection::S => s.append("S"),
        }
        s.append("&longitude=");
        let lon_digits = crate::decimal::u32_dec_string(self.longitude.degree as u32);
        s.append(lon_digits.as_str());
        match self.longitude.direction {
            LongitudeDirection::E => s.append("E"),
            LongitudeDirection::W => s.append("W"),
        }
        proof {
            assert(s@ =~= request_params_of(*self));
        }
        s
    }
}

} // verus!
