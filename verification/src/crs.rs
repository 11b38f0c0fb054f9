//! Coordinate reference systems as plain data: kind, authority code, and
//! the strings and UTM-zone rules built over them.

use vstd::prelude::*;

use crate::errors::TopoError;

verus! {

/// An EPSG authority code.
pub type EpsgCode = u32;

/// Whether a CRS measures in angular degrees or in linear units.
#[derive(Debug, Clone, Copy, PartialEq, Eq, Structural)]
pub enum CrsKind {
    /// Angular longitude/latitude coordinates.
    Geographic,
    /// Linear (metre-based) projected coordinates.
    Projected,
}

/// The numeric authority code of a CRS, when one is extractable.
#[derive(Debug, Clone, Copy, PartialEq, Eq, Structural)]
pub enum CrsCode {
    Epsg(EpsgCode),
    Unknown,
}

/// A coordinate reference system, reduced to what the library's decisions
/// read: its kind and its authority code.
#[derive(Debug, Clone, Copy, PartialEq, Eq, Structural)]
pub struct Crs {
    pub kind: CrsKind,
    pub code: CrsCode,
}

impl Crs {
    /// Whether the CRS is geographic (angular).
    pub fn is_geographic(&self) -> (r: bool)
        ensures
            r == (self.kind is Geographic),
    {
        match self.kind {
            CrsKind::Geographic => true,
            CrsKind::Projected => false,
        }
    }

    /// Whether the CRS is projected (linear).
    pub fn is_projected(&self) -> (r: bool)
        ensures
            r == (self.kind is Projected),
    {
        match self.kind {
            CrsKind::Geographic => false,
            CrsKind::Projected => true,
        }
    }

    /// The numeric authority code, when the CRS has one.
    pub fn authority_code(&self) -> (r: Option<EpsgCode>)
        ensures
            match r {
                Some(c) => self.code == CrsCode::Epsg(c),
                None => self.code is Unknown,
            },
    {
        match self.code {
            CrsCode::Epsg(c) => Some(c),
            CrsCode::Unknown => None,
        }
    }
}

/// The geographic WGS 84 coordinate reference system, EPSG 4326.
pub fn epsg_4326() -> (r: Crs)
    ensures
        r.kind is Geographic,
        r.code == CrsCode::Epsg(4326u32),
{
    Crs { kind: CrsKind::Geographic, code: CrsCode::Epsg(4326) }
}

/// The decimal digit character for a value `0 .. 9`.
pub open spec fn decimal_digit_char(d: int) -> char {
    if d == 0 {
        '0'
    } else if d == 1 {
        '1'
    } else if d == 2 {
        '2'
    } else if d == 3 {
        '3'
    } else if d == 4 {
        '4'
    } else if d == 5 {
        '5'
    } else if d == 6 {
        '6'
    } else if d == 7 {
        '7'
    } else if d == 8 {
        '8'
    } else {
        '9'
    }
}

/// The decimal digits of a non-negative value, most significant first.
pub open spec fn decimal_chars(n: int) -> Seq<char>
    decreases n,
{
    if n < 10 {
        seq![decimal_digit_char(n)]
    } else {
        decimal_chars(n / 10).push(decimal_digit_char(n % 10))
    }
}

/// Appends one decimal digit character.
fn append_digit(s: &mut String, d: u32)
    requires
        d < 10,
    ensures
        final(s)@ == old(s)@.push(decimal_digit_char(d as int)),
{
    let lit: &str = match d {
        0u32 => "0",
        1u32 => "1",
        2u32 => "2",
        3u32 => "3",
        4u32 => "4",
        5u32 => "5",
        6u32 => "6",
        7u32 => "7",
        8u32 => "8",
        _ => "9",
    };
    proof {
        reveal_strlit("0");
        reveal_strlit("1");
        reveal_strlit("2");
        reveal_strlit("3");
        reveal_strlit("4");
        reveal_strlit("5");
        reveal_strlit("6");
        reveal_strlit("7");
        reveal_strlit("8");
        reveal_strlit("9");
        assert(lit@ =~= seq![decimal_digit_char(d as int)]);
    }
    s.append(lit);
    proof {
        assert(old(s)@ + lit@ =~= old(s)@.push(decimal_digit_char(d as int)));
    }
}

/// Appends the decimal digits of `n`, most significant first.
fn append_decimal(s: &mut String, n: u32)
    ensures
        final(s)@ == old(s)@ + decimal_chars(n as int),
    decreases n,
{
    if n >= 10 {
        append_decimal(s, n / 10);
        append_digit(s, n % 10);
        proof {
            assert(final(s)@ =~= old(s)@ + decimal_chars(n as int));
        }
    } else {
        append_digit(s, n);
        proof {
            assert(old(s)@.push(decimal_digit_char(n as int)) =~= old(s)@ + decimal_chars(
                n as int,
            ));
        }
    }
}

/// The authority string for an EPSG code: `"EPSG:"` followed by the code's
/// decimal digits.
pub open spec fn epsg_authority_chars(code: int) -> Seq<char> {
    "EPSG:"@ + decimal_chars(code)
}

/// Formats an EPSG code as an authority string, `"EPSG:<code>"`.
pub fn epsg_code_to_authority_string(code: EpsgCode) -> (r: String)
    ensures
        r@ == epsg_authority_chars(code as int),
{
    let mut s = String::new();
    s.append("EPSG:");
    append_decimal(&mut s, code);
    proof {
        assert(s@ =~= epsg_authority_chars(code as int));
    }
    s
}

/// The zone letters at or below which a UTM zone lies in the southern
/// hemisphere: letters up to and including the equator-band letter `'M'`.
/// That the equator-band letter itself counts as southern is a deliberate
/// quirk of this library, kept stable so that its output never shifts.
pub open spec fn zone_letter_is_south(zone_letter: char) -> bool {
    zone_letter as int <= 'M' as int
}

/// The proj definition text for a UTM zone: hemisphere selected by the
/// zone letter, with the northern variant leaving an empty slot (and so a
/// doubled space) where the southern writes `"+south"`.
pub open spec fn utm_proj_chars(zone_number: int, zone_letter: char, datum: Seq<char>) -> Seq<
    char,
> {
    "+proj=utm +zone="@ + decimal_chars(zone_number) + " "@ + (if zone_letter_is_south(
        zone_letter,
    ) {
        "+south"@
    } else {
        Seq::<char>::empty()
    }) + " +datum="@ + datum
}

/// Composes the proj definition for a UTM zone.
///
/// Fails with `InvalidParameter` exactly when `zone_letter` lies beyond
/// `'X'`, the last valid zone letter; the datum defaults to `"WGS84"`.
pub fn utm_zone_to_proj_string(zone_number: u8, zone_letter: char, datum: Option<&str>) -> (r:
    Result<String, TopoError>)
    ensures
        match r {
            Ok(s) => zone_letter as int <= 'X' as int && s@ == utm_proj_chars(
                zone_number as int,
                zone_letter,
                match datum {
                    Some(d) => d@,
                    None => "WGS84"@,
                },
            ),
            Err(e) => e == TopoError::InvalidParameter && zone_letter as int > 'X' as int,
        },
{
    if zone_letter as u32 > 'X' as u32 {
        return Err(TopoError::InvalidParameter);
    }
    let south = zone_letter as u32 <= 'M' as u32;
    let mut s = String::new();
    s.append("+proj=utm +zone=");
    append_decimal(&mut s, zone_number as u32);
    s.append(" ");
    if south {
        s.append("+south");
    }
    s.append(" +datum=");
    match datum {
        Some(d) => s.append(d),
        None => s.append("WGS84"),
    }
    proof {
        assert(s@ =~= utm_proj_chars(
            zone_number as int,
            zone_letter,
            match datum {
                Some(d) => d@,
                None => "WGS84"@,
            },
        ));
    }
    Ok(s)
}

/// The UTM zone number of a longitude/latitude position in microdegrees:
/// six-degree global banding, with the traditional exceptions around
/// southern Norway (zone 32) and Svalbard (zones 31, 33, 35, 37).
pub open spec fn zone_number_spec(lat_udeg: int, lon_udeg: int) -> int {
    if 56_000_000 <= lat_udeg < 64_000_000 && 3_000_000 <= lon_udeg < 12_000_000 {
        32
    } else if 72_000_000 <= lat_udeg <= 84_000_000 && lon_udeg >= 0 && lon_udeg < 9_000_000 {
        31
    } else if 72_000_000 <= lat_udeg <= 84_000_000 && 9_000_000 <= lon_udeg < 21_000_000 {
        33
    } else if 72_000_000 <= lat_udeg <= 84_000_000 && 21_000_000 <= lon_udeg < 33_000_000 {
        35
    } else if 72_000_000 <= lat_udeg <= 84_000_000 && 33_000_000 <= lon_udeg < 42_000_000 {
        37
    } else {
        (lon_udeg + 180_000_000) / 6_000_000 + 1
    }
}

/// Computes the UTM zone number for a position in microdegrees.
pub fn lat_lon_to_zone_number(lat_udeg: i64, lon_udeg: i64) -> (r: u8)
    requires
        -180_000_000 <= lon_udeg <= 180_000_000,
    ensures
        r as int == zone_number_spec(lat_udeg as int, lon_udeg as int),
{
    if 56_000_000 <= lat_udeg && lat_udeg < 64_000_000 && 3_000_000 <= lon_udeg && lon_udeg
        < 12_000_000 {
        return 32;
    }
    if 72_000_000 <= lat_udeg && lat_udeg <= 84_000_000 && lon_udeg >= 0 {
        if lon_udeg < 9_000_000 {
            return 31;
        }
        if lon_udeg < 21_000_000 {
            return 33;
        }
        if lon_udeg < 33_000_000 {
            return 35;
        }
        if lon_udeg < 42_000_000 {
            return 37;
        }
    }
    let band: u64 = ((lon_udeg + 180_000_000) as u64) / 6_000_000;
    (band + 1) as u8
}

/// The zone letter of a latitude band, for latitudes within -80 to 84
/// degrees: bands of eight degrees from `'C'` at the southern edge up to
/// `'X'`, which also covers the final four degrees.
pub open spec fn zone_letter_spec(lat_udeg: int) -> char {
    let band = (lat_udeg + 80_000_000) / 8_000_000;
    if band == 0 {
        'C'
    } else if band == 1 {
        'D'
    } else if band == 2 {
        'E'
    } else if band == 3 {
        'F'
    } else if band == 4 {
        'G'
    } else if band == 5 {
        'H'
    } else if band == 6 {
        'J'
    } else if band == 7 {
        'K'
    } else if band == 8 {
        'L'
    } else if band == 9 {
        'M'
    } else if band == 10 {
        'N'
    } else if band == 11 {
        'P'
    } else if band == 12 {
        'Q'
    } else if band == 13 {
        'R'
    } else if band == 14 {
        'S'
    } else if band == 15 {
        'T'
    } else if band == 16 {
        'U'
    } else if band == 17 {
        'V'
    } else if band == 18 {
        'W'
    } else {
        'X'
    }
}

/// Computes the UTM zone letter of a latitude in microdegrees, or `None`
/// outside the covered band of -80 to 84 degrees.
pub fn lat_to_zone_letter(lat_udeg: i64) -> (r: Option<char>)
    ensures
        match r {
            Some(c) => -80_000_000 <= lat_udeg <= 84_000_000 && c == zone_letter_spec(
                lat_udeg as int,
            ),
            None => !(-80_000_000 <= lat_udeg <= 84_000_000),
        },
{
    if lat_udeg < -80_000_000 || lat_udeg > 84_000_000 {
        return None;
    }
    let band: u64 = ((lat_udeg + 80_000_000) as u64) / 8_000_000;
    let c: char = if band == 0 {
        'C'
    } else if band == 1 {
        'D'
    } else if band == 2 {
        'E'
    } else if band == 3 {
        'F'
    } else if band == 4 {
        'G'
    } else if band == 5 {
        'H'
    } else if band == 6 {
        'J'
    } else if band == 7 {
        'K'
    } else if band == 8 {
        'L'
    } else if band == 9 {
        'M'
    } else if band == 10 {
        'N'
    } else if band == 11 {
        'P'
    } else if band == 12 {
        'Q'
    } else if band == 13 {
        'R'
    } else if band == 14 {
        'S'
    } else if band == 15 {
        'T'
    } else if band == 16 {
        'U'
    } else if band == 17 {
        'V'
    } else if band == 18 {
        'W'
    } else {
        'X'
    };
    Some(c)
}

/// The UTM zone, as number and letter, of the first coordinate of the
/// first line of a WGS 84 line set in microdegrees (`x` longitude, `y`
/// latitude). Fails with `NoProjectedCrsFound` when there is no such
/// coordinate or the latitude lies outside the lettered bands, and with
/// `InvalidParameter` when the longitude lies outside -180 to 180 degrees.
pub fn get_utm_zone_for_wgs84_lines(wgs84_lines: &Vec<Vec<crate::coords::Coord>>) -> (r: Result<
    (u8, char),
    TopoError,
>)
    ensures
        match r {
            Ok((zn, zl)) => {
                &&& wgs84_lines@.len() > 0
                &&& wgs84_lines@[0]@.len() > 0
                &&& ({
                    let c = wgs84_lines@[0]@[0];
                    &&& -180_000_000 <= c.x <= 180_000_000
                    &&& -80_000_000 <= c.y <= 84_000_000
                    &&& zn as int == zone_number_spec(c.y as int, c.x as int)
                    &&& zl == zone_letter_spec(c.y as int)
                })
            },
            Err(e) => {
                if wgs84_lines@.len() == 0 || wgs84_lines@[0]@.len() == 0 {
                    e == TopoError::NoProjectedCrsFound
                } else {
                    let c = wgs84_lines@[0]@[0];
                    if !(-180_000_000 <= c.x <= 180_000_000) {
                        e == TopoError::InvalidParameter
                    } else {
                        e == TopoError::NoProjectedCrsFound && !(-80_000_000 <= c.y <= 84_000_000)
                    }
                }
            },
        },
{
    if wgs84_lines.len() == 0 {
        return Err(TopoError::NoProjectedCrsFound);
    }
    let first = &wgs84_lines[0];
    if first.len() == 0 {
        return Err(TopoError::NoProjectedCrsFound);
    }
    let c = first[0];
    if c.x < -180_000_000 || c.x > 180_000_000 {
        return Err(TopoError::InvalidParameter);
    }
    match lat_to_zone_letter(c.y) {
        Some(zl) => Ok((lat_lon_to_zone_number(c.y, c.x), zl)),
        None => Err(TopoError::NoProjectedCrsFound),
    }
}

} // verus!
