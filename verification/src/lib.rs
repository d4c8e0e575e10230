//! GeoSOT hierarchical global grid codec.
//!
//! The Earth's longitude/latitude extent is subdivided into quad-tree cells
//! addressed by fixed-width integer codes.  One coordinate axis is packed into
//! a 32-bit degree-minute-second-fraction code; two axis codes are interleaved
//! bit-by-bit into a 64-bit Morton code whose prefixes correspond to quad-tree
//! ancestors.
//!
//! Coordinates are exact scaled integers: one unit is 1/2048 of an arc second,
//! i.e. 1/7372800 of a degree, the finest resolution the axis code can hold.

use vstd::prelude::*;
use vstd::string::StringExecFns;

pub mod spatial;
pub mod utils;

verus! {

/// Scaled coordinate units per arc second (the 11-bit sub-second fraction).
pub const UNITS_PER_SECOND: u32 = 2048;

/// Scaled coordinate units per arc minute (60 * 2048).
pub const UNITS_PER_MINUTE: u32 = 122880;

/// Scaled coordinate units per degree (3600 * 2048).
pub const UNITS_PER_DEGREE: u32 = 7372800;

/// Exclusive bound on the magnitude of a scaled coordinate: 256 degrees,
/// the largest value whose integer degree part fits the 8-bit degree field.
pub const MAX_AXIS_UNITS: i64 = 1887436800;

/// Integer degree part of a scaled axis magnitude (8-bit field).
pub open spec fn axis_degrees(mag: u32) -> u32 {
    (mag / UNITS_PER_DEGREE) as u32
}

/// Arc-minute part of a scaled axis magnitude (6-bit field).
pub open spec fn axis_minutes(mag: u32) -> u32 {
    ((mag % UNITS_PER_DEGREE) / UNITS_PER_MINUTE) as u32
}

/// Arc-second part of a scaled axis magnitude (6-bit field).
pub open spec fn axis_seconds(mag: u32) -> u32 {
    ((mag % UNITS_PER_MINUTE) / UNITS_PER_SECOND) as u32
}

/// Sub-second fraction of a scaled axis magnitude, in 1/2048 s (11-bit field).
pub open spec fn axis_fraction(mag: u32) -> u32 {
    (mag % UNITS_PER_SECOND) as u32
}

/// Bit layout of an axis code, most significant first:
/// 1 sign bit, 8 bits degrees, 6 bits minutes, 6 bits seconds,
/// 11 bits sub-second fraction.
pub open spec fn pack_fields(g: u32, d: u32, m: u32, s: u32, s11: u32) -> u32 {
    (g << 31) | (d << 23) | (m << 17) | (s << 11) | s11
}

/// The full-precision axis code of a scaled coordinate: sign bit from the
/// coordinate's sign, then the degree/minute/second/fraction decomposition
/// of its magnitude.
pub open spec fn spec_pack_axis(dec: int) -> u32 {
    let mag = (if dec < 0 { -dec } else { dec }) as u32;
    let g: u32 = if dec < 0 { 1u32 } else { 0u32 };
    pack_fields(g, axis_degrees(mag), axis_minutes(mag), axis_seconds(mag), axis_fraction(mag))
}

/// Zeroes the low `32 - precision` bits of an axis code; precision 32 keeps
/// the code unchanged.  This truncation, not rounding, is how grid
/// resolution is controlled.
pub open spec fn spec_truncate_code(code: u32, precision: int) -> u32 {
    if precision < 32 {
        (code >> ((32 - precision) as u32)) << ((32 - precision) as u32)
    } else {
        code
    }
}

/// Axis code of a scaled coordinate at the given precision.
pub open spec fn spec_dec2code(dec: int, precision: int) -> u32 {
    spec_truncate_code(spec_pack_axis(dec), precision)
}

/// Scaled coordinate encoded by an axis code: the signed sum of its
/// degree, minute, second and fraction fields.
pub open spec fn spec_code2dec(x: u32) -> int {
    let d = ((x >> 23) & 0xFF) as int;
    let m = ((x >> 17) & 0x3F) as int;
    let s = ((x >> 11) & 0x3F) as int;
    let s11 = (x & 0x7FF) as int;
    let mag = d * (UNITS_PER_DEGREE as int) + m * (UNITS_PER_MINUTE as int) + s * (
    UNITS_PER_SECOND as int) + s11;
    if x >> 31 == 1 {
        -mag
    } else {
        mag
    }
}

/// Spreads the 32 bits of `a` over the even bit positions of a 64-bit value
/// (bit i moves to bit 2i), by constant-masked shift steps.
pub open spec fn spec_split_by_bits(a: u32) -> u64 {
    let x0 = a as u64;
    let x1 = (x0 | (x0 << 32)) & 0x0000_0000_FFFF_FFFFu64;
    let x2 = (x1 | (x1 << 16)) & 0x0000_FFFF_0000_FFFFu64;
    let x3 = (x2 | (x2 << 8)) & 0x00FF_00FF_00FF_00FFu64;
    let x4 = (x3 | (x3 << 4)) & 0x0F0F_0F0F_0F0F_0F0Fu64;
    let x5 = (x4 | (x4 << 2)) & 0x3333_3333_3333_3333u64;
    (x5 | (x5 << 1)) & 0x5555_5555_5555_5555u64
}

/// Gathers the even-position bits of `m` back into a packed 32-bit value
/// (bit 2i moves to bit i); odd-position bits are discarded.
pub open spec fn spec_merge_by_bits(m: u64) -> u32 {
    let x0 = m & 0x5555_5555_5555_5555u64;
    let x1 = (x0 ^ (x0 >> 1)) & 0x3333_3333_3333_3333u64;
    let x2 = (x1 ^ (x1 >> 2)) & 0x0F0F_0F0F_0F0F_0F0Fu64;
    let x3 = (x2 ^ (x2 >> 4)) & 0x00FF_00FF_00FF_00FFu64;
    let x4 = (x3 ^ (x3 >> 8)) & 0x0000_FFFF_0000_FFFFu64;
    let x5 = (x4 ^ (x4 >> 16)) & 0x0000_0000_FFFF_FFFFu64;
    x5 as u32
}

/// Morton interleave: longitude bits at even positions, latitude bits at odd
/// positions.
pub open spec fn spec_magic_bits(lng: u32, lat: u32) -> u64 {
    spec_split_by_bits(lng) | (spec_split_by_bits(lat) << 1)
}

/// The grid code of a scaled coordinate pair at the given precision.
pub open spec fn spec_get_code(lng: int, lat: int, precision: int) -> u64 {
    spec_magic_bits(spec_dec2code(lng, precision), spec_dec2code(lat, precision))
}

/// The (longitude, latitude) scaled coordinates encoded by a grid code.
pub open spec fn spec_decode_by_geomgrid(code: u64) -> (int, int) {
    (spec_code2dec(spec_merge_by_bits(code)), spec_code2dec(spec_merge_by_bits(code >> 1)))
}

/// Converts a scaled coordinate to its axis code at the requested precision.
///
/// The sign bit records a negative coordinate; the magnitude is split into
/// integer degrees, arc minutes, arc seconds and 1/2048-second fractions,
/// packed most significant first; precisions below 32 zero the low-order
/// bits.
pub fn dec2code(dec: i64, precision: usize) -> (code: u32)
    requires
        1 <= precision <= 32,
        -MAX_AXIS_UNITS < dec < MAX_AXIS_UNITS,
    ensures
        code == spec_dec2code(dec as int, precision as int),
{
    let g: u32 = if dec < 0 {
        1
    } else {
        0
    };
    let mag_wide: i64 = if dec < 0 {
        -dec
    } else {
        dec
    };
    let mag: u32 = mag_wide as u32;
    let d: u32 = mag / UNITS_PER_DEGREE;
    let m: u32 = (mag % UNITS_PER_DEGREE) / UNITS_PER_MINUTE;
    let s: u32 = (mag % UNITS_PER_MINUTE) / UNITS_PER_SECOND;
    let s11: u32 = mag % UNITS_PER_SECOND;
    let mut code: u32 = (g << 31) | (d << 23) | (m << 17) | (s << 11) | s11;
    if precision < 32 {
        let shift: u32 = 32 - precision as u32;
        code = code >> shift;
        code = code << shift;
    }
    code
}

/// Converts an axis code back to a scaled coordinate.
///
/// Inverse of [`dec2code`] up to the truncation applied at encode time;
/// exact at precision 32 (see [`lemma_codec_round_trip`]).
pub fn code2dec(x: u32) -> (dec: i64)
    ensures
        dec == spec_code2dec(x),
{
    let d: u32 = (x >> 23) & 0xFF;
    let m: u32 = (x >> 17) & 0x3F;
    let s: u32 = (x >> 11) & 0x3F;
    let s11: u32 = x & 0x7FF;
    proof {
        assert(d <= 0xFF && m <= 0x3F && s <= 0x3F && s11 <= 0x7FF) by (bit_vector)
            requires
                d == (x >> 23) & 0xFF,
                m == (x >> 17) & 0x3F,
                s == (x >> 11) & 0x3F,
                s11 == x & 0x7FF,
        ;
    }
    let mag: i64 = (d as i64) * 7372800 + (m as i64) * 122880 + (s as i64) * 2048 + (s11 as i64);
    if x >> 31 == 1 {
        -mag
    } else {
        mag
    }
}

/// Spreads the 32 bits of `a` over the even bit positions of a 64-bit value.
pub fn split_by_bits(a: u32) -> (r: u64)
    ensures
        r == spec_split_by_bits(a),
{
    let mut x: u64 = a as u64;
    x = (x | (x << 32)) & 0x0000_0000_FFFF_FFFF;
    x = (x | (x << 16)) & 0x0000_FFFF_0000_FFFF;
    x = (x | (x << 8)) & 0x00FF_00FF_00FF_00FF;
    x = (x | (x << 4)) & 0x0F0F_0F0F_0F0F_0F0F;
    x = (x | (x << 2)) & 0x3333_3333_3333_3333;
    x = (x | (x << 1)) & 0x5555_5555_5555_5555;
    x
}

/// Gathers the even-position bits of `m` into a packed 32-bit value.
pub fn merge_by_bits(m: u64) -> (r: u32)
    ensures
        r == spec_merge_by_bits(m),
{
    let mut x: u64 = m & 0x5555_5555_5555_5555;
    x = (x ^ (x >> 1)) & 0x3333_3333_3333_3333;
    x = (x ^ (x >> 2)) & 0x0F0F_0F0F_0F0F_0F0F;
    x = (x ^ (x >> 4)) & 0x00FF_00FF_00FF_00FF;
    x = (x ^ (x >> 8)) & 0x0000_FFFF_0000_FFFF;
    x = (x ^ (x >> 16)) & 0x0000_0000_FFFF_FFFF;
    x as u32
}

/// Interleaves a longitude and a latitude axis code into one Morton code.
fn magic_bits(lng: u32, lat: u32) -> (r: u64)
    ensures
        r == spec_magic_bits(lng, lat),
{
    split_by_bits(lng) | (split_by_bits(lat) << 1)
}

/// Encodes a scaled coordinate pair as a 64-bit grid code: each axis is
/// packed by [`dec2code`], then the two axis codes are interleaved with
/// longitude at even and latitude at odd bit positions.
pub fn get_code(lng: i64, lat: i64, precision: usize) -> (code: u64)
    requires
        1 <= precision <= 32,
        -MAX_AXIS_UNITS < lng < MAX_AXIS_UNITS,
        -MAX_AXIS_UNITS < lat < MAX_AXIS_UNITS,
    ensures
        code == spec_get_code(lng as int, lat as int, precision as int),
{
    let lng_code = dec2code(lng, precision);
    let lat_code = dec2code(lat, precision);
    magic_bits(lng_code, lat_code)
}

/// Separates a grid code into its longitude and latitude axis codes.
pub fn un_magic_bits(m: u64) -> (r: (u32, u32))
    ensures
        r.0 == spec_merge_by_bits(m),
        r.1 == spec_merge_by_bits(m >> 1),
{
    let lng = merge_by_bits(m);
    let lat = merge_by_bits(m >> 1);
    (lng, lat)
}

/// Decodes a grid code back to its (longitude, latitude) scaled coordinates.
pub fn decode_by_geomgrid(code: u64) -> (r: (i64, i64))
    ensures
        r.0 == spec_decode_by_geomgrid(code).0,
        r.1 == spec_decode_by_geomgrid(code).1,
{
    let (lng, lat) = un_magic_bits(code);
    (code2dec(lng), code2dec(lat))
}

/// The character of one base-4 path digit.
pub open spec fn digit_char(v: u64) -> char {
    if v == 0 {
        '0'
    } else if v == 1 {
        '1'
    } else if v == 2 {
        '2'
    } else {
        '3'
    }
}

/// The separator emitted after the digit of bit-pair index `i`: `-` after
/// the degree and minute boundaries (indexes 23 and 17), `.` after the
/// second boundary (index 11), and only when at least two further digits
/// follow before the path ends at index `low`.
pub open spec fn spec_separator(low: int, i: int) -> Seq<char> {
    if i >= low + 2 && (i == 23 || i == 17) {
        seq!['-']
    } else if i >= low + 2 && i == 11 {
        seq!['.']
    } else {
        Seq::<char>::empty()
    }
}

/// The base-4 digits of a grid code from bit-pair index `i` down to `low`,
/// each followed by its separator.
pub open spec fn spec_path_from(code: u64, low: int, i: int) -> Seq<char>
    decreases i - low + 1,
{
    if i < low {
        Seq::<char>::empty()
    } else {
        seq![digit_char((code >> ((2 * i) as u64)) & 3)] + spec_separator(low, i) + spec_path_from(
            code,
            low,
            i - 1,
        )
    }
}

/// The hierarchical path rendering of a grid code at a level: the marker
/// `G`, then one base-4 digit per quad-tree level from the coarsest down
/// to `level`, with `-` and `.` separators at the regime boundaries.
pub open spec fn spec_to_string(code: u64, level: int) -> Seq<char> {
    seq!['G'] + spec_path_from(code, 32 - level, 31)
}

/// Renders a grid code as its hierarchical path string, one base-4 digit
/// per level from the coarsest level down to `level`, with `-` separators
/// after the degree and minute digit groups and a `.` separator after the
/// second digit group.
pub fn to_string(code: u64, level: usize) -> (s: String)
    requires
        1 <= level <= 32,
    ensures
        s@ == spec_to_string(code, level as int),
{
    let mut s = String::new();
    s.append("G");
    let low: usize = 32 - level;
    proof {
        reveal_strlit("G");
        assert(s@ =~= seq!['G']);
        assert(s@ + spec_path_from(code, low as int, 31) =~= spec_to_string(
            code,
            level as int,
        ));
    }
    let mut k: usize = 0;
    while k < level
        invariant
            1 <= level <= 32,
            low == 32 - level,
            k <= level,
            s@ + spec_path_from(code, low as int, 31 - k) == spec_to_string(code, level as int),
        decreases level - k,
    {
        let i: usize = 31 - k;
        let v: u64 = (code >> ((2 * i) as u64)) & 3;
        let ghost s_before = s@;
        if v == 0 {
            s.append("0");
            proof {
                reveal_strlit("0");
                assert(s@ =~= s_before + seq![digit_char(v)]);
            }
        } else if v == 1 {
            s.append("1");
            proof {
                reveal_strlit("1");
                assert(s@ =~= s_before + seq![digit_char(v)]);
            }
        } else if v == 2 {
            s.append("2");
            proof {
                reveal_strlit("2");
                assert(s@ =~= s_before + seq![digit_char(v)]);
            }
        } else {
            s.append("3");
            proof {
                reveal_strlit("3");
                assert(s@ =~= s_before + seq![digit_char(v)]);
            }
        }
        let ghost s_digit = s@;
        if i >= low + 2 {
            if i == 23 || i == 17 {
                s.append("-");
                proof {
                    reveal_strlit("-");
                    assert(s@ =~= s_digit + spec_separator(low as int, i as int));
                }
            } else if i == 11 {
                s.append(".");
                proof {
                    reveal_strlit(".");
                    assert(s@ =~= s_digit + spec_separator(low as int, i as int));
                }
            } else {
                proof {
                    assert(s@ =~= s_digit + spec_separator(low as int, i as int));
                }
            }
        } else {
            proof {
                assert(s@ =~= s_digit + spec_separator(low as int, i as int));
            }
        }
        proof {
            assert(spec_path_from(code, low as int, i as int) == seq![digit_char(
                (code >> ((2 * i) as u64)) & 3,
            )] + spec_separator(low as int, i as int) + spec_path_from(
                code,
                low as int,
                i as int - 1,
            ));
            assert(s@ + spec_path_from(code, low as int, i as int - 1) =~= s_before
                + spec_path_from(code, low as int, i as int));
        }
        k = k + 1;
    }
    proof {
        assert(spec_path_from(code, low as int, 31 - level) =~= Seq::<char>::empty());
        assert(s@ =~= s@ + Seq::<char>::empty());
    }
    s
}

/// Bit placement of the spread: source bit i lands at position 2i, and every
/// odd position is zero.
pub proof fn lemma_split_by_bits_places_bits(a: u32, i: u32)
    requires
        i < 32,
    ensures
        (spec_split_by_bits(a) >> ((2 * i) as u64)) & 1 == (((a >> i) & 1) as u64),
        (spec_split_by_bits(a) >> ((2 * i + 1) as u64)) & 1 == 0,
{
    assert((spec_split_by_bits(a) >> ((2 * i) as u64)) & 1 == (((a >> i) & 1) as u64)
        && (spec_split_by_bits(a) >> ((2 * i + 1) as u64)) & 1 == 0) by (bit_vector)
        requires
            i < 32,
    ;
}

/// Bit placement of the gather: result bit i is source bit 2i.
pub proof fn lemma_merge_by_bits_places_bits(m: u64, i: u32)
    requires
        i < 32,
    ensures
        (spec_merge_by_bits(m) >> i) & 1 == (((m >> ((2 * i) as u64)) & 1) as u32),
{
    assert((spec_merge_by_bits(m) >> i) & 1 == (((m >> ((2 * i) as u64)) & 1) as u32))
        by (bit_vector)
        requires
            i < 32,
    ;
}

/// Interleaving then deinterleaving returns both axis codes unchanged, for
/// every pair of 32-bit values.
pub proof fn lemma_interleave_round_trip(a: u32, b: u32)
    ensures
        spec_merge_by_bits(spec_magic_bits(a, b)) == a,
        spec_merge_by_bits(spec_magic_bits(a, b) >> 1) == b,
{
    assert(spec_merge_by_bits(spec_magic_bits(a, b)) == a) by (bit_vector);
    assert(spec_merge_by_bits(spec_magic_bits(a, b) >> 1) == b) by (bit_vector);
}

/// At full precision the axis codec is exact: decoding the precision-32 code
/// of any in-range scaled coordinate returns that coordinate.
pub proof fn lemma_codec_round_trip(dec: int)
    requires
        -MAX_AXIS_UNITS < dec < MAX_AXIS_UNITS,
    ensures
        spec_code2dec(spec_dec2code(dec, 32)) == dec,
{
    let mag = (if dec < 0 {
        -dec
    } else {
        dec
    }) as u32;
    let g: u32 = if dec < 0 {
        1u32
    } else {
        0u32
    };
    let d = axis_degrees(mag);
    let m = axis_minutes(mag);
    let s = axis_seconds(mag);
    let s11 = axis_fraction(mag);
    assert(mag / 7372800u32 < 256) by (bit_vector)
        requires
            mag < 1887436800u32,
    ;
    assert((mag % 7372800u32) / 122880u32 < 60) by (bit_vector);
    assert((mag % 122880u32) / 2048u32 < 60) by (bit_vector);
    let c = pack_fields(g, d, m, s, s11);
    assert(c >> 31 == g && ((c >> 23) & 0xFF) == d && ((c >> 17) & 0x3F) == m && ((c >> 11) & 0x3F)
        == s && (c & 0x7FF) == s11) by (bit_vector)
        requires
            g <= 1,
            d < 256,
            m < 64,
            s < 64,
            s11 < 2048,
            c == pack_fields(g, d, m, s, s11),
    ;
    vstd::arithmetic::div_mod::lemma_fundamental_div_mod(mag as int, 7372800);
    vstd::arithmetic::div_mod::lemma_fundamental_div_mod((mag as int) % 7372800, 122880);
    vstd::arithmetic::div_mod::lemma_fundamental_div_mod((mag as int) % 122880, 2048);
    assert(7372800int == 122880int * 60);
    assert(122880int == 2048int * 60);
    vstd::arithmetic::div_mod::lemma_mod_mod(mag as int, 122880, 60);
    vstd::arithmetic::div_mod::lemma_mod_mod(mag as int, 2048, 60);
    assert((d as int) * 7372800 + (m as int) * 122880 + (s as int) * 2048 + (s11 as int)
        == mag as int);
}

/// Encoding at a coarse precision equals encoding at any finer precision and
/// then clearing the corresponding low-order bit pairs: refining never
/// changes higher-order digits.
pub proof fn lemma_truncation_monotone(lng: int, lat: int, p1: int, p2: int)
    requires
        1 <= p1 < p2 <= 32,
    ensures
        spec_get_code(lng, lat, p1) == (spec_get_code(lng, lat, p2) >> ((2 * (32 - p1)) as u64))
            << ((2 * (32 - p1)) as u64),
{
    let a = spec_pack_axis(lng);
    let b = spec_pack_axis(lat);
    let s1: u32 = (32 - p1) as u32;
    let s2: u32 = (32 - p2) as u32;
    if p2 == 32 {
        assert((a >> 0u32) << 0u32 == a && (b >> 0u32) << 0u32 == b) by (bit_vector);
    }
    assert(spec_truncate_code(a, p2) == (a >> s2) << s2);
    assert(spec_truncate_code(b, p2) == (b >> s2) << s2);
    let a1 = spec_truncate_code(a, p1);
    let b1 = spec_truncate_code(b, p1);
    let a2 = (a >> s2) << s2;
    let b2 = (b >> s2) << s2;
    assert((a >> s1) << s1 == (a2 >> s1) << s1 && (b >> s1) << s1 == (b2 >> s1) << s1)
        by (bit_vector)
        requires
            s2 < s1 < 32,
            a2 == (a >> s2) << s2,
            b2 == (b >> s2) << s2,
    ;
    assert(spec_magic_bits(a1, b1) == (spec_magic_bits(a2, b2) >> ((2 * s1) as u64)) << ((2
        * s1) as u64)) by (bit_vector)
        requires
            1 <= s1 < 32,
            a1 == (a2 >> s1) << s1,
            b1 == (b2 >> s1) << s1,
    ;
}

/// Decoding the full-precision grid code of any in-range scaled coordinate
/// pair returns exactly that pair.
pub proof fn lemma_encode_decode_round_trip(lng: int, lat: int)
    requires
        -MAX_AXIS_UNITS < lng < MAX_AXIS_UNITS,
        -MAX_AXIS_UNITS < lat < MAX_AXIS_UNITS,
    ensures
        spec_decode_by_geomgrid(spec_get_code(lng, lat, 32)) == (lng, lat),
{
    lemma_interleave_round_trip(spec_dec2code(lng, 32), spec_dec2code(lat, 32));
    lemma_codec_round_trip(lng);
    lemma_codec_round_trip(lat);
}

} // verus!
