//! Interval halving over longitude and latitude, and the string form of the
//! resulting bit sequence.
//!
//! A coordinate is held in fixed point: one degree is `2^52` units. The
//! first 53 halvings of either axis split it at whole numbers of units, so the
//! bisection below is exact at every precision a geohash is used at; past
//! that, split points are rounded down.
use vstd::prelude::*;
use vstd::arithmetic::power2::{pow2, lemma_pow2_unfold, lemma2_to64};
use vstd::string::is_ascii_spec_bytes;
use vstd::utf8::is_ascii_chars;
use crate::alphabet::{
    alphabet, lemma_alphabet_ascii, lemma_symbol_value, symbol_for, symbol_value, value_for,
    GeohashError,
};

verus! {

/// Units in one degree.
pub const UNITS_PER_DEGREE: i64 = 4503599627370496;

/// 180 degrees, the bound of longitude.
pub const LON_LIMIT: i64 = 810647932926689280;

/// 90 degrees, the bound of latitude.
pub const LAT_LIMIT: i64 = 405323966463344640;

/// Relies on String::push: the character is appended.
pub assume_specification[ String::push ](s: &mut String, ch: char)
    ensures
        final(s)@ == old(s)@.push(ch),
;

/// A point: `x` is the longitude and `y` the latitude, both in units of
/// `2^-52` degrees.
#[derive(Clone, Copy, Debug, PartialEq, Eq, Structural)]
pub struct Coordinate {
    pub x: i64,
    pub y: i64,
}

impl Coordinate {
    /// Longitude within [-180, 180] degrees and latitude within [-90, 90].
    pub open spec fn in_range(self) -> bool {
        -LON_LIMIT <= self.x <= LON_LIMIT && -LAT_LIMIT <= self.y <= LAT_LIMIT
    }
}

/// The point that splits `[lo, hi]` in two, rounded down.
pub open spec fn midpoint(lo: int, hi: int) -> int {
    lo + (hi - lo) / 2
}

/// The half of `[lo, hi]` that a bit selects: the upper one for `true`.
pub open spec fn halve(b: (int, int), upper: bool) -> (int, int) {
    if upper {
        (midpoint(b.0, b.1), b.1)
    } else {
        (b.0, midpoint(b.0, b.1))
    }
}

/// The interval left after halving `[lo, hi]` `n` times, each time keeping the
/// upper half exactly when `v` lies above the split point.
pub open spec fn narrow(v: int, lo: int, hi: int, n: nat) -> (int, int)
    decreases n,
{
    if n == 0 {
        (lo, hi)
    } else {
        let b = narrow(v, lo, hi, (n - 1) as nat);
        halve(b, v > midpoint(b.0, b.1))
    }
}

/// The bit that the `k`-th halving of `[lo, hi]` toward `v` yields.
pub open spec fn axis_bit(v: int, lo: int, hi: int, k: nat) -> bool {
    let b = narrow(v, lo, hi, k);
    v > midpoint(b.0, b.1)
}

/// The `k`-th bit of a coordinate's hash: longitude on even places, latitude
/// on odd ones.
pub open spec fn coord_bit(c: Coordinate, k: nat) -> bool {
    if k % 2 == 0 {
        axis_bit(c.x as int, -LON_LIMIT as int, LON_LIMIT as int, k / 2)
    } else {
        axis_bit(c.y as int, -LAT_LIMIT as int, LAT_LIMIT as int, k / 2)
    }
}

/// The first `n` bits of a coordinate's hash.
pub open spec fn coord_bits(c: Coordinate, n: nat) -> Seq<bool> {
    Seq::new(n, |k: int| coord_bit(c, k as nat))
}

/// The number that a sequence of bits spells, most significant first.
pub open spec fn bits_value(bits: Seq<bool>) -> nat
    decreases bits.len(),
{
    if bits.len() == 0 {
        0
    } else {
        2 * bits_value(bits.drop_last()) + if bits.last() {
            1nat
        } else {
            0nat
        }
    }
}

/// The value of the `i`-th group of five bits of a coordinate's hash.
pub open spec fn chunk_value(c: Coordinate, i: int) -> nat {
    bits_value(coord_bits(c, (5 * i + 5) as nat).subrange(5 * i, 5 * i + 5))
}

/// The geohash of `len` symbols of a coordinate.
pub open spec fn encoded(c: Coordinate, len: nat) -> Seq<char> {
    Seq::new(len, |i: int| alphabet()[chunk_value(c, i) as int])
}

/// `[lo, hi]` halved `n` times toward `v` stays a nonempty part of itself.
pub proof fn lemma_narrow_within(v: int, lo: int, hi: int, n: nat)
    requires
        lo <= hi,
    ensures
        lo <= narrow(v, lo, hi, n).0 <= narrow(v, lo, hi, n).1 <= hi,
    decreases n,
{
    if n > 0 {
        lemma_narrow_within(v, lo, hi, (n - 1) as nat);
    }
}

/// One more bit doubles the value and adds the bit.
pub proof fn lemma_bits_value_push(bits: Seq<bool>, b: bool)
    ensures
        bits_value(bits.push(b)) == 2 * bits_value(bits) + if b {
            1nat
        } else {
            0nat
        },
{
    assert(bits.push(b).drop_last() =~= bits);
}

/// `n` bits spell a number below `2^n`.
pub proof fn lemma_bits_value_bound(bits: Seq<bool>)
    ensures
        bits_value(bits) < pow2(bits.len()),
    decreases bits.len(),
{
    if bits.len() > 0 {
        lemma_bits_value_bound(bits.drop_last());
        lemma_pow2_unfold(bits.len());
    } else {
        lemma2_to64();
    }
}

/// The bits appended one at a time spell the running value.
proof fn lemma_coord_bits_push(c: Coordinate, from: int, to: int)
    requires
        0 <= from <= to,
    ensures
        coord_bits(c, (to + 1) as nat).subrange(from, to + 1) =~= coord_bits(c, to as nat).subrange(
            from,
            to,
        ).push(coord_bit(c, to as nat)),
{
}

/// Encodes a coordinate as a geohash of `len` symbols.
pub fn encode(c: Coordinate, len: usize) -> (r: String)
    ensures
        r@ == encoded(c, len as nat),
{
    let mut out = String::new();
    let mut min_lon: i64 = -LON_LIMIT;
    let mut max_lon: i64 = LON_LIMIT;
    let mut min_lat: i64 = -LAT_LIMIT;
    let mut max_lat: i64 = LAT_LIMIT;
    let mut is_lon = true;
    let ghost mut k: nat = 0;
    let mut i: usize = 0;
    while i < len
        invariant
            i <= len,
            k == 5 * i,
            is_lon == (k % 2 == 0),
            out@ =~= encoded(c, i as nat),
            (min_lon as int, max_lon as int) == narrow(
                c.x as int,
                -LON_LIMIT as int,
                LON_LIMIT as int,
                (k + 1) / 2,
            ),
            (min_lat as int, max_lat as int) == narrow(
                c.y as int,
                -LAT_LIMIT as int,
                LAT_LIMIT as int,
                k / 2,
            ),
        decreases len - i,
    {
        let mut value: u8 = 0;
        let mut j: usize = 0;
        while j < 5
            invariant
                j <= 5,
                is_lon == ((k + j) % 2 == 0),
                value as nat == bits_value(coord_bits(c, (k + j) as nat).subrange(k as int, k + j)),
                (min_lon as int, max_lon as int) == narrow(
                    c.x as int,
                    -LON_LIMIT as int,
                    LON_LIMIT as int,
                    ((k + j + 1) / 2) as nat,
                ),
                (min_lat as int, max_lat as int) == narrow(
                    c.y as int,
                    -LAT_LIMIT as int,
                    LAT_LIMIT as int,
                    ((k + j) / 2) as nat,
                ),
            decreases 5 - j,
        {
            proof {
                lemma_narrow_within(c.x as int, -LON_LIMIT as int, LON_LIMIT as int, ((k + j + 1) / 2) as nat);
                lemma_narrow_within(c.y as int, -LAT_LIMIT as int, LAT_LIMIT as int, ((k + j) / 2) as nat);
                lemma_coord_bits_push(c, k as int, k + j);
                lemma_bits_value_push(
                    coord_bits(c, (k + j) as nat).subrange(k as int, k + j),
                    coord_bit(c, (k + j) as nat),
                );
                lemma_bits_value_bound(coord_bits(c, (k + j) as nat).subrange(k as int, k + j));
                lemma2_to64();
            }
            let bit;
            if is_lon {
                let mid = min_lon + (max_lon - min_lon) / 2;
                bit = c.x > mid;
                if bit {
                    min_lon = mid;
                } else {
                    max_lon = mid;
                }
            } else {
                let mid = min_lat + (max_lat - min_lat) / 2;
                bit = c.y > mid;
                if bit {
                    min_lat = mid;
                } else {
                    max_lat = mid;
                }
            }
            value = 2 * value + if bit { 1u8 } else { 0u8 };
            is_lon = !is_lon;
            j = j + 1;
        }
        proof {
            lemma_bits_value_bound(coord_bits(c, (k + 5) as nat).subrange(k as int, k + 5int));
            lemma2_to64();
        }
        out.push(symbol_for(value));
        proof {
            k = k + 5;
        }
        i = i + 1;
    }
    out
}

/// Packs the first `bit_count` bits of a coordinate's hash into an integer,
/// the first bit most significant.
pub fn encode_fixed_bits(c: Coordinate, bit_count: usize) -> (r: u64)
    requires
        bit_count <= 64,
    ensures
        r as nat == bits_value(coord_bits(c, bit_count as nat)),
{
    let mut hash: u64 = 0;
    let mut min_lon: i64 = -LON_LIMIT;
    let mut max_lon: i64 = LON_LIMIT;
    let mut min_lat: i64 = -LAT_LIMIT;
    let mut max_lat: i64 = LAT_LIMIT;
    let mut k: usize = 0;
    while k < bit_count
        invariant
            k <= bit_count <= 64,
            hash as nat == bits_value(coord_bits(c, k as nat)),
            (min_lon as int, max_lon as int) == narrow(
                c.x as int,
                -LON_LIMIT as int,
                LON_LIMIT as int,
                ((k + 1) / 2) as nat,
            ),
            (min_lat as int, max_lat as int) == narrow(
                c.y as int,
                -LAT_LIMIT as int,
                LAT_LIMIT as int,
                (k / 2) as nat,
            ),
        decreases bit_count - k,
    {
        proof {
            lemma_narrow_within(c.x as int, -LON_LIMIT as int, LON_LIMIT as int, ((k + 1) / 2) as nat);
            lemma_narrow_within(c.y as int, -LAT_LIMIT as int, LAT_LIMIT as int, (k / 2) as nat);
            assert(coord_bits(c, (k + 1) as nat) =~= coord_bits(c, k as nat).push(coord_bit(c, k as nat)));
            lemma_bits_value_push(coord_bits(c, k as nat), coord_bit(c, k as nat));
            lemma_bits_value_bound(coord_bits(c, (k + 1) as nat));
            if k + 1 < 64 {
                vstd::arithmetic::power2::lemma_pow2_strictly_increases((k + 1) as nat, 64);
            }
            lemma2_to64();
            vstd::arithmetic::power2::lemma2_to64_rest();
        }
        let bit;
        if k % 2 == 0 {
            let mid = min_lon + (max_lon - min_lon) / 2;
            bit = c.x > mid;
            if bit {
                min_lon = mid;
            } else {
                max_lon = mid;
            }
        } else {
            let mid = min_lat + (max_lat - min_lat) / 2;
            bit = c.y > mid;
            if bit {
                min_lat = mid;
            } else {
                max_lat = mid;
            }
        }
        hash = 2 * hash + if bit { 1u64 } else { 0u64 };
        k = k + 1;
    }
    hash
}

/// The `j`-th of the five bits of a symbol's value, the first most
/// significant.
pub open spec fn symbol_bit(value: int, j: int) -> bool {
    (value / pow2((4 - j) as nat) as int) % 2 == 1
}

/// The bits that a hash string spells, five for each symbol.
pub open spec fn hash_bits(s: Seq<char>) -> Seq<bool> {
    Seq::new(5 * s.len(), |k: int| symbol_bit(symbol_value(s[k / 5]), k % 5))
}

/// The bits of a hash that bisect longitude: those on even places.
pub open spec fn lon_bits(bits: Seq<bool>) -> Seq<bool> {
    Seq::new((bits.len() + 1) / 2, |i: int| bits[2 * i])
}

/// The bits of a hash that bisect latitude: those on odd places.
pub open spec fn lat_bits(bits: Seq<bool>) -> Seq<bool> {
    Seq::new(bits.len() / 2, |i: int| bits[2 * i + 1])
}

/// The interval left after halving `[lo, hi]` once for each bit, keeping the
/// upper half for `true`.
pub open spec fn narrow_by(bits: Seq<bool>, lo: int, hi: int) -> (int, int)
    decreases bits.len(),
{
    if bits.len() == 0 {
        (lo, hi)
    } else {
        halve(narrow_by(bits.drop_last(), lo, hi), bits.last())
    }
}

/// The longitude bounds, in units, that a sequence of hash bits denotes.
pub open spec fn lon_bounds(bits: Seq<bool>) -> (int, int) {
    narrow_by(lon_bits(bits), -LON_LIMIT as int, LON_LIMIT as int)
}

/// The latitude bounds, in units, that a sequence of hash bits denotes.
pub open spec fn lat_bounds(bits: Seq<bool>) -> (int, int) {
    narrow_by(lat_bits(bits), -LAT_LIMIT as int, LAT_LIMIT as int)
}

/// Every character of the string is a symbol of the alphabet.
pub open spec fn valid_hash(s: Seq<char>) -> bool {
    forall|i: int| 0 <= i < s.len() ==> alphabet().contains(#[trigger] s[i])
}

/// Halving by bits keeps a nonempty part of `[lo, hi]`.
pub proof fn lemma_narrow_by_within(bits: Seq<bool>, lo: int, hi: int)
    requires
        lo <= hi,
    ensures
        lo <= narrow_by(bits, lo, hi).0 <= narrow_by(bits, lo, hi).1 <= hi,
    decreases bits.len(),
{
    if bits.len() > 0 {
        lemma_narrow_by_within(bits.drop_last(), lo, hi);
    }
}

/// Taking one more bit of a hash halves the interval of the axis it belongs
/// to and leaves the other alone.
proof fn lemma_bounds_step(bits: Seq<bool>, k: int)
    requires
        0 <= k < bits.len(),
    ensures
        lon_bounds(bits.take(k + 1)) == if k % 2 == 0 {
            halve(lon_bounds(bits.take(k)), bits[k])
        } else {
            lon_bounds(bits.take(k))
        },
        lat_bounds(bits.take(k + 1)) == if k % 2 == 1 {
            halve(lat_bounds(bits.take(k)), bits[k])
        } else {
            lat_bounds(bits.take(k))
        },
{
    let next = bits.take(k + 1);
    let prev = bits.take(k);
    if k % 2 == 0 {
        assert(lon_bits(next).drop_last() =~= lon_bits(prev));
        assert(lat_bits(next) =~= lat_bits(prev));
    } else {
        assert(lat_bits(next).drop_last() =~= lat_bits(prev));
        assert(lon_bits(next) =~= lon_bits(prev));
    }
}

/// Decodes a geohash into the corners of the cell it denotes: the first
/// holds the least longitude and latitude, the second the greatest.
pub fn decode_bbox(hash: &str) -> (r: Result<(Coordinate, Coordinate), GeohashError>)
    ensures
        r is Ok <==> valid_hash(hash@),
        r matches Ok((lo, hi)) ==> (lo.x as int, hi.x as int) == lon_bounds(hash_bits(hash@)) && (
        lo.y as int, hi.y as int) == lat_bounds(hash_bits(hash@)),
        r matches Ok((lo, hi)) ==> lo.x <= hi.x && lo.y <= hi.y,
        r matches Err(e) ==> e == GeohashError::InvalidSymbol,
{
    if !hash.is_ascii() {
        proof {
            lemma_alphabet_ascii();
        }
        return Err(GeohashError::InvalidSymbol);
    }
    let bytes = hash.as_bytes();
    proof {
        broadcast use is_ascii_spec_bytes;
    }
    let ghost bits = hash_bits(hash@);
    let mut min_lon: i64 = -LON_LIMIT;
    let mut max_lon: i64 = LON_LIMIT;
    let mut min_lat: i64 = -LAT_LIMIT;
    let mut max_lat: i64 = LAT_LIMIT;
    let mut is_lon = true;
    let mut i: usize = 0;
    while i < bytes.len()
        invariant
            bytes@ == Seq::new(hash@.len(), |n: int| hash@[n] as u8),
            is_ascii_chars(hash@),
            bits == hash_bits(hash@),
            i <= bytes.len(),
            is_lon == ((5 * i) % 2 == 0),
            forall|n: int| 0 <= n < i ==> alphabet().contains(#[trigger] hash@[n]),
            (min_lon as int, max_lon as int) == lon_bounds(bits.take(5 * i)),
            (min_lat as int, max_lat as int) == lat_bounds(bits.take(5 * i)),
        decreases bytes.len() - i,
    {
        let ch = bytes[i] as char;
        assert(ch == hash@[i as int]);
        let value = match value_for(ch) {
            Ok(v) => v,
            Err(e) => {
                return Err(e);
            },
        };
        proof {
            lemma_symbol_value(value as int);
            lemma2_to64();
        }
        let mut place: u8 = 16;
        let mut j: usize = 0;
        while j < 5
            invariant
                bits == hash_bits(hash@),
                i < hash@.len(),
                symbol_value(hash@[i as int]) == value as int,
                value < 32,
                j <= 5,
                j < 5 ==> place as nat == pow2((4 - j) as nat),
                is_lon == ((5 * i + j) % 2 == 0),
                (min_lon as int, max_lon as int) == lon_bounds(bits.take(5 * i + j)),
                (min_lat as int, max_lat as int) == lat_bounds(bits.take(5 * i + j)),
            decreases 5 - j,
        {
            let ghost k: int = 5 * i + j;
            proof {
                lemma2_to64();
                lemma_bounds_step(bits, k);
                lemma_narrow_by_within(lon_bits(bits.take(k)), -LON_LIMIT as int, LON_LIMIT as int);
                lemma_narrow_by_within(lat_bits(bits.take(k)), -LAT_LIMIT as int, LAT_LIMIT as int);
                assert(bits[k] == symbol_bit(value as int, j as int));
            }
            let bit = (value / place) % 2 == 1;
            if is_lon {
                let mid = min_lon + (max_lon - min_lon) / 2;
                if bit {
                    min_lon = mid;
                } else {
                    max_lon = mid;
                }
            } else {
                let mid = min_lat + (max_lat - min_lat) / 2;
                if bit {
                    min_lat = mid;
                } else {
                    max_lat = mid;
                }
            }
            is_lon = !is_lon;
            place = place / 2;
            j = j + 1;
        }
        i = i + 1;
    }
    assert(bits.take(5 * hash@.len() as int) =~= bits);
    proof {
        lemma_narrow_by_within(lon_bits(bits), -LON_LIMIT as int, LON_LIMIT as int);
        lemma_narrow_by_within(lat_bits(bits), -LAT_LIMIT as int, LAT_LIMIT as int);
    }
    Ok((Coordinate { x: min_lon, y: min_lat }, Coordinate { x: max_lon, y: max_lat }))
}

/// Decodes a geohash into the centre of its cell and the half-width and
/// half-height of the cell: `(centre, longitude error, latitude error)`.
pub fn decode(hash: &str) -> (r: Result<(Coordinate, i64, i64), GeohashError>)
    ensures
        r is Ok <==> valid_hash(hash@),
        r matches Ok((c, lon_err, lat_err)) ==> {
            let lon = lon_bounds(hash_bits(hash@));
            let lat = lat_bounds(hash_bits(hash@));
            &&& c.x == midpoint(lon.0, lon.1)
            &&& c.y == midpoint(lat.0, lat.1)
            &&& lon_err == (lon.1 - lon.0) / 2
            &&& lat_err == (lat.1 - lat.0) / 2
        },
        r matches Err(e) ==> e == GeohashError::InvalidSymbol,
{
    let (lo, hi) = decode_bbox(hash)?;
    proof {
        lemma_narrow_by_within(lon_bits(hash_bits(hash@)), -LON_LIMIT as int, LON_LIMIT as int);
        lemma_narrow_by_within(lat_bits(hash_bits(hash@)), -LAT_LIMIT as int, LAT_LIMIT as int);
    }
    let center = Coordinate { x: lo.x + (hi.x - lo.x) / 2, y: lo.y + (hi.y - lo.y) / 2 };
    Ok((center, (hi.x - lo.x) / 2, (hi.y - lo.y) / 2))
}

/// Five bits, read back one at a time from the value they spell.
proof fn lemma_five_bits(b: Seq<bool>, j: int)
    requires
        b.len() == 5,
        0 <= j < 5,
    ensures
        symbol_bit(bits_value(b) as int, j) == b[j],
{
    let e = |i: int| if b[i] {
        1int
    } else {
        0int
    };
    assert(b.take(0).len() == 0);
    assert forall|m: int| 0 < m <= 5 implies bits_value(#[trigger] b.take(m)) == 2 * bits_value(
        b.take(m - 1),
    ) + e(m - 1) by {
        assert(b.take(m).drop_last() =~= b.take(m - 1));
    }
    assert(b.take(5) =~= b);
    let v = bits_value(b) as int;
    assert(v == 16 * e(0) + 8 * e(1) + 4 * e(2) + 2 * e(3) + e(4));
    lemma2_to64();
    if j == 0 {
        assert((4 - j) as nat == 4nat);
        assert(pow2(4) == 16);
        assert(v / 16 == e(0));
        assert((e(0)) % 2 == e(0));
    } else if j == 1 {
        assert((4 - j) as nat == 3nat);
        assert(pow2(3) == 8);
        assert(v / 8 == 2 * e(0) + e(1));
        assert((2 * e(0) + e(1)) % 2 == e(1));
    } else if j == 2 {
        assert((4 - j) as nat == 2nat);
        assert(pow2(2) == 4);
        assert(v / 4 == 2 * (2 * e(0) + e(1)) + e(2));
        assert((2 * (2 * e(0) + e(1)) + e(2)) % 2 == e(2));
    } else if j == 3 {
        assert((4 - j) as nat == 1nat);
        assert(pow2(1) == 2);
        assert(v / 2 == 2 * (4 * e(0) + 2 * e(1) + e(2)) + e(3));
        assert((2 * (4 * e(0) + 2 * e(1) + e(2)) + e(3)) % 2 == e(3));
    } else {
        assert((4 - j) as nat == 0nat);
        assert(pow2(0) == 1);
        assert(v / 1 == v);
        assert((v) % 2 == e(4));
    }
}

/// Read back through the alphabet, the symbols of a coordinate's hash give the
/// coordinate's bits.
pub proof fn lemma_hash_bits_of_encoded(c: Coordinate, len: nat)
    ensures
        hash_bits(encoded(c, len)) =~= coord_bits(c, 5 * len),
        valid_hash(encoded(c, len)),
{
    let s = encoded(c, len);
    assert forall|k: int| 0 <= k < 5 * len implies #[trigger] hash_bits(s)[k] == coord_bits(
        c,
        5 * len,
    )[k] by {
        let i = k / 5;
        let b = coord_bits(c, (5 * i + 5) as nat).subrange(5 * i, 5 * i + 5);
        lemma_bits_value_bound(b);
        lemma2_to64();
        crate::alphabet::lemma_alphabet_bijection(chunk_value(c, i) as int);
        lemma_five_bits(b, k % 5);
    }
    assert forall|i: int| 0 <= i < s.len() implies alphabet().contains(#[trigger] s[i]) by {
        lemma_bits_value_bound(coord_bits(c, (5 * i + 5) as nat).subrange(5 * i, 5 * i + 5));
        lemma2_to64();
    }
}

/// Halving by the bits that bisection toward `v` yields is bisection toward `v`.
proof fn lemma_narrow_by_axis_bits(v: int, lo: int, hi: int, m: nat)
    ensures
        narrow_by(Seq::new(m, |i: int| axis_bit(v, lo, hi, i as nat)), lo, hi) == narrow(v, lo, hi, m),
    decreases m,
{
    if m > 0 {
        let bits = Seq::new(m, |i: int| axis_bit(v, lo, hi, i as nat));
        assert(bits.drop_last() =~= Seq::new((m - 1) as nat, |i: int| axis_bit(v, lo, hi, i as nat)));
        lemma_narrow_by_axis_bits(v, lo, hi, (m - 1) as nat);
    }
}

/// Bisection toward a point of `[lo, hi]` keeps the point.
pub proof fn lemma_narrow_contains(v: int, lo: int, hi: int, n: nat)
    requires
        lo <= v <= hi,
    ensures
        narrow(v, lo, hi, n).0 <= v <= narrow(v, lo, hi, n).1,
    decreases n,
{
    if n > 0 {
        lemma_narrow_contains(v, lo, hi, (n - 1) as nat);
    }
}

/// The bounds of a coordinate's hash of `n` bits are those of bisecting each
/// axis toward it.
pub proof fn lemma_bounds_of_coord_bits(c: Coordinate, n: nat)
    ensures
        lon_bounds(coord_bits(c, n)) == narrow(c.x as int, -LON_LIMIT as int, LON_LIMIT as int, (n + 1) / 2),
        lat_bounds(coord_bits(c, n)) == narrow(c.y as int, -LAT_LIMIT as int, LAT_LIMIT as int, n / 2),
{
    let bits = coord_bits(c, n);
    let (lon_lo, lat_lo) = (-LON_LIMIT as int, -LAT_LIMIT as int);
    assert(lon_bits(bits) =~= Seq::new(
        (n + 1) / 2,
        |i: int| axis_bit(c.x as int, lon_lo, LON_LIMIT as int, i as nat),
    ));
    assert(lat_bits(bits) =~= Seq::new(
        n / 2,
        |i: int| axis_bit(c.y as int, lat_lo, LAT_LIMIT as int, i as nat),
    ));
    lemma_narrow_by_axis_bits(c.x as int, -LON_LIMIT as int, LON_LIMIT as int, (n + 1) / 2);
    lemma_narrow_by_axis_bits(c.y as int, -LAT_LIMIT as int, LAT_LIMIT as int, n / 2);
}

/// A coordinate in range lies in the cell of each of its hashes: decoding
/// `encode(c, len)` gives bounds that hold `c`.
pub proof fn lemma_encode_decode_contains(c: Coordinate, len: nat)
    requires
        c.in_range(),
    ensures
        valid_hash(encoded(c, len)),
        lon_bounds(hash_bits(encoded(c, len))).0 <= c.x <= lon_bounds(hash_bits(encoded(c, len))).1,
        lat_bounds(hash_bits(encoded(c, len))).0 <= c.y <= lat_bounds(hash_bits(encoded(c, len))).1,
{
    lemma_hash_bits_of_encoded(c, len);
    lemma_bounds_of_coord_bits(c, 5 * len);
    lemma_narrow_contains(c.x as int, -LON_LIMIT as int, LON_LIMIT as int, (5 * len + 1) / 2);
    lemma_narrow_contains(c.y as int, -LAT_LIMIT as int, LAT_LIMIT as int, (5 * len) / 2);
}

/// The bits recovered from `encode(c, len)` are the `5 * len` bits that
/// `encode_fixed_bits(c, 5 * len)` packs, and spell the same number.
pub proof fn lemma_encode_agrees_with_fixed_bits(c: Coordinate, len: nat)
    ensures
        hash_bits(encoded(c, len)) == coord_bits(c, 5 * len),
        bits_value(hash_bits(encoded(c, len))) == bits_value(coord_bits(c, 5 * len)),
{
    lemma_hash_bits_of_encoded(c, len);
}

/// Halving by fewer of the same bits leaves an interval around the one that
/// all of them leave.
proof fn lemma_narrow_by_prefix(bits: Seq<bool>, m: int, lo: int, hi: int)
    requires
        lo <= hi,
        0 <= m <= bits.len(),
    ensures
        narrow_by(bits.take(m), lo, hi).0 <= narrow_by(bits, lo, hi).0,
        narrow_by(bits, lo, hi).0 <= narrow_by(bits, lo, hi).1,
        narrow_by(bits, lo, hi).1 <= narrow_by(bits.take(m), lo, hi).1,
    decreases bits.len(),
{
    lemma_narrow_by_within(bits, lo, hi);
    if m == bits.len() {
        assert(bits.take(m) =~= bits);
    } else {
        lemma_narrow_by_within(bits.drop_last(), lo, hi);
        assert(bits.drop_last().take(m) =~= bits.take(m));
        lemma_narrow_by_prefix(bits.drop_last(), m, lo, hi);
    }
}

/// One more symbol never widens a cell: the bounds of `s` followed by `ch`
/// lie within those of `s`, on both axes.
pub proof fn lemma_longer_hash_narrower(s: Seq<char>, ch: char)
    ensures
        lon_bounds(hash_bits(s)).0 <= lon_bounds(hash_bits(s.push(ch))).0,
        lon_bounds(hash_bits(s.push(ch))).0 <= lon_bounds(hash_bits(s.push(ch))).1,
        lon_bounds(hash_bits(s.push(ch))).1 <= lon_bounds(hash_bits(s)).1,
        lat_bounds(hash_bits(s)).0 <= lat_bounds(hash_bits(s.push(ch))).0,
        lat_bounds(hash_bits(s.push(ch))).0 <= lat_bounds(hash_bits(s.push(ch))).1,
        lat_bounds(hash_bits(s.push(ch))).1 <= lat_bounds(hash_bits(s)).1,
{
    let long = hash_bits(s.push(ch));
    let short = hash_bits(s);
    let n: int = 5 * s.len() as int;
    assert(long.take(n) =~= short);
    assert(lon_bits(short) =~= lon_bits(long).take((n + 1) / 2));
    assert(lat_bits(short) =~= lat_bits(long).take(n / 2));
    lemma_narrow_by_prefix(lon_bits(long), (n + 1) / 2, -LON_LIMIT as int, LON_LIMIT as int);
    lemma_narrow_by_prefix(lat_bits(long), n / 2, -LAT_LIMIT as int, LAT_LIMIT as int);
}

} // verus!

