//! The eight cells around a geohash, at the same precision.
use vstd::prelude::*;
use vstd::string::{is_ascii_spec_bytes, StringSliceAdditionalSpecFns};
use vstd::arithmetic::power2::pow2;
use crate::alphabet::{lemma_alphabet_ascii, GeohashError};
use crate::cell::{
    lat_cell_width, lemma_axis_grids, lemma_cell_move, lemma_encode_decoded_center,
    lemma_narrow_by_grid, lon_cell_width,
};
use crate::codec::{
    axis_bit, bits_value, coord_bits, decode, encode, encoded, hash_bits, lat_bits, lat_bounds,
    lemma_bits_value_bound, lemma_hash_bits_of_encoded, lemma_narrow_by_within, lon_bits,
    lon_bounds, midpoint, valid_hash, Coordinate, LAT_LIMIT, LON_LIMIT,
};

verus! {

/// The eight neighbouring hashes of a cell.
#[derive(Clone, Debug, PartialEq, Eq)]
pub struct Neighbors {
    pub sw: String,
    pub s: String,
    pub se: String,
    pub w: String,
    pub e: String,
    pub nw: String,
    pub n: String,
    pub ne: String,
}

/// A compass direction.
#[derive(Clone, Copy, Debug, PartialEq, Eq, Structural)]
pub enum Direction {
    /// North
    N,
    /// North-east
    Ne,
    /// East
    E,
    /// South-east
    Se,
    /// South
    S,
    /// South-west
    Sw,
    /// West
    W,
    /// North-west
    Nw,
}

impl Direction {
    /// The step of the direction as `(latitude, longitude)`, each -1, 0 or 1.
    pub open spec fn steps(self) -> (int, int) {
        match self {
            Direction::Sw => (-1, -1),
            Direction::S => (-1, 0),
            Direction::Se => (-1, 1),
            Direction::W => (0, -1),
            Direction::E => (0, 1),
            Direction::Nw => (1, -1),
            Direction::N => (1, 0),
            Direction::Ne => (1, 1),
        }
    }

    /// The step of the direction as `(latitude, longitude)`.
    pub fn to_tuple(self) -> (r: (i8, i8))
        ensures
            (r.0 as int, r.1 as int) == self.steps(),
    {
        match self {
            Direction::Sw => (-1, -1),
            Direction::S => (-1, 0),
            Direction::Se => (-1, 1),
            Direction::W => (0, -1),
            Direction::E => (0, 1),
            Direction::Nw => (1, -1),
            Direction::N => (1, 0),
            Direction::Ne => (1, 1),
        }
    }
}

/// The absolute value.
pub open spec fn abs(v: int) -> int {
    if v < 0 {
        -v
    } else {
        v
    }
}

/// The point one cell away from the centre of a hash's cell in a direction:
/// the centre moved by twice the half-width or half-height per step.
pub open spec fn neighbor_target(s: Seq<char>, d: Direction) -> Coordinate {
    let lon = lon_bounds(hash_bits(s));
    let lat = lat_bounds(hash_bits(s));
    let x = midpoint(lon.0, lon.1) + 2 * abs((lon.1 - lon.0) / 2) * d.steps().1;
    let y = midpoint(lat.0, lat.1) + 2 * abs((lat.1 - lat.0) / 2) * d.steps().0;
    Coordinate { x: x as i64, y: y as i64 }
}

/// The hash of the cell next to a hash's cell in a direction, at the same
/// length.
pub open spec fn neighbor_hash(s: Seq<char>, d: Direction) -> Seq<char> {
    encoded(neighbor_target(s, d), s.len())
}

/// Moves `center` by twice `err` (taken as its absolute value) times `step`.
fn nudge(center: i64, err: i64, step: i8, limit: i64) -> (r: i64)
    requires
        -limit <= center <= limit,
        -limit <= err <= limit,
        limit <= LON_LIMIT,
        -1 <= step <= 1,
    ensures
        r == center + 2 * abs(err as int) * step,
{
    let size = if err < 0 {
        -err
    } else {
        err
    };
    proof {
        let m = 2 * abs(err as int);
        if step == 1 {
            assert(m * step == m) by (nonlinear_arith)
                requires
                    step == 1,
            ;
        } else if step == -1 {
            assert(m * step == -m) by (nonlinear_arith)
                requires
                    step == -1,
            ;
        } else {
            assert(m * step == 0) by (nonlinear_arith)
                requires
                    step == 0,
            ;
        }
    }
    if step > 0 {
        center + 2 * size
    } else if step < 0 {
        center - 2 * size
    } else {
        center
    }
}

/// The hash of the neighbouring cell of `hash` in `direction`, of the same
/// length.
pub fn neighbor(hash: &str, direction: Direction) -> (r: Result<String, GeohashError>)
    ensures
        r is Ok <==> valid_hash(hash@),
        r matches Ok(s) ==> s@ == neighbor_hash(hash@, direction),
        r matches Err(e) ==> e == GeohashError::InvalidSymbol,
{
    let (c, lon_err, lat_err) = decode(hash)?;
    proof {
        lemma_narrow_by_within(lon_bits(hash_bits(hash@)), -LON_LIMIT as int, LON_LIMIT as int);
        lemma_narrow_by_within(lat_bits(hash_bits(hash@)), -LAT_LIMIT as int, LAT_LIMIT as int);
        lemma_alphabet_ascii();
        broadcast use is_ascii_spec_bytes;
        assert(vstd::string::is_ascii(hash));
        assert(hash.spec_bytes().len() == hash@.len());
    }
    let (dlat, dlng) = direction.to_tuple();
    let target = Coordinate {
        x: nudge(c.x, lon_err, dlng, LON_LIMIT),
        y: nudge(c.y, lat_err, dlat, LAT_LIMIT),
    };
    let len = hash.as_bytes().len();
    Ok(encode(target, len))
}

/// The hashes of all eight neighbouring cells of `hash`.
pub fn neighbors(hash: &str) -> (r: Result<Neighbors, GeohashError>)
    ensures
        r is Ok <==> valid_hash(hash@),
        r matches Ok(n) ==> {
            &&& n.sw@ == neighbor_hash(hash@, Direction::Sw)
            &&& n.s@ == neighbor_hash(hash@, Direction::S)
            &&& n.se@ == neighbor_hash(hash@, Direction::Se)
            &&& n.w@ == neighbor_hash(hash@, Direction::W)
            &&& n.e@ == neighbor_hash(hash@, Direction::E)
            &&& n.nw@ == neighbor_hash(hash@, Direction::Nw)
            &&& n.n@ == neighbor_hash(hash@, Direction::N)
            &&& n.ne@ == neighbor_hash(hash@, Direction::Ne)
        },
        r matches Err(e) ==> e == GeohashError::InvalidSymbol,
{
    Ok(Neighbors {
        sw: neighbor(hash, Direction::Sw)?,
        s: neighbor(hash, Direction::S)?,
        se: neighbor(hash, Direction::Se)?,
        w: neighbor(hash, Direction::W)?,
        e: neighbor(hash, Direction::E)?,
        nw: neighbor(hash, Direction::Nw)?,
        n: neighbor(hash, Direction::N)?,
        ne: neighbor(hash, Direction::Ne)?,
    })
}

/// Going north and then south comes back: for a valid hash of up to 21
/// symbols whose cell does not reach the north pole, the south neighbour of
/// its north neighbour is the hash itself.
pub proof fn lemma_north_then_south(s: Seq<char>)
    requires
        valid_hash(s),
        s.len() <= 21,
        lat_bounds(hash_bits(s)).1 < LAT_LIMIT,
    ensures
        neighbor_hash(neighbor_hash(s, Direction::N), Direction::S) == s,
{
    let len = s.len();
    let n = 5 * len;
    let nx = (n + 1) / 2;
    let ny = n / 2;
    let lon_lo = -LON_LIMIT as int;
    let lat_lo = -LAT_LIMIT as int;
    lemma_axis_grids(nx, ny);
    let wx = lon_cell_width(nx);
    let wy = lat_cell_width(ny);
    let px = pow2(nx) as int;
    let py = pow2(ny) as int;

    let bits = hash_bits(s);
    let ix = bits_value(lon_bits(bits)) as int;
    let iy = bits_value(lat_bits(bits)) as int;
    lemma_bits_value_bound(lon_bits(bits));
    lemma_narrow_by_grid(lat_bits(bits), lat_lo, wy);
    assert(iy + 1 < py) by (nonlinear_arith)
        requires
            lat_lo + (iy + 1) * wy < LAT_LIMIT,
            lat_lo + wy * py == LAT_LIMIT,
            wy >= 2,
    ;
    lemma_cell_move(lon_bits(bits), lon_lo, wx, 0);
    lemma_cell_move(lat_bits(bits), lat_lo, wy, 1);
    assert(ix * wx + wx / 2 < wx * px) by (nonlinear_arith)
        requires
            ix + 1 <= px,
            wx >= 2,
    ;
    assert((iy + 1) * wy + wy / 2 < wy * py) by (nonlinear_arith)
        requires
            iy + 2 <= py,
            wy >= 2,
    ;
    assert(ix * wx >= 0 && (iy + 1) * wy >= 0) by (nonlinear_arith)
        requires
            ix >= 0,
            iy >= 0,
            wx >= 2,
            wy >= 2,
    ;
    let t1 = neighbor_target(s, Direction::N);
    assert(t1.x == lon_lo + ix * wx + wx / 2);
    assert(t1.y == lat_lo + (iy + 1) * wy + wy / 2);

    let h1 = neighbor_hash(s, Direction::N);
    lemma_hash_bits_of_encoded(t1, len);
    let bits1 = hash_bits(h1);
    assert(lon_bits(bits1) =~= Seq::new(
        nx,
        |k: int| axis_bit(t1.x as int, lon_lo, LON_LIMIT as int, k as nat),
    ));
    assert(lat_bits(bits1) =~= Seq::new(
        ny,
        |k: int| axis_bit(t1.y as int, lat_lo, LAT_LIMIT as int, k as nat),
    ));
    lemma_cell_move(lon_bits(bits1), lon_lo, wx, 0);
    lemma_cell_move(lat_bits(bits1), lat_lo, wy, -1);
    let t2 = neighbor_target(h1, Direction::S);
    assert(t2.x == lon_lo + ix * wx + wx / 2);
    assert(t2.y == lat_lo + iy * wy + wy / 2);
    assert((iy + 1) * wy == iy * wy + wy) by (nonlinear_arith);
    lemma_encode_decoded_center(s, t2);
}

} // verus!
