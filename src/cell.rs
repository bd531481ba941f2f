//! The cells of one axis as a grid of equal intervals, and bisection toward
//! points inside them.
use vstd::prelude::*;
use vstd::arithmetic::power2::{
    pow2, lemma_pow2_adds, lemma_pow2_unfold, lemma2_to64, lemma2_to64_rest,
};
use crate::alphabet::{alphabet, lemma_symbol_value, symbol_value};
use crate::codec::{
    axis_bit, bits_value, coord_bit, coord_bits, encoded, hash_bits, lat_bits, lat_bounds,
    lemma_bits_value_push, lemma_narrow_by_within, lon_bits, lon_bounds, midpoint, narrow,
    narrow_by, symbol_bit, valid_hash, Coordinate, LAT_LIMIT, LON_LIMIT,
};

verus! {

/// The `n` bits of `m`, most significant first.
pub open spec fn value_bits(m: int, n: nat) -> Seq<bool>
    decreases n,
{
    if n == 0 {
        Seq::empty()
    } else {
        value_bits(m / 2, (n - 1) as nat).push(m % 2 == 1)
    }
}

/// A number below `2^n` is spelled by its `n` bits.
pub proof fn lemma_value_bits(m: int, n: nat)
    requires
        0 <= m < pow2(n),
    ensures
        value_bits(m, n).len() == n,
        bits_value(value_bits(m, n)) == m,
    decreases n,
{
    if n == 0 {
        lemma2_to64();
    } else {
        lemma_pow2_unfold(n);
        lemma_value_bits(m / 2, (n - 1) as nat);
        lemma_bits_value_push(value_bits(m / 2, (n - 1) as nat), m % 2 == 1);
    }
}

/// Bisection toward a point strictly above the low end of the interval that
/// some bits select, and not above its high end, yields those bits.
pub proof fn lemma_bisect_reproduces(bits: Seq<bool>, v: int, lo: int, hi: int)
    requires
        lo <= hi,
        narrow_by(bits, lo, hi).0 < v <= narrow_by(bits, lo, hi).1,
    ensures
        narrow(v, lo, hi, bits.len()) == narrow_by(bits, lo, hi),
        Seq::new(bits.len(), |k: int| axis_bit(v, lo, hi, k as nat)) == bits,
    decreases bits.len(),
{
    let n = bits.len();
    if n > 0 {
        let p = bits.drop_last();
        lemma_narrow_by_within(p, lo, hi);
        lemma_bisect_reproduces(p, v, lo, hi);
        let s = Seq::new(n, |k: int| axis_bit(v, lo, hi, k as nat));
        assert(s.drop_last() =~= Seq::new((n - 1) as nat, |k: int| axis_bit(v, lo, hi, k as nat)));
        assert forall|k: int| 0 <= k < n implies s[k] == bits[k] by {
            if k < n - 1 {
                assert(s.drop_last()[k] == p[k]);
            }
        }
        assert(s =~= bits);
    } else {
        assert(Seq::new(bits.len(), |k: int| axis_bit(v, lo, hi, k as nat)) =~= bits);
    }
}

/// Over an interval of `2^n` cells `w` wide, `n` bits select the cell whose
/// number they spell.
pub proof fn lemma_narrow_by_grid(bits: Seq<bool>, lo: int, w: int)
    requires
        w >= 1,
    ensures
        narrow_by(bits, lo, lo + w * pow2(bits.len())) == (
            lo + bits_value(bits) * w,
            lo + (bits_value(bits) + 1) * w,
        ),
    decreases bits.len(),
{
    let n = bits.len();
    if n == 0 {
        lemma2_to64();
        assert(w * pow2(0) == w);
        assert(bits_value(bits) == 0);
        assert(0 * w == 0);
        assert((0 + 1) * w == w) by (nonlinear_arith);
    } else {
        let p = bits.drop_last();
        lemma_pow2_unfold(n);
        let m = pow2((n - 1) as nat) as int;
        assert(w * pow2(n) == (2 * w) * m) by (nonlinear_arith)
            requires
                pow2(n) == 2 * m,
        ;
        lemma_narrow_by_grid(p, lo, 2 * w);
        let i = bits_value(p) as int;
        assert(i * (2 * w) == (2 * i) * w) by (nonlinear_arith);
        assert((i + 1) * (2 * w) == (2 * i + 2) * w) by (nonlinear_arith);
        assert((2 * i + 1) * w == (2 * i) * w + w) by (nonlinear_arith);
        assert((2 * i + 2) * w == (2 * i) * w + 2 * w) by (nonlinear_arith);
        let a = lo + (2 * i) * w;
        assert(narrow_by(p, lo, lo + w * pow2(n)) == (a, a + 2 * w));
        assert(midpoint(a, a + 2 * w) == a + w);
        let v = bits_value(bits) as int;
        if bits.last() {
            assert(v == 2 * i + 1);
            assert(v * w == (2 * i + 1) * w);
            assert((v + 1) * w == (2 * i + 2) * w);
        } else {
            assert(v == 2 * i);
            assert(v * w == (2 * i) * w);
            assert((v + 1) * w == (2 * i + 1) * w);
        }
    }
}

/// From the centre of a cell of a grid of `2^n` cells `w` wide, a move of
/// `step` cell widths lands on the centre of the cell `step` away, and
/// bisection toward that point selects it.
pub proof fn lemma_cell_move(bits: Seq<bool>, lo: int, w: int, step: int)
    requires
        w >= 2,
        w % 2 == 0,
        -1 <= step <= 1,
        0 <= bits_value(bits) + step < pow2(bits.len()),
    ensures
        ({
            let n = bits.len();
            let hi = lo + w * pow2(n);
            let cell = narrow_by(bits, lo, hi);
            let t = midpoint(cell.0, cell.1) + 2 * ((cell.1 - cell.0) / 2) * step;
            let j = bits_value(bits) + step;
            &&& cell == (lo + bits_value(bits) * w, lo + (bits_value(bits) + 1) * w)
            &&& t == lo + j * w + w / 2
            &&& narrow(t, lo, hi, n) == (lo + j * w, lo + (j + 1) * w)
            &&& bits_value(Seq::new(n, |k: int| axis_bit(t, lo, hi, k as nat))) == j
        }),
{
    let n = bits.len();
    let hi = lo + w * pow2(n);
    let i = bits_value(bits) as int;
    let j = i + step;
    lemma_narrow_by_grid(bits, lo, w);
    let cell = narrow_by(bits, lo, hi);
    assert((i + 1) * w - i * w == w) by (nonlinear_arith);
    assert(j * w == i * w + step * w) by (nonlinear_arith)
        requires
            j == i + step,
    ;
    assert(2 * (w / 2) * step == step * w) by (nonlinear_arith)
        requires
            w % 2 == 0,
    ;
    let t = midpoint(cell.0, cell.1) + 2 * ((cell.1 - cell.0) / 2) * step;
    assert(t == lo + j * w + w / 2);
    lemma_value_bits(j, n);
    let vb = value_bits(j, n);
    lemma_narrow_by_grid(vb, lo, w);
    assert((j + 1) * w == j * w + w) by (nonlinear_arith);
    assert(w * pow2(n) >= 0) by (nonlinear_arith)
        requires
            w >= 2,
            pow2(n) >= 0,
    ;
    lemma_bisect_reproduces(vb, t, lo, hi);
}

/// The width of the longitude cells after `n` halvings.
pub open spec fn lon_cell_width(n: nat) -> int {
    45 * pow2((55 - n) as nat) as int
}

/// The height of the latitude cells after `n` halvings.
pub open spec fn lat_cell_width(n: nat) -> int {
    45 * pow2((54 - n) as nat) as int
}

/// Up to 53 halvings of longitude and 52 of latitude, the cells form grids of
/// even widths over the two ranges.
pub proof fn lemma_axis_grids(nx: nat, ny: nat)
    requires
        nx <= 53,
        ny <= 52,
    ensures
        -LON_LIMIT + lon_cell_width(nx) * pow2(nx) == LON_LIMIT,
        -LAT_LIMIT + lat_cell_width(ny) * pow2(ny) == LAT_LIMIT,
        lon_cell_width(nx) >= 2,
        lon_cell_width(nx) % 2 == 0,
        lat_cell_width(ny) >= 2,
        lat_cell_width(ny) % 2 == 0,
{
    lemma2_to64();
    lemma2_to64_rest();
    lemma_pow2_adds((55 - nx) as nat, nx);
    lemma_pow2_adds((54 - ny) as nat, ny);
    lemma_pow2_unfold((55 - nx) as nat);
    lemma_pow2_unfold((54 - ny) as nat);
    vstd::arithmetic::power2::lemma_pow2_pos((54 - nx) as nat);
    vstd::arithmetic::power2::lemma_pow2_pos((53 - ny) as nat);
    let px = pow2((55 - nx) as nat) as int;
    let py = pow2((54 - ny) as nat) as int;
    assert(45 * px * pow2(nx) == 45 * (px * pow2(nx))) by (nonlinear_arith);
    assert(45 * py * pow2(ny) == 45 * (py * pow2(ny))) by (nonlinear_arith);
}

/// The five bits of a value below 32 spell it.
pub proof fn lemma_five_bits_spell(v: int)
    requires
        0 <= v < 32,
    ensures
        bits_value(Seq::new(5, |j: int| symbol_bit(v, j))) == v,
{
    let b = Seq::new(5, |j: int| symbol_bit(v, j));
    let e = |i: int| if b[i] {
        1int
    } else {
        0int
    };
    assert(b.take(0).len() == 0);
    assert forall|m: int| 0 < m <= 5 implies bits_value(#[trigger] b.take(m)) == 2 * bits_value(
        b.take(m - 1),
    ) + e(m - 1) by {
        assert(b.take(m).drop_last() =~= b.take(m - 1));
    }
    assert(b.take(5) =~= b);
    lemma2_to64();
    assert((4 - 0) as nat == 4nat);
    assert((4 - 1) as nat == 3nat);
    assert((4 - 2) as nat == 2nat);
    assert((4 - 3) as nat == 1nat);
    assert((4 - 4) as nat == 0nat);
    assert(e(0) == (v / 16) % 2);
    assert(e(1) == (v / 8) % 2);
    assert(e(2) == (v / 4) % 2);
    assert(e(3) == (v / 2) % 2);
    assert(v / 1 == v);
    assert(e(4) == v % 2);
    assert(16 * ((v / 16) % 2) + 8 * ((v / 8) % 2) + 4 * ((v / 4) % 2) + 2 * ((v / 2) % 2) + v % 2
        == v);
}

/// On a grid of cells at least two units wide, bisection toward the centre
/// of the cell that some bits select reproduces those bits.
proof fn lemma_center_reproduces(bits: Seq<bool>, lo: int, hi: int, w: int, v: int)
    requires
        w >= 2,
        lo + w * pow2(bits.len()) == hi,
        v == midpoint(narrow_by(bits, lo, hi).0, narrow_by(bits, lo, hi).1),
    ensures
        Seq::new(bits.len(), |k: int| axis_bit(v, lo, hi, k as nat)) == bits,
{
    lemma_narrow_by_grid(bits, lo, w);
    let i = bits_value(bits) as int;
    assert((i + 1) * w == i * w + w) by (nonlinear_arith);
    assert(w * pow2(bits.len()) >= 0) by (nonlinear_arith)
        requires
            w >= 2,
            pow2(bits.len()) >= 0,
    ;
    lemma_bisect_reproduces(bits, v, lo, hi);
}

/// Encoding the centre of a valid hash's cell, at the hash's length, gives
/// the hash back (for hashes of up to 21 symbols, whose cells all have even
/// widths).
pub proof fn lemma_encode_decoded_center(s: Seq<char>, c: Coordinate)
    requires
        valid_hash(s),
        s.len() <= 21,
        c.x == midpoint(lon_bounds(hash_bits(s)).0, lon_bounds(hash_bits(s)).1),
        c.y == midpoint(lat_bounds(hash_bits(s)).0, lat_bounds(hash_bits(s)).1),
    ensures
        encoded(c, s.len()) == s,
{
    let bits = hash_bits(s);
    let n = 5 * s.len();
    let nx = (n + 1) / 2;
    let ny = n / 2;
    lemma_axis_grids(nx, ny);
    let (lon_lo, lat_lo) = (-LON_LIMIT as int, -LAT_LIMIT as int);
    lemma_center_reproduces(lon_bits(bits), lon_lo, LON_LIMIT as int, lon_cell_width(nx), c.x as int);
    lemma_center_reproduces(lat_bits(bits), lat_lo, LAT_LIMIT as int, lat_cell_width(ny), c.y as int);
    let lon_seq = Seq::new(nx, |k: int| axis_bit(c.x as int, lon_lo, LON_LIMIT as int, k as nat));
    let lat_seq = Seq::new(ny, |k: int| axis_bit(c.y as int, lat_lo, LAT_LIMIT as int, k as nat));
    assert forall|k: int| 0 <= k < n implies #[trigger] coord_bit(c, k as nat) == bits[k] by {
        if k % 2 == 0 {
            assert(lon_seq[k / 2] == lon_bits(bits)[k / 2]);
        } else {
            assert(lat_seq[k / 2] == lat_bits(bits)[k / 2]);
        }
    }
    assert forall|i: int| 0 <= i < s.len() implies #[trigger] encoded(c, s.len())[i] == s[i] by {
        let chunk = coord_bits(c, (5 * i + 5) as nat).subrange(5 * i, 5 * i + 5);
        let v = symbol_value(s[i]);
        assert(chunk =~= Seq::new(5, |j: int| symbol_bit(v, j))) by {
            assert forall|j: int| 0 <= j < 5 implies chunk[j] == symbol_bit(v, j) by {
                assert((5 * i + j) / 5 == i);
                assert((5 * i + j) % 5 == j);
                assert(coord_bit(c, (5 * i + j) as nat) == bits[5 * i + j]);
            }
        }
        assert(alphabet().contains(s[i]));
        let k = choose|k: int| 0 <= k < alphabet().len() && alphabet()[k] == s[i];
        lemma_symbol_value(k);
        lemma_five_bits_spell(v);
    }
    assert(encoded(c, s.len()) =~= s);
}

} // verus!
