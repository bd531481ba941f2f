use geohash::alphabet::{symbol_for, value_for, GeohashError};
use geohash::codec::{
    decode, decode_bbox, encode, encode_fixed_bits, Coordinate, LAT_LIMIT, LON_LIMIT,
    UNITS_PER_DEGREE,
};
use geohash::neighbor::{neighbor, neighbors, Direction};
use num_traits::Float;

const UNITS: f64 = UNITS_PER_DEGREE as f64;

fn coord(x: f64, y: f64) -> Coordinate {
    Coordinate { x: (x * UNITS).ceil() as i64, y: (y * UNITS).ceil() as i64 }
}

fn degrees(units: i64) -> f64 {
    units as f64 / UNITS
}

#[test]
fn test_encode() {
    let c0 = coord(112.5584f64, 37.8324f64);
    assert_eq!(encode(c0, 9usize), "ww8p1r4t8".to_string());
    let c1 = coord(117f64, 32f64);
    assert_eq!(encode(c1, 3usize), "wte".to_string());
}

#[test]
#[allow(deprecated)]
fn test_decode() {
    let (c, _, _) = decode("ww8p1r4t8").unwrap();
    assert_eq!(Float::abs_sub(degrees(c.y), 37.8324f64) < 1e-4f64, true);
    assert_eq!(Float::abs_sub(degrees(c.x), 112.5584f64) < 1e-4f64, true);
}

#[test]
fn test_neighbor() {
    let ns = neighbors("ww8p1r4t8").unwrap();
    assert_eq!(ns.sw, "ww8p1r4mr");
    assert_eq!(ns.s, "ww8p1r4t2");
    assert_eq!(ns.se, "ww8p1r4t3");
    assert_eq!(ns.w, "ww8p1r4mx");
    assert_eq!(ns.e, "ww8p1r4t9");
    assert_eq!(ns.nw, "ww8p1r4mz");
    assert_eq!(ns.n, "ww8p1r4tb");
    assert_eq!(ns.ne, "ww8p1r4tc");
}

#[test]
fn encode_five_and_ten_symbols() {
    let c = coord(-120.6623, 35.3003);
    assert_eq!(encode(c, 5), "9q60y");
    assert_eq!(encode(c, 10), "9q60y60rhs");
}

#[test]
fn encode_empty() {
    assert_eq!(encode(coord(10.0, 10.0), 0), "");
}

#[test]
fn decode_short_hash() {
    let (c, lon_err, lat_err) = decode("9g3q").unwrap();
    assert!((degrees(c.x) - (-99.31640625)).abs() < 1e-5);
    assert!((degrees(c.y) - 19.423828125).abs() < 1e-5);
    assert!((degrees(lon_err) - 0.17578125).abs() < 1e-5);
    assert!((degrees(lat_err) - 0.087890625).abs() < 1e-5);
}

#[test]
fn decode_exact_values() {
    let (c, lon_err, lat_err) = decode("9q60y").unwrap();
    assert_eq!(degrees(c.x), -120.65185546875);
    assert_eq!(degrees(c.y), 35.31005859375);
    assert_eq!(degrees(lon_err), 0.02197265625);
    assert_eq!(degrees(lat_err), 0.02197265625);
    let (_, lon_err, lat_err) = decode("9q60y60rhs").unwrap();
    assert_eq!(degrees(lon_err), 0.000005364418029785156);
    assert_eq!(degrees(lat_err), 0.000002682209014892578);
}

#[test]
fn decode_bbox_of_empty_hash_is_the_world() {
    let (lo, hi) = decode_bbox("").unwrap();
    assert_eq!((lo.x, lo.y, hi.x, hi.y), (-LON_LIMIT, -LAT_LIMIT, LON_LIMIT, LAT_LIMIT));
}

#[test]
fn decode_bbox_first_symbol() {
    let (lo, hi) = decode_bbox("s").unwrap();
    assert_eq!((degrees(lo.x), degrees(lo.y)), (0.0, 0.0));
    assert_eq!((degrees(hi.x), degrees(hi.y)), (45.0, 45.0));
}

#[test]
fn invalid_symbols_are_rejected() {
    for h in ["a", "9q6a", "WW8", "ww8i", "l", "o0", "9é"] {
        assert_eq!(decode_bbox(h), Err(GeohashError::InvalidSymbol));
        assert_eq!(decode(h), Err(GeohashError::InvalidSymbol));
        assert_eq!(neighbor(h, Direction::N), Err(GeohashError::InvalidSymbol));
        assert_eq!(neighbors(h), Err(GeohashError::InvalidSymbol));
    }
}

#[test]
fn alphabet_round_trip() {
    let table = "0123456789bcdefghjkmnpqrstuvwxyz";
    for (v, ch) in table.chars().enumerate() {
        assert_eq!(symbol_for(v as u8), ch);
        assert_eq!(value_for(symbol_for(v as u8)), Ok(v as u8));
    }
    for ch in ['a', 'i', 'l', 'o', 'A', 'Z', ' ', '!'] {
        assert_eq!(value_for(ch), Err(GeohashError::InvalidSymbol));
    }
}

#[test]
fn encode_then_decode_contains_point() {
    for (x, y) in [(112.5584, 37.8324), (-120.6623, 35.3003), (0.0, 0.0), (-180.0, -90.0), (180.0, 90.0)] {
        let c = coord(x, y);
        for len in 0..13 {
            let (lo, hi) = decode_bbox(&encode(c, len)).unwrap();
            assert!(lo.x <= c.x && c.x <= hi.x);
            assert!(lo.y <= c.y && c.y <= hi.y);
        }
    }
}

#[test]
fn longer_hash_narrows() {
    let h = "ww8p1r4t8";
    for n in 0..h.len() {
        let (lo0, hi0) = decode_bbox(&h[..n]).unwrap();
        let (lo1, hi1) = decode_bbox(&h[..n + 1]).unwrap();
        assert!(lo0.x <= lo1.x && lo1.x <= hi1.x && hi1.x <= hi0.x);
        assert!(lo0.y <= lo1.y && lo1.y <= hi1.y && hi1.y <= hi0.y);
        assert!(hi1.x - lo1.x < hi0.x - lo0.x || hi1.y - lo1.y < hi0.y - lo0.y);
    }
}

#[test]
fn fixed_bits_agree_with_string() {
    let c = coord(112.5584, 37.8324);
    let hash = encode(c, 9);
    let mut from_string: u64 = 0;
    for ch in hash.chars() {
        from_string = from_string * 32 + value_for(ch).unwrap() as u64;
    }
    assert_eq!(encode_fixed_bits(c, 45), from_string);
    assert_eq!(encode_fixed_bits(c, 5), value_for('w').unwrap() as u64);
    assert_eq!(encode_fixed_bits(c, 0), 0);
    let bits64 = encode_fixed_bits(c, 64);
    assert_eq!(bits64 >> 19, from_string);
}

#[test]
fn neighbors_of_short_hash() {
    let ns = neighbors("9g3m").unwrap();
    assert_eq!(ns.sw, "9g3h");
    assert_eq!(ns.s, "9g3k");
    assert_eq!(ns.se, "9g3s");
    assert_eq!(ns.w, "9g3j");
    assert_eq!(ns.e, "9g3t");
    assert_eq!(ns.nw, "9g3n");
    assert_eq!(ns.n, "9g3q");
    assert_eq!(ns.ne, "9g3w");
}

#[test]
fn north_then_south_returns() {
    for h in ["ww8p1r4t8", "9g3m", "9q60y60rhs", "u4pruyd"] {
        let north = neighbor(h, Direction::N).unwrap();
        assert_eq!(neighbor(&north, Direction::S).unwrap(), h);
        let east = neighbor(h, Direction::E).unwrap();
        assert_eq!(neighbor(&east, Direction::W).unwrap(), h);
    }
}

#[test]
fn direction_steps() {
    assert_eq!(Direction::N.to_tuple(), (1, 0));
    assert_eq!(Direction::Ne.to_tuple(), (1, 1));
    assert_eq!(Direction::E.to_tuple(), (0, 1));
    assert_eq!(Direction::Se.to_tuple(), (-1, 1));
    assert_eq!(Direction::S.to_tuple(), (-1, 0));
    assert_eq!(Direction::Sw.to_tuple(), (-1, -1));
    assert_eq!(Direction::W.to_tuple(), (0, -1));
    assert_eq!(Direction::Nw.to_tuple(), (1, -1));
}

#[test]
fn encoding_decoded_center_gives_hash_back() {
    for h in ["ww8p1r4t8", "9g3q", "9q60y60rhs", "s", "zzzzzzzzzzzz", "000000000000"] {
        let (c, _, _) = decode(h).unwrap();
        assert_eq!(encode(c, h.len()), h);
    }
}

#[test]
fn north_of_the_top_row_stays_put() {
    assert_eq!(neighbor("zz", Direction::N).unwrap(), "zz");
    assert_eq!(neighbor("zz", Direction::S).unwrap(), "zy");
}
