//! The base-32 alphabet of geohash strings.
use vstd::prelude::*;

verus! {

/// Why a hash string could not be read.
#[derive(Clone, Copy, Debug, PartialEq, Eq, Structural)]
pub enum GeohashError {
    /// A character of the hash is not one of the 32 symbols.
    InvalidSymbol,
}

/// The 32 symbols, in the order of the 5-bit values they stand for.
pub open spec fn alphabet() -> Seq<char> {
    seq![
        '0', '1', '2', '3', '4', '5', '6', '7', '8', '9', 'b', 'c', 'd', 'e', 'f', 'g',
        'h', 'j', 'k', 'm', 'n', 'p', 'q', 'r', 's', 't', 'u', 'v', 'w', 'x', 'y', 'z',
    ]
}

/// The symbol for a 5-bit value.
pub fn symbol_for(value: u8) -> (r: char)
    requires
        value < 32,
    ensures
        r == alphabet()[value as int],
{
    match value {
        0 => '0',
        1 => '1',
        2 => '2',
        3 => '3',
        4 => '4',
        5 => '5',
        6 => '6',
        7 => '7',
        8 => '8',
        9 => '9',
        10 => 'b',
        11 => 'c',
        12 => 'd',
        13 => 'e',
        14 => 'f',
        15 => 'g',
        16 => 'h',
        17 => 'j',
        18 => 'k',
        19 => 'm',
        20 => 'n',
        21 => 'p',
        22 => 'q',
        23 => 'r',
        24 => 's',
        25 => 't',
        26 => 'u',
        27 => 'v',
        28 => 'w',
        29 => 'x',
        30 => 'y',
        _ => 'z',
    }
}

/// The 5-bit value of a symbol, or `InvalidSymbol` for a character outside the
/// alphabet.
pub fn value_for(symbol: char) -> (r: Result<u8, GeohashError>)
    ensures
        r is Ok <==> alphabet().contains(symbol),
        r matches Ok(v) ==> v < 32 && alphabet()[v as int] == symbol && v as int == symbol_value(
            symbol,
        ),
        r matches Err(e) ==> e == GeohashError::InvalidSymbol,
{
    let r = match symbol {
        '0' => Ok(0u8),
        '1' => Ok(1u8),
        '2' => Ok(2u8),
        '3' => Ok(3u8),
        '4' => Ok(4u8),
        '5' => Ok(5u8),
        '6' => Ok(6u8),
        '7' => Ok(7u8),
        '8' => Ok(8u8),
        '9' => Ok(9u8),
        'b' => Ok(10u8),
        'c' => Ok(11u8),
        'd' => Ok(12u8),
        'e' => Ok(13u8),
        'f' => Ok(14u8),
        'g' => Ok(15u8),
        'h' => Ok(16u8),
        'j' => Ok(17u8),
        'k' => Ok(18u8),
        'm' => Ok(19u8),
        'n' => Ok(20u8),
        'p' => Ok(21u8),
        'q' => Ok(22u8),
        'r' => Ok(23u8),
        's' => Ok(24u8),
        't' => Ok(25u8),
        'u' => Ok(26u8),
        'v' => Ok(27u8),
        'w' => Ok(28u8),
        'x' => Ok(29u8),
        'y' => Ok(30u8),
        'z' => Ok(31u8),
        _ => Err(GeohashError::InvalidSymbol),
    };
    proof {
        lemma_alphabet_distinct();
        if r is Err {
            assert forall|i: int| 0 <= i < 32 implies alphabet()[i] != symbol by {
                lemma_alphabet_distinct();
            }
        } else {
            assert(alphabet()[r->Ok_0 as int] == symbol);
            lemma_symbol_value(r->Ok_0 as int);
        }
    }
    r
}

/// The value that a character stands for, by a table read the other way
/// round; -1 for a character outside the alphabet.
pub open spec fn symbol_value(c: char) -> int {
    match c {
        '0' => 0,
        '1' => 1,
        '2' => 2,
        '3' => 3,
        '4' => 4,
        '5' => 5,
        '6' => 6,
        '7' => 7,
        '8' => 8,
        '9' => 9,
        'b' => 10,
        'c' => 11,
        'd' => 12,
        'e' => 13,
        'f' => 14,
        'g' => 15,
        'h' => 16,
        'j' => 17,
        'k' => 18,
        'm' => 19,
        'n' => 20,
        'p' => 21,
        'q' => 22,
        'r' => 23,
        's' => 24,
        't' => 25,
        'u' => 26,
        'v' => 27,
        'w' => 28,
        'x' => 29,
        'y' => 30,
        'z' => 31,
        _ => -1,
    }
}

/// Reading a symbol back gives its place in the alphabet.
pub proof fn lemma_symbol_value(i: int)
    requires
        0 <= i < 32,
    ensures
        symbol_value(alphabet()[i]) == i,
{
}

/// The alphabet is a bijection between the values 0 to 31 and its symbols:
/// the value read back from the symbol for `v` is `v`, and a character
/// outside the alphabet stands for no value.
pub proof fn lemma_alphabet_bijection(v: int)
    requires
        0 <= v < 32,
    ensures
        symbol_value(alphabet()[v]) == v,
        forall|c: char| !alphabet().contains(c) <==> symbol_value(c) == -1,
{
    lemma_symbol_value(v);
    assert forall|c: char| !alphabet().contains(c) <==> symbol_value(c) == -1 by {
        if alphabet().contains(c) {
            let i = choose|i: int| 0 <= i < alphabet().len() && alphabet()[i] == c;
            lemma_symbol_value(i);
        }
        if symbol_value(c) != -1 {
            assert(alphabet()[symbol_value(c)] == c);
        }
    }
}

/// Every symbol is an ASCII character.
pub proof fn lemma_alphabet_ascii()
    ensures
        forall|c: char| alphabet().contains(c) ==> c <= '\u{7f}',
{
    assert forall|c: char| alphabet().contains(c) implies c <= '\u{7f}' by {
        let i = choose|i: int| 0 <= i < alphabet().len() && alphabet()[i] == c;
        lemma_symbol_value(i);
    }
}

/// No symbol stands for two values.
pub proof fn lemma_alphabet_distinct()
    ensures
        alphabet().len() == 32,
        alphabet().no_duplicates(),
{
    assert forall|i: int, j: int| 0 <= i < j < 32 implies alphabet()[i] != alphabet()[j] by {
        lemma_symbol_value(i);
        lemma_symbol_value(j);
    }
}

} // verus!
