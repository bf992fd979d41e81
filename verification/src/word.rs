//! Four-byte words, least significant byte first.

use vstd::prelude::*;

verus! {

/// Number of bytes in a word.
pub const WORD_SIZE: usize = 4;

/// A 32-bit quantity as four cells, least significant byte first.
#[derive(Clone, Copy, Debug)]
pub struct Word<T>(pub [T; 4]);

/// Byte `i` of `x` in little-endian order; zero beyond the fourth byte.
#[verifier::opaque]
pub open spec fn le_byte(x: u32, i: int) -> int {
    if i == 0 {
        x as int % 256
    } else if i == 1 {
        (x as int / 256) % 256
    } else if i == 2 {
        (x as int / 65536) % 256
    } else if i == 3 {
        (x as int / 16777216) % 256
    } else {
        0
    }
}

/// The four little-endian bytes of `x`.
pub open spec fn le_bytes(x: u32) -> Seq<u8> {
    seq![
        le_byte(x, 0) as u8,
        le_byte(x, 1) as u8,
        le_byte(x, 2) as u8,
        le_byte(x, 3) as u8,
    ]
}

/// The word whose cells hold the bytes of `x`.
pub open spec fn word_of(x: u32) -> Word<u32> {
    Word(
        [
            le_byte(x, 0) as u32,
            le_byte(x, 1) as u32,
            le_byte(x, 2) as u32,
            le_byte(x, 3) as u32,
        ],
    )
}

/// Each byte lies below 256, and the bytes weighted by their place add up to
/// the number.
pub proof fn lemma_le_byte_bounds(x: u32)
    ensures
        forall|i: int| 0 <= #[trigger] le_byte(x, i) < 256,
        x as int == le_byte(x, 0) + 256 * le_byte(x, 1) + 65536 * le_byte(x, 2) + 16777216
            * le_byte(x, 3),
{
    reveal(le_byte);
}

/// A number written with four digits below 256 has those digits as its bytes.
pub proof fn lemma_le_byte_of_digits(x: u32, d0: int, d1: int, d2: int, d3: int)
    requires
        0 <= d0 < 256,
        0 <= d1 < 256,
        0 <= d2 < 256,
        0 <= d3 < 256,
        x as int == d0 + 256 * d1 + 65536 * d2 + 16777216 * d3,
    ensures
        le_byte(x, 0) == d0,
        le_byte(x, 1) == d1,
        le_byte(x, 2) == d2,
        le_byte(x, 3) == d3,
{
    reveal(le_byte);
}

/// Splits `x` into its little-endian bytes.
pub fn u32_to_le_bytes(x: u32) -> (bytes: [u8; 4])
    ensures
        bytes@ == le_bytes(x),
        forall|i: int| 0 <= i < 4 ==> bytes[i] as int == le_byte(x, i),
{
    reveal(le_byte);
    let bytes = [
        (x % 256) as u8,
        ((x / 256) % 256) as u8,
        ((x / 65536) % 256) as u8,
        ((x / 16777216) % 256) as u8,
    ];
    assert(bytes@ =~= le_bytes(x));
    bytes
}

impl Word<u32> {
    /// The word of the bytes of `x`, each byte in a cell of its own.
    pub fn from_u32(x: u32) -> (word: Self)
        ensures
            word == word_of(x),
    {
        reveal(le_byte);
        let cells = [x % 256, (x / 256) % 256, (x / 65536) % 256, (x / 16777216) % 256];
        assert(cells@ =~= word_of(x).0@);
        Word(cells)
    }
}

} // verus!
