//! Little-endian 32-bit fields and four-byte alignment.
use vstd::prelude::*;

verus! {

/// `n` rounded up to the next multiple of four.
pub open spec fn aligned(n: int) -> int {
    n + (4 - n % 4) % 4
}

/// The byte at `i`, or zero past the end of `b`.
pub open spec fn byte_or_zero(b: Seq<u8>, i: int) -> int {
    if 0 <= i < b.len() {
        b[i] as int
    } else {
        0
    }
}

/// The value of the first four bytes of `b` read least significant first; missing bytes count
/// as zero.
pub open spec fn le_value(b: Seq<u8>) -> int {
    byte_or_zero(b, 0) + 256 * byte_or_zero(b, 1) + 65536 * byte_or_zero(b, 2) + 16777216
        * byte_or_zero(b, 3)
}

/// The weight of byte `i` in a little-endian word.
pub open spec fn byte_weight(i: int) -> int {
    if i == 0 {
        1
    } else if i == 1 {
        256
    } else if i == 2 {
        65536
    } else {
        16777216
    }
}

/// Byte `i` (0 to 3) of `v` in little-endian order.
#[verifier::opaque]
pub open spec fn le_byte(v: u32, i: int) -> u8 {
    ((v as int / byte_weight(i)) % 256) as u8
}

/// The four little-endian bytes of `v`.
pub open spec fn le_bytes(v: u32) -> Seq<u8> {
    seq![le_byte(v, 0), le_byte(v, 1), le_byte(v, 2), le_byte(v, 3)]
}

/// Rounds `size` up to the next multiple of four.
pub fn align_size(size: usize) -> (r: usize)
    requires
        aligned(size as int) <= usize::MAX,
    ensures
        r == aligned(size as int),
        r % 4 == 0,
        size <= r <= size + 3,
{
    size + (4 - (size % 4)) % 4
}

/// Reads a little-endian `u32` from the first four bytes of `buffer`; bytes past its end count
/// as zero.
pub fn read_u32(buffer: &[u8]) -> (r: u32)
    ensures
        r == le_value(buffer@),
{
    let n = buffer.len();
    let b0: u32 = if n > 0 { buffer[0] as u32 } else { 0 };
    let b1: u32 = if n > 1 { buffer[1] as u32 } else { 0 };
    let b2: u32 = if n > 2 { buffer[2] as u32 } else { 0 };
    let b3: u32 = if n > 3 { buffer[3] as u32 } else { 0 };
    b0 + b1 * 256 + b2 * 65536 + b3 * 16777216
}

/// Writes `value` little-endian into the first four bytes of `buffer` (fewer when it is shorter);
/// the rest of `buffer` is left as it was.
pub fn write_u32(buffer: &mut [u8], value: u32)
    ensures
        final(buffer)@.len() == old(buffer)@.len(),
        forall|i: int|
            0 <= i < 4 && i < old(buffer)@.len() ==> #[trigger] final(buffer)@[i] == le_byte(
                value,
                i,
            ),
        forall|i: int| 4 <= i < old(buffer)@.len() ==> #[trigger] final(buffer)@[i] == old(buffer)@[i],
{
    reveal(le_byte);
    let n = buffer.len();
    if n > 0 {
        buffer[0] = (value % 256) as u8;
    }
    if n > 1 {
        buffer[1] = ((value / 256) % 256) as u8;
    }
    if n > 2 {
        buffer[2] = ((value / 65536) % 256) as u8;
    }
    if n > 3 {
        buffer[3] = ((value / 16777216) % 256) as u8;
    }
}

/// Reading back four bytes that `write_u32` wrote gives the value written.
pub proof fn lemma_u32_round_trip(v: u32)
    ensures
        le_value(le_bytes(v)) == v,
{
    reveal(le_byte);
    let x = v as int;
    assert(x == x % 256 + 256 * ((x / 256) % 256) + 65536 * ((x / 65536) % 256) + 16777216 * ((
    x / 16777216) % 256)) by (nonlinear_arith)
        requires
            0 <= x < 0x1_0000_0000,
    ;
}

} // verus!
