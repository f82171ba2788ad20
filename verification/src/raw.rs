//! Little-endian fields of on-disk structures.
use crate::error::{failure, viewed, Error, ErrorKind, ErrorView};
use crate::text::{dec, push_dec_len};
use vstd::prelude::*;

verus! {

/// The little-endian number in `s[at..at + 4]`.
pub open spec fn le_u32(s: Seq<u8>, at: int) -> int {
    s[at] + 0x100 * s[at + 1] + 0x1_0000 * s[at + 2] + 0x100_0000 * s[at + 3]
}

/// The little-endian number in `s[at..at + 8]`.
pub open spec fn le_u64(s: Seq<u8>, at: int) -> int {
    le_u32(s, at) + 0x1_0000_0000 * le_u32(s, at + 4)
}

/// The error of reading `width` bytes at `at` out of `len` bytes.
pub open spec fn outside_error(width: nat, at: nat, len: nat) -> ErrorView {
    failure(
        ErrorKind::Corrupt,
        "field of "@ + dec(width) + " bytes at offset "@ + dec(at) + " is outside "@ + dec(len)
            + " bytes"@,
    )
}

/// What reading the 32-bit field at `at` gives.
pub open spec fn u32_field(s: Seq<u8>, at: nat) -> Result<u32, ErrorView> {
    if at + 4 <= s.len() {
        Ok(le_u32(s, at as int) as u32)
    } else {
        Err(outside_error(4, at, s.len()))
    }
}

/// What reading the 64-bit field at `at` gives.
pub open spec fn u64_field(s: Seq<u8>, at: nat) -> Result<u64, ErrorView> {
    if at + 8 <= s.len() {
        Ok(le_u64(s, at as int) as u64)
    } else {
        Err(outside_error(8, at, s.len()))
    }
}

fn outside(width: usize, at: usize, len: usize) -> (r: Error)
    ensures
        r@ == outside_error(width as nat, at as nat, len as nat),
{
    let mut message = "field of ".to_owned();
    push_dec_len(&mut message, width);
    message.append(" bytes at offset ");
    push_dec_len(&mut message, at);
    message.append(" is outside ");
    push_dec_len(&mut message, len);
    message.append(" bytes");
    Error::new(ErrorKind::Corrupt, message)
}

fn le_u32_value(data: &[u8], at: usize) -> (r: u32)
    requires
        at + 4 <= data@.len(),
    ensures
        r == le_u32(data@, at as int),
{
    data[at] as u32 + 0x100 * data[at + 1] as u32 + 0x1_0000 * data[at + 2] as u32 + 0x100_0000
        * data[at + 3] as u32
}

/// Reads the little-endian 32-bit field at byte `at`.
pub fn u32_at(data: &[u8], at: usize) -> (r: Result<u32, Error>)
    ensures
        viewed(r) == u32_field(data@, at as nat),
{
    if data.len() < 4 || at > data.len() - 4 {
        Err(outside(4, at, data.len()))
    } else {
        Ok(le_u32_value(data, at))
    }
}

/// Reads the little-endian 64-bit field at byte `at`.
pub fn u64_at(data: &[u8], at: usize) -> (r: Result<u64, Error>)
    ensures
        viewed(r) == u64_field(data@, at as nat),
{
    if data.len() < 8 || at > data.len() - 8 {
        Err(outside(8, at, data.len()))
    } else {
        let low: u32 = le_u32_value(data, at);
        let high: u32 = le_u32_value(data, at + 4);
        Ok(low as u64 + 0x1_0000_0000 * high as u64)
    }
}

/// The number that the `n` bytes of `s` from `at` on hold, the lowest first.
pub open spec fn number_at(s: Seq<u8>, at: int, n: nat) -> int
    decreases n,
{
    if n == 0 {
        0
    } else {
        s[at] + 256 * number_at(s, at + 1, (n - 1) as nat)
    }
}

/// A field is read from its bytes, lowest first; one that does not lie within the bytes is
/// refused as corrupt.
pub proof fn law_fields_are_read_from_their_bytes(s: Seq<u8>, at: nat)
    ensures
        u32_field(s, at) is Ok <==> at + 4 <= s.len(),
        u32_field(s, at) matches Ok(value) ==> value == number_at(s, at as int, 4),
        u32_field(s, at) matches Err(error) ==> error.kind == ErrorKind::Corrupt,
        u64_field(s, at) is Ok <==> at + 8 <= s.len(),
        u64_field(s, at) matches Ok(value) ==> value == number_at(s, at as int, 8),
        u64_field(s, at) matches Err(error) ==> error.kind == ErrorKind::Corrupt,
{
    reveal_with_fuel(number_at, 9);
}

} // verus!
