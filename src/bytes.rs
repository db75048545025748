//! Fixed-width integers read from byte buffers in either byte order, and the
//! conversion of byte strings to text.
use vstd::prelude::*;
use vstd::utf8::{decode_utf8, valid_utf8};

verus! {

/// The big-endian 32-bit integer stored at `s[i..i + 4]`.
pub open spec fn be32(s: Seq<u8>, i: int) -> nat {
    s[i] as nat * 0x100_0000 + s[i + 1] as nat * 0x1_0000 + s[i + 2] as nat * 0x100 + s[i
        + 3] as nat
}

/// The little-endian 32-bit integer stored at `s[i..i + 4]`.
pub open spec fn le32(s: Seq<u8>, i: int) -> nat {
    s[i + 3] as nat * 0x100_0000 + s[i + 2] as nat * 0x1_0000 + s[i + 1] as nat * 0x100 + s[i] as nat
}

/// The big-endian 64-bit integer stored at `s[i..i + 8]`.
pub open spec fn be64(s: Seq<u8>, i: int) -> nat {
    be32(s, i) * 0x1_0000_0000 + be32(s, i + 4)
}

/// Reads the big-endian `u32` at `s[i..i + 4]`.
pub fn read_be_u32(s: &[u8], i: usize) -> (r: u32)
    requires
        i + 4 <= s@.len(),
    ensures
        r as nat == be32(s@, i as int),
{
    let len: usize = s.len();
    let a: u32 = s[i] as u32;
    let b: u32 = s[i + 1] as u32;
    let c: u32 = s[i + 2] as u32;
    let d: u32 = s[i + 3] as u32;
    a * 0x100_0000 + b * 0x1_0000 + c * 0x100 + d
}

/// Reads the little-endian `u32` at `s[i..i + 4]`.
pub fn read_le_u32(s: &[u8], i: usize) -> (r: u32)
    requires
        i + 4 <= s@.len(),
    ensures
        r as nat == le32(s@, i as int),
{
    let len: usize = s.len();
    let a: u32 = s[i + 3] as u32;
    let b: u32 = s[i + 2] as u32;
    let c: u32 = s[i + 1] as u32;
    let d: u32 = s[i] as u32;
    a * 0x100_0000 + b * 0x1_0000 + c * 0x100 + d
}

/// Reads the big-endian `u64` at `s[i..i + 8]`.
pub fn read_be_u64(s: &[u8], i: usize) -> (r: u64)
    requires
        i + 8 <= s@.len(),
    ensures
        r as nat == be64(s@, i as int),
{
    let len: usize = s.len();
    let hi: u32 = read_be_u32(s, i);
    let j: usize = i + 4;
    let lo: u32 = read_be_u32(s, j);
    (hi as u64) * 0x1_0000_0000 + (lo as u64)
}

/// Relies on `String::from_utf8`: it accepts exactly the well-formed UTF-8
/// byte sequences and yields the characters they encode.
#[verifier::external_body]
pub fn utf8_to_string(bytes: Vec<u8>) -> (r: Option<String>)
    ensures
        r is Some <==> valid_utf8(bytes@),
        r matches Some(s) ==> s@ == decode_utf8(bytes@),
{
    String::from_utf8(bytes).ok()
}

} // verus!
