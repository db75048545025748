//! Fixed-bit-width packed forward index: dictionary ids stored in exactly `b`
//! bits each, concatenated into one big-endian bit stream (bit 0 of the stream
//! is the most significant bit of byte 0).
use vstd::arithmetic::div_mod::{lemma_div_denominator, lemma_fundamental_div_mod_converse, lemma_mod_breakdown};
use vstd::arithmetic::power2::{lemma2_to64, lemma_pow2_adds, lemma_pow2_pos, lemma_pow2_strictly_increases, lemma_pow2_unfold, pow2};
use vstd::bits::{lemma_u32_shl_is_mul, lemma_u32_shr_is_div, lemma_u32_low_bits_mask_is_mod, low_bits_mask};
use vstd::prelude::*;

use crate::error::{invalid_format, Error, Result};

verus! {

/// Size of the magic marker that precedes the packed stream.
pub const MAGIC_MARKER_SIZE: usize = 8;

/// Bit `k` of the stream held in `buf` (0 or 1); bit 0 is the most
/// significant bit of `buf[0]`.
pub open spec fn stream_bit(buf: Seq<u8>, k: int) -> nat {
    ((buf[k / 8] as nat / pow2((7 - k % 8) as nat)) % 2) as nat
}

/// The unsigned integer formed by the `len` stream bits starting at bit `start`,
/// first bit most significant.
pub open spec fn stream_bits(buf: Seq<u8>, start: int, len: nat) -> nat
    decreases len,
{
    if len == 0 {
        0
    } else {
        2 * stream_bits(buf, start, (len - 1) as nat) + stream_bit(buf, start + len - 1)
    }
}

/// The value at index `i` of a stream packed with `b` bits per value.
pub open spec fn packed_value(buf: Seq<u8>, b: nat, i: nat) -> nat {
    stream_bits(buf, (i * b) as int, b)
}

/// Whether the bits of value `i` lie inside a buffer of `len` bytes.
pub open spec fn value_in_buffer(len: nat, b: nat, i: nat) -> bool {
    (i + 1) * b <= 8 * len
}

/// Bit `k` of the stream that packs `vs` with `b` bits per value; bits past
/// the last value are zero.
pub open spec fn value_bit(vs: Seq<u32>, b: nat, k: int) -> nat {
    if 0 <= k < vs.len() * b {
        ((vs[k / (b as int)] as nat / pow2((b - 1 - k % (b as int)) as nat)) % 2) as nat
    } else {
        0
    }
}

/// The integer formed by `len` bits of the packing of `vs`, starting at bit `start`.
pub open spec fn value_bits(vs: Seq<u32>, b: nat, start: int, len: nat) -> nat
    decreases len,
{
    if len == 0 {
        0
    } else {
        2 * value_bits(vs, b, start, (len - 1) as nat) + value_bit(vs, b, start + len - 1)
    }
}

/// The bytes obtained by packing `vs` with `b` bits per value, as the encoder
/// of the format writes them (the last byte is padded with zero bits).
pub open spec fn pack(vs: Seq<u32>, b: nat) -> Seq<u8> {
    Seq::new(
        ((vs.len() * b + 7) / 8) as nat,
        |j: int| value_bits(vs, b, 8 * j, 8) as u8,
    )
}

/// Reader over a packed stream of `num_values` values of `bits_per_value` bits.
pub struct FixedBitWidthReader {
    buffer: Vec<u8>,
    bits_per_value: u8,
    num_values: u32,
}

impl FixedBitWidthReader {
    /// The packed bytes (without the magic marker).
    pub closed spec fn spec_buffer(&self) -> Seq<u8> {
        self.buffer@
    }

    pub closed spec fn spec_bits_per_value(&self) -> nat {
        self.bits_per_value as nat
    }

    pub closed spec fn spec_num_values(&self) -> nat {
        self.num_values as nat
    }

    /// Bit widths outside 1..=31 are not a valid packing.
    pub open spec fn wf(&self) -> bool {
        1 <= self.spec_bits_per_value() <= 31
    }

    /// Whether value `i` can be decoded: in range and inside the buffer.
    pub open spec fn decodable(&self, i: nat) -> bool {
        i < self.spec_num_values() && value_in_buffer(
            self.spec_buffer().len(),
            self.spec_bits_per_value(),
            i,
        )
    }

    /// A reader over an already extracted packed stream.
    pub fn new(buffer: Vec<u8>, bits_per_value: u8, num_values: u32) -> (r: Self)
        requires
            1 <= bits_per_value <= 31,
        ensures
            r.wf(),
            r.spec_buffer() == buffer@,
            r.spec_bits_per_value() == bits_per_value,
            r.spec_num_values() == num_values,
    {
        FixedBitWidthReader { buffer, bits_per_value, num_values }
    }

    /// Take the forward index that occupies `data[offset .. offset + size]`:
    /// an 8-byte magic marker (skipped, not checked) followed by the packed stream.
    pub fn read(data: &[u8], offset: usize, size: usize, bits_per_value: u8, num_values: u32) -> (r:
        Result<Self>)
        ensures
            r is Ok <==> (offset + size <= data@.len() && size >= MAGIC_MARKER_SIZE && 1
                <= bits_per_value <= 31),
            r is Err ==> r->Err_0 is InvalidFormat,
            r matches Ok(rd) ==> {
                &&& rd.wf()
                &&& rd.spec_buffer() == data@.subrange(
                    offset + MAGIC_MARKER_SIZE,
                    offset + size,
                )
                &&& rd.spec_bits_per_value() == bits_per_value
                &&& rd.spec_num_values() == num_values
            },
    {
        if size < MAGIC_MARKER_SIZE {
            return Err(invalid_format("Forward index too small to contain magic marker"));
        }
        if offset > data.len() || size > data.len() - offset {
            return Err(invalid_format("Forward index extends past the end of the data"));
        }
        if bits_per_value < 1 || bits_per_value > 31 {
            return Err(invalid_format("Bits per value must lie in 1..=31"));
        }
        let buffer = slice_to_vec(data, offset + MAGIC_MARKER_SIZE, offset + size);
        Ok(FixedBitWidthReader { buffer, bits_per_value, num_values })
    }

    /// The text of the error that `get_dict_id(i)` reports.
    pub open spec fn dict_id_error_text(&self, i: nat) -> Seq<char> {
        if i >= self.spec_num_values() {
            "doc_id out of range"@
        } else {
            "Packed value extends past the end of the buffer"@
        }
    }

    /// The dictionary id stored for document `doc_id`.
    pub fn get_dict_id(&self, doc_id: u32) -> (r: Result<u32>)
        requires
            self.wf(),
        ensures
            r is Ok <==> self.decodable(doc_id as nat),
            r matches Ok(v) ==> v as nat == packed_value(
                self.spec_buffer(),
                self.spec_bits_per_value(),
                doc_id as nat,
            ),
            r is Err ==> (r matches Err(Error::InvalidFormat(m)) && m@ == self.dict_id_error_text(
                doc_id as nat,
            )),
    {
        if doc_id >= self.num_values {
            return Err(Error::InvalidFormat("doc_id out of range".to_owned()));
        }
        let ghost buf = self.buffer@;
        let b: u64 = self.bits_per_value as u64;
        proof {
            assert((doc_id as u64) * b <= 0xFFFF_FFFFu64 * 31) by (nonlinear_arith)
                requires
                    b <= 31,
            ;
        }
        let bit_offset: u64 = (doc_id as u64) * b;
        let byte_offset: u64 = bit_offset / 8;
        let lead: u64 = bit_offset % 8;
        proof {
            assert(byte_offset * 8 + lead == bit_offset);
            assert(bit_offset + b - 1 < 8 * buf.len() <==> value_in_buffer(
                buf.len(),
                b as nat,
                doc_id as nat,
            )) by (nonlinear_arith)
                requires
                    bit_offset == doc_id * b,
            ;
        }
        if byte_offset >= self.buffer.len() as u64 {
            return Err(Error::InvalidFormat("Packed value extends past the end of the buffer".to_owned()));
        }
        let x: u32 = self.buffer[byte_offset as usize] as u32;
        let lead32: u32 = lead as u32;
        let b32: u32 = b as u32;
        let acc: u32 = x & (0xFFu32 >> lead32);
        proof {
            lemma_byte_window(buf, byte_offset as int, lead as int, (8 - lead) as nat);
            assert(x & (0xFFu32 >> lead32) == (x >> 0u32) & (((1u32 << ((8 - lead32) as u32)) - 1) as u32))
                by (bit_vector)
                requires
                    x < 256,
                    lead32 < 8,
            ;
            lemma_shift_mask(x, 0, (8 - lead32) as u32);
        }
        if b32 <= 8 - lead32 {
            let shift: u32 = 8 - lead32 - b32;
            let v: u32 = acc >> shift;
            proof {
                assert((x & (0xFFu32 >> lead32)) >> shift == (x >> shift) & (((1u32 << b32) - 1) as u32))
                    by (bit_vector)
                    requires
                        x < 256,
                        lead32 < 8,
                        shift == 8 - lead32 - b32,
                        b32 <= 8 - lead32,
                ;
                lemma_byte_window(buf, byte_offset as int, lead as int, b as nat);
                lemma_shift_mask(x, shift, b32);
                assert(bit_offset + b - 1 < 8 * byte_offset + 8);
            }
            return Ok(v);
        }
        proof {
            lemma_stream_bits_bound(buf, bit_offset as int, (8 - lead) as nat);
        }
        let mut acc: u32 = acc;
        let mut remaining: u32 = b32 - (8 - lead32);
        let mut pos: usize = (byte_offset + 1) as usize;
        while remaining > 8
            invariant
                buf == self.buffer@,
                1 <= b32 <= 31,
                b32 == b,
                doc_id < self.num_values,
                bit_offset + b - 1 < 8 * buf.len() <==> self.decodable(doc_id as nat),
                bit_offset == byte_offset * 8 + lead,
                lead < 8,
                pos >= 1,
                8 * pos == bit_offset + (b32 - remaining),
                remaining >= 1,
                remaining < b32,
                acc as nat == stream_bits(buf, bit_offset as int, (b32 - remaining) as nat),
                acc < pow2((b32 - remaining) as nat),
            decreases remaining,
        {
            if pos >= self.buffer.len() {
                proof {
                    assert(bit_offset + b - 1 >= 8 * buf.len());
                }
                return Err(Error::InvalidFormat("Packed value extends past the end of the buffer".to_owned()));
            }
            let y: u32 = self.buffer[pos] as u32;
            proof {
                let consumed = (b32 - remaining) as nat;
                lemma_pow2_strictly_increases(consumed, 23);
                lemma2_to64();
                assert(acc < 0x80_0000u32);
                assert((acc << 8u32) | y == acc * 256 + y) by (bit_vector)
                    requires
                        acc < 0x80_0000u32,
                        y < 256,
                ;
                lemma_byte_window(buf, pos as int, 0, 8);
                lemma_shift_mask(y, 0, 8);
                assert(y & 255 == y) by (bit_vector)
                    requires
                        y < 256,
                ;
                lemma_stream_concat(buf, bit_offset as int, consumed, 8);
                lemma_stream_bits_bound(buf, bit_offset as int, consumed + 8);
                assert(pow2(0) == 1 && pow2(8) == 256);
                assert(buf[pos as int] as nat / 1 == buf[pos as int] as nat);
                assert(y as nat % 256 == y as nat);
                assert(stream_bits(buf, 8 * pos + 0, 8) == y);
                assert(bit_offset + consumed == 8 * pos);
                assert(stream_bits(buf, bit_offset as int, consumed + 8) == acc * 256 + y);
            }
            acc = (acc << 8) | y;
            remaining = remaining - 8;
            pos = pos + 1;
        }
        if pos >= self.buffer.len() {
            proof {
                assert(bit_offset + b - 1 >= 8 * buf.len());
            }
            return Err(Error::InvalidFormat("Packed value extends past the end of the buffer".to_owned()));
        }
        let y: u32 = self.buffer[pos] as u32;
        let lo: u32 = y >> (8 - remaining);
        let v: u32 = (acc << remaining) | lo;
        proof {
            let consumed = (b32 - remaining) as nat;
            lemma_byte_window(buf, pos as int, 0, remaining as nat);
            lemma_shift_mask(y, (8 - remaining) as u32, remaining);
            assert((y >> ((8 - remaining) as u32)) & (((1u32 << remaining) - 1) as u32) == y >> ((8 - remaining) as u32))
                by (bit_vector)
                requires
                    y < 256,
                    1 <= remaining <= 8,
            ;
            assert(lo < (1u32 << remaining)) by (bit_vector)
                requires
                    y < 256,
                    1 <= remaining <= 8,
                    lo == y >> ((8 - remaining) as u32),
            ;
            assert((acc << remaining) | lo == (acc << remaining) + lo) by (bit_vector)
                requires
                    lo < (1u32 << remaining),
                    1 <= remaining <= 8,
            ;
            lemma_pow2_adds(consumed, remaining as nat);
            if b32 < 31 {
                lemma_pow2_strictly_increases(b32 as nat, 31);
            }
            lemma2_to64();
            assert(acc * pow2(remaining as nat) < pow2(b32 as nat)) by (nonlinear_arith)
                requires
                    acc < pow2(consumed),
                    pow2(b32 as nat) == pow2(consumed) * pow2(remaining as nat),
                    pow2(remaining as nat) > 0,
            ;
            lemma_pow2_pos(remaining as nat);
            lemma_u32_shl_is_mul(acc, remaining);
            lemma_u32_shl_values(remaining);
            lemma_stream_concat(buf, bit_offset as int, consumed, remaining as nat);
        }
        Ok(v)
    }

    /// Every dictionary id of the stream, in document order.
    pub fn read_all(&self) -> (r: Result<Vec<u32>>)
        requires
            self.wf(),
        ensures
            r is Ok <==> forall|i: nat| i < self.spec_num_values() ==> self.decodable(i),
            r matches Ok(v) ==> {
                &&& v@.len() == self.spec_num_values()
                &&& forall|i: int|
                    0 <= i < v@.len() ==> v@[i] as nat == packed_value(
                        self.spec_buffer(),
                        self.spec_bits_per_value(),
                        i as nat,
                    )
            },
            r is Err ==> exists|i: nat|
                #![trigger self.decodable(i)]
                i < self.spec_num_values() && !self.decodable(i) && (forall|j: nat|
                    j < i ==> self.decodable(j)) && (r matches Err(Error::InvalidFormat(m)) && m@
                    == self.dict_id_error_text(i)),
    {
        let mut ids: Vec<u32> = Vec::new();
        let mut doc: u32 = 0;
        while doc < self.num_values
            invariant
                self.wf(),
                doc <= self.num_values,
                ids@.len() == doc,
                forall|i: nat| i < doc ==> self.decodable(i),
                forall|i: int|
                    0 <= i < ids@.len() ==> ids@[i] as nat == packed_value(
                        self.spec_buffer(),
                        self.spec_bits_per_value(),
                        i as nat,
                    ),
            decreases self.num_values - doc,
        {
            match self.get_dict_id(doc) {
                Ok(v) => ids.push(v),
                Err(e) => return Err(e),
            }
            doc = doc + 1;
        }
        Ok(ids)
    }
}

/// A copy of `data[start..end]`.
pub fn slice_to_vec(data: &[u8], start: usize, end: usize) -> (r: Vec<u8>)
    requires
        start <= end <= data@.len(),
    ensures
        r@ == data@.subrange(start as int, end as int),
{
    let mut out: Vec<u8> = Vec::new();
    let mut i: usize = start;
    while i < end
        invariant
            start <= i <= end <= data@.len(),
            out@ == data@.subrange(start as int, i as int),
        decreases end - i,
    {
        out.push(data[i]);
        i = i + 1;
        proof {
            assert(out@ =~= data@.subrange(start as int, i as int));
        }
    }
    out
}

proof fn lemma_u32_shl_values(n: u32)
    requires
        n < 32,
    ensures
        (1u32 << n) as nat == pow2(n as nat),
        (((1u32 << n) - 1) as u32) as nat == low_bits_mask(n as nat),
{
    lemma_pow2_strictly_increases(n as nat, 32);
    lemma_pow2_pos(n as nat);
    lemma2_to64();
    lemma_u32_shl_is_mul(1, n);
}

/// `(x >> shift) & mask(len)` as arithmetic on naturals.
proof fn lemma_shift_mask(x: u32, shift: u32, len: u32)
    requires
        shift < 32,
        len < 32,
    ensures
        ((x >> shift) & (((1u32 << len) - 1) as u32)) as nat == (x as nat / pow2(shift as nat)) % pow2(
            len as nat,
        ),
{
    lemma_u32_shl_values(len);
    lemma_u32_shr_is_div(x, shift);
    lemma_u32_low_bits_mask_is_mod(x >> shift, len as nat);
    lemma_u32_pow2_fits(len as nat);
}

proof fn lemma_u32_pow2_fits(n: nat)
    requires
        n < 32,
    ensures
        pow2(n) as u32 as nat == pow2(n),
{
    lemma_pow2_strictly_increases(n, 32);
    lemma2_to64();
}

/// A window of one byte of the stream is the matching slice of that byte's bits.
pub proof fn lemma_byte_window(buf: Seq<u8>, k: int, s: int, len: nat)
    requires
        0 <= k < buf.len(),
        0 <= s,
        s + len <= 8,
    ensures
        stream_bits(buf, 8 * k + s, len) == (buf[k] as nat / pow2((8 - s - len) as nat)) % pow2(
            len,
        ),
    decreases len,
{
    let x = buf[k] as nat;
    if len == 0 {
        lemma2_to64();
    } else {
        let l1 = (len - 1) as nat;
        lemma_byte_window(buf, k, s, l1);
        let e = (8 - s - len) as nat;
        let y = x / pow2(e);
        lemma_pow2_pos(e);
        lemma_pow2_pos(l1);
        lemma_pow2_unfold(e + 1);
        lemma_div_denominator(x as int, pow2(e) as int, 2);
        assert(pow2(e) * 2 == pow2(e + 1)) by (nonlinear_arith)
            requires
                pow2(e + 1) == 2 * pow2(e),
        ;
        assert(x / pow2((8 - s - l1) as nat) == y / 2);
        lemma_mod_breakdown(y as int, 2, pow2(l1) as int);
        lemma_pow2_unfold(len);
        assert((8 * k + s + len - 1) / 8 == k && (8 * k + s + len - 1) % 8 == s + len - 1) by {
            lemma_fundamental_div_mod_converse(8 * k + s + len - 1, 8, k, s + len - 1);
        }
        assert(stream_bit(buf, 8 * k + s + len - 1) == y % 2);
    }
}

/// The integer of `a + c` stream bits is the first `a` bits shifted left by `c`
/// plus the next `c` bits.
pub proof fn lemma_stream_concat(buf: Seq<u8>, start: int, a: nat, c: nat)
    ensures
        stream_bits(buf, start, a + c) == stream_bits(buf, start, a) * pow2(c) + stream_bits(
            buf,
            start + a,
            c,
        ),
    decreases c,
{
    if c == 0 {
        lemma2_to64();
    } else {
        let c1 = (c - 1) as nat;
        lemma_stream_concat(buf, start, a, c1);
        lemma_pow2_unfold(c);
        let hi = stream_bits(buf, start, a);
        assert(2 * (hi * pow2(c1)) == hi * pow2(c)) by (nonlinear_arith)
            requires
                pow2(c) == 2 * pow2(c1),
        ;
        assert(stream_bits(buf, start, a + c) == 2 * stream_bits(buf, start, a + c1)
            + stream_bit(buf, start + a + c - 1));
    }
}

/// `len` stream bits form an integer below `2^len`.
pub proof fn lemma_stream_bits_bound(buf: Seq<u8>, start: int, len: nat)
    ensures
        stream_bits(buf, start, len) < pow2(len),
    decreases len,
{
    if len == 0 {
        lemma2_to64();
    } else {
        lemma_stream_bits_bound(buf, start, (len - 1) as nat);
        lemma_pow2_unfold(len);
    }
}

/// The packing of `vs` holds `value_bit` bit for bit.
proof fn lemma_value_bits_bound(vs: Seq<u32>, b: nat, start: int, len: nat)
    ensures
        value_bits(vs, b, start, len) < pow2(len),
    decreases len,
{
    lemma2_to64();
    if len > 0 {
        lemma_value_bits_bound(vs, b, start, (len - 1) as nat);
        lemma_pow2_unfold(len);
    }
}

/// Bit `t` (most significant first) of `value_bits(.., start, len)` is `value_bit(start + t)`.
proof fn lemma_value_bits_digit(vs: Seq<u32>, b: nat, start: int, len: nat, t: nat)
    requires
        t < len,
    ensures
        (value_bits(vs, b, start, len) / pow2((len - 1 - t) as nat)) % 2 == value_bit(
            vs,
            b,
            start + t,
        ),
    decreases len,
{
    lemma2_to64();
    let l1 = (len - 1) as nat;
    let v = value_bits(vs, b, start, l1);
    let bit = value_bit(vs, b, start + l1);
    assert(bit < 2);
    if t == l1 {
        assert((2 * v + bit) / 1 == 2 * v + bit);
        assert((2 * v + bit) % 2 == bit) by (nonlinear_arith)
            requires
                bit < 2,
        ;
    } else {
        lemma_value_bits_digit(vs, b, start, l1, t);
        let e = (l1 - 1 - t) as nat;
        lemma_pow2_pos(e);
        lemma_pow2_unfold(e + 1);
        assert(2 * pow2(e) == pow2(e + 1));
        lemma_div_denominator((2 * v + bit) as int, 2, pow2(e) as int);
        assert((2 * v + bit) / 2 == v) by (nonlinear_arith)
            requires
                bit < 2,
        ;
        assert((len - 1 - t) as nat == e + 1);
    }
}

/// Stream bit `k` of `pack(vs, b)` is bit `k` of the packing.
proof fn lemma_pack_bit(vs: Seq<u32>, b: nat, k: int)
    requires
        0 <= k < 8 * pack(vs, b).len(),
    ensures
        stream_bit(pack(vs, b), k) == value_bit(vs, b, k),
{
    let j = k / 8;
    let t = k % 8;
    lemma_value_bits_bound(vs, b, 8 * j, 8);
    lemma2_to64();
    let byte = value_bits(vs, b, 8 * j, 8);
    assert(pack(vs, b)[j] as nat == byte);
    lemma_value_bits_digit(vs, b, 8 * j, 8, t as nat);
    assert(8 * j + t == k);
}

/// A stream window whose bits are the binary digits of `x` holds `x`.
proof fn lemma_stream_bits_digits(buf: Seq<u8>, start: int, len: nat, x: nat)
    requires
        x < pow2(len),
        forall|t: nat| t < len ==> #[trigger] stream_bit(buf, start + t) == (x / pow2((len - 1 - t) as nat)) % 2,
    ensures
        stream_bits(buf, start, len) == x,
    decreases len,
{
    lemma2_to64();
    if len == 0 {
    } else {
        let l1 = (len - 1) as nat;
        let xh = x / 2;
        lemma_pow2_unfold(len);
        assert(xh < pow2(l1));
        assert forall|t: nat| t < l1 implies #[trigger] stream_bit(buf, start + t) == (xh / pow2(
            (l1 - 1 - t) as nat,
        )) % 2 by {
            let e = (l1 - 1 - t) as nat;
            lemma_pow2_pos(e);
            lemma_pow2_unfold(e + 1);
            lemma_div_denominator(x as int, 2, pow2(e) as int);
            assert((len - 1 - t) as nat == e + 1);
            assert(2 * pow2(e) == pow2(e + 1));
        }
        lemma_stream_bits_digits(buf, start, l1, xh);
        assert(stream_bit(buf, start + l1) == (x / pow2(0)) % 2);
        assert(x / 1 == x);
    }
}

/// Packing values of `b` bits each and decoding the stream with the reader's
/// algorithm gives back every value.
pub proof fn lemma_pack_round_trip(vs: Seq<u32>, b: nat)
    requires
        1 <= b <= 31,
        forall|i: int| 0 <= i < vs.len() ==> (vs[i] as nat) < pow2(b),
    ensures
        forall|i: nat| i < vs.len() ==> #[trigger] value_in_buffer(pack(vs, b).len(), b, i),
        forall|i: nat| i < vs.len() ==> #[trigger] packed_value(pack(vs, b), b, i) == vs[i as int],
{
    let m = vs.len();
    let plen = pack(vs, b).len();
    assert(m * b <= 8 * plen) by {
        let n = m * b;
        assert(plen == (n + 7) / 8);
        vstd::arithmetic::div_mod::lemma_fundamental_div_mod((n + 7) as int, 8);
    }
    assert forall|i: nat| i < vs.len() implies #[trigger] value_in_buffer(pack(vs, b).len(), b, i) by {
        assert((i + 1) * b <= m * b) by (nonlinear_arith)
            requires
                i < m,
        ;
    }
    assert forall|i: nat| i < vs.len() implies #[trigger] packed_value(pack(vs, b), b, i) == vs[i as int] by {
        assert((i + 1) * b <= m * b) by (nonlinear_arith)
            requires
                i < m,
        ;
        assert forall|t: nat| t < b implies #[trigger] stream_bit(pack(vs, b), (i * b) as int + t) == (vs[i as int]
            as nat / pow2((b - 1 - t) as nat)) % 2 by {
            assert(i * b + t < (i + 1) * b) by (nonlinear_arith)
                requires
                    t < b,
            ;
            lemma_pack_bit(vs, b, (i * b + t) as int);
            lemma_fundamental_div_mod_converse((i * b + t) as int, b as int, i as int, t as int);
        }
        lemma_stream_bits_digits(pack(vs, b), (i * b) as int, b, vs[i as int] as nat);
    }
}

} // verus!
