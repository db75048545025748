//! Column dictionaries: an 8-byte big-endian magic marker followed by the
//! distinct values of a column, fixed-width big-endian numbers or strings.
use vstd::prelude::*;
use vstd::utf8::{decode_utf8, valid_utf8};

use crate::bytes::{be32, be64, read_be_u32, read_be_u64, utf8_to_string};
use crate::error::{invalid_format, unsupported, Error, Result};
use crate::fixed_bit::slice_to_vec;
use crate::metadata::DataType;

verus! {

/// The marker that opens every dictionary and forward index.
pub const MAGIC_MARKER: u64 = 0xDEAD_BEEF_DEAF_BEAD;

/// The values of a dictionary, by type. Floating-point values are kept as
/// their IEEE-754 bit patterns.
#[derive(Debug)]
pub enum DictionaryValue {
    Int(Vec<i32>),
    Long(Vec<i64>),
    Float(Vec<u32>),
    Double(Vec<u64>),
    String(Vec<String>),
}

/// A decoded dictionary, giving random access to its values by id.
#[derive(Debug)]
pub struct DictionaryReader {
    pub values: DictionaryValue,
}

/// Whether an 8-byte magic marker starts at `offset`.
pub open spec fn magic_at(data: Seq<u8>, offset: int) -> bool {
    offset + 8 <= data.len() && be64(data, offset) == MAGIC_MARKER as nat
}

/// `b` cut at its first zero byte.
pub open spec fn until_nul(b: Seq<u8>) -> Seq<u8>
    decreases b.len(),
{
    if b.len() == 0 {
        b
    } else if b[0] == 0 {
        seq![]
    } else {
        seq![b[0]] + until_nul(b.drop_first())
    }
}

/// `n` strings, each a 4-byte big-endian length followed by that many bytes,
/// starting at `pos`; `None` when they run past the end of `data`.
pub open spec fn prefixed_entries(data: Seq<u8>, pos: int, n: nat) -> Option<Seq<Seq<u8>>>
    decreases n,
{
    if n == 0 {
        Some(seq![])
    } else if pos < 0 || pos + 4 > data.len() {
        None
    } else {
        let end = pos + 4 + be32(data, pos);
        if end > data.len() {
            None
        } else {
            match prefixed_entries(data, end, (n - 1) as nat) {
                Some(rest) => Some(seq![data.subrange(pos + 4, end)] + rest),
                None => None,
            }
        }
    }
}

/// The raw bytes of the `n` string entries starting at `base`: fixed slots of
/// `width` bytes cut at the first zero byte, or length-prefixed when `width` is 0.
pub open spec fn string_entries(data: Seq<u8>, base: int, n: nat, width: nat) -> Option<Seq<Seq<u8>>> {
    if width > 0 {
        if base + width * n <= data.len() {
            Some(
                Seq::new(
                    n,
                    |k: int| until_nul(data.subrange(base + width * k, base + width * k + width)),
                ),
            )
        } else {
            None
        }
    } else {
        prefixed_entries(data, base, n)
    }
}

proof fn lemma_prefixed_entries_len(data: Seq<u8>, pos: int, n: nat)
    requires
        prefixed_entries(data, pos, n) is Some,
    ensures
        prefixed_entries(data, pos, n)->0.len() == n,
    decreases n,
{
    if n > 0 {
        let end = pos + 4 + be32(data, pos);
        lemma_prefixed_entries_len(data, end, (n - 1) as nat);
    }
}

/// The string entries, when they fit, number exactly `n`.
pub proof fn lemma_string_entries_len(data: Seq<u8>, base: int, n: nat, width: nat)
    requires
        string_entries(data, base, n, width) is Some,
    ensures
        string_entries(data, base, n, width)->0.len() == n,
{
    if width == 0 {
        lemma_prefixed_entries_len(data, base, n);
    }
}

/// Whether every entry is well-formed UTF-8.
pub open spec fn all_utf8(es: Seq<Seq<u8>>) -> bool {
    forall|k: int| 0 <= k < es.len() ==> valid_utf8(#[trigger] es[k])
}

/// Width in bytes of a fixed-width numeric dictionary entry.
pub open spec fn numeric_width(dt: DataType) -> nat {
    match dt {
        DataType::Int | DataType::Float => 4,
        DataType::Long | DataType::Double => 8,
        _ => 0,
    }
}

/// Whether the dictionary entries fit in `data` after the marker at `offset`.
pub open spec fn entries_fit(data: Seq<u8>, offset: int, dt: DataType, n: nat, width: nat) -> bool {
    match dt {
        DataType::String => string_entries(data, offset + 8, n, width) is Some,
        _ => offset + 8 + numeric_width(dt) * n <= data.len(),
    }
}

/// Whether a dictionary of this type can be decoded at all.
pub open spec fn dictionary_type(dt: DataType) -> bool {
    !(dt is Bytes || dt is Boolean)
}

/// What the decoded dictionary holds for `data`, given that it decodes.
pub open spec fn dictionary_holds(v: DictionaryValue, data: Seq<u8>, offset: int, dt: DataType, n: nat, width: nat) -> bool {
    let base = offset + 8;
    match dt {
        DataType::Int => v matches DictionaryValue::Int(xs) && xs@ == Seq::new(
            n,
            |k: int| be32(data, base + 4 * k) as u32 as i32,
        ),
        DataType::Long => v matches DictionaryValue::Long(xs) && xs@ == Seq::new(
            n,
            |k: int| be64(data, base + 8 * k) as u64 as i64,
        ),
        DataType::Float => v matches DictionaryValue::Float(xs) && xs@ == Seq::new(
            n,
            |k: int| be32(data, base + 4 * k) as u32,
        ),
        DataType::Double => v matches DictionaryValue::Double(xs) && xs@ == Seq::new(
            n,
            |k: int| be64(data, base + 8 * k) as u64,
        ),
        DataType::String => v matches DictionaryValue::String(xs) && xs@.map_values(
            |s: String| s@,
        ) == string_entries(data, base, n, width)->0.map_values(|b: Seq<u8>| decode_utf8(b)),
        _ => false,
    }
}

fn read_u32_entries(data: &[u8], base: usize, n: u32) -> (r: Vec<u32>)
    requires
        base + 4 * n <= data@.len(),
    ensures
        r@ == Seq::new(n as nat, |k: int| be32(data@, base + 4 * k) as u32),
{
    let mut out: Vec<u32> = Vec::new();
    let mut k: u32 = 0;
    let dlen: usize = data.len();
    while k < n
        invariant
            k <= n,
            dlen == data@.len(),
            base + 4 * n <= data@.len(),
            out@ == Seq::new(k as nat, |j: int| be32(data@, base + 4 * j) as u32),
        decreases n - k,
    {
        let v = read_be_u32(data, base + 4 * (k as usize));
        out.push(v);
        k = k + 1;
        proof {
            assert(out@ =~= Seq::new(k as nat, |j: int| be32(data@, base + 4 * j) as u32));
        }
    }
    out
}

fn read_u64_entries(data: &[u8], base: usize, n: u32) -> (r: Vec<u64>)
    requires
        base + 8 * n <= data@.len(),
    ensures
        r@ == Seq::new(n as nat, |k: int| be64(data@, base + 8 * k) as u64),
{
    let mut out: Vec<u64> = Vec::new();
    let mut k: u32 = 0;
    let dlen: usize = data.len();
    while k < n
        invariant
            k <= n,
            dlen == data@.len(),
            base + 8 * n <= data@.len(),
            out@ == Seq::new(k as nat, |j: int| be64(data@, base + 8 * j) as u64),
        decreases n - k,
    {
        let v = read_be_u64(data, base + 8 * (k as usize));
        out.push(v);
        k = k + 1;
        proof {
            assert(out@ =~= Seq::new(k as nat, |j: int| be64(data@, base + 8 * j) as u64));
        }
    }
    out
}

fn read_i32_entries(data: &[u8], base: usize, n: u32) -> (r: Vec<i32>)
    requires
        base + 4 * n <= data@.len(),
    ensures
        r@ == Seq::new(n as nat, |k: int| be32(data@, base + 4 * k) as u32 as i32),
{
    let raw = read_u32_entries(data, base, n);
    let mut out: Vec<i32> = Vec::new();
    let mut k: usize = 0;
    while k < raw.len()
        invariant
            k <= raw@.len(),
            raw@.len() == n,
            raw@ == Seq::new(n as nat, |j: int| be32(data@, base + 4 * j) as u32),
            out@ == Seq::new(k as nat, |j: int| be32(data@, base + 4 * j) as u32 as i32),
        decreases raw@.len() - k,
    {
        out.push(raw[k] as i32);
        k = k + 1;
        proof {
            assert(out@ =~= Seq::new(k as nat, |j: int| be32(data@, base + 4 * j) as u32 as i32));
        }
    }
    out
}

fn read_i64_entries(data: &[u8], base: usize, n: u32) -> (r: Vec<i64>)
    requires
        base + 8 * n <= data@.len(),
    ensures
        r@ == Seq::new(n as nat, |k: int| be64(data@, base + 8 * k) as u64 as i64),
{
    let raw = read_u64_entries(data, base, n);
    let mut out: Vec<i64> = Vec::new();
    let mut k: usize = 0;
    while k < raw.len()
        invariant
            k <= raw@.len(),
            raw@.len() == n,
            raw@ == Seq::new(n as nat, |j: int| be64(data@, base + 8 * j) as u64),
            out@ == Seq::new(k as nat, |j: int| be64(data@, base + 8 * j) as u64 as i64),
        decreases raw@.len() - k,
    {
        out.push(raw[k] as i64);
        k = k + 1;
        proof {
            assert(out@ =~= Seq::new(k as nat, |j: int| be64(data@, base + 8 * j) as u64 as i64));
        }
    }
    out
}

/// `data[lo..hi]` cut at its first zero byte.
fn copy_until_nul(data: &[u8], lo: usize, hi: usize) -> (r: Vec<u8>)
    requires
        lo <= hi <= data@.len(),
    ensures
        r@ == until_nul(data@.subrange(lo as int, hi as int)),
{
    let mut end: usize = lo;
    while end < hi && data[end] != 0
        invariant
            lo <= end <= hi <= data@.len(),
            until_nul(data@.subrange(lo as int, hi as int)) == data@.subrange(lo as int, end as int)
                + until_nul(data@.subrange(end as int, hi as int)),
        decreases hi - end,
    {
        proof {
            let rest = data@.subrange(end as int, hi as int);
            assert(rest.drop_first() =~= data@.subrange(end + 1, hi as int));
            assert(data@.subrange(lo as int, end as int) + seq![data@[end as int]] =~= data@.subrange(
                lo as int,
                end + 1,
            ));
        }
        end = end + 1;
    }
    proof {
        assert(data@.subrange(lo as int, end as int) + until_nul(data@.subrange(end as int, hi as int))
            =~= data@.subrange(lo as int, end as int));
    }
    slice_to_vec(data, lo, end)
}

/// The raw entries of a string dictionary, or `None` when they do not fit.
fn read_string_entries(data: &[u8], base: usize, n: u32, width: usize) -> (r: Option<Vec<Vec<u8>>>)
    ensures
        r matches Some(es) ==> string_entries(data@, base as int, n as nat, width as nat) == Some(
            es@.map_values(|b: Vec<u8>| b@),
        ),
        r is None ==> string_entries(data@, base as int, n as nat, width as nat) is None,
{
    let mut out: Vec<Vec<u8>> = Vec::new();
    let dlen: usize = data.len();
    if width > 0 {
        proof {
            assert((width as u128) * (n as u128) <= 0xFFFF_FFFF_FFFF_FFFFu128 * 0xFFFF_FFFFu128)
                by (nonlinear_arith)
                requires
                    width <= 0xFFFF_FFFF_FFFF_FFFFu64,
                    n <= 0xFFFF_FFFFu32,
            ;
        }
        let total: u128 = (width as u128) * (n as u128);
        if (base as u128) + total > dlen as u128 {
            return None;
        }
        let ghost want = Seq::new(
            n as nat,
            |k: int| until_nul(data@.subrange(base + width * k, base + width * k + width)),
        );
        let mut k: u32 = 0;
        while k < n
            invariant
                k <= n,
                base + width * n <= data@.len(),
                dlen == data@.len(),
                width > 0,
                want == Seq::new(
                    n as nat,
                    |j: int| until_nul(data@.subrange(base + width * j, base + width * j + width)),
                ),
                out@.map_values(|b: Vec<u8>| b@) == want.subrange(0, k as int),
            decreases n - k,
        {
            proof {
                assert(width * k + width <= width * n) by (nonlinear_arith)
                    requires
                        k < n,
                ;
            }
            let lo: usize = base + width * (k as usize);
            let e = copy_until_nul(data, lo, lo + width);
            let ghost before = out@.map_values(|b: Vec<u8>| b@);
            proof {
                assert(want[k as int] == e@);
            }
            out.push(e);
            proof {
                assert(out@.map_values(|b: Vec<u8>| b@) =~= before.push(e@));
                assert(want.subrange(0, k + 1) =~= want.subrange(0, k as int).push(want[k as int]));
            }
            k = k + 1;
            proof {
                assert(out@.map_values(|b: Vec<u8>| b@) =~= want.subrange(0, k as int));
            }
        }
        proof {
            assert(want.subrange(0, n as int) =~= want);
        }
        Some(out)
    } else {
        let mut pos: usize = base;
        let mut k: u32 = 0;
        while k < n
            invariant
                k <= n,
                width == 0,
                prefixed_entries(data@, base as int, n as nat) == match prefixed_entries(
                    data@,
                    pos as int,
                    (n - k) as nat,
                ) {
                    Some(rest) => Some(out@.map_values(|b: Vec<u8>| b@) + rest),
                    None => None::<Seq<Seq<u8>>>,
                },
            decreases n - k,
        {
            if pos > data.len() || data.len() - pos < 4 {
                proof {
                    assert(prefixed_entries(data@, pos as int, (n - k) as nat) is None);
                }
                return None;
            }
            let len: u32 = read_be_u32(data, pos);
            if data.len() - pos - 4 < len as usize {
                proof {
                    assert(prefixed_entries(data@, pos as int, (n - k) as nat) is None);
                }
                return None;
            }
            let end: usize = pos + 4 + len as usize;
            let e = slice_to_vec(data, pos + 4, end);
            let ghost before = out@.map_values(|b: Vec<u8>| b@);
            out.push(e);
            proof {
                assert(out@.map_values(|b: Vec<u8>| b@) =~= before.push(e@));
                match prefixed_entries(data@, end as int, (n - k - 1) as nat) {
                    Some(rest) => {
                        assert(before + (seq![e@] + rest) =~= before.push(e@) + rest);
                    },
                    None => {},
                }
            }
            pos = end;
            k = k + 1;
        }
        proof {
            assert(out@.map_values(|b: Vec<u8>| b@) + seq![] =~= out@.map_values(|b: Vec<u8>| b@));
        }
        Some(out)
    }
}

/// The entries decoded as UTF-8, or `None` when one of them is not UTF-8.
pub fn decode_entries(es: &Vec<Vec<u8>>) -> (r: Option<Vec<String>>)
    ensures
        r is Some <==> all_utf8(es@.map_values(|b: Vec<u8>| b@)),
        r matches Some(ss) ==> ss@.map_values(|s: String| s@) == es@.map_values(|b: Vec<u8>| b@).map_values(
            |b: Seq<u8>| decode_utf8(b),
        ),
{
    let ghost src = es@.map_values(|b: Vec<u8>| b@);
    let mut out: Vec<String> = Vec::new();
    let mut k: usize = 0;
    while k < es.len()
        invariant
            k <= es@.len(),
            src == es@.map_values(|b: Vec<u8>| b@),
            forall|j: int| 0 <= j < k ==> valid_utf8(#[trigger] src[j]),
            out@.map_values(|s: String| s@) == src.subrange(0, k as int).map_values(
                |b: Seq<u8>| decode_utf8(b),
            ),
        decreases es@.len() - k,
    {
        let b = slice_to_vec(es[k].as_slice(), 0, es[k].len());
        proof {
            assert(b@ =~= src[k as int]);
        }
        match utf8_to_string(b) {
            Some(s) => {
                let ghost before = out@.map_values(|s: String| s@);
                out.push(s);
                proof {
                    assert(out@.map_values(|s: String| s@) =~= before.push(s@));
                    assert(src.subrange(0, k + 1).map_values(|b: Seq<u8>| decode_utf8(b)) =~= src.subrange(
                        0,
                        k as int,
                    ).map_values(|b: Seq<u8>| decode_utf8(b)).push(decode_utf8(src[k as int])));
                }
                k = k + 1;
                proof {
                    assert(out@.map_values(|s: String| s@) =~= src.subrange(0, k as int).map_values(
                        |b: Seq<u8>| decode_utf8(b),
                    ));
                }
            },
            None => {
                return None;
            },
        }
    }
    proof {
        assert(src.subrange(0, k as int) =~= src);
    }
    Some(out)
}

impl DictionaryReader {
    /// Decodes the dictionary whose marker starts at `data[offset]`: `cardinality`
    /// values of type `data_type`; string entries take `length_of_each_entry`
    /// bytes each, or carry a length prefix when it is 0.
    pub fn read(
        data: &[u8],
        offset: usize,
        _size: usize,
        data_type: DataType,
        cardinality: u32,
        length_of_each_entry: usize,
    ) -> (r: Result<Self>)
        ensures
            r is Ok <==> magic_at(data@, offset as int) && dictionary_type(data_type) && entries_fit(
                data@,
                offset as int,
                data_type,
                cardinality as nat,
                length_of_each_entry as nat,
            ) && (data_type is String ==> all_utf8(
                string_entries(
                    data@,
                    offset + 8,
                    cardinality as nat,
                    length_of_each_entry as nat,
                )->0,
            )),
            r matches Ok(d) ==> dictionary_holds(
                d.values,
                data@,
                offset as int,
                data_type,
                cardinality as nat,
                length_of_each_entry as nat,
            ),
            r matches Err(e) ==> {
                if !magic_at(data@, offset as int) {
                    e is InvalidFormat
                } else if !dictionary_type(data_type) {
                    e is UnsupportedFeature
                } else if !entries_fit(
                    data@,
                    offset as int,
                    data_type,
                    cardinality as nat,
                    length_of_each_entry as nat,
                ) {
                    e is InvalidFormat
                } else {
                    e is Parse
                }
            },
    {
        let dlen: usize = data.len();
        if offset > dlen || dlen - offset < 8 {
            return Err(invalid_format("Dictionary extends past the end of the data"));
        }
        let magic: u64 = read_be_u64(data, offset);
        if magic != MAGIC_MARKER {
            return Err(invalid_format("Invalid magic marker"));
        }
        let base: usize = offset + 8;
        let room: usize = dlen - base;
        match data_type {
            DataType::Int | DataType::Float | DataType::Long | DataType::Double => {
                let width: u64 = match data_type {
                    DataType::Int | DataType::Float => 4,
                    _ => 8,
                };
                if (cardinality as u64) * width > room as u64 {
                    return Err(invalid_format("Dictionary entries extend past the end of the data"));
                }
                let values = match data_type {
                    DataType::Int => DictionaryValue::Int(read_i32_entries(data, base, cardinality)),
                    DataType::Float => DictionaryValue::Float(
                        read_u32_entries(data, base, cardinality),
                    ),
                    DataType::Long => DictionaryValue::Long(read_i64_entries(data, base, cardinality)),
                    _ => DictionaryValue::Double(read_u64_entries(data, base, cardinality)),
                };
                Ok(DictionaryReader { values })
            },
            DataType::String => {
                let raw = match read_string_entries(data, base, cardinality, length_of_each_entry) {
                    Some(es) => es,
                    None => return Err(
                        invalid_format("Dictionary entries extend past the end of the data"),
                    ),
                };
                match decode_entries(&raw) {
                    Some(strings) => Ok(DictionaryReader { values: DictionaryValue::String(strings) }),
                    None => Err(Error::Parse("Invalid UTF-8 in dictionary".to_owned())),
                }
            },
            DataType::Bytes => Err(unsupported("BYTES dictionary not yet supported")),
            DataType::Boolean => Err(unsupported("BOOLEAN dictionary not expected")),
        }
    }

    /// Value `dict_id` of an INT dictionary.
    pub fn get_int(&self, dict_id: u32) -> (r: Option<i32>)
        ensures
            r == (match self.values {
                DictionaryValue::Int(v) => if dict_id < v@.len() {
                    Some(v@[dict_id as int])
                } else {
                    None
                },
                _ => None,
            }),
    {
        match &self.values {
            DictionaryValue::Int(v) => if (dict_id as usize) < v.len() {
                Some(v[dict_id as usize])
            } else {
                None
            },
            _ => None,
        }
    }

    /// Value `dict_id` of a LONG dictionary.
    pub fn get_long(&self, dict_id: u32) -> (r: Option<i64>)
        ensures
            r == (match self.values {
                DictionaryValue::Long(v) => if dict_id < v@.len() {
                    Some(v@[dict_id as int])
                } else {
                    None
                },
                _ => None,
            }),
    {
        match &self.values {
            DictionaryValue::Long(v) => if (dict_id as usize) < v.len() {
                Some(v[dict_id as usize])
            } else {
                None
            },
            _ => None,
        }
    }

    /// Bit pattern of value `dict_id` of a FLOAT dictionary.
    pub fn get_float_bits(&self, dict_id: u32) -> (r: Option<u32>)
        ensures
            r == (match self.values {
                DictionaryValue::Float(v) => if dict_id < v@.len() {
                    Some(v@[dict_id as int])
                } else {
                    None
                },
                _ => None,
            }),
    {
        match &self.values {
            DictionaryValue::Float(v) => if (dict_id as usize) < v.len() {
                Some(v[dict_id as usize])
            } else {
                None
            },
            _ => None,
        }
    }

    /// Bit pattern of value `dict_id` of a DOUBLE dictionary.
    pub fn get_double_bits(&self, dict_id: u32) -> (r: Option<u64>)
        ensures
            r == (match self.values {
                DictionaryValue::Double(v) => if dict_id < v@.len() {
                    Some(v@[dict_id as int])
                } else {
                    None
                },
                _ => None,
            }),
    {
        match &self.values {
            DictionaryValue::Double(v) => if (dict_id as usize) < v.len() {
                Some(v[dict_id as usize])
            } else {
                None
            },
            _ => None,
        }
    }

    /// Value `dict_id` of a STRING dictionary.
    pub fn get_string(&self, dict_id: u32) -> (r: Option<&str>)
        ensures
            match self.values {
                DictionaryValue::String(v) => if dict_id < v@.len() {
                    r matches Some(s) && s@ == v@[dict_id as int]@
                } else {
                    r is None
                },
                _ => r is None,
            },
    {
        match &self.values {
            DictionaryValue::String(v) => if (dict_id as usize) < v.len() {
                Some(v[dict_id as usize].as_str())
            } else {
                None
            },
            _ => None,
        }
    }
}

/// A dictionary whose magic marker was written in little-endian order is
/// refused: its first eight bytes do not read as the marker.
pub proof fn lemma_little_endian_marker_rejected(data: Seq<u8>, offset: int)
    requires
        0 <= offset,
        offset + 8 <= data.len(),
        data[offset] == 0xAD,
        data[offset + 1] == 0xBE,
        data[offset + 2] == 0xAF,
        data[offset + 3] == 0xDE,
        data[offset + 4] == 0xEF,
        data[offset + 5] == 0xBE,
        data[offset + 6] == 0xAD,
        data[offset + 7] == 0xDE,
    ensures
        !magic_at(data, offset),
{
    assert(be32(data, offset) == 0xADBE_AFDE);
    assert(be64(data, offset) != MAGIC_MARKER as nat);
}

} // verus!
