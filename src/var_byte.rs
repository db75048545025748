//! Variable-byte chunked forward index (version 4) for columns stored without
//! a dictionary. After an optional magic marker comes a 16-byte big-endian
//! header, a table of little-endian chunk entries, and the chunks themselves,
//! each optionally compressed as a unit.
use vstd::prelude::*;

use crate::bytes::{be32, le32, read_be_u32, read_le_u32};
use crate::dictionary::decode_entries;
use crate::error::{invalid_format, unsupported, Error, Result};
use crate::fixed_bit::slice_to_vec;

verus! {

/// Compression type of chunks stored as they are.
pub const PASS_THROUGH: i32 = 0;
/// Compression type of Snappy-compressed chunks (recognised, not supported).
pub const SNAPPY: i32 = 1;
/// Compression type of Zstandard-compressed chunks (recognised, not supported).
pub const ZSTANDARD: i32 = 2;
/// Compression type of LZ4 blocks that decompress to the target chunk size.
pub const LZ4: i32 = 3;
/// Compression type of LZ4 blocks preceded by their little-endian decompressed length.
pub const LZ4_LENGTH_PREFIXED: i32 = 4;

/// Entry offset that marks the end of the chunk table.
pub const SENTINEL_OFFSET: u32 = 0xFFFF_FFFF;

/// What `lz4::block::decompress(src, Some(size))` yields: the decompressed
/// bytes, or `None` when it reports an error.
pub uninterp spec fn lz4_block_decoded(src: Seq<u8>, size: int) -> Option<Seq<u8>>;

/// Relies on `lz4::block::decompress` with an explicit size: its result depends
/// on the compressed bytes and the size alone, and a negative size is an error.
#[verifier::external_body]
fn lz4_decompress(src: &[u8], size: i32) -> (r: Option<Vec<u8>>)
    ensures
        r is Some <==> lz4_block_decoded(src@, size as int) is Some,
        r matches Some(v) ==> v@ == lz4_block_decoded(src@, size as int)->0,
        size < 0 ==> r is None,
{
    lz4::block::decompress(src, Some(size)).ok()
}

// ---- the layout of a forward index `f` (its bytes, from its first byte) ----

/// Whether `f` opens with the first half of the magic marker.
pub open spec fn has_magic(f: Seq<u8>) -> bool {
    f.len() >= 4 && f[0] == 0xDE && f[1] == 0xAD && f[2] == 0xBE && f[3] == 0xEF
}

/// Where the header starts: after the 8-byte marker when there is one.
pub open spec fn header_start(f: Seq<u8>) -> int {
    if has_magic(f) {
        8
    } else {
        0
    }
}

/// Header word `k` (0: version, 1: target chunk size, 2: compression type,
/// 3: offset of the chunk section from the header).
pub open spec fn header_word(f: Seq<u8>, k: int) -> nat {
    be32(f, header_start(f) + 4 * k)
}

pub open spec fn version(f: Seq<u8>) -> i32 {
    header_word(f, 0) as u32 as i32
}

pub open spec fn target_size(f: Seq<u8>) -> i32 {
    header_word(f, 1) as u32 as i32
}

pub open spec fn compression(f: Seq<u8>) -> i32 {
    header_word(f, 2) as u32 as i32
}

/// Start of the chunk entry table.
pub open spec fn entries_pos(f: Seq<u8>) -> int {
    header_start(f) + 16
}

/// Number of 8-byte entries in the table.
pub open spec fn num_entries(f: Seq<u8>) -> int {
    (header_word(f, 3) - 16) / 8
}

/// Start of the chunk section.
pub open spec fn chunks_pos(f: Seq<u8>) -> int {
    header_start(f) + header_word(f, 3)
}

/// First word of entry `i`: the huge-value flag and the first document id.
pub open spec fn entry_word(f: Seq<u8>, i: int) -> nat {
    le32(f, entries_pos(f) + 8 * i)
}

/// Second word of entry `i`: the chunk's offset within the chunk section.
pub open spec fn entry_offset(f: Seq<u8>, i: int) -> nat {
    le32(f, entries_pos(f) + 8 * i + 4)
}

/// Index of the first entry at or after `i` that carries the end sentinel,
/// or the number of entries.
pub open spec fn sentinel_from(f: Seq<u8>, i: int) -> int
    decreases num_entries(f) - i,
{
    if i < 0 || i >= num_entries(f) {
        num_entries(f)
    } else if entry_offset(f, i) == SENTINEL_OFFSET as nat {
        i
    } else {
        sentinel_from(f, i + 1)
    }
}

/// Number of chunks: the entries before the first sentinel.
pub open spec fn num_chunks(f: Seq<u8>) -> int {
    sentinel_from(f, 0)
}

/// First document id of chunk `i` (the flag bit masked off).
pub open spec fn chunk_first(f: Seq<u8>, i: int) -> nat {
    entry_word(f, i) % 0x8000_0000
}

/// Whether chunk `i` holds a single huge value.
pub open spec fn chunk_huge(f: Seq<u8>, i: int) -> bool {
    entry_word(f, i) >= 0x8000_0000
}

/// Whether the first document ids of the chunks strictly increase.
pub open spec fn firsts_increase(f: Seq<u8>) -> bool {
    forall|i: int, j: int| 0 <= i < j < num_chunks(f) ==> chunk_first(f, i) < chunk_first(f, j)
}

/// Whether the compression type is one this reader decodes.
pub open spec fn supported_compression(c: i32) -> bool {
    c == PASS_THROUGH || c == LZ4 || c == LZ4_LENGTH_PREFIXED
}

/// Whether the header and entry table of `f` are usable.
pub open spec fn layout_ok(f: Seq<u8>) -> bool {
    &&& header_start(f) + 16 <= f.len()
    &&& version(f) == 4
    &&& 16 <= header_word(f, 3)
    &&& chunks_pos(f) <= f.len()
    &&& supported_compression(compression(f))
    &&& firsts_increase(f)
}

/// Start of chunk `i` in `f`.
pub open spec fn chunk_lo(f: Seq<u8>, i: int) -> int {
    chunks_pos(f) + entry_offset(f, i)
}

/// End of chunk `i` in `f`: the start of the next chunk, or the end of `f`
/// for the last one.
pub open spec fn chunk_hi(f: Seq<u8>, i: int) -> int {
    if i + 1 < num_chunks(f) {
        chunk_lo(f, i + 1)
    } else {
        f.len() as int
    }
}

/// The stored bytes of chunk `i`, if its bounds are consistent.
pub open spec fn chunk_raw(f: Seq<u8>, i: int) -> Option<Seq<u8>> {
    if chunk_lo(f, i) <= chunk_hi(f, i) <= f.len() {
        Some(f.subrange(chunk_lo(f, i), chunk_hi(f, i)))
    } else {
        None
    }
}

/// The decompressed bytes of a stored chunk.
pub open spec fn decompressed(f: Seq<u8>, raw: Seq<u8>) -> Option<Seq<u8>> {
    if compression(f) == LZ4 {
        lz4_block_decoded(raw, target_size(f) as int)
    } else if compression(f) == LZ4_LENGTH_PREFIXED {
        if raw.len() < 4 {
            None
        } else {
            lz4_block_decoded(raw.subrange(4, raw.len() as int), le32(raw, 0) as u32 as i32 as int)
        }
    } else {
        Some(raw)
    }
}

/// Number of values of a regular decompressed chunk.
pub open spec fn chunk_count(c: Seq<u8>) -> nat {
    le32(c, 0)
}

/// Start of value `k` of a regular chunk.
pub open spec fn value_start(c: Seq<u8>, k: int) -> nat {
    le32(c, 4 + 4 * k)
}

/// End of value `k` of a regular chunk: the next start, or the chunk's end.
pub open spec fn value_end(c: Seq<u8>, k: int) -> nat {
    if k + 1 < chunk_count(c) {
        value_start(c, k + 1)
    } else {
        c.len()
    }
}

/// Whether a regular chunk's count, offset table and value ranges are consistent.
pub open spec fn regular_chunk_ok(c: Seq<u8>) -> bool {
    &&& c.len() >= 8
    &&& 4 + 4 * chunk_count(c) <= c.len()
    &&& forall|k: int|
        0 <= k < chunk_count(c) ==> #[trigger] value_start(c, k) <= value_end(c, k) <= c.len()
}

/// The values held by a decompressed chunk: the whole chunk for a huge value.
pub open spec fn chunk_values(c: Seq<u8>, huge: bool) -> Option<Seq<Seq<u8>>> {
    if huge {
        Some(seq![c])
    } else if regular_chunk_ok(c) {
        Some(
            Seq::new(
                chunk_count(c),
                |k: int| c.subrange(value_start(c, k) as int, value_end(c, k) as int),
            ),
        )
    } else {
        None
    }
}

/// The values of chunk `i` of `f`.
pub open spec fn decoded_chunk(f: Seq<u8>, i: int) -> Option<Seq<Seq<u8>>> {
    match chunk_raw(f, i) {
        Some(raw) => match decompressed(f, raw) {
            Some(c) => chunk_values(c, chunk_huge(f, i)),
            None => None,
        },
        None => None,
    }
}

/// The values of the first `n` chunks of `f`, in order.
pub open spec fn values_upto(f: Seq<u8>, n: int) -> Option<Seq<Seq<u8>>>
    decreases n,
{
    if n <= 0 {
        Some(seq![])
    } else {
        match values_upto(f, n - 1) {
            Some(vs) => match decoded_chunk(f, n - 1) {
                Some(c) => Some(vs + c),
                None => None,
            },
            None => None,
        }
    }
}

/// Whether every chunk of `f` decodes and starts at the document that follows
/// the values of the chunks before it.
pub open spec fn column_aligned(f: Seq<u8>) -> bool {
    &&& column_values(f) is Some
    &&& forall|i: int|
        0 <= i < num_chunks(f) ==> #[trigger] chunk_first(f, i) == values_upto(f, i)->0.len()
}

/// Whether the column stored in `f` can be read whole for `n` documents.
pub open spec fn column_readable(f: Seq<u8>, n: nat) -> bool {
    column_aligned(f) && column_values(f)->0.len() >= n
}

/// The values of the first `n` documents of the column stored in `f`.
pub open spec fn column_read(f: Seq<u8>, n: nat) -> Seq<Seq<u8>> {
    column_values(f)->0.subrange(0, n as int)
}

/// Every value of the column stored in `f`, in document order.
pub open spec fn column_values(f: Seq<u8>) -> Option<Seq<Seq<u8>>> {
    values_upto(f, num_chunks(f))
}

/// The last chunk among the first `n` whose first document id is at most `doc`, or -1.
pub open spec fn chunk_of(f: Seq<u8>, doc: nat, n: int) -> int
    decreases n,
{
    if n <= 0 {
        -1
    } else if chunk_first(f, n - 1) <= doc {
        n - 1
    } else {
        chunk_of(f, doc, n - 1)
    }
}

/// The text of the error that decoding chunk `i` of `f` reports.
pub open spec fn chunk_error_text(f: Seq<u8>, i: int) -> Seq<char> {
    match chunk_raw(f, i) {
        None => "Chunk bounds out of range"@,
        Some(raw) => match decompressed(f, raw) {
            None => "Chunk decompression failed"@,
            Some(_) => "Chunk layout is inconsistent"@,
        },
    }
}

/// The text of the error that looking up document `doc` of `f` reports.
pub open spec fn doc_error_text(f: Seq<u8>, doc: nat) -> Seq<char> {
    let i = chunk_of(f, doc, num_chunks(f));
    if i < 0 {
        "doc_id precedes every chunk"@
    } else if decoded_chunk(f, i) is None {
        chunk_error_text(f, i)
    } else {
        "doc_id not in chunk"@
    }
}

/// The value of document `doc`, found through the chunk table.
pub open spec fn doc_value(f: Seq<u8>, doc: nat) -> Option<Seq<u8>> {
    let i = chunk_of(f, doc, num_chunks(f));
    if i < 0 {
        None
    } else {
        match decoded_chunk(f, i) {
            Some(vs) => if doc - chunk_first(f, i) < vs.len() {
                Some(vs[doc - chunk_first(f, i)])
            } else {
                None
            },
            None => None,
        }
    }
}

/// One chunk of the table.
#[derive(Debug, Clone, Copy)]
pub struct ChunkEntry {
    pub first_doc: u32,
    pub huge: bool,
    pub offset: u32,
}

/// Reader over one variable-byte forward index.
pub struct VarByteChunkReader {
    fwd: Vec<u8>,
    target_decompressed_chunk_size: i32,
    compression_type: i32,
    chunks_offset: usize,
    chunks: Vec<ChunkEntry>,
    total_docs: u32,
}

/// Whether `read` rejects the layout of `f` as an unsupported variant (rather
/// than as corrupt), given that the layout is not usable.
pub open spec fn layout_unsupported(f: Seq<u8>) -> bool {
    header_start(f) + 16 <= f.len() && (version(f) != 4 || (16 <= header_word(f, 3) && chunks_pos(
        f,
    ) <= f.len() && !supported_compression(compression(f))))
}

proof fn lemma_values_upto_none(f: Seq<u8>, m: int, n: int)
    requires
        0 <= m <= n,
        values_upto(f, m) is None,
    ensures
        values_upto(f, n) is None,
    decreases n - m,
{
    if m < n {
        lemma_values_upto_none(f, m, n - 1);
    }
}

proof fn lemma_chunk_of_le(f: Seq<u8>, doc: nat, n: int)
    requires
        n >= 0,
    ensures
        chunk_of(f, doc, n) < n,
        chunk_of(f, doc, n) >= 0 ==> chunk_first(f, chunk_of(f, doc, n)) <= doc,
        chunk_of(f, doc, n) >= -1,
    decreases n,
{
    if n > 0 && chunk_first(f, n - 1) > doc {
        lemma_chunk_of_le(f, doc, n - 1);
    }
}

proof fn lemma_chunk_of_partition(f: Seq<u8>, doc: nat, lo: int, m: int)
    requires
        0 <= lo <= m,
        forall|j: int| lo <= j < m ==> chunk_first(f, j) > doc,
        lo > 0 ==> chunk_first(f, lo - 1) <= doc,
    ensures
        chunk_of(f, doc, m) == lo - 1,
    decreases m - lo,
{
    if m > lo {
        lemma_chunk_of_partition(f, doc, lo, m - 1);
    }
}

impl VarByteChunkReader {
    /// The bytes of the forward index.
    pub closed spec fn spec_forward_index(&self) -> Seq<u8> {
        self.fwd@
    }

    pub closed spec fn spec_total_docs(&self) -> nat {
        self.total_docs as nat
    }

    /// The cached header fields and chunk table agree with the bytes.
    pub closed spec fn wf(&self) -> bool {
        let f = self.fwd@;
        &&& layout_ok(f)
        &&& self.target_decompressed_chunk_size == target_size(f)
        &&& self.compression_type == compression(f)
        &&& self.chunks_offset == chunks_pos(f)
        &&& self.chunks@.len() == num_chunks(f)
        &&& forall|i: int|
            0 <= i < self.chunks@.len() ==> {
                &&& (#[trigger] self.chunks@[i]).first_doc as nat == chunk_first(f, i)
                &&& self.chunks@[i].huge == chunk_huge(f, i)
                &&& self.chunks@[i].offset as nat == entry_offset(f, i)
            }
    }

    /// Opens the forward index stored at `data[offset .. offset + size]` for a
    /// column of `total_docs` documents.
    pub fn read(data: &[u8], offset: usize, size: usize, total_docs: u32) -> (r: Result<Self>)
        ensures
            r is Ok <==> offset + size <= data@.len() && layout_ok(
                data@.subrange(offset as int, offset + size),
            ),
            r matches Ok(rd) ==> {
                &&& rd.wf()
                &&& rd.spec_forward_index() == data@.subrange(offset as int, offset + size)
                &&& rd.spec_total_docs() == total_docs
            },
            offset + size <= data@.len() && header_start(data@.subrange(offset as int, offset + size))
                + 16 <= size && version(data@.subrange(offset as int, offset + size)) != 4 ==> (r matches Err(
                Error::UnsupportedFeature(m),
            ) && m@ == "Expected V4 format"@),
            r matches Err(e) ==> if offset + size <= data@.len() && layout_unsupported(
                data@.subrange(offset as int, offset + size),
            ) {
                e is UnsupportedFeature
            } else {
                e is InvalidFormat
            },
    {
        if offset > data.len() || size > data.len() - offset {
            return Err(invalid_format("Forward index extends past the end of the data"));
        }
        let fwd = slice_to_vec(data, offset, offset + size);
        let ghost f = fwd@;
        let n: usize = fwd.len();
        let has_magic = n >= 4 && fwd[0] == 0xDE && fwd[1] == 0xAD && fwd[2] == 0xBE && fwd[3]
            == 0xEF;
        let hs: usize = if has_magic {
            8
        } else {
            0
        };
        if n < hs + 16 {
            return Err(invalid_format("Forward index too small for its header"));
        }
        let format_version = read_be_u32(fwd.as_slice(), hs) as i32;
        if format_version != 4 {
            return Err(Error::UnsupportedFeature("Expected V4 format".to_owned()));
        }
        let target = read_be_u32(fwd.as_slice(), hs + 4) as i32;
        let compression_type = read_be_u32(fwd.as_slice(), hs + 8) as i32;
        let chunks_start: u32 = read_be_u32(fwd.as_slice(), hs + 12);
        if chunks_start < 16 || chunks_start as usize > n - hs {
            return Err(invalid_format("Chunk section offset out of range"));
        }
        if !(compression_type == PASS_THROUGH || compression_type == LZ4 || compression_type
            == LZ4_LENGTH_PREFIXED) {
            return Err(unsupported("Unsupported chunk compression type"));
        }
        let chunks_offset: usize = hs + chunks_start as usize;
        let entries_start: usize = hs + 16;
        let entry_count: usize = ((chunks_start - 16) / 8) as usize;
        proof {
            assert(entries_start + 8 * entry_count <= chunks_offset);
        }
        let mut chunks: Vec<ChunkEntry> = Vec::new();
        let mut i: usize = 0;
        while i < entry_count
            invariant
                f == fwd@,
                f == data@.subrange(offset as int, offset + size),
                offset + size <= data@.len(),
                header_start(f) + 16 <= f.len(),
                version(f) == 4,
                16 <= header_word(f, 3),
                chunks_pos(f) <= f.len(),
                supported_compression(compression(f)),
                n == f.len(),
                header_start(f) == hs,
                entries_pos(f) == entries_start,
                num_entries(f) == entry_count,
                entries_start + 8 * entry_count <= n,
                i <= entry_count,
                chunks@.len() == i,
                sentinel_from(f, 0) == sentinel_from(f, i as int),
                forall|j: int|
                    0 <= j < i ==> {
                        &&& (#[trigger] chunks@[j]).first_doc as nat == chunk_first(f, j)
                        &&& chunks@[j].huge == chunk_huge(f, j)
                        &&& chunks@[j].offset as nat == entry_offset(f, j)
                    },
                forall|a: int, b: int| 0 <= a < b < i ==> chunk_first(f, a) < chunk_first(f, b),
            ensures
                num_chunks(f) == chunks@.len(),
                forall|j: int|
                    0 <= j < chunks@.len() ==> {
                        &&& (#[trigger] chunks@[j]).first_doc as nat == chunk_first(f, j)
                        &&& chunks@[j].huge == chunk_huge(f, j)
                        &&& chunks@[j].offset as nat == entry_offset(f, j)
                    },
                firsts_increase(f),
            decreases entry_count - i,
        {
            let word: u32 = read_le_u32(fwd.as_slice(), entries_start + 8 * i);
            let off: u32 = read_le_u32(fwd.as_slice(), entries_start + 8 * i + 4);
            if off == SENTINEL_OFFSET {
                proof {
                    assert(sentinel_from(f, i as int) == i);
                }
                break ;
            }
            let first: u32 = word % 0x8000_0000;
            if i > 0 && chunks[i - 1].first_doc >= first {
                proof {
                    assert(sentinel_from(f, i as int) > i) by {
                        assert(sentinel_from(f, i as int) == sentinel_from(f, i + 1));
                        lemma_sentinel_ge(f, i + 1);
                    }
                    assert(!(chunk_first(f, i - 1) < chunk_first(f, i as int)));
                    assert(!firsts_increase(f));
                }
                return Err(invalid_format("Chunk first document ids do not increase"));
            }
            chunks.push(ChunkEntry { first_doc: first, huge: word >= 0x8000_0000, offset: off });
            i = i + 1;
        }
        proof {
            assert(num_chunks(f) == chunks@.len());
        }
        Ok(
            VarByteChunkReader {
                fwd,
                target_decompressed_chunk_size: target,
                compression_type,
                chunks_offset,
                chunks,
                total_docs,
            },
        )
    }
}

proof fn lemma_sentinel_ge(f: Seq<u8>, i: int)
    requires
        0 <= i,
    ensures
        sentinel_from(f, i) >= i || sentinel_from(f, i) == num_entries(f),
    decreases num_entries(f) - i,
{
    if i < num_entries(f) && entry_offset(f, i) != SENTINEL_OFFSET as nat {
        lemma_sentinel_ge(f, i + 1);
    }
}

/// The values of a decompressed chunk; `None` when a regular chunk's count,
/// offset table or value ranges are inconsistent.
fn split_chunk(c: &Vec<u8>, huge: bool) -> (r: Option<Vec<Vec<u8>>>)
    ensures
        r matches Some(vs) ==> chunk_values(c@, huge) == Some(vs@.map_values(|v: Vec<u8>| v@)),
        r is None ==> chunk_values(c@, huge) is None,
{
    let mut out: Vec<Vec<u8>> = Vec::new();
    let len: usize = c.len();
    if huge {
        let whole = slice_to_vec(c.as_slice(), 0, len);
        out.push(whole);
        proof {
            assert(c@.subrange(0, len as int) =~= c@);
            assert(out@.map_values(|v: Vec<u8>| v@) =~= seq![c@]);
        }
        return Some(out);
    }
    if len < 8 {
        return None;
    }
    let count: u32 = read_le_u32(c.as_slice(), 0);
    if (len as u64) < 4 + 4 * (count as u64) {
        return None;
    }
    let ghost want = Seq::new(
        chunk_count(c@),
        |k: int| c@.subrange(value_start(c@, k) as int, value_end(c@, k) as int),
    );
    let mut k: u32 = 0;
    while k < count
        invariant
            !huge,
            len == c@.len(),
            len >= 8,
            count == chunk_count(c@),
            4 + 4 * count <= len,
            k <= count,
            want == Seq::new(
                chunk_count(c@),
                |k: int| c@.subrange(value_start(c@, k) as int, value_end(c@, k) as int),
            ),
            forall|j: int| 0 <= j < k ==> #[trigger] value_start(c@, j) <= value_end(c@, j) <= c@.len(),
            out@.map_values(|v: Vec<u8>| v@) == want.subrange(0, k as int),
        decreases count - k,
    {
        let pos: usize = 4 + 4 * (k as usize);
        let start: u32 = read_le_u32(c.as_slice(), pos);
        let end: usize = if k + 1 < count {
            read_le_u32(c.as_slice(), pos + 4) as usize
        } else {
            len
        };
        proof {
            assert(end as nat == value_end(c@, k as int));
        }
        if start as usize > end || end > len {
            proof {
                assert(value_start(c@, k as int) == start as nat);
                assert(!(value_start(c@, k as int) <= value_end(c@, k as int) <= c@.len()));
            }
            return None;
        }
        let v = slice_to_vec(c.as_slice(), start as usize, end);
        let ghost before = out@.map_values(|v: Vec<u8>| v@);
        out.push(v);
        proof {
            assert(out@.map_values(|v: Vec<u8>| v@) =~= before.push(v@));
            assert(want.subrange(0, k + 1) =~= want.subrange(0, k as int).push(want[k as int]));
        }
        k = k + 1;
    }
    proof {
        assert(want.subrange(0, count as int) =~= want);
    }
    Some(out)
}

impl VarByteChunkReader {
    /// Number of chunks in the table.
    pub closed spec fn spec_num_chunks(&self) -> nat {
        self.chunks@.len()
    }

    /// The decompressed bytes of a stored chunk.
    fn decompress_chunk(&self, raw: &Vec<u8>) -> (r: Option<Vec<u8>>)
        requires
            self.wf(),
        ensures
            r matches Some(c) ==> decompressed(self.spec_forward_index(), raw@) == Some(c@),
            r is None ==> decompressed(self.spec_forward_index(), raw@) is None,
    {
        if self.compression_type == LZ4 {
            lz4_decompress(raw.as_slice(), self.target_decompressed_chunk_size)
        } else if self.compression_type == LZ4_LENGTH_PREFIXED {
            if raw.len() < 4 {
                return None;
            }
            let size = read_le_u32(raw.as_slice(), 0) as i32;
            let body = slice_to_vec(raw.as_slice(), 4, raw.len());
            lz4_decompress(body.as_slice(), size)
        } else {
            Some(slice_to_vec(raw.as_slice(), 0, raw.len()))
        }
    }

    /// The values of chunk `i`, decompressing it once.
    fn decode_chunk(&self, i: usize) -> (r: Result<Vec<Vec<u8>>>)
        requires
            self.wf(),
            i < self.spec_num_chunks(),
        ensures
            r matches Ok(vs) ==> decoded_chunk(self.spec_forward_index(), i as int) == Some(
                vs@.map_values(|v: Vec<u8>| v@),
            ),
            r is Err ==> decoded_chunk(self.spec_forward_index(), i as int) is None && (r matches Err(
                Error::InvalidFormat(m),
            ) && m@ == chunk_error_text(self.spec_forward_index(), i as int)),
    {
        let ghost f = self.fwd@;
        let len: usize = self.fwd.len();
        let lo: u64 = self.chunks_offset as u64 + self.chunks[i].offset as u64;
        let hi: u64 = if self.chunks.len() - i > 1 {
            self.chunks_offset as u64 + self.chunks[i + 1].offset as u64
        } else {
            len as u64
        };
        proof {
            assert(lo == chunk_lo(f, i as int));
            assert(hi == chunk_hi(f, i as int));
        }
        if lo > hi || hi > len as u64 {
            return Err(Error::InvalidFormat("Chunk bounds out of range".to_owned()));
        }
        let raw = slice_to_vec(self.fwd.as_slice(), lo as usize, hi as usize);
        let c = match self.decompress_chunk(&raw) {
            Some(c) => c,
            None => return Err(Error::InvalidFormat("Chunk decompression failed".to_owned())),
        };
        match split_chunk(&c, self.chunks[i].huge) {
            Some(vs) => Ok(vs),
            None => Err(Error::InvalidFormat("Chunk layout is inconsistent".to_owned())),
        }
    }

    /// Every value of the column as raw bytes, in document order; each chunk is
    /// decompressed once.
    pub fn read_all_bytes(&self) -> (r: Result<Vec<Vec<u8>>>)
        requires
            self.wf(),
        ensures
            r is Ok <==> column_readable(self.spec_forward_index(), self.spec_total_docs()),
            r matches Ok(vs) ==> vs@.map_values(|v: Vec<u8>| v@) == column_read(
                self.spec_forward_index(),
                self.spec_total_docs(),
            ),
            r matches Ok(vs) ==> forall|d: nat|
                d < vs@.len() ==> #[trigger] doc_value(self.spec_forward_index(), d) == Some(
                    vs@[d as int]@,
                ),
            r is Err ==> r->Err_0 is InvalidFormat,
    {
        let ghost f = self.fwd@;
        let mut out: Vec<Vec<u8>> = Vec::new();
        let mut i: usize = 0;
        while i < self.chunks.len()
            invariant
                self.wf(),
                f == self.fwd@,
                i <= self.chunks@.len(),
                values_upto(f, i as int) == Some(out@.map_values(|v: Vec<u8>| v@)),
                forall|j: int| 0 <= j < i ==> #[trigger] chunk_first(f, j) == values_upto(f, j)->0.len(),
            decreases self.chunks@.len() - i,
        {
            proof {
                assert(self.chunks@[i as int].first_doc as nat == chunk_first(f, i as int));
            }
            if self.chunks[i].first_doc as usize != out.len() {
                proof {
                    assert(!column_aligned(f)) by {
                        if column_values(f) is Some {
                            assert(chunk_first(f, i as int) != values_upto(f, i as int)->0.len());
                        }
                    }
                }
                return Err(invalid_format("Chunk does not start after the values before it"));
            }
            let vs = match self.decode_chunk(i) {
                Ok(vs) => vs,
                Err(e) => {
                    proof {
                        assert(values_upto(f, i + 1) is None);
                        lemma_values_upto_none(f, i + 1, num_chunks(f));
                    }
                    return Err(e);
                },
            };
            let ghost before = out@.map_values(|v: Vec<u8>| v@);
            let mut k: usize = 0;
            while k < vs.len()
                invariant
                    k <= vs@.len(),
                    out@.map_values(|v: Vec<u8>| v@) == before + vs@.map_values(|v: Vec<u8>| v@).subrange(0, k as int),
                decreases vs@.len() - k,
            {
                let v = slice_to_vec(vs[k].as_slice(), 0, vs[k].len());
                let ghost mid = out@.map_values(|v: Vec<u8>| v@);
                out.push(v);
                proof {
                    assert(vs@[k as int]@.subrange(0, vs@[k as int]@.len() as int) =~= vs@[k as int]@);
                    assert(out@.map_values(|v: Vec<u8>| v@) =~= mid.push(v@));
                    assert(vs@.map_values(|v: Vec<u8>| v@).subrange(0, k + 1) =~= vs@.map_values(
                        |v: Vec<u8>| v@,
                    ).subrange(0, k as int).push(vs@[k as int]@));
                }
                k = k + 1;
            }
            proof {
                assert(vs@.map_values(|v: Vec<u8>| v@).subrange(0, k as int) =~= vs@.map_values(
                    |v: Vec<u8>| v@,
                ));
            }
            i = i + 1;
        }
        if out.len() < self.total_docs as usize {
            return Err(invalid_format("Column holds fewer values than documents"));
        }
        let ghost all = out@.map_values(|v: Vec<u8>| v@);
        out.truncate(self.total_docs as usize);
        proof {
            assert(out@.map_values(|v: Vec<u8>| v@) =~= column_read(f, self.total_docs as nat));
            lemma_aligned_is_consistent(f);
            lemma_bulk_matches_lookup(f);
            assert forall|d: nat| d < out@.len() implies #[trigger] doc_value(f, d) == Some(out@[d as int]@) by {
                assert(out@[d as int]@ == all[d as int]);
            }
        }
        Ok(out)
    }

    /// Every value of the column as text, in document order; each chunk is
    /// decompressed once. A value that is not UTF-8 is a `Parse` error.
    pub fn read_all_strings(&self) -> (r: Result<Vec<String>>)
        requires
            self.wf(),
        ensures
            r is Ok <==> (column_readable(self.spec_forward_index(), self.spec_total_docs())
                && crate::dictionary::all_utf8(
                column_read(self.spec_forward_index(), self.spec_total_docs()),
            )),
            r matches Ok(ss) ==> ss@.map_values(|s: String| s@) == column_read(
                self.spec_forward_index(),
                self.spec_total_docs(),
            ).map_values(|b: Seq<u8>| vstd::utf8::decode_utf8(b)),
            r matches Ok(ss) ==> forall|d: nat|
                d < ss@.len() ==> (#[trigger] doc_value(self.spec_forward_index(), d) matches Some(b)
                    && ss@[d as int]@ == vstd::utf8::decode_utf8(b)),
            r matches Err(e) ==> if !column_readable(self.spec_forward_index(), self.spec_total_docs()) {
                e is InvalidFormat
            } else {
                e is Parse
            },
    {
        let bytes = match self.read_all_bytes() {
            Ok(b) => b,
            Err(e) => return Err(e),
        };
        match decode_entries(&bytes) {
            Some(ss) => {
                proof {
                    assert forall|d: nat| d < ss@.len() implies (#[trigger] doc_value(
                        self.spec_forward_index(),
                        d,
                    ) matches Some(b) && ss@[d as int]@ == vstd::utf8::decode_utf8(b)) by {
                        assert(ss@.map_values(|s: String| s@).len() == bytes@.map_values(
                            |v: Vec<u8>| v@,
                        ).map_values(|b: Seq<u8>| vstd::utf8::decode_utf8(b)).len());
                        assert(d < bytes@.len());
                        assert(ss@.map_values(|s: String| s@)[d as int] == ss@[d as int]@);
                        assert(bytes@.map_values(|v: Vec<u8>| v@)[d as int] == bytes@[d as int]@);
                        assert(doc_value(self.spec_forward_index(), d) == Some(bytes@[d as int]@));
                    }
                }
                Ok(ss)
            },
            None => Err(Error::Parse("Invalid UTF-8 in column value".to_owned())),
        }
    }

    /// The chunk that holds `doc_id`: the last one whose first document id is
    /// at most `doc_id`, found by binary search.
    fn find_chunk(&self, doc_id: u32) -> (r: Option<usize>)
        requires
            self.wf(),
        ensures
            r matches Some(i) ==> chunk_of(self.spec_forward_index(), doc_id as nat, num_chunks(
                self.spec_forward_index(),
            )) == i && i < self.spec_num_chunks(),
            r is None ==> chunk_of(self.spec_forward_index(), doc_id as nat, num_chunks(
                self.spec_forward_index(),
            )) == -1,
    {
        let ghost f = self.fwd@;
        let n: usize = self.chunks.len();
        let mut lo: usize = 0;
        let mut hi: usize = n;
        while lo < hi
            invariant
                self.wf(),
                f == self.fwd@,
                n == self.chunks@.len(),
                lo <= hi <= n,
                forall|j: int| 0 <= j < lo ==> chunk_first(f, j) <= doc_id,
                forall|j: int| hi <= j < n ==> chunk_first(f, j) > doc_id,
            decreases hi - lo,
        {
            let mid: usize = lo + (hi - lo) / 2;
            proof {
                assert(self.chunks@[mid as int].first_doc as nat == chunk_first(f, mid as int));
            }
            if self.chunks[mid].first_doc <= doc_id {
                lo = mid + 1;
            } else {
                hi = mid;
            }
        }
        proof {
            lemma_chunk_of_partition(f, doc_id as nat, lo as int, n as int);
        }
        if lo == 0 {
            None
        } else {
            Some(lo - 1)
        }
    }

    /// The raw bytes of document `doc_id`.
    pub fn get_bytes(&self, doc_id: u32) -> (r: Result<Vec<u8>>)
        requires
            self.wf(),
        ensures
            r is Ok <==> doc_value(self.spec_forward_index(), doc_id as nat) is Some,
            r matches Ok(v) ==> doc_value(self.spec_forward_index(), doc_id as nat) == Some(v@),
            r is Err ==> (r matches Err(Error::InvalidFormat(m)) && m@ == doc_error_text(
                self.spec_forward_index(),
                doc_id as nat,
            )),
    {
        let ghost f = self.fwd@;
        let i = match self.find_chunk(doc_id) {
            Some(i) => i,
            None => return Err(Error::InvalidFormat("doc_id precedes every chunk".to_owned())),
        };
        proof {
            lemma_chunk_of_le(f, doc_id as nat, num_chunks(f));
            assert(self.chunks@[i as int].first_doc as nat == chunk_first(f, i as int));
        }
        let vs = match self.decode_chunk(i) {
            Ok(vs) => vs,
            Err(e) => return Err(e),
        };
        let idx: u32 = doc_id - self.chunks[i].first_doc;
        if idx as usize >= vs.len() {
            return Err(Error::InvalidFormat("doc_id not in chunk".to_owned()));
        }
        Ok(slice_to_vec(vs[idx as usize].as_slice(), 0, vs[idx as usize].len()))
    }

    /// The value of document `doc_id` as text.
    pub fn get_string(&self, doc_id: u32) -> (r: Result<String>)
        requires
            self.wf(),
        ensures
            r is Ok <==> (doc_value(self.spec_forward_index(), doc_id as nat) matches Some(v)
                && vstd::utf8::valid_utf8(v)),
            r matches Ok(s) ==> s@ == vstd::utf8::decode_utf8(
                doc_value(self.spec_forward_index(), doc_id as nat)->0,
            ),
            r matches Err(e) ==> if doc_value(self.spec_forward_index(), doc_id as nat) is None {
                e matches Error::InvalidFormat(m) && m@ == doc_error_text(
                    self.spec_forward_index(),
                    doc_id as nat,
                )
            } else {
                e is Parse
            },
    {
        let bytes = match self.get_bytes(doc_id) {
            Ok(b) => b,
            Err(e) => return Err(e),
        };
        match crate::bytes::utf8_to_string(bytes) {
            Some(s) => Ok(s),
            None => Err(Error::Parse("Invalid UTF-8 in column value".to_owned())),
        }
    }
}

/// Whether the chunk table agrees with the chunk contents: every chunk
/// decodes, the first chunk starts at document 0, and each later chunk starts
/// right after the values of the one before it.
pub open spec fn table_consistent(f: Seq<u8>) -> bool {
    &&& num_chunks(f) > 0 ==> chunk_first(f, 0) == 0
    &&& forall|i: int| 0 <= i < num_chunks(f) ==> (#[trigger] decoded_chunk(f, i)) is Some
    &&& forall|i: int|
        0 <= i && i + 1 < num_chunks(f) ==> #[trigger] chunk_first(f, i + 1) == chunk_first(f, i)
            + decoded_chunk(f, i)->0.len()
}

proof fn lemma_chunk_of_bounds(f: Seq<u8>, doc: nat, n: int, j: int)
    requires
        0 <= j < n,
    ensures
        chunk_first(f, j) <= doc ==> chunk_of(f, doc, n) >= j,
        chunk_of(f, doc, n) < j ==> chunk_first(f, j) > doc,
    decreases n,
{
    if chunk_first(f, n - 1) > doc && j < n - 1 {
        lemma_chunk_of_bounds(f, doc, n - 1, j);
    }
}

proof fn lemma_values_prefix(f: Seq<u8>, m: int, n: int)
    requires
        0 <= m <= n,
        values_upto(f, n) is Some,
    ensures
        values_upto(f, m) is Some,
        values_upto(f, m)->0.len() <= values_upto(f, n)->0.len(),
        forall|k: int|
            0 <= k < values_upto(f, m)->0.len() ==> values_upto(f, n)->0[k] == values_upto(f, m)->0[k],
    decreases n - m,
{
    if m < n {
        lemma_values_prefix(f, m, n - 1);
    }
}

proof fn lemma_values_lengths(f: Seq<u8>, m: int)
    requires
        table_consistent(f),
        1 <= m <= num_chunks(f),
    ensures
        values_upto(f, m) is Some,
        values_upto(f, m)->0.len() == chunk_first(f, m - 1) + decoded_chunk(f, m - 1)->0.len(),
    decreases m,
{
    assert(decoded_chunk(f, m - 1) is Some);
    if m > 1 {
        lemma_values_lengths(f, m - 1);
        assert(chunk_first(f, (m - 2) + 1) == chunk_first(f, m - 2) + decoded_chunk(f, m - 2)->0.len());
    }
}

/// Reading the whole column at once gives, document by document, what
/// looking each document up through the chunk table gives, whenever the
/// table agrees with the chunks it describes.
pub proof fn lemma_bulk_matches_lookup(f: Seq<u8>)
    requires
        firsts_increase(f),
        table_consistent(f),
    ensures
        column_values(f) is Some,
        forall|d: nat|
            d < column_values(f)->0.len() ==> #[trigger] doc_value(f, d) == Some(
                column_values(f)->0[d as int],
            ),
{
    let n = num_chunks(f);
    if n <= 0 {
        assert(column_values(f) == Some(Seq::<Seq<u8>>::empty()));
        return;
    }
    lemma_values_lengths(f, n);
    let all = column_values(f)->0;
    assert forall|d: nat| d < all.len() implies #[trigger] doc_value(f, d) == Some(all[d as int]) by {
        lemma_chunk_of_bounds(f, d, n, 0);
        let i = chunk_of(f, d, n);
        lemma_chunk_of_le(f, d, n);
        let vs = decoded_chunk(f, i)->0;
        assert(decoded_chunk(f, i) is Some);
        // d lies inside chunk i
        if i + 1 < n {
            lemma_chunk_of_bounds(f, d, n, i + 1);
            assert(chunk_first(f, i + 1) == chunk_first(f, i) + vs.len());
        }
        assert(d - chunk_first(f, i) < vs.len());
        // the values before chunk i number exactly its first document id
        lemma_values_prefix(f, i + 1, n);
        if i > 0 {
            lemma_values_lengths(f, i);
            assert(chunk_first(f, (i - 1) + 1) == chunk_first(f, i - 1) + decoded_chunk(f, i - 1)->0.len());
            assert(values_upto(f, i)->0.len() == chunk_first(f, i));
        } else {
            assert(values_upto(f, 0) == Some(Seq::<Seq<u8>>::empty()));
        }
        let before = values_upto(f, i)->0;
        assert(values_upto(f, i + 1)->0 == before + vs);
        assert((before + vs)[d as int] == vs[d - chunk_first(f, i)]);
    }
}

/// A header whose version was written in little-endian order (bytes
/// `04 00 00 00`) is not version 4: the index is refused as an unsupported
/// variant rather than read with a wrong byte order.
pub proof fn lemma_little_endian_version_rejected(f: Seq<u8>)
    requires
        header_start(f) + 16 <= f.len(),
        f[header_start(f)] == 4,
        f[header_start(f) + 1] == 0,
        f[header_start(f) + 2] == 0,
        f[header_start(f) + 3] == 0,
    ensures
        version(f) != 4,
        !layout_ok(f),
        layout_unsupported(f),
{
    assert(header_word(f, 0) == 0x0400_0000);
}

proof fn lemma_aligned_is_consistent(f: Seq<u8>)
    requires
        column_aligned(f),
    ensures
        table_consistent(f),
{
    let n = num_chunks(f);
    if n > 0 {
        assert(chunk_first(f, 0) == values_upto(f, 0)->0.len());
    }
    assert forall|i: int| 0 <= i < n implies (#[trigger] decoded_chunk(f, i)) is Some by {
        lemma_values_prefix(f, i + 1, n);
    }
    assert forall|i: int| 0 <= i && i + 1 < n implies #[trigger] chunk_first(f, i + 1) == chunk_first(
        f,
        i,
    ) + decoded_chunk(f, i)->0.len() by {
        lemma_values_prefix(f, i + 1, n);
        assert(chunk_first(f, i) == values_upto(f, i)->0.len());
        assert(chunk_first(f, i + 1) == values_upto(f, i + 1)->0.len());
    }
}

} // verus!
