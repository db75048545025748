//! The segment reader: parsed metadata and index map, and typed reads of
//! whole columns out of the segment's data blob.
use vstd::prelude::*;

use crate::bytes::{be32, be64};
use crate::dictionary::{
    all_utf8, dictionary_holds, dictionary_type, entries_fit, magic_at,
    string_entries, DictionaryReader, DictionaryValue,
};
use crate::error::{invalid_format, unsupported, Error, Result};
use crate::fixed_bit::{packed_value, value_in_buffer, FixedBitWidthReader};
use crate::index_map::{location, records_from, IndexLocation, IndexMap, RecordView};
use crate::metadata::{
    find_column, metadata_complete, metadata_entries, parsed_from, ColumnMetadata, DataType,
    SegmentMetadata,
};
use crate::properties::entries;
use crate::var_byte::{column_read, column_readable, layout_ok, layout_unsupported, VarByteChunkReader};
use vstd::utf8::decode_utf8;

verus! {

/// The dictionary ids packed into the forward index at `floc` (offset, size)
/// of `data`, `n` values of `b` bits; `None` when the index cannot hold them.
pub open spec fn packed_ids(data: Seq<u8>, floc: (nat, nat), b: nat, n: nat) -> Option<Seq<nat>> {
    if floc.0 + floc.1 <= data.len() && floc.1 >= 8 && 1 <= b <= 31 {
        let buf = data.subrange(floc.0 + 8int, (floc.0 + floc.1) as int);
        if forall|i: nat| i < n ==> #[trigger] value_in_buffer(buf.len(), b, i) {
            Some(Seq::new(n, |i: int| packed_value(buf, b, i as nat)))
        } else {
            None
        }
    } else {
        None
    }
}

/// Whether every id is below `card`.
pub open spec fn ids_below(ids: Seq<nat>, card: nat) -> bool {
    forall|k: int| 0 <= k < ids.len() ==> #[trigger] ids[k] < card
}

/// The values `xs[id]` of the ids, or `None` when an id is out of range.
fn lookup_ids<T: Copy>(xs: &Vec<T>, ids: &Vec<u32>) -> (r: Option<Vec<T>>)
    ensures
        r is Some <==> ids_below(ids@.map_values(|v: u32| v as nat), xs@.len()),
        r matches Some(out) ==> out@ == ids@.map_values(|v: u32| xs@[v as int]),
{
    let ghost want = ids@.map_values(|v: u32| v as nat);
    let mut out: Vec<T> = Vec::new();
    let mut k: usize = 0;
    while k < ids.len()
        invariant
            k <= ids@.len(),
            want == ids@.map_values(|v: u32| v as nat),
            forall|j: int| 0 <= j < k ==> #[trigger] want[j] < xs@.len(),
            out@ == ids@.subrange(0, k as int).map_values(|v: u32| xs@[v as int]),
        decreases ids@.len() - k,
    {
        let id = ids[k];
        if id as usize >= xs.len() {
            proof {
                assert(want[k as int] == id as nat);
            }
            return None;
        }
        out.push(xs[id as usize]);
        k = k + 1;
        proof {
            assert(out@ =~= ids@.subrange(0, k as int).map_values(|v: u32| xs@[v as int]));
        }
    }
    proof {
        assert(ids@.subrange(0, k as int) =~= ids@);
    }
    Some(out)
}

/// The strings `xs[id]` of the ids, or `None` when an id is out of range.
fn lookup_string_ids(xs: &Vec<String>, ids: &Vec<u32>) -> (r: Option<Vec<String>>)
    ensures
        r is Some <==> ids_below(ids@.map_values(|v: u32| v as nat), xs@.len()),
        r matches Some(out) ==> out@.map_values(|s: String| s@) == ids@.map_values(|v: u32| xs@[v as int]@),
{
    let ghost want = ids@.map_values(|v: u32| v as nat);
    let mut out: Vec<String> = Vec::new();
    let mut k: usize = 0;
    while k < ids.len()
        invariant
            k <= ids@.len(),
            want == ids@.map_values(|v: u32| v as nat),
            forall|j: int| 0 <= j < k ==> #[trigger] want[j] < xs@.len(),
            out@.map_values(|s: String| s@) == ids@.subrange(0, k as int).map_values(|v: u32| xs@[v as int]@),
        decreases ids@.len() - k,
    {
        let id = ids[k];
        if id as usize >= xs.len() {
            proof {
                assert(want[k as int] == id as nat);
            }
            return None;
        }
        let s = xs[id as usize].clone();
        let ghost before = out@.map_values(|s: String| s@);
        out.push(s);
        proof {
            assert(out@.map_values(|s: String| s@) =~= before.push(s@));
            assert(ids@.subrange(0, k + 1).map_values(|v: u32| xs@[v as int]@) =~= ids@.subrange(
                0,
                k as int,
            ).map_values(|v: u32| xs@[v as int]@).push(xs@[id as int]@));
        }
        k = k + 1;
        proof {
            assert(out@.map_values(|s: String| s@) =~= ids@.subrange(0, k as int).map_values(|v: u32| xs@[v as int]@));
        }
    }
    proof {
        assert(ids@.subrange(0, k as int) =~= ids@);
    }
    Some(out)
}

/// The strings of a string dictionary for the given ids.
fn strings_for_ids(d: &DictionaryReader, ids: &Vec<u32>, Ghost(es): Ghost<Seq<Seq<u8>>>) -> (r: Option<Vec<String>>)
    requires
        d.values matches DictionaryValue::String(xs) && xs@.map_values(|s: String| s@) == es.map_values(
            |b: Seq<u8>| decode_utf8(b),
        ),
    ensures
        r is Some <==> ids_below(ids@.map_values(|v: u32| v as nat), es.len()),
        r matches Some(out) ==> out@.map_values(|s: String| s@) == ids@.map_values(|v: u32| v as nat).map_values(
            |id: nat| decode_utf8(es[id as int]),
        ),
        r matches Some(out) ==> out@.len() == ids@.len(),
{
    match &d.values {
        DictionaryValue::String(xs) => {
            proof {
                assert(xs@.len() == es.len()) by {
                    assert(xs@.map_values(|s: String| s@).len() == es.map_values(|b: Seq<u8>| decode_utf8(b)).len());
                }
            }
            match lookup_string_ids(xs, ids) {
                Some(out) => {
                    proof {
                        let xv = xs@.map_values(|s: String| s@);
                        assert forall|k: int| 0 <= k < ids@.len() implies ids@[k] < xs@.len() by {
                            assert(ids@.map_values(|v: u32| v as nat)[k] < xs@.len());
                        }
                        assert(out@.map_values(|s: String| s@) =~= ids@.map_values(|v: u32| xv[v as int]));
                        lemma_strings_of_ids(
                            xs@.map_values(|s: String| s@),
                            es,
                            ids@,
                            out@.map_values(|s: String| s@),
                        );
                    }
                    Some(out)
                },
                None => None,
            }
        },
        _ => None,
    }
}

proof fn lemma_strings_of_ids(xs: Seq<Seq<char>>, es: Seq<Seq<u8>>, ids: Seq<u32>, out: Seq<Seq<char>>)
    requires
        xs == es.map_values(|b: Seq<u8>| decode_utf8(b)),
        ids_below(ids.map_values(|v: u32| v as nat), xs.len()),
        out == ids.map_values(|v: u32| xs[v as int]),
    ensures
        out == ids.map_values(|v: u32| v as nat).map_values(|id: nat| decode_utf8(es[id as int])),
{
    assert forall|k: int| 0 <= k < ids.len() implies out[k] == decode_utf8(es[ids[k] as int]) by {
        assert(ids.map_values(|v: u32| v as nat)[k] < xs.len());
    }
    assert(out =~= ids.map_values(|v: u32| v as nat).map_values(|id: nat| decode_utf8(es[id as int])));
}

/// Owning handle over a segment's metadata and index map.
#[derive(Debug)]
pub struct SegmentReader {
    metadata: SegmentMetadata,
    index_map: IndexMap,
}

impl SegmentReader {
    pub closed spec fn spec_metadata(&self) -> SegmentMetadata {
        self.metadata
    }

    pub closed spec fn spec_records(&self) -> Seq<RecordView> {
        self.index_map.view_records()
    }

    /// Every column has as many rows as the segment.
    pub open spec fn wf(&self) -> bool {
        forall|k: int|
            0 <= k < self.spec_metadata().columns@.len() ==> (#[trigger] self.spec_metadata().columns@[
                k
            ]).total_docs == self.spec_metadata().total_docs
    }

    /// The metadata of column `name`.
    pub open spec fn column(&self, name: Seq<char>) -> Option<ColumnMetadata> {
        find_column(self.spec_metadata().columns@, name)
    }

    /// Where the index of kind `kind` of column `name` lives.
    pub open spec fn loc(&self, name: Seq<char>, kind: Seq<char>) -> Option<(nat, nat)> {
        location(self.spec_records(), name, kind)
    }

    /// The dictionary ids of column `name`, read from `data`.
    pub open spec fn ids(&self, name: Seq<char>, data: Seq<u8>) -> Option<Seq<nat>> {
        let c = self.column(name)->0;
        match self.loc(name, "forward_index"@) {
            Some(floc) => packed_ids(data, floc, c.bits_per_element as nat, c.total_docs as nat),
            None => None,
        }
    }

    /// Whether the dictionary of column `name` decodes from `data`.
    pub open spec fn dictionary_ok(&self, name: Seq<char>, data: Seq<u8>) -> bool {
        let c = self.column(name)->0;
        match self.loc(name, "dictionary"@) {
            Some(dloc) => {
                &&& magic_at(data, dloc.0 as int)
                &&& dictionary_type(c.data_type)
                &&& entries_fit(
                    data,
                    dloc.0 as int,
                    c.data_type,
                    c.cardinality as nat,
                    c.length_of_each_entry as nat,
                )
                &&& (c.data_type is String ==> all_utf8(
                    string_entries(
                        data,
                        dloc.0 + 8int,
                        c.cardinality as nat,
                        c.length_of_each_entry as nat,
                    )->0,
                ))
            },
            None => false,
        }
    }

    /// Whether the dictionary-encoded column `name` of type `dt` reads from `data`.
    pub open spec fn dict_column_ok(&self, name: Seq<char>, data: Seq<u8>, dt: DataType) -> bool {
        let c = self.column(name)->0;
        &&& self.column(name) is Some
        &&& c.data_type == dt
        &&& c.has_dictionary
        &&& self.dictionary_ok(name, data)
        &&& self.ids(name, data) is Some
        &&& ids_below(self.ids(name, data)->0, c.cardinality as nat)
    }

    /// Start of the dictionary of column `name`.
    pub open spec fn dict_start(&self, name: Seq<char>) -> int {
        let l = self.loc(name, "dictionary"@)->0;
        l.0 as int
    }

    /// Opens a segment from the text of its `metadata.properties` and
    /// `index_map` files.
    pub fn open(metadata_text: &str, index_map_text: &str) -> (r: Result<Self>)
        ensures
            r is Ok <==> metadata_complete(metadata_entries(metadata_text@)) && records_from(
                entries(index_map_text@),
                0,
            ) is Some,
            r matches Ok(rd) ==> rd.wf() && parsed_from(rd.spec_metadata(), metadata_text@) && records_from(
                entries(index_map_text@),
                0,
            ) == Some(rd.spec_records()),
            r is Err ==> r->Err_0 is Parse,
    {
        let metadata = SegmentMetadata::parse(metadata_text)?;
        let index_map = IndexMap::parse(index_map_text)?;
        Ok(SegmentReader { metadata, index_map })
    }

    pub fn metadata(&self) -> (r: &SegmentMetadata)
        ensures
            *r == self.spec_metadata(),
    {
        &self.metadata
    }

    pub fn total_docs(&self) -> (r: u32)
        ensures
            r == self.spec_metadata().total_docs,
    {
        self.metadata.total_docs
    }

    /// The dictionary of column `c`, named `name`.
    fn load_dictionary(&self, name: &str, c: &ColumnMetadata, data: &[u8]) -> (r: Result<DictionaryReader>)
        requires
            self.column(name@) == Some(*c),
        ensures
            r is Ok <==> self.dictionary_ok(name@, data@),
            r matches Ok(d) ==> dictionary_holds(
                d.values,
                data@,
                self.dict_start(name@),
                c.data_type,
                c.cardinality as nat,
                c.length_of_each_entry as nat,
            ),
            r matches Err(e) ==> match self.loc(name@, "dictionary"@) {
                None => e is InvalidFormat,
                Some(dloc) => if !magic_at(data@, dloc.0 as int) {
                    e is InvalidFormat
                } else if !dictionary_type(c.data_type) {
                    e is UnsupportedFeature
                } else if !entries_fit(
                    data@,
                    dloc.0 as int,
                    c.data_type,
                    c.cardinality as nat,
                    c.length_of_each_entry as nat,
                ) {
                    e is InvalidFormat
                } else {
                    e is Parse
                },
            },
    {
        let dloc: IndexLocation = match self.index_map.get_dictionary(name) {
            Some(l) => l,
            None => return Err(invalid_format("No dictionary for column")),
        };
        DictionaryReader::read(
            data,
            dloc.start_offset,
            dloc.size,
            c.data_type,
            c.cardinality,
            c.length_of_each_entry,
        )
    }

    /// The dictionary ids of column `c`, named `name`.
    fn load_ids(&self, name: &str, c: &ColumnMetadata, data: &[u8]) -> (r: Result<Vec<u32>>)
        requires
            self.column(name@) == Some(*c),
        ensures
            r is Ok <==> self.ids(name@, data@) is Some,
            r matches Ok(ids) ==> ids@.map_values(|v: u32| v as nat) == self.ids(name@, data@)->0,
            r is Err ==> r->Err_0 is InvalidFormat,
    {
        let floc: IndexLocation = match self.index_map.get_forward_index(name) {
            Some(l) => l,
            None => return Err(invalid_format("No forward index for column")),
        };
        let packed = FixedBitWidthReader::read(
            data,
            floc.start_offset,
            floc.size,
            c.bits_per_element,
            c.total_docs,
        )?;
        let ids = match packed.read_all() {
            Ok(ids) => ids,
            Err(e) => {
                proof {
                    let n = c.total_docs as nat;
                    let b = c.bits_per_element as nat;
                    let buf = packed.spec_buffer();
                    let i = choose|i: nat| i < n && !packed.decodable(i);
                    assert(!value_in_buffer(buf.len(), b, i));
                }
                return Err(e);
            },
        };
        proof {
            let n = c.total_docs as nat;
            let b = c.bits_per_element as nat;
            let buf = data@.subrange(floc.start_offset + 8int, (floc.start_offset + floc.size) as int);
            assert(packed.spec_buffer() == buf);
            assert forall|i: nat| i < n implies #[trigger] value_in_buffer(buf.len(), b, i) by {
                assert(packed.decodable(i));
            }
            assert(self.ids(name@, data@) == Some(Seq::new(n, |i: int| packed_value(buf, b, i as nat))));
            assert(ids@.map_values(|v: u32| v as nat) =~= self.ids(name@, data@)->0);
        }
        Ok(ids)
    }
    /// Whether the dictionary of column `name` is present and fits in `data`
    /// but holds a string that is not UTF-8.
    pub open spec fn dictionary_text_invalid(&self, name: Seq<char>, data: Seq<u8>) -> bool {
        let c = self.column(name)->0;
        &&& self.loc(name, "dictionary"@) is Some
        &&& magic_at(data, self.dict_start(name))
        &&& entries_fit(
            data,
            self.dict_start(name),
            c.data_type,
            c.cardinality as nat,
            c.length_of_each_entry as nat,
        )
        &&& !self.dictionary_ok(name, data)
    }

    /// The kind of error a read of the dictionary-encoded column `name` of type
    /// `dt` reports when it fails.
    pub open spec fn dict_column_error(&self, name: Seq<char>, data: Seq<u8>, dt: DataType, e: Error) -> bool {
        match self.column(name) {
            None => e matches Error::ColumnNotFound(m) && m@ == name,
            Some(c) => if c.data_type != dt {
                e is InvalidFormat
            } else if !c.has_dictionary {
                e is UnsupportedFeature
            } else if self.dictionary_text_invalid(name, data) {
                e is Parse
            } else {
                e is InvalidFormat
            },
        }
    }

    /// The checks, dictionary and ids shared by the reads of dictionary-encoded columns.
    fn dictionary_column(&self, column_name: &str, data: &[u8], dt: DataType) -> (r: Result<
        (ColumnMetadata, DictionaryReader, Vec<u32>),
    >)
        requires
            self.wf(),
            dictionary_type(dt),
        ensures
            r is Ok <==> (self.column(column_name@) matches Some(c) && c.data_type == dt
                && c.has_dictionary && self.dictionary_ok(column_name@, data@) && self.ids(
                column_name@,
                data@,
            ) is Some),
            r matches Ok((c, d, ids)) ==> {
                &&& self.column(column_name@) == Some(c)
                &&& dictionary_holds(
                    d.values,
                    data@,
                    self.dict_start(column_name@),
                    dt,
                    c.cardinality as nat,
                    c.length_of_each_entry as nat,
                )
                &&& ids@.map_values(|v: u32| v as nat) == self.ids(column_name@, data@)->0
                &&& ids@.len() == self.spec_metadata().total_docs
            },
            r matches Err(e) ==> self.dict_column_error(column_name@, data@, dt, e),
    {
        let c = self.metadata.get_column(column_name)?;
        if c.data_type != dt {
            return Err(invalid_format("Column has another data type"));
        }
        if !c.has_dictionary {
            return Err(unsupported("Column without dictionary not supported for this type"));
        }
        let dictionary = self.load_dictionary(column_name, c, data)?;
        let ids = self.load_ids(column_name, c, data)?;
        proof {
            crate::metadata::lemma_find_column_member(self.spec_metadata().columns@, column_name@);
            assert(ids@.map_values(|v: u32| v as nat).len() == ids@.len());
        }
        Ok((c.clone_metadata(), dictionary, ids))
    }

    /// The dictionary-encoded INT column `column_name`, its dictionary and
    /// forward index read from the data blob `data`.
    pub fn read_int_column(&self, column_name: &str, data: &[u8]) -> (r: Result<Vec<i32>>)
        requires
            self.wf(),
        ensures
            r is Ok <==> self.dict_column_ok(column_name@, data@, DataType::Int),
            r matches Ok(v) ==> v@ == self.ids(column_name@, data@)->0.map_values(
                |id: nat| be32(data@, self.dict_start(column_name@) + 8 + 4 * id) as u32 as i32,
            ),
            r matches Err(e) ==> self.dict_column_error(column_name@, data@, DataType::Int, e),
            r matches Ok(v) ==> v@.len() == self.spec_metadata().total_docs,
    {
        let (c, dictionary, ids) = self.dictionary_column(column_name, data, DataType::Int)?;
        let ghost want = self.ids(column_name@, data@)->0;
        match &dictionary.values {
            DictionaryValue::Int(xs) => match lookup_ids(xs, &ids) {
                Some(out) => {
                    proof {
                        assert(out@ =~= want.map_values(
                            |id: nat| be32(data@, self.dict_start(column_name@) + 8 + 4 * id) as u32 as i32,
                        ));
                    }
                    Ok(out)
                },
                None => Err(invalid_format("Invalid dictionary id")),
            },
            _ => Err(invalid_format("Dictionary of another type")),
        }
    }

    /// The dictionary-encoded LONG column `column_name`, its dictionary and
    /// forward index read from the data blob `data`.
    pub fn read_long_column(&self, column_name: &str, data: &[u8]) -> (r: Result<Vec<i64>>)
        requires
            self.wf(),
        ensures
            r is Ok <==> self.dict_column_ok(column_name@, data@, DataType::Long),
            r matches Ok(v) ==> v@ == self.ids(column_name@, data@)->0.map_values(
                |id: nat| be64(data@, self.dict_start(column_name@) + 8 + 8 * id) as u64 as i64,
            ),
            r matches Err(e) ==> self.dict_column_error(column_name@, data@, DataType::Long, e),
            r matches Ok(v) ==> v@.len() == self.spec_metadata().total_docs,
    {
        let (c, dictionary, ids) = self.dictionary_column(column_name, data, DataType::Long)?;
        let ghost want = self.ids(column_name@, data@)->0;
        match &dictionary.values {
            DictionaryValue::Long(xs) => match lookup_ids(xs, &ids) {
                Some(out) => {
                    proof {
                        assert(out@ =~= want.map_values(
                            |id: nat| be64(data@, self.dict_start(column_name@) + 8 + 8 * id) as u64 as i64,
                        ));
                    }
                    Ok(out)
                },
                None => Err(invalid_format("Invalid dictionary id")),
            },
            _ => Err(invalid_format("Dictionary of another type")),
        }
    }

    /// The IEEE-754 bit patterns of the dictionary-encoded FLOAT column `column_name`, its dictionary and
    /// forward index read from the data blob `data`.
    pub fn read_float_bits_column(&self, column_name: &str, data: &[u8]) -> (r: Result<Vec<u32>>)
        requires
            self.wf(),
        ensures
            r is Ok <==> self.dict_column_ok(column_name@, data@, DataType::Float),
            r matches Ok(v) ==> v@ == self.ids(column_name@, data@)->0.map_values(
                |id: nat| be32(data@, self.dict_start(column_name@) + 8 + 4 * id) as u32,
            ),
            r matches Err(e) ==> self.dict_column_error(column_name@, data@, DataType::Float, e),
            r matches Ok(v) ==> v@.len() == self.spec_metadata().total_docs,
    {
        let (c, dictionary, ids) = self.dictionary_column(column_name, data, DataType::Float)?;
        let ghost want = self.ids(column_name@, data@)->0;
        match &dictionary.values {
            DictionaryValue::Float(xs) => match lookup_ids(xs, &ids) {
                Some(out) => {
                    proof {
                        assert(out@ =~= want.map_values(
                            |id: nat| be32(data@, self.dict_start(column_name@) + 8 + 4 * id) as u32,
                        ));
                    }
                    Ok(out)
                },
                None => Err(invalid_format("Invalid dictionary id")),
            },
            _ => Err(invalid_format("Dictionary of another type")),
        }
    }

    /// The IEEE-754 bit patterns of the dictionary-encoded DOUBLE column `column_name`, its dictionary and
    /// forward index read from the data blob `data`.
    pub fn read_double_bits_column(&self, column_name: &str, data: &[u8]) -> (r: Result<Vec<u64>>)
        requires
            self.wf(),
        ensures
            r is Ok <==> self.dict_column_ok(column_name@, data@, DataType::Double),
            r matches Ok(v) ==> v@ == self.ids(column_name@, data@)->0.map_values(
                |id: nat| be64(data@, self.dict_start(column_name@) + 8 + 8 * id) as u64,
            ),
            r matches Err(e) ==> self.dict_column_error(column_name@, data@, DataType::Double, e),
            r matches Ok(v) ==> v@.len() == self.spec_metadata().total_docs,
    {
        let (c, dictionary, ids) = self.dictionary_column(column_name, data, DataType::Double)?;
        let ghost want = self.ids(column_name@, data@)->0;
        match &dictionary.values {
            DictionaryValue::Double(xs) => match lookup_ids(xs, &ids) {
                Some(out) => {
                    proof {
                        assert(out@ =~= want.map_values(
                            |id: nat| be64(data@, self.dict_start(column_name@) + 8 + 8 * id) as u64,
                        ));
                    }
                    Ok(out)
                },
                None => Err(invalid_format("Invalid dictionary id")),
            },
            _ => Err(invalid_format("Dictionary of another type")),
        }
    }

    /// The values of the string dictionary of column `name` for the ids read from `data`.
    pub open spec fn dict_strings(&self, name: Seq<char>, data: Seq<u8>) -> Seq<Seq<char>> {
        let c = self.column(name)->0;
        let es = string_entries(
            data,
            self.dict_start(name) + 8,
            c.cardinality as nat,
            c.length_of_each_entry as nat,
        )->0;
        self.ids(name, data)->0.map_values(|id: nat| decode_utf8(es[id as int]))
    }

    /// The forward index bytes of the raw column `name`.
    pub open spec fn raw_index(&self, name: Seq<char>, data: Seq<u8>) -> Seq<u8> {
        let l = self.loc(name, "forward_index"@)->0;
        data.subrange(l.0 as int, (l.0 + l.1) as int)
    }

    /// Whether the raw (dictionary-less) string column `name` reads from `data`.
    pub open spec fn raw_column_ok(&self, name: Seq<char>, data: Seq<u8>) -> bool {
        &&& self.loc(name, "forward_index"@) matches Some(l) && l.0 + l.1 <= data.len()
        &&& layout_ok(self.raw_index(name, data))
        &&& column_readable(self.raw_index(name, data), self.spec_metadata().total_docs as nat)
        &&& all_utf8(column_read(self.raw_index(name, data), self.spec_metadata().total_docs as nat))
    }

    /// The kind of error a read of the raw string column `name` reports when it fails.
    pub open spec fn raw_column_error(&self, name: Seq<char>, data: Seq<u8>, e: Error) -> bool {
        if !(self.loc(name, "forward_index"@) matches Some(l) && l.0 + l.1 <= data.len()) {
            e is InvalidFormat
        } else if !layout_ok(self.raw_index(name, data)) {
            if layout_unsupported(self.raw_index(name, data)) {
                e is UnsupportedFeature
            } else {
                e is InvalidFormat
            }
        } else if !column_readable(self.raw_index(name, data), self.spec_metadata().total_docs as nat) {
            e is InvalidFormat
        } else {
            e is Parse
        }
    }

    /// The dictionary-encoded STRING column `column_name`.
    #[verifier::rlimit(40)]
    pub fn read_dict_encoded_string(&self, column_name: &str, data: &[u8]) -> (r: Result<Vec<String>>)
        requires
            self.wf(),
        ensures
            r is Ok <==> self.dict_column_ok(column_name@, data@, DataType::String),
            r matches Ok(v) ==> v@.map_values(|s: String| s@) == self.dict_strings(column_name@, data@),
            r matches Err(e) ==> self.dict_column_error(column_name@, data@, DataType::String, e),
            r matches Ok(v) ==> v@.len() == self.spec_metadata().total_docs,
    {
        let (c, dictionary, ids) = self.dictionary_column(column_name, data, DataType::String)?;
        let ghost es = string_entries(
            data@,
            self.dict_start(column_name@) + 8,
            c.cardinality as nat,
            c.length_of_each_entry as nat,
        )->0;
        proof {
            crate::dictionary::lemma_string_entries_len(
                data@,
                self.dict_start(column_name@) + 8,
                c.cardinality as nat,
                c.length_of_each_entry as nat,
            );
        }
        match strings_for_ids(&dictionary, &ids, Ghost(es)) {
            Some(out) => Ok(out),
            None => Err(invalid_format("Invalid dictionary id")),
        }
    }

    /// The raw (dictionary-less) STRING column `column_name`, read chunk by chunk.
    pub fn read_raw_string(&self, column_name: &str, data: &[u8]) -> (r: Result<Vec<String>>)
        requires
            self.wf(),
        ensures
            r is Ok <==> self.raw_column_ok(column_name@, data@),
            r matches Ok(v) ==> v@.map_values(|s: String| s@) == column_read(
                self.raw_index(column_name@, data@),
                self.spec_metadata().total_docs as nat,
            ).map_values(|b: Seq<u8>| decode_utf8(b)),
            r matches Err(e) ==> self.raw_column_error(column_name@, data@, e),
            r matches Ok(v) ==> v@.len() == self.spec_metadata().total_docs,
    {
        let floc: IndexLocation = match self.index_map.get_forward_index(column_name) {
            Some(l) => l,
            None => return Err(invalid_format("No forward index for column")),
        };
        let total_docs = self.metadata.total_docs;
        let reader = VarByteChunkReader::read(data, floc.start_offset, floc.size, total_docs)?;
        let r = reader.read_all_strings();
        proof {
            if r is Ok {
                assert(r->Ok_0@.map_values(|s: String| s@).len() == r->Ok_0@.len());
            }
        }
        r
    }

    /// The STRING column `column_name`, dictionary-encoded or raw.
    pub fn read_string_column(&self, column_name: &str, data: &[u8]) -> (r: Result<Vec<String>>)
        requires
            self.wf(),
        ensures
            r is Ok <==> (self.column(column_name@) matches Some(c) && c.data_type == DataType::String
                && if c.has_dictionary {
                self.dict_column_ok(column_name@, data@, DataType::String)
            } else {
                self.raw_column_ok(column_name@, data@)
            }),
            r matches Ok(v) ==> v@.map_values(|s: String| s@) == if self.column(
                column_name@,
            )->0.has_dictionary {
                self.dict_strings(column_name@, data@)
            } else {
                column_read(self.raw_index(column_name@, data@), self.spec_metadata().total_docs as nat).map_values(
                    |b: Seq<u8>| decode_utf8(b),
                )
            },
            r matches Err(e) ==> match self.column(column_name@) {
                None => e matches Error::ColumnNotFound(m) && m@ == column_name@,
                Some(c) => if c.data_type != DataType::String {
                    e is InvalidFormat
                } else if c.has_dictionary {
                    self.dict_column_error(column_name@, data@, DataType::String, e)
                } else {
                    self.raw_column_error(column_name@, data@, e)
                },
            },
            r matches Ok(v) ==> v@.len() == self.spec_metadata().total_docs,
    {
        let c = self.metadata.get_column(column_name)?;
        if c.data_type != DataType::String {
            return Err(invalid_format("Column is not STRING type"));
        }
        if c.has_dictionary {
            self.read_dict_encoded_string(column_name, data)
        } else {
            self.read_raw_string(column_name, data)
        }
    }
}

} // verus!
