//! Segment metadata: the `metadata.properties` text file that names the
//! segment, its table, its row count and the attributes of every column.
use vstd::prelude::*;

use crate::error::{parse_error, Error, Result};
use crate::properties::{entries, entry_view, lookup, lookup_entry, parse_entries, Entry};
use crate::text::{
    append_chars, chars_equal, chars_of, find_char, find_char_in, parse_unsigned,
    parse_unsigned_chars, string_from_chars, trim_range, trimmed, unescape, unescape_from,
};

verus! {

/// The value types a column can hold.
#[derive(Debug, Clone, Copy, PartialEq, Eq, Structural)]
pub enum DataType {
    Int,
    Long,
    Float,
    Double,
    String,
    Bytes,
    Boolean,
}

/// The data type named by an upper-case type token.
pub open spec fn data_type_of(v: Seq<char>) -> Option<DataType> {
    if v == "INT"@ {
        Some(DataType::Int)
    } else if v == "LONG"@ {
        Some(DataType::Long)
    } else if v == "FLOAT"@ {
        Some(DataType::Float)
    } else if v == "DOUBLE"@ {
        Some(DataType::Double)
    } else if v == "STRING"@ {
        Some(DataType::String)
    } else if v == "BYTES"@ {
        Some(DataType::Bytes)
    } else if v == "BOOLEAN"@ {
        Some(DataType::Boolean)
    } else {
        None
    }
}

fn same_text(a: &String, b: &str) -> (r: bool)
    ensures
        r == (a@ == b@),
{
    *a == b.to_owned()
}

impl DataType {
    /// The data type named by `s`; an unknown token is a `Parse` error.
    pub fn from_string(s: &str) -> (r: Result<DataType>)
        ensures
            r matches Ok(d) ==> data_type_of(s@) == Some(d),
            r is Err ==> data_type_of(s@) is None && r->Err_0 is Parse,
    {
        let owned = s.to_owned();
        if same_text(&owned, "INT") {
            Ok(DataType::Int)
        } else if same_text(&owned, "LONG") {
            Ok(DataType::Long)
        } else if same_text(&owned, "FLOAT") {
            Ok(DataType::Float)
        } else if same_text(&owned, "DOUBLE") {
            Ok(DataType::Double)
        } else if same_text(&owned, "STRING") {
            Ok(DataType::String)
        } else if same_text(&owned, "BYTES") {
            Ok(DataType::Bytes)
        } else if same_text(&owned, "BOOLEAN") {
            Ok(DataType::Boolean)
        } else {
            Err(Error::Parse("Unknown data type: ".to_owned().concat(s)))
        }
    }
}

/// Per-column attributes.
#[derive(Debug, Clone)]
pub struct ColumnMetadata {
    pub name: String,
    pub data_type: DataType,
    pub cardinality: u32,
    pub total_docs: u32,
    pub bits_per_element: u8,
    pub has_dictionary: bool,
    pub is_sorted: bool,
    pub length_of_each_entry: usize,
}

/// Segment-level metadata with its columns in discovery order (names unique).
#[derive(Debug)]
pub struct SegmentMetadata {
    pub segment_name: String,
    pub table_name: String,
    pub total_docs: u32,
    pub columns: Vec<ColumnMetadata>,
}

/// The entries of a metadata text, with escapes in values replaced.
pub open spec fn metadata_entries(t: Seq<char>) -> Seq<(Seq<char>, Seq<char>)> {
    entries(t).map_values(|p: (Seq<char>, Seq<char>)| (p.0, unescape_from(p.1, 0)))
}

/// The names of the comma-separated list `v[start..]`, trimmed, empty ones skipped.
pub open spec fn names_from(v: Seq<char>, start: int) -> Seq<Seq<char>>
    decreases v.len() + 1 - start,
{
    if start < 0 || start > v.len() {
        seq![]
    } else {
        let e = find_char(v, ',', start, v.len() as int);
        let item = trimmed(v, start, e);
        let cur = if item.len() > 0 {
            seq![item]
        } else {
            seq![]
        };
        if e < start || e >= v.len() {
            cur
        } else {
            cur + names_from(v, e + 1)
        }
    }
}

/// The names listed by an optional property value.
pub open spec fn names_of(v: Option<Seq<char>>) -> Seq<Seq<char>> {
    match v {
        Some(s) => names_from(s, 0),
        None => seq![],
    }
}

/// `s` with every repeated element after its first occurrence removed.
pub open spec fn dedup(s: Seq<Seq<char>>) -> Seq<Seq<char>>
    decreases s.len(),
{
    if s.len() == 0 {
        seq![]
    } else {
        let d = dedup(s.drop_last());
        if d.contains(s.last()) {
            d
        } else {
            d.push(s.last())
        }
    }
}

/// Every column name of the metadata entries `es`: the legacy `columns` list,
/// then the dimension, metric and date-time lists, without repeats.
pub open spec fn column_names(es: Seq<(Seq<char>, Seq<char>)>) -> Seq<Seq<char>> {
    dedup(
        names_of(lookup(es, "columns"@)) + names_of(lookup(es, "segment.dimension.column.names"@))
            + names_of(lookup(es, "segment.metric.column.names"@)) + names_of(
            lookup(es, "segment.datetime.column.names"@),
        ),
    )
}

/// The key of attribute `suffix` of column `name`.
pub open spec fn column_key(name: Seq<char>, suffix: Seq<char>) -> Seq<char> {
    "column."@ + name + "."@ + suffix
}

/// A numeric attribute: its value when it parses within `max`, else 0.
pub open spec fn numeric_prop(es: Seq<(Seq<char>, Seq<char>)>, key: Seq<char>, max: nat) -> nat {
    match lookup(es, key) {
        Some(v) => match parse_unsigned(v, max) {
            Some(n) => n,
            None => 0,
        },
        None => 0,
    }
}

/// A boolean attribute: true exactly when its value is `true`.
pub open spec fn flag_prop(es: Seq<(Seq<char>, Seq<char>)>, key: Seq<char>) -> bool {
    lookup(es, key) == Some("true"@)
}

/// The data type declared for column `name`, if declared and known.
pub open spec fn column_type(es: Seq<(Seq<char>, Seq<char>)>, name: Seq<char>) -> Option<DataType> {
    match lookup(es, column_key(name, "dataType"@)) {
        Some(v) => data_type_of(v),
        None => None,
    }
}

/// Whether `c` holds what the entries `es` says of column `name`.
pub open spec fn column_describes(c: ColumnMetadata, es: Seq<(Seq<char>, Seq<char>)>, name: Seq<char>, total_docs: u32) -> bool {
    &&& c.name@ == name
    &&& column_type(es, name) == Some(c.data_type)
    &&& c.cardinality as nat == numeric_prop(es, column_key(name, "cardinality"@), u32::MAX as nat)
    &&& c.bits_per_element as nat == numeric_prop(
        es,
        column_key(name, "bitsPerElement"@),
        u8::MAX as nat,
    )
    &&& c.has_dictionary == flag_prop(es, column_key(name, "hasDictionary"@))
    &&& c.is_sorted == flag_prop(es, column_key(name, "isSorted"@))
    &&& c.length_of_each_entry as nat == numeric_prop(
        es,
        column_key(name, "lengthOfEachEntry"@),
        usize::MAX as nat,
    )
    &&& c.total_docs == total_docs
}

/// The row count declared by the entries, if present and a valid `u32`.
pub open spec fn declared_total_docs(es: Seq<(Seq<char>, Seq<char>)>) -> Option<nat> {
    match lookup(es, "segment.total.docs"@) {
        Some(v) => parse_unsigned(v, u32::MAX as nat),
        None => None,
    }
}

/// Whether `m` holds what the metadata text `t` says.
pub open spec fn parsed_from(m: SegmentMetadata, t: Seq<char>) -> bool {
    let es = metadata_entries(t);
    &&& m.segment_name@ == lookup(es, "segment.name"@)->0
    &&& m.table_name@ == lookup(es, "segment.table.name"@)->0
    &&& m.total_docs as nat == declared_total_docs(es)->0
    &&& m.columns@.len() == column_names(es).len()
    &&& forall|k: int|
        0 <= k < m.columns@.len() ==> column_describes(
            #[trigger] m.columns@[k],
            es,
            column_names(es)[k],
            m.total_docs,
        )
}

/// The first column of `cs` called `name`.
pub open spec fn find_column(cs: Seq<ColumnMetadata>, name: Seq<char>) -> Option<ColumnMetadata>
    decreases cs.len(),
{
    if cs.len() == 0 {
        None
    } else if cs[0].name@ == name {
        Some(cs[0])
    } else {
        find_column(cs.drop_first(), name)
    }
}

/// Whether two column lists name the same columns with the same types, in order.
pub open spec fn same_columns(a: Seq<ColumnMetadata>, b: Seq<ColumnMetadata>) -> bool {
    a.len() == b.len() && forall|k: int|
        0 <= k < a.len() ==> (#[trigger] a[k]).name@ == b[k].name@ && a[k].data_type == b[k].data_type
}

/// `dedup` keeps no name twice.
pub proof fn lemma_dedup_distinct(s: Seq<Seq<char>>)
    ensures
        forall|j: int, k: int| 0 <= j < k < dedup(s).len() ==> dedup(s)[j] != dedup(s)[k],
    decreases s.len(),
{
    if s.len() > 0 {
        lemma_dedup_distinct(s.drop_last());
        let d = dedup(s.drop_last());
        if !d.contains(s.last()) {
            assert forall|j: int, k: int| 0 <= j < k < d.push(s.last()).len() implies d.push(
                s.last(),
            )[j] != d.push(s.last())[k] by {
                if k == d.len() {
                    assert(d[j] != s.last());
                }
            }
        }
    }
}

/// The column that `find_column` finds is one of `cs`.
pub proof fn lemma_find_column_member(cs: Seq<ColumnMetadata>, name: Seq<char>)
    ensures
        find_column(cs, name) matches Some(c) ==> exists|k: int| 0 <= k < cs.len() && cs[k] == c,
    decreases cs.len(),
{
    if cs.len() > 0 && cs[0].name@ != name {
        lemma_find_column_member(cs.drop_first(), name);
        if find_column(cs, name) is Some {
            let k = choose|k: int| 0 <= k < cs.drop_first().len() && cs.drop_first()[k] == find_column(cs, name)->0;
            assert(cs[k + 1] == find_column(cs, name)->0);
        }
    }
}

/// Whether the metadata entries `es` are complete: the three segment keys are
/// present, the row count parses, and every column declares a known type.
pub open spec fn metadata_complete(es: Seq<(Seq<char>, Seq<char>)>) -> bool {
    &&& lookup(es, "segment.name"@) is Some
    &&& lookup(es, "segment.table.name"@) is Some
    &&& declared_total_docs(es) is Some
    &&& forall|k: int| 0 <= k < column_names(es).len() ==> column_type(es, #[trigger] column_names(es)[k]) is Some
}

/// The entries with the escapes of every value replaced.
fn unescape_entries(es: Vec<Entry>) -> (r: Vec<Entry>)
    ensures
        r@.map_values(|e: Entry| entry_view(e)) == es@.map_values(|e: Entry| entry_view(e)).map_values(
            |p: (Seq<char>, Seq<char>)| (p.0, unescape_from(p.1, 0)),
        ),
{
    let ghost src = es@.map_values(|e: Entry| entry_view(e)).map_values(
        |p: (Seq<char>, Seq<char>)| (p.0, unescape_from(p.1, 0)),
    );
    let mut out: Vec<Entry> = Vec::new();
    let mut i: usize = 0;
    while i < es.len()
        invariant
            i <= es@.len(),
            src == es@.map_values(|e: Entry| entry_view(e)).map_values(
                |p: (Seq<char>, Seq<char>)| (p.0, unescape_from(p.1, 0)),
            ),
            out@.map_values(|e: Entry| entry_view(e)) == src.subrange(0, i as int),
        decreases es@.len() - i,
    {
        let key = crate::text::copy_range(&es[i].key, 0, es[i].key.len());
        let value = unescape(&es[i].value);
        let ghost before = out@.map_values(|e: Entry| entry_view(e));
        proof {
            assert(es@[i as int].key@.subrange(0, es@[i as int].key@.len() as int) =~= es@[i as int].key@);
            assert(src[i as int] == (key@, value@));
        }
        let entry = Entry { key, value };
        out.push(entry);
        proof {
            assert(out@.map_values(|e: Entry| entry_view(e)) =~= before.push(entry_view(entry)));
            assert(src.subrange(0, i as int + 1) =~= src.subrange(0, i as int).push(src[i as int]));
        }
        i = i + 1;
        proof {
            assert(out@.map_values(|e: Entry| entry_view(e)) =~= src.subrange(0, i as int));
        }
    }
    proof {
        assert(src.subrange(0, i as int) =~= src);
    }
    out
}

/// The value of the property named `key`.
fn prop_value<'a>(es: &'a Vec<Entry>, key: &str) -> (r: Option<&'a Vec<char>>)
    ensures
        r matches Some(v) ==> lookup(es@.map_values(|e: Entry| entry_view(e)), key@) == Some(v@),
        r is None ==> lookup(es@.map_values(|e: Entry| entry_view(e)), key@) is None,
{
    let k = chars_of(key);
    lookup_entry(es, &k)
}

/// Appends the names of the comma-separated list `v` to `out`.
fn split_names(v: &Vec<char>, out: &mut Vec<Vec<char>>)
    ensures
        final(out)@.map_values(|n: Vec<char>| n@) == old(out)@.map_values(|n: Vec<char>| n@)
            + names_from(v@, 0),
{
    let n: usize = v.len();
    let mut pos: usize = 0;
    let ghost base = old(out)@.map_values(|n: Vec<char>| n@);
    loop
        invariant
            n == v@.len(),
            pos <= n,
            base == old(out)@.map_values(|n: Vec<char>| n@),
            base + names_from(v@, 0) == out@.map_values(|n: Vec<char>| n@) + names_from(
                v@,
                pos as int,
            ),
        decreases n - pos,
    {
        let e: usize = find_char_in(v, ',', pos, n);
        let (a, b) = trim_range(v, pos, e);
        let ghost before = out@.map_values(|n: Vec<char>| n@);
        let ghost old_pos = pos;
        let ghost cur: Seq<Seq<char>> = if a < b {
            seq![v@.subrange(a as int, b as int)]
        } else {
            seq![]
        };
        proof {
            if e >= n {
                assert(names_from(v@, old_pos as int) == cur);
            } else {
                assert(names_from(v@, old_pos as int) == cur + names_from(v@, e + 1));
            }
        }
        if a < b {
            let item = crate::text::copy_range(v, a, b);
            out.push(item);
            proof {
                assert(out@.map_values(|n: Vec<char>| n@) =~= before.push(item@));
            }
        }
        if e >= n {
            proof {
                assert(base + names_from(v@, 0) =~= out@.map_values(|n: Vec<char>| n@));
            }
            return ;
        }
        pos = e + 1;
        proof {
            assert(base + names_from(v@, 0) =~= out@.map_values(|n: Vec<char>| n@) + names_from(
                v@,
                pos as int,
            ));
        }
    }
}

/// Whether `names` holds `name`.
fn contains_name(names: &Vec<Vec<char>>, name: &Vec<char>) -> (r: bool)
    ensures
        r == names@.map_values(|n: Vec<char>| n@).contains(name@),
{
    let mut i: usize = 0;
    while i < names.len()
        invariant
            i <= names@.len(),
            forall|k: int| 0 <= k < i ==> names@[k]@ != name@,
        decreases names@.len() - i,
    {
        if chars_equal(&names[i], name) {
            proof {
                assert(names@.map_values(|n: Vec<char>| n@)[i as int] == name@);
            }
            return true;
        }
        i = i + 1;
    }
    false
}

/// `names` without repeats, first occurrences kept in order.
fn dedup_names(names: Vec<Vec<char>>) -> (r: Vec<Vec<char>>)
    ensures
        r@.map_values(|n: Vec<char>| n@) == dedup(names@.map_values(|n: Vec<char>| n@)),
{
    let ghost all = names@.map_values(|n: Vec<char>| n@);
    let mut out: Vec<Vec<char>> = Vec::new();
    let mut i: usize = 0;
    while i < names.len()
        invariant
            i <= names@.len(),
            all == names@.map_values(|n: Vec<char>| n@),
            out@.map_values(|n: Vec<char>| n@) == dedup(all.subrange(0, i as int)),
        decreases names@.len() - i,
    {
        proof {
            assert(all.subrange(0, i as int + 1).drop_last() =~= all.subrange(0, i as int));
        }
        if !contains_name(&out, &names[i]) {
            let item = crate::text::copy_range(&names[i], 0, names[i].len());
            proof {
                assert(names@[i as int]@.subrange(0, names@[i as int]@.len() as int) =~= names@[i as int]@);
            }
            let ghost before = out@.map_values(|n: Vec<char>| n@);
            out.push(item);
            proof {
                assert(out@.map_values(|n: Vec<char>| n@) =~= before.push(item@));
            }
        }
        i = i + 1;
    }
    proof {
        assert(all.subrange(0, i as int) =~= all);
    }
    out
}

/// The key of attribute `suffix` of column `name`.
fn make_column_key(name: &Vec<char>, suffix: &str) -> (r: Vec<char>)
    ensures
        r@ == column_key(name@, suffix@),
{
    let mut key = chars_of("column.");
    append_chars(&mut key, name);
    let dot = chars_of(".");
    append_chars(&mut key, &dot);
    let s = chars_of(suffix);
    append_chars(&mut key, &s);
    key
}

fn numeric_attribute(es: &Vec<Entry>, name: &Vec<char>, suffix: &str, max: u64) -> (r: u64)
    ensures
        r as nat == numeric_prop(
            es@.map_values(|e: Entry| entry_view(e)),
            column_key(name@, suffix@),
            max as nat,
        ),
        r <= max,
{
    let key = make_column_key(name, suffix);
    match lookup_entry(es, &key) {
        Some(v) => match parse_unsigned_chars(v, max) {
            Some(n) => n,
            None => 0,
        },
        None => 0,
    }
}

fn flag_attribute(es: &Vec<Entry>, name: &Vec<char>, suffix: &str) -> (r: bool)
    ensures
        r == flag_prop(es@.map_values(|e: Entry| entry_view(e)), column_key(name@, suffix@)),
{
    let key = make_column_key(name, suffix);
    match lookup_entry(es, &key) {
        Some(v) => {
            let t = chars_of("true");
            chars_equal(v, &t)
        },
        None => false,
    }
}

impl ColumnMetadata {
    /// A copy of these attributes.
    pub fn clone_metadata(&self) -> (r: ColumnMetadata)
        ensures
            r == *self,
    {
        ColumnMetadata {
            name: self.name.clone(),
            data_type: self.data_type,
            cardinality: self.cardinality,
            total_docs: self.total_docs,
            bits_per_element: self.bits_per_element,
            has_dictionary: self.has_dictionary,
            is_sorted: self.is_sorted,
            length_of_each_entry: self.length_of_each_entry,
        }
    }
}

impl SegmentMetadata {
    /// Parses the text of a `metadata.properties` file.
    pub fn parse(content: &str) -> (r: Result<SegmentMetadata>)
        ensures
            r is Ok <==> metadata_complete(metadata_entries(content@)),
            r is Err ==> r->Err_0 is Parse,
            r matches Ok(m) ==> parsed_from(m, content@),
            r matches Ok(m) ==> forall|j: int, k: int|
                0 <= j < k < m.columns@.len() ==> m.columns@[j].name@ != m.columns@[k].name@,
    {
        let text = chars_of(content);
        let raw = parse_entries(&text);
        let es = unescape_entries(raw);
        let ghost ev = es@.map_values(|e: Entry| entry_view(e));
        proof {
            assert(ev == metadata_entries(content@));
        }
        let segment_name = match prop_value(&es, "segment.name") {
            Some(v) => string_from_chars(v),
            None => return Err(parse_error("Missing segment.name")),
        };
        let table_name = match prop_value(&es, "segment.table.name") {
            Some(v) => string_from_chars(v),
            None => return Err(parse_error("Missing segment.table.name")),
        };
        let total_docs: u32 = match prop_value(&es, "segment.total.docs") {
            Some(v) => match parse_unsigned_chars(v, 0xFFFF_FFFF) {
                Some(n) => n as u32,
                None => return Err(parse_error("Invalid total.docs")),
            },
            None => return Err(parse_error("Missing segment.total.docs")),
        };
        let mut names: Vec<Vec<char>> = Vec::new();
        if let Some(v) = prop_value(&es, "columns") {
            split_names(v, &mut names);
        }
        let ghost n1 = names@.map_values(|n: Vec<char>| n@);
        if let Some(v) = prop_value(&es, "segment.dimension.column.names") {
            split_names(v, &mut names);
        }
        let ghost n2 = names@.map_values(|n: Vec<char>| n@);
        if let Some(v) = prop_value(&es, "segment.metric.column.names") {
            split_names(v, &mut names);
        }
        let ghost n3 = names@.map_values(|n: Vec<char>| n@);
        if let Some(v) = prop_value(&es, "segment.datetime.column.names") {
            split_names(v, &mut names);
        }
        proof {
            assert(n1 =~= names_of(lookup(ev, "columns"@)));
            assert(names@.map_values(|n: Vec<char>| n@) =~= names_of(lookup(ev, "columns"@))
                + names_of(lookup(ev, "segment.dimension.column.names"@)) + names_of(
                lookup(ev, "segment.metric.column.names"@),
            ) + names_of(lookup(ev, "segment.datetime.column.names"@)));
        }
        let unique = dedup_names(names);
        let ghost cn = column_names(ev);
        let mut columns: Vec<ColumnMetadata> = Vec::new();
        let mut i: usize = 0;
        while i < unique.len()
            invariant
                i <= unique@.len(),
                unique@.map_values(|n: Vec<char>| n@) == cn,
                ev == es@.map_values(|e: Entry| entry_view(e)),
                ev == metadata_entries(content@),
                cn == column_names(ev),
                columns@.len() == i,
                forall|k: int| 0 <= k < i ==> column_type(ev, #[trigger] cn[k]) is Some,
                forall|k: int|
                    0 <= k < i ==> column_describes(#[trigger] columns@[k], ev, cn[k], total_docs),
            decreases unique@.len() - i,
        {
            proof {
                assert(cn[i as int] == unique@[i as int]@);
            }
            match Self::parse_column_metadata(&unique[i], &es, total_docs) {
                Ok(c) => columns.push(c),
                Err(e) => {
                    proof {
                        assert(column_type(ev, cn[i as int]) is None);
                    }
                    return Err(e);
                },
            }
            i = i + 1;
        }
        proof {
            lemma_dedup_distinct(
                names_of(lookup(ev, "columns"@)) + names_of(
                    lookup(ev, "segment.dimension.column.names"@),
                ) + names_of(lookup(ev, "segment.metric.column.names"@)) + names_of(
                    lookup(ev, "segment.datetime.column.names"@),
                ),
            );
            assert forall|j: int, k: int| 0 <= j < k < columns@.len() implies columns@[j].name@
                != columns@[k].name@ by {
                assert(column_describes(columns@[j], ev, cn[j], total_docs));
                assert(column_describes(columns@[k], ev, cn[k], total_docs));
            }
        }
        Ok(SegmentMetadata { segment_name, table_name, total_docs, columns })
    }

    /// The attributes of column `name`; a missing or unknown `dataType` is a
    /// `Parse` error, missing numeric or boolean attributes take their defaults.
    pub fn parse_column_metadata(name: &Vec<char>, es: &Vec<Entry>, total_docs: u32) -> (r: Result<ColumnMetadata>)
        ensures
            r is Ok <==> column_type(es@.map_values(|e: Entry| entry_view(e)), name@) is Some,
            r is Err ==> r->Err_0 is Parse,
            r matches Ok(c) ==> column_describes(
                c,
                es@.map_values(|e: Entry| entry_view(e)),
                name@,
                total_docs,
            ),
    {
        let key = make_column_key(name, "dataType");
        let data_type = match lookup_entry(es, &key) {
            Some(v) => {
                let s = string_from_chars(v);
                match DataType::from_string(s.as_str()) {
                    Ok(d) => d,
                    Err(e) => return Err(e),
                }
            },
            None => return Err(parse_error("Missing dataType for column")),
        };
        let cardinality = numeric_attribute(es, name, "cardinality", 0xFFFF_FFFF) as u32;
        let bits_per_element = numeric_attribute(es, name, "bitsPerElement", 0xFF) as u8;
        let has_dictionary = flag_attribute(es, name, "hasDictionary");
        let is_sorted = flag_attribute(es, name, "isSorted");
        let length_of_each_entry = numeric_attribute(
            es,
            name,
            "lengthOfEachEntry",
            usize::MAX as u64,
        ) as usize;
        Ok(ColumnMetadata {
            name: string_from_chars(name),
            data_type,
            cardinality,
            total_docs,
            bits_per_element,
            has_dictionary,
            is_sorted,
            length_of_each_entry,
        })
    }

    /// `s` with the escapes `\uXXXX`, `\t`, `\n`, `\r` and `\\` replaced; a
    /// malformed `\uXXXX` is kept verbatim.
    pub fn decode_java_string(s: &str) -> (r: String)
        ensures
            r@ == unescape_from(s@, 0),
    {
        let cs = chars_of(s);
        let out = unescape(&cs);
        string_from_chars(&out)
    }

    /// Whether `other` has the same columns as `self`: same names and types,
    /// in the same order.
    pub fn same_schema(&self, other: &SegmentMetadata) -> (r: bool)
        ensures
            r == same_columns(self.columns@, other.columns@),
    {
        if self.columns.len() != other.columns.len() {
            return false;
        }
        let mut k: usize = 0;
        while k < self.columns.len()
            invariant
                self.columns@.len() == other.columns@.len(),
                k <= self.columns@.len(),
                forall|j: int|
                    0 <= j < k ==> (#[trigger] self.columns@[j]).name@ == other.columns@[j].name@
                        && self.columns@[j].data_type == other.columns@[j].data_type,
            decreases self.columns@.len() - k,
        {
            if self.columns[k].name != other.columns[k].name || self.columns[k].data_type
                != other.columns[k].data_type {
                return false;
            }
            k = k + 1;
        }
        true
    }

    /// The column called `name`, or `ColumnNotFound`.
    pub fn get_column(&self, name: &str) -> (r: Result<&ColumnMetadata>)
        ensures
            r matches Ok(c) ==> find_column(self.columns@, name@) == Some(*c),
            r is Err <==> find_column(self.columns@, name@) is None,
            r is Err ==> (r matches Err(Error::ColumnNotFound(m)) && m@ == name@),
    {
        let wanted = name.to_owned();
        let mut i: usize = 0;
        proof {
            assert(self.columns@.subrange(0, self.columns@.len() as int) =~= self.columns@);
        }
        while i < self.columns.len()
            invariant
                i <= self.columns@.len(),
                wanted@ == name@,
                find_column(self.columns@, name@) == find_column(self.columns@.subrange(i as int, self.columns@.len() as int), name@),
            decreases self.columns@.len() - i,
        {
            proof {
                let rest = self.columns@.subrange(i as int, self.columns@.len() as int);
                assert(rest.drop_first() =~= self.columns@.subrange(i + 1, self.columns@.len() as int));
                assert(rest[0] == self.columns@[i as int]);
            }
            if self.columns[i].name == wanted {
                return Ok(&self.columns[i]);
            }
            i = i + 1;
        }
        Err(Error::ColumnNotFound(wanted))
    }
}

} // verus!
