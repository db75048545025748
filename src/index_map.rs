//! The index map: where each `(column, index type)` pair keeps its bytes in
//! the data blob. Keys read `<column>.<index_type>.<property>`, and since a
//! column name may itself contain dots, keys are split from the right.
use vstd::prelude::*;

use crate::error::{parse_error, Result};
use crate::properties::{entries, entry_view, parse_entries, Entry};
use crate::text::{chars_equal, chars_of, copy_range, parse_unsigned, parse_unsigned_chars};

verus! {

/// A byte range of the data blob.
#[derive(Debug, Clone, Copy)]
pub struct IndexLocation {
    pub start_offset: usize,
    pub size: usize,
}

/// One `<column>.<index_type>.<property>=<value>` line of the index map.
#[derive(Debug)]
pub struct IndexRecord {
    pub column: Vec<char>,
    pub index_type: Vec<char>,
    pub property: Vec<char>,
    pub value: usize,
}

/// The parsed index map: its records in file order.
#[derive(Debug)]
pub struct IndexMap {
    pub records: Vec<IndexRecord>,
}

/// Index of the last `c` in `s[..hi]`, or -1.
pub open spec fn rfind(s: Seq<char>, c: char, hi: int) -> int
    decreases hi,
{
    if hi <= 0 {
        -1
    } else if s[hi - 1] == c {
        hi - 1
    } else {
        rfind(s, c, hi - 1)
    }
}

/// `(column, index_type, property)` of an index-map key: the last two
/// dot-separated segments are the index type and the property, everything
/// before them is the column name.
pub open spec fn key_parts(k: Seq<char>) -> Option<(Seq<char>, Seq<char>, Seq<char>)> {
    let d1 = rfind(k, '.', k.len() as int);
    if d1 < 0 {
        None
    } else {
        let d2 = rfind(k, '.', d1);
        if d2 < 0 {
            None
        } else {
            Some((k.subrange(0, d2), k.subrange(d2 + 1, d1), k.subrange(d1 + 1, k.len() as int)))
        }
    }
}

/// A record as plain values.
pub type RecordView = (Seq<char>, Seq<char>, Seq<char>, nat);

pub open spec fn record_view(r: IndexRecord) -> RecordView {
    (r.column@, r.index_type@, r.property@, r.value as nat)
}

/// The records of the entries `es[i..]`, or `None` when a well-formed key
/// carries a value that is not a decimal `usize`. Keys with fewer than three
/// segments are skipped.
pub open spec fn records_from(es: Seq<(Seq<char>, Seq<char>)>, i: int) -> Option<Seq<RecordView>>
    decreases es.len() - i,
{
    if i < 0 || i >= es.len() {
        Some(seq![])
    } else {
        match key_parts(es[i].0) {
            None => records_from(es, i + 1),
            Some(parts) => match parse_unsigned(es[i].1, usize::MAX as nat) {
                None => None,
                Some(v) => match records_from(es, i + 1) {
                    Some(rest) => Some(seq![(parts.0, parts.1, parts.2, v)] + rest),
                    None => None,
                },
            },
        }
    }
}

/// The value of the last record of `rs[..n]` for `(column, index_type, property)`, or 0.
pub open spec fn last_value(rs: Seq<RecordView>, n: int, column: Seq<char>, index_type: Seq<char>, property: Seq<char>) -> nat
    decreases n,
{
    if n <= 0 {
        0
    } else if rs[n - 1].0 == column && rs[n - 1].1 == index_type && rs[n - 1].2 == property {
        rs[n - 1].3
    } else {
        last_value(rs, n - 1, column, index_type, property)
    }
}

/// Where `(column, index_type)` lives according to the records `rs`: present
/// when any record names the pair (whatever its property); the offset and
/// size are the last `startOffset` and `size` given for it, 0 when none is.
pub open spec fn location(rs: Seq<RecordView>, column: Seq<char>, index_type: Seq<char>) -> Option<(nat, nat)> {
    if exists|j: int| 0 <= j < rs.len() && rs[j].0 == column && rs[j].1 == index_type {
        Some(
            (
                last_value(rs, rs.len() as int, column, index_type, "startOffset"@),
                last_value(rs, rs.len() as int, column, index_type, "size"@),
            ),
        )
    } else {
        None
    }
}

proof fn lemma_rfind_bounds(s: Seq<char>, c: char, hi: int)
    requires
        0 <= hi <= s.len(),
    ensures
        -1 <= rfind(s, c, hi) < hi,
        rfind(s, c, hi) >= 0 ==> s[rfind(s, c, hi)] == c,
    decreases hi,
{
    if hi > 0 && s[hi - 1] != c {
        lemma_rfind_bounds(s, c, hi - 1);
    }
}

/// Skipping a stretch without `c` does not change the last `c` before it.
proof fn lemma_rfind_skip(s: Seq<char>, c: char, lo: int, hi: int)
    requires
        0 <= lo <= hi <= s.len(),
        forall|k: int| lo <= k < hi ==> s[k] != c,
    ensures
        rfind(s, c, hi) == rfind(s, c, lo),
    decreases hi - lo,
{
    if lo < hi {
        lemma_rfind_skip(s, c, lo, hi - 1);
    }
}

/// Keys are split from the right: for a column name that may contain dots,
/// and an index type and property that do not, the key
/// `<column>.<index_type>.<property>` yields exactly that column name.
pub proof fn lemma_key_parts_right_to_left(column: Seq<char>, index_type: Seq<char>, property: Seq<char>)
    requires
        !index_type.contains('.'),
        !property.contains('.'),
    ensures
        key_parts(column + seq!['.'] + index_type + seq!['.'] + property) == Some(
            (column, index_type, property),
        ),
{
    let k = column + seq!['.'] + index_type + seq!['.'] + property;
    let d2 = column.len() as int;
    let d1 = d2 + 1 + index_type.len();
    assert(k[d1] == '.');
    assert(k[d2] == '.');
    assert forall|j: int| d1 + 1 <= j < k.len() implies k[j] != '.' by {
        assert(k[j] == property[j - d1 - 1]);
    }
    lemma_rfind_skip(k, '.', d1 + 1, k.len() as int);
    assert forall|j: int| d2 + 1 <= j < d1 implies k[j] != '.' by {
        assert(k[j] == index_type[j - d2 - 1]);
    }
    lemma_rfind_skip(k, '.', d2 + 1, d1);
    assert(k.subrange(0, d2) =~= column);
    assert(k.subrange(d2 + 1, d1) =~= index_type);
    assert(k.subrange(d1 + 1, k.len() as int) =~= property);
}

fn rfind_in(s: &Vec<char>, c: char, hi: usize) -> (r: Option<usize>)
    requires
        hi <= s@.len(),
    ensures
        r matches Some(i) ==> rfind(s@, c, hi as int) == i as int,
        r is None ==> rfind(s@, c, hi as int) == -1,
{
    let mut i: usize = hi;
    while i > 0
        invariant
            i <= hi <= s@.len(),
            rfind(s@, c, hi as int) == rfind(s@, c, i as int),
        decreases i,
    {
        if s[i - 1] == c {
            return Some(i - 1);
        }
        i = i - 1;
    }
    None
}

/// The record of an entry with a well-formed key, or `None` when the key has
/// fewer than three segments; `Err` when the value is not a decimal `usize`.
fn parse_record(e: &Entry) -> (r: Result<Option<IndexRecord>>)
    ensures
        r matches Ok(None) ==> key_parts(e.key@) is None,
        r matches Ok(Some(rec)) ==> key_parts(e.key@) matches Some(p) && parse_unsigned(
            e.value@,
            usize::MAX as nat,
        ) matches Some(v) && record_view(rec) == (p.0, p.1, p.2, v),
        r is Err ==> key_parts(e.key@) is Some && parse_unsigned(e.value@, usize::MAX as nat) is None
            && r->Err_0 is Parse,
{
    let k = &e.key;
    let d1 = match rfind_in(k, '.', k.len()) {
        Some(d) => d,
        None => return Ok(None),
    };
    proof {
        lemma_rfind_bounds(k@, '.', k@.len() as int);
    }
    let d2 = match rfind_in(k, '.', d1) {
        Some(d) => d,
        None => return Ok(None),
    };
    proof {
        lemma_rfind_bounds(k@, '.', d1 as int);
    }
    let value = match parse_unsigned_chars(&e.value, usize::MAX as u64) {
        Some(v) => v as usize,
        None => return Err(parse_error("Invalid number in index map")),
    };
    Ok(
        Some(
            IndexRecord {
                column: copy_range(k, 0, d2),
                index_type: copy_range(k, d2 + 1, d1),
                property: copy_range(k, d1 + 1, k.len()),
                value,
            },
        ),
    )
}

impl IndexMap {
    /// The records as plain values.
    pub open spec fn view_records(&self) -> Seq<RecordView> {
        self.records@.map_values(|r: IndexRecord| record_view(r))
    }

    /// Parses the text of an `index_map` file; a value that is not a decimal
    /// `usize` on a well-formed key is a `Parse` error.
    pub fn parse(content: &str) -> (r: Result<IndexMap>)
        ensures
            r is Ok <==> records_from(entries(content@), 0) is Some,
            r matches Ok(m) ==> records_from(entries(content@), 0) == Some(m.view_records()),
            r is Err ==> r->Err_0 is Parse,
    {
        let text = chars_of(content);
        let es = parse_entries(&text);
        let ghost ev = es@.map_values(|e: Entry| entry_view(e));
        let mut records: Vec<IndexRecord> = Vec::new();
        let mut i: usize = 0;
        while i < es.len()
            invariant
                i <= es@.len(),
                ev == es@.map_values(|e: Entry| entry_view(e)),
                ev == entries(content@),
                records_from(ev, 0) == match records_from(ev, i as int) {
                    Some(rest) => Some(records@.map_values(|r: IndexRecord| record_view(r)) + rest),
                    None => None::<Seq<RecordView>>,
                },
            decreases es@.len() - i,
        {
            let ghost before = records@.map_values(|r: IndexRecord| record_view(r));
            match parse_record(&es[i]) {
                Ok(Some(rec)) => {
                    records.push(rec);
                    proof {
                        assert(records@.map_values(|r: IndexRecord| record_view(r)) =~= before.push(
                            record_view(rec),
                        ));
                        match records_from(ev, i + 1) {
                            Some(rest) => {
                                assert(before + (seq![record_view(rec)] + rest) =~= before.push(
                                    record_view(rec),
                                ) + rest);
                            },
                            None => {},
                        }
                    }
                },
                Ok(None) => {},
                Err(e) => {
                    return Err(e);
                },
            }
            i = i + 1;
        }
        proof {
            assert(records@.map_values(|r: IndexRecord| record_view(r)) + seq![] =~= records@.map_values(
                |r: IndexRecord| record_view(r),
            ));
        }
        Ok(IndexMap { records })
    }

    /// Where `(column, index_type)` lives, if the map names it.
    pub fn get_index(&self, column: &str, index_type: &str) -> (r: Option<IndexLocation>)
        ensures
            r matches Some(l) ==> location(self.view_records(), column@, index_type@) == Some(
                (l.start_offset as nat, l.size as nat),
            ),
            r is None ==> location(self.view_records(), column@, index_type@) is None,
    {
        let c = chars_of(column);
        let t = chars_of(index_type);
        let start_key = chars_of("startOffset");
        let size_key = chars_of("size");
        let ghost rs = self.view_records();
        let mut found = false;
        let mut start: usize = 0;
        let mut size: usize = 0;
        let mut i: usize = 0;
        while i < self.records.len()
            invariant
                i <= self.records@.len(),
                rs == self.view_records(),
                c@ == column@,
                t@ == index_type@,
                start_key@ == "startOffset"@,
                size_key@ == "size"@,
                found <==> exists|j: int| 0 <= j < i && rs[j].0 == c@ && rs[j].1 == t@,
                start as nat == last_value(rs, i as int, c@, t@, "startOffset"@),
                size as nat == last_value(rs, i as int, c@, t@, "size"@),
            decreases self.records@.len() - i,
        {
            let rec = &self.records[i];
            proof {
                assert(rs[i as int] == record_view(*rec));
            }
            if chars_equal(&rec.column, &c) && chars_equal(&rec.index_type, &t) {
                found = true;
                if chars_equal(&rec.property, &start_key) {
                    start = rec.value;
                }
                if chars_equal(&rec.property, &size_key) {
                    size = rec.value;
                }
            }
            i = i + 1;
        }
        if found {
            Some(IndexLocation { start_offset: start, size })
        } else {
            None
        }
    }

    /// Where the dictionary of `column` lives.
    pub fn get_dictionary(&self, column: &str) -> (r: Option<IndexLocation>)
        ensures
            r matches Some(l) ==> location(self.view_records(), column@, "dictionary"@) == Some(
                (l.start_offset as nat, l.size as nat),
            ),
            r is None ==> location(self.view_records(), column@, "dictionary"@) is None,
    {
        self.get_index(column, "dictionary")
    }

    /// Where the forward index of `column` lives.
    pub fn get_forward_index(&self, column: &str) -> (r: Option<IndexLocation>)
        ensures
            r matches Some(l) ==> location(self.view_records(), column@, "forward_index"@) == Some(
                (l.start_offset as nat, l.size as nat),
            ),
            r is None ==> location(self.view_records(), column@, "forward_index"@) is None,
    {
        self.get_index(column, "forward_index")
    }
}

/// The record that the entry `(key, value)` yields, when it yields one.
pub open spec fn record_of(key: Seq<char>, value: Seq<char>) -> RecordView {
    let p = key_parts(key)->0;
    (p.0, p.1, p.2, parse_unsigned(value, usize::MAX as nat)->0)
}

proof fn lemma_records_contain(es: Seq<(Seq<char>, Seq<char>)>, k: int, i: int)
    requires
        0 <= k <= i < es.len(),
        records_from(es, k) is Some,
        key_parts(es[i].0) is Some,
    ensures
        parse_unsigned(es[i].1, usize::MAX as nat) is Some,
        records_from(es, k)->0.contains(record_of(es[i].0, es[i].1)),
    decreases i - k,
{
    let rec = record_of(es[i].0, es[i].1);
    if k == i {
        assert(records_from(es, k)->0[0] == rec);
    } else {
        lemma_records_contain(es, k + 1, i);
        let rest = records_from(es, k + 1)->0;
        let j = choose|j: int| 0 <= j < rest.len() && rest[j] == rec;
        if key_parts(es[k].0) is Some {
            assert(records_from(es, k)->0[j + 1] == rec);
        } else {
            assert(records_from(es, k)->0[j] == rec);
        }
    }
}

/// Index-map keys are read from the right: a line whose key is
/// `<column>.<index_type>.<property>`, with a column name that may itself hold
/// dots, yields a record for exactly that column, index type and property.
pub proof fn lemma_dotted_line_record(
    es: Seq<(Seq<char>, Seq<char>)>,
    i: int,
    column: Seq<char>,
    index_type: Seq<char>,
    property: Seq<char>,
)
    requires
        0 <= i < es.len(),
        records_from(es, 0) is Some,
        es[i].0 == column + seq!['.'] + index_type + seq!['.'] + property,
        !index_type.contains('.'),
        !property.contains('.'),
    ensures
        records_from(es, 0)->0.contains(
            (column, index_type, property, parse_unsigned(es[i].1, usize::MAX as nat)->0),
        ),
{
    lemma_key_parts_right_to_left(column, index_type, property);
    lemma_records_contain(es, 0, i);
}

proof fn lemma_last_value_of_last_record(
    rs: Seq<RecordView>,
    n: int,
    j: int,
    column: Seq<char>,
    index_type: Seq<char>,
    property: Seq<char>,
)
    requires
        0 <= j < n <= rs.len(),
        rs[j].0 == column && rs[j].1 == index_type && rs[j].2 == property,
        forall|k: int|
            j < k < n ==> !(rs[k].0 == column && rs[k].1 == index_type && rs[k].2 == property),
    ensures
        last_value(rs, n, column, index_type, property) == rs[j].3,
    decreases n,
{
    if n - 1 > j {
        lemma_last_value_of_last_record(rs, n - 1, j, column, index_type, property);
    }
}

/// When the last record that sets `property` of `(column, index_type)` carries
/// `value`, the map places that pair there: at offset `value` for
/// `startOffset`, with size `value` for `size`.
pub proof fn lemma_last_record_sets_location(
    rs: Seq<RecordView>,
    j: int,
    column: Seq<char>,
    index_type: Seq<char>,
    property: Seq<char>,
)
    requires
        0 <= j < rs.len(),
        rs[j].0 == column && rs[j].1 == index_type && rs[j].2 == property,
        forall|k: int|
            j < k < rs.len() ==> !(#[trigger] rs[k].0 == column && rs[k].1 == index_type && rs[k].2
                == property),
    ensures
        location(rs, column, index_type) matches Some(l) && (property == "startOffset"@ ==> l.0
            == rs[j].3) && (property == "size"@ ==> l.1 == rs[j].3),
{
    lemma_last_value_of_last_record(rs, rs.len() as int, j, column, index_type, property);
}

} // verus!
