//! Table and segment discovery: turning directory listings and controller
//! answers into table names and segment directories.
use vstd::prelude::*;

use crate::catalog::Error;
use crate::sorted_names::{distinct, insert_sorted, names_view, strictly_sorted};
use crate::text::{chars_of, copy_range, range_equals, string_from_chars};

verus! {

/// Whether `s` ends with `suffix`.
pub open spec fn ends_with(s: Seq<char>, suffix: Seq<char>) -> bool {
    s.len() >= suffix.len() && s.subrange(s.len() - suffix.len(), s.len() as int) == suffix
}

/// The table that a table directory named `name` holds: the name without its
/// `_OFFLINE` or `_REALTIME` suffix; `None` for any other directory.
pub open spec fn table_of(name: Seq<char>) -> Option<Seq<char>> {
    if ends_with(name, "_OFFLINE"@) {
        Some(name.subrange(0, name.len() - "_OFFLINE"@.len()))
    } else if ends_with(name, "_REALTIME"@) {
        Some(name.subrange(0, name.len() - "_REALTIME"@.len()))
    } else {
        None
    }
}

/// The names as character sequences.
pub open spec fn strings_view(v: Seq<String>) -> Seq<Seq<char>> {
    v.map_values(|s: String| s@)
}

fn strip_suffix(name: &Vec<char>, suffix: &str) -> (r: Option<Vec<char>>)
    ensures
        r is Some <==> ends_with(name@, suffix@),
        r matches Some(t) ==> t@ == name@.subrange(0, name@.len() - suffix@.len()),
{
    let suf = chars_of(suffix);
    if name.len() < suf.len() {
        return None;
    }
    let cut: usize = name.len() - suf.len();
    if range_equals(name, cut, name.len(), &suf) {
        Some(copy_range(name, 0, cut))
    } else {
        None
    }
}

fn table_of_dir(name: &String) -> (r: Option<Vec<char>>)
    ensures
        r matches Some(t) ==> table_of(name@) == Some(t@),
        r is None ==> table_of(name@) is None,
{
    let cs = chars_of(name.as_str());
    match strip_suffix(&cs, "_OFFLINE") {
        Some(t) => Some(t),
        None => strip_suffix(&cs, "_REALTIME"),
    }
}

/// Strings holding the given characters, in order.
fn to_strings(v: &Vec<Vec<char>>) -> (r: Vec<String>)
    ensures
        strings_view(r@) == names_view(v@),
{
    let mut out: Vec<String> = Vec::new();
    let mut i: usize = 0;
    while i < v.len()
        invariant
            i <= v@.len(),
            strings_view(out@) == names_view(v@).subrange(0, i as int),
        decreases v@.len() - i,
    {
        let s = string_from_chars(&v[i]);
        let ghost before = strings_view(out@);
        out.push(s);
        proof {
            assert(strings_view(out@) =~= before.push(s@));
            assert(names_view(v@).subrange(0, i + 1) =~= names_view(v@).subrange(0, i as int).push(v@[i as int]@));
        }
        i = i + 1;
    }
    proof {
        assert(names_view(v@).subrange(0, i as int) =~= names_view(v@));
    }
    out
}

/// The tables held by the table directories `dir_names`: suffixes stripped,
/// sorted, each once.
pub fn table_names(dir_names: &Vec<String>) -> (r: Vec<String>)
    ensures
        strictly_sorted(strings_view(r@)),
        distinct(strings_view(r@)),
        forall|s: Seq<char>| #[trigger] strings_view(r@).contains(s) <==> exists|k: int|
            0 <= k < dir_names@.len() && table_of(#[trigger] dir_names@[k]@) == Some(s),
{
    let mut acc: Vec<Vec<char>> = Vec::new();
    let mut i: usize = 0;
    while i < dir_names.len()
        invariant
            i <= dir_names@.len(),
            strictly_sorted(names_view(acc@)),
            distinct(names_view(acc@)),
            forall|s: Seq<char>| #[trigger] names_view(acc@).contains(s) <==> exists|k: int|
                0 <= k < i && table_of(#[trigger] dir_names@[k]@) == Some(s),
        decreases dir_names@.len() - i,
    {
        match table_of_dir(&dir_names[i]) {
            Some(t) => {
                insert_sorted(&mut acc, t);
            },
            None => {},
        }
        proof {
            assert forall|s: Seq<char>| #[trigger] names_view(acc@).contains(s) <==> exists|k: int|
                0 <= k < i + 1 && table_of(#[trigger] dir_names@[k]@) == Some(s) by {
                if table_of(dir_names@[i as int]@) == Some(s) {
                    assert(names_view(acc@).contains(s));
                }
            }
        }
        i = i + 1;
    }
    to_strings(&acc)
}

/// One entry of a table directory.
#[derive(Debug)]
pub struct SegmentDirEntry {
    pub name: String,
    /// Whether the entry is a directory.
    pub is_dir: bool,
    /// Whether it holds a `v3` subdirectory.
    pub has_v3: bool,
}

/// Whether a table directory entry is a segment: a directory other than
/// `tmp` that holds a `v3` subdirectory.
pub open spec fn is_segment_entry(e: SegmentDirEntry) -> bool {
    e.is_dir && e.name@ != "tmp"@ && e.has_v3
}

/// The names of the segment directories among `entries`, sorted; an
/// `Internal` error when there is none.
pub fn segment_dir_names(entries: &Vec<SegmentDirEntry>) -> (r: Result<Vec<String>, Error>)
    ensures
        r is Ok <==> exists|k: int| 0 <= k < entries@.len() && is_segment_entry(#[trigger] entries@[k]),
        r matches Ok(v) ==> {
            &&& strictly_sorted(strings_view(v@))
            &&& distinct(strings_view(v@))
            &&& forall|s: Seq<char>| #[trigger] strings_view(v@).contains(s) <==> exists|k: int|
                0 <= k < entries@.len() && is_segment_entry(#[trigger] entries@[k]) && entries@[k].name@
                    == s
        },
        r is Err ==> r->Err_0 is Internal,
{
    let mut acc: Vec<Vec<char>> = Vec::new();
    let tmp = "tmp".to_owned();
    let mut i: usize = 0;
    while i < entries.len()
        invariant
            i <= entries@.len(),
            tmp@ == "tmp"@,
            strictly_sorted(names_view(acc@)),
            distinct(names_view(acc@)),
            forall|s: Seq<char>| #[trigger] names_view(acc@).contains(s) <==> exists|k: int|
                0 <= k < i && is_segment_entry(#[trigger] entries@[k]) && entries@[k].name@ == s,
        decreases entries@.len() - i,
    {
        let e = &entries[i];
        if e.is_dir && e.has_v3 && e.name != tmp {
            let name = chars_of(e.name.as_str());
            insert_sorted(&mut acc, name);
        }
        proof {
            assert forall|s: Seq<char>| #[trigger] names_view(acc@).contains(s) <==> exists|k: int|
                0 <= k < i + 1 && is_segment_entry(#[trigger] entries@[k]) && entries@[k].name@ == s by {
                if is_segment_entry(entries@[i as int]) && entries@[i as int].name@ == s {
                    assert(names_view(acc@).contains(s));
                }
            }
        }
        i = i + 1;
    }
    if acc.len() == 0 {
        proof {
            assert forall|k: int| 0 <= k < entries@.len() implies !is_segment_entry(#[trigger] entries@[k]) by {
                if is_segment_entry(entries@[k]) {
                    assert(!names_view(acc@).contains(entries@[k].name@));
                }
            }
        }
        return Err(Error::Internal("No valid segments found".to_owned()));
    }
    proof {
        assert(names_view(acc@).contains(names_view(acc@)[0]));
    }
    Ok(to_strings(&acc))
}

/// Whether `name` is among `tables`.
pub fn table_listed(tables: &Vec<String>, name: &str) -> (r: bool)
    ensures
        r == strings_view(tables@).contains(name@),
{
    let wanted = name.to_owned();
    let mut i: usize = 0;
    while i < tables.len()
        invariant
            i <= tables@.len(),
            wanted@ == name@,
            forall|j: int| 0 <= j < i ==> tables@[j]@ != name@,
        decreases tables@.len() - i,
    {
        if tables[i] == wanted {
            proof {
                assert(strings_view(tables@)[i as int] == name@);
            }
            return true;
        }
        i = i + 1;
    }
    proof {
        if strings_view(tables@).contains(name@) {
            let j = choose|j: int| 0 <= j < strings_view(tables@).len() && strings_view(tables@)[j] == name@;
            assert(tables@[j]@ == name@);
        }
    }
    false
}

/// Table discovery over a local data directory.
#[derive(Debug, Clone)]
pub struct FileSystemMetadataProvider {
    data_dir: String,
}

impl FileSystemMetadataProvider {
    pub closed spec fn spec_data_dir(&self) -> Seq<char> {
        self.data_dir@
    }

    pub fn new(data_dir: String) -> (r: Self)
        ensures
            r.spec_data_dir() == data_dir@,
    {
        FileSystemMetadataProvider { data_dir }
    }

    /// The data directory.
    pub fn data_dir(&self) -> (r: &String)
        ensures
            r@ == self.spec_data_dir(),
    {
        &self.data_dir
    }

    /// The names of the two directories that may hold table `table_name`,
    /// offline first.
    pub fn table_dir_names(table_name: &str) -> (r: (String, String))
        ensures
            r.0@ == table_name@ + "_OFFLINE"@,
            r.1@ == table_name@ + "_REALTIME"@,
    {
        (table_name.to_owned().concat("_OFFLINE"), table_name.to_owned().concat("_REALTIME"))
    }
}

/// The controller's answer to a table listing.
#[derive(Debug)]
pub struct TablesResponse {
    pub tables: Vec<String>,
}

/// The controller's answer to a segment listing: groups of
/// `(table type, segment names)` pairs.
#[derive(Debug)]
pub struct SegmentListResponse(pub Vec<Vec<(String, Vec<String>)>>);

/// The segments listed under `key` by the first group of `groups[i..]` that
/// has that key.
pub open spec fn segments_from(groups: Seq<Vec<(String, Vec<String>)>>, key: Seq<char>, i: int) -> Option<Seq<Seq<char>>>
    decreases groups.len() - i,
{
    if i < 0 || i >= groups.len() {
        None
    } else if exists|j: int| 0 <= j < groups[i]@.len() && (#[trigger] groups[i]@[j]).0@ == key {
        let j = choose|j: int| 0 <= j < groups[i]@.len() && (#[trigger] groups[i]@[j]).0@ == key && forall|l: int| 0 <= l < j ==> groups[i]@[l].0@ != key;
        Some(strings_view(groups[i]@[j].1@))
    } else {
        segments_from(groups, key, i + 1)
    }
}

impl SegmentListResponse {
    /// The segments of type `table_type`: those of the first group that
    /// lists that type, none when no group does.
    pub fn segments_of_type(&self, table_type: &str) -> (r: Vec<String>)
        ensures
            strings_view(r@) == match segments_from(self.0@, table_type@, 0) {
                Some(s) => s,
                None => Seq::<Seq<char>>::empty(),
            },
    {
        let key = table_type.to_owned();
        let mut i: usize = 0;
        while i < self.0.len()
            invariant
                i <= self.0@.len(),
                key@ == table_type@,
                segments_from(self.0@, table_type@, 0) == segments_from(self.0@, table_type@, i as int),
            decreases self.0@.len() - i,
        {
            let group = &self.0[i];
            let mut j: usize = 0;
            while j < group.len()
                invariant
                    i < self.0@.len(),
                    group@ == self.0@[i as int]@,
                    segments_from(self.0@, table_type@, 0) == segments_from(self.0@, table_type@, i as int),
                    j <= group@.len(),
                    key@ == table_type@,
                    forall|l: int| 0 <= l < j ==> group@[l].0@ != table_type@,
                decreases group@.len() - j,
            {
                if group[j].0 == key {
                    let list = &group[j].1;
                    let mut out: Vec<String> = Vec::new();
                    let mut k: usize = 0;
                    while k < list.len()
                        invariant
                            i < self.0@.len(),
                            group@ == self.0@[i as int]@,
                            j < group@.len(),
                            list@ == group@[j as int].1@,
                            forall|l: int| 0 <= l < j ==> group@[l].0@ != table_type@,
                            group@[j as int].0@ == table_type@,
                            segments_from(self.0@, table_type@, 0) == segments_from(self.0@, table_type@, i as int),
                            k <= list@.len(),
                            strings_view(out@) == strings_view(list@).subrange(0, k as int),
                        decreases list@.len() - k,
                    {
                        let item = list[k].clone();
                        let ghost before = strings_view(out@);
                        out.push(item);
                        proof {
                            assert(strings_view(out@) =~= before.push(item@));
                            assert(strings_view(list@).subrange(0, k + 1) =~= strings_view(list@).subrange(0, k as int).push(list@[k as int]@));
                        }
                        k = k + 1;
                    }
                    proof {
                        assert(strings_view(list@).subrange(0, k as int) =~= strings_view(list@));
                        let g = self.0@[i as int]@;
                        assert(g[j as int].0@ == table_type@);
                        let jj = choose|jj: int| 0 <= jj < g.len() && (#[trigger] g[jj]).0@ == table_type@ && forall|l: int| 0 <= l < jj ==> g[l].0@ != table_type@;
                        if jj < j {
                        } else if jj > j {
                            assert(g[j as int].0@ == table_type@);
                        }
                        assert(jj == j);
                    }
                    return out;
                }
                j = j + 1;
            }
            i = i + 1;
        }
        Vec::new()
    }
}

} // verus!
