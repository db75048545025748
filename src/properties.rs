//! The `key=value` line grammar shared by the segment metadata file and the
//! index map: blank lines and lines starting with `#` are skipped, the first
//! `=` separates key from value, and both sides are trimmed.
use vstd::prelude::*;

use crate::text::{copy_range, find_char, find_char_in, range_equals, trim_end, trim_range, trim_start, trimmed};

verus! {

/// One `key=value` line, both sides trimmed.
pub struct Entry {
    pub key: Vec<char>,
    pub value: Vec<char>,
}

/// The key and value of an entry, as character sequences.
pub open spec fn entry_view(e: Entry) -> (Seq<char>, Seq<char>) {
    (e.key@, e.value@)
}

/// The key/value pair carried by the line `t[lo..hi]`, if it carries one.
pub open spec fn line_entry(t: Seq<char>, lo: int, hi: int) -> Option<(Seq<char>, Seq<char>)> {
    let a = trim_start(t, lo, hi);
    let b = trim_end(t, a, hi);
    if a >= b || t[a] == '#' {
        None
    } else {
        let eq = find_char(t, '=', a, b);
        if eq >= b {
            None
        } else {
            Some((trimmed(t, a, eq), trimmed(t, eq + 1, b)))
        }
    }
}

/// The entries of the lines of `t` that start at or after `start`, in order.
pub open spec fn entries_from(t: Seq<char>, start: int) -> Seq<(Seq<char>, Seq<char>)>
    decreases t.len() + 1 - start,
{
    if start < 0 || start >= t.len() {
        seq![]
    } else {
        let e = find_char(t, '\n', start, t.len() as int);
        if e < start || e > t.len() {
            seq![]
        } else {
            let rest = entries_from(t, e + 1);
            match line_entry(t, start, e) {
                Some(p) => seq![p] + rest,
                None => rest,
            }
        }
    }
}

/// The entries of the whole text `t`.
pub open spec fn entries(t: Seq<char>) -> Seq<(Seq<char>, Seq<char>)> {
    entries_from(t, 0)
}

/// The value of the last entry of `es` whose key is `key` (later lines win).
pub open spec fn lookup(es: Seq<(Seq<char>, Seq<char>)>, key: Seq<char>) -> Option<Seq<char>>
    decreases es.len(),
{
    if es.len() == 0 {
        None
    } else if es.last().0 == key {
        Some(es.last().1)
    } else {
        lookup(es.drop_last(), key)
    }
}

/// The trimmed copy of `t[lo..hi]`.
fn trimmed_copy(t: &Vec<char>, lo: usize, hi: usize) -> (r: Vec<char>)
    requires
        lo <= hi <= t@.len(),
    ensures
        r@ == trimmed(t@, lo as int, hi as int),
{
    let (a, b) = trim_range(t, lo, hi);
    copy_range(t, a, b)
}

/// The entry of the line `t[lo..hi]`, if any.
fn parse_line(t: &Vec<char>, lo: usize, hi: usize) -> (r: Option<Entry>)
    requires
        lo <= hi <= t@.len(),
    ensures
        r matches Some(e) ==> line_entry(t@, lo as int, hi as int) == Some(entry_view(e)),
        r is None ==> line_entry(t@, lo as int, hi as int) is None,
{
    let (a, b) = trim_range(t, lo, hi);
    if a >= b || t[a] == '#' {
        return None;
    }
    let eq: usize = find_char_in(t, '=', a, b);
    if eq >= b {
        return None;
    }
    let key = trimmed_copy(t, a, eq);
    let value = trimmed_copy(t, eq + 1, b);
    Some(Entry { key, value })
}

/// Splits `t` into its entries.
pub fn parse_entries(t: &Vec<char>) -> (r: Vec<Entry>)
    ensures
        r@.map_values(|e: Entry| entry_view(e)) == entries(t@),
{
    let n: usize = t.len();
    let mut out: Vec<Entry> = Vec::new();
    let mut pos: usize = 0;
    while pos < n
        invariant
            n == t@.len(),
            pos <= n,
            entries(t@) == out@.map_values(|e: Entry| entry_view(e)) + entries_from(t@, pos as int),
        decreases n - pos,
    {
        let e: usize = find_char_in(t, '\n', pos, n);
        let line = parse_line(t, pos, e);
        let ghost before = out@.map_values(|e: Entry| entry_view(e));
        let ghost old_pos = pos;
        proof {
            assert(entries_from(t@, e as int + 1) == entries_from(t@, if e < n {
                e as int + 1
            } else {
                n as int
            }));
            let rest = entries_from(t@, e as int + 1);
            assert(entries_from(t@, old_pos as int) == match line_entry(t@, old_pos as int, e as int) {
                Some(p) => seq![p] + rest,
                None => rest,
            });
        }
        match line {
            Some(entry) => {
                out.push(entry);
                proof {
                    assert(out@.map_values(|e: Entry| entry_view(e)) =~= before + seq![
                        entry_view(entry),
                    ]);
                }
            },
            None => {},
        }
        pos = if e < n {
            e + 1
        } else {
            n
        };
        proof {
            assert(entries(t@) =~= out@.map_values(|e: Entry| entry_view(e)) + entries_from(
                t@,
                pos as int,
            ));
        }
    }
    proof {
        assert(entries(t@) =~= out@.map_values(|e: Entry| entry_view(e)));
    }
    out
}

/// The value of the last entry whose key is `key`.
pub fn lookup_entry<'a>(es: &'a Vec<Entry>, key: &Vec<char>) -> (r: Option<&'a Vec<char>>)
    ensures
        r matches Some(v) ==> lookup(es@.map_values(|e: Entry| entry_view(e)), key@) == Some(v@),
        r is None ==> lookup(es@.map_values(|e: Entry| entry_view(e)), key@) is None,
{
    let mut i: usize = es.len();
    proof {
        assert(es@.subrange(0, i as int) =~= es@);
    }
    while i > 0
        invariant
            i <= es@.len(),
            lookup(es@.map_values(|e: Entry| entry_view(e)), key@) == lookup(
                es@.subrange(0, i as int).map_values(|e: Entry| entry_view(e)),
                key@,
            ),
        decreases i,
    {
        let ghost pre = es@.subrange(0, i as int).map_values(|e: Entry| entry_view(e));
        let entry = &es[i - 1];
        if range_equals(&entry.key, 0, entry.key.len(), key) {
            proof {
                assert(entry.key@.subrange(0, entry.key@.len() as int) =~= entry.key@);
                assert(pre.last() == entry_view(*entry));
            }
            return Some(&entry.value);
        }
        proof {
            assert(entry.key@.subrange(0, entry.key@.len() as int) =~= entry.key@);
            assert(pre.drop_last() =~= es@.subrange(0, i - 1).map_values(
                |e: Entry| entry_view(e),
            ));
        }
        i = i - 1;
    }
    proof {
        assert(es@.subrange(0, 0).map_values(|e: Entry| entry_view(e)) =~= seq![]);
    }
    None
}

} // verus!
