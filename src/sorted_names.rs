//! Sorted sets of names, kept as character vectors, ordered the way `str`
//! orders (code point by code point, a proper prefix first).
use vstd::prelude::*;

use crate::text::chars_equal;

verus! {

/// Whether `a[i..]` sorts strictly before `b[i..]`.
pub open spec fn lex_lt_from(a: Seq<char>, b: Seq<char>, i: int) -> bool
    decreases a.len() - i,
{
    if i < 0 {
        false
    } else if i >= a.len() {
        i < b.len()
    } else if i >= b.len() {
        false
    } else if a[i] != b[i] {
        (a[i] as u32) < (b[i] as u32)
    } else {
        lex_lt_from(a, b, i + 1)
    }
}

/// Whether `a` sorts strictly before `b`.
pub open spec fn lex_lt(a: Seq<char>, b: Seq<char>) -> bool {
    lex_lt_from(a, b, 0)
}

/// Whether each name sorts strictly before the next.
pub open spec fn strictly_sorted(s: Seq<Seq<char>>) -> bool {
    forall|i: int| 0 <= i && i + 1 < s.len() ==> lex_lt(#[trigger] s[i], s[i + 1])
}

/// Whether no name occurs twice.
pub open spec fn distinct(s: Seq<Seq<char>>) -> bool {
    forall|i: int, j: int| 0 <= i < j < s.len() ==> s[i] != s[j]
}

/// The names as character sequences.
pub open spec fn names_view(v: Seq<Vec<char>>) -> Seq<Seq<char>> {
    v.map_values(|n: Vec<char>| n@)
}

proof fn lemma_lex_total(a: Seq<char>, b: Seq<char>, i: int)
    requires
        0 <= i <= a.len(),
        i <= b.len(),
        a.subrange(0, i) == b.subrange(0, i),
    ensures
        a == b || lex_lt_from(a, b, i) || lex_lt_from(b, a, i),
    decreases a.len() - i,
{
    if i < a.len() && i < b.len() && a[i] == b[i] {
        assert(a.subrange(0, i + 1) =~= a.subrange(0, i).push(a[i]));
        assert(b.subrange(0, i + 1) =~= b.subrange(0, i).push(b[i]));
        lemma_lex_total(a, b, i + 1);
    } else if i >= a.len() && i >= b.len() {
        assert(a =~= a.subrange(0, i));
        assert(b =~= b.subrange(0, i));
    } else if i < a.len() && i < b.len() {
        vstd::utf8::char_u32_cast(a[i], a[i] as u32);
        vstd::utf8::char_u32_cast(b[i], b[i] as u32);
    }
}

/// Whether `a` sorts strictly before `b`.
pub fn chars_less(a: &Vec<char>, b: &Vec<char>) -> (r: bool)
    ensures
        r == lex_lt(a@, b@),
{
    let mut i: usize = 0;
    while i < a.len() && i < b.len() && a[i] == b[i]
        invariant
            i <= a@.len(),
            i <= b@.len(),
            lex_lt(a@, b@) == lex_lt_from(a@, b@, i as int),
        decreases a@.len() - i,
    {
        i = i + 1;
    }
    if i >= a.len() {
        i < b.len()
    } else if i >= b.len() {
        false
    } else {
        (a[i] as u32) < (b[i] as u32)
    }
}

/// Whether `v` holds `x`.
pub fn contains_chars(v: &Vec<Vec<char>>, x: &Vec<char>) -> (r: bool)
    ensures
        r == names_view(v@).contains(x@),
{
    let mut i: usize = 0;
    while i < v.len()
        invariant
            i <= v@.len(),
            forall|j: int| 0 <= j < i ==> v@[j]@ != x@,
        decreases v@.len() - i,
    {
        if chars_equal(&v[i], x) {
            proof {
                assert(names_view(v@)[i as int] == x@);
            }
            return true;
        }
        i = i + 1;
    }
    proof {
        if names_view(v@).contains(x@) {
            let j = choose|j: int| 0 <= j < names_view(v@).len() && names_view(v@)[j] == x@;
            assert(v@[j]@ == x@);
        }
    }
    false
}

/// Adds `x` to the strictly sorted, repeat-free names `v`.
pub fn insert_sorted(v: &mut Vec<Vec<char>>, x: Vec<char>)
    requires
        strictly_sorted(names_view(old(v)@)),
        distinct(names_view(old(v)@)),
    ensures
        strictly_sorted(names_view(final(v)@)),
        distinct(names_view(final(v)@)),
        forall|s: Seq<char>| #[trigger] names_view(final(v)@).contains(s) <==> (names_view(
            old(v)@,
        ).contains(s) || s == x@),
{
    if contains_chars(v, &x) {
        return ;
    }
    let ghost old_v = names_view(v@);
    let mut p: usize = 0;
    while p < v.len() && chars_less(&v[p], &x)
        invariant
            p <= v@.len(),
            old_v == names_view(v@),
            forall|j: int| 0 <= j < p ==> lex_lt(#[trigger] old_v[j], x@),
        decreases v@.len() - p,
    {
        p = p + 1;
    }
    let ghost xv = x@;
    proof {
        if p < old_v.len() {
            assert(old_v[p as int] != xv);
            assert(old_v[p as int].subrange(0, 0) =~= xv.subrange(0, 0));
            lemma_lex_total(old_v[p as int], xv, 0);
            assert(lex_lt(xv, old_v[p as int]));
        }
    }
    v.insert(p, x);
    proof {
        let nv = names_view(v@);
        assert(nv =~= old_v.insert(p as int, xv));
        old_v.insert_ensures(p as int, xv);
        assert forall|i: int| 0 <= i && i + 1 < nv.len() implies lex_lt(#[trigger] nv[i], nv[i + 1]) by {
            if i + 1 < p {
                assert(nv[i] == old_v[i] && nv[i + 1] == old_v[i + 1]);
            } else if i + 1 == p {
                assert(nv[i] == old_v[i]);
            } else if i == p {
            } else {
                assert(nv[i] == old_v[i - 1] && nv[i + 1] == old_v[i]);
            }
        }
        assert forall|i: int, j: int| 0 <= i < j < nv.len() implies nv[i] != nv[j] by {
            if i == p {
                assert(nv[j] == old_v[j - 1]);
                assert(old_v.contains(nv[j]));
            } else if j == p {
                assert(nv[i] == old_v[i]);
                assert(old_v.contains(nv[i]));
            } else {
                let oi = if i < p {
                    i
                } else {
                    i - 1
                };
                let oj = if j < p {
                    j
                } else {
                    j - 1
                };
                assert(nv[i] == old_v[oi] && nv[j] == old_v[oj]);
            }
        }
        assert forall|s: Seq<char>| #[trigger] nv.contains(s) <==> (old_v.contains(s) || s == xv) by {
            if nv.contains(s) {
                let j = choose|j: int| 0 <= j < nv.len() && nv[j] == s;
                if j < p {
                    assert(old_v[j] == s);
                } else if j > p {
                    assert(old_v[j - 1] == s);
                }
            }
            if old_v.contains(s) {
                let j = choose|j: int| 0 <= j < old_v.len() && old_v[j] == s;
                if j < p {
                    assert(nv[j] == s);
                } else {
                    assert(nv[j + 1] == s);
                }
            }
            if s == xv {
                assert(nv[p as int] == s);
            }
        }
    }
}

} // verus!
