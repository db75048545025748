//! Character-level helpers shared by the text metadata parsers.
use vstd::prelude::*;

verus! {

broadcast use {vstd::string::axiom_spec_iter, vstd::string::next_postcondition};

/// The characters of `s`, in order.
pub fn chars_of(s: &str) -> (r: Vec<char>)
    ensures
        r@ == s@,
{
    let mut out: Vec<char> = Vec::new();
    for c in iter: s.chars()
        invariant
            iter.seq() == s@,
            out@ == s@.subrange(0, iter.index() as int),
    {
        out.push(c);
    }
    proof {
        assert(out@ =~= s@);
    }
    out
}

/// Whether `c` is white space in the sense of `char::is_whitespace`
/// (the Unicode `White_Space` property).
pub open spec fn is_space(c: char) -> bool {
    let u = c as u32;
    (9 <= u <= 13) || u == 32 || u == 0x85 || u == 0xA0 || u == 0x1680 || (0x2000 <= u
        <= 0x200A) || u == 0x2028 || u == 0x2029 || u == 0x202F || u == 0x205F || u == 0x3000
}

pub fn is_space_char(c: char) -> (r: bool)
    ensures
        r == is_space(c),
{
    let u: u32 = c as u32;
    (9 <= u && u <= 13) || u == 32 || u == 0x85 || u == 0xA0 || u == 0x1680 || (0x2000 <= u && u
        <= 0x200A) || u == 0x2028 || u == 0x2029 || u == 0x202F || u == 0x205F || u == 0x3000
}

/// First index in `lo..hi` whose character is not white space (or `hi`).
pub open spec fn trim_start(s: Seq<char>, lo: int, hi: int) -> int
    decreases hi - lo,
{
    if lo < hi && is_space(s[lo]) {
        trim_start(s, lo + 1, hi)
    } else {
        lo
    }
}

/// One past the last index in `lo..hi` whose character is not white space (or `lo`).
pub open spec fn trim_end(s: Seq<char>, lo: int, hi: int) -> int
    decreases hi - lo,
{
    if lo < hi && is_space(s[hi - 1]) {
        trim_end(s, lo, hi - 1)
    } else {
        hi
    }
}

/// `s[lo..hi]` without leading and trailing white space.
pub open spec fn trimmed(s: Seq<char>, lo: int, hi: int) -> Seq<char> {
    let a = trim_start(s, lo, hi);
    s.subrange(a, trim_end(s, a, hi))
}

/// The bounds `(a, b)` of `s[lo..hi]` with surrounding white space removed.
pub fn trim_range(s: &Vec<char>, lo: usize, hi: usize) -> (r: (usize, usize))
    requires
        lo <= hi <= s@.len(),
    ensures
        r.0 == trim_start(s@, lo as int, hi as int),
        r.1 == trim_end(s@, r.0 as int, hi as int),
        lo <= r.0 <= r.1 <= hi,
{
    let mut a: usize = lo;
    while a < hi && is_space_char(s[a])
        invariant
            lo <= a <= hi <= s@.len(),
            trim_start(s@, lo as int, hi as int) == trim_start(s@, a as int, hi as int),
        decreases hi - a,
    {
        a = a + 1;
    }
    let mut b: usize = hi;
    while b > a && is_space_char(s[b - 1])
        invariant
            a <= b <= hi <= s@.len(),
            trim_end(s@, a as int, hi as int) == trim_end(s@, a as int, b as int),
        decreases b - a,
    {
        b = b - 1;
    }
    (a, b)
}

/// Index of the first `c` in `s[lo..hi]`, or `hi` when there is none.
pub open spec fn find_char(s: Seq<char>, c: char, lo: int, hi: int) -> int
    decreases hi - lo,
{
    if lo >= hi {
        hi
    } else if s[lo] == c {
        lo
    } else {
        find_char(s, c, lo + 1, hi)
    }
}

proof fn lemma_find_char_bounds(s: Seq<char>, c: char, lo: int, hi: int)
    requires
        lo <= hi,
    ensures
        lo <= find_char(s, c, lo, hi) <= hi,
        find_char(s, c, lo, hi) < hi ==> s[find_char(s, c, lo, hi)] == c,
        forall|k: int| lo <= k < find_char(s, c, lo, hi) ==> s[k] != c,
    decreases hi - lo,
{
    if lo < hi && s[lo] != c {
        lemma_find_char_bounds(s, c, lo + 1, hi);
    }
}

pub fn find_char_in(s: &Vec<char>, c: char, lo: usize, hi: usize) -> (r: usize)
    requires
        lo <= hi <= s@.len(),
    ensures
        r == find_char(s@, c, lo as int, hi as int),
        lo <= r <= hi,
{
    proof {
        lemma_find_char_bounds(s@, c, lo as int, hi as int);
    }
    let mut i: usize = lo;
    while i < hi && s[i] != c
        invariant
            lo <= i <= hi <= s@.len(),
            find_char(s@, c, lo as int, hi as int) == find_char(s@, c, i as int, hi as int),
        decreases hi - i,
    {
        i = i + 1;
    }
    i
}

/// Whether `s[lo..hi]` equals `t`.
pub fn range_equals(s: &Vec<char>, lo: usize, hi: usize, t: &Vec<char>) -> (r: bool)
    requires
        lo <= hi <= s@.len(),
    ensures
        r == (s@.subrange(lo as int, hi as int) == t@),
{
    if hi - lo != t.len() {
        proof {
            assert(s@.subrange(lo as int, hi as int).len() != t@.len());
        }
        return false;
    }
    let mut k: usize = 0;
    while k < t.len()
        invariant
            lo <= hi <= s@.len(),
            hi - lo == t@.len(),
            0 <= k <= t@.len(),
            forall|j: int| 0 <= j < k ==> s@[lo + j] == t@[j],
        decreases t@.len() - k,
    {
        if s[lo + k] != t[k] {
            proof {
                assert(s@.subrange(lo as int, hi as int)[k as int] != t@[k as int]);
            }
            return false;
        }
        k = k + 1;
    }
    proof {
        assert(s@.subrange(lo as int, hi as int) =~= t@);
    }
    true
}

/// Whether `s` equals `t`.
pub fn chars_equal(s: &Vec<char>, t: &Vec<char>) -> (r: bool)
    ensures
        r == (s@ == t@),
{
    let r = range_equals(s, 0, s.len(), t);
    proof {
        assert(s@.subrange(0, s@.len() as int) =~= s@);
    }
    r
}

/// A copy of `s[lo..hi]`.
pub fn copy_range(s: &Vec<char>, lo: usize, hi: usize) -> (r: Vec<char>)
    requires
        lo <= hi <= s@.len(),
    ensures
        r@ == s@.subrange(lo as int, hi as int),
{
    let mut out: Vec<char> = Vec::new();
    let mut i: usize = lo;
    while i < hi
        invariant
            lo <= i <= hi <= s@.len(),
            out@ == s@.subrange(lo as int, i as int),
        decreases hi - i,
    {
        out.push(s[i]);
        i = i + 1;
        proof {
            assert(out@ =~= s@.subrange(lo as int, i as int));
        }
    }
    out
}

/// Appends all of `t` to `out`.
pub fn append_chars(out: &mut Vec<char>, t: &Vec<char>)
    ensures
        final(out)@ == old(out)@ + t@,
{
    let mut i: usize = 0;
    while i < t.len()
        invariant
            0 <= i <= t@.len(),
            out@ == old(out)@ + t@.subrange(0, i as int),
        decreases t@.len() - i,
    {
        out.push(t[i]);
        i = i + 1;
        proof {
            assert(out@ =~= old(out)@ + t@.subrange(0, i as int));
        }
    }
    proof {
        assert(t@.subrange(0, t@.len() as int) =~= t@);
    }
}

/// Relies on `FromIterator<char> for String`: the string holds exactly the given characters.
#[verifier::external_body]
pub fn string_from_chars(v: &Vec<char>) -> (r: String)
    ensures
        r@ == v@,
{
    v.iter().collect()
}

/// The value of an ASCII decimal digit, or `None`.
pub open spec fn decimal_digit(c: char) -> Option<nat> {
    if '0' <= c && c <= '9' {
        Some((c as u32 - '0' as u32) as nat)
    } else {
        None
    }
}

/// The value of the decimal digits `s[lo..hi]` (all assumed to be digits).
pub open spec fn digits_value(s: Seq<char>, lo: int, hi: int) -> nat
    decreases hi - lo,
{
    if hi <= lo {
        0
    } else {
        digits_value(s, lo, hi - 1) * 10 + decimal_digit(s[hi - 1])->0
    }
}

/// What `str::parse` gives for an unsigned integer type whose largest value is
/// `max`: an optional `+`, then at least one ASCII digit and nothing else,
/// with a value that fits.
pub open spec fn parse_unsigned(s: Seq<char>, max: nat) -> Option<nat> {
    let lo: int = if s.len() > 0 && s[0] == '+' {
        1
    } else {
        0
    };
    if lo >= s.len() {
        None
    } else if exists|k: int| lo <= k < s.len() && decimal_digit(s[k]) is None {
        None
    } else if digits_value(s, lo, s.len() as int) > max {
        None
    } else {
        Some(digits_value(s, lo, s.len() as int))
    }
}

proof fn lemma_digits_value_grows(s: Seq<char>, lo: int, k: int, hi: int)
    requires
        lo <= k <= hi,
    ensures
        digits_value(s, lo, k) <= digits_value(s, lo, hi),
    decreases hi - k,
{
    if k < hi {
        lemma_digits_value_grows(s, lo, k, hi - 1);
    }
}

/// Parses `s` as `str::parse::<u64>` would, but against the bound `max`.
pub fn parse_unsigned_chars(s: &Vec<char>, max: u64) -> (r: Option<u64>)
    ensures
        r matches Some(v) ==> parse_unsigned(s@, max as nat) == Some(v as nat),
        r is None ==> parse_unsigned(s@, max as nat) is None,
{
    let lo: usize = if s.len() > 0 && s[0] == '+' {
        1
    } else {
        0
    };
    if lo >= s.len() {
        return None;
    }
    let mut acc: u64 = 0;
    let mut i: usize = lo;
    while i < s.len()
        invariant
            lo <= i <= s@.len(),
            lo == (if s@.len() > 0 && s@[0] == '+' {
                1int
            } else {
                0int
            }),
            acc as nat == digits_value(s@, lo as int, i as int),
            acc <= max,
            forall|k: int| lo <= k < i ==> decimal_digit(s@[k]) is Some,
        decreases s@.len() - i,
    {
        let c: char = s[i];
        if !('0' <= c && c <= '9') {
            return None;
        }
        let d: u64 = (c as u32 - '0' as u32) as u64;
        if d > max || acc > (max - d) / 10 {
            proof {
                assert(acc * 10 + d > max) by (nonlinear_arith)
                    requires
                        d > max || acc > (max - d) / 10,
                        d <= 9,
                ;
                lemma_digits_value_grows(s@, lo as int, i as int + 1, s@.len() as int);
            }
            return None;
        }
        proof {
            assert(acc * 10 + d <= max) by (nonlinear_arith)
                requires
                    acc <= (max - d) / 10,
                    d <= max,
            ;
        }
        acc = acc * 10 + d;
        i = i + 1;
    }
    Some(acc)
}

/// The value of an ASCII hexadecimal digit, or `None`.
pub open spec fn hex_digit(c: char) -> Option<nat> {
    if '0' <= c && c <= '9' {
        Some((c as u32 - '0' as u32) as nat)
    } else if 'a' <= c && c <= 'f' {
        Some((c as u32 - 'a' as u32 + 10) as nat)
    } else if 'A' <= c && c <= 'F' {
        Some((c as u32 - 'A' as u32 + 10) as nat)
    } else {
        None
    }
}

/// The value of the hexadecimal digits `s[lo..hi]` (all assumed to be digits).
pub open spec fn hex_value(s: Seq<char>, lo: int, hi: int) -> nat
    decreases hi - lo,
{
    if hi <= lo {
        0
    } else {
        hex_value(s, lo, hi - 1) * 16 + hex_digit(s[hi - 1])->0
    }
}

/// The value of `s[lo..hi]` when it is exactly four ASCII hexadecimal digits
/// (no sign), else `None`.
pub open spec fn parse_hex(s: Seq<char>, lo: int, hi: int) -> Option<nat> {
    if hi - lo != 4 {
        None
    } else if exists|k: int| lo <= k < hi && hex_digit(s[k]) is None {
        None
    } else {
        Some(hex_value(s, lo, hi))
    }
}

/// Whether `u` is a Unicode scalar value (a code point that is not a surrogate).
pub open spec fn is_scalar_value(u: nat) -> bool {
    u < 0xD800 || (0xE000 <= u && u <= 0x10FFFF)
}

/// Relies on `char::from_u32`: it accepts exactly the Unicode scalar values
/// and yields the character with that code.
#[verifier::external_body]
fn char_from_code(code: u32) -> (r: Option<char>)
    ensures
        r is Some <==> is_scalar_value(code as nat),
        r matches Some(c) ==> c as u32 == code,
{
    char::from_u32(code)
}

proof fn lemma_hex_value_bound(s: Seq<char>, lo: int, hi: int)
    requires
        lo <= hi <= lo + 4,
        forall|k: int| lo <= k < hi ==> hex_digit(s[k]) is Some,
    ensures
        hex_value(s, lo, hi) < 0x10000,
    decreases hi - lo,
{
    if lo < hi {
        lemma_hex_value_bound(s, lo, hi - 1);
        let v = hex_value(s, lo, hi - 1);
        assert(v < 0x1000) by {
            lemma_hex_value_small(s, lo, hi - 1);
        }
    }
}

proof fn lemma_hex_value_small(s: Seq<char>, lo: int, hi: int)
    requires
        lo <= hi <= lo + 3,
        forall|k: int| lo <= k < hi ==> hex_digit(s[k]) is Some,
    ensures
        hex_value(s, lo, hi) < 0x1000,
    decreases hi - lo,
{
    if lo < hi {
        lemma_hex_value_tiny(s, lo, hi - 1);
    }
}

proof fn lemma_hex_value_tiny(s: Seq<char>, lo: int, hi: int)
    requires
        lo <= hi <= lo + 2,
        forall|k: int| lo <= k < hi ==> hex_digit(s[k]) is Some,
    ensures
        hex_value(s, lo, hi) < 0x100,
    decreases hi - lo,
{
    if lo < hi {
        assert(hex_value(s, lo, hi - 1) < 0x10) by {
            if lo < hi - 1 {
                assert(hex_value(s, lo, lo) == 0);
            }
        }
    }
}

fn parse_hex_range(s: &Vec<char>, lo: usize, hi: usize) -> (r: Option<u32>)
    requires
        lo <= hi <= s@.len(),
        hi <= lo + 4,
    ensures
        r matches Some(v) ==> parse_hex(s@, lo as int, hi as int) == Some(v as nat),
        r is None ==> parse_hex(s@, lo as int, hi as int) is None,
{
    if hi - lo != 4 {
        return None;
    }
    let a: usize = lo;
    let mut acc: u32 = 0;
    let mut i: usize = a;
    while i < hi
        invariant
            lo == a <= i <= hi <= s@.len(),
            hi == lo + 4,
            acc as nat == hex_value(s@, a as int, i as int),
            forall|k: int| a <= k < i ==> hex_digit(s@[k]) is Some,
        decreases hi - i,
    {
        let c: char = s[i];
        let d: u32 = if '0' <= c && c <= '9' {
            c as u32 - '0' as u32
        } else if 'a' <= c && c <= 'f' {
            c as u32 - 'a' as u32 + 10
        } else if 'A' <= c && c <= 'F' {
            c as u32 - 'A' as u32 + 10
        } else {
            return None;
        };
        proof {
            lemma_hex_value_bound(s@, a as int, i as int);
        }
        acc = acc * 16 + d;
        i = i + 1;
    }
    Some(acc)
}

/// The text `s[i..]` with the escapes `\uXXXX`, `\t`, `\n`, `\r` and `\\`
/// replaced by the characters they stand for. A `\u` escape takes exactly
/// four ASCII hexadecimal digits naming a scalar value; otherwise the `\u` and
/// the (up to four) characters after it are kept as written. A backslash
/// before any other character, or at the end, stays as it is.
pub open spec fn unescape_from(s: Seq<char>, i: int) -> Seq<char>
    decreases s.len() - i,
{
    if i < 0 || i >= s.len() {
        seq![]
    } else if s[i] != '\\' {
        seq![s[i]] + unescape_from(s, i + 1)
    } else if i + 1 >= s.len() {
        seq!['\\']
    } else if s[i + 1] == 'u' {
        let e = if i + 6 <= s.len() {
            i + 6
        } else {
            s.len() as int
        };
        let code = parse_hex(s, i + 2, e);
        if code is Some && is_scalar_value(code->0) {
            seq![scalar_char(code->0)] + unescape_from(s, e)
        } else {
            seq!['\\', 'u'] + s.subrange(i + 2, e) + unescape_from(s, e)
        }
    } else if s[i + 1] == 't' {
        seq!['\t'] + unescape_from(s, i + 2)
    } else if s[i + 1] == 'n' {
        seq!['\n'] + unescape_from(s, i + 2)
    } else if s[i + 1] == 'r' {
        seq!['\r'] + unescape_from(s, i + 2)
    } else if s[i + 1] == '\\' {
        seq!['\\'] + unescape_from(s, i + 2)
    } else {
        seq!['\\'] + unescape_from(s, i + 1)
    }
}

/// The character whose code is `u`.
pub open spec fn scalar_char(u: nat) -> char {
    (u as u32) as char
}

/// Replaces the escapes of `s`, as `unescape_from(s@, 0)` describes.
pub fn unescape(s: &Vec<char>) -> (r: Vec<char>)
    ensures
        r@ == unescape_from(s@, 0),
{
    let mut out: Vec<char> = Vec::new();
    let mut i: usize = 0;
    let n: usize = s.len();
    while i < n
        invariant
            n == s@.len(),
            i <= n,
            unescape_from(s@, 0) == out@ + unescape_from(s@, i as int),
        decreases n - i,
    {
        let c: char = s[i];
        if c != '\\' {
            out.push(c);
            i = i + 1;
            proof {
                assert(unescape_from(s@, 0) == out@ + unescape_from(s@, i as int));
            }
        } else if i + 1 >= n {
            out.push('\\');
            i = n;
            proof {
                assert(unescape_from(s@, 0) == out@ + unescape_from(s@, i as int));
            }
        } else {
            let next: char = s[i + 1];
            if next == 'u' {
                let e: usize = if n - i >= 6 {
                    i + 6
                } else {
                    n
                };
                let code = parse_hex_range(s, i + 2, e);
                let decoded: Option<char> = match code {
                    Some(v) => char_from_code(v),
                    None => None,
                };
                match decoded {
                    Some(ch) => {
                        proof {
                            let u = code->0 as nat;
                            vstd::utf8::char_u32_cast(ch, ch as u32);
                            assert(scalar_char(u) == ch);
                        }
                        out.push(ch);
                    },
                    None => {
                        out.push('\\');
                        out.push('u');
                        let hex = copy_range(s, i + 2, e);
                        append_chars(&mut out, &hex);
                    },
                }
                proof {
                    assert(unescape_from(s@, 0) =~= out@ + unescape_from(s@, e as int));
                }
                i = e;
            } else {
                let (ch, step): (char, usize) = if next == 't' {
                    ('\t', 2)
                } else if next == 'n' {
                    ('\n', 2)
                } else if next == 'r' {
                    ('\r', 2)
                } else if next == '\\' {
                    ('\\', 2)
                } else {
                    ('\\', 1)
                };
                out.push(ch);
                i = i + step;
                proof {
                    assert(unescape_from(s@, 0) =~= out@ + unescape_from(s@, i as int));
                }
            }
        }
    }
    proof {
        assert(out@ =~= out@ + unescape_from(s@, i as int));
    }
    out
}

} // verus!
