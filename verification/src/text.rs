//! Characters and character sequences: whitespace, trimming, and the two
//! conversions between strings and vectors of characters.
use vstd::prelude::*;

verus! {

/// `String::push` appends one character to the end of the string.
pub assume_specification[ String::push ](s: &mut String, ch: char)
    ensures
        final(s)@ == old(s)@.push(ch),
;

/// Whether `c` is whitespace: one of the code points that carry the Unicode
/// property `White_Space`.
pub open spec fn is_blank(c: char) -> bool {
    let n = c as u32;
    ||| 0x09 <= n <= 0x0D
    ||| n == 0x20
    ||| n == 0x85
    ||| n == 0xA0
    ||| n == 0x1680
    ||| 0x2000 <= n <= 0x200A
    ||| n == 0x2028
    ||| n == 0x2029
    ||| n == 0x202F
    ||| n == 0x205F
    ||| n == 0x3000
}

/// `s` without its leading whitespace.
pub open spec fn trim_start(s: Seq<char>) -> Seq<char>
    decreases s.len(),
{
    if s.len() > 0 && is_blank(s[0]) {
        trim_start(s.drop_first())
    } else {
        s
    }
}

/// `s` without its trailing whitespace.
pub open spec fn trim_end(s: Seq<char>) -> Seq<char>
    decreases s.len(),
{
    if s.len() > 0 && is_blank(s.last()) {
        trim_end(s.drop_last())
    } else {
        s
    }
}

/// `s` without its leading and trailing whitespace.
pub open spec fn trim(s: Seq<char>) -> Seq<char> {
    trim_end(trim_start(s))
}

/// Decides whether `c` is whitespace.
pub fn is_whitespace(c: char) -> (b: bool)
    ensures
        b == is_blank(c),
{
    let n: u32 = c as u32;
    (0x09 <= n && n <= 0x0D) || n == 0x20 || n == 0x85 || n == 0xA0 || n == 0x1680 || (0x2000 <= n
        && n <= 0x200A) || n == 0x2028 || n == 0x2029 || n == 0x202F || n == 0x205F || n == 0x3000
}

/// The characters of `s`, in order.
pub fn chars_of(s: &str) -> (v: Vec<char>)
    ensures
        v@ == s@,
{
    let mut v: Vec<char> = Vec::new();
    for c in it: s.chars()
        invariant
            v@ == it.seq().take(it.index()),
    {
        v.push(c);
    }
    v
}

/// The string made of the characters `v[lo..hi]`.
pub fn string_of(v: &Vec<char>, lo: usize, hi: usize) -> (s: String)
    requires
        lo <= hi <= v.len(),
    ensures
        s@ == v@.subrange(lo as int, hi as int),
{
    let mut s = String::new();
    let mut i: usize = lo;
    while i < hi
        invariant
            lo <= i <= hi <= v.len(),
            s@ == v@.subrange(lo as int, i as int),
        decreases hi - i,
    {
        s.push(v[i]);
        i = i + 1;
    }
    s
}

/// Trimming a slice drops its first character exactly when that character
/// is whitespace.
proof fn lemma_trim_start_step(t: Seq<char>, lo: int, hi: int)
    requires
        0 <= lo < hi <= t.len(),
    ensures
        trim_start(t.subrange(lo, hi)) == if is_blank(t[lo]) {
            trim_start(t.subrange(lo + 1, hi))
        } else {
            t.subrange(lo, hi)
        },
{
    assert(t.subrange(lo, hi).drop_first() == t.subrange(lo + 1, hi));
}

proof fn lemma_trim_end_step(t: Seq<char>, lo: int, hi: int)
    requires
        0 <= lo < hi <= t.len(),
    ensures
        trim_end(t.subrange(lo, hi)) == if is_blank(t[hi - 1]) {
            trim_end(t.subrange(lo, hi - 1))
        } else {
            t.subrange(lo, hi)
        },
{
    assert(t.subrange(lo, hi).drop_last() == t.subrange(lo, hi - 1));
}

/// The bounds of `t[lo..hi]` without its leading and trailing whitespace.
/// Where `t[lo..hi]` is all whitespace, both bounds are `hi`.
pub fn trim_range(t: &Vec<char>, lo: usize, hi: usize) -> (r: (usize, usize))
    requires
        lo <= hi <= t.len(),
    ensures
        lo <= r.0 <= r.1 <= hi,
        hi - r.0 == trim_start(t@.subrange(lo as int, hi as int)).len(),
        t@.subrange(r.0 as int, r.1 as int) == trim(t@.subrange(lo as int, hi as int)),
{
    let mut a: usize = lo;
    while a < hi && is_whitespace(t[a])
        invariant
            lo <= a <= hi <= t.len(),
            trim_start(t@.subrange(a as int, hi as int)) == trim_start(
                t@.subrange(lo as int, hi as int),
            ),
        decreases hi - a,
    {
        proof {
            lemma_trim_start_step(t@, a as int, hi as int);
        }
        a = a + 1;
    }
    proof {
        if a < hi {
            lemma_trim_start_step(t@, a as int, hi as int);
        }
    }
    let mut b: usize = hi;
    while a < b && is_whitespace(t[b - 1])
        invariant
            a <= b <= hi <= t.len(),
            trim_end(t@.subrange(a as int, b as int)) == trim_end(t@.subrange(a as int, hi as int)),
        decreases b - a,
    {
        proof {
            lemma_trim_end_step(t@, a as int, b as int);
        }
        b = b - 1;
    }
    proof {
        if a < b {
            lemma_trim_end_step(t@, a as int, b as int);
        }
    }
    (a, b)
}

} // verus!
