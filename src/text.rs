//! Character-level helpers: display width, whitespace trimming and
//! conversions between strings and character vectors.
use vstd::prelude::*;
use vstd::std_specs::iter::IteratorSpec;

verus! {

/// East Asian wide and fullwidth characters (CJK ideographs, kana,
/// hangul, fullwidth forms): each takes two columns.
pub open spec fn is_wide(c: char) -> bool {
    ('\u{1100}' <= c && c <= '\u{115F}') || ('\u{2E80}' <= c && c <= '\u{303E}') || ('\u{3041}' <= c
        && c <= '\u{33FF}') || ('\u{3400}' <= c && c <= '\u{4DBF}') || ('\u{4E00}' <= c && c <= '\u{9FFF}')
        || ('\u{A000}' <= c && c <= '\u{A4CF}') || ('\u{AC00}' <= c && c <= '\u{D7A3}') || ('\u{F900}' <= c
        && c <= '\u{FAFF}') || ('\u{FE30}' <= c && c <= '\u{FE4F}') || ('\u{FF00}' <= c && c <= '\u{FF60}')
        || ('\u{FFE0}' <= c && c <= '\u{FFE6}') || ('\u{20000}' <= c && c <= '\u{2FFFD}') || ('\u{30000}' <= c
        && c <= '\u{3FFFD}')
}

/// Display width of one character: two columns for a wide character, one
/// for any other.
pub open spec fn char_width(c: char) -> nat {
    if is_wide(c) {
        2
    } else {
        1
    }
}

pub fn is_wide_char(c: char) -> (r: bool)
    ensures
        r == is_wide(c),
{
    ('\u{1100}' <= c && c <= '\u{115F}') || ('\u{2E80}' <= c && c <= '\u{303E}') || ('\u{3041}' <= c
        && c <= '\u{33FF}') || ('\u{3400}' <= c && c <= '\u{4DBF}') || ('\u{4E00}' <= c && c <= '\u{9FFF}')
        || ('\u{A000}' <= c && c <= '\u{A4CF}') || ('\u{AC00}' <= c && c <= '\u{D7A3}') || ('\u{F900}' <= c
        && c <= '\u{FAFF}') || ('\u{FE30}' <= c && c <= '\u{FE4F}') || ('\u{FF00}' <= c && c <= '\u{FF60}')
        || ('\u{FFE0}' <= c && c <= '\u{FFE6}') || ('\u{20000}' <= c && c <= '\u{2FFFD}') || ('\u{30000}' <= c
        && c <= '\u{3FFFD}')
}

/// Display width of a run of characters.
pub open spec fn text_width(s: Seq<char>) -> nat
    decreases s.len(),
{
    if s.len() == 0 {
        0
    } else {
        text_width(s.drop_last()) + char_width(s.last())
    }
}

/// Unicode `White_Space` characters, the set that `str::trim` removes.
pub open spec fn is_ws(c: char) -> bool {
    c == ' ' || c == '\t' || c == '\n' || c == '\x0B' || c == '\x0C' || c == '\r'
        || c == '\u{85}' || c == '\u{A0}' || c == '\u{1680}' || ('\u{2000}' <= c && c
        <= '\u{200A}') || c == '\u{2028}' || c == '\u{2029}' || c == '\u{202F}' || c
        == '\u{205F}' || c == '\u{3000}'
}

/// Index of the first non-whitespace character of `s[lo..hi]` (or `hi`).
pub open spec fn trim_start_at(s: Seq<char>, lo: int, hi: int) -> int
    decreases hi - lo,
{
    if lo >= hi {
        hi
    } else if is_ws(s[lo]) {
        trim_start_at(s, lo + 1, hi)
    } else {
        lo
    }
}

/// One past the last non-whitespace character of `s[lo..hi]` (or `lo`).
pub open spec fn trim_end_at(s: Seq<char>, lo: int, hi: int) -> int
    decreases hi - lo,
{
    if lo >= hi {
        lo
    } else if is_ws(s[hi - 1]) {
        trim_end_at(s, lo, hi - 1)
    } else {
        hi
    }
}

/// `s` without leading and trailing whitespace.
pub open spec fn trimmed(s: Seq<char>) -> Seq<char> {
    let a = trim_start_at(s, 0, s.len() as int);
    s.subrange(a, trim_end_at(s, a, s.len() as int))
}

/// `n` copies of `c`.
pub open spec fn run_of(c: char, n: nat) -> Seq<char> {
    Seq::new(n, |_i: int| c)
}

pub fn is_whitespace(c: char) -> (r: bool)
    ensures
        r == is_ws(c),
{
    c == ' ' || c == '\t' || c == '\n' || c == '\x0B' || c == '\x0C' || c == '\r' || c
        == '\u{85}' || c == '\u{A0}' || c == '\u{1680}' || ('\u{2000}' <= c && c
        <= '\u{200A}') || c == '\u{2028}' || c == '\u{2029}' || c == '\u{202F}' || c
        == '\u{205F}' || c == '\u{3000}'
}

/// Bounds of `s[lo..hi]` once surrounding whitespace is removed.
pub fn trim_bounds(s: &Vec<char>, lo: usize, hi: usize) -> (r: (usize, usize))
    requires
        lo <= hi <= s@.len(),
    ensures
        r.0 == trim_start_at(s@, lo as int, hi as int),
        r.1 == trim_end_at(s@, r.0 as int, hi as int),
        lo <= r.0 <= r.1 <= hi,
{
    let mut a: usize = lo;
    while a < hi && is_whitespace(s[a])
        invariant
            lo <= a <= hi <= s@.len(),
            trim_start_at(s@, a as int, hi as int) == trim_start_at(s@, lo as int, hi as int),
        decreases hi - a,
    {
        a = a + 1;
    }
    let mut b: usize = hi;
    while b > a && is_whitespace(s[b - 1])
        invariant
            lo <= a <= b <= hi <= s@.len(),
            a == trim_start_at(s@, lo as int, hi as int),
            trim_end_at(s@, a as int, b as int) == trim_end_at(s@, a as int, hi as int),
        decreases b - a,
    {
        b = b - 1;
    }
    (a, b)
}

/// The characters of `s`, in order.
pub fn chars_of(s: &str) -> (r: Vec<char>)
    ensures
        r@ == s@,
{
    let mut r: Vec<char> = Vec::new();
    let mut it = s.chars();
    proof {
        broadcast use vstd::string::group_string_axioms;
    }
    loop
        invariant
            it.obeys_prophetic_iter_laws(),
            r@ + it.remaining() == s@,
            it.decrease() is Some,
        ensures
            r@ == s@,
        decreases it.decrease()->0,
    {
        match it.next() {
            Some(c) => {
                r.push(c);
            },
            None => {
                proof {
                    assert(r@ =~= s@);
                }
                break;
            },
        }
    }
    r
}

/// Relies on `String: FromIterator<&char>`: collecting the characters yields a
/// string holding exactly those characters.
#[verifier::external_body]
pub(crate) fn string_of(v: &Vec<char>) -> (r: String)
    ensures
        r@ == v@,
{
    String::from_iter(v.iter())
}

/// Appends `n` copies of `c` to `out`.
pub fn push_run(out: &mut Vec<char>, c: char, n: usize)
    ensures
        final(out)@ == old(out)@ + run_of(c, n as nat),
{
    let ghost start = out@;
    let mut i: usize = 0;
    while i < n
        invariant
            i <= n,
            out@ == start + run_of(c, i as nat),
        decreases n - i,
    {
        out.push(c);
        i = i + 1;
        proof {
            assert(out@ =~= start + run_of(c, i as nat));
        }
    }
}

/// Appends all of `s` to `out`.
pub fn push_all(out: &mut Vec<char>, s: &Vec<char>)
    ensures
        final(out)@ == old(out)@ + s@,
{
    let ghost start = out@;
    let mut i: usize = 0;
    while i < s.len()
        invariant
            i <= s@.len(),
            out@ == start + s@.take(i as int),
        decreases s@.len() - i,
    {
        out.push(s[i]);
        i = i + 1;
        proof {
            assert(out@ =~= start + s@.take(i as int));
        }
    }
    proof {
        assert(s@.take(s@.len() as int) =~= s@);
    }
}

/// Display width of `s[lo..hi]`, wide characters counted as two columns.
pub fn width_of(s: &Vec<char>, lo: usize, hi: usize) -> (r: usize)
    requires
        lo <= hi <= s@.len(),
        2 * (hi - lo) <= usize::MAX,
    ensures
        r == text_width(s@.subrange(lo as int, hi as int)),
        r <= 2 * (hi - lo),
{
    let mut w: usize = 0;
    let mut i: usize = lo;
    while i < hi
        invariant
            lo <= i <= hi <= s@.len(),
            2 * (hi - lo) <= usize::MAX,
            w == text_width(s@.subrange(lo as int, i as int)),
            w <= 2 * (i - lo),
        decreases hi - i,
    {
        proof {
            let t = s@.subrange(lo as int, i as int + 1);
            assert(t.drop_last() =~= s@.subrange(lo as int, i as int));
        }
        if is_wide_char(s[i]) {
            w = w + 2;
        } else {
            w = w + 1;
        }
        i = i + 1;
    }
    w
}

/// A fresh vector holding `s[lo..hi]`.
pub fn copy_range(s: &Vec<char>, lo: usize, hi: usize) -> (r: Vec<char>)
    requires
        lo <= hi <= s@.len(),
    ensures
        r@ == s@.subrange(lo as int, hi as int),
{
    let mut r: Vec<char> = Vec::new();
    let mut i: usize = lo;
    while i < hi
        invariant
            lo <= i <= hi <= s@.len(),
            r@ == s@.subrange(lo as int, i as int),
        decreases hi - i,
    {
        r.push(s[i]);
        i = i + 1;
        proof {
            assert(r@ =~= s@.subrange(lo as int, i as int));
        }
    }
    r
}

/// `s` without leading and trailing whitespace.
pub fn trim_chars(s: &Vec<char>) -> (r: Vec<char>)
    ensures
        r@ == trimmed(s@),
        r@.len() <= s@.len(),
{
    let (a, b) = trim_bounds(s, 0, s.len());
    copy_range(s, a, b)
}

pub proof fn lemma_trim_start_bounds(s: Seq<char>, lo: int, hi: int)
    requires
        lo <= hi,
    ensures
        lo <= trim_start_at(s, lo, hi) <= hi,
    decreases hi - lo,
{
    if lo < hi {
        lemma_trim_start_bounds(s, lo + 1, hi);
    }
}

pub proof fn lemma_trim_end_bounds(s: Seq<char>, lo: int, hi: int)
    requires
        lo <= hi,
    ensures
        lo <= trim_end_at(s, lo, hi) <= hi,
    decreases hi - lo,
{
    if lo < hi {
        lemma_trim_end_bounds(s, lo, hi - 1);
    }
}

/// Trimming never lengthens.
pub proof fn lemma_trimmed_len(s: Seq<char>)
    ensures
        trimmed(s).len() <= s.len(),
{
    lemma_trim_start_bounds(s, 0, s.len() as int);
    let a = trim_start_at(s, 0, s.len() as int);
    lemma_trim_end_bounds(s, a, s.len() as int);
}

/// Display width never exceeds two columns per character.
pub proof fn lemma_text_width_bound(s: Seq<char>)
    ensures
        text_width(s) <= 2 * s.len(),
    decreases s.len(),
{
    if s.len() > 0 {
        lemma_text_width_bound(s.drop_last());
    }
}

/// Display width of a string, wide characters counted as two columns.
pub fn cn_length(s: &str) -> (r: usize)
    requires
        2 * s@.len() <= usize::MAX,
    ensures
        r == text_width(s@),
{
    let v = chars_of(s);
    let r = width_of(&v, 0, v.len());
    proof {
        assert(v@.subrange(0, v@.len() as int) =~= s@);
    }
    r
}

} // verus!
