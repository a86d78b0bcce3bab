//! The line grammar: node tokens `id(label)`, `id[label]`, `id{label}` or a
//! bare id, and arrow tokens such as `-->`, `<--`, `--^` or `--|text|-->`.
use vstd::prelude::*;
use crate::node::{ADirect, ASharp};
use crate::text::{trimmed, trim_start_at, trim_end_at, chars_of, trim_bounds, copy_range, string_of, lemma_trimmed_len};

verus! {

/// Index of the first `c` in `s` at or after `from`, or `s.len()` if none.
pub open spec fn find_from(s: Seq<char>, c: char, from: int) -> int
    decreases s.len() - from,
{
    if from >= s.len() {
        s.len() as int
    } else if s[from] == c {
        from
    } else {
        find_from(s, c, from + 1)
    }
}

/// Characters that end a bare node token.
pub open spec fn is_arrow_start(c: char) -> bool {
    c == '-' || c == '<' || c == '>' || c == '^'
}

/// Index of the first character of `s` at or after `from` that ends a bare
/// node token, or `s.len()`.
pub open spec fn find_arrow_start(s: Seq<char>, from: int) -> int
    decreases s.len() - from,
{
    if from >= s.len() {
        s.len() as int
    } else if is_arrow_start(s[from]) {
        from
    } else {
        find_arrow_start(s, from + 1)
    }
}

/// A node token delimited by the bracket pair `l`, `r`: trimmed id, label
/// and remainder, or `None` when `l` does not occur.
pub open spec fn bracket_split(s: Seq<char>, l: char, r: char, sharp: ASharp) -> Option<(Seq<char>, Seq<char>, ASharp, Seq<char>)> {
    let v = find_from(s, l, 0);
    if v >= s.len() {
        None
    } else {
        let vv = find_from(s, r, v + 1);
        if vv >= s.len() {
            Some((trimmed(s.take(v)), trimmed(s.skip(v + 1)), sharp, Seq::empty()))
        } else {
            Some((trimmed(s.take(v)), trimmed(s.subrange(v + 1, vv)), sharp, trimmed(s.skip(vv + 1))))
        }
    }
}

/// What `parse_node` returns on `s`: id, label, shape and the rest of the line.
pub open spec fn parse_node_spec(s: Seq<char>) -> (Seq<char>, Seq<char>, ASharp, Seq<char>) {
    if let Some(t) = bracket_split(s, '(', ')', ASharp::Round) {
        t
    } else if let Some(t) = bracket_split(s, '[', ']', ASharp::Square) {
        t
    } else if let Some(t) = bracket_split(s, '{', '}', ASharp::Circle) {
        t
    } else {
        let cut = find_arrow_start(s, 0);
        (s.take(cut), s.take(cut), ASharp::Round, s.skip(cut))
    }
}

/// Characters that extend an arrow token.
pub open spec fn is_connector(c: char) -> bool {
    c == '-' || c == '<' || c == '>' || c == ' ' || c == '^' || c == 'v'
}

/// The arrow scan from position `i` on, as (state, opening bar, closing
/// bar, last connector): state 0 outside a label, 1 inside, 2 after it.
pub open spec fn scan(s: Seq<char>, i: int, st: (int, int, int, int)) -> (int, int, int, int)
    decreases s.len() - i,
{
    if i < 0 || i >= s.len() {
        st
    } else if s[i] == '|' {
        if st.0 == 1 {
            scan(s, i + 1, (2, st.1, i, st.3))
        } else {
            scan(s, i + 1, (1, i, st.2, st.3))
        }
    } else if is_connector(s[i]) {
        scan(s, i + 1, (st.0, st.1, st.2, i))
    } else if st.0 != 1 {
        st
    } else {
        scan(s, i + 1, st)
    }
}

pub open spec fn starts_with(t: Seq<char>, p: Seq<char>) -> bool {
    p.len() <= t.len() && t.take(p.len() as int) == p
}

pub open spec fn ends_with(t: Seq<char>, p: Seq<char>) -> bool {
    p.len() <= t.len() && t.skip(t.len() - p.len()) == p
}

/// The direction an arrow token denotes.
pub open spec fn arrow_direct(t: Seq<char>) -> ADirect {
    if starts_with(t, seq!['<', '-']) && ends_with(t, seq!['-', '>']) {
        ADirect::Double
    } else if starts_with(t, seq!['<', '-']) {
        ADirect::Left
    } else if ends_with(t, seq!['-', '>']) {
        ADirect::Right
    } else if ends_with(t, seq!['-', '^']) {
        ADirect::Up
    } else if ends_with(t, seq!['-', 'v']) {
        ADirect::Down
    } else if starts_with(t, seq!['<', '^', '-']) {
        ADirect::LeftUp
    } else if starts_with(t, seq!['<', 'v', '-']) {
        ADirect::LeftDown
    } else if starts_with(t, seq!['-', '^', '>']) {
        ADirect::RightUp
    } else if starts_with(t, seq!['-', 'v', '>']) {
        ADirect::RightDown
    } else {
        ADirect::NoArrow
    }
}

/// The arrow scan of `s` from its start; its last part is the index of
/// the last connector seen, or -1 when there is none.
pub open spec fn scan_all(s: Seq<char>) -> (int, int, int, int) {
    scan(s, 0, (0, 0, 0, -1))
}

/// What `parse_edge` returns on `s`: the direction, the text between the
/// two bars, and the rest of the line. Without any connector the whole
/// text is consumed with no direction.
pub open spec fn parse_edge_spec(s: Seq<char>) -> (ADirect, Seq<char>, Seq<char>) {
    let st = scan_all(s);
    if st.3 < 0 {
        (ADirect::NoArrow, Seq::empty(), Seq::empty())
    } else {
        let cut = st.3 + 1;
        let arrow = s.take(cut);
        let label = if st.1 < st.2 && st.2 <= cut {
            arrow.subrange(st.1 + 1, st.2)
        } else {
            Seq::empty()
        };
        (arrow_direct(trimmed(arrow)), label, s.skip(cut))
    }
}

/// First `c` in `s` at or after `from`.
fn find_char(s: &Vec<char>, c: char, from: usize) -> (r: usize)
    requires
        from <= s@.len(),
    ensures
        r == find_from(s@, c, from as int),
        from <= r <= s@.len(),
{
    let mut k: usize = from;
    while k < s.len() && s[k] != c
        invariant
            from <= k <= s@.len(),
            find_from(s@, c, k as int) == find_from(s@, c, from as int),
        decreases s@.len() - k,
    {
        k = k + 1;
    }
    k
}

/// `input[lo..hi]` with surrounding whitespace removed.
fn trim_slice<'a>(input: &'a str, s: &Vec<char>, lo: usize, hi: usize) -> (r: &'a str)
    requires
        s@ == input@,
        lo <= hi <= s@.len(),
    ensures
        r@ == trimmed(s@.subrange(lo as int, hi as int)),
{
    let ghost t = s@.subrange(lo as int, hi as int);
    let (a, b) = trim_bounds(s, lo, hi);
    proof {
        lemma_trim_shift(s@, lo as int, hi as int);
    }
    input.substring_char(a, b)
}

/// Trimming a window of `s` finds the same bounds as trimming the window
/// on its own, shifted by its start.
proof fn lemma_trim_shift(s: Seq<char>, lo: int, hi: int)
    requires
        0 <= lo <= hi <= s.len(),
    ensures
        trimmed(s.subrange(lo, hi)) == s.subrange(
            trim_start_at(s, lo, hi),
            trim_end_at(s, trim_start_at(s, lo, hi), hi),
        ),
{
    let t = s.subrange(lo, hi);
    lemma_trim_start_shift(s, lo, hi, lo);
    let a = trim_start_at(s, lo, hi);
    lemma_trim_end_shift(s, lo, hi, a, hi);
    assert(t.subrange(a - lo, trim_end_at(s, a, hi) - lo) =~= s.subrange(a, trim_end_at(s, a, hi)));
}

proof fn lemma_trim_start_shift(s: Seq<char>, lo: int, hi: int, k: int)
    requires
        0 <= lo <= k <= hi <= s.len(),
    ensures
        trim_start_at(s.subrange(lo, hi), k - lo, hi - lo) == trim_start_at(s, k, hi) - lo,
        lo <= trim_start_at(s, k, hi) <= hi,
    decreases hi - k,
{
    if k < hi {
        lemma_trim_start_shift(s, lo, hi, k + 1);
    }
}

proof fn lemma_trim_end_shift(s: Seq<char>, lo: int, hi: int, a: int, k: int)
    requires
        0 <= lo <= a <= k <= hi <= s.len(),
    ensures
        trim_end_at(s.subrange(lo, hi), a - lo, k - lo) == trim_end_at(s, a, k) - lo,
        a <= trim_end_at(s, a, k) <= k,
    decreases k - a,
{
    if a < k {
        lemma_trim_end_shift(s, lo, hi, a, k - 1);
    }
}

/// Shape named by an opening bracket.
pub open spec fn sharp_of(l: char) -> ASharp {
    if l == '[' {
        ASharp::Square
    } else if l == '{' {
        ASharp::Circle
    } else {
        ASharp::Round
    }
}

/// Node token delimited by `l` and the first `r` after it.
fn split_node_char<'a>(input: &'a str, s: &Vec<char>, l: char, r: char) -> (res: Option<(&'a str, &'a str, ASharp, &'a str)>)
    requires
        s@ == input@,
    ensures
        match res {
            Some(t) => bracket_split(s@, l, r, sharp_of(l)) == Some((t.0@, t.1@, t.2, t.3@)),
            None => bracket_split(s@, l, r, sharp_of(l)) is None,
        },
{
    let sharp = match l {
        '[' => ASharp::Square,
        '{' => ASharp::Circle,
        _ => ASharp::Round,
    };
    let v = find_char(s, l, 0);
    if v >= s.len() {
        return None;
    }
    let vv = find_char(s, r, v + 1);
    let id = trim_slice(input, s, 0, v);
    proof {
        assert(s@.subrange(0, v as int) =~= s@.take(v as int));
    }
    if vv >= s.len() {
        let name = trim_slice(input, s, v + 1, s.len());
        proof {
            assert(s@.subrange(v + 1, s@.len() as int) =~= s@.skip(v + 1));
            reveal_strlit("");
            assert(""@ =~= Seq::<char>::empty());
        }
        Some((id, name, sharp, ""))
    } else {
        let name = trim_slice(input, s, v + 1, vv);
        let remain = trim_slice(input, s, vv + 1, s.len());
        proof {
            assert(s@.subrange(vv + 1, s@.len() as int) =~= s@.skip(vv + 1));
        }
        Some((id, name, sharp, remain))
    }
}

/// Splits a node token off the front of `input`: its id, its label, its
/// shape and the rest of the line.
pub fn parse_node(input: &str) -> (r: (&str, &str, ASharp, &str))
    ensures
        (r.0@, r.1@, r.2, r.3@) == parse_node_spec(input@),
{
    let s = chars_of(input);
    match split_node_char(input, &s, '(', ')') {
        Some(v) => {
            return v;
        },
        None => {},
    }
    match split_node_char(input, &s, '[', ']') {
        Some(v) => {
            return v;
        },
        None => {},
    }
    match split_node_char(input, &s, '{', '}') {
        Some(v) => {
            return v;
        },
        None => {},
    }
    let mut k: usize = 0;
    while k < s.len() && !(s[k] == '-' || s[k] == '<' || s[k] == '>' || s[k] == '^')
        invariant
            k <= s@.len(),
            find_arrow_start(s@, k as int) == find_arrow_start(s@, 0),
        decreases s@.len() - k,
    {
        k = k + 1;
    }
    let cut: usize = k;
    let id = input.substring_char(0, cut);
    let remain = input.substring_char(cut, s.len());
    proof {
        assert(s@.subrange(0, cut as int) =~= s@.take(cut as int));
        assert(s@.subrange(cut as int, s@.len() as int) =~= s@.skip(cut as int));
    }
    (id, id, ASharp::Round, remain)
}

fn has_prefix(t: &Vec<char>, p: &Vec<char>) -> (r: bool)
    ensures
        r == starts_with(t@, p@),
{
    if p.len() > t.len() {
        return false;
    }
    let mut k: usize = 0;
    while k < p.len()
        invariant
            p@.len() <= t@.len(),
            k <= p@.len(),
            forall|j: int| 0 <= j < k ==> t@[j] == p@[j],
        decreases p@.len() - k,
    {
        if t[k] != p[k] {
            proof {
                assert(t@.take(p@.len() as int)[k as int] != p@[k as int]);
            }
            return false;
        }
        k = k + 1;
    }
    proof {
        assert(t@.take(p@.len() as int) =~= p@);
    }
    true
}

fn has_suffix(t: &Vec<char>, p: &Vec<char>) -> (r: bool)
    ensures
        r == ends_with(t@, p@),
{
    if p.len() > t.len() {
        return false;
    }
    let off: usize = t.len() - p.len();
    let mut k: usize = 0;
    while k < p.len()
        invariant
            p@.len() <= t@.len(),
            off == t@.len() - p@.len(),
            k <= p@.len(),
            forall|j: int| 0 <= j < k ==> t@[off + j] == p@[j],
        decreases p@.len() - k,
    {
        let at: usize = t.len() - p.len() + k;
        if t[at] != p[k] {
            proof {
                assert(t@.skip(off as int)[k as int] != p@[k as int]);
            }
            return false;
        }
        k = k + 1;
    }
    proof {
        assert(t@.skip(off as int) =~= p@);
    }
    true
}

fn direct_of(t: &Vec<char>) -> (r: ADirect)
    ensures
        r == arrow_direct(t@),
{
    let lt = vec!['<', '-'];
    let gt = vec!['-', '>'];
    let up = vec!['-', '^'];
    let dn = vec!['-', 'v'];
    let lu = vec!['<', '^', '-'];
    let ld = vec!['<', 'v', '-'];
    let ru = vec!['-', '^', '>'];
    let rd = vec!['-', 'v', '>'];
    proof {
        assert(lt@ =~= seq!['<', '-']);
        assert(gt@ =~= seq!['-', '>']);
        assert(up@ =~= seq!['-', '^']);
        assert(dn@ =~= seq!['-', 'v']);
        assert(lu@ =~= seq!['<', '^', '-']);
        assert(ld@ =~= seq!['<', 'v', '-']);
        assert(ru@ =~= seq!['-', '^', '>']);
        assert(rd@ =~= seq!['-', 'v', '>']);
    }
    if has_prefix(t, &lt) && has_suffix(t, &gt) {
        ADirect::Double
    } else if has_prefix(t, &lt) {
        ADirect::Left
    } else if has_suffix(t, &gt) {
        ADirect::Right
    } else if has_suffix(t, &up) {
        ADirect::Up
    } else if has_suffix(t, &dn) {
        ADirect::Down
    } else if has_prefix(t, &lu) {
        ADirect::LeftUp
    } else if has_prefix(t, &ld) {
        ADirect::LeftDown
    } else if has_prefix(t, &ru) {
        ADirect::RightUp
    } else if has_prefix(t, &rd) {
        ADirect::RightDown
    } else {
        ADirect::NoArrow
    }
}

/// The direction that an arrow token (already trimmed) denotes.
pub fn get_arrow(input: &str) -> (r: ADirect)
    ensures
        r == arrow_direct(input@),
{
    direct_of(&chars_of(input))
}

/// Splits an arrow token off the front of `input`: its direction, the text
/// between its two bars, and the rest of the line.
pub fn parse_edge(input: &str) -> (r: (ADirect, String, String))
    ensures
        (r.0, r.1@, r.2@) == parse_edge_spec(input@),
{
    let s = chars_of(input);
    let n = s.len();
    let mut state: usize = 0;
    let mut com_begin: usize = 0;
    let mut com_end: usize = 0;
    let mut end: usize = 0;
    let mut seen = false;
    let mut i: usize = 0;
    while i < n
        invariant
            n == s@.len(),
            i <= n,
            state <= 2,
            com_begin <= i,
            com_end <= i,
            end < i || !seen,
            scan(s@, i as int, (state as int, com_begin as int, com_end as int, if seen { end as int } else { -1 }))
                == scan_all(s@),
        ensures
            com_begin <= n && com_end <= n && (end < n || !seen),
            scan_all(s@) == (state as int, com_begin as int, com_end as int, if seen { end as int } else { -1 }),
        decreases n - i,
    {
        let c = s[i];
        if c == '|' {
            if state == 1 {
                state = 2;
                com_end = i;
            } else {
                state = 1;
                com_begin = i;
            }
        } else if c == '-' || c == '<' || c == '>' || c == ' ' || c == '^' || c == 'v' {
            end = i;
            seen = true;
        } else if state != 1 {
            break;
        }
        i = i + 1;
    }
    if !seen {
        return (ADirect::NoArrow, String::new(), String::new());
    }
    let cut: usize = end + 1;
    let arrow = copy_range(&s, 0, cut);
    let label = if com_begin < com_end && com_end <= cut {
        copy_range(&s, com_begin + 1, com_end)
    } else {
        Vec::new()
    };
    let remain = copy_range(&s, cut, n);
    let direct = direct_of(&crate::text::trim_chars(&arrow));
    proof {
        assert(s@.subrange(0, cut as int) =~= s@.take(cut as int));
        assert(s@.subrange(cut as int, n as int) =~= s@.skip(cut as int));
        assert(label@ =~= parse_edge_spec(s@).1);
    }
    (direct, string_of(&label), string_of(&remain))
}

proof fn lemma_find_from(s: Seq<char>, c: char, from: int, k: int)
    requires
        0 <= from <= k <= s.len(),
        forall|j: int| from <= j < k ==> s[j] != c,
        k == s.len() || s[k] == c,
    ensures
        find_from(s, c, from) == k,
    decreases k - from,
{
    if from < k {
        lemma_find_from(s, c, from + 1, k);
    }
}

/// A bracketed node token splits into its trimmed id, label and remainder,
/// provided no bracket that is tried earlier occurs in it, the id holds no
/// opening bracket and the label no closing one.
pub proof fn lemma_parse_bracketed(id: Seq<char>, label: Seq<char>, rest: Seq<char>, l: char, r: char)
    requires
        (l == '(' && r == ')') || (l == '[' && r == ']') || (l == '{' && r == '}'),
        !id.contains(l),
        !label.contains(r),
        l != '(' ==> !(id + label + rest).contains('('),
        l == '{' ==> !(id + label + rest).contains('['),
    ensures
        parse_node_spec(id + seq![l] + label + seq![r] + rest) == (trimmed(id), trimmed(label), sharp_of(l), trimmed(rest)),
{
    let s = id + seq![l] + label + seq![r] + rest;
    let v = id.len() as int;
    let vv = v + 1 + label.len();
    let all = id + label + rest;
    assert forall|j: int| 0 <= j < v implies s[j] != l by {
        assert(s[j] == id[j]);
    }
    lemma_find_from(s, l, 0, v);
    assert forall|j: int| v + 1 <= j < vv implies s[j] != r by {
        assert(s[j] == label[j - v - 1]);
    }
    lemma_find_from(s, r, v + 1, vv);
    assert(s.take(v) =~= id);
    assert(s.subrange(v + 1, vv) =~= label);
    assert(s.skip(vv + 1) =~= rest);
    if l != '(' {
        assert forall|j: int| 0 <= j < s.len() implies s[j] != '(' by {
            if j < v {
                assert(all[j] == s[j]);
            } else if v < j < vv {
                assert(all[j - 1] == s[j]);
            } else if j > vv {
                assert(all[j - 2] == s[j]);
            }
        }
        lemma_find_from(s, '(', 0, s.len() as int);
    }
    if l == '{' {
        assert forall|j: int| 0 <= j < s.len() implies s[j] != '[' by {
            if j < v {
                assert(all[j] == s[j]);
            } else if v < j < vv {
                assert(all[j - 1] == s[j]);
            } else if j > vv {
                assert(all[j - 2] == s[j]);
            }
        }
        lemma_find_from(s, '[', 0, s.len() as int);
    }
}

proof fn lemma_scan_connectors(s: Seq<char>, i: int, e: int)
    requires
        0 <= i < s.len(),
        forall|j: int| 0 <= j < s.len() ==> #[trigger] is_connector(s[j]),
    ensures
        scan(s, i, (0, 0, 0, e)) == (0int, 0int, 0int, s.len() - 1),
    decreases s.len() - i,
{
    assert(is_connector(s[i]));
    if i + 1 < s.len() {
        lemma_scan_connectors(s, i + 1, i);
    } else {
        assert(scan(s, i + 1, (0, 0, 0, i)) == (0int, 0int, 0int, i));
    }
}

/// An arrow token made of connector characters alone, with no space at
/// either end, is consumed whole: its direction is that of the token, with
/// no label and nothing left over.
pub proof fn lemma_parse_plain_arrow(s: Seq<char>)
    requires
        s.len() >= 2,
        forall|j: int| 0 <= j < s.len() ==> #[trigger] is_connector(s[j]),
        s[0] != ' ',
        s.last() != ' ',
    ensures
        parse_edge_spec(s) == (arrow_direct(s), Seq::<char>::empty(), Seq::<char>::empty()),
{
    lemma_scan_connectors(s, 0, -1);
    assert(is_connector(s[0]));
    assert(is_connector(s[s.len() - 1]));
    assert(s.take(s.len() as int) =~= s);
    assert(s.skip(s.len() as int) =~= Seq::<char>::empty());
    assert(trim_start_at(s, 0, s.len() as int) == 0);
    assert(trim_end_at(s, 0, s.len() as int) == s.len());
    assert(s.subrange(0, s.len() as int) =~= s);
}

/// Each arrow literal of the grammar denotes its direction.
pub proof fn lemma_arrow_literals()
    ensures
        parse_edge_spec(seq!['<', '-', '-', '>']).0 == ADirect::Double,
        parse_edge_spec(seq!['<', '-', '-']).0 == ADirect::Left,
        parse_edge_spec(seq!['-', '-', '>']).0 == ADirect::Right,
        parse_edge_spec(seq!['-', '-', '^']).0 == ADirect::Up,
        parse_edge_spec(seq!['-', '-', 'v']).0 == ADirect::Down,
        parse_edge_spec(seq!['<', '^', '-']).0 == ADirect::LeftUp,
        parse_edge_spec(seq!['<', 'v', '-']).0 == ADirect::LeftDown,
        parse_edge_spec(seq!['-', '^', '>']).0 == ADirect::RightUp,
        parse_edge_spec(seq!['-', 'v', '>']).0 == ADirect::RightDown,
{
    let lits = seq![
        seq!['<', '-', '-', '>'],
        seq!['<', '-', '-'],
        seq!['-', '-', '>'],
        seq!['-', '-', '^'],
        seq!['-', '-', 'v'],
        seq!['<', '^', '-'],
        seq!['<', 'v', '-'],
        seq!['-', '^', '>'],
        seq!['-', 'v', '>'],
    ];
    assert forall|k: int| 0 <= k < lits.len() implies parse_edge_spec(#[trigger] lits[k]) == (
        arrow_direct(lits[k]),
        Seq::<char>::empty(),
        Seq::<char>::empty(),
    ) by {
        lemma_parse_plain_arrow(lits[k]);
    }
    let t0 = lits[0];
    assert(t0.take(2) =~= seq!['<', '-']);
    assert(t0.skip(2) =~= seq!['-', '>']);
    let t1 = lits[1];
    assert(t1.take(2) =~= seq!['<', '-']);
    let t2 = lits[2];
    assert(t2.take(2) !~= seq!['<', '-']);
    assert(t2.skip(1) =~= seq!['-', '>']);
    let t3 = lits[3];
    assert(t3.take(2) !~= seq!['<', '-']);
    assert(t3.skip(1) !~= seq!['-', '>']);
    assert(t3.skip(1) =~= seq!['-', '^']);
    let t4 = lits[4];
    assert(t4.take(2) !~= seq!['<', '-']);
    assert(t4.skip(1) !~= seq!['-', '>']);
    assert(t4.skip(1) !~= seq!['-', '^']);
    assert(t4.skip(1) =~= seq!['-', 'v']);
    let t5 = lits[5];
    assert(t5.take(2) !~= seq!['<', '-']);
    assert(t5.skip(1) !~= seq!['-', '>']);
    assert(t5.skip(1) !~= seq!['-', '^']);
    assert(t5.skip(1) !~= seq!['-', 'v']);
    assert(t5.take(3) =~= seq!['<', '^', '-']);
    let t6 = lits[6];
    assert(t6.take(2) !~= seq!['<', '-']);
    assert(t6.skip(1) !~= seq!['-', '>']);
    assert(t6.skip(1) !~= seq!['-', '^']);
    assert(t6.skip(1) !~= seq!['-', 'v']);
    assert(t6.take(3) !~= seq!['<', '^', '-']);
    assert(t6.take(3) =~= seq!['<', 'v', '-']);
    let t7 = lits[7];
    assert(t7.take(2) !~= seq!['<', '-']);
    assert(t7.skip(1) !~= seq!['-', '>']);
    assert(t7.skip(1) !~= seq!['-', '^']);
    assert(t7.skip(1) !~= seq!['-', 'v']);
    assert(t7.take(3) !~= seq!['<', '^', '-']);
    assert(t7.take(3) !~= seq!['<', 'v', '-']);
    assert(t7.take(3) =~= seq!['-', '^', '>']);
    let t8 = lits[8];
    assert(t8.take(2) !~= seq!['<', '-']);
    assert(t8.skip(1) !~= seq!['-', '>']);
    assert(t8.skip(1) !~= seq!['-', '^']);
    assert(t8.skip(1) !~= seq!['-', 'v']);
    assert(t8.take(3) !~= seq!['<', '^', '-']);
    assert(t8.take(3) !~= seq!['<', 'v', '-']);
    assert(t8.take(3) !~= seq!['-', '^', '>']);
    assert(t8.take(3) =~= seq!['-', 'v', '>']);
}

/// No part of a parsed node token is longer than the token.
pub proof fn lemma_parse_node_lens(s: Seq<char>)
    ensures
        parse_node_spec(s).0.len() <= s.len(),
        parse_node_spec(s).1.len() <= s.len(),
        parse_node_spec(s).3.len() <= s.len(),
{
    lemma_bracket_lens(s, '(', ')', ASharp::Round);
    lemma_bracket_lens(s, '[', ']', ASharp::Square);
    lemma_bracket_lens(s, '{', '}', ASharp::Circle);
    lemma_arrow_start_bounds(s, 0);
}

proof fn lemma_bracket_lens(s: Seq<char>, l: char, r: char, sharp: ASharp)
    ensures
        match bracket_split(s, l, r, sharp) {
            Some(t) => t.0.len() <= s.len() && t.1.len() <= s.len() && t.3.len() <= s.len(),
            None => true,
        },
{
    let v = find_from(s, l, 0);
    if v < s.len() {
        lemma_find_bounds(s, l, 0);
        lemma_find_bounds(s, r, v + 1);
        let vv = find_from(s, r, v + 1);
        lemma_trimmed_len(s.take(v));
        lemma_trimmed_len(s.skip(v + 1));
        if vv < s.len() {
            lemma_trimmed_len(s.subrange(v + 1, vv));
            lemma_trimmed_len(s.skip(vv + 1));
        }
    }
}

proof fn lemma_find_bounds(s: Seq<char>, c: char, from: int)
    requires
        0 <= from,
    ensures
        from <= find_from(s, c, from) || find_from(s, c, from) == s.len(),
        find_from(s, c, from) <= s.len() || from > s.len(),
    decreases s.len() - from,
{
    if from < s.len() {
        lemma_find_bounds(s, c, from + 1);
    }
}

proof fn lemma_arrow_start_bounds(s: Seq<char>, from: int)
    requires
        0 <= from <= s.len(),
    ensures
        from <= find_arrow_start(s, from) <= s.len(),
    decreases s.len() - from,
{
    if from < s.len() {
        lemma_arrow_start_bounds(s, from + 1);
    }
}

proof fn lemma_scan_end(s: Seq<char>, i: int, st: (int, int, int, int))
    requires
        -1 <= st.3 < s.len(),
    ensures
        -1 <= scan(s, i, st).3 < s.len(),
    decreases s.len() - i,
{
    if 0 <= i < s.len() {
        if s[i] == '|' {
            if st.0 == 1 {
                lemma_scan_end(s, i + 1, (2, st.1, i, st.3));
            } else {
                lemma_scan_end(s, i + 1, (1, i, st.2, st.3));
            }
        } else if is_connector(s[i]) {
            lemma_scan_end(s, i + 1, (st.0, st.1, st.2, i));
        } else if st.0 == 1 {
            lemma_scan_end(s, i + 1, st);
        }
    }
}

/// Reading an arrow token from a non-empty text consumes at least one
/// character.
pub proof fn lemma_parse_edge_progress(s: Seq<char>)
    requires
        s.len() >= 1,
    ensures
        parse_edge_spec(s).2.len() < s.len(),
{
    lemma_scan_end(s, 0, (0, 0, 0, -1));
}

} // verus!
