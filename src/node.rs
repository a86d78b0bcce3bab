//! Nodes, edges and the per-node render box: sizing of a node's label and
//! the lines a node draws.
use vstd::prelude::*;
use crate::text::{text_width, trimmed, run_of, chars_of, trim_chars, width_of, push_run, push_all, string_of, lemma_text_width_bound};

verus! {

/// Direction of a connector, or the side of a node it is attached to.
#[derive(Debug, Clone, Copy, PartialEq, Eq, Structural, Hash)]
pub enum ADirect {
    NoArrow,
    Double,
    Left,
    Right,
    Up,
    Down,
    LeftUp,
    LeftDown,
    RightUp,
    RightDown,
}

/// The direction seen from the other end of a connector.
pub open spec fn reverse(d: ADirect) -> ADirect {
    match d {
        ADirect::NoArrow => ADirect::NoArrow,
        ADirect::Double => ADirect::Double,
        ADirect::Left => ADirect::Right,
        ADirect::Right => ADirect::Left,
        ADirect::Up => ADirect::Down,
        ADirect::Down => ADirect::Up,
        ADirect::LeftUp => ADirect::RightDown,
        ADirect::LeftDown => ADirect::RightUp,
        ADirect::RightUp => ADirect::LeftDown,
        ADirect::RightDown => ADirect::LeftUp,
    }
}

/// Lower-case name of a direction.
pub open spec fn direct_name(d: ADirect) -> Seq<char> {
    match d {
        ADirect::NoArrow => seq!['n', 'o', 'n', 'e'],
        ADirect::Double => seq!['d', 'o', 'u', 'b', 'l', 'e'],
        ADirect::Left => seq!['l', 'e', 'f', 't'],
        ADirect::Right => seq!['r', 'i', 'g', 'h', 't'],
        ADirect::Up => seq!['u', 'p'],
        ADirect::Down => seq!['d', 'o', 'w', 'n'],
        ADirect::LeftUp => seq!['l', 'e', 'f', 't', 'u', 'p'],
        ADirect::LeftDown => seq!['l', 'e', 'f', 't', 'd', 'o', 'w', 'n'],
        ADirect::RightUp => seq!['r', 'i', 'g', 'h', 't', 'u', 'p'],
        ADirect::RightDown => seq!['r', 'i', 'g', 'h', 't', 'd', 'o', 'w', 'n'],
    }
}

/// Reversing a direction twice gives it back.
pub proof fn lemma_reverse_involutive(d: ADirect)
    ensures
        reverse(reverse(d)) == d,
{
}

impl ADirect {
    pub fn not(self) -> (r: ADirect)
        ensures
            r == reverse(self),
    {
        match self {
            ADirect::NoArrow => ADirect::NoArrow,
            ADirect::Double => ADirect::Double,
            ADirect::Left => ADirect::Right,
            ADirect::Right => ADirect::Left,
            ADirect::Up => ADirect::Down,
            ADirect::Down => ADirect::Up,
            ADirect::LeftUp => ADirect::RightDown,
            ADirect::LeftDown => ADirect::RightUp,
            ADirect::RightUp => ADirect::LeftDown,
            ADirect::RightDown => ADirect::LeftUp,
        }
    }

    pub fn to_string(&self) -> (r: String)
        ensures
            r@ == direct_name(*self),
    {
        let v: Vec<char> = match self {
            ADirect::NoArrow => vec!['n', 'o', 'n', 'e'],
            ADirect::Double => vec!['d', 'o', 'u', 'b', 'l', 'e'],
            ADirect::Left => vec!['l', 'e', 'f', 't'],
            ADirect::Right => vec!['r', 'i', 'g', 'h', 't'],
            ADirect::Up => vec!['u', 'p'],
            ADirect::Down => vec!['d', 'o', 'w', 'n'],
            ADirect::LeftUp => vec!['l', 'e', 'f', 't', 'u', 'p'],
            ADirect::LeftDown => vec!['l', 'e', 'f', 't', 'd', 'o', 'w', 'n'],
            ADirect::RightUp => vec!['r', 'i', 'g', 'h', 't', 'u', 'p'],
            ADirect::RightDown => vec!['r', 'i', 'g', 'h', 't', 'd', 'o', 'w', 'n'],
        };
        proof {
            assert(v@ =~= direct_name(*self));
        }
        string_of(&v)
    }
}

/// Space reserved around a node for connector glyphs, and the connectors
/// drawn on each side.
#[derive(Clone, Copy, Debug, PartialEq, Eq, Structural, Hash)]
pub struct RBox {
    pub w_left: usize,
    pub w_right: usize,
    pub h_up: usize,
    pub h_down: usize,
    pub left: ADirect,
    pub right: ADirect,
    pub up: ADirect,
    pub down: ADirect,
    pub left_down: ADirect,
}

/// A render box with nothing reserved and no connector on any side.
pub open spec fn empty_rbox() -> RBox {
    RBox {
        w_left: 0,
        w_right: 0,
        h_up: 0,
        h_down: 0,
        left: ADirect::NoArrow,
        right: ADirect::NoArrow,
        up: ADirect::NoArrow,
        down: ADirect::NoArrow,
        left_down: ADirect::NoArrow,
    }
}

pub open spec fn max_nat(a: nat, b: nat) -> nat {
    if a >= b {
        a
    } else {
        b
    }
}

impl RBox {
    pub fn new() -> (r: Self)
        ensures
            r == empty_rbox(),
    {
        Self {
            left: ADirect::NoArrow,
            right: ADirect::NoArrow,
            up: ADirect::NoArrow,
            down: ADirect::NoArrow,
            left_down: ADirect::NoArrow,
            w_left: 0,
            w_right: 0,
            h_up: 0,
            h_down: 0,
        }
    }

    pub fn set_left_w(&mut self, w: usize)
        ensures
            *final(self) == (RBox { w_left: max_nat(old(self).w_left as nat, w as nat) as usize, ..*old(self) }),
    {
        if w > self.w_left {
            self.w_left = w;
        }
    }

    pub fn set_right_w(&mut self, w: usize)
        ensures
            *final(self) == (RBox { w_right: max_nat(old(self).w_right as nat, w as nat) as usize, ..*old(self) }),
    {
        if w > self.w_right {
            self.w_right = w;
        }
    }

    pub fn set_up_h(&mut self, w: usize)
        ensures
            *final(self) == (RBox { h_up: max_nat(old(self).h_up as nat, w as nat) as usize, ..*old(self) }),
    {
        if w > self.h_up {
            self.h_up = w;
        }
    }

    pub fn set_down_h(&mut self, w: usize)
        ensures
            *final(self) == (RBox { h_down: max_nat(old(self).h_down as nat, w as nat) as usize, ..*old(self) }),
    {
        if w > self.h_down {
            self.h_down = w;
        }
    }
}

/// Border style of a box.
#[derive(Debug, Clone, Copy, PartialEq, Eq, Structural, Hash)]
pub enum ASharp {
    Round,
    Square,
    Circle,
}

/// A connector between two nodes, named by their ids.
#[derive(Debug, PartialEq, Eq, Hash)]
pub struct AEdge {
    pub direct: ADirect,
    pub src: String,
    pub dst: String,
    pub text: String,
}

impl Clone for AEdge {
    fn clone(&self) -> (r: Self)
        ensures
            r == *self,
    {
        AEdge { direct: self.direct, src: self.src.clone(), dst: self.dst.clone(), text: self.text.clone() }
    }
}

impl AEdge {
    pub fn new(direct: ADirect, from: String, to: String, text: String) -> (r: Self)
        ensures
            r == (AEdge { direct, src: from, dst: to, text }),
    {
        Self { direct, src: from, dst: to, text }
    }
}


/// `s` cut at each line break; a text without breaks is one line.
pub open spec fn split_lines(s: Seq<char>) -> Seq<Seq<char>>
    decreases s.len(),
{
    if s.len() == 0 {
        seq![Seq::<char>::empty()]
    } else {
        let prev = split_lines(s.drop_last());
        if s.last() == '\n' {
            prev.push(Seq::<char>::empty())
        } else {
            prev.update(prev.len() - 1, prev.last().push(s.last()))
        }
    }
}

/// Largest display width among `lines` (0 when there is none).
pub open spec fn max_width(lines: Seq<Seq<char>>) -> nat
    decreases lines.len(),
{
    if lines.len() == 0 {
        0
    } else {
        max_nat(max_width(lines.drop_last()), text_width(lines.last()))
    }
}

pub proof fn lemma_split_lines(s: Seq<char>)
    ensures
        1 <= split_lines(s).len() <= s.len() + 1,
        forall|k: int| 0 <= k < split_lines(s).len() ==> #[trigger] split_lines(s)[k].len() <= s.len(),
    decreases s.len(),
{
    if s.len() > 0 {
        lemma_split_lines(s.drop_last());
    }
}

pub proof fn lemma_max_width(lines: Seq<Seq<char>>, b: nat)
    ensures
        forall|k: int| 0 <= k < lines.len() ==> text_width(#[trigger] lines[k]) <= max_width(lines),
        (forall|k: int| 0 <= k < lines.len() ==> text_width(#[trigger] lines[k]) <= b) ==> max_width(lines) <= b,
    decreases lines.len(),
{
    if lines.len() > 0 {
        lemma_max_width(lines.drop_last(), b);
        assert forall|k: int| 0 <= k < lines.len() - 1 implies lines.drop_last()[k] == lines[k] by {}
    }
}

/// Reserved space and side connectors after attaching a connector of
/// direction `d` on side `side`.
pub open spec fn with_arrow(rb: RBox, side: ADirect, d: ADirect) -> RBox {
    let gw: nat = if d == ADirect::Double { 4 } else { 3 };
    match side {
        ADirect::Left => RBox { left: d, w_left: max_nat(rb.w_left as nat, gw) as usize, ..rb },
        ADirect::Right => RBox { right: d, w_right: max_nat(rb.w_right as nat, gw) as usize, ..rb },
        ADirect::Up => RBox { up: d, h_up: max_nat(rb.h_up as nat, 2) as usize, ..rb },
        ADirect::Down => RBox { down: d, h_down: max_nat(rb.h_down as nat, 2) as usize, ..rb },
        ADirect::LeftDown => RBox {
            left_down: d,
            h_down: max_nat(rb.h_down as nat, 2) as usize,
            w_left: max_nat(rb.w_left as nat, 3) as usize,
            ..rb
        },
        _ => rb,
    }
}

pub open spec fn spaces(n: int) -> Seq<char> {
    run_of(' ', n as nat)
}

pub open spec fn dashes(n: int) -> Seq<char> {
    run_of('-', n as nat)
}

/// Corner glyph of a border row.
pub open spec fn corner(sharp: ASharp, top: bool) -> char {
    if sharp == ASharp::Square {
        '+'
    } else if top {
        '.'
    } else {
        '\''
    }
}

/// The glyphs in a side gutter of width `wg` on body row `i` of a box whose
/// label has `h` lines: the connector sits on the middle row only.
pub open spec fn gutter(i: int, h: int, wg: int, d: ADirect) -> Seq<char> {
    if wg <= 0 {
        Seq::empty()
    } else if i != (h + 1) / 2 {
        spaces(wg)
    } else {
        match d {
            ADirect::Left => seq!['<'] + dashes(wg - 1),
            ADirect::Right => dashes(wg - 1) + seq!['>'],
            ADirect::Double => if wg >= 2 {
                seq!['<'] + dashes(wg - 2) + seq!['>']
            } else {
                spaces(wg)
            },
            _ => spaces(wg),
        }
    }
}

/// A labelled box on the grid.
#[derive(Debug, Clone, Eq, Hash)]
pub struct ANode {
    /// Insertion order on the board (0 before insertion).
    pub idx: usize,
    pub id: String,
    /// The label, trimmed.
    pub name: String,
    /// Grid row.
    pub x: usize,
    /// Grid column.
    pub y: usize,
    /// Largest display width of a label line.
    pub w: usize,
    /// Number of label lines.
    pub h: usize,
    pub words: Vec<Vec<char>>,
    pub arrows: Vec<AEdge>,
    pub arrows_no_render: Vec<AEdge>,
    pub floating: usize,
    pub rbox: RBox,
    pub sharp: ASharp,
}

/// Largest label length for which every size of a node fits in `usize`.
pub const MAX_LABEL: usize = usize::MAX / 16;

/// Top (`top`) or bottom border of node `n`.
pub open spec fn border_line(n: ANode, top: bool, cw: int, lw: int, rw: int, expand: bool) -> Seq<char> {
    let cwn = n.w + 2;
    let lb = (cw - cwn + 1) / 2;
    let rb = cw - cwn - lb;
    let spc = corner(n.sharp, top);
    if expand {
        seq![spc] + spaces(lw) + dashes(cw) + seq![spc] + spaces(rw)
    } else {
        spaces(lb + lw) + seq![spc] + dashes(cwn) + seq![spc] + spaces(rb + rw)
    }
}

/// Label row `i` (1-based) of node `n`, showing label line `word` centred
/// between bars, with the side gutters.
pub open spec fn word_line(n: ANode, i: int, word: Seq<char>, cw: int, expand: bool) -> Seq<char> {
    let cwn = n.w + 2;
    let lb = (cw - cwn + 1) / 2;
    let rb = cw - cwn - lb;
    let lbank = (cwn - text_width(word) + 1) / 2;
    let rbank = cwn - text_width(word) - lbank;
    let la = gutter(i, n.h as int, n.rbox.w_left as int, n.rbox.left);
    let ra = gutter(i, n.h as int, n.rbox.w_right as int, n.rbox.right);
    if expand {
        la + seq!['|'] + spaces(lb) + spaces(lbank) + word + spaces(rb) + spaces(rbank) + seq!['|'] + ra
    } else {
        spaces(lb) + la + seq!['|'] + spaces(lbank) + word + spaces(rbank) + seq!['|'] + ra + spaces(rb)
    }
}

/// Row `i` of node `n` drawn in a cell whose central part is `cw` columns
/// wide, with gutters `lw` and `rw`: rows 0 and `h + 1` are the borders,
/// rows between them the label lines, rows below the box blank.
pub open spec fn render_line(n: ANode, i: int, cw: int, lw: int, rw: int, expand: bool) -> Seq<char> {
    let cwn = n.w + 2;
    let lb = (cw - cwn + 1) / 2;
    let rb = cw - cwn - lb;
    if i == 0 || i == n.h + 1 {
        border_line(n, i == 0, cw, lw, rw, expand)
    } else if i >= n.h + 2 {
        spaces(lw + cw + rw + 2)
    } else if i - 1 < n.words@.len() {
        word_line(n, i, n.words@[i - 1]@, cw, expand)
    } else {
        spaces(lb + lw) + seq!['|'] + spaces(cwn) + seq!['|'] + spaces(rb + rw)
    }
}

/// Row `i` of the gutter above node `n`.
pub open spec fn up_line(n: ANode, i: int, cw: int, lw: int, rw: int) -> Seq<char> {
    let lb = (cw + 1) / 2;
    let rb = cw + 1 - lb;
    if n.rbox.h_up == 0 {
        spaces(lw + cw + rw + 2)
    } else if i == 0 {
        spaces(lb + lw) + seq!['^'] + spaces(rb + rw)
    } else if i <= n.rbox.h_up - 1 {
        spaces(lb + lw) + seq!['|'] + spaces(rb + rw)
    } else {
        spaces(lw + cw + rw + 2)
    }
}

/// Row `i` of the gutter below node `n`.
pub open spec fn down_line(n: ANode, i: int, cw: int, lw: int, rw: int) -> Seq<char> {
    let lb = (cw + 1) / 2;
    let rb = cw + 1 - lb;
    if n.rbox.h_down == 0 {
        spaces(lw + cw + rw + 2)
    } else if i == n.rbox.h_down - 1 {
        spaces(lb + lw) + seq!['v'] + spaces(rb + rw)
    } else if i < n.rbox.h_down - 1 {
        spaces(lb + lw) + seq!['|'] + spaces(rb + rw)
    } else {
        spaces(lw + cw + rw + 2)
    }
}

impl ANode {
    pub open spec fn word_views(&self) -> Seq<Seq<char>> {
        self.words@.map_values(|v: Vec<char>| v@)
    }

    /// The label lines and sizes agree with the label, and every size fits.
    pub open spec fn wf(&self) -> bool {
        &&& self.name@.len() <= MAX_LABEL
        &&& self.word_views() == split_lines(self.name@)
        &&& self.h == self.words@.len()
        &&& self.w == max_width(self.word_views())
        &&& self.rbox.w_left <= 4 && self.rbox.w_right <= 4
        &&& self.rbox.h_up <= 2 && self.rbox.h_down <= 2
    }

    /// A node with the trimmed id and label, its label cut into lines and
    /// measured, at row `x` and column `y`.
    #[must_use]
    pub fn new(id: String, name: String, x: usize, y: usize, sharp: ASharp) -> (r: Self)
        requires
            name@.len() <= MAX_LABEL,
        ensures
            r.wf(),
            r.id@ == trimmed(id@),
            r.name@ == trimmed(name@),
            r.word_views() == split_lines(trimmed(name@)),
            r.h == split_lines(trimmed(name@)).len(),
            r.w == max_width(split_lines(trimmed(name@))),
            r.x == x,
            r.y == y,
            r.sharp == sharp,
            r.idx == 0,
            r.floating == 0,
            r.rbox == empty_rbox(),
            r.arrows@.len() == 0,
            r.arrows_no_render@.len() == 0,
    {
        let nid = string_of(&trim_chars(&chars_of(id.as_str())));
        let nchars = trim_chars(&chars_of(name.as_str()));
        let nname = string_of(&nchars);
        let words = split_words(&nchars);
        let ghost lines = split_lines(nchars@);
        proof {
            lemma_split_lines(nchars@);
        }
        let mut w: usize = 0;
        let mut k: usize = 0;
        while k < words.len()
            invariant
                k <= words@.len(),
                words@.map_values(|v: Vec<char>| v@) == lines,
                lines == split_lines(nchars@),
                nchars@.len() <= MAX_LABEL,
                forall|j: int| 0 <= j < lines.len() ==> #[trigger] lines[j].len() <= nchars@.len(),
                w == max_width(lines.take(k as int)),
                w <= 2 * nchars@.len(),
            decreases words@.len() - k,
        {
            assert(words@[k as int]@ == lines[k as int]);
            let c = width_of(&words[k], 0, words[k].len());
            proof {
                assert(words[k as int]@.subrange(0, words[k as int]@.len() as int) =~= lines[k as int]);
                assert(lines.take(k as int + 1).drop_last() =~= lines.take(k as int));
            }
            if c > w {
                w = c;
            }
            k = k + 1;
        }
        proof {
            assert(lines.take(k as int) =~= lines);
        }
        Self {
            id: nid,
            name: nname,
            x,
            y,
            w,
            h: words.len(),
            words,
            arrows: Vec::new(),
            arrows_no_render: Vec::new(),
            idx: 0,
            rbox: RBox::new(),
            sharp,
            floating: 0,
        }
    }
}

impl ANode {
    /// Records `arrow` on this node. A rendered arrow attached on side
    /// `direct` also reserves room for its glyphs on that side.
    pub fn add_arrow(&mut self, arrow: &AEdge, direct: ADirect, enable_render: bool)
        ensures
            !enable_render ==> final(self).arrows_no_render@ == old(self).arrows_no_render@.push(*arrow)
                && *final(self) == (ANode { arrows_no_render: final(self).arrows_no_render, ..*old(self) }),
            enable_render ==> final(self).arrows@ == old(self).arrows@.push(*arrow)
                && *final(self) == (ANode {
                    arrows: final(self).arrows,
                    rbox: with_arrow(old(self).rbox, direct, arrow.direct),
                    ..*old(self)
                }),
            old(self).wf() ==> final(self).wf(),
    {
        if !enable_render {
            self.arrows_no_render.push(arrow.clone());
            return;
        }
        self.arrows.push(arrow.clone());
        match direct {
            ADirect::Left => {
                self.rbox.left = arrow.direct;
                self.rbox.set_left_w(
                    if arrow.direct == ADirect::Double {
                        4
                    } else {
                        3
                    },
                );
            },
            ADirect::Right => {
                self.rbox.right = arrow.direct;
                self.rbox.set_right_w(
                    if arrow.direct == ADirect::Double {
                        4
                    } else {
                        3
                    },
                );
            },
            ADirect::Up => {
                self.rbox.up = arrow.direct;
                self.rbox.set_up_h(2);
            },
            ADirect::Down => {
                self.rbox.down = arrow.direct;
                self.rbox.set_down_h(2);
            },
            ADirect::LeftDown => {
                self.rbox.left_down = arrow.direct;
                self.rbox.set_down_h(2);
                self.rbox.set_left_w(3);
            },
            _ => {},
        }
    }

    pub proof fn lemma_sizes(&self)
        requires
            self.wf(),
        ensures
            self.h <= MAX_LABEL + 1,
            self.w <= 2 * MAX_LABEL,
            forall|k: int| 0 <= k < self.words@.len() ==> #[trigger] self.words@[k]@.len() <= MAX_LABEL
                && text_width(self.words@[k]@) <= self.w,
    {
        let lines = split_lines(self.name@);
        lemma_split_lines(self.name@);
        assert forall|k: int| 0 <= k < lines.len() implies text_width(#[trigger] lines[k]) <= 2 * MAX_LABEL by {
            lemma_text_width_bound(lines[k]);
        }
        lemma_max_width(lines, 2 * MAX_LABEL as nat);
        assert forall|k: int| 0 <= k < self.words@.len() implies #[trigger] self.words@[k]@ == lines[k] by {
            assert(self.word_views()[k] == self.words@[k]@);
        }
    }

    /// Both side gutters of body row `i`.
    fn render_arrow(&self, i: usize) -> (r: (Vec<char>, Vec<char>))
        requires
            self.wf(),
        ensures
            r.0@ == gutter(i as int, self.h as int, self.rbox.w_left as int, self.rbox.left),
            r.1@ == gutter(i as int, self.h as int, self.rbox.w_right as int, self.rbox.right),
    {
        proof {
            self.lemma_sizes();
        }
        let mid = (self.h + 1) / 2;
        (gutter_glyphs(i, mid, self.rbox.w_left, self.rbox.left), gutter_glyphs(i, mid, self.rbox.w_right, self.rbox.right))
    }

    fn border_row(&self, top: bool, cw: usize, lw: usize, rw: usize, expand_mode: bool) -> (r: Vec<char>)
        requires
            self.wf(),
            cw >= self.w + 2,
            lw + cw + rw + 2 <= usize::MAX,
        ensures
            r@ == border_line(*self, top, cw as int, lw as int, rw as int, expand_mode),
    {
        let cwn = self.w + 2;
        let lb: usize = (cw - cwn + 1) / 2;
        let rb: usize = cw - cwn - lb;
        let mut out: Vec<char> = Vec::new();
        let spc = if self.sharp == ASharp::Square {
            '+'
        } else if top {
            '.'
        } else {
            '\''
        };
        if expand_mode {
            out.push(spc);
            push_run(&mut out, ' ', lw);
            push_run(&mut out, '-', cw);
            out.push(spc);
            push_run(&mut out, ' ', rw);
        } else {
            push_run(&mut out, ' ', lb + lw);
            out.push(spc);
            push_run(&mut out, '-', cwn);
            out.push(spc);
            push_run(&mut out, ' ', rb + rw);
        }
        proof {
            assert(out@ =~= border_line(*self, top, cw as int, lw as int, rw as int, expand_mode));
        }
        out
    }

    fn word_row(&self, i: usize, cw: usize, expand_mode: bool) -> (r: Vec<char>)
        requires
            self.wf(),
            cw >= self.w + 2,
            cw + 2 <= usize::MAX,
            1 <= i <= self.words@.len(),
        ensures
            r@ == word_line(*self, i as int, self.words@[i - 1]@, cw as int, expand_mode),
    {
        proof {
            self.lemma_sizes();
        }
        let cwn = self.w + 2;
        let lb: usize = (cw - cwn + 1) / 2;
        let rb: usize = cw - cwn - lb;
        let mut out: Vec<char> = Vec::new();
        let cword = &self.words[i - 1];
        let tw = width_of(cword, 0, cword.len());
        proof {
            assert(cword@.subrange(0, cword@.len() as int) =~= cword@);
        }
        let (lastr, rastr) = self.render_arrow(i);
        let lbank: usize = (cwn - tw + 1) / 2;
        let rbank: usize = cwn - tw - lbank;
        if expand_mode {
            push_all(&mut out, &lastr);
            out.push('|');
            push_run(&mut out, ' ', lb);
            push_run(&mut out, ' ', lbank);
            push_all(&mut out, cword);
            push_run(&mut out, ' ', rb);
            push_run(&mut out, ' ', rbank);
            out.push('|');
            push_all(&mut out, &rastr);
        } else {
            push_run(&mut out, ' ', lb);
            push_all(&mut out, &lastr);
            out.push('|');
            push_run(&mut out, ' ', lbank);
            push_all(&mut out, cword);
            push_run(&mut out, ' ', rbank);
            out.push('|');
            push_all(&mut out, &rastr);
            push_run(&mut out, ' ', rb);
        }
        proof {
            assert(out@ =~= word_line(*self, i as int, self.words@[i - 1]@, cw as int, expand_mode));
        }
        out
    }

    /// Row `i` of the box (rows 0 and `h + 1` are its borders) in a cell
    /// whose central part is `cw` columns wide, between gutters of `lw` and
    /// `rw` columns.
    pub fn render(&self, i: usize, _maxh: usize, cw: usize, lw: usize, rw: usize, expand_mode: bool) -> (r: String)
        requires
            self.wf(),
            cw >= self.w + 2,
            lw + cw + rw + 2 <= usize::MAX,
        ensures
            r@ == render_line(*self, i as int, cw as int, lw as int, rw as int, expand_mode),
    {
        proof {
            self.lemma_sizes();
        }
        let cwn = self.w + 2;
        let lb: usize = (cw - cwn + 1) / 2;
        let rb: usize = cw - cwn - lb;
        let mut out: Vec<char> = Vec::new();
        if i == 0 || i == self.h + 1 {
            out = self.border_row(i == 0, cw, lw, rw, expand_mode);
        } else if i >= self.h + 2 {
            push_run(&mut out, ' ', lw + cw + rw + 2);
        } else if i - 1 < self.words.len() {
            out = self.word_row(i, cw, expand_mode);
        } else {
            push_run(&mut out, ' ', lb + lw);
            out.push('|');
            push_run(&mut out, ' ', cwn);
            out.push('|');
            push_run(&mut out, ' ', rb + rw);
        }
        proof {
            assert(out@ =~= render_line(*self, i as int, cw as int, lw as int, rw as int, expand_mode));
        }
        string_of(&out)
    }

    /// Row `i` of the gutter above the box: `^` on its first row, `|` below.
    pub fn render_up(&self, i: usize, _maxh: usize, cw: usize, lw: usize, rw: usize) -> (r: String)
        requires
            lw + cw + rw + 2 <= usize::MAX,
        ensures
            r@ == up_line(*self, i as int, cw as int, lw as int, rw as int),
    {
        let mut out: Vec<char> = Vec::new();
        let lb: usize = (cw + 1) / 2;
        let rb: usize = cw + 1 - lb;
        if self.rbox.h_up == 0 {
            push_run(&mut out, ' ', lw + cw + rw + 2);
        } else if i == 0 || i <= self.rbox.h_up - 1 {
            push_run(&mut out, ' ', lb + lw);
            out.push(if i == 0 { '^' } else { '|' });
            push_run(&mut out, ' ', rb + rw);
        } else {
            push_run(&mut out, ' ', lw + cw + rw + 2);
        }
        proof {
            assert(out@ =~= up_line(*self, i as int, cw as int, lw as int, rw as int));
        }
        string_of(&out)
    }

    /// Row `i` of the gutter below the box: `|` rows ending in `v`.
    pub fn render_down(&self, i: usize, _maxh: usize, cw: usize, lw: usize, rw: usize) -> (r: String)
        requires
            lw + cw + rw + 2 <= usize::MAX,
        ensures
            r@ == down_line(*self, i as int, cw as int, lw as int, rw as int),
    {
        let mut out: Vec<char> = Vec::new();
        let lb: usize = (cw + 1) / 2;
        let rb: usize = cw + 1 - lb;
        if self.rbox.h_down == 0 {
            push_run(&mut out, ' ', lw + cw + rw + 2);
        } else if i <= self.rbox.h_down - 1 {
            push_run(&mut out, ' ', lb + lw);
            out.push(if i == self.rbox.h_down - 1 { 'v' } else { '|' });
            push_run(&mut out, ' ', rb + rw);
        } else {
            push_run(&mut out, ' ', lw + cw + rw + 2);
        }
        proof {
            assert(out@ =~= down_line(*self, i as int, cw as int, lw as int, rw as int));
        }
        string_of(&out)
    }

    /// Width of the box's dash run: the widest label line plus one column
    /// of padding on each side.
    pub fn content_w(&self) -> (r: usize)
        requires
            self.wf(),
        ensures
            r == self.w + 2,
    {
        proof {
            self.lemma_sizes();
        }
        self.w + 2
    }

    pub fn left_w(&self) -> (r: usize)
        ensures
            r == self.rbox.w_left,
    {
        self.rbox.w_left
    }

    pub fn right_w(&self) -> (r: usize)
        ensures
            r == self.rbox.w_right,
    {
        self.rbox.w_right
    }

    /// Full width that the node draws: gutters, borders and padded label.
    pub fn total_w(&self) -> (r: usize)
        requires
            self.wf(),
        ensures
            r == self.rbox.w_left + self.w + 4 + self.rbox.w_right,
    {
        proof {
            self.lemma_sizes();
        }
        self.rbox.w_left + self.w + 4 + self.rbox.w_right
    }

    /// Full height that the node draws: gutters, borders and label lines.
    pub fn total_h(&self) -> (r: usize)
        requires
            self.wf(),
        ensures
            r == self.rbox.h_up + self.h + 2 + self.rbox.h_down,
    {
        proof {
            self.lemma_sizes();
        }
        self.rbox.h_up + self.h + 2 + self.rbox.h_down
    }

    pub fn up_h(&self) -> (r: usize)
        ensures
            r == self.rbox.h_up,
    {
        self.rbox.h_up
    }

    pub fn down_h(&self) -> (r: usize)
        ensures
            r == self.rbox.h_down,
    {
        self.rbox.h_down
    }

    /// Height of the box: label lines plus the two borders.
    pub fn content_h(&self) -> (r: usize)
        requires
            self.wf(),
        ensures
            r == self.h + 2,
    {
        proof {
            self.lemma_sizes();
        }
        self.h + 2
    }
}

/// The gutter glyphs of body row `i`, given the middle row `mid`.
fn gutter_glyphs(i: usize, mid: usize, wg: usize, d: ADirect) -> (r: Vec<char>)
    ensures
        forall|h: int| (h + 1) / 2 == mid ==> r@ == gutter(i as int, h, wg as int, d),
{
    let mut out: Vec<char> = Vec::new();
    if wg == 0 {
    } else if i != mid {
        push_run(&mut out, ' ', wg);
    } else {
        match d {
            ADirect::Left => {
                out.push('<');
                push_run(&mut out, '-', wg - 1);
            },
            ADirect::Right => {
                push_run(&mut out, '-', wg - 1);
                out.push('>');
            },
            ADirect::Double => {
                if wg >= 2 {
                    out.push('<');
                    push_run(&mut out, '-', wg - 2);
                    out.push('>');
                } else {
                    push_run(&mut out, ' ', wg);
                }
            },
            _ => {
                push_run(&mut out, ' ', wg);
            },
        }
    }
    proof {
        assert forall|h: int| (h + 1) / 2 == mid implies out@ == gutter(i as int, h, wg as int, d) by {
            assert(out@ =~= gutter(i as int, h, wg as int, d));
        }
    }
    out
}

/// Two nodes are equal when their ids and labels are.
impl PartialEq for ANode {
    fn eq(&self, other: &ANode) -> (r: bool) {
        self.id == other.id && self.name == other.name
    }
}

impl vstd::std_specs::cmp::PartialEqSpecImpl for ANode {
    open spec fn obeys_eq_spec() -> bool {
        true
    }

    open spec fn eq_spec(&self, other: &ANode) -> bool {
        self.id@ == other.id@ && self.name@ == other.name@
    }
}

/// `s` cut at each line break.
pub(crate) fn split_words(s: &Vec<char>) -> (r: Vec<Vec<char>>)
    ensures
        r@.map_values(|v: Vec<char>| v@) == split_lines(s@),
{
    let mut lines: Vec<Vec<char>> = Vec::new();
    let mut cur: Vec<char> = Vec::new();
    let mut i: usize = 0;
    proof {
        assert(s@.take(0) =~= Seq::<char>::empty());
        assert(lines@.map_values(|v: Vec<char>| v@).push(cur@) =~= split_lines(s@.take(0)));
    }
    while i < s.len()
        invariant
            i <= s@.len(),
            lines@.map_values(|v: Vec<char>| v@).push(cur@) == split_lines(s@.take(i as int)),
        decreases s@.len() - i,
    {
        let ghost before = lines@.map_values(|v: Vec<char>| v@);
        proof {
            assert(s@.take(i as int + 1).drop_last() =~= s@.take(i as int));
            assert(s@.take(i as int + 1).last() == s@[i as int]);
        }
        if s[i] == '\n' {
            let done = cur;
            lines.push(done);
            cur = Vec::new();
            proof {
                assert(lines@.map_values(|v: Vec<char>| v@) =~= before.push(done@));
                assert(lines@.map_values(|v: Vec<char>| v@).push(cur@) =~= split_lines(s@.take(i as int + 1)));
            }
        } else {
            cur.push(s[i]);
            proof {
                assert(lines@.map_values(|v: Vec<char>| v@).push(cur@) =~= split_lines(s@.take(i as int + 1)));
            }
        }
        i = i + 1;
    }
    let ghost before = lines@.map_values(|v: Vec<char>| v@);
    let last = cur;
    lines.push(last);
    proof {
        assert(lines@.map_values(|v: Vec<char>| v@) =~= before.push(last@));
        assert(s@.take(s@.len() as int) =~= s@);
    }
    lines
}

} // verus!
