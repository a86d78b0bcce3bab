//! The board: registers nodes, moves them when left/right connectors are
//! replayed, fills the grid and composes the final drawing.
use vstd::prelude::*;
use crate::node::{ADirect, AEdge, ANode, ASharp, empty_rbox, with_arrow, up_line, down_line, render_line, spaces, split_lines, split_words, MAX_LABEL};
use crate::parse::{parse_node, parse_edge, parse_node_spec, parse_edge_spec, lemma_parse_node_lens, lemma_parse_edge_progress};
use crate::text::{is_ws, chars_of, push_all, push_run, string_of, trimmed};

verus! {

/// Largest number of rows, of columns and of nodes that a board holds.
pub const MAX_GRID: usize = usize::MAX / 64;

/// `n` after the node `id` is moved to row `x`, column `y`: any other node
/// of row `x` at column `y` or to its right moves one column right.
pub open spec fn relocated(n: ANode, id: Seq<char>, x: usize, y: usize) -> ANode {
    if n.id@ == id {
        ANode { x, y, ..n }
    } else if n.x == x && n.y >= y {
        ANode { y: (n.y + 1) as usize, ..n }
    } else {
        n
    }
}

/// `n` is `m` after `arrow` was attached to it: drawn on the source, on
/// the side the arrow points to, and recorded without drawing on the
/// destination.
pub open spec fn linked(m: ANode, n: ANode, arrow: AEdge) -> bool {
    if m.id@ == arrow.src@ {
        &&& n.arrows@ == m.arrows@.push(arrow)
        &&& n == (ANode { arrows: n.arrows, rbox: with_arrow(m.rbox, arrow.direct, arrow.direct), ..m })
    } else if m.id@ == arrow.dst@ {
        &&& n.arrows_no_render@ == m.arrows_no_render@.push(arrow)
        &&& n == (ANode { arrows_no_render: n.arrows_no_render, ..m })
    } else {
        n == m
    }
}

/// Whether some node of `ns` has id `id`.
pub open spec fn has_id(ns: Seq<ANode>, id: Seq<char>) -> bool {
    exists|i: int| 0 <= i < ns.len() && (#[trigger] ns[i]).id@ == id
}

/// The cell of the grid at row `r`, column `c` once the nodes `ns` are
/// written in order: the insertion index of the last node placed there,
/// or 0.
pub open spec fn cell_at(ns: Seq<ANode>, r: int, c: int) -> usize
    decreases ns.len(),
{
    if ns.len() == 0 {
        0
    } else if ns.last().x == r && ns.last().y == c {
        ns.last().idx
    } else {
        cell_at(ns.drop_last(), r, c)
    }
}

/// Column that a connector's destination moves to, from its source column
/// `sy`: one to the left (not below 0) for `Left`, one to the right otherwise.
pub open spec fn target_col(d: ADirect, sy: usize) -> usize {
    if d == ADirect::Left {
        if sy >= 1 {
            (sy - 1) as usize
        } else {
            0
        }
    } else {
        (sy + 1) as usize
    }
}

/// Whether `arrow` moves nodes: a left or right connector between two
/// different nodes.
pub open spec fn moves(arrow: AEdge) -> bool {
    arrow.src@ != arrow.dst@ && (arrow.direct == ADirect::Left || arrow.direct == ADirect::Right)
}

/// `b` is the node list `a` after `arrow` is replayed: for a moving
/// connector, its destination goes beside its source on the source's row
/// and both ends get the arrow; any other connector changes nothing. The
/// source of a connector that is no self-edge is on the board.
pub open spec fn applied(a: Seq<ANode>, b: Seq<ANode>, arrow: AEdge) -> bool {
    &&& (arrow.src@ != arrow.dst@ ==> has_id(a, arrow.src@))
    &&& if !moves(arrow) {
        b == a
    } else {
        exists|s: int|
            0 <= s < a.len() && (#[trigger] a[s]).id@ == arrow.src@ && b.len() == a.len() && forall|i: int|
                0 <= i < a.len() ==> linked(
                    relocated(a[i], arrow.dst@, a[s].x, target_col(arrow.direct, a[s].y)),
                    #[trigger] b[i],
                    arrow,
                )
    }
}

/// `w` grown to take in the column of every node of `ns`.
pub open spec fn widen(w: usize, ns: Seq<ANode>) -> usize
    decreases ns.len(),
{
    if ns.len() == 0 {
        w
    } else {
        let r = widen(w, ns.drop_last());
        if ns.last().y + 1 > r {
            (ns.last().y + 1) as usize
        } else {
            r
        }
    }
}

/// `h` grown to take in the row of every node of `ns`.
pub open spec fn heighten(h: usize, ns: Seq<ANode>) -> usize
    decreases ns.len(),
{
    if ns.len() == 0 {
        h
    } else {
        let r = heighten(h, ns.drop_last());
        if ns.last().x + 1 > r {
            (ns.last().x + 1) as usize
        } else {
            r
        }
    }
}

/// `ws` holds the number of columns in use before and after each of the
/// first `k` steps of the replay `trace`.
pub open spec fn width_trace(trace: Seq<Seq<ANode>>, ws: Seq<usize>, k: int) -> bool {
    &&& ws.len() == k + 1
    &&& forall|j: int| 0 <= j < k ==> #[trigger] ws[j + 1] == widen(ws[j], trace[j + 1])
}

/// Why the replay stops at connector `a`, on nodes `ns` with `w` columns
/// in use: it is no self-edge, and its source is not on the board or, for
/// a moving connector, the board has no column left.
pub open spec fn stopped_at(ns: Seq<ANode>, w: usize, a: AEdge) -> bool {
    &&& a.src@ != a.dst@
    &&& (!has_id(ns, a.src@) || (moves(a) && w >= MAX_GRID))
}

pub proof fn lemma_widen_below(w: usize, ns: Seq<ANode>)
    requires
        forall|i: int| 0 <= i < ns.len() ==> (#[trigger] ns[i]).y < w,
    ensures
        widen(w, ns) == w,
    decreases ns.len(),
{
    if ns.len() > 0 {
        assert forall|i: int| 0 <= i < ns.len() - 1 implies (#[trigger] ns.drop_last()[i]).y < w by {
            assert(ns.drop_last()[i] == ns[i]);
        }
        lemma_widen_below(w, ns.drop_last());
    }
}

/// A connector from a node to itself has no effect when replayed: the
/// nodes (places, arrows and reserved space) stay as they were, and the
/// replay never stops at it.
pub proof fn lemma_self_edge_inert(a: Seq<ANode>, b: Seq<ANode>, w: usize, arrow: AEdge)
    requires
        arrow.src@ == arrow.dst@,
    ensures
        applied(a, b, arrow) ==> b == a,
        !stopped_at(a, w, arrow),
{
}

pub proof fn lemma_widen_ge(w: usize, ns: Seq<ANode>)
    requires
        forall|i: int| 0 <= i < ns.len() ==> (#[trigger] ns[i]).y < MAX_GRID,
    ensures
        widen(w, ns) >= w,
    decreases ns.len(),
{
    if ns.len() > 0 {
        assert forall|i: int| 0 <= i < ns.len() - 1 implies (#[trigger] ns.drop_last()[i]).y < MAX_GRID by {
            assert(ns.drop_last()[i] == ns[i]);
        }
        lemma_widen_ge(w, ns.drop_last());
    }
}

pub proof fn lemma_heighten_below(h: usize, ns: Seq<ANode>)
    requires
        forall|i: int| 0 <= i < ns.len() ==> (#[trigger] ns[i]).x < h,
    ensures
        heighten(h, ns) == h,
    decreases ns.len(),
{
    if ns.len() > 0 {
        assert forall|i: int| 0 <= i < ns.len() - 1 implies (#[trigger] ns.drop_last()[i]).x < h by {
            assert(ns.drop_last()[i] == ns[i]);
        }
        lemma_heighten_below(h, ns.drop_last());
    }
}

pub proof fn lemma_widen_same_y(w: usize, a: Seq<ANode>, b: Seq<ANode>)
    requires
        a.len() == b.len(),
        forall|i: int| 0 <= i < a.len() ==> (#[trigger] a[i]).y == b[i].y,
    ensures
        widen(w, a) == widen(w, b),
    decreases a.len(),
{
    if a.len() > 0 {
        assert forall|i: int| 0 <= i < a.len() - 1 implies (#[trigger] a.drop_last()[i]).y == b.drop_last()[i].y by {
            assert(a.drop_last()[i] == a[i]);
            assert(b.drop_last()[i] == b[i]);
        }
        lemma_widen_same_y(w, a.drop_last(), b.drop_last());
    }
}

/// `trace` holds the node lists before and after each of the first `k`
/// connectors of `arrows` is replayed.
pub open spec fn replay_trace(trace: Seq<Seq<ANode>>, arrows: Seq<AEdge>, k: int) -> bool {
    &&& 0 <= k <= arrows.len()
    &&& trace.len() == k + 1
    &&& forall|j: int| 0 <= j < k ==> applied(#[trigger] trace[j], trace[j + 1], arrows[j])
}

/// Full width that node `n` draws.
pub open spec fn node_total_w(n: ANode) -> int {
    n.rbox.w_left + n.w + 4 + n.rbox.w_right
}

/// Full height that node `n` draws.
pub open spec fn node_total_h(n: ANode) -> int {
    n.rbox.h_up + n.h + 2 + n.rbox.h_down
}

/// Width of grid column `c`: the widest node of `ns` in it, or 0.
pub open spec fn col_width(ns: Seq<ANode>, c: int) -> int
    decreases ns.len(),
{
    if ns.len() == 0 {
        0
    } else {
        let rest = col_width(ns.drop_last(), c);
        if ns.last().y == c && node_total_w(ns.last()) > rest {
            node_total_w(ns.last())
        } else {
            rest
        }
    }
}

/// Height of grid row `r`: the tallest node of `ns` in it, or 0.
pub open spec fn row_height(ns: Seq<ANode>, r: int) -> int
    decreases ns.len(),
{
    if ns.len() == 0 {
        0
    } else {
        let rest = row_height(ns.drop_last(), r);
        if ns.last().x == r && node_total_h(ns.last()) > rest {
            node_total_h(ns.last())
        } else {
            rest
        }
    }
}

/// Line `sub` of node `n` in a column `width` wide: the gutter above,
/// then the box, then the gutter below.
pub open spec fn sub_line(n: ANode, sub: int, width: int, expand: bool) -> Seq<char> {
    let lw = n.rbox.w_left as int;
    let rw = n.rbox.w_right as int;
    let cw = width - lw - rw - 2;
    if sub < n.rbox.h_up {
        up_line(n, sub, cw, lw, rw)
    } else if sub < n.rbox.h_up + n.h + 2 {
        render_line(n, sub - n.rbox.h_up, cw, lw, rw, expand)
    } else {
        down_line(n, sub - n.rbox.h_up - n.h - 2, cw, lw, rw)
    }
}

/// Line `sub` of the cell at row `r`, column `c` of board `b`.
pub open spec fn cell_text(b: GBoard, r: int, c: int, sub: int, expand: bool) -> Seq<char> {
    let k = b.board@[r]@[c];
    if k == 0 || k > b.nodes@.len() {
        spaces(col_width(b.nodes@, c))
    } else {
        sub_line(b.nodes@[k - 1], sub, col_width(b.nodes@, c), expand)
    }
}

/// Line `sub` of grid row `r` over its first `n` columns.
pub open spec fn grid_line(b: GBoard, r: int, sub: int, n: int, expand: bool) -> Seq<char>
    decreases n,
{
    if n <= 0 {
        Seq::empty()
    } else {
        grid_line(b, r, sub, n - 1, expand) + cell_text(b, r, n - 1, sub, expand)
    }
}

/// `s` without trailing whitespace.
pub open spec fn rstrip(s: Seq<char>) -> Seq<char>
    decreases s.len(),
{
    if s.len() > 0 && is_ws(s.last()) {
        rstrip(s.drop_last())
    } else {
        s
    }
}

/// The first `n` lines of grid row `r`, each stripped of trailing
/// whitespace, joined by line breaks.
pub open spec fn row_block(b: GBoard, r: int, n: int, expand: bool) -> Seq<char>
    decreases n,
{
    let ncols = b.board@[r]@.len() as int;
    if n <= 0 {
        Seq::empty()
    } else if n == 1 {
        rstrip(grid_line(b, r, 0, ncols, expand))
    } else {
        row_block(b, r, n - 1, expand) + seq!['\n'] + rstrip(grid_line(b, r, n - 1, ncols, expand))
    }
}

/// The drawing of the first `rows` grid rows: each row's block without
/// trailing whitespace, ended by a line break.
pub open spec fn shown(b: GBoard, rows: int, expand: bool) -> Seq<char>
    decreases rows,
{
    if rows <= 0 {
        Seq::empty()
    } else {
        shown(b, rows - 1, expand) + rstrip(row_block(b, rows - 1, row_height(b.nodes@, rows - 1), expand)) + seq!['\n']
    }
}

/// Largest width or height a grid column or row can have.
pub const MAX_CELL: usize = 2 * MAX_LABEL + 16;

pub proof fn lemma_col_width(ns: Seq<ANode>, c: int)
    requires
        forall|i: int| 0 <= i < ns.len() ==> (#[trigger] ns[i]).wf(),
    ensures
        forall|i: int| 0 <= i < ns.len() && ns[i].y == c ==> node_total_w(#[trigger] ns[i]) <= col_width(ns, c),
        0 <= col_width(ns, c) <= MAX_CELL,
    decreases ns.len(),
{
    if ns.len() > 0 {
        lemma_col_width(ns.drop_last(), c);
        assert forall|i: int| 0 <= i < ns.len() - 1 implies ns.drop_last()[i] == ns[i] by {}
        ns.last().lemma_sizes();
    }
}

pub proof fn lemma_row_height(ns: Seq<ANode>, r: int)
    requires
        forall|i: int| 0 <= i < ns.len() ==> (#[trigger] ns[i]).wf(),
    ensures
        forall|i: int| 0 <= i < ns.len() && ns[i].x == r ==> node_total_h(#[trigger] ns[i]) <= row_height(ns, r),
        0 <= row_height(ns, r) <= MAX_CELL,
    decreases ns.len(),
{
    if ns.len() > 0 {
        lemma_row_height(ns.drop_last(), r);
        assert forall|i: int| 0 <= i < ns.len() - 1 implies ns.drop_last()[i] == ns[i] by {}
        ns.last().lemma_sizes();
    }
}

pub proof fn lemma_cell_at(ns: Seq<ANode>, r: int, c: int)
    ensures
        cell_at(ns, r, c) != 0 ==> exists|i: int| 0 <= i < ns.len() && (#[trigger] ns[i]).x == r && ns[i].y == c && ns[i].idx == cell_at(ns, r, c),
    decreases ns.len(),
{
    if ns.len() > 0 {
        lemma_cell_at(ns.drop_last(), r, c);
        if cell_at(ns, r, c) != 0 && !(ns.last().x == r && ns.last().y == c) {
            let i = choose|i: int| 0 <= i < ns.len() - 1 && (#[trigger] ns.drop_last()[i]).x == r && ns.drop_last()[i].y == c && ns.drop_last()[i].idx == cell_at(ns, r, c);
            assert(ns[i] == ns.drop_last()[i]);
        }
    }
}

/// The grid and the node list of a board.
#[derive(Debug, Clone)]
pub struct GBoard {
    pub nodes: Vec<ANode>,
    pub board: Vec<Vec<usize>>,
    /// Number of columns in use.
    pub w: usize,
    /// Number of rows in use.
    pub h: usize,
    pub idx: usize,
    /// Rows in use when the grid was last built: it has `grid_h + 9` rows.
    pub grid_h: usize,
    /// Columns in use when the grid was last built: each row has
    /// `grid_w + 9` cells.
    pub grid_w: usize,
}

impl GBoard {
    /// Every node is well formed, numbered by insertion from 1, inside the
    /// extents, and ids are unique.
    pub open spec fn wf(&self) -> bool {
        &&& self.idx == self.nodes@.len() + 1
        &&& self.nodes@.len() < MAX_GRID
        &&& self.h <= MAX_GRID
        &&& self.w <= MAX_GRID
        &&& forall|i: int|
            0 <= i < self.nodes@.len() ==> {
                &&& (#[trigger] self.nodes@[i]).wf()
                &&& self.nodes@[i].idx == i + 1
                &&& self.nodes@[i].x < self.h
                &&& self.nodes@[i].y < self.w
            }
        &&& forall|i: int, j: int|
            0 <= i < self.nodes@.len() && 0 <= j < self.nodes@.len() && i != j
                ==> #[trigger] self.nodes@[i].id@ != #[trigger] self.nodes@[j].id@
    }

    /// The grid has `grid_h + 9` rows of `grid_w + 9` cells, within the
    /// extents in use, and each cell holds what the nodes, written in
    /// order, leave there (0 where no node stands).
    pub open spec fn grid_wf(&self) -> bool {
        &&& self.grid_h <= self.h
        &&& self.grid_w <= self.w
        &&& self.board@.len() == self.grid_h + 9
        &&& forall|r: int|
            0 <= r < self.board@.len() ==> (#[trigger] self.board@[r])@.len() == self.grid_w + 9
        &&& forall|r: int, c: int|
            0 <= r < self.board@.len() && 0 <= c < self.grid_w + 9 ==> #[trigger] self.board@[r]@[c]
                == cell_at(self.nodes@, r, c)
    }

    pub fn new() -> (r: Self)
        ensures
            r.wf(),
            r.nodes@.len() == 0,
            r.board@.len() == 0,
            r.w == 0,
            r.h == 0,
    {
        Self { nodes: Vec::new(), board: Vec::new(), w: 0, h: 0, idx: 1, grid_h: 0, grid_w: 0 }
    }

    /// Position of the node with id `id`.
    fn find_node(&self, id: &String) -> (r: Option<usize>)
        ensures
            match r {
                Some(i) => i < self.nodes@.len() && self.nodes@[i as int].id@ == id@
                    && forall|j: int| 0 <= j < i ==> self.nodes@[j].id@ != id@,
                None => !has_id(self.nodes@, id@),
            },
    {
        let mut i: usize = 0;
        while i < self.nodes.len()
            invariant
                i <= self.nodes@.len(),
                forall|j: int| 0 <= j < i ==> self.nodes@[j].id@ != id@,
            decreases self.nodes@.len() - i,
        {
            if self.nodes[i].id == *id {
                return Some(i);
            }
            i = i + 1;
        }
        None
    }

    /// Registers `node` unless a node with its id is already there (or the
    /// board is full); it is then numbered and placed last.
    pub fn add_node(&mut self, node: ANode) -> (r: bool)
        requires
            old(self).wf(),
            node.wf(),
        ensures
            final(self).wf(),
            r == (!has_id(old(self).nodes@, node.id@) && old(self).nodes@.len() + 2 < MAX_GRID
                && node.x < MAX_GRID && node.y < MAX_GRID),
            !r ==> *final(self) == *old(self),
            r ==> final(self).nodes@ == old(self).nodes@.push(ANode { idx: old(self).idx, ..node })
                && final(self).h == if node.x + 1 > old(self).h { (node.x + 1) as usize } else { old(self).h }
                && final(self).w == if node.y + 1 > old(self).w { (node.y + 1) as usize } else { old(self).w }
                && final(self).board == old(self).board,
    {
        if self.find_node(&node.id).is_some() {
            return false;
        }
        if self.nodes.len() + 2 >= MAX_GRID || node.x >= MAX_GRID || node.y >= MAX_GRID {
            return false;
        }
        let mut a_node = node;
        a_node.idx = self.idx;
        self.idx = self.idx + 1;
        if a_node.x + 1 > self.h {
            self.h = a_node.x + 1;
        }
        if a_node.y + 1 > self.w {
            self.w = a_node.y + 1;
        }
        let ghost before = self.nodes@;
        self.nodes.push(a_node);
        proof {
            assert forall|i: int, j: int|
                0 <= i < self.nodes@.len() && 0 <= j < self.nodes@.len() && i != j
                    implies #[trigger] self.nodes@[i].id@ != #[trigger] self.nodes@[j].id@ by {
                if i < before.len() && j < before.len() {
                    assert(self.nodes@[i] == before[i]);
                    assert(self.nodes@[j] == before[j]);
                } else if i < before.len() {
                    assert(self.nodes@[i] == before[i]);
                } else {
                    assert(self.nodes@[j] == before[j]);
                }
            }
        }
        true
    }

    /// The node with id `id`, if any.
    pub fn get_node(&self, id: &String) -> (r: Option<&ANode>)
        ensures
            match r {
                Some(n) => exists|i: int| 0 <= i < self.nodes@.len() && self.nodes@[i] == *n && n.id@ == id@,
                None => !has_id(self.nodes@, id@),
            },
    {
        match self.find_node(id) {
            Some(i) => Some(&self.nodes[i]),
            None => None,
        }
    }

    /// The node numbered `idx`, if any.
    fn get_node_by_id(&self, idx: usize) -> (r: Option<&ANode>)
        requires
            self.wf(),
        ensures
            1 <= idx <= self.nodes@.len() ==> r == Some(&self.nodes@[idx - 1]),
            !(1 <= idx <= self.nodes@.len()) ==> r is None,
    {
        let mut i: usize = 0;
        while i < self.nodes.len()
            invariant
                self.wf(),
                i <= self.nodes@.len(),
                forall|j: int| 0 <= j < i ==> self.nodes@[j].idx != idx,
            decreases self.nodes@.len() - i,
        {
            if self.nodes[i].idx == idx {
                return Some(&self.nodes[i]);
            }
            i = i + 1;
        }
        proof {
            if 1 <= idx <= self.nodes@.len() {
                assert(self.nodes@[idx - 1].idx == idx);
            }
        }
        None
    }

    /// Moves node `id` to row `x`, column `y`, shifting the nodes of row `x`
    /// at column `y` or to its right one column right.
    fn relocate_right(&mut self, id: &String, x: usize, y: usize)
        requires
            old(self).wf(),
            x < old(self).h,
            y <= old(self).w,
            old(self).w < MAX_GRID,
        ensures
            final(self).wf(),
            final(self).nodes@.len() == old(self).nodes@.len(),
            forall|i: int| 0 <= i < old(self).nodes@.len() ==> #[trigger] final(self).nodes@[i]
                == relocated(old(self).nodes@[i], id@, x, y),
            final(self).w == widen(old(self).w, final(self).nodes@),
            final(self).h == old(self).h,
            final(self).idx == old(self).idx,
            final(self).board == old(self).board,
    {
        let ghost start = self.nodes@;
        let ghost w0 = self.w;
        proof {
            assert(self.nodes@.take(0) =~= Seq::<ANode>::empty());
        }
        let mut i: usize = 0;
        while i < self.nodes.len()
            invariant
                self.nodes@.len() == start.len(),
                i <= start.len(),
                x < self.h,
                y <= w0,
                w0 <= self.w <= w0 + 1,
                w0 < MAX_GRID,
                self.idx == start.len() + 1,
                self.nodes@.len() < MAX_GRID,
                self.h <= MAX_GRID,
                forall|j: int| 0 <= j < start.len() ==> {
                    &&& (#[trigger] start[j]).wf()
                    &&& start[j].idx == j + 1
                    &&& start[j].x < self.h
                    &&& start[j].y < w0
                },
                forall|j: int, k: int|
                    0 <= j < start.len() && 0 <= k < start.len() && j != k
                        ==> #[trigger] start[j].id@ != #[trigger] start[k].id@,
                forall|j: int| 0 <= j < i ==> #[trigger] self.nodes@[j] == relocated(start[j], id@, x, y)
                    && self.nodes@[j].y < self.w,
                forall|j: int| i <= j < start.len() ==> #[trigger] self.nodes@[j] == start[j],
                self.w == widen(w0, self.nodes@.take(i as int)),
                self.board == old(self).board,
                self.h == old(self).h,
                self.idx == old(self).idx,
            decreases start.len() - i,
        {
            let ghost before = self.nodes@;
            if self.nodes[i].id == *id {
                self.nodes[i].x = x;
                self.nodes[i].y = y;
                if y + 1 > self.w {
                    self.w = y + 1;
                }
            } else if self.nodes[i].x == x && self.nodes[i].y >= y {
                let ny = self.nodes[i].y + 1;
                self.nodes[i].y = ny;
                if ny + 1 > self.w {
                    self.w = ny + 1;
                }
            }
            proof {
                let t = self.nodes@.take(i as int + 1);
                assert(t.drop_last() =~= before.take(i as int));
                assert(t.last() == self.nodes@[i as int]);
            }
            i = i + 1;
        }
        proof {
            assert(self.nodes@.take(self.nodes@.len() as int) =~= self.nodes@);
            assert forall|j: int, k: int|
                0 <= j < self.nodes@.len() && 0 <= k < self.nodes@.len() && j != k
                    implies #[trigger] self.nodes@[j].id@ != #[trigger] self.nodes@[k].id@ by {
                assert(self.nodes@[j].id@ == start[j].id@);
                assert(self.nodes@[k].id@ == start[k].id@);
            }
            assert forall|j: int| 0 <= j < self.nodes@.len() implies (#[trigger] self.nodes@[j]).wf() by {
                assert(self.nodes@[j] == relocated(start[j], id@, x, y));
            }
        }
    }

    /// Attaches `arrow` to its two endpoints.
    fn link_arrow_to_node(&mut self, src: &String, dst: &String, arrow: &AEdge)
        requires
            old(self).wf(),
            src@ == arrow.src@,
            dst@ == arrow.dst@,
            src@ != dst@,
        ensures
            final(self).wf(),
            final(self).nodes@.len() == old(self).nodes@.len(),
            forall|i: int| 0 <= i < old(self).nodes@.len() ==> linked(
                old(self).nodes@[i],
                #[trigger] final(self).nodes@[i],
                *arrow,
            ),
            final(self).h == old(self).h,
            final(self).w == old(self).w,
            final(self).idx == old(self).idx,
            final(self).board == old(self).board,
    {
        let ghost start = self.nodes@;
        let mut i: usize = 0;
        while i < self.nodes.len()
            invariant
                self.nodes@.len() == start.len(),
                i <= start.len(),
                src@ == arrow.src@,
                dst@ == arrow.dst@,
                src@ != dst@,
                forall|j: int| 0 <= j < i ==> linked(start[j], #[trigger] self.nodes@[j], *arrow),
                forall|j: int| i <= j < start.len() ==> #[trigger] self.nodes@[j] == start[j],
                forall|j: int| 0 <= j < start.len() ==> (#[trigger] start[j]).wf(),
                self.board == old(self).board,
                self.h == old(self).h,
                self.w == old(self).w,
                self.idx == old(self).idx,
            decreases start.len() - i,
        {
            if self.nodes[i].id == *src {
                self.nodes[i].add_arrow(arrow, arrow.direct, true);
            } else if self.nodes[i].id == *dst {
                self.nodes[i].add_arrow(arrow, arrow.direct.not(), false);
            }
            i = i + 1;
        }
        proof {
            assert forall|j: int| 0 <= j < start.len() implies {
                &&& (#[trigger] self.nodes@[j]).wf()
                &&& self.nodes@[j].idx == j + 1
                &&& self.nodes@[j].x < self.h
                &&& self.nodes@[j].y < self.w
            } by {
                assert(linked(start[j], self.nodes@[j], *arrow));
                if start[j].id@ == arrow.src@ {
                    assert(start[j].rbox.w_left <= 4);
                }
            }
            assert forall|j: int, k: int|
                0 <= j < self.nodes@.len() && 0 <= k < self.nodes@.len() && j != k
                    implies #[trigger] self.nodes@[j].id@ != #[trigger] self.nodes@[k].id@ by {
                assert(linked(start[j], self.nodes@[j], *arrow));
                assert(linked(start[k], self.nodes@[k], *arrow));
            }
        }
    }

    /// Replays one connector. A connector from a node to itself is
    /// ignored. Returns false, changing nothing, when the source is not on
    /// the board or, for a moving connector, the board has no column left.
    pub fn apply_arrow(&mut self, arrow: &AEdge) -> (r: bool)
        requires
            old(self).wf(),
        ensures
            final(self).wf(),
            arrow.src@ == arrow.dst@ ==> r && *final(self) == *old(self),
            arrow.src@ != arrow.dst@ ==> r == (has_id(old(self).nodes@, arrow.src@) && (moves(*arrow) ==> old(self).w < MAX_GRID)),
            r ==> applied(old(self).nodes@, final(self).nodes@, *arrow),
            r ==> final(self).w == widen(old(self).w, final(self).nodes@),
            !r ==> *final(self) == *old(self),
            final(self).h == old(self).h,
            final(self).idx == old(self).idx,
            final(self).board == old(self).board,
    {
        proof {
            lemma_widen_below(self.w, self.nodes@);
        }
        if arrow.src == arrow.dst {
            return true;
        }
        let s = match self.find_node(&arrow.src) {
            Some(i) => i,
            None => {
                return false;
            },
        };
        let x = self.nodes[s].x;
        let y = self.nodes[s].y;
        match arrow.direct {
            ADirect::Left => {
                if self.w >= MAX_GRID {
                    return false;
                }
                let ty: usize = if y >= 1 {
                    y - 1
                } else {
                    0
                };
                self.move_beside(arrow, s, x, ty);
            },
            ADirect::Right => {
                if self.w >= MAX_GRID {
                    return false;
                }
                self.move_beside(arrow, s, x, y + 1);
            },
            _ => {},
        }
        true
    }

    /// Moves the destination of `arrow` to row `x`, column `ty` beside its
    /// source (node `s`) and attaches the arrow to both ends.
    fn move_beside(&mut self, arrow: &AEdge, s: usize, x: usize, ty: usize)
        requires
            old(self).wf(),
            moves(*arrow),
            s < old(self).nodes@.len(),
            old(self).nodes@[s as int].id@ == arrow.src@,
            x == old(self).nodes@[s as int].x,
            ty == target_col(arrow.direct, old(self).nodes@[s as int].y),
            old(self).w < MAX_GRID,
        ensures
            final(self).wf(),
            applied(old(self).nodes@, final(self).nodes@, *arrow),
            final(self).w == widen(old(self).w, final(self).nodes@),
            final(self).h == old(self).h,
            final(self).idx == old(self).idx,
            final(self).board == old(self).board,
    {
        let ghost a = self.nodes@;
        self.relocate_right(&arrow.dst, x, ty);
        let ghost m = self.nodes@;
        self.link_arrow_to_node(&arrow.src, &arrow.dst, arrow);
        proof {
            assert forall|i: int| 0 <= i < m.len() implies (#[trigger] m[i]).y == self.nodes@[i].y by {
                assert(linked(m[i], self.nodes@[i], *arrow));
            }
            lemma_widen_same_y(old(self).w, m, self.nodes@);
            self.lemma_applied(a, m, *arrow, s as int);
        }
    }

    proof fn lemma_applied(&self, a: Seq<ANode>, m: Seq<ANode>, arrow: AEdge, s: int)
        requires
            moves(arrow),
            0 <= s < a.len(),
            a[s].id@ == arrow.src@,
            m.len() == a.len(),
            self.nodes@.len() == a.len(),
            forall|i: int| 0 <= i < a.len() ==> #[trigger] m[i] == relocated(a[i], arrow.dst@, a[s].x, target_col(arrow.direct, a[s].y)),
            forall|i: int| 0 <= i < a.len() ==> linked(m[i], #[trigger] self.nodes@[i], arrow),
        ensures
            applied(a, self.nodes@, arrow),
    {
        assert forall|i: int| 0 <= i < a.len() implies linked(
            relocated(a[i], arrow.dst@, a[s].x, target_col(arrow.direct, a[s].y)),
            #[trigger] self.nodes@[i],
            arrow,
        ) by {
            assert(m[i] == relocated(a[i], arrow.dst@, a[s].x, target_col(arrow.direct, a[s].y)));
        }
        assert(a[s].id@ == arrow.src@);
    }

    /// Replaces the grid by `h + 9` rows of `w + 9` empty cells.
    fn rebuild_borad(&mut self)
        requires
            old(self).wf(),
        ensures
            final(self).nodes == old(self).nodes,
            final(self).w == old(self).w,
            final(self).h == old(self).h,
            final(self).idx == old(self).idx,
            final(self).grid_h == old(self).h,
            final(self).grid_w == old(self).w,
            final(self).board@.len() == old(self).h + 9,
            forall|r: int| 0 <= r < final(self).board@.len() ==> (#[trigger] final(self).board@[r])@ == Seq::new((old(self).w + 9) as nat, |_c: int| 0usize),
    {
        let mut board: Vec<Vec<usize>> = Vec::new();
        let h = self.h + 9;
        let w = self.w + 9;
        let mut r: usize = 0;
        while r < h
            invariant
                r <= h,
                board@.len() == r,
                forall|k: int| 0 <= k < r ==> (#[trigger] board@[k])@ == Seq::new(w as nat, |_c: int| 0usize),
            decreases h - r,
        {
            let mut row: Vec<usize> = Vec::new();
            let mut c: usize = 0;
            while c < w
                invariant
                    c <= w,
                    row@ == Seq::new(c as nat, |_c: int| 0usize),
                decreases w - c,
            {
                row.push(0);
                c = c + 1;
                proof {
                    assert(row@ =~= Seq::new(c as nat, |_c: int| 0usize));
                }
            }
            board.push(row);
            r = r + 1;
        }
        self.board = board;
        self.grid_h = self.h;
        self.grid_w = self.w;
    }

    /// Writes the insertion number of every node that falls inside the
    /// grid into its cell, in order.
    fn add_nodes_into_board(&mut self)
        requires
            old(self).wf(),
            old(self).grid_h <= old(self).h,
            old(self).grid_w <= old(self).w,
            old(self).board@.len() == old(self).grid_h + 9,
            forall|r: int| 0 <= r < old(self).board@.len() ==> (#[trigger] old(self).board@[r])@ == Seq::new((old(self).grid_w + 9) as nat, |_c: int| 0usize),
        ensures
            final(self).wf(),
            final(self).grid_wf(),
            final(self).nodes == old(self).nodes,
            final(self).w == old(self).w,
            final(self).h == old(self).h,
            final(self).grid_h == old(self).grid_h,
            final(self).grid_w == old(self).grid_w,
    {
        let mut i: usize = 0;
        let gw = self.grid_w + 9;
        proof {
            assert forall|r: int, c: int| 0 <= r < self.board@.len() && 0 <= c < gw implies #[trigger] self.board@[r]@[c] == cell_at(self.nodes@.take(0), r, c) by {
                assert(self.board@[r]@ == Seq::new(gw as nat, |_c: int| 0usize));
            }
        }
        while i < self.nodes.len()
            invariant
                self.wf(),
                self.nodes == old(self).nodes,
                self.w == old(self).w,
                self.h == old(self).h,
                self.grid_h == old(self).grid_h,
                self.grid_w == old(self).grid_w,
                gw == self.grid_w + 9,
                i <= self.nodes@.len(),
                self.board@.len() == self.grid_h + 9,
                forall|r: int| 0 <= r < self.board@.len() ==> (#[trigger] self.board@[r])@.len() == gw,
                forall|r: int, c: int| 0 <= r < self.board@.len() && 0 <= c < gw ==> #[trigger] self.board@[r]@[c] == cell_at(self.nodes@.take(i as int), r, c),
            decreases self.nodes@.len() - i,
        {
            let x = self.nodes[i].x;
            let y = self.nodes[i].y;
            let v = self.nodes[i].idx;
            let ghost before = self.board@;
            if x < self.board.len() && y < gw {
                self.board[x].set(y, v);
            }
            proof {
                let t = self.nodes@.take(i as int + 1);
                assert(t.drop_last() =~= self.nodes@.take(i as int));
                assert(t.last() == self.nodes@[i as int]);
                assert forall|r: int, c: int| 0 <= r < self.board@.len() && 0 <= c < gw implies #[trigger] self.board@[r]@[c] == cell_at(t, r, c) by {
                    if r != x {
                        assert(self.board@[r] == before[r]);
                    }
                }
            }
            i = i + 1;
        }
        proof {
            assert(self.nodes@.take(self.nodes@.len() as int) =~= self.nodes@);
        }
    }

    /// Rebuilds the grid from the extents in use, `h + 9` rows of `w + 9`
    /// empty cells, then replays `arrows` in order and writes into the grid
    /// every node that falls inside it, at its final place. Replaying stops
    /// at the first connector that cannot be replayed, and the result is
    /// then `None`.
    pub fn load_arrows(&mut self, arrows: &Vec<AEdge>) -> (r: Option<&'static str>)
        requires
            old(self).wf(),
        ensures
            final(self).wf(),
            final(self).grid_wf(),
            final(self).h == old(self).h,
            final(self).grid_h == old(self).h,
            final(self).grid_w == old(self).w,
            final(self).board@.len() == old(self).h + 9,
            forall|r: int| 0 <= r < final(self).board@.len() ==> (#[trigger] final(self).board@[r])@.len() == old(self).w + 9,
            exists|trace: Seq<Seq<ANode>>, ws: Seq<usize>, k: int| {
                &&& #[trigger] replay_trace(trace, arrows@, k)
                &&& #[trigger] width_trace(trace, ws, k)
                &&& trace[0] == old(self).nodes@
                &&& trace[k] == final(self).nodes@
                &&& ws[0] == old(self).w
                &&& ws[k] == final(self).w
                &&& (r is Some <==> k == arrows@.len())
                &&& (k < arrows@.len() ==> stopped_at(trace[k], ws[k], arrows@[k]))
            },
    {
        self.rebuild_borad();
        let gh = self.h;
        let gw = self.w;
        let ghost grid0 = self.board;
        let ghost mut trace: Seq<Seq<ANode>> = seq![self.nodes@];
        let ghost mut ws: Seq<usize> = seq![self.w];
        let mut i: usize = 0;
        while i < arrows.len()
            invariant
                self.board == grid0,
                gw <= self.w,
                self.wf(),
                self.h == old(self).h,
                i <= arrows@.len(),
                trace.len() == i + 1,
                trace[0] == old(self).nodes@,
                trace[i as int] == self.nodes@,
                forall|j: int| 0 <= j < i ==> applied(#[trigger] trace[j], trace[j + 1], arrows@[j]),
                width_trace(trace, ws, i as int),
                ws[0] == old(self).w,
                ws[i as int] == self.w,
            ensures
                self.board == grid0,
                gw <= self.w,
                self.wf(),
                self.h == old(self).h,
                i <= arrows@.len(),
                trace.len() == i + 1,
                trace[0] == old(self).nodes@,
                trace[i as int] == self.nodes@,
                forall|j: int| 0 <= j < i ==> applied(#[trigger] trace[j], trace[j + 1], arrows@[j]),
                width_trace(trace, ws, i as int),
                ws[0] == old(self).w,
                ws[i as int] == self.w,
                i < arrows@.len() ==> stopped_at(trace[i as int], ws[i as int], arrows@[i as int]),
            decreases arrows@.len() - i,
        {
            let ghost wb = self.w;
            if !self.apply_arrow(&arrows[i]) {
                break;
            }
            proof {
                lemma_widen_ge(wb, self.nodes@);
            }
            proof {
                let t0 = trace;
                let w0 = ws;
                trace = trace.push(self.nodes@);
                ws = ws.push(self.w);
                assert forall|j: int| 0 <= j < i + 1 implies #[trigger] ws[j + 1] == widen(ws[j], trace[j + 1]) by {
                    if j < i {
                        assert(ws[j + 1] == w0[j + 1] && ws[j] == w0[j] && trace[j + 1] == t0[j + 1]);
                    }
                }
                assert forall|j: int| 0 <= j < i + 1 implies applied(#[trigger] trace[j], trace[j + 1], arrows@[j]) by {
                    if j < i {
                        assert(trace[j] == t0[j]);
                        assert(trace[j + 1] == t0[j + 1]);
                    }
                }
            }
            i = i + 1;
        }
        self.grid_h = gh;
        self.grid_w = gw;
        self.add_nodes_into_board();
        proof {
            assert(replay_trace(trace, arrows@, i as int));
            assert(width_trace(trace, ws, i as int));
        }
        if i == arrows.len() {
            Some("")
        } else {
            None
        }
    }


    /// Width of each grid column.
    fn column_widths(&self) -> (r: Vec<usize>)
        requires
            self.wf(),
        ensures
            r@.len() == self.w + 9,
            forall|c: int| 0 <= c < r@.len() ==> #[trigger] r@[c] == col_width(self.nodes@, c),
    {
        let n = self.w + 9;
        let mut r: Vec<usize> = Vec::new();
        let mut c: usize = 0;
        while c < n
            invariant
                c <= n,
                r@.len() == c,
                forall|j: int| 0 <= j < c ==> #[trigger] r@[j] == col_width(self.nodes@.take(0), j),
            decreases n - c,
        {
            r.push(0);
            c = c + 1;
        }
        let mut i: usize = 0;
        while i < self.nodes.len()
            invariant
                self.wf(),
                i <= self.nodes@.len(),
                r@.len() == n,
                n == self.w + 9,
                forall|j: int| 0 <= j < n ==> #[trigger] r@[j] == col_width(self.nodes@.take(i as int), j),
            decreases self.nodes@.len() - i,
        {
            let y = self.nodes[i].y;
            let tw = self.nodes[i].total_w();
            let ghost t = self.nodes@.take(i as int + 1);
            proof {
                assert(t.drop_last() =~= self.nodes@.take(i as int));
                assert(t.last() == self.nodes@[i as int]);
            }
            if tw > r[y] {
                r.set(y, tw);
            }
            i = i + 1;
        }
        proof {
            assert(self.nodes@.take(self.nodes@.len() as int) =~= self.nodes@);
        }
        r
    }

    /// Height of each grid row.
    fn row_heights(&self) -> (r: Vec<usize>)
        requires
            self.wf(),
        ensures
            r@.len() == self.h + 9,
            forall|c: int| 0 <= c < r@.len() ==> #[trigger] r@[c] == row_height(self.nodes@, c),
    {
        let n = self.h + 9;
        let mut r: Vec<usize> = Vec::new();
        let mut c: usize = 0;
        while c < n
            invariant
                c <= n,
                r@.len() == c,
                forall|j: int| 0 <= j < c ==> #[trigger] r@[j] == row_height(self.nodes@.take(0), j),
            decreases n - c,
        {
            r.push(0);
            c = c + 1;
        }
        let mut i: usize = 0;
        while i < self.nodes.len()
            invariant
                self.wf(),
                i <= self.nodes@.len(),
                r@.len() == n,
                n == self.h + 9,
                forall|j: int| 0 <= j < n ==> #[trigger] r@[j] == row_height(self.nodes@.take(i as int), j),
            decreases self.nodes@.len() - i,
        {
            let x = self.nodes[i].x;
            let th = self.nodes[i].total_h();
            let ghost t = self.nodes@.take(i as int + 1);
            proof {
                assert(t.drop_last() =~= self.nodes@.take(i as int));
                assert(t.last() == self.nodes@[i as int]);
            }
            if th > r[x] {
                r.set(x, th);
            }
            i = i + 1;
        }
        proof {
            assert(self.nodes@.take(self.nodes@.len() as int) =~= self.nodes@);
        }
        r
    }

    /// Line `sub` of node `n` in a column `width` wide.
    fn node_line(n: &ANode, sub: usize, width: usize, expand_mode: bool) -> (r: Vec<char>)
        requires
            n.wf(),
            node_total_w(*n) <= width <= MAX_CELL,
        ensures
            r@ == sub_line(*n, sub as int, width as int, expand_mode),
    {
        proof {
            n.lemma_sizes();
        }
        let lw = n.left_w();
        let rw = n.right_w();
        let cw = width - lw - rw - 2;
        let up = n.up_h();
        let text = if sub < up {
            n.render_up(sub, 0, cw, lw, rw)
        } else if sub - up < n.content_h() {
            n.render(sub - up, 0, cw, lw, rw, expand_mode)
        } else {
            n.render_down(sub - up - n.content_h(), 0, cw, lw, rw)
        };
        chars_of(text.as_str())
    }

    /// Line `sub` of grid row `r`.
    fn grid_line_chars(&self, r: usize, sub: usize, widths: &Vec<usize>, expand_mode: bool) -> (res: Vec<char>)
        requires
            self.wf(),
            self.grid_wf(),
            r < self.board@.len(),
            widths@.len() == self.w + 9,
            forall|c: int| 0 <= c < widths@.len() ==> #[trigger] widths@[c] == col_width(self.nodes@, c),
        ensures
            res@ == grid_line(*self, r as int, sub as int, self.board@[r as int]@.len() as int, expand_mode),
    {
        let mut out: Vec<char> = Vec::new();
        let row = &self.board[r];
        let mut c: usize = 0;
        while c < row.len()
            invariant
                self.wf(),
                self.grid_wf(),
                r < self.board@.len(),
                row == self.board@[r as int],
                c <= row@.len(),
                row@.len() == self.grid_w + 9,
                widths@.len() == self.w + 9,
                forall|j: int| 0 <= j < widths@.len() ==> #[trigger] widths@[j] == col_width(self.nodes@, j),
                out@ == grid_line(*self, r as int, sub as int, c as int, expand_mode),
            decreases row@.len() - c,
        {
            let k = row[c];
            let ghost before = out@;
            proof {
                lemma_col_width(self.nodes@, c as int);
            }
            if k == 0 {
                push_run(&mut out, ' ', widths[c]);
            } else {
                match self.get_node_by_id(k) {
                    Some(node) => {
                        proof {
                            lemma_cell_at(self.nodes@, r as int, c as int);
                            assert(self.board@[r as int]@[c as int] == cell_at(self.nodes@, r as int, c as int));
                            let i = choose|i: int| 0 <= i < self.nodes@.len() && (#[trigger] self.nodes@[i]).x == r && self.nodes@[i].y == c && self.nodes@[i].idx == k;
                            assert(self.nodes@[i].idx == i + 1);
                        }
                        let line = Self::node_line(node, sub, widths[c], expand_mode);
                        push_all(&mut out, &line);
                    },
                    None => {
                        push_run(&mut out, ' ', widths[c]);
                    },
                }
            }
            c = c + 1;
        }
        out
    }

    /// The drawing: for each grid row in order, its lines (each stripped
    /// of trailing whitespace) joined by line breaks, the block stripped of
    /// trailing whitespace and ended by a line break.
    pub fn show(&self, expand_mode: bool) -> (r: String)
        requires
            self.wf(),
            self.grid_wf(),
        ensures
            r@ == shown(*self, self.board@.len() as int, expand_mode),
    {
        let widths = self.column_widths();
        let heights = self.row_heights();
        let mut content: Vec<char> = Vec::new();
        let mut x: usize = 0;
        while x < self.board.len()
            invariant
                self.wf(),
                self.grid_wf(),
                x <= self.board@.len(),
                widths@.len() == self.w + 9,
                forall|c: int| 0 <= c < widths@.len() ==> #[trigger] widths@[c] == col_width(self.nodes@, c),
                heights@.len() == self.h + 9,
                forall|c: int| 0 <= c < heights@.len() ==> #[trigger] heights@[c] == row_height(self.nodes@, c),
                content@ == shown(*self, x as int, expand_mode),
            decreases self.board@.len() - x,
        {
            let mut block: Vec<char> = Vec::new();
            let mut sub: usize = 0;
            while sub < heights[x]
                invariant
                    self.wf(),
                    self.grid_wf(),
                    x < self.board@.len(),
                    widths@.len() == self.w + 9,
                    forall|c: int| 0 <= c < widths@.len() ==> #[trigger] widths@[c] == col_width(self.nodes@, c),
                    heights@.len() == self.h + 9,
                    sub <= heights@[x as int],
                    block@ == row_block(*self, x as int, sub as int, expand_mode),
                decreases heights@[x as int] - sub,
            {
                let mut line = self.grid_line_chars(x, sub, &widths, expand_mode);
                strip_end(&mut line);
                if sub > 0 {
                    block.push('\n');
                }
                push_all(&mut block, &line);
                sub = sub + 1;
            }
            strip_end(&mut block);
            push_all(&mut content, &block);
            content.push('\n');
            x = x + 1;
        }
        string_of(&content)
    }

}

/// Drops trailing whitespace from `v`.
fn strip_end(v: &mut Vec<char>)
    ensures
        final(v)@ == rstrip(old(v)@),
{
    while v.len() > 0 && crate::text::is_whitespace(v[v.len() - 1])
        invariant
            rstrip(v@) == rstrip(old(v)@),
        decreases v@.len(),
    {
        v.pop();
    }
}

/// Every connector in `arrows` runs between two nodes of `ns`.
pub open spec fn endpoints_known(ns: Seq<ANode>, arrows: Seq<AEdge>) -> bool {
    forall|k: int| 0 <= k < arrows.len() ==> has_id(ns, (#[trigger] arrows[k]).src@) && has_id(ns, arrows[k].dst@)
}

/// A connector as plain values: direction, source id, destination id, label.
pub open spec fn arrow_view(a: AEdge) -> (ADirect, Seq<char>, Seq<char>, Seq<char>) {
    (a.direct, a.src@, a.dst@, a.text@)
}

/// The id a node token gets: its identifier, or its label when it has none.
pub open spec fn token_id(n: (Seq<char>, Seq<char>, ASharp, Seq<char>)) -> Seq<char> {
    if trimmed(n.0).len() == 0 {
        trimmed(n.1)
    } else {
        trimmed(n.0)
    }
}

/// Whether `line` is read: it is not empty, not too long for the board,
/// and its first node has an id. Any other line is skipped.
pub open spec fn line_ok(line: Seq<char>) -> bool {
    &&& line.len() > 0
    &&& line.len() <= MAX_LABEL
    &&& token_id(parse_node_spec(line)).len() > 0
}

/// The connectors read from `text`, the part of a line that follows a node
/// with id `lid`: while three or more characters are left, an arrow and the
/// next node, each connector running from the previous node to the next.
pub open spec fn line_arrows(text: Seq<char>, lid: Seq<char>) -> Seq<(ADirect, Seq<char>, Seq<char>, Seq<char>)>
    decreases text.len(),
{
    if text.len() < 3 {
        Seq::empty()
    } else {
        let e = parse_edge_spec(text);
        let n = parse_node_spec(e.2);
        if e.2.len() == 0 || n.3.len() >= text.len() {
            Seq::empty()
        } else {
            seq![(e.0, lid, token_id(n), e.1)] + line_arrows(n.3, token_id(n))
        }
    }
}

/// The connectors of a whole line.
pub open spec fn line_arrows_of(line: Seq<char>) -> Seq<(ADirect, Seq<char>, Seq<char>, Seq<char>)> {
    let n = parse_node_spec(line);
    line_arrows(n.3, token_id(n))
}

/// The nodes read from `text`, the part of a line that follows a node at
/// column `col`, as (id, label, shape, column): the arrows between them
/// take one column each.
pub open spec fn line_nodes(text: Seq<char>, col: int) -> Seq<(Seq<char>, Seq<char>, ASharp, int)>
    decreases text.len(),
{
    if text.len() < 3 {
        Seq::empty()
    } else {
        let e = parse_edge_spec(text);
        let n = parse_node_spec(e.2);
        if e.2.len() == 0 || n.3.len() >= text.len() {
            Seq::empty()
        } else {
            seq![(token_id(n), trimmed(n.1), n.2, col + 2)] + line_nodes(n.3, col + 2)
        }
    }
}

/// The nodes of a whole line, the first at column 0.
pub open spec fn line_nodes_of(line: Seq<char>) -> Seq<(Seq<char>, Seq<char>, ASharp, int)> {
    let n = parse_node_spec(line);
    seq![(token_id(n), trimmed(n.1), n.2, 0)] + line_nodes(n.3, 0)
}

/// The tokens of `toks` that a board holding `ns` registers: those whose id
/// is neither on the board nor taken by an earlier token.
pub open spec fn fresh(ns: Seq<ANode>, toks: Seq<(Seq<char>, Seq<char>, ASharp, int)>) -> Seq<(Seq<char>, Seq<char>, ASharp, int)>
    decreases toks.len(),
{
    if toks.len() == 0 {
        Seq::empty()
    } else {
        let f = fresh(ns, toks.drop_last());
        let t = toks.last();
        if has_id(ns, t.0) || exists|j: int| 0 <= j < f.len() && (#[trigger] f[j]).0 == t.0 {
            f
        } else {
            f.push(t)
        }
    }
}

/// `n` is the node made from token `t` on row `row`, not yet linked.
pub open spec fn node_is(n: ANode, t: (Seq<char>, Seq<char>, ASharp, int), row: usize) -> bool {
    &&& n.wf()
    &&& n.id@ == t.0
    &&& n.name@ == t.1
    &&& n.sharp == t.2
    &&& n.x == row
    &&& n.y == t.3
    &&& n.rbox == empty_rbox()
    &&& n.arrows@.len() == 0
    &&& n.arrows_no_render@.len() == 0
}

/// Room on a board of `count` nodes for every node of a line of `len`
/// characters.
pub open spec fn room_for_line(count: int, len: int, linenum: int) -> bool {
    count + len + 4 < MAX_GRID && 2 * len + 2 < MAX_GRID && linenum < MAX_GRID
}

/// Reading `line` as row `row` took the board from nodes `a` and
/// connectors `aa` to `b` and `ba`: an empty line or one with a label too
/// long for the board is skipped; otherwise, when the board has room for
/// the line, its fresh nodes and all its connectors are appended.
pub open spec fn line_step(a: Seq<ANode>, aa: Seq<AEdge>, b: Seq<ANode>, ba: Seq<AEdge>, line: Seq<char>, row: usize) -> bool {
    if !line_ok(line) {
        b == a && ba == aa
    } else {
        room_for_line(a.len() as int, line.len() as int, row as int) ==> {
            &&& registered(a, b, line_nodes_of(line), row)
            &&& ba.map_values(|e: AEdge| arrow_view(e)) == aa.map_values(|e: AEdge| arrow_view(e)) + line_arrows_of(line)
        }
    }
}

/// `ns`, `es` and `rows` hold the nodes, the connectors and the next row
/// number before and after each of the first `k` of `lines` is read; the
/// row number advances on each line that is read.
pub open spec fn read_trace(ns: Seq<Seq<ANode>>, es: Seq<Seq<AEdge>>, rows: Seq<usize>, lines: Seq<Seq<char>>, k: int) -> bool {
    &&& 0 <= k <= lines.len()
    &&& ns.len() == k + 1 && es.len() == k + 1 && rows.len() == k + 1
    &&& rows[0] == 0
    &&& forall|j: int| 0 <= j < k ==> {
        &&& line_step(#[trigger] ns[j], es[j], ns[j + 1], es[j + 1], lines[j], rows[j])
        &&& rows[j + 1] == if !line_ok(lines[j]) { rows[j] as int } else { rows[j] + 1 }
    }
}

/// Turns diagram text into its drawing: nodes and connectors are read line
/// by line, then the connectors are replayed on the board.
#[derive(Debug)]
pub struct GSMap {
    pub board: GBoard,
    pub arrows: Vec<AEdge>,
    pub expand_mode: bool,
}

impl GSMap {
    pub fn new(expand_mode: bool) -> (r: Self)
        ensures
            r.board.wf(),
            r.board.nodes@.len() == 0,
            r.board.h == 0,
            r.board.w == 0,
            r.arrows@.len() == 0,
            r.expand_mode == expand_mode,
    {
        Self { board: GBoard::new(), arrows: Vec::new(), expand_mode }
    }

    /// Reads every line of `content` that `line_ok` accepts (the others,
    /// blank or malformed, are skipped and take no row), replays the
    /// connectors and returns the drawing.
    pub fn load_content(&mut self, content: &str) -> (r: String)
        requires
            old(self).board.wf(),
            endpoints_known(old(self).board.nodes@, old(self).arrows@),
        ensures
            final(self).board.wf(),
            final(self).board.grid_wf(),
            endpoints_known(final(self).board.nodes@, final(self).arrows@),
            final(self).expand_mode == old(self).expand_mode,
            exists|ns: Seq<Seq<ANode>>, es: Seq<Seq<AEdge>>, rows: Seq<usize>, trace: Seq<Seq<ANode>>, ws: Seq<usize>, k: int| {
                &&& #[trigger] read_trace(ns, es, rows, split_lines(content@), split_lines(content@).len() as int)
                &&& ns[0] == old(self).board.nodes@
                &&& es[0] == old(self).arrows@
                &&& es[split_lines(content@).len() as int] == final(self).arrows@
                &&& final(self).board.h == heighten(old(self).board.h, ns[split_lines(content@).len() as int])
                &&& #[trigger] replay_trace(trace, final(self).arrows@, k)
                &&& #[trigger] width_trace(trace, ws, k)
                &&& trace[0] == ns[split_lines(content@).len() as int]
                &&& trace[k] == final(self).board.nodes@
                &&& ws[0] == widen(old(self).board.w, ns[split_lines(content@).len() as int])
                &&& ws[k] == final(self).board.w
                &&& (k < final(self).arrows@.len() ==> stopped_at(trace[k], ws[k], final(self).arrows@[k]))
            },
            r@ == shown(final(self).board, final(self).board.board@.len() as int, final(self).expand_mode),
    {
        let chars = chars_of(content);
        let lines = split_words(&chars);
        let mut linenum: usize = 0;
        let mut i: usize = 0;
        let ghost lv = split_lines(content@);
        let ghost mut ns: Seq<Seq<ANode>> = seq![self.board.nodes@];
        let ghost mut es: Seq<Seq<AEdge>> = seq![self.arrows@];
        let ghost mut rows: Seq<usize> = seq![0usize];
        proof {
            assert(lines@.map_values(|v: Vec<char>| v@) == lv);
            lemma_heighten_below(self.board.h, self.board.nodes@);
            lemma_widen_below(self.board.w, self.board.nodes@);
        }
        while i < lines.len()
            invariant
                self.board.h == heighten(old(self).board.h, self.board.nodes@),
                self.board.w == widen(old(self).board.w, self.board.nodes@),
                self.board.wf(),
                endpoints_known(self.board.nodes@, self.arrows@),
                self.expand_mode == old(self).expand_mode,
                i <= lines@.len(),
                linenum <= i,
                lines@.map_values(|v: Vec<char>| v@) == lv,
                read_trace(ns, es, rows, lv, i as int),
                ns[0] == old(self).board.nodes@,
                es[0] == old(self).arrows@,
                ns[i as int] == self.board.nodes@,
                es[i as int] == self.arrows@,
                rows[i as int] == linenum,
            decreases lines@.len() - i,
        {
            let ghost n0 = self.board.nodes@;
            let ghost e0 = self.arrows@;
            let ghost l = lines@[i as int]@;
            let ghost ln0 = linenum;
            proof {
                assert(lv[i as int] == l);
            }
            if lines[i].len() > 0 {
                let line = string_of(&lines[i]);
                if self.parse_line(line.as_str(), linenum) {
                    linenum = linenum + 1;
                }
            }
            proof {
                assert(line_step(n0, e0, self.board.nodes@, self.arrows@, l, rows[i as int]));
                assert(linenum == if !line_ok(l) { ln0 as int } else { ln0 + 1 });
                lemma_read_step(ns, es, rows, lv, i as int, self.board.nodes@, self.arrows@, linenum);
                ns = ns.push(self.board.nodes@);
                es = es.push(self.arrows@);
                rows = rows.push(linenum);
            }
            i = i + 1;
        }
        let ghost parsed = self.board.nodes@;
        proof {
            assert(read_trace(ns, es, rows, lv, lv.len() as int));
        }
        let ghost before_replay = self.board.nodes@;
        let ghost w_before = self.board.w;
        self.board.load_arrows(&self.arrows);
        proof {
            self.lemma_ids_kept(before_replay);
            let (trace, ws, k) = choose|trace: Seq<Seq<ANode>>, ws: Seq<usize>, k: int| {
                &&& #[trigger] replay_trace(trace, self.arrows@, k)
                &&& #[trigger] width_trace(trace, ws, k)
                &&& trace[0] == before_replay
                &&& trace[k] == self.board.nodes@
                &&& ws[0] == w_before
                &&& ws[k] == self.board.w
                &&& (k < self.arrows@.len() ==> stopped_at(trace[k], ws[k], self.arrows@[k]))
            };
            assert(replay_trace(trace, self.arrows@, k));
            assert(width_trace(trace, ws, k));
            assert(read_trace(ns, es, rows, lv, lv.len() as int));
        }
        self.board.show(self.expand_mode)
    }

    proof fn lemma_ids_kept(&self, ns: Seq<ANode>)
        requires
            endpoints_known(ns, self.arrows@),
            exists|trace: Seq<Seq<ANode>>, k: int| {
                &&& #[trigger] replay_trace(trace, self.arrows@, k)
                &&& trace[0] == ns
                &&& trace[k] == self.board.nodes@
            },
        ensures
            endpoints_known(self.board.nodes@, self.arrows@),
    {
        let (trace, k) = choose|trace: Seq<Seq<ANode>>, k: int| {
            &&& #[trigger] replay_trace(trace, self.arrows@, k)
            &&& trace[0] == ns
            &&& trace[k] == self.board.nodes@
        };
        lemma_trace_ids(trace, self.arrows@, k, k);
        assert forall|q: int| 0 <= q < self.arrows@.len() implies has_id(self.board.nodes@, (#[trigger] self.arrows@[q]).src@) && has_id(self.board.nodes@, self.arrows@[q].dst@) by {
            let a = self.arrows@[q];
            let i = choose|i: int| 0 <= i < ns.len() && (#[trigger] ns[i]).id@ == a.src@;
            let i2 = choose|i2: int| 0 <= i2 < ns.len() && (#[trigger] ns[i2]).id@ == a.dst@;
            assert(trace[k][i].id@ == ns[i].id@);
            assert(trace[k][i2].id@ == ns[i2].id@);
        }
    }

    /// The node of a token with id `id` (its label when `id` is blank).
    fn token_node(id: &str, name: &str, x: usize, y: usize, sharp: ASharp) -> (r: ANode)
        requires
            name@.len() <= MAX_LABEL,
            id@.len() <= MAX_LABEL,
        ensures
            node_is(r, (token_id((id@, name@, sharp, Seq::empty())), trimmed(name@), sharp, y as int), x),
            r.floating == 0,
    {
        let node = ANode::new(id.to_owned(), name.to_owned(), x, y, sharp);
        if node.id.as_str().unicode_len() == 0 {
            ANode::new(name.to_owned(), name.to_owned(), x, y, sharp)
        } else {
            node
        }
    }

    /// Reads one line: a node, then as long as three or more characters
    /// are left, an arrow and the next node, each connector linking the
    /// previous node to the next. Nodes go on row `linenum`, columns 0, 2,
    /// 4, ... A node without identifier takes its label as id. Returns
    /// false, reading nothing, when the line fails `line_ok`: it is empty,
    /// too long for the board's sizes, or its first node has no id.
    fn parse_line(&mut self, line: &str, linenum: usize) -> (r: bool)
        requires
            old(self).board.wf(),
            endpoints_known(old(self).board.nodes@, old(self).arrows@),
        ensures
            final(self).board.wf(),
            endpoints_known(final(self).board.nodes@, final(self).arrows@),
            final(self).board.nodes@.len() >= old(self).board.nodes@.len(),
            final(self).board.nodes@.take(old(self).board.nodes@.len() as int) == old(self).board.nodes@,
            final(self).arrows@.take(old(self).arrows@.len() as int) == old(self).arrows@,
            final(self).expand_mode == old(self).expand_mode,
            forall|H: usize| #[trigger] heighten(H, old(self).board.nodes@) == old(self).board.h
                ==> heighten(H, final(self).board.nodes@) == final(self).board.h,
            forall|W: usize| #[trigger] widen(W, old(self).board.nodes@) == old(self).board.w
                ==> widen(W, final(self).board.nodes@) == final(self).board.w,
            r == line_ok(line@),
            !r ==> *final(self) == *old(self),
            r && room_for_line(old(self).board.nodes@.len() as int, line@.len() as int, linenum as int)
                ==> final(self).arrows@.map_values(|a: AEdge| arrow_view(a))
                == old(self).arrows@.map_values(|a: AEdge| arrow_view(a)) + line_arrows_of(line@)
                && final(self).board.nodes@.len() == old(self).board.nodes@.len() + fresh(old(self).board.nodes@, line_nodes_of(line@)).len()
                && forall|j: int| 0 <= j < fresh(old(self).board.nodes@, line_nodes_of(line@)).len() ==> node_is(
                    #[trigger] final(self).board.nodes@[old(self).board.nodes@.len() + j],
                    fresh(old(self).board.nodes@, line_nodes_of(line@))[j],
                    linenum,
                ),
    {
        if line.unicode_len() > MAX_LABEL {
            return false;
        }
        let ghost nodes0 = self.board.nodes@;
        let ghost arrows0 = self.arrows@;
        let ghost h0 = self.board.h;
        let ghost w0 = self.board.w;
        let ghost total = line@.len();
        proof {
            lemma_parse_node_lens(line@);
        }
        let (id, name, sharp, rest) = parse_node(line);
        let node = Self::token_node(id, name, linenum, 0, sharp);
        if node.id.as_str().unicode_len() == 0 {
            return false;
        }
        let mut lid = node.id.clone();
        let ghost room = room_for_line(nodes0.len() as int, total as int, linenum as int);
        let ghost t0 = (token_id(parse_node_spec(line@)), trimmed(parse_node_spec(line@).1), parse_node_spec(line@).2, 0int);
        let ghost all = line_nodes_of(line@);
        let ghost mut done: Seq<(Seq<char>, Seq<char>, ASharp, int)> = seq![t0];
        let ghost nd = node;
        if !self.register(node) {
            return true;
        }
        proof {
            let e = Seq::<(Seq<char>, Seq<char>, ASharp, int)>::empty();
            assert(fresh(nodes0, e) =~= e);
            assert(nodes0.take(nodes0.len() as int) =~= nodes0);
            assert(registered(nodes0, nodes0, e, linenum));
            assert(e.push(t0) =~= done);
            if !has_id(nodes0, t0.0) {
                assert(self.board.nodes@.take(nodes0.len() as int) =~= nodes0);
                assert(node_is(ANode { idx: (nodes0.len() + 1) as usize, ..nd }, t0, linenum));
            }
            lemma_registered_step(nodes0, nodes0, self.board.nodes@, e, t0, linenum);
            assert(all =~= done + line_nodes(rest@, 0));
        }
        let mut text: String = rest.to_owned();
        let mut w: usize = 0;
        let ghost goal = arrows0.map_values(|a: AEdge| arrow_view(a)) + line_arrows_of(line@);
        proof {
            assert(self.arrows@ == arrows0);
        }
        loop
            invariant
                room ==> self.arrows@.map_values(|a: AEdge| arrow_view(a)) + line_arrows(text@, lid@) == goal,
                self.board.nodes@.len() <= nodes0.len() + 1 + (total - text@.len()),
                room == room_for_line(nodes0.len() as int, total as int, linenum as int),
                room ==> all == done + line_nodes(text@, w as int),
                room ==> registered(nodes0, self.board.nodes@, done, linenum),
                self.board.wf(),
                endpoints_known(self.board.nodes@, self.arrows@),
                has_id(self.board.nodes@, lid@),
                self.board.nodes@.len() >= nodes0.len(),
                self.board.nodes@.take(nodes0.len() as int) == nodes0,
                self.arrows@.take(arrows0.len() as int) == arrows0,
                self.arrows@.len() >= arrows0.len(),
                forall|H: usize| #[trigger] heighten(H, nodes0) == h0
                    ==> heighten(H, self.board.nodes@) == self.board.h,
                forall|W: usize| #[trigger] widen(W, nodes0) == w0
                    ==> widen(W, self.board.nodes@) == self.board.w,
                self.expand_mode == old(self).expand_mode,
                total <= MAX_LABEL,
                text@.len() <= total,
                w <= 2 * (total - text@.len()),
            ensures
                self.board.wf(),
                endpoints_known(self.board.nodes@, self.arrows@),
                self.board.nodes@.len() >= nodes0.len(),
                self.board.nodes@.take(nodes0.len() as int) == nodes0,
                self.arrows@.take(arrows0.len() as int) == arrows0,
                self.expand_mode == old(self).expand_mode,
                forall|H: usize| #[trigger] heighten(H, nodes0) == h0
                    ==> heighten(H, self.board.nodes@) == self.board.h,
                forall|W: usize| #[trigger] widen(W, nodes0) == w0
                    ==> widen(W, self.board.nodes@) == self.board.w,
                room ==> self.arrows@.map_values(|a: AEdge| arrow_view(a)) == goal,
                room ==> all == done,
                room ==> registered(nodes0, self.board.nodes@, done, linenum),
            decreases text@.len(),
        {
            if text.unicode_len() < 3 {
                proof {
                    assert(done + line_nodes(text@, w as int) =~= done);
                    assert(self.arrows@.map_values(|a: AEdge| arrow_view(a)) + line_arrows(text@, lid@) =~= self.arrows@.map_values(|a: AEdge| arrow_view(a)));
                }
                break;
            }
            proof {
                lemma_parse_edge_progress(text@);
            }
            let (direct, atext, remain) = parse_edge(text.as_str());
            if remain.unicode_len() == 0 {
                proof {
                    assert(done + line_nodes(text@, w as int) =~= done);
                    assert(self.arrows@.map_values(|a: AEdge| arrow_view(a)) + line_arrows(text@, lid@) =~= self.arrows@.map_values(|a: AEdge| arrow_view(a)));
                }
                break;
            }
            let ghost lid0 = lid@;
            let ghost text0 = text@;
            let col = w + 2;
            proof {
                lemma_parse_node_lens(remain@);
            }
            let (id, name, sharp, rest) = parse_node(remain.as_str());
            let node = Self::token_node(id, name, linenum, col, sharp);
            let rid = node.id.clone();
            let ghost nodes1 = self.board.nodes@;
            let ghost nd = node;
            if !self.register(node) {
                break;
            }
            proof {
                if room {
                    let e = parse_edge_spec(text0);
                    let n = parse_node_spec(e.2);
                    let t = (token_id(n), trimmed(n.1), n.2, col as int);
                    assert(line_nodes(text0, w as int) == seq![t] + line_nodes(n.3, col as int));
                    if !has_id(nodes1, t.0) {
                        assert(self.board.nodes@.take(nodes1.len() as int) =~= nodes1);
                        assert(node_is(ANode { idx: (nodes1.len() + 1) as usize, ..nd }, t, linenum));
                    }
                    lemma_registered_step(nodes0, nodes1, self.board.nodes@, done, t, linenum);
                    assert(done + line_nodes(text0, w as int) =~= done.push(t) + line_nodes(rest@, col as int));
                    done = done.push(t);
                }
            }
            let ghost before = self.arrows@;
            self.arrows.push(AEdge::new(direct, lid, rid.clone(), atext));
            proof {
                if room {
                    let e = parse_edge_spec(text0);
                    let n = parse_node_spec(e.2);
                    assert(line_arrows(text0, lid0) == seq![(e.0, lid0, token_id(n), e.1)] + line_arrows(n.3, token_id(n)));
                    assert(self.arrows@.map_values(|a: AEdge| arrow_view(a)) =~= before.map_values(|a: AEdge| arrow_view(a)).push((e.0, lid0, token_id(n), e.1)));
                    assert(self.arrows@.map_values(|a: AEdge| arrow_view(a)) + line_arrows(n.3, token_id(n)) =~= before.map_values(|a: AEdge| arrow_view(a)) + line_arrows(text0, lid0));
                }
                assert forall|k: int| 0 <= k < self.arrows@.len() implies has_id(self.board.nodes@, (#[trigger] self.arrows@[k]).src@) && has_id(self.board.nodes@, self.arrows@[k].dst@) by {
                    if k < before.len() {
                        assert(self.arrows@[k] == before[k]);
                    }
                }
                assert(self.arrows@.take(arrows0.len() as int) =~= before.take(arrows0.len() as int));
            }
            lid = rid;
            w = col;
            text = rest.to_owned();
        }
        true
    }

    /// Adds `node` to the board (a second node with the same id is
    /// dropped); the nodes already there are unchanged. Returns whether a
    /// node with its id is now on the board.
    fn register(&mut self, node: ANode) -> (r: bool)
        requires
            old(self).board.wf(),
            node.wf(),
            endpoints_known(old(self).board.nodes@, old(self).arrows@),
        ensures
            final(self).board.wf(),
            endpoints_known(final(self).board.nodes@, final(self).arrows@),
            final(self).board.nodes@.len() >= old(self).board.nodes@.len(),
            final(self).board.nodes@.take(old(self).board.nodes@.len() as int) == old(self).board.nodes@,
            r == has_id(final(self).board.nodes@, node.id@),
            old(self).board.nodes@.len() + 2 < MAX_GRID && node.x < MAX_GRID && node.y < MAX_GRID ==> r,
            final(self).board.nodes@.len() <= old(self).board.nodes@.len() + 1,
            !r ==> final(self).board.nodes@ == old(self).board.nodes@,
            has_id(old(self).board.nodes@, node.id@) ==> final(self).board.nodes@ == old(self).board.nodes@,
            !has_id(old(self).board.nodes@, node.id@) && r ==> final(self).board.nodes@ == old(self).board.nodes@.push(
                ANode { idx: (old(self).board.nodes@.len() + 1) as usize, ..node },
            ),
            forall|H: usize| #[trigger] heighten(H, old(self).board.nodes@) == old(self).board.h
                ==> heighten(H, final(self).board.nodes@) == final(self).board.h,
            forall|W: usize| #[trigger] widen(W, old(self).board.nodes@) == old(self).board.w
                ==> widen(W, final(self).board.nodes@) == final(self).board.w,
            final(self).arrows == old(self).arrows,
            final(self).expand_mode == old(self).expand_mode,
    {
        let ghost before = self.board.nodes@;
        let id = node.id.clone();
        let added = self.board.add_node(node);
        proof {
            assert(self.board.nodes@.take(before.len() as int) =~= before);
            if added {
                assert(self.board.nodes@[before.len() as int].id@ == id@);
                assert(self.board.nodes@.drop_last() =~= before);
            }
            assert forall|k: int| 0 <= k < self.arrows@.len() implies has_id(self.board.nodes@, (#[trigger] self.arrows@[k]).src@) && has_id(self.board.nodes@, self.arrows@[k].dst@) by {
                let a = self.arrows@[k];
                let i = choose|i: int| 0 <= i < before.len() && (#[trigger] before[i]).id@ == a.src@;
                let j = choose|j: int| 0 <= j < before.len() && (#[trigger] before[j]).id@ == a.dst@;
                assert(self.board.nodes@[i] == before[i]);
                assert(self.board.nodes@[j] == before[j]);
            }
        }
        self.board.get_node(&id).is_some()
    }
}

/// `b` is `a` with a node appended, on row `row`, for each token of `fresh(a, toks)`.
pub open spec fn registered(a: Seq<ANode>, b: Seq<ANode>, toks: Seq<(Seq<char>, Seq<char>, ASharp, int)>, row: usize) -> bool {
    &&& b.len() == a.len() + fresh(a, toks).len()
    &&& b.take(a.len() as int) == a
    &&& forall|j: int| 0 <= j < fresh(a, toks).len() ==> node_is(#[trigger] b[a.len() + j], fresh(a, toks)[j], row)
}

/// Reading one more line extends a reading trace.
proof fn lemma_read_step(
    ns: Seq<Seq<ANode>>,
    es: Seq<Seq<AEdge>>,
    rows: Seq<usize>,
    lv: Seq<Seq<char>>,
    i: int,
    n1: Seq<ANode>,
    e1: Seq<AEdge>,
    r1: usize,
)
    requires
        read_trace(ns, es, rows, lv, i),
        i < lv.len(),
        line_step(ns[i], es[i], n1, e1, lv[i], rows[i]),
        r1 == if !line_ok(lv[i]) { rows[i] as int } else { rows[i] + 1 },
    ensures
        read_trace(ns.push(n1), es.push(e1), rows.push(r1), lv, i + 1),
{
    let ns2 = ns.push(n1);
    let es2 = es.push(e1);
    let rows2 = rows.push(r1);
    assert forall|j: int| 0 <= j < i + 1 implies {
        &&& line_step(#[trigger] ns2[j], es2[j], ns2[j + 1], es2[j + 1], lv[j], rows2[j])
        &&& rows2[j + 1] == if !line_ok(lv[j]) { rows2[j] as int } else { rows2[j] + 1 }
    } by {
        if j < i {
            assert(ns2[j] == ns[j] && ns2[j + 1] == ns[j + 1]);
            assert(es2[j] == es[j] && es2[j + 1] == es[j + 1]);
            assert(rows2[j] == rows[j] && rows2[j + 1] == rows[j + 1]);
        } else {
            assert(ns2[j] == ns[i] && ns2[j + 1] == n1);
            assert(es2[j] == es[i] && es2[j + 1] == e1);
            assert(rows2[j] == rows[i] && rows2[j + 1] == r1);
        }
    }
    assert(ns2[0] == ns[0] && es2[0] == es[0] && rows2[0] == rows[0]);
}

/// Registering the node of one more token keeps `registered` true.
proof fn lemma_registered_step(
    a: Seq<ANode>,
    b: Seq<ANode>,
    c: Seq<ANode>,
    toks: Seq<(Seq<char>, Seq<char>, ASharp, int)>,
    t: (Seq<char>, Seq<char>, ASharp, int),
    row: usize,
)
    requires
        registered(a, b, toks, row),
        has_id(b, t.0) ==> c == b,
        !has_id(b, t.0) ==> c.len() == b.len() + 1 && c.take(b.len() as int) == b && node_is(c[b.len() as int], t, row),
    ensures
        registered(a, c, toks.push(t), row),
{
    let f = fresh(a, toks);
    let all = toks.push(t);
    assert(all.drop_last() =~= toks);
    assert(all.last() == t);
    let known = has_id(a, t.0) || exists|j: int| 0 <= j < f.len() && (#[trigger] f[j]).0 == t.0;
    if has_id(b, t.0) {
        let i = choose|i: int| 0 <= i < b.len() && (#[trigger] b[i]).id@ == t.0;
        if i < a.len() {
            assert(b.take(a.len() as int)[i] == b[i]);
            assert(has_id(a, t.0));
        } else {
            assert(node_is(b[a.len() + (i - a.len())], f[i - a.len()], row));
            assert(f[i - a.len()].0 == t.0);
        }
        assert(known);
    } else {
        if has_id(a, t.0) {
            let i = choose|i: int| 0 <= i < a.len() && (#[trigger] a[i]).id@ == t.0;
            assert(b.take(a.len() as int)[i] == b[i]);
        }
        if exists|j: int| 0 <= j < f.len() && (#[trigger] f[j]).0 == t.0 {
            let j = choose|j: int| 0 <= j < f.len() && (#[trigger] f[j]).0 == t.0;
            assert(node_is(b[a.len() + j], f[j], row));
        }
        assert(!known);
        assert(fresh(a, all) == f.push(t));
        assert(c.take(a.len() as int) =~= a) by {
            assert(c.take(b.len() as int).take(a.len() as int) =~= c.take(a.len() as int));
        }
        assert forall|j: int| 0 <= j < f.push(t).len() implies node_is(#[trigger] c[a.len() + j], f.push(t)[j], row) by {
            if j < f.len() {
                assert(c[a.len() + j] == c.take(b.len() as int)[a.len() + j]);
            }
        }
    }
}

/// Replaying a connector keeps every node's id in its place.
pub proof fn lemma_applied_ids(a: Seq<ANode>, b: Seq<ANode>, arrow: AEdge)
    requires
        applied(a, b, arrow),
    ensures
        b.len() == a.len(),
        forall|i: int| 0 <= i < a.len() ==> (#[trigger] b[i]).id@ == a[i].id@,
{
    if moves(arrow) {
        let s = choose|s: int|
            0 <= s < a.len() && (#[trigger] a[s]).id@ == arrow.src@ && b.len() == a.len() && forall|i: int|
                0 <= i < a.len() ==> linked(
                    relocated(a[i], arrow.dst@, a[s].x, target_col(arrow.direct, a[s].y)),
                    #[trigger] b[i],
                    arrow,
                );
        assert forall|i: int| 0 <= i < a.len() implies (#[trigger] b[i]).id@ == a[i].id@ by {
            assert(linked(relocated(a[i], arrow.dst@, a[s].x, target_col(arrow.direct, a[s].y)), b[i], arrow));
        }
    }
}

proof fn lemma_trace_ids(trace: Seq<Seq<ANode>>, arrows: Seq<AEdge>, k: int, j: int)
    requires
        replay_trace(trace, arrows, k),
        0 <= j <= k,
    ensures
        trace[j].len() == trace[0].len(),
        forall|i: int| 0 <= i < trace[0].len() ==> (#[trigger] trace[j][i]).id@ == trace[0][i].id@,
    decreases j,
{
    if j > 0 {
        lemma_trace_ids(trace, arrows, k, j - 1);
        assert(applied(trace[j - 1], trace[j], arrows[j - 1]));
        lemma_applied_ids(trace[j - 1], trace[j], arrows[j - 1]);
    }
}

/// The drawing of diagram text, made by a fresh board: the board holds
/// what reading the lines of `content` registers, with as many rows and
/// columns as those nodes take, after the connectors read are replayed up
/// to the first one that cannot be.
pub fn render_diagram(content: &str, expand_mode: bool) -> (r: String)
    ensures
        exists|m: GSMap, ns: Seq<Seq<ANode>>, es: Seq<Seq<AEdge>>, rows: Seq<usize>, trace: Seq<Seq<ANode>>, ws: Seq<usize>, k: int| {
            &&& #[trigger] m.board.grid_wf()
            &&& m.board.wf()
            &&& m.expand_mode == expand_mode
            &&& #[trigger] read_trace(ns, es, rows, split_lines(content@), split_lines(content@).len() as int)
            &&& ns[0].len() == 0
            &&& es[0].len() == 0
            &&& es[split_lines(content@).len() as int] == m.arrows@
            &&& m.board.h == heighten(0, ns[split_lines(content@).len() as int])
            &&& #[trigger] replay_trace(trace, m.arrows@, k)
            &&& #[trigger] width_trace(trace, ws, k)
            &&& trace[0] == ns[split_lines(content@).len() as int]
            &&& trace[k] == m.board.nodes@
            &&& ws[0] == widen(0, ns[split_lines(content@).len() as int])
            &&& ws[k] == m.board.w
            &&& (k < m.arrows@.len() ==> stopped_at(trace[k], ws[k], m.arrows@[k]))
            &&& r@ == shown(m.board, m.board.board@.len() as int, expand_mode)
        },
{
    let mut m = GSMap::new(expand_mode);
    let ghost n0 = m.board.nodes@;
    let ghost e0 = m.arrows@;
    let r = m.load_content(content);
    proof {
        let (ns, es, rows, trace, ws, k) = choose|ns: Seq<Seq<ANode>>, es: Seq<Seq<AEdge>>, rows: Seq<usize>, trace: Seq<Seq<ANode>>, ws: Seq<usize>, k: int| {
            &&& #[trigger] read_trace(ns, es, rows, split_lines(content@), split_lines(content@).len() as int)
            &&& ns[0] == n0
            &&& es[0] == e0
            &&& es[split_lines(content@).len() as int] == m.arrows@
            &&& m.board.h == heighten(0, ns[split_lines(content@).len() as int])
            &&& #[trigger] replay_trace(trace, m.arrows@, k)
            &&& #[trigger] width_trace(trace, ws, k)
            &&& trace[0] == ns[split_lines(content@).len() as int]
            &&& trace[k] == m.board.nodes@
            &&& ws[0] == widen(0, ns[split_lines(content@).len() as int])
            &&& ws[k] == m.board.w
            &&& (k < m.arrows@.len() ==> stopped_at(trace[k], ws[k], m.arrows@[k]))
        };
        assert(m.board.grid_wf());
        assert(read_trace(ns, es, rows, split_lines(content@), split_lines(content@).len() as int));
        assert(replay_trace(trace, m.arrows@, k));
        assert(width_trace(trace, ws, k));
    }
    r
}

} // verus!
