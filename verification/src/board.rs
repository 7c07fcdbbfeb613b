//! The board representing one world map, and positions on it.
//!
//! The origin is the top-left corner at `(0, 0)`; `x` grows to the right up
//! to `width` and `y` grows downwards up to `height`. Cells are stored in
//! row-major order.

use vstd::prelude::*;

use crate::land::Land;
use crate::land::LandKind;

verus! {

/// A specific `(x, y)` position on a board.
#[derive(Debug, Copy, Clone, Eq, PartialEq, Hash, Structural)]
pub struct Pos {
    /// X coordinate in number of cells on the board.
    pub x: usize,
    /// Y coordinate in number of cells on the board.
    pub y: usize,
}

impl DeepView for Pos {
    type V = Pos;

    open spec fn deep_view(&self) -> Pos {
        *self
    }
}

/// The move cost between two positions when only the four cardinal
/// directions can be used: `|x1 - x2| + |y1 - y2|`.
pub open spec fn spec_move_cost(a: Pos, b: Pos) -> int {
    abs_diff(a.x as int, b.x as int) + abs_diff(a.y as int, b.y as int)
}

/// `|a - b|` over mathematical integers.
pub open spec fn abs_diff(a: int, b: int) -> int {
    if a >= b {
        a - b
    } else {
        b - a
    }
}

impl Pos {
    /// How much it costs to reach `other` from `self` when moving only in
    /// the four cardinal directions.
    pub fn move_cost(&self, other: &Pos) -> (r: usize)
        requires
            spec_move_cost(*self, *other) <= usize::MAX,
        ensures
            r == spec_move_cost(*self, *other),
    {
        let dx = if self.x >= other.x {
            self.x - other.x
        } else {
            other.x - self.x
        };
        let dy = if self.y >= other.y {
            self.y - other.y
        } else {
            other.y - self.y
        };
        dx + dy
    }
}

/// Whether `p` lies on a `width` by `height` board.
pub open spec fn pos_in_bounds(p: Pos, width: int, height: int) -> bool {
    p.x < width && p.y < height
}

/// Whether `a` and `b` are distinct and 4-connected (share an edge).
pub open spec fn adjacent(a: Pos, b: Pos) -> bool {
    spec_move_cost(a, b) == 1
}

/// One world map: a `width` by `height` grid of cells in row-major order.
#[derive(Debug, PartialEq)]
pub struct Board {
    width: usize,
    height: usize,
    cells: Vec<Land>,
}

impl Board {
    /// A board is well formed when it holds exactly one cell per position.
    pub closed spec fn wf(self) -> bool {
        self.cells@.len() == self.width * self.height
    }

    /// The cell stored for position `(x, y)`.
    pub closed spec fn cell_at(self, x: int, y: int) -> Land {
        self.cells@[y * self.width + x]
    }

    /// The width of the board, as seen by specifications.
    pub closed spec fn spec_width(self) -> usize {
        self.width
    }

    /// The height of the board, as seen by specifications.
    pub closed spec fn spec_height(self) -> usize {
        self.height
    }

    /// Builds a board from `width * height` cells given in row-major order.
    pub fn build(width: usize, height: usize, cells: Vec<Land>) -> (r: Board)
        requires
            cells@.len() == width * height,
        ensures
            r.wf(),
            r.spec_width() == width,
            r.spec_height() == height,
            forall|x: int, y: int|
                0 <= x < width && 0 <= y < height ==> r.cell_at(x, y) == cells@[y * width + x],
    {
        Board { width, height, cells }
    }

    /// Number of cells per row.
    pub fn width(&self) -> (r: usize)
        ensures
            r == self.spec_width(),
    {
        self.width
    }

    /// Number of rows.
    pub fn height(&self) -> (r: usize)
        ensures
            r == self.spec_height(),
    {
        self.height
    }

    /// A reference to the cell at the given `(x, y)` position.
    pub fn at(&self, x: usize, y: usize) -> (r: &Land)
        requires
            self.wf(),
            x < self.spec_width(),
            y < self.spec_height(),
        ensures
            *r == self.cell_at(x as int, y as int),
    {
        proof {
            lemma_row_major_index(self.width as int, self.height as int, x as int, y as int);
        }
        let n = self.cells.len();
        assert(y * self.width + x < n);
        &self.cells[y * self.width + x]
    }

    /// All cells of the board, in row-major order from the top-left corner
    /// to the bottom-right corner.
    pub fn cells(&self) -> (r: &Vec<Land>)
        requires
            self.wf(),
        ensures
            r@.len() == self.spec_width() * self.spec_height(),
            forall|x: int, y: int|
                0 <= x < self.spec_width() && 0 <= y < self.spec_height()
                    ==> r@[y * self.spec_width() + x] == self.cell_at(x, y),
    {
        &self.cells
    }
}

/// The cell a board holds at position `p`.
pub open spec fn cell_of(b: Board, p: Pos) -> Land {
    b.cell_at(p.x as int, p.y as int)
}

/// Whether some 4-connected neighbor of `p` on board `b` has an altitude at
/// least that of `p`.
pub open spec fn board_has_ge_neighbor(b: Board, p: Pos) -> bool {
    exists|q: Pos|
        pos_in_bounds(q, b.spec_width() as int, b.spec_height() as int) && adjacent(p, q)
            && (#[trigger] cell_of(b, q)).altitude >= cell_of(b, p).altitude
}

/// Whether every town cell of board `b` appears in `ts`; with a bound on
/// `ts`'s length this caps how many town cells the board can hold.
pub open spec fn town_cells_covered_by(b: Board, ts: Seq<Pos>) -> bool {
    forall|p: Pos|
        pos_in_bounds(p, b.spec_width() as int, b.spec_height() as int) && (#[trigger] cell_of(
            b,
            p,
        )).kind == LandKind::Town ==> ts.contains(p)
}

/// Whether `v` holds the position `p`.
pub(crate) fn contains_pos(v: &Vec<Pos>, p: Pos) -> (r: bool)
    ensures
        r == v@.contains(p),
{
    let mut i: usize = 0;
    while i < v.len()
        invariant
            i <= v@.len(),
            forall|j: int| 0 <= j < i ==> v@[j] != p,
        decreases v@.len() - i,
    {
        if v[i].x == p.x && v[i].y == p.y {
            assert(v@[i as int] == p);
            return true;
        }
        i = i + 1;
    }
    false
}

/// Membership in a sequence extended by one element.
pub(crate) proof fn lemma_push_contains(s: Seq<Pos>, e: Pos, p: Pos)
    ensures
        s.push(e).contains(p) <==> (s.contains(p) || p == e),
{
    if s.contains(p) {
        let i = choose|i: int| 0 <= i < s.len() && s[i] == p;
        assert(s.push(e)[i] == p);
    }
    if p == e {
        assert(s.push(e)[s.len() as int] == p);
    }
    if s.push(e).contains(p) {
        let i = choose|i: int| 0 <= i < s.push(e).len() && s.push(e)[i] == p;
        if i < s.len() {
            assert(s[i] == p);
        }
    }
}

/// A sequence that holds every member of a duplicate-free sequence is at
/// least as long.
pub(crate) proof fn lemma_member_count(s: Seq<Pos>, members: Seq<Pos>)
    requires
        forall|i: int, j: int|
            0 <= i < j < members.len() ==> #[trigger] members[i] != #[trigger] members[j],
        forall|i: int| 0 <= i < members.len() ==> s.contains(#[trigger] members[i]),
    ensures
        s.len() >= members.len(),
    decreases members.len(),
{
    if members.len() > 0 {
        let c = members.last();
        assert(s.contains(c));
        let k = choose|k: int| 0 <= k < s.len() && s[k] == c;
        let s2 = s.remove(k);
        let m2 = members.drop_last();
        assert forall|i: int| 0 <= i < m2.len() implies s2.contains(#[trigger] m2[i]) by {
            assert(s.contains(members[i]));
            let t = choose|t: int| 0 <= t < s.len() && s[t] == members[i];
            assert(members[i] != c);
            assert(t != k);
            if t < k {
                assert(s2[t] == members[i]);
            } else {
                assert(s2[t - 1] == members[i]);
            }
        }
        lemma_member_count(s2, m2);
    }
}

/// A duplicate-free sequence of positions on a `width` by `height` board
/// cannot be longer than the board has cells.
pub(crate) proof fn lemma_distinct_in_bounds_len(s: Seq<Pos>, width: int, height: int)
    requires
        0 <= width,
        0 <= height,
        forall|i: int, j: int| 0 <= i < j < s.len() ==> #[trigger] s[i] != #[trigger] s[j],
        forall|i: int| 0 <= i < s.len() ==> pos_in_bounds(#[trigger] s[i], width, height),
    ensures
        s.len() <= width * height,
{
    if width == 0 || height == 0 {
        if s.len() > 0 {
            assert(pos_in_bounds(s[0], width, height));
            assert(false);
        }
        assert(width * height == 0) by (nonlinear_arith)
            requires
                width == 0 || height == 0,
        {
        }
    } else {
        let cells = Seq::new(
            (width * height) as nat,
            |i: int| Pos { x: (i % width) as usize, y: (i / width) as usize },
        );
        assert forall|i: int| 0 <= i < s.len() implies cells.contains(#[trigger] s[i]) by {
            let p = s[i];
            let idx = p.y as int * width + p.x as int;
            lemma_row_major_index(width, height, p.x as int, p.y as int);
            vstd::arithmetic::div_mod::lemma_fundamental_div_mod_converse(
                idx,
                width,
                p.y as int,
                p.x as int,
            );
            assert(cells[idx] == p);
        }
        lemma_member_count(cells, s);
    }
}

/// On a `width` by `height` board the row-major index of an in-bounds
/// position is itself in bounds.
pub proof fn lemma_row_major_index(width: int, height: int, x: int, y: int)
    requires
        0 <= x < width,
        0 <= y < height,
    ensures
        0 <= y * width + x < width * height,
{
    assert(0 <= y * width + x < width * height) by (nonlinear_arith)
        requires
            0 <= x < width,
            0 <= y < height,
    {
    }
}

} // verus!
