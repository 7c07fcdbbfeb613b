//! The middle-resolution board generator: mountains are carved by altitude
//! diffusion and towns are placed on plains, mutually separated by more than
//! a minimum move cost.

use vstd::prelude::*;

use crate::board::{adjacent, cell_of, pos_in_bounds, spec_move_cost, Board, Pos};
use crate::land::{Land, LandKind};
use crate::rng;
use crate::slope::{alt_at, down_rate_ok, grid_at, SlopeGen};
use crate::towns::pick_towns;

verus! {

/// The altitude band classification of the middle resolution.
pub open spec fn spec_middle_kind(alt: u8) -> LandKind {
    if alt <= 10 {
        LandKind::Sea
    } else if alt <= 40 {
        LandKind::Plain
    } else if alt <= 70 {
        LandKind::Forest
    } else {
        LandKind::Mountain
    }
}

/// The down rate the middle resolution derives from the board size; its
/// standard value is 20 at a 48 by 36 board, larger boards decay slower.
/// The quotient passes through an 8-bit truncation.
pub open spec fn middle_down_rate(width: int, height: int) -> int {
    let q = (48 * 36 * 8) as int / (width * height);
    12 + q % 256
}

/// The board sizes the middle resolution can handle: the size arithmetic
/// must fit the machine word and the derived down rate must be workable
/// (on other sizes the down-rate arithmetic leaves `u8`).
pub open spec fn middle_params_ok(width: int, height: int) -> bool {
    &&& 1 <= width * height <= usize::MAX
    &&& width + height <= usize::MAX
    &&& (width + height) * 6 <= usize::MAX
    &&& middle_down_rate(width, height) <= 255
    &&& down_rate_ok(middle_down_rate(width, height) as u8)
}

/// The cell the middle resolution assembles for position `p`: a top wins
/// over a town, a town wins over the altitude band, and the altitude is
/// always the diffused one.
pub open spec fn spec_middle_cell(a: Seq<Seq<u8>>, tops: Seq<Pos>, towns: Seq<Pos>, p: Pos) -> Land {
    Land {
        kind: if tops.contains(p) {
            LandKind::Top
        } else if towns.contains(p) {
            LandKind::Town
        } else {
            spec_middle_kind(alt_at(a, p))
        },
        altitude: alt_at(a, p),
    }
}

/// What every generated middle-resolution board satisfies: altitudes at
/// most 99, only the six middle-resolution kinds, every town cell in the
/// plain altitude band, every cell that is neither a top nor a town
/// classified exactly by its altitude band, at least one top cell, and no
/// strict local altitude maximum besides tops (on boards with at least two
/// cells).
pub open spec fn middle_board_ok(b: Board) -> bool {
    &&& forall|p: Pos|
        pos_in_bounds(p, b.spec_width() as int, b.spec_height() as int) ==> (#[trigger] cell_of(
            b,
            p,
        )).altitude <= 99
    &&& forall|p: Pos|
        pos_in_bounds(p, b.spec_width() as int, b.spec_height() as int) ==> {
            let k = (#[trigger] cell_of(b, p)).kind;
            ||| k == LandKind::Sea
            ||| k == LandKind::Plain
            ||| k == LandKind::Forest
            ||| k == LandKind::Mountain
            ||| k == LandKind::Top
            ||| k == LandKind::Town
        }
    &&& forall|p: Pos|
        pos_in_bounds(p, b.spec_width() as int, b.spec_height() as int) && (#[trigger] cell_of(
            b,
            p,
        )).kind == LandKind::Town ==> 11 <= cell_of(b, p).altitude <= 40
    &&& forall|p: Pos|
        pos_in_bounds(p, b.spec_width() as int, b.spec_height() as int) && (#[trigger] cell_of(
            b,
            p,
        )).kind != LandKind::Top && cell_of(b, p).kind != LandKind::Town ==> cell_of(b, p).kind
            == spec_middle_kind(cell_of(b, p).altitude)
    &&& exists|p: Pos|
        pos_in_bounds(p, b.spec_width() as int, b.spec_height() as int) && (#[trigger] cell_of(
            b,
            p,
        )).kind == LandKind::Top
    &&& forall|p: Pos|
        pos_in_bounds(p, b.spec_width() as int, b.spec_height() as int) && (#[trigger] cell_of(
            b,
            p,
        )).kind != LandKind::Top && b.spec_width() * b.spec_height() != 1
            ==> crate::board::board_has_ge_neighbor(b, p)
}

/// The middle-resolution generator: its parameters are drawn once from the
/// random source and the board size.
pub struct MiddleBoardGen {
    /// The width of the generated board.
    pub width: usize,
    /// The height of the generated board.
    pub height: usize,
    /// How many towns placement aims for.
    pub num_towns: usize,
    /// The minimum move cost any two towns must exceed.
    pub min_distance: usize,
    /// The per-step altitude decay bound handed to the diffusion.
    pub down_rate: u8,
    /// How many mountain tops the diffusion aims for.
    pub num_tops: usize,
}

impl MiddleBoardGen {
    /// The generator's invariant, established by [`MiddleBoardGen::new`].
    pub open spec fn wf(self) -> bool {
        &&& middle_params_ok(self.width as int, self.height as int)
        &&& self.down_rate as int == middle_down_rate(self.width as int, self.height as int)
        &&& 1 <= self.num_towns
        &&& 3 <= self.num_tops
    }

    /// Draws the generation parameters for a `width` by `height` board: a
    /// town count and top count growing with the board size, a minimum town
    /// separation shrinking with the town count, and the size-derived down
    /// rate.
    pub fn new(rngv: &mut rand::rngs::StdRng, width: usize, height: usize) -> (r: MiddleBoardGen)
        requires
            middle_params_ok(width as int, height as int),
        ensures
            r.wf(),
            r.width == width,
            r.height == height,
            (width * height) as int / 2048 + 1 <= r.num_towns <= (width * height) as int / 2048
                + 3,
            r.min_distance == (width + height) as int / r.num_towns as int,
            3 + (width + height) as int * 3 / 84 <= r.num_tops <= 3 + (width + height) as int * 6
                / 84,
    {
        let area = width * height;
        proof {
            assert(area / 2048 <= usize::MAX / 2048) by (nonlinear_arith)
                requires
                    0 <= area <= usize::MAX,
            {
            }
        }
        let num_towns = area / 2048 + rng::gen_range(rngv, 1, 4);
        let both = width + height;
        let min_distance = both / num_towns;
        let q = 48 * 36 * 8 / area;
        let down_rate = 12 + (q % 256) as u8;
        let factor = rng::gen_range(rngv, 3, 7);
        proof {
            assert(both * factor <= both * 6) by (nonlinear_arith)
                requires
                    3 <= factor <= 6,
                    both >= 0,
            {
            }
            assert(both * 6 / 84 <= usize::MAX as int / 84) by (nonlinear_arith)
                requires
                    0 <= both * 6 <= usize::MAX,
            {
            }
            assert(both * factor / 84 <= both * 6 / 84) by (nonlinear_arith)
                requires
                    0 <= both * factor <= both * 6,
            {
            }
            assert(both * 3 <= both * factor) by (nonlinear_arith)
                requires
                    3 <= factor,
                    both >= 0,
            {
            }
            assert(both * 3 / 84 <= both * factor / 84) by (nonlinear_arith)
                requires
                    0 <= both * 3 <= both * factor,
            {
            }
        }
        let num_tops = 3 + both * factor / (48 + 36);
        MiddleBoardGen { width, height, num_towns, min_distance, down_rate, num_tops }
    }

    /// The terrain kind of the middle resolution for one altitude.
    fn land_kind(altitude: u8) -> (r: LandKind)
        requires
            altitude <= 99,
        ensures
            r == spec_middle_kind(altitude),
    {
        if altitude <= 10 {
            LandKind::Sea
        } else if altitude <= 40 {
            LandKind::Plain
        } else if altitude <= 70 {
            LandKind::Forest
        } else {
            LandKind::Mountain
        }
    }

    /// Generates one middle-resolution board: altitudes are diffused, towns
    /// are placed on shuffled plain cells, and every cell is classified with
    /// the precedence top over town over altitude band.
    ///
    /// The stated guarantees: every altitude is at most 99; every kind is
    /// one of the six middle-resolution kinds; every town cell lies in the
    /// plain altitude band; at least one top cell exists; town cells are
    /// pairwise farther apart than `min_distance`; and no cell but a top is
    /// a strict local altitude maximum (on boards with at least two cells).
    pub fn gen(&self, rngv: &mut rand::rngs::StdRng) -> (r: Board)
        requires
            self.wf(),
        ensures
            r.wf(),
            r.spec_width() == self.width,
            r.spec_height() == self.height,
            middle_board_ok(r),
            exists|ts: Seq<Pos>|
                ts.len() <= self.num_towns && #[trigger] crate::board::town_cells_covered_by(r, ts),
            forall|p: Pos, q: Pos|
                pos_in_bounds(p, self.width as int, self.height as int) && pos_in_bounds(
                    q,
                    self.width as int,
                    self.height as int,
                ) && (#[trigger] cell_of(r, p)).kind == LandKind::Town && (#[trigger] cell_of(
                    r,
                    q,
                )).kind == LandKind::Town && p != q ==> spec_move_cost(p, q)
                    > self.min_distance as int,
    {
        let width = self.width;
        let height = self.height;
        let ghost w = width as int;
        let ghost h = height as int;
        let mut slope = SlopeGen::new(width, height, self.down_rate, self.num_tops);
        slope.gen(rngv);
        let ghost a = slope.altitudes.deep_view();
        let ghost tops = slope.tops@;

        let mut plains: Vec<Pos> = Vec::new();
        let mut y: usize = 0;
        while y < height
            invariant
                y <= height,
                slope.wf(),
                slope.width == width,
                slope.height == height,
                a == slope.altitudes.deep_view(),
                w == width as int,
                h == height as int,
                forall|i: int|
                    0 <= i < plains@.len() ==> pos_in_bounds(#[trigger] plains@[i], w, h)
                        && spec_middle_kind(alt_at(a, plains@[i])) == LandKind::Plain,
            decreases height - y,
        {
            let mut x: usize = 0;
            while x < width
                invariant
                    x <= width,
                    y < height,
                    slope.wf(),
                    slope.width == width,
                    slope.height == height,
                    a == slope.altitudes.deep_view(),
                    w == width as int,
                    h == height as int,
                    forall|i: int|
                        0 <= i < plains@.len() ==> pos_in_bounds(#[trigger] plains@[i], w, h)
                            && spec_middle_kind(alt_at(a, plains@[i])) == LandKind::Plain,
                decreases width - x,
            {
                let alt = grid_at(&slope.altitudes, width, height, x, y);
                if matches!(Self::land_kind(alt), LandKind::Plain) {
                    plains.push(Pos { x, y });
                }
                x = x + 1;
            }
            y = y + 1;
        }

        let ghost plains_v = plains@;
        proof {
            assert forall|i: int, j: int|
                0 <= i < plains@.len() && 0 <= j < plains@.len() implies spec_move_cost(
                #[trigger] plains@[i],
                #[trigger] plains@[j],
            ) <= usize::MAX by {
                assert(pos_in_bounds(plains@[i], w, h) && pos_in_bounds(plains@[j], w, h));
            }
        }
        let towns = pick_towns(rngv, plains, self.num_towns, self.min_distance);
        let ghost towns_v = towns@;

        let mut cells: Vec<Land> = Vec::new();
        let mut y: usize = 0;
        while y < height
            invariant
                y <= height,
                slope.wf(),
                slope.width == width,
                slope.height == height,
                a == slope.altitudes.deep_view(),
                tops == slope.tops@,
                towns_v == towns@,
                w == width as int,
                h == height as int,
                w * h <= usize::MAX,
                cells@.len() == y * width,
                forall|yy: int, xx: int|
                    0 <= yy < y && 0 <= xx < width ==> #[trigger] cells@[yy * width + xx]
                        == spec_middle_cell(a, tops, towns_v, Pos { x: xx as usize, y: yy as usize }),
            decreases height - y,
        {
            let mut x: usize = 0;
            proof {
                assert(y * width + width <= height * width) by (nonlinear_arith)
                    requires
                        0 <= y < height,
                        width >= 0,
                {
                }
                assert(height * width <= usize::MAX) by (nonlinear_arith)
                    requires
                        0 <= w * h <= usize::MAX,
                        w == width as int,
                        h == height as int,
                {
                }
            }
            while x < width
                invariant
                    x <= width,
                    y < height,
                    slope.wf(),
                    slope.width == width,
                    slope.height == height,
                    a == slope.altitudes.deep_view(),
                    tops == slope.tops@,
                    towns_v == towns@,
                    w == width as int,
                    h == height as int,
                    y * width + width <= usize::MAX,
                    cells@.len() == y * width + x,
                    forall|yy: int, xx: int|
                        0 <= yy < y && 0 <= xx < width ==> #[trigger] cells@[yy * width + xx]
                            == spec_middle_cell(
                            a,
                            tops,
                            towns_v,
                            Pos { x: xx as usize, y: yy as usize },
                        ),
                    forall|xx: int|
                        0 <= xx < x ==> #[trigger] cells@[y * width + xx] == spec_middle_cell(
                            a,
                            tops,
                            towns_v,
                            Pos { x: xx as usize, y: y as usize },
                        ),
                decreases width - x,
            {
                let alt = grid_at(&slope.altitudes, width, height, x, y);
                let p = Pos { x, y };
                let kind = if crate::board::contains_pos(&slope.tops, p) {
                    LandKind::Top
                } else if crate::board::contains_pos(&towns, p) {
                    LandKind::Town
                } else {
                    Self::land_kind(alt)
                };
                let ghost cells0 = cells@;
                cells.push(Land { kind, altitude: alt });
                proof {
                    assert(cells@ == cells0.push(Land { kind, altitude: alt }));
                    assert(cells@[y * width + x] == spec_middle_cell(a, tops, towns_v, p));
                    assert forall|yy: int, xx: int| 0 <= yy < y && 0 <= xx < width implies #[trigger] cells@[yy
                        * width + xx] == spec_middle_cell(
                        a,
                        tops,
                        towns_v,
                        Pos { x: xx as usize, y: yy as usize },
                    ) by {
                        assert(yy * width + xx < y * width) by (nonlinear_arith)
                            requires
                                0 <= yy < y,
                                0 <= xx < width,
                        {
                        }
                        assert(cells@[yy * width + xx] == cells0[yy * width + xx]);
                    }
                }
                x = x + 1;
            }
            proof {
                assert((y as int + 1) * width == y as int * width + width) by (nonlinear_arith)
                {
                }
            }
            y = y + 1;
        }

        proof {
            assert(cells@.len() == width * height) by (nonlinear_arith)
                requires
                    cells@.len() == height * width,
            {
            }
        }
        let r = Board::build(width, height, cells);
        proof {
            assert forall|p: Pos| pos_in_bounds(p, w, h) implies #[trigger] cell_of(r, p)
                == spec_middle_cell(a, tops, towns_v, p) by {
                crate::board::lemma_row_major_index(w, h, p.x as int, p.y as int);
                assert(cells@[p.y as int * width + p.x as int] == spec_middle_cell(
                    a,
                    tops,
                    towns_v,
                    p,
                ));
            }
            self.lemma_board_props(r, a, tops, towns_v, plains_v);
            assert(towns_v.len() <= self.num_towns);
            assert(crate::board::town_cells_covered_by(r, towns_v));
        }
        r
    }

    /// Derives the stated board guarantees from the assembled cells.
    proof fn lemma_board_props(
        self,
        r: Board,
        a: Seq<Seq<u8>>,
        tops: Seq<Pos>,
        towns: Seq<Pos>,
        plains: Seq<Pos>,
    )
        requires
            self.wf(),
            r.spec_width() == self.width,
            r.spec_height() == self.height,
            crate::slope::grid_wf(a, self.width as int, self.height as int),
            forall|p: Pos|
                pos_in_bounds(p, self.width as int, self.height as int) ==> #[trigger] cell_of(
                    r,
                    p,
                ) == spec_middle_cell(a, tops, towns, p),
            tops.len() >= 1,
            forall|i: int|
                0 <= i < tops.len() ==> pos_in_bounds(
                    #[trigger] tops[i],
                    self.width as int,
                    self.height as int,
                ),
            crate::slope::no_hidden_peak(a, self.width as int, self.height as int, tops),
            forall|i: int| 0 <= i < towns.len() ==> plains.contains(#[trigger] towns[i]),
            crate::towns::pairwise_separated(towns, self.min_distance as int),
            forall|i: int|
                0 <= i < plains.len() ==> pos_in_bounds(
                    #[trigger] plains[i],
                    self.width as int,
                    self.height as int,
                ) && spec_middle_kind(alt_at(a, plains[i])) == LandKind::Plain,
        ensures
            forall|p: Pos|
                pos_in_bounds(p, self.width as int, self.height as int) ==> (#[trigger] cell_of(
                    r,
                    p,
                )).altitude <= 99,
            forall|p: Pos|
                pos_in_bounds(p, self.width as int, self.height as int) ==> {
                    let k = (#[trigger] cell_of(r, p)).kind;
                    ||| k == LandKind::Sea
                    ||| k == LandKind::Plain
                    ||| k == LandKind::Forest
                    ||| k == LandKind::Mountain
                    ||| k == LandKind::Top
                    ||| k == LandKind::Town
                },
            forall|p: Pos|
                pos_in_bounds(p, self.width as int, self.height as int) && (#[trigger] cell_of(
                    r,
                    p,
                )).kind == LandKind::Town ==> 11 <= cell_of(r, p).altitude <= 40,
            forall|p: Pos|
                pos_in_bounds(p, self.width as int, self.height as int) && (#[trigger] cell_of(
                    r,
                    p,
                )).kind != LandKind::Top && cell_of(r, p).kind != LandKind::Town ==> cell_of(
                    r,
                    p,
                ).kind == spec_middle_kind(cell_of(r, p).altitude),
            crate::board::town_cells_covered_by(r, towns),
            exists|p: Pos|
                pos_in_bounds(p, self.width as int, self.height as int) && (#[trigger] cell_of(
                    r,
                    p,
                )).kind == LandKind::Top,
            forall|p: Pos, q: Pos|
                pos_in_bounds(p, self.width as int, self.height as int) && pos_in_bounds(
                    q,
                    self.width as int,
                    self.height as int,
                ) && (#[trigger] cell_of(r, p)).kind == LandKind::Town && (#[trigger] cell_of(
                    r,
                    q,
                )).kind == LandKind::Town && p != q ==> spec_move_cost(p, q)
                    > self.min_distance as int,
            forall|p: Pos|
                pos_in_bounds(p, self.width as int, self.height as int) && (#[trigger] cell_of(
                    r,
                    p,
                )).kind != LandKind::Top && self.width * self.height != 1
                    ==> crate::board::board_has_ge_neighbor(r, p),
    {
        let w = self.width as int;
        let h = self.height as int;
        assert forall|p: Pos|
            pos_in_bounds(p, w, h) && (#[trigger] cell_of(r, p)).kind == LandKind::Town implies 11
            <= cell_of(r, p).altitude <= 40 by {
            assert(towns.contains(p));
            let i = choose|i: int| 0 <= i < towns.len() && towns[i] == p;
            assert(plains.contains(p));
            let j = choose|j: int| 0 <= j < plains.len() && plains[j] == p;
            assert(spec_middle_kind(alt_at(a, p)) == LandKind::Plain);
        }
        assert forall|p: Pos|
            pos_in_bounds(p, w, h) && (#[trigger] cell_of(r, p)).kind != LandKind::Top && cell_of(
                r,
                p,
            ).kind != LandKind::Town implies cell_of(r, p).kind == spec_middle_kind(
            cell_of(r, p).altitude,
        ) by {
            assert(cell_of(r, p) == spec_middle_cell(a, tops, towns, p));
            assert(!tops.contains(p) && !towns.contains(p));
        }
        assert forall|p: Pos|
            pos_in_bounds(p, w, h) && (#[trigger] cell_of(r, p)).kind == LandKind::Town
            implies towns.contains(p) by {
            assert(cell_of(r, p) == spec_middle_cell(a, tops, towns, p));
        }
        let t0 = tops[0];
        assert(cell_of(r, t0) == spec_middle_cell(a, tops, towns, t0));
        assert(tops.contains(t0));
        assert(cell_of(r, t0).kind == LandKind::Top);
        assert forall|p: Pos, q: Pos|
            pos_in_bounds(p, w, h) && pos_in_bounds(q, w, h) && (#[trigger] cell_of(r, p)).kind
                == LandKind::Town && (#[trigger] cell_of(r, q)).kind == LandKind::Town && p
                != q implies spec_move_cost(p, q) > self.min_distance as int by {
            assert(towns.contains(p) && towns.contains(q));
            let i = choose|i: int| 0 <= i < towns.len() && towns[i] == p;
            let j = choose|j: int| 0 <= j < towns.len() && towns[j] == q;
            assert(i != j);
            assert(spec_move_cost(towns[i], towns[j]) > self.min_distance as int);
        }
        assert forall|p: Pos|
            pos_in_bounds(p, w, h) && (#[trigger] cell_of(r, p)).kind != LandKind::Top && w * h
                != 1 implies crate::board::board_has_ge_neighbor(r, p) by {
            assert(!tops.contains(p));
            assert(crate::slope::has_ge_neighbor(a, w, h, p));
            let q = choose|q: Pos|
                pos_in_bounds(q, w, h) && adjacent(p, q) && #[trigger] alt_at(a, q) >= alt_at(a, p);
            assert(cell_of(r, q).altitude == alt_at(a, q));
            assert(cell_of(r, p).altitude == alt_at(a, p));
            assert(pos_in_bounds(q, r.spec_width() as int, r.spec_height() as int) && adjacent(
                p,
                q,
            ) && cell_of(r, q).altitude >= cell_of(r, p).altitude);
        }
    }
}

} // verus!
