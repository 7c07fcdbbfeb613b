//! Altitude diffusion: carves mountains by spreading decreasing altitudes
//! outward from randomly chosen top coordinates.
//!
//! The central invariants, kept by every step and stated by [`SlopeGen::gen`]:
//! every altitude stays in `0..=99`, every top keeps altitude exactly `99`,
//! and no cell is a strict local maximum unless it is a top.

use vstd::prelude::*;

use crate::board::{adjacent, lemma_member_count, lemma_push_contains, pos_in_bounds, Pos};
use crate::rng;
use crate::sums::{lemma_sum_update, sum_nats};

verus! {

/// Whether an altitude grid has `height` rows of `width` cells, all in
/// `0..=99`.
pub open spec fn grid_wf(a: Seq<Seq<u8>>, width: int, height: int) -> bool {
    &&& a.len() == height
    &&& forall|y: int| 0 <= y < height ==> (#[trigger] a[y]).len() == width
    &&& forall|y: int, x: int| 0 <= y < height && 0 <= x < width ==> #[trigger] a[y][x] <= 99
}

/// The altitude stored for position `p`.
pub open spec fn alt_at(a: Seq<Seq<u8>>, p: Pos) -> u8 {
    a[p.y as int][p.x as int]
}

/// Whether some 4-connected neighbor of `p` on a `width` by `height` grid
/// has an altitude at least that of `p`.
pub open spec fn has_ge_neighbor(a: Seq<Seq<u8>>, width: int, height: int, p: Pos) -> bool {
    exists|q: Pos|
        pos_in_bounds(q, width, height) && adjacent(p, q) && #[trigger] alt_at(a, q) >= alt_at(
            a,
            p,
        )
}

/// No cell of the grid is a strict local maximum, except the cells listed in
/// `exempt` and the single cell of a one-cell grid (which has no neighbor at
/// all).
pub open spec fn no_hidden_peak(a: Seq<Seq<u8>>, width: int, height: int, exempt: Seq<Pos>) -> bool {
    forall|p: Pos|
        pos_in_bounds(p, width, height) && !exempt.contains(p) && width * height != 1
            ==> #[trigger] has_ge_neighbor(a, width, height, p)
}

/// The sum of a sequence of rates.
pub open spec fn rates_sum(s: Seq<u8>) -> int
    decreases s.len(),
{
    if s.len() == 0 {
        0
    } else {
        rates_sum(s.drop_last()) + s.last()
    }
}

/// Whether a down rate is workable: the per-direction rates derived from it
/// are all positive (an empty random range would panic) and their arithmetic
/// stays within `u8`.
pub open spec fn down_rate_ok(down_rate: u8) -> bool {
    let low = 7 * (down_rate as int) / 10;
    low >= 1 && low + 4 * (down_rate as int - low) <= 255
}

/// How far the grid still is from holding `99` everywhere; strictly shrinks
/// whenever a cell's altitude grows, so it serves as a termination measure.
pub open spec fn cell_deficit(v: u8) -> nat {
    if v >= 99 {
        0
    } else {
        (99 - v) as nat
    }
}

/// The deficit of one row.
pub open spec fn row_deficit(row: Seq<u8>) -> nat {
    sum_nats(row.map_values(|v: u8| cell_deficit(v)))
}

/// The deficit of the whole grid.
pub open spec fn grid_deficit(a: Seq<Seq<u8>>) -> nat {
    sum_nats(a.map_values(|r: Seq<u8>| row_deficit(r)))
}

/// Raising one cell's altitude strictly lowers the grid deficit.
proof fn lemma_grid_deficit_update(a: Seq<Seq<u8>>, x: int, y: int, v: u8)
    requires
        0 <= y < a.len(),
        0 <= x < a[y].len(),
        a[y][x] < v,
        v <= 99,
    ensures
        grid_deficit(a.update(y, a[y].update(x, v))) < grid_deficit(a),
{
    let row = a[y];
    let row2 = row.update(x, v);
    assert(row2.map_values(|u: u8| cell_deficit(u)) =~= row.map_values(
        |u: u8| cell_deficit(u),
    ).update(x, cell_deficit(v)));
    lemma_sum_update(row.map_values(|u: u8| cell_deficit(u)), x, cell_deficit(v));
    assert(row_deficit(row2) < row_deficit(row));
    let a2 = a.update(y, row2);
    assert(a2.map_values(|r: Seq<u8>| row_deficit(r)) =~= a.map_values(
        |r: Seq<u8>| row_deficit(r),
    ).update(y, row_deficit(row2)));
    lemma_sum_update(a.map_values(|r: Seq<u8>| row_deficit(r)), y, row_deficit(row2));
}

/// The deep view of a grid row agrees with its shallow view.
pub(crate) proof fn lemma_grid_index(v: &Vec<Vec<u8>>, y: int)
    requires
        0 <= y < v@.len(),
    ensures
        v.deep_view().len() == v@.len(),
        v@[y]@ =~= v.deep_view()[y],
        v@[y]@.len() == v.deep_view()[y].len(),
{
}

/// Reads the altitude grid at an in-bounds position.
pub(crate) fn grid_at(a: &Vec<Vec<u8>>, width: usize, height: usize, x: usize, y: usize) -> (r: u8)
    requires
        grid_wf(a.deep_view(), width as int, height as int),
        x < width,
        y < height,
    ensures
        r == alt_at(a.deep_view(), Pos { x, y }),
{
    proof {
        assert(a@.len() == a.deep_view().len());
        lemma_grid_index(a, y as int);
    }
    a[y][x]
}

/// Writes one cell of a byte grid, leaving every other cell unchanged.
pub(crate) fn grid_set(a: &mut Vec<Vec<u8>>, x: usize, y: usize, v: u8)
    requires
        y < old(a)@.len(),
        x < old(a).deep_view()[y as int].len(),
    ensures
        final(a).deep_view() == old(a).deep_view().update(
            y as int,
            old(a).deep_view()[y as int].update(x as int, v),
        ),
        final(a)@.len() == old(a)@.len(),
{
    let ghost g0 = a.deep_view();
    proof {
        lemma_grid_index(a, y as int);
    }
    a[y][x] = v;
    proof {
        assert(a.deep_view() =~~= g0.update(y as int, g0[y as int].update(x as int, v)));
    }
}

/// Every cell of a grid with at least two cells has at least one 4-connected
/// neighbor on the grid.
proof fn lemma_neighbor_exists(width: int, height: int, p: Pos)
    requires
        1 <= width <= usize::MAX,
        1 <= height <= usize::MAX,
        width * height != 1,
        pos_in_bounds(p, width, height),
    ensures
        exists|q: Pos| pos_in_bounds(q, width, height) && #[trigger] adjacent(p, q),
{
    if width >= 2 {
        let q = if p.x + 1 < width {
            Pos { x: (p.x + 1) as usize, y: p.y }
        } else {
            Pos { x: (p.x - 1) as usize, y: p.y }
        };
        assert(pos_in_bounds(q, width, height) && adjacent(p, q));
    } else {
        assert(height >= 2) by (nonlinear_arith)
            requires
                width == 1,
                height >= 1,
                width * height != 1,
        {
        }
        let q = if p.y + 1 < height {
            Pos { x: p.x, y: (p.y + 1) as usize }
        } else {
            Pos { x: p.x, y: (p.y - 1) as usize }
        };
        assert(pos_in_bounds(q, width, height) && adjacent(p, q));
    }
}

/// One pending visit of the diffusion: the cell `(x, y)` is to be offered
/// the altitude of its already-set neighbor `(px, py)`, lowered by a random
/// delta drawn with the rate of direction `dir`.
struct Step {
    x: usize,
    y: usize,
    px: usize,
    py: usize,
    alt: u8,
    dir: usize,
}

/// What holds of every step waiting on the work stack: the cell and its
/// parent are in bounds and adjacent, and the parent's stored altitude is
/// still at least the offered one.
spec fn step_ok(s: Step, a: Seq<Seq<u8>>, width: int, height: int) -> bool {
    &&& s.x < width && s.y < height
    &&& s.px < width && s.py < height
    &&& adjacent(Pos { x: s.x, y: s.y }, Pos { x: s.px, y: s.py })
    &&& s.alt <= 99
    &&& s.dir < 4
    &&& a[s.py as int][s.px as int] >= s.alt
}

spec fn steps_ok(st: Seq<Step>, a: Seq<Seq<u8>>, width: int, height: int) -> bool {
    forall|i: int| 0 <= i < st.len() ==> step_ok(#[trigger] st[i], a, width, height)
}

/// Indices into the per-direction rate table, in the catalog order of the
/// four directions.
const DIR_ABOVE: usize = 0;

const DIR_BELOW: usize = 1;

const DIR_LEFT: usize = 2;

const DIR_RIGHT: usize = 3;

/// The altitude diffusion generator: fills `altitudes` and `tops` from a
/// random source.
pub struct SlopeGen {
    /// The altitude of every cell, indexed `[y][x]`, each in `0..=99`.
    pub altitudes: Vec<Vec<u8>>,
    /// The coordinates the diffusion originated from, each with altitude 99.
    pub tops: Vec<Pos>,
    /// The width of the grid.
    pub width: usize,
    /// The height of the grid.
    pub height: usize,
    /// The bound on the random per-step altitude decay.
    pub down_rate: u8,
    /// The number of tops aimed for, clamped to the cell count.
    pub num_tops: usize,
}

impl SlopeGen {
    /// What holds of the recorded tops: in bounds, pairwise distinct, and
    /// each stored with altitude exactly 99.
    pub open spec fn tops_wf(self) -> bool {
        &&& forall|i: int|
            0 <= i < self.tops@.len() ==> pos_in_bounds(
                #[trigger] self.tops@[i],
                self.width as int,
                self.height as int,
            )
        &&& forall|i: int|
            0 <= i < self.tops@.len() ==> alt_at(
                self.altitudes.deep_view(),
                #[trigger] self.tops@[i],
            ) == 99
        &&& forall|i: int, j: int|
            0 <= i < j < self.tops@.len() ==> #[trigger] self.tops@[i] != #[trigger] self.tops@[j]
    }

    /// The generator's invariant, established by [`SlopeGen::new`] and kept
    /// by [`SlopeGen::gen`].
    pub open spec fn wf(self) -> bool {
        &&& grid_wf(
            self.altitudes.deep_view(),
            self.width as int,
            self.height as int,
        )
        &&& self.tops_wf()
        &&& self.tops@.len() <= self.num_tops
        &&& self.num_tops <= self.width * self.height
        &&& down_rate_ok(self.down_rate)
        &&& no_hidden_peak(
            self.altitudes.deep_view(),
            self.width as int,
            self.height as int,
            self.tops@,
        )
    }

    /// Creates a generator over a zeroed `width` by `height` grid. The
    /// requested number of tops is clamped to the cell count, so the
    /// generation loop cannot ask for more tops than there are cells.
    pub fn new(width: usize, height: usize, down_rate: u8, num_tops: usize) -> (r: SlopeGen)
        requires
            down_rate_ok(down_rate),
            width * height <= usize::MAX,
        ensures
            r.wf(),
            r.width == width,
            r.height == height,
            r.down_rate == down_rate,
            r.num_tops == if num_tops <= width * height {
                num_tops
            } else {
                (width * height) as usize
            },
            r.tops@.len() == 0,
            forall|p: Pos|
                pos_in_bounds(p, width as int, height as int) ==> alt_at(
                    r.altitudes.deep_view(),
                    p,
                ) == 0,
    {
        let mut altitudes: Vec<Vec<u8>> = Vec::new();
        let mut y: usize = 0;
        while y < height
            invariant
                y <= height,
                altitudes.deep_view().len() == y,
                forall|i: int| 0 <= i < y ==> (#[trigger] altitudes.deep_view()[i]).len() == width,
                forall|i: int, j: int|
                    0 <= i < y && 0 <= j < width ==> #[trigger] altitudes.deep_view()[i][j] == 0,
            decreases height - y,
        {
            let mut row: Vec<u8> = Vec::new();
            let mut x: usize = 0;
            while x < width
                invariant
                    x <= width,
                    row@.len() == x,
                    forall|j: int| 0 <= j < x ==> #[trigger] row@[j] == 0,
                decreases width - x,
            {
                row.push(0);
                x = x + 1;
            }
            let ghost dv0 = altitudes.deep_view();
            altitudes.push(row);
            proof {
                assert(altitudes.deep_view() =~~= dv0.push(row@));
            }
            y = y + 1;
        }
        let cells = width * height;
        let clamped = if num_tops <= cells {
            num_tops
        } else {
            cells
        };
        let r = SlopeGen {
            altitudes,
            tops: Vec::new(),
            width,
            height,
            down_rate,
            num_tops: clamped,
        };
        proof {
            let a = r.altitudes.deep_view();
            let w = width as int;
            let h = height as int;
            assert forall|p: Pos| pos_in_bounds(p, w, h) && !r.tops@.contains(p) && w * h != 1
                implies #[trigger] has_ge_neighbor(a, w, h, p) by {
                assert(w >= 1 && h >= 1) by (nonlinear_arith)
                    requires
                        w * h != 1,
                        w >= 0,
                        h >= 0,
                        pos_in_bounds(p, w, h),
                {
                }
                lemma_neighbor_exists(w, h, p);
                let q = choose|q: Pos| pos_in_bounds(q, w, h) && #[trigger] adjacent(p, q);
                assert(alt_at(a, q) == 0 && alt_at(a, p) == 0);
            }
        }
        r
    }

    /// Draws the four per-direction rates: each is the deterministic floor
    /// of seven tenths of the down rate plus a random share of a noise
    /// budget, and the noise only redistributes that budget, so the four
    /// rates always sum to exactly four times the down rate.
    fn random_down_rates(&self, rngv: &mut rand::rngs::StdRng) -> (rates: Vec<u8>)
        requires
            down_rate_ok(self.down_rate),
        ensures
            rates@.len() == 4,
            forall|i: int|
                0 <= i < 4 ==> 7 * (self.down_rate as int) / 10 <= #[trigger] rates@[i],
            forall|i: int| 0 <= i < 4 ==> 1 <= #[trigger] rates@[i],
            rates_sum(rates@) == 4 * self.down_rate,
    {
        let d = self.down_rate as usize;
        let low = d * 7 / 10;
        let deg = d - low;
        assert(1 <= low && low + 4 * deg <= 255);
        assert(low == 7 * (self.down_rate as int) / 10);
        let mut rates: Vec<u8> = Vec::new();
        let mut budget = deg * 4;
        let mut k: usize = 0;
        while k < 3
            invariant
                k <= 3,
                rates@.len() == k,
                forall|i: int| 0 <= i < k ==> low <= #[trigger] rates@[i],
                rates_sum(rates@) == k * low + 4 * deg - budget,
                1 <= budget,
                1 <= low,
                low + budget <= 255,
                1 <= deg <= 255,
            decreases 3 - k,
        {
            let deg_max = if budget < deg * 2 + 1 {
                budget
            } else {
                deg * 2 + 1
            };
            let noise = rng::gen_range(rngv, 0, deg_max);
            let ghost rates0 = rates@;
            rates.push((low + noise) as u8);
            proof {
                assert(rates@.drop_last() =~= rates0);
                assert(rates_sum(rates@) == rates_sum(rates0) + low + noise);
            }
            budget = budget - noise;
            proof {
                assert((k + 1) * low == k * low + low) by (nonlinear_arith)
                {
                }
            }
            k = k + 1;
        }
        let ghost rates0 = rates@;
        rates.push((low + budget) as u8);
        proof {
            assert(rates@.drop_last() =~= rates0);
            assert(rates_sum(rates@) == rates_sum(rates0) + low + budget);
            assert(low + deg == d);
        }
        rates
    }

    /// Runs one diffusion from the origin `(ox, oy)`, which is raised to 99;
    /// each neighbor is offered the parent's altitude lowered by a random
    /// delta, and a cell already at least as high stops the spread there.
    ///
    /// Altitudes never decrease, stay within `0..=99`, and afterwards no
    /// cell outside `exempt` and the origin is a strict local maximum.
    fn slope(
        &mut self,
        rngv: &mut rand::rngs::StdRng,
        ox: usize,
        oy: usize,
        rates: &Vec<u8>,
        exempt: Ghost<Seq<Pos>>,
    )
        requires
            grid_wf(
                old(self).altitudes.deep_view(),
                old(self).width as int,
                old(self).height as int,
            ),
            ox < old(self).width,
            oy < old(self).height,
            rates@.len() == 4,
            forall|i: int| 0 <= i < 4 ==> 1 <= #[trigger] rates@[i],
            no_hidden_peak(
                old(self).altitudes.deep_view(),
                old(self).width as int,
                old(self).height as int,
                exempt@,
            ),
        ensures
            final(self).width == old(self).width,
            final(self).height == old(self).height,
            final(self).down_rate == old(self).down_rate,
            final(self).num_tops == old(self).num_tops,
            final(self).tops@ == old(self).tops@,
            grid_wf(
                final(self).altitudes.deep_view(),
                old(self).width as int,
                old(self).height as int,
            ),
            forall|p: Pos|
                pos_in_bounds(p, old(self).width as int, old(self).height as int)
                    ==> #[trigger] alt_at(final(self).altitudes.deep_view(), p) >= alt_at(
                    old(self).altitudes.deep_view(),
                    p,
                ),
            alt_at(final(self).altitudes.deep_view(), Pos { x: ox, y: oy }) == 99,
            no_hidden_peak(
                final(self).altitudes.deep_view(),
                old(self).width as int,
                old(self).height as int,
                exempt@.push(Pos { x: ox, y: oy }),
            ),
    {
        let ghost w = self.width as int;
        let ghost h = self.height as int;
        let ghost origin = Pos { x: ox, y: oy };
        let ghost g_old = self.altitudes.deep_view();

        proof {
            assert(self.altitudes@.len() == g_old.len());
            lemma_grid_index(&self.altitudes, oy as int);
        }
        self.altitudes[oy][ox] = 99;
        proof {
            assert(self.altitudes.deep_view() =~~= g_old.update(
                oy as int,
                g_old[oy as int].update(ox as int, 99u8),
            ));
            let g = self.altitudes.deep_view();
            assert forall|p: Pos|
                pos_in_bounds(p, w, h) && !exempt@.push(origin).contains(p) && w * h != 1
                implies #[trigger] has_ge_neighbor(g, w, h, p) by {
                lemma_push_contains(exempt@, origin, p);
                assert(!exempt@.contains(p) && p != origin);
                assert(has_ge_neighbor(g_old, w, h, p));
                let q = choose|q: Pos|
                    pos_in_bounds(q, w, h) && adjacent(p, q) && #[trigger] alt_at(g_old, q)
                        >= alt_at(g_old, p);
                assert(alt_at(g, q) >= alt_at(g_old, q));
                assert(alt_at(g, p) == alt_at(g_old, p));
            }
        }

        let mut stack: Vec<Step> = Vec::new();
        if oy + 1 < self.height {
            stack.push(Step { x: ox, y: oy + 1, px: ox, py: oy, alt: 99, dir: DIR_BELOW });
        }
        if oy > 0 {
            stack.push(Step { x: ox, y: oy - 1, px: ox, py: oy, alt: 99, dir: DIR_ABOVE });
        }
        if ox + 1 < self.width {
            stack.push(Step { x: ox + 1, y: oy, px: ox, py: oy, alt: 99, dir: DIR_RIGHT });
        }
        if ox > 0 {
            stack.push(Step { x: ox - 1, y: oy, px: ox, py: oy, alt: 99, dir: DIR_LEFT });
        }

        while stack.len() > 0
            invariant
                self.width == old(self).width,
                self.height == old(self).height,
                self.down_rate == old(self).down_rate,
                self.num_tops == old(self).num_tops,
                self.tops@ == old(self).tops@,
                w == self.width as int,
                h == self.height as int,
                origin == (Pos { x: ox, y: oy }),
                ox < self.width,
                oy < self.height,
                rates@.len() == 4,
                forall|i: int| 0 <= i < 4 ==> 1 <= #[trigger] rates@[i],
                grid_wf(self.altitudes.deep_view(), w, h),
                forall|p: Pos|
                    pos_in_bounds(p, w, h) ==> #[trigger] alt_at(self.altitudes.deep_view(), p)
                        >= alt_at(g_old, p),
                g_old == old(self).altitudes.deep_view(),
                alt_at(self.altitudes.deep_view(), origin) == 99,
                steps_ok(stack@, self.altitudes.deep_view(), w, h),
                no_hidden_peak(self.altitudes.deep_view(), w, h, exempt@.push(origin)),
            decreases grid_deficit(self.altitudes.deep_view()), stack.len(),
        {
            let ghost g0 = self.altitudes.deep_view();
            let ghost stack0 = stack@;
            let step = stack.pop().unwrap();
            proof {
                assert(stack0[stack0.len() - 1] == step);
                assert(step_ok(step, g0, w, h));
            }
            let rate = rates[step.dir];
            let delta_big = rng::gen_range(rngv, 0, rate as usize);
            let delta = delta_big as u8;
            let cand = if delta > step.alt {
                0
            } else {
                step.alt - delta
            };
            proof {
                assert(self.altitudes@.len() == g0.len());
                lemma_grid_index(&self.altitudes, step.y as int);
            }
            let cur = self.altitudes[step.y][step.x];
            if cur < cand {
                self.altitudes[step.y][step.x] = cand;
                proof {
                    assert(self.altitudes.deep_view() =~~= g0.update(
                        step.y as int,
                        g0[step.y as int].update(step.x as int, cand),
                    ));
                    lemma_grid_deficit_update(g0, step.x as int, step.y as int, cand);
                    let g = self.altitudes.deep_view();
                    let c = Pos { x: step.x, y: step.y };
                    let par = Pos { x: step.px, y: step.py };
                    assert(forall|p: Pos|
                        pos_in_bounds(p, w, h) ==> #[trigger] alt_at(g, p) >= alt_at(g0, p));
                    assert(alt_at(g, par) >= cand);
                    assert forall|i: int| 0 <= i < stack@.len() implies step_ok(
                        #[trigger] stack@[i],
                        g,
                        w,
                        h,
                    ) by {
                        assert(stack@[i] == stack0[i]);
                        assert(step_ok(stack@[i], g0, w, h));
                        let pp = Pos { x: stack@[i].px, y: stack@[i].py };
                        assert(alt_at(g, pp) >= alt_at(g0, pp));
                    }
                    assert forall|p: Pos|
                        pos_in_bounds(p, w, h) && !exempt@.push(origin).contains(p) && w * h != 1
                        implies #[trigger] has_ge_neighbor(g, w, h, p) by {
                        lemma_push_contains(exempt@, origin, p);
                        if p == c {
                            assert(pos_in_bounds(par, w, h) && adjacent(p, par));
                            assert(alt_at(g, par) >= alt_at(g, p));
                        } else {
                            assert(has_ge_neighbor(g0, w, h, p));
                            let q = choose|q: Pos|
                                pos_in_bounds(q, w, h) && adjacent(p, q) && #[trigger] alt_at(
                                    g0,
                                    q,
                                ) >= alt_at(g0, p);
                            assert(alt_at(g, q) >= alt_at(g0, q));
                            assert(alt_at(g, p) == alt_at(g0, p));
                        }
                    }
                    assert(alt_at(g, origin) == 99);
                }
                if cand > 0 {
                    let x = step.x;
                    let y = step.y;
                    if y + 1 < self.height {
                        stack.push(Step { x, y: y + 1, px: x, py: y, alt: cand, dir: DIR_BELOW });
                    }
                    if y > 0 {
                        stack.push(Step { x, y: y - 1, px: x, py: y, alt: cand, dir: DIR_ABOVE });
                    }
                    if x + 1 < self.width {
                        stack.push(Step { x: x + 1, y, px: x, py: y, alt: cand, dir: DIR_RIGHT });
                    }
                    if x > 0 {
                        stack.push(Step { x: x - 1, y, px: x, py: y, alt: cand, dir: DIR_LEFT });
                    }
                }
            }
        }
    }

    /// Diffuses one mountain from `(x, y)` and then records that origin as
    /// a top, unless it is one already (a duplicate does not grow the set).
    fn place_top(&mut self, rngv: &mut rand::rngs::StdRng, x: usize, y: usize)
        requires
            old(self).wf(),
            x < old(self).width,
            y < old(self).height,
            old(self).tops@.len() < old(self).num_tops,
        ensures
            final(self).wf(),
            final(self).width == old(self).width,
            final(self).height == old(self).height,
            final(self).down_rate == old(self).down_rate,
            final(self).num_tops == old(self).num_tops,
            final(self).tops@ == if old(self).tops@.contains(Pos { x, y }) {
                old(self).tops@
            } else {
                old(self).tops@.push(Pos { x, y })
            },
    {
        let ghost w = self.width as int;
        let ghost h = self.height as int;
        let rates = self.random_down_rates(rngv);
        let ghost tops0 = self.tops@;
        let ghost g_before = self.altitudes.deep_view();
        self.slope(rngv, x, y, &rates, Ghost(self.tops@));
        let ghost g_after = self.altitudes.deep_view();
        let origin = Pos { x, y };
        proof {
            assert forall|i: int| 0 <= i < tops0.len() implies alt_at(
                g_after,
                #[trigger] tops0[i],
            ) == 99 by {
                assert(alt_at(g_after, tops0[i]) >= alt_at(g_before, tops0[i]));
                assert(alt_at(g_after, tops0[i]) <= 99);
            }
        }
        if !crate::board::contains_pos(&self.tops, origin) {
            self.tops.push(origin);
            proof {
                assert(self.tops@ =~= tops0.push(origin));
                assert forall|i: int, j: int| 0 <= i < j < self.tops@.len()
                    implies #[trigger] self.tops@[i] != #[trigger] self.tops@[j] by {
                    if j == self.tops@.len() - 1 {
                        if tops0[i] == origin {
                            assert(tops0.contains(origin));
                        }
                    }
                }
            }
        } else {
            proof {
                let g = self.altitudes.deep_view();
                assert forall|p: Pos|
                    pos_in_bounds(p, w, h) && !self.tops@.contains(p) && w * h != 1
                    implies #[trigger] has_ge_neighbor(g, w, h, p) by {
                    lemma_push_contains(tops0, origin, p);
                    assert(p != origin);
                    assert(!tops0.push(origin).contains(p));
                }
            }
        }
    }

    /// Draws random coordinates and diffuses a mountain from each until the
    /// requested number of distinct tops has been reached (a duplicate draw
    /// does not grow the set and is simply drawn over). Should the
    /// practically inexhaustible retry budget ever run out, the remaining
    /// tops are taken from a row-major sweep of the grid, so the requested
    /// count is always reached exactly.
    ///
    /// Afterwards the top set has exactly the clamped requested size, every
    /// altitude is in `0..=99`, every top has altitude exactly 99, and no
    /// other cell is a strict local maximum (on grids with at least two
    /// cells).
    pub fn gen(&mut self, rngv: &mut rand::rngs::StdRng)
        requires
            old(self).wf(),
        ensures
            final(self).wf(),
            final(self).width == old(self).width,
            final(self).height == old(self).height,
            final(self).num_tops == old(self).num_tops,
            final(self).tops@.len() == final(self).num_tops,
    {
        let ghost w = self.width as int;
        let ghost h = self.height as int;
        let mut fuel: usize = usize::MAX;
        while self.tops.len() < self.num_tops && fuel > 0
            invariant
                self.width == old(self).width,
                self.height == old(self).height,
                self.down_rate == old(self).down_rate,
                self.num_tops == old(self).num_tops,
                w == self.width as int,
                h == self.height as int,
                self.wf(),
            decreases fuel,
        {
            fuel = fuel - 1;
            proof {
                assert(self.width >= 1 && self.height >= 1) by (nonlinear_arith)
                    requires
                        self.tops@.len() < self.num_tops,
                        self.num_tops <= self.width * self.height,
                {
                }
            }
            let x = rng::gen_range(rngv, 0, self.width);
            let y = rng::gen_range(rngv, 0, self.height);
            self.place_top(rngv, x, y);
        }
        if self.tops.len() < self.num_tops {
            let width = self.width;
            let height = self.height;
            let ghost mut visited = Seq::<Pos>::empty();
            let mut y: usize = 0;
            while y < height
                invariant
                    self.width == old(self).width,
                    self.height == old(self).height,
                    self.down_rate == old(self).down_rate,
                    self.num_tops == old(self).num_tops,
                    width == self.width,
                    height == self.height,
                    w == self.width as int,
                    h == self.height as int,
                    self.wf(),
                    y <= height,
                    visited.len() == y * width,
                    forall|i: int|
                        0 <= i < visited.len() ==> (#[trigger] visited[i]).y < y && visited[i].x
                            < width,
                    forall|i: int, j: int|
                        0 <= i < j < visited.len() ==> #[trigger] visited[i]
                            != #[trigger] visited[j],
                    self.tops@.len() == self.num_tops || forall|i: int|
                        0 <= i < visited.len() ==> self.tops@.contains(#[trigger] visited[i]),
                decreases height - y,
            {
                let mut x: usize = 0;
                while x < width
                    invariant
                        self.width == old(self).width,
                        self.height == old(self).height,
                        self.down_rate == old(self).down_rate,
                        self.num_tops == old(self).num_tops,
                        width == self.width,
                        height == self.height,
                        w == self.width as int,
                        h == self.height as int,
                        self.wf(),
                        y < height,
                        x <= width,
                        visited.len() == y * width + x,
                        forall|i: int|
                            0 <= i < visited.len() ==> ((#[trigger] visited[i]).y < y || (
                            visited[i].y == y && visited[i].x < x)) && visited[i].x < width,
                        forall|i: int, j: int|
                            0 <= i < j < visited.len() ==> #[trigger] visited[i]
                                != #[trigger] visited[j],
                        self.tops@.len() == self.num_tops || forall|i: int|
                            0 <= i < visited.len() ==> self.tops@.contains(#[trigger] visited[i]),
                    decreases width - x,
                {
                    let p = Pos { x, y };
                    let ghost tops0 = self.tops@;
                    if self.tops.len() < self.num_tops {
                        self.place_top(rngv, x, y);
                    }
                    proof {
                        if self.tops@.len() != self.num_tops {
                            assert(tops0.len() < self.num_tops);
                            lemma_push_contains(tops0, p, p);
                            assert(self.tops@.contains(p));
                            assert forall|i: int| 0 <= i < visited.len() implies self.tops@.contains(
                                #[trigger] visited[i],
                            ) by {
                                assert(tops0.contains(visited[i]));
                                lemma_push_contains(tops0, p, visited[i]);
                            }
                        }
                        visited = visited.push(p);
                    }
                    x = x + 1;
                }
                proof {
                    assert((y as int + 1) * width == y as int * width + width) by (nonlinear_arith)
                    {
                    }
                }
                y = y + 1;
            }
            proof {
                if self.tops@.len() < self.num_tops {
                    lemma_member_count(self.tops@, visited);
                    assert(visited.len() == height * width);
                    assert(height * width == width * height) by (nonlinear_arith)
                    {
                    }
                    assert(false);
                }
            }
        }
    }
}

} // verus!
