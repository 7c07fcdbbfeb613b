//! The high-resolution board generator: altitude diffusion, terrain-fitness
//! based town placement, and minimum-cost paths connecting nearby towns.

use vstd::multiset::Multiset;
use vstd::prelude::*;

use crate::board::{adjacent, cell_of, pos_in_bounds, spec_move_cost, Board, Pos};
use crate::land::{Land, LandKind};
use crate::rng;
use crate::slope::{alt_at, grid_at, grid_set, grid_wf, SlopeGen};
use crate::towns::pick_towns;

verus! {

/// The altitude band classification of the high resolution.
pub open spec fn spec_large_kind(alt: u8) -> LandKind {
    if alt <= 40 {
        LandKind::DeepSea
    } else if alt <= 55 {
        LandKind::Sea
    } else if alt <= 70 {
        LandKind::Plain
    } else if alt <= 80 {
        LandKind::Forest
    } else if alt <= 90 {
        LandKind::Mountain
    } else {
        LandKind::Highland
    }
}

/// The settlement fitness of each terrain band; only the six high-resolution
/// terrain kinds occur.
pub open spec fn spec_land_fitness(kind: LandKind) -> u8 {
    match kind {
        LandKind::DeepSea => 0,
        LandKind::Sea => 16,
        LandKind::Plain => 8,
        LandKind::Forest => 4,
        LandKind::Mountain => 2,
        LandKind::Highland => 1,
        _ => 0,
    }
}

/// The cost of stepping onto a cell of each terrain band; only the six
/// high-resolution terrain kinds occur.
pub open spec fn spec_land_cost(kind: LandKind) -> u64 {
    match kind {
        LandKind::DeepSea => 64,
        LandKind::Sea => 32,
        LandKind::Plain => 1,
        LandKind::Forest => 4,
        LandKind::Mountain => 8,
        LandKind::Highland => 16,
        _ => 1,
    }
}

/// The cell the high resolution assembles for position `p`: a top wins
/// over a town, a town over a path cell, a path cell over the altitude
/// band, and the altitude is always the diffused one.
pub open spec fn spec_large_cell(
    a: Seq<Seq<u8>>,
    tops: Seq<Pos>,
    towns: Seq<Pos>,
    paths: Seq<Pos>,
    p: Pos,
) -> Land {
    Land {
        kind: if tops.contains(p) {
            LandKind::Top
        } else if towns.contains(p) {
            LandKind::Town
        } else if paths.contains(p) {
            LandKind::Path
        } else {
            spec_large_kind(alt_at(a, p))
        },
        altitude: alt_at(a, p),
    }
}

/// One in-place box-average update: the interior cell `(x, y)` becomes the
/// floor of the mean of the 3 by 3 block around it, read from the current
/// state of the field (earlier updates of the same pass are already seen).
pub open spec fn blur_at(f: Seq<Seq<u8>>, x: int, y: int) -> Seq<Seq<u8>> {
    let sum = f[y - 1][x - 1] + f[y - 1][x] + f[y - 1][x + 1] + f[y][x - 1] + f[y][x] + f[y][x
        + 1] + f[y + 1][x - 1] + f[y + 1][x] + f[y + 1][x + 1];
    f.update(y, f[y].update(x, (sum / 9) as u8))
}

/// One smoothing pass over row `y`, applied from column `x` rightwards.
pub open spec fn blur_row(f: Seq<Seq<u8>>, width: int, y: int, x: int) -> Seq<Seq<u8>>
    decreases width - x,
{
    if x >= width - 1 {
        f
    } else {
        blur_row(blur_at(f, x, y), width, y, x + 1)
    }
}

/// One smoothing pass over the interior, applied from row `y` downwards.
pub open spec fn blur_rows(f: Seq<Seq<u8>>, width: int, height: int, y: int) -> Seq<Seq<u8>>
    decreases height - y,
{
    if y >= height - 1 {
        f
    } else {
        blur_rows(blur_row(f, width, y, 1), width, height, y + 1)
    }
}

/// `n` full smoothing passes.
pub open spec fn blur_times(f: Seq<Seq<u8>>, width: int, height: int, n: int) -> Seq<Seq<u8>>
    decreases n,
{
    if n <= 0 {
        f
    } else {
        blur_times(blur_rows(f, width, height, 1), width, height, n - 1)
    }
}

/// The fitness field after masking: zero on the border ring and on every
/// cell whose terrain band is not plain, unchanged elsewhere.
pub open spec fn masked_fitness(f: Seq<Seq<u8>>, a: Seq<Seq<u8>>, width: int, height: int) -> Seq<
    Seq<u8>,
> {
    Seq::new(
        f.len(),
        |y: int|
            Seq::new(
                f[y].len(),
                |x: int|
                    if y == 0 || x == 0 || y == height - 1 || x == width - 1 || spec_large_kind(
                        alt_at(a, Pos { x: x as usize, y: y as usize }),
                    ) != LandKind::Plain {
                        0
                    } else {
                        f[y][x]
                    },
            ),
    )
}

/// The per-cell fitness of the terrain bands of `a`.
pub open spec fn initial_fitness(a: Seq<Seq<u8>>, width: int, height: int) -> Seq<Seq<u8>> {
    Seq::new(
        height as nat,
        |y: int|
            Seq::new(
                width as nat,
                |x: int|
                    spec_land_fitness(
                        spec_large_kind(alt_at(a, Pos { x: x as usize, y: y as usize })),
                    ),
            ),
    )
}

/// The whole deterministic fitness pipeline over the altitudes: band
/// fitness, three smoothings, masking to interior plain cells, and three
/// more smoothings.
pub open spec fn fitness_field(a: Seq<Seq<u8>>, width: int, height: int) -> Seq<Seq<u8>> {
    blur_times(
        masked_fitness(
            blur_times(initial_fitness(a, width, height), width, height, 3),
            a,
            width,
            height,
        ),
        width,
        height,
        3,
    )
}

/// The largest value of one row.
pub open spec fn row_max(row: Seq<u8>) -> u8
    decreases row.len(),
{
    if row.len() == 0 {
        0
    } else if row_max(row.drop_last()) >= row.last() {
        row_max(row.drop_last())
    } else {
        row.last()
    }
}

/// The largest value of the grid, or zero on an empty grid.
pub open spec fn grid_max(f: Seq<Seq<u8>>) -> u8
    decreases f.len(),
{
    if f.len() == 0 {
        0
    } else if grid_max(f.drop_last()) >= row_max(f.last()) {
        grid_max(f.drop_last())
    } else {
        row_max(f.last())
    }
}

/// The candidate acceptance threshold: ninety percent (rounded down) of the
/// best fitness anywhere on the field.
pub open spec fn fitness_threshold(a: Seq<Seq<u8>>, width: int, height: int) -> int {
    grid_max(fitness_field(a, width, height)) * 9 / 10
}

/// Every row value is bounded by the row maximum, which is zero or attained.
proof fn lemma_row_max(row: Seq<u8>)
    ensures
        forall|i: int| 0 <= i < row.len() ==> #[trigger] row[i] <= row_max(row),
        row_max(row) == 0 || exists|i: int|
            0 <= i < row.len() && #[trigger] row[i] == row_max(row),
    decreases row.len(),
{
    if row.len() > 0 {
        lemma_row_max(row.drop_last());
        assert forall|i: int| 0 <= i < row.len() implies #[trigger] row[i] <= row_max(row) by {
            if i < row.len() - 1 {
                assert(row.drop_last()[i] == row[i]);
            }
        }
        if row_max(row) != 0 {
            if row_max(row.drop_last()) >= row.last() {
                let i = choose|i: int|
                    0 <= i < row.drop_last().len() && #[trigger] row.drop_last()[i] == row_max(
                        row.drop_last(),
                    );
                assert(row[i] == row_max(row));
            } else {
                assert(row[row.len() - 1] == row_max(row));
            }
        }
    }
}

/// Every grid value is bounded by the grid maximum, which is zero or
/// attained at some cell.
proof fn lemma_grid_max(f: Seq<Seq<u8>>)
    ensures
        forall|y: int, x: int|
            0 <= y < f.len() && 0 <= x < f[y].len() ==> #[trigger] f[y][x] <= grid_max(f),
        grid_max(f) == 0 || exists|y: int, x: int|
            0 <= y < f.len() && 0 <= x < f[y].len() && #[trigger] f[y][x] == grid_max(f),
    decreases f.len(),
{
    if f.len() > 0 {
        lemma_grid_max(f.drop_last());
        lemma_row_max(f.last());
        assert forall|y: int, x: int|
            0 <= y < f.len() && 0 <= x < f[y].len() implies #[trigger] f[y][x] <= grid_max(f) by {
            if y < f.len() - 1 {
                assert(f.drop_last()[y] == f[y]);
                assert(f[y][x] <= grid_max(f.drop_last()));
            } else {
                assert(f[y][x] <= row_max(f.last()));
            }
        }
        if grid_max(f) != 0 {
            if grid_max(f.drop_last()) >= row_max(f.last()) {
                let (y, x) = choose|y: int, x: int|
                    0 <= y < f.drop_last().len() && 0 <= x < f.drop_last()[y].len()
                        && #[trigger] f.drop_last()[y][x] == grid_max(f.drop_last());
                assert(f.drop_last()[y] == f[y]);
                assert(f[y][x] == grid_max(f));
            } else {
                let x = choose|x: int|
                    0 <= x < f.last().len() && #[trigger] f.last()[x] == row_max(f.last());
                assert(f[f.len() - 1][x] == grid_max(f));
            }
        }
    }
}

/// Whether a fitness grid is `width` by `height` with every value at most
/// 16, the largest fitness the table assigns (box averages never exceed the
/// largest input, so smoothing keeps this bound).
pub open spec fn fit_wf(a: Seq<Seq<u8>>, width: int, height: int) -> bool {
    &&& a.len() == height
    &&& forall|y: int| 0 <= y < height ==> (#[trigger] a[y]).len() == width
    &&& forall|y: int, x: int| 0 <= y < height && 0 <= x < width ==> #[trigger] a[y][x] <= 16
}

/// Whether `p` lies on the border ring of a `width` by `height` grid.
pub open spec fn on_border(p: Pos, width: int, height: int) -> bool {
    p.x == 0 || p.y == 0 || p.x == width - 1 || p.y == height - 1
}

/// The board sizes the high resolution can handle: the size arithmetic must
/// fit the machine word.
pub open spec fn large_params_ok(width: int, height: int) -> bool {
    &&& 1 <= width
    &&& 1 <= height
    &&& width * height <= usize::MAX
    &&& width + height <= usize::MAX
}

/// What every generated high-resolution board satisfies: altitudes at most
/// 99, only the nine high-resolution kinds, every cell that is neither a
/// top nor a town nor a path cell classified exactly by its altitude band,
/// at least one top cell on boards of at least 2048 cells, and no strict
/// local altitude maximum besides tops (on boards with at least two cells).
pub open spec fn large_board_ok(b: Board) -> bool {
    &&& forall|p: Pos|
        pos_in_bounds(p, b.spec_width() as int, b.spec_height() as int) ==> (#[trigger] cell_of(
            b,
            p,
        )).altitude <= 99
    &&& forall|p: Pos|
        pos_in_bounds(p, b.spec_width() as int, b.spec_height() as int) ==> {
            let k = (#[trigger] cell_of(b, p)).kind;
            ||| k == LandKind::DeepSea
            ||| k == LandKind::Sea
            ||| k == LandKind::Plain
            ||| k == LandKind::Forest
            ||| k == LandKind::Mountain
            ||| k == LandKind::Highland
            ||| k == LandKind::Top
            ||| k == LandKind::Town
            ||| k == LandKind::Path
        }
    &&& forall|p: Pos|
        pos_in_bounds(p, b.spec_width() as int, b.spec_height() as int) && (#[trigger] cell_of(
            b,
            p,
        )).kind != LandKind::Top && cell_of(b, p).kind != LandKind::Town && cell_of(b, p).kind
            != LandKind::Path ==> cell_of(b, p).kind == spec_large_kind(cell_of(b, p).altitude)
    &&& (b.spec_width() * b.spec_height() >= 2048 ==> exists|p: Pos|
        pos_in_bounds(p, b.spec_width() as int, b.spec_height() as int) && (#[trigger] cell_of(
            b,
            p,
        )).kind == LandKind::Top)
    &&& forall|p: Pos|
        pos_in_bounds(p, b.spec_width() as int, b.spec_height() as int) && (#[trigger] cell_of(
            b,
            p,
        )).kind != LandKind::Top && b.spec_width() * b.spec_height() != 1
            ==> crate::board::board_has_ge_neighbor(b, p)
}

/// The high-resolution generator: its parameters are drawn once from the
/// random source and the board size.
pub struct LargeBoardGen {
    /// The width of the generated board.
    pub width: usize,
    /// The height of the generated board.
    pub height: usize,
    /// How many towns placement aims for.
    pub max_towns: usize,
    /// How many mountain tops the diffusion aims for.
    pub num_tops: usize,
    /// The minimum move cost any two towns must exceed.
    pub town_min_cost: usize,
    /// The largest move cost over which two towns are still connected.
    pub conn_max_cost: usize,
    /// The per-step altitude decay bound handed to the diffusion; smaller
    /// than in the middle resolution, for larger maps.
    pub down_rate: u8,
}

impl LargeBoardGen {
    /// The generator's invariant, established by [`LargeBoardGen::new`].
    pub open spec fn wf(self) -> bool {
        &&& large_params_ok(self.width as int, self.height as int)
        &&& self.down_rate == 6
        &&& 10 <= self.max_towns <= 15
        &&& self.num_tops >= (self.width * self.height) as int / 2048
    }

    /// Draws the generation parameters for a `width` by `height` board: a
    /// town count between 10 and 15, a top count growing with the board
    /// area, and connection bounds derived from the average side length.
    pub fn new(rngv: &mut rand::rngs::StdRng, width: usize, height: usize) -> (r: LargeBoardGen)
        requires
            large_params_ok(width as int, height as int),
        ensures
            r.wf(),
            r.width == width,
            r.height == height,
            (width * height) as int / 2048 <= r.num_tops <= (width * height) as int / 2048 + 3,
            r.town_min_cost == ((width + height) as int / 2) / r.max_towns as int,
            r.conn_max_cost == ((width + height) as int / 2) / 2,
    {
        let max_towns = rng::gen_range(rngv, 10, 16);
        let area = width * height;
        proof {
            assert(area / 2048 <= usize::MAX / 2048) by (nonlinear_arith)
                requires
                    0 <= area <= usize::MAX,
            {
            }
        }
        let num_tops = area / 2048 + rng::gen_range(rngv, 0, 4);
        let average_len = (width + height) / 2;
        let town_min_cost = average_len / max_towns;
        let conn_max_cost = average_len / 2;
        let down_rate: u8 = 6;
        LargeBoardGen {
            width,
            height,
            max_towns,
            num_tops,
            town_min_cost,
            conn_max_cost,
            down_rate,
        }
    }

    /// The terrain kind of the high resolution for one altitude.
    fn land_kind(altitude: u8) -> (r: LandKind)
        requires
            altitude <= 99,
        ensures
            r == spec_large_kind(altitude),
    {
        if altitude <= 40 {
            LandKind::DeepSea
        } else if altitude <= 55 {
            LandKind::Sea
        } else if altitude <= 70 {
            LandKind::Plain
        } else if altitude <= 80 {
            LandKind::Forest
        } else if altitude <= 90 {
            LandKind::Mountain
        } else {
            LandKind::Highland
        }
    }

    /// The settlement fitness of the terrain at one altitude.
    fn land_fitness(altitude: u8) -> (r: u8)
        requires
            altitude <= 99,
        ensures
            r == spec_land_fitness(spec_large_kind(altitude)),
            r <= 16,
    {
        match Self::land_kind(altitude) {
            LandKind::DeepSea => 0,
            LandKind::Sea => 16,
            LandKind::Plain => 8,
            LandKind::Forest => 4,
            LandKind::Mountain => 2,
            LandKind::Highland => 1,
            _ => 0,
        }
    }

    /// Smooths the fitness field three times with an in-place 3 by 3 box
    /// average over the interior; the border ring is never written, and the
    /// result is exactly three applications of the specified pass.
    fn convo_3times(fitness: &mut Vec<Vec<u8>>, width: usize, height: usize)
        requires
            fit_wf(old(fitness).deep_view(), width as int, height as int),
            1 <= width,
            1 <= height,
        ensures
            fit_wf(final(fitness).deep_view(), width as int, height as int),
            final(fitness).deep_view() == blur_times(
                old(fitness).deep_view(),
                width as int,
                height as int,
                3,
            ),
            forall|p: Pos|
                pos_in_bounds(p, width as int, height as int) && on_border(
                    p,
                    width as int,
                    height as int,
                ) ==> #[trigger] alt_at(final(fitness).deep_view(), p) == alt_at(
                    old(fitness).deep_view(),
                    p,
                ),
    {
        let ghost w = width as int;
        let ghost h = height as int;
        let ghost orig = fitness.deep_view();
        let mut round: usize = 0;
        while round < 3
            invariant
                round <= 3,
                fit_wf(fitness.deep_view(), w, h),
                w == width as int,
                h == height as int,
                1 <= width,
                1 <= height,
                orig == old(fitness).deep_view(),
                blur_times(fitness.deep_view(), w, h, 3 - round) == blur_times(orig, w, h, 3),
                forall|p: Pos|
                    pos_in_bounds(p, w, h) && on_border(p, w, h) ==> #[trigger] alt_at(
                        fitness.deep_view(),
                        p,
                    ) == alt_at(orig, p),
            decreases 3 - round,
        {
            let ghost pass_start = fitness.deep_view();
            let mut y: usize = 1;
            while y < height - 1
                invariant
                    1 <= y,
                    fit_wf(fitness.deep_view(), w, h),
                    w == width as int,
                    h == height as int,
                    1 <= width,
                    1 <= height,
                    orig == old(fitness).deep_view(),
                    blur_rows(fitness.deep_view(), w, h, y as int) == blur_rows(pass_start, w, h, 1),
                    forall|p: Pos|
                        pos_in_bounds(p, w, h) && on_border(p, w, h) ==> #[trigger] alt_at(
                            fitness.deep_view(),
                            p,
                        ) == alt_at(orig, p),
                decreases height - y,
            {
                let ghost row_start = fitness.deep_view();
                let mut x: usize = 1;
                while x < width - 1
                    invariant
                        1 <= x,
                        1 <= y,
                        y < height - 1,
                        fit_wf(fitness.deep_view(), w, h),
                        w == width as int,
                        h == height as int,
                        1 <= width,
                        1 <= height,
                        orig == old(fitness).deep_view(),
                        blur_row(fitness.deep_view(), w, y as int, x as int) == blur_row(
                            row_start,
                            w,
                            y as int,
                            1,
                        ),
                        forall|p: Pos|
                            pos_in_bounds(p, w, h) && on_border(p, w, h) ==> #[trigger] alt_at(
                                fitness.deep_view(),
                                p,
                            ) == alt_at(orig, p),
                    decreases width - x,
                {
                    let v00 = grid_at(fitness, width, height, x - 1, y - 1);
                    let v01 = grid_at(fitness, width, height, x, y - 1);
                    let v02 = grid_at(fitness, width, height, x + 1, y - 1);
                    let v10 = grid_at(fitness, width, height, x - 1, y);
                    let v11 = grid_at(fitness, width, height, x, y);
                    let v12 = grid_at(fitness, width, height, x + 1, y);
                    let v20 = grid_at(fitness, width, height, x - 1, y + 1);
                    let v21 = grid_at(fitness, width, height, x, y + 1);
                    let v22 = grid_at(fitness, width, height, x + 1, y + 1);
                    let sum = v00 as usize + v01 as usize + v02 as usize + v10 as usize
                        + v11 as usize + v12 as usize + v20 as usize + v21 as usize + v22 as usize;
                    let avg = (sum / 9) as u8;
                    let ghost g0 = fitness.deep_view();
                    grid_set(fitness, x, y, avg);
                    proof {
                        let g = fitness.deep_view();
                        let c = Pos { x, y };
                        assert(avg <= 16);
                        assert(g =~~= blur_at(g0, x as int, y as int));
                        assert(blur_row(g, w, y as int, x as int + 1) == blur_row(
                            row_start,
                            w,
                            y as int,
                            1,
                        ));
                        assert forall|p: Pos|
                            pos_in_bounds(p, w, h) && on_border(p, w, h) implies #[trigger] alt_at(
                            g,
                            p,
                        ) == alt_at(orig, p) by {
                            assert(p != c);
                            assert(alt_at(g, p) == alt_at(g0, p));
                        }
                    }
                    x = x + 1;
                }
                proof {
                    assert(blur_row(fitness.deep_view(), w, y as int, x as int)
                        == fitness.deep_view());
                }
                y = y + 1;
            }
            proof {
                assert(blur_rows(fitness.deep_view(), w, h, y as int) == fitness.deep_view());
                assert(fitness.deep_view() == blur_rows(pass_start, w, h, 1));
                assert(blur_times(pass_start, w, h, 3 - round) == blur_times(
                    fitness.deep_view(),
                    w,
                    h,
                    3 - round - 1,
                ));
            }
            round = round + 1;
        }
    }

    /// Chooses the town coordinates: terrain fitness is smoothed, masked to
    /// plain cells away from the border, smoothed again, and every interior
    /// cell within ninety percent of the best fitness becomes a candidate;
    /// candidates are then shuffled and greedily thinned to towns farther
    /// than `town_min_cost` apart. Every returned town sits on an interior
    /// cell whose value in the deterministic fitness field reaches the
    /// ninety-percent threshold.
    pub fn towns(&self, rngv: &mut rand::rngs::StdRng, altitudes: &Vec<Vec<u8>>) -> (towns: Vec<
        Pos,
    >)
        requires
            self.wf(),
            grid_wf(altitudes.deep_view(), self.width as int, self.height as int),
        ensures
            forall|i: int|
                0 <= i < towns@.len() ==> pos_in_bounds(
                    #[trigger] towns@[i],
                    self.width as int,
                    self.height as int,
                ) && !on_border(towns@[i], self.width as int, self.height as int),
            crate::towns::pairwise_separated(towns@, self.town_min_cost as int),
            towns@.len() <= self.max_towns,
            self.width >= 3 && self.height >= 3 ==> towns@.len() >= 1,
            forall|i: int|
                0 <= i < towns@.len() ==> alt_at(
                    fitness_field(altitudes.deep_view(), self.width as int, self.height as int),
                    #[trigger] towns@[i],
                ) >= fitness_threshold(
                    altitudes.deep_view(),
                    self.width as int,
                    self.height as int,
                ),
    {
        let width = self.width;
        let height = self.height;
        let ghost w = width as int;
        let ghost h = height as int;
        let ghost a = altitudes.deep_view();

        // Initialize fitness from the terrain bands.
        let mut fitness: Vec<Vec<u8>> = Vec::new();
        let mut y: usize = 0;
        while y < height
            invariant
                y <= height,
                w == width as int,
                h == height as int,
                grid_wf(a, w, h),
                a == altitudes.deep_view(),
                fitness.deep_view().len() == y,
                forall|i: int| 0 <= i < y ==> (#[trigger] fitness.deep_view()[i]).len() == width,
                forall|i: int, j: int|
                    0 <= i < y && 0 <= j < width ==> #[trigger] fitness.deep_view()[i][j] <= 16,
                forall|i: int, j: int|
                    0 <= i < y && 0 <= j < width ==> #[trigger] fitness.deep_view()[i][j]
                        == spec_land_fitness(
                        spec_large_kind(alt_at(a, Pos { x: j as usize, y: i as usize })),
                    ),
            decreases height - y,
        {
            let mut row: Vec<u8> = Vec::new();
            let mut x: usize = 0;
            while x < width
                invariant
                    x <= width,
                    y < height,
                    w == width as int,
                    h == height as int,
                    grid_wf(a, w, h),
                    a == altitudes.deep_view(),
                    row@.len() == x,
                    forall|j: int| 0 <= j < x ==> #[trigger] row@[j] <= 16,
                    forall|j: int|
                        0 <= j < x ==> #[trigger] row@[j] == spec_land_fitness(
                            spec_large_kind(alt_at(a, Pos { x: j as usize, y })),
                        ),
                decreases width - x,
            {
                let alt = grid_at(altitudes, width, height, x, y);
                row.push(Self::land_fitness(alt));
                x = x + 1;
            }
            let ghost dv0 = fitness.deep_view();
            fitness.push(row);
            proof {
                assert(fitness.deep_view() =~~= dv0.push(row@));
            }
            y = y + 1;
        }

        proof {
            assert(fitness.deep_view() =~~= initial_fitness(a, w, h));
        }
        Self::convo_3times(&mut fitness, width, height);
        let ghost f1 = fitness.deep_view();
        proof {
            assert(f1 == blur_times(initial_fitness(a, w, h), w, h, 3));
        }

        // Zero the border ring and every cell that is not plain terrain.
        let mut y: usize = 0;
        while y < height
            invariant
                y <= height,
                w == width as int,
                h == height as int,
                grid_wf(a, w, h),
                a == altitudes.deep_view(),
                fit_wf(fitness.deep_view(), w, h),
                fit_wf(f1, w, h),
                forall|p: Pos|
                    pos_in_bounds(p, w, h) && p.y < y && (on_border(p, w, h) || spec_large_kind(
                        alt_at(a, p),
                    ) != LandKind::Plain) ==> #[trigger] alt_at(fitness.deep_view(), p) == 0,
                forall|p: Pos|
                    pos_in_bounds(p, w, h) && p.y < y ==> #[trigger] alt_at(
                        fitness.deep_view(),
                        p,
                    ) == alt_at(masked_fitness(f1, a, w, h), p),
                forall|p: Pos|
                    pos_in_bounds(p, w, h) && p.y >= y ==> #[trigger] alt_at(
                        fitness.deep_view(),
                        p,
                    ) == alt_at(f1, p),
            decreases height - y,
        {
            let mut x: usize = 0;
            while x < width
                invariant
                    x <= width,
                    y < height,
                    w == width as int,
                    h == height as int,
                    grid_wf(a, w, h),
                    a == altitudes.deep_view(),
                    fit_wf(fitness.deep_view(), w, h),
                    fit_wf(f1, w, h),
                    forall|p: Pos|
                        pos_in_bounds(p, w, h) && p.y < y && (on_border(p, w, h)
                            || spec_large_kind(alt_at(a, p)) != LandKind::Plain)
                            ==> #[trigger] alt_at(fitness.deep_view(), p) == 0,
                    forall|p: Pos|
                        pos_in_bounds(p, w, h) && p.y == y && p.x < x && (on_border(p, w, h)
                            || spec_large_kind(alt_at(a, p)) != LandKind::Plain)
                            ==> #[trigger] alt_at(fitness.deep_view(), p) == 0,
                    forall|p: Pos|
                        pos_in_bounds(p, w, h) && (p.y < y || (p.y == y && p.x < x))
                            ==> #[trigger] alt_at(fitness.deep_view(), p) == alt_at(
                            masked_fitness(f1, a, w, h),
                            p,
                        ),
                    forall|p: Pos|
                        pos_in_bounds(p, w, h) && (p.y > y || (p.y == y && p.x >= x))
                            ==> #[trigger] alt_at(fitness.deep_view(), p) == alt_at(f1, p),
                decreases width - x,
            {
                let alt = grid_at(altitudes, width, height, x, y);
                let masked = y == 0 || x == 0 || y == height - 1 || x == width - 1 || !matches!(
                    Self::land_kind(alt),
                    LandKind::Plain,
                );
                proof {
                    let c = Pos { x, y };
                    assert(alt_at(masked_fitness(f1, a, w, h), c) == if on_border(c, w, h)
                        || spec_large_kind(alt_at(a, c)) != LandKind::Plain {
                        0u8
                    } else {
                        alt_at(f1, c)
                    });
                }
                if masked {
                    let ghost g0 = fitness.deep_view();
                    grid_set(&mut fitness, x, y, 0);
                    proof {
                        let g = fitness.deep_view();
                        assert forall|p: Pos| pos_in_bounds(p, w, h) && p != (Pos { x, y })
                            implies #[trigger] alt_at(g, p) == alt_at(g0, p) by {
                        }
                        assert(alt_at(g, Pos { x, y }) == 0);
                    }
                }
                x = x + 1;
            }
            y = y + 1;
        }

        proof {
            let m = masked_fitness(f1, a, w, h);
            assert(fitness.deep_view().len() == m.len());
            assert forall|i: int| 0 <= i < h implies #[trigger] fitness.deep_view()[i]
                =~= m[i] by {
                assert forall|j: int| 0 <= j < w implies #[trigger] fitness.deep_view()[i][j]
                    == m[i][j] by {
                    let p = Pos { x: j as usize, y: i as usize };
                    assert(alt_at(fitness.deep_view(), p) == alt_at(m, p));
                }
            }
            assert(fitness.deep_view() =~~= m);
        }
        Self::convo_3times(&mut fitness, width, height);
        let ghost f = fitness.deep_view();
        proof {
            assert(f == fitness_field(a, w, h));
            assert forall|p: Pos| pos_in_bounds(p, w, h) && on_border(p, w, h)
                implies #[trigger] alt_at(f, p) == 0 by {
            }
        }

        // The best fitness anywhere on the grid.
        let mut best: u8 = 0;
        let mut y: usize = 0;
        while y < height
            invariant
                y <= height,
                w == width as int,
                h == height as int,
                fit_wf(f, w, h),
                f == fitness.deep_view(),
                best <= 16,
                forall|p: Pos|
                    pos_in_bounds(p, w, h) && p.y < y ==> #[trigger] alt_at(f, p) <= best,
                best == 0 || exists|p: Pos|
                    pos_in_bounds(p, w, h) && #[trigger] alt_at(f, p) == best,
            decreases height - y,
        {
            let mut x: usize = 0;
            while x < width
                invariant
                    x <= width,
                    y < height,
                    w == width as int,
                    h == height as int,
                    fit_wf(f, w, h),
                    f == fitness.deep_view(),
                    best <= 16,
                    forall|p: Pos|
                        pos_in_bounds(p, w, h) && p.y < y ==> #[trigger] alt_at(f, p) <= best,
                    forall|p: Pos|
                        pos_in_bounds(p, w, h) && p.y == y && p.x < x ==> #[trigger] alt_at(f, p)
                            <= best,
                    best == 0 || exists|p: Pos|
                        pos_in_bounds(p, w, h) && #[trigger] alt_at(f, p) == best,
                decreases width - x,
            {
                let v = grid_at(&fitness, width, height, x, y);
                if v > best {
                    best = v;
                    proof {
                        assert(alt_at(f, Pos { x, y }) == best);
                    }
                }
                x = x + 1;
            }
            y = y + 1;
        }
        proof {
            lemma_grid_max(f);
            if grid_max(f) != 0 {
                let (gy, gx) = choose|gy: int, gx: int|
                    0 <= gy < f.len() && 0 <= gx < f[gy].len() && #[trigger] f[gy][gx] == grid_max(
                        f,
                    );
                let p = Pos { x: gx as usize, y: gy as usize };
                assert(alt_at(f, p) == grid_max(f));
                assert(grid_max(f) <= best);
            }
            if best != 0 {
                let p = choose|p: Pos| pos_in_bounds(p, w, h) && #[trigger] alt_at(f, p) == best;
                assert(f[p.y as int][p.x as int] == best);
                assert(best <= grid_max(f));
            }
            assert(best == grid_max(f));
        }
        let threshold = best * 9 / 10;

        // Interior cells within ninety percent of the best are candidates.
        let mut candidates: Vec<Pos> = Vec::new();
        let mut y: usize = 1;
        while y < height - 1
            invariant
                1 <= y,
                1 <= width,
                1 <= height,
                w == width as int,
                h == height as int,
                fit_wf(f, w, h),
                f == fitness.deep_view(),
                threshold == best * 9 / 10,
                forall|i: int|
                    0 <= i < candidates@.len() ==> pos_in_bounds(#[trigger] candidates@[i], w, h)
                        && !on_border(candidates@[i], w, h) && alt_at(f, candidates@[i])
                        >= threshold,
                forall|p: Pos|
                    pos_in_bounds(p, w, h) && !on_border(p, w, h) && 1 <= p.y < y
                        && #[trigger] alt_at(f, p) >= threshold ==> candidates@.contains(p),
            decreases height - y,
        {
            let mut x: usize = 1;
            while x < width - 1
                invariant
                    1 <= x,
                    1 <= y,
                    1 <= width,
                    1 <= height,
                    y < height - 1,
                    w == width as int,
                    h == height as int,
                    fit_wf(f, w, h),
                    f == fitness.deep_view(),
                    threshold == best * 9 / 10,
                    forall|i: int|
                        0 <= i < candidates@.len() ==> pos_in_bounds(
                            #[trigger] candidates@[i],
                            w,
                            h,
                        ) && !on_border(candidates@[i], w, h) && alt_at(f, candidates@[i])
                            >= threshold,
                    forall|p: Pos|
                        pos_in_bounds(p, w, h) && !on_border(p, w, h) && 1 <= p.y < y
                            && #[trigger] alt_at(f, p) >= threshold ==> candidates@.contains(p),
                    forall|p: Pos|
                        pos_in_bounds(p, w, h) && !on_border(p, w, h) && p.y == y && 1 <= p.x < x
                            && #[trigger] alt_at(f, p) >= threshold ==> candidates@.contains(p),
                decreases width - x,
            {
                let v = grid_at(&fitness, width, height, x, y);
                let ghost c0 = candidates@;
                if v >= threshold {
                    candidates.push(Pos { x, y });
                }
                proof {
                    assert forall|p: Pos| c0.contains(p) implies candidates@.contains(p) by {
                        let i = choose|i: int| 0 <= i < c0.len() && c0[i] == p;
                        assert(candidates@[i] == p);
                    }
                    if v >= threshold {
                        assert(candidates@[candidates@.len() - 1] == (Pos { x, y }));
                        assert(candidates@.contains(Pos { x, y }));
                    }
                }
                x = x + 1;
            }
            y = y + 1;
        }

        proof {
            assert forall|i: int, j: int|
                0 <= i < candidates@.len() && 0 <= j < candidates@.len() implies spec_move_cost(
                #[trigger] candidates@[i],
                #[trigger] candidates@[j],
            ) <= usize::MAX by {
                assert(pos_in_bounds(candidates@[i], w, h) && pos_in_bounds(candidates@[j], w, h));
            }
            if width >= 3 && height >= 3 {
                if best > 0 {
                    let p = choose|p: Pos| pos_in_bounds(p, w, h) && #[trigger] alt_at(f, p) == best;
                    assert(!on_border(p, w, h));
                    assert(threshold <= best);
                    assert(1 <= p.y < h - 1);
                    assert(candidates@.contains(p));
                } else {
                    let p = Pos { x: 1, y: 1 };
                    assert(threshold == 0);
                    assert(alt_at(f, p) >= 0);
                    assert(candidates@.contains(p));
                }
                assert(candidates@.len() >= 1);
            }
        }
        let ghost cand_v = candidates@;
        let towns = pick_towns(rngv, candidates, self.max_towns, self.town_min_cost);
        proof {
            assert forall|i: int| 0 <= i < towns@.len() implies alt_at(
                fitness_field(a, w, h),
                #[trigger] towns@[i],
            ) >= fitness_threshold(a, w, h) by {
                assert(cand_v.contains(towns@[i]));
                let j = choose|j: int| 0 <= j < cand_v.len() && cand_v[j] == towns@[i];
                assert(alt_at(f, cand_v[j]) >= threshold);
            }
        }
        towns
    }

    /// The cost of stepping onto the terrain at one altitude.
    fn land_cost(altitude: u8) -> (r: u64)
        requires
            altitude <= 99,
        ensures
            r == spec_land_cost(spec_large_kind(altitude)),
            1 <= r <= 64,
    {
        match Self::land_kind(altitude) {
            LandKind::DeepSea => 64,
            LandKind::Sea => 32,
            LandKind::Plain => 1,
            LandKind::Forest => 4,
            LandKind::Mountain => 8,
            LandKind::Highland => 16,
            _ => 1,
        }
    }

    /// Offers the cell `(nx, ny)` the route through `pos`: if the cost of
    /// the popped entry plus the terrain cost of the destination undercuts
    /// the recorded cost, the record, the predecessor and the frontier are
    /// updated. On boards of workable area the offered cell is visited
    /// afterwards either way.
    #[verifier::rlimit(60)]
    fn relax(
        costs: &mut Vec<Vec<u64>>,
        parent: &mut Vec<Vec<Pos>>,
        heap: &mut Vec<Vert>,
        altitudes: &Vec<Vec<u8>>,
        width: usize,
        height: usize,
        pos: Pos,
        cost: u64,
        chain: Ghost<Seq<Pos>>,
        nx: usize,
        ny: usize,
        from: Ghost<Pos>,
    )
        requires
            grid_wf(altitudes.deep_view(), width as int, height as int),
            cs_wf(old(costs).deep_view(), width as int, height as int),
            ps_wf(old(parent).deep_view(), width as int, height as int),
            search_inv(
                old(costs).deep_view(),
                old(parent).deep_view(),
                width as int,
                height as int,
                from@,
            ),
            heap_ok(old(heap)@, old(costs).deep_view(), width as int, height as int, from@),
            nx < width,
            ny < height,
            vert_ok(
                Vert { cost, pos, chain },
                old(costs).deep_view(),
                width as int,
                height as int,
                from@,
            ),
            adjacent(Pos { x: nx, y: ny }, pos),
        ensures
            cs_wf(final(costs).deep_view(), width as int, height as int),
            ps_wf(final(parent).deep_view(), width as int, height as int),
            search_inv(
                final(costs).deep_view(),
                final(parent).deep_view(),
                width as int,
                height as int,
                from@,
            ),
            heap_ok(final(heap)@, final(costs).deep_view(), width as int, height as int, from@),
            forall|p: Pos|
                pos_in_bounds(p, width as int, height as int) ==> #[trigger] cval(
                    final(costs).deep_view(),
                    p,
                ) <= cval(old(costs).deep_view(), p),
            forall|i: int| 0 <= i < old(heap)@.len() ==> #[trigger] final(heap)@[i] == old(heap)@[i],
            area_sized(width as int, height as int) ==> cval(
                final(costs).deep_view(),
                Pos { x: nx, y: ny },
            ) < u64::MAX,
            forall|p: Pos|
                pos_in_bounds(p, width as int, height as int) && p != (Pos { x: nx, y: ny })
                    ==> #[trigger] pval(final(parent).deep_view(), p) == pval(
                    old(parent).deep_view(),
                    p,
                ),
            forall|c: Pos|
                pos_in_bounds(c, width as int, height as int) && #[trigger] cval(
                    final(costs).deep_view(),
                    c,
                ) < u64::MAX ==> ((exists|i: int|
                    0 <= i < final(heap)@.len() && (#[trigger] final(heap)@[i]).pos == c) || cval(
                    old(costs).deep_view(),
                    c,
                ) < u64::MAX),
            (final(heap)@ == old(heap)@ && final(costs).deep_view() == old(costs).deep_view()
                && final(parent).deep_view() == old(parent).deep_view()) || (final(heap)@.len()
                == old(heap)@.len() + 1 && costs_measure(final(costs).deep_view()) < costs_measure(
                old(costs).deep_view(),
            )),
    {
        let ghost w = width as int;
        let ghost h = height as int;
        let ghost n = Pos { x: nx, y: ny };
        let alt = grid_at(altitudes, width, height, nx, ny);
        let step = Self::land_cost(alt);
        let nc = if cost > u64::MAX - step {
            u64::MAX
        } else {
            cost + step
        };
        proof {
            if area_sized(w, h) {
                if !(pos == from@ && cost == 0 && chain@.len() == 0) {
                    assert(cost <= 64 * chain@.len() && chain@.len() <= w * h);
                    assert(64 * chain@.len() <= 64 * (w * h)) by (nonlinear_arith)
                        requires
                            chain@.len() <= w * h,
                    {
                    }
                }
                assert(cost <= 64 * (w * h));
                assert(nc == cost + step && nc < u64::MAX);
            }
        }
        let rec = cs_get(costs, nx, ny);
        if nc >= rec {
            proof {
                if area_sized(w, h) {
                    assert(cval(costs.deep_view(), n) == rec);
                    assert(rec <= nc);
                    assert(rec < u64::MAX);
                }
            }
            return ;
        }
        let ghost cs0 = costs.deep_view();
        let ghost ps0 = parent.deep_view();
        proof {
            if n == from@ {
                assert(cval(cs0, from@) == 0);
                assert(false);
            }
            if pos != from@ {
                assert(cval(cs0, pos) <= cost);
            }
        }
        cs_set(costs, nx, ny, nc);
        ps_set(parent, nx, ny, pos);
        heap.push(Vert { cost: nc, pos: Pos { x: nx, y: ny }, chain: Ghost(chain@.push(n)) });
        proof {
            let cs = costs.deep_view();
            let ps = parent.deep_view();
            lemma_costs_measure_update(cs0, nx as int, ny as int, nc);
            assert(cval(cs, n) == nc);
            assert forall|p: Pos| pos_in_bounds(p, w, h) implies #[trigger] cval(cs, p) <= cval(
                cs0,
                p,
            ) by {
                if p != n {
                    assert(cval(cs, p) == cval(cs0, p));
                }
            }
            assert forall|p: Pos|
                pos_in_bounds(p, w, h) && #[trigger] cval(cs, p) < u64::MAX && p != from@ implies ({
                let q = pval(ps, p);
                adjacent(p, q) && (q == from@ || (pos_in_bounds(q, w, h) && cval(cs, q) < cval(
                    cs,
                    p,
                )))
            }) by {
                if p == n {
                    assert(pval(ps, n) == pos);
                    assert(adjacent(n, pos));
                    if pos != from@ {
                        assert(cval(cs, pos) <= cval(cs0, pos));
                        assert(cval(cs0, pos) <= cost);
                        assert(cost < nc);
                    }
                } else {
                    assert(cval(cs, p) == cval(cs0, p));
                    assert(pval(ps, p) == pval(ps0, p));
                    let q = pval(ps0, p);
                    assert(adjacent(p, q) && (q == from@ || (pos_in_bounds(q, w, h) && cval(
                        cs0,
                        q,
                    ) < cval(cs0, p))));
                    if q != from@ {
                        assert(cval(cs, q) <= cval(cs0, q));
                    }
                }
            }
            // The offered cell cannot already lie on the route that reached
            // it: every route cell's recorded cost is at most the route's
            // cost, while the insert strictly undercuts the cell's record.
            assert forall|i: int| 0 <= i < chain@.len() implies #[trigger] chain@[i] != n by {
                if chain@[i] == n {
                    assert(cval(cs0, n) <= cost);
                    assert(cost < nc);
                    assert(nc < rec == cval(cs0, n));
                }
            }
            let newchain = chain@.push(n);
            assert(newchain.last() == n);
            assert forall|i: int, j: int| 0 <= i < j < newchain.len()
                implies #[trigger] newchain[i] != #[trigger] newchain[j] by {
                if j < chain@.len() {
                    assert(chain@[i] != chain@[j]);
                } else {
                    assert(newchain[j] == n && newchain[i] == chain@[i]);
                }
            }
            assert forall|i: int| 0 <= i < newchain.len() implies pos_in_bounds(
                #[trigger] newchain[i],
                w,
                h,
            ) by {
                if i < chain@.len() {
                    assert(pos_in_bounds(chain@[i], w, h));
                }
            }
            crate::board::lemma_distinct_in_bounds_len(newchain, w, h);
            assert(nc <= 64 * newchain.len());
            assert forall|i: int| 0 <= i < newchain.len() implies cval(
                cs,
                #[trigger] newchain[i],
            ) <= nc by {
                if i < chain@.len() {
                    assert(cval(cs0, chain@[i]) <= cost);
                    assert(cval(cs, chain@[i]) <= cval(cs0, chain@[i]));
                } else {
                    assert(newchain[i] == n);
                }
            }
            assert forall|i: int| 0 <= i < heap@.len() implies vert_ok(
                #[trigger] heap@[i],
                cs,
                w,
                h,
                from@,
            ) by {
                if i < heap@.len() - 1 {
                    assert(vert_ok(heap@[i], cs0, w, h, from@));
                    let v = heap@[i];
                    if !(v.pos == from@ && v.cost == 0 && v.chain@.len() == 0) {
                        assert(cval(cs, v.pos) <= cval(cs0, v.pos));
                        assert forall|k: int| 0 <= k < v.chain@.len() implies cval(
                            cs,
                            #[trigger] v.chain@[k],
                        ) <= v.cost by {
                            assert(cval(cs0, v.chain@[k]) <= v.cost);
                            assert(cval(cs, v.chain@[k]) <= cval(cs0, v.chain@[k]));
                        }
                    }
                } else {
                    assert(heap@[i] == (Vert { cost: nc, pos: n, chain: Ghost(newchain) }));
                }
            }
            assert(heap@[heap@.len() - 1].pos == n);
            assert forall|p: Pos| pos_in_bounds(p, w, h) && p != n implies #[trigger] pval(
                ps,
                p,
            ) == pval(ps0, p) by {
            }
            assert forall|c: Pos|
                pos_in_bounds(c, w, h) && #[trigger] cval(cs, c) < u64::MAX implies ((exists|i: int|
                0 <= i < heap@.len() && (#[trigger] heap@[i]).pos == c) || cval(cs0, c)
                    < u64::MAX) by {
                if c == n {
                    assert(heap@[heap@.len() - 1].pos == c);
                } else {
                    assert(cval(cs, c) == cval(cs0, c));
                }
            }
        }
    }

    /// A frontier entry stays well formed as recorded costs decrease.
    proof fn lemma_vert_ok_monotone(
        v: Vert,
        cs0: Seq<Seq<u64>>,
        cs: Seq<Seq<u64>>,
        width: int,
        height: int,
        from: Pos,
    )
        requires
            vert_ok(v, cs0, width, height, from),
            forall|p: Pos|
                pos_in_bounds(p, width, height) ==> #[trigger] cval(cs, p) <= cval(cs0, p),
        ensures
            vert_ok(v, cs, width, height, from),
    {
        if !(v.pos == from && v.cost == 0 && v.chain@.len() == 0) {
            assert(cval(cs, v.pos) <= cval(cs0, v.pos));
            assert forall|k: int| 0 <= k < v.chain@.len() implies cval(
                cs,
                #[trigger] v.chain@[k],
            ) <= v.cost by {
                assert(cval(cs0, v.chain@[k]) <= v.cost);
                assert(pos_in_bounds(v.chain@[k], width, height));
            }
        }
    }

    /// Reconstructs the route by walking the predecessor chain backwards
    /// from the cell before the target until the source is reached. The
    /// strict cost descent along predecessors bounds the walk.
    fn walk_back(
        costs: &Vec<Vec<u64>>,
        parent: &Vec<Vec<Pos>>,
        width: usize,
        height: usize,
        from: Pos,
        to: Pos,
    ) -> (path: Vec<Pos>)
        requires
            cs_wf(costs.deep_view(), width as int, height as int),
            ps_wf(parent.deep_view(), width as int, height as int),
            search_inv(costs.deep_view(), parent.deep_view(), width as int, height as int, from),
            pos_in_bounds(to, width as int, height as int),
            cval(costs.deep_view(), to) < u64::MAX,
            to != from,
        ensures
            forall|i: int|
                0 <= i < path@.len() ==> pos_in_bounds(
                    #[trigger] path@[i],
                    width as int,
                    height as int,
                ),
            forall|i: int| 0 <= i < path@.len() ==> #[trigger] path@[i] != from && path@[i] != to,
            path@.len() >= 1 ==> adjacent(to, path@[0]),
            path@.len() >= 1 ==> adjacent(path@[path@.len() - 1], from),
            forall|i: int| 0 <= i && i + 1 < path@.len() ==> adjacent(#[trigger] path@[i], path@[i + 1]),
            pval(parent.deep_view(), to) != from ==> path@.len() >= 1,
    {
        let ghost w = width as int;
        let ghost h = height as int;
        let ghost cs = costs.deep_view();
        let ghost ps = parent.deep_view();
        let mut verts: Vec<Pos> = Vec::new();
        let mut cur = ps_get(parent, to.x, to.y);
        proof {
            assert(pval(ps, to) == cur);
            assert(cval(cs, to) < u64::MAX && to != from);
            assert(adjacent(to, cur));
            assert(cur == from || (pos_in_bounds(cur, w, h) && cval(cs, cur) < cval(cs, to)));
        }
        while !(cur.x == from.x && cur.y == from.y)
            invariant
                w == width as int,
                h == height as int,
                cs == costs.deep_view(),
                ps == parent.deep_view(),
                cs_wf(cs, w, h),
                ps_wf(ps, w, h),
                search_inv(cs, ps, w, h, from),
                to != from,
                pos_in_bounds(to, w, h),
                cval(cs, to) < u64::MAX,
                cur == from || (pos_in_bounds(cur, w, h) && cval(cs, cur) < cval(cs, to) && cur
                    != to),
                forall|i: int|
                    0 <= i < verts@.len() ==> pos_in_bounds(#[trigger] verts@[i], w, h)
                        && verts@[i] != from && verts@[i] != to,
                forall|i: int|
                    0 <= i && i + 1 < verts@.len() ==> adjacent(#[trigger] verts@[i], verts@[i + 1]),
                verts@.len() >= 1 ==> adjacent(to, verts@[0]),
                verts@.len() >= 1 ==> adjacent(verts@[verts@.len() - 1], cur),
                verts@.len() == 0 ==> adjacent(to, cur),
                verts@.len() >= 1 || cur == pval(ps, to),
            decreases (if cur == from {
                0nat
            } else {
                (cval(cs, cur) + 1) as nat
            }),
        {
            proof {
                assert(cur != from);
                assert(pos_in_bounds(cur, w, h) && cval(cs, cur) < cval(cs, to));
            }
            let ghost verts0 = verts@;
            verts.push(cur);
            let nxt = ps_get(parent, cur.x, cur.y);
            proof {
                assert(pval(ps, cur) == nxt);
                assert(cval(cs, cur) < u64::MAX && cur != from);
                assert(adjacent(cur, nxt));
                assert(nxt == from || (pos_in_bounds(nxt, w, h) && cval(cs, nxt) < cval(cs, cur)));
                if nxt != from {
                    assert(cval(cs, nxt) < cval(cs, to));
                    assert(nxt != to);
                }
                assert(verts@ == verts0.push(cur));
                assert(verts@[verts@.len() - 1] == cur);
                assert forall|i: int| 0 <= i && i + 1 < verts@.len() implies adjacent(
                    #[trigger] verts@[i],
                    verts@[i + 1],
                ) by {
                    if i + 1 < verts0.len() {
                        assert(verts@[i] == verts0[i] && verts@[i + 1] == verts0[i + 1]);
                    } else {
                        assert(i == verts0.len() - 1);
                        assert(verts@[i] == verts0[i]);
                        assert(verts@[i + 1] == cur);
                        assert(adjacent(verts0[verts0.len() - 1], cur));
                    }
                }
            }
            cur = nxt;
        }
        verts
    }

    /// Computes a low-cost route between two towns over the grid graph with
    /// the search of Dijkstra, charged per destination cell, with a one-step
    /// no-backtrack pruning heuristic (a known approximation: it can in
    /// principle hide the optimal route). The returned route excludes both
    /// endpoints; an unreachable target yields an empty route, not an error.
    ///
    /// The contract pins the route's shape: strictly inside the board, free
    /// of both endpoints, and 4-connected from a neighbor of `to` to a
    /// neighbor of `from`.
    #[verifier::rlimit(100)]
    pub fn shortest_path(&self, from: Pos, to: Pos, altitudes: &Vec<Vec<u8>>) -> (path: Vec<Pos>)
        requires
            self.wf(),
            grid_wf(altitudes.deep_view(), self.width as int, self.height as int),
        ensures
            forall|i: int|
                0 <= i < path@.len() ==> pos_in_bounds(
                    #[trigger] path@[i],
                    self.width as int,
                    self.height as int,
                ),
            forall|i: int| 0 <= i < path@.len() ==> #[trigger] path@[i] != from && path@[i] != to,
            path@.len() >= 1 ==> adjacent(to, path@[0]),
            path@.len() >= 1 ==> adjacent(path@[path@.len() - 1], from),
            forall|i: int| 0 <= i && i + 1 < path@.len() ==> adjacent(#[trigger] path@[i], path@[i + 1]),
            pos_in_bounds(from, self.width as int, self.height as int) && pos_in_bounds(
                to,
                self.width as int,
                self.height as int,
            ) && from != to && !adjacent(from, to) && area_sized(
                self.width as int,
                self.height as int,
            ) ==> path@.len() >= 1,
    {
        let width = self.width;
        let height = self.height;
        let ghost w = width as int;
        let ghost h = height as int;

        let mut costs: Vec<Vec<u64>> = Vec::new();
        let mut parent: Vec<Vec<Pos>> = Vec::new();
        let mut y: usize = 0;
        while y < height
            invariant
                y <= height,
                costs.deep_view().len() == y,
                parent.deep_view().len() == y,
                forall|i: int| 0 <= i < y ==> (#[trigger] costs.deep_view()[i]).len() == width,
                forall|i: int| 0 <= i < y ==> (#[trigger] parent.deep_view()[i]).len() == width,
                forall|i: int, j: int|
                    0 <= i < y && 0 <= j < width ==> #[trigger] costs.deep_view()[i][j]
                        == u64::MAX,
            decreases height - y,
        {
            let mut crow: Vec<u64> = Vec::new();
            let mut prow: Vec<Pos> = Vec::new();
            let mut x: usize = 0;
            while x < width
                invariant
                    x <= width,
                    crow@.len() == x,
                    prow@.len() == x,
                    forall|j: int| 0 <= j < x ==> #[trigger] crow@[j] == u64::MAX,
                decreases width - x,
            {
                crow.push(u64::MAX);
                prow.push(Pos { x: 0, y: 0 });
                x = x + 1;
            }
            let ghost cdv = costs.deep_view();
            let ghost pdv = parent.deep_view();
            costs.push(crow);
            parent.push(prow);
            proof {
                assert(costs.deep_view() =~~= cdv.push(crow@));
                assert(parent.deep_view() =~~= pdv.push(prow@));
            }
            y = y + 1;
        }

        if from.x < width && from.y < height {
            cs_set(&mut costs, from.x, from.y, 0);
        }
        let mut heap: Vec<Vert> = Vec::new();
        heap.push(Vert { cost: 0, pos: from, chain: Ghost(Seq::empty()) });
        proof {
            assert forall|c: Pos|
                pos_in_bounds(c, w, h) && #[trigger] cval(costs.deep_view(), c)
                    < u64::MAX implies (exists|i: int|
                0 <= i < heap@.len() && (#[trigger] heap@[i]).pos == c) by {
                assert(c == from);
                assert(heap@[0].pos == from);
            }
        }

        while heap.len() > 0
            invariant
                w == width as int,
                h == height as int,
                self.wf(),
                self.width == width,
                self.height == height,
                grid_wf(altitudes.deep_view(), w, h),
                cs_wf(costs.deep_view(), w, h),
                ps_wf(parent.deep_view(), w, h),
                search_inv(costs.deep_view(), parent.deep_view(), w, h, from),
                heap_ok(heap@, costs.deep_view(), w, h, from),
                area_sized(w, h) ==> frontier_closed(costs.deep_view(), heap@, w, h),
                pos_in_bounds(to, w, h) && cval(costs.deep_view(), to) < u64::MAX
                    ==> exists|i: int|
                    0 <= i < heap@.len() && (#[trigger] heap@[i]).pos == to,
            decreases costs_measure(costs.deep_view()), heap@.len(),
        {
            let mut mi: usize = 0;
            let mut k: usize = 1;
            while k < heap.len()
                invariant
                    heap@.len() > 0,
                    mi < heap@.len(),
                    k <= heap@.len(),
                decreases heap@.len() - k,
            {
                if heap[k].cost < heap[mi].cost {
                    mi = k;
                }
                k = k + 1;
            }
            let ghost heap0 = heap@;
            let ghost m0 = costs_measure(costs.deep_view());
            let vert = heap.remove(mi);
            proof {
                assert(vert == heap0[mi as int]);
                assert forall|i: int| 0 <= i < heap@.len() implies vert_ok(
                    #[trigger] heap@[i],
                    costs.deep_view(),
                    w,
                    h,
                    from,
                ) by {
                    if i < mi {
                        assert(heap@[i] == heap0[i]);
                    } else {
                        assert(heap@[i] == heap0[i + 1]);
                    }
                }
            }
            let pos = vert.pos;
            let cost = vert.cost;
            let ghost vchain = vert.chain@;

            if pos.x == to.x && pos.y == to.y {
                if to.x == from.x && to.y == from.y {
                    return Vec::new();
                }
                proof {
                    assert(pos == to && to != from);
                    assert(pos_in_bounds(to, w, h) && cval(costs.deep_view(), to) < u64::MAX);
                    if !adjacent(from, to) {
                        let q = pval(parent.deep_view(), to);
                        assert(adjacent(to, q));
                        if q == from {
                            assert(spec_move_cost(from, to) == spec_move_cost(to, from));
                            assert(adjacent(from, to));
                        }
                        assert(q != from);
                    }
                }
                return Self::walk_back(&costs, &parent, width, height, from, to);
            }

            let has_parent = !(pos.x == from.x && pos.y == from.y);
            let par_p = if has_parent {
                proof {
                    assert(pos != from);
                    assert(pos_in_bounds(pos, w, h));
                }
                ps_get(&parent, pos.x, pos.y)
            } else {
                Pos { x: 0, y: 0 }
            };

            let ghost mstart = costs_measure(costs.deep_view());
            let ghost lstart = heap@.len();
            let ghost cs1 = costs.deep_view();
            let ghost ps1 = parent.deep_view();
            let ghost heap1 = heap@;

            if pos.y > 0 {
                let ny = pos.y - 1;
                if pos.x < width && ny < height {
                    if !(has_parent && par_p.x == pos.x && par_p.y == ny) {
                        proof {
                            Self::lemma_vert_ok_monotone(
                                Vert { cost, pos, chain: Ghost(vchain) },
                                cs1,
                                costs.deep_view(),
                                w,
                                h,
                                from,
                            );
                        }
                        Self::relax(
                            &mut costs,
                            &mut parent,
                            &mut heap,
                            altitudes,
                            width,
                            height,
                            pos,
                            cost,
                            Ghost(vchain),
                            pos.x,
                            ny,
                            Ghost(from),
                        );
                    }
                }
            }
            let ghost csa = costs.deep_view();
            let ghost hpa = heap@;
            proof {
                assert(visit_step(cs1, csa, heap1, hpa, w, h));
            }
            if pos.x > 0 {
                let nx = pos.x - 1;
                if nx < width && pos.y < height {
                    if !(has_parent && par_p.x == nx && par_p.y == pos.y) {
                        proof {
                            Self::lemma_vert_ok_monotone(
                                Vert { cost, pos, chain: Ghost(vchain) },
                                cs1,
                                costs.deep_view(),
                                w,
                                h,
                                from,
                            );
                        }
                        Self::relax(
                            &mut costs,
                            &mut parent,
                            &mut heap,
                            altitudes,
                            width,
                            height,
                            pos,
                            cost,
                            Ghost(vchain),
                            nx,
                            pos.y,
                            Ghost(from),
                        );
                    }
                }
            }
            let ghost csb = costs.deep_view();
            let ghost hpb = heap@;
            proof {
                assert(visit_step(csa, csb, hpa, hpb, w, h));
            }
            if pos.x < usize::MAX {
                let nx = pos.x + 1;
                if nx < width && pos.y < height {
                    if !(has_parent && par_p.x == nx && par_p.y == pos.y) {
                        proof {
                            Self::lemma_vert_ok_monotone(
                                Vert { cost, pos, chain: Ghost(vchain) },
                                cs1,
                                costs.deep_view(),
                                w,
                                h,
                                from,
                            );
                        }
                        Self::relax(
                            &mut costs,
                            &mut parent,
                            &mut heap,
                            altitudes,
                            width,
                            height,
                            pos,
                            cost,
                            Ghost(vchain),
                            nx,
                            pos.y,
                            Ghost(from),
                        );
                    }
                }
            }
            let ghost csc = costs.deep_view();
            let ghost hpc = heap@;
            proof {
                assert(visit_step(csb, csc, hpb, hpc, w, h));
            }
            if pos.y < usize::MAX {
                let ny = pos.y + 1;
                if pos.x < width && ny < height {
                    if !(has_parent && par_p.x == pos.x && par_p.y == ny) {
                        proof {
                            Self::lemma_vert_ok_monotone(
                                Vert { cost, pos, chain: Ghost(vchain) },
                                cs1,
                                costs.deep_view(),
                                w,
                                h,
                                from,
                            );
                        }
                        Self::relax(
                            &mut costs,
                            &mut parent,
                            &mut heap,
                            altitudes,
                            width,
                            height,
                            pos,
                            cost,
                            Ghost(vchain),
                            pos.x,
                            ny,
                            Ghost(from),
                        );
                    }
                }
            }
            proof {
                assert(costs_measure(costs.deep_view()) < mstart || (costs_measure(
                    costs.deep_view(),
                ) == mstart && heap@.len() <= lstart));
                assert(mstart == m0 && lstart < heap0.len());
                let cs = costs.deep_view();
                let hp = heap@;
                assert(visit_step(csc, cs, hpc, hp, w, h));
                assert forall|i: int| 0 <= i < heap1.len() implies #[trigger] hp[i]
                    == heap1[i] by {
                }
                assert forall|p2: Pos| pos_in_bounds(p2, w, h) implies #[trigger] cval(cs, p2)
                    <= cval(cs1, p2) by {
                }
                if pos_in_bounds(to, w, h) && cval(cs, to) < u64::MAX {
                    assert(exists|i: int| 0 <= i < hp.len() && (#[trigger] hp[i]).pos == to) by {
                        if cval(cs1, to) < u64::MAX {
                            let i0 = choose|i0: int|
                                0 <= i0 < heap0.len() && (#[trigger] heap0[i0]).pos == to;
                            assert(heap0[mi as int].pos == pos);
                            assert(pos != to);
                            if i0 < mi {
                                assert(heap1[i0] == heap0[i0]);
                                assert(hp[i0].pos == to);
                            } else {
                                assert(heap1[i0 - 1] == heap0[i0]);
                                assert(hp[i0 - 1].pos == to);
                            }
                        } else {
                            // first visited by one of this iteration's
                            // relaxations, each of which pushes an entry
                            // for the cell it visits
                            lemma_visited_has_entry(
                                to, w, h, cs1, csa, csb, csc, cs, heap1, hpa, hpb, hpc, hp,
                            );
                        }
                    }
                }
                if area_sized(w, h) {
                    assert forall|c: Pos|
                        pos_in_bounds(c, w, h) && #[trigger] cval(cs, c) < u64::MAX implies ((exists|i: int|
                        0 <= i < hp.len() && (#[trigger] hp[i]).pos == c) || (forall|n2: Pos|
                        pos_in_bounds(n2, w, h) && #[trigger] adjacent(c, n2) ==> cval(cs, n2)
                            < u64::MAX)) by {
                        if c == pos {
                            assert forall|n2: Pos|
                                pos_in_bounds(n2, w, h) && #[trigger] adjacent(c, n2) implies cval(
                                cs,
                                n2,
                            ) < u64::MAX by {
                                lemma_adjacent_cases(pos, n2);
                                if has_parent && n2 == par_p {
                                    assert(pos != from);
                                    assert(cval(cs1, pos) < u64::MAX);
                                    assert(par_p == pval(ps1, pos));
                                    if par_p == from {
                                        assert(pos_in_bounds(from, w, h));
                                        assert(cval(cs1, from) == 0);
                                    } else {
                                        assert(pos_in_bounds(par_p, w, h) && cval(cs1, par_p)
                                            < cval(cs1, pos));
                                    }
                                    assert(cval(cs1, par_p) < u64::MAX);
                                    assert(cval(cs, par_p) <= cval(cs1, par_p));
                                }
                            }
                        } else {
                            if cval(cs1, c) < u64::MAX {
                                if exists|i0: int|
                                    0 <= i0 < heap0.len() && (#[trigger] heap0[i0]).pos == c {
                                    let i0 = choose|i0: int|
                                        0 <= i0 < heap0.len() && (#[trigger] heap0[i0]).pos == c;
                                    assert(heap0[mi as int].pos == pos);
                                    assert(pos != c);
                                    if i0 < mi {
                                        assert(heap1[i0] == heap0[i0]);
                                        assert(hp[i0].pos == c);
                                    } else {
                                        assert(heap1[i0 - 1] == heap0[i0]);
                                        assert(hp[i0 - 1].pos == c);
                                    }
                                } else {
                                    assert forall|n2: Pos|
                                        pos_in_bounds(n2, w, h) && #[trigger] adjacent(c, n2)
                                        implies cval(cs, n2) < u64::MAX by {
                                        assert(cval(cs1, n2) < u64::MAX);
                                        assert(cval(cs, n2) <= cval(cs1, n2));
                                    }
                                }
                            } else {
                                // first visited by one of this iteration's
                                // relaxations, each of which pushes an entry
                                // for the cell it visits
                                lemma_visited_has_entry(
                                    c, w, h, cs1, csa, csb, csc, cs, heap1, hpa, hpb, hpc, hp,
                                );
                            }
                        }
                    }
                }
            }
        }
        proof {
            if pos_in_bounds(from, w, h) && pos_in_bounds(to, w, h) && from != to && !adjacent(
                from,
                to,
            ) && area_sized(w, h) {
                let cs = costs.deep_view();
                assert(cval(cs, from) == 0);
                assert forall|c: Pos, n2: Pos|
                    pos_in_bounds(c, w, h) && #[trigger] cval(cs, c) < u64::MAX && pos_in_bounds(
                        n2,
                        w,
                        h,
                    ) && #[trigger] adjacent(c, n2) implies cval(cs, n2) < u64::MAX by {
                    assert(!(exists|i: int|
                        0 <= i < heap@.len() && (#[trigger] heap@[i]).pos == c));
                }
                lemma_connected_recorded(cs, w, h, from, to);
                assert(cval(cs, to) < u64::MAX);
                assert(false);
            }
        }
        Vec::new()
    }

    /// The 45-degree sector of the direction from `near` towards `town`,
    /// computed with exact integer comparisons.
    fn sector(town: Pos, near: Pos) -> (r: usize)
        ensures
            r < 8,
            r == spec_sector(town.x - near.x, town.y - near.y),
    {
        let tx = town.x;
        let ty = town.y;
        let nx = near.x;
        let ny = near.y;
        if tx > nx && ty >= ny {
            if ty - ny < tx - nx {
                0
            } else {
                1
            }
        } else if ty > ny && tx <= nx {
            if ty - ny > nx - tx {
                2
            } else {
                3
            }
        } else if tx < nx && ty <= ny {
            if ny - ty < nx - tx {
                4
            } else {
                5
            }
        } else if ty < ny {
            if tx - nx < ny - ty {
                6
            } else {
                7
            }
        } else {
            7
        }
    }

    /// Collects every cell lying on a connector route: for each town, nearby
    /// towns within the connection cost bound are sorted by ascending
    /// distance and connected unless their sector (or a neighboring sector)
    /// already has a shorter connection; each unordered pair is routed at
    /// most once, and all the routes' cells are unioned. Every returned
    /// cell lies on a 4-connected route joining two distinct towns whose
    /// move cost is within the connection bound.
    pub fn paths(&self, towns: &Vec<Pos>, altitudes: &Vec<Vec<u8>>) -> (r: Vec<Pos>)
        requires
            self.wf(),
            grid_wf(altitudes.deep_view(), self.width as int, self.height as int),
            forall|i: int|
                0 <= i < towns@.len() ==> pos_in_bounds(
                    #[trigger] towns@[i],
                    self.width as int,
                    self.height as int,
                ),
        ensures
            forall|i: int|
                0 <= i < r@.len() ==> pos_in_bounds(
                    #[trigger] r@[i],
                    self.width as int,
                    self.height as int,
                ),
            forall|i: int, j: int| 0 <= i < j < r@.len() ==> #[trigger] r@[i] != #[trigger] r@[j],
            forall|i: int|
                0 <= i < r@.len() ==> route_cell_ok(
                    #[trigger] r@[i],
                    towns@,
                    self.conn_max_cost as int,
                    self.width as int,
                    self.height as int,
                ),
    {
        let width = self.width;
        let height = self.height;
        let ghost w = width as int;
        let ghost h = height as int;

        let mut conns: Vec<Conn> = Vec::new();
        let mut ti: usize = 0;
        while ti < towns.len()
            invariant
                ti <= towns@.len(),
                w == width as int,
                h == height as int,
                self.wf(),
                self.width == width,
                self.height == height,
                forall|i: int| 0 <= i < towns@.len() ==> pos_in_bounds(#[trigger] towns@[i], w, h),
                forall|i: int|
                    0 <= i < conns@.len() ==> pos_in_bounds((#[trigger] conns@[i]).from, w, h)
                        && pos_in_bounds(conns@[i].to, w, h) && towns@.contains(conns@[i].from)
                        && towns@.contains(conns@[i].to) && conns@[i].from != conns@[i].to
                        && spec_move_cost(conns@[i].from, conns@[i].to)
                        <= self.conn_max_cost as int,
            decreases towns@.len() - ti,
        {
            let town = towns[ti];
            proof {
                assert(towns@.contains(town));
            }
            let mut near: Vec<Near> = Vec::new();
            let mut tj: usize = 0;
            while tj < towns.len()
                invariant
                    tj <= towns@.len(),
                    w == width as int,
                    h == height as int,
                    self.wf(),
                    self.width == width,
                    self.height == height,
                    pos_in_bounds(town, w, h),
                    forall|i: int|
                        0 <= i < towns@.len() ==> pos_in_bounds(#[trigger] towns@[i], w, h),
                    forall|i: int|
                        0 <= i < near@.len() ==> pos_in_bounds((#[trigger] near@[i]).pos, w, h)
                            && towns@.contains(near@[i].pos) && near@[i].pos != town
                            && spec_move_cost(near@[i].pos, town) <= self.conn_max_cost as int,
                decreases towns@.len() - tj,
            {
                let t = towns[tj];
                if !(t.x == town.x && t.y == town.y) {
                    proof {
                        assert(pos_in_bounds(t, w, h));
                        assert(spec_move_cost(t, town) <= w + h);
                        assert(towns@.contains(t));
                    }
                    let cost = t.move_cost(&town);
                    if cost <= self.conn_max_cost {
                        near.push(Near { cost, pos: t });
                    }
                }
                tj = tj + 1;
            }
            let ghost near_v = near@;
            let sorted = sort_near(near);
            let mut dirs: Vec<bool> = Vec::new();
            let mut d: usize = 0;
            while d < 8
                invariant
                    d <= 8,
                    dirs@.len() == d,
                decreases 8 - d,
            {
                dirs.push(false);
                d = d + 1;
            }
            let mut ni: usize = 0;
            while ni < sorted.len()
                invariant
                    ni <= sorted@.len(),
                    w == width as int,
                    h == height as int,
                    self.wf(),
                    self.width == width,
                    self.height == height,
                    dirs@.len() == 8,
                    pos_in_bounds(town, w, h),
                    towns@.contains(town),
                    forall|i: int|
                        0 <= i < sorted@.len() ==> near_v.contains(#[trigger] sorted@[i]),
                    forall|i: int|
                        0 <= i < near_v.len() ==> pos_in_bounds((#[trigger] near_v[i]).pos, w, h)
                            && towns@.contains(near_v[i].pos) && near_v[i].pos != town
                            && spec_move_cost(near_v[i].pos, town) <= self.conn_max_cost as int,
                    forall|i: int|
                        0 <= i < conns@.len() ==> pos_in_bounds((#[trigger] conns@[i]).from, w, h)
                            && pos_in_bounds(conns@[i].to, w, h) && towns@.contains(
                            conns@[i].from,
                        ) && towns@.contains(conns@[i].to) && conns@[i].from != conns@[i].to
                            && spec_move_cost(conns@[i].from, conns@[i].to)
                            <= self.conn_max_cost as int,
                decreases sorted@.len() - ni,
            {
                let near_pos = sorted[ni].pos;
                proof {
                    assert(near_v.contains(sorted@[ni as int]));
                    let k = choose|k: int| 0 <= k < near_v.len() && near_v[k] == sorted@[ni as int];
                    assert(pos_in_bounds(near_v[k].pos, w, h));
                }
                let sec = Self::sector(town, near_pos);
                let sec1 = (sec + 1) % 8;
                let sec7 = (sec + 7) % 8;
                if !(dirs[sec] || dirs[sec1] || dirs[sec7]) {
                    dirs[sec] = true;
                    if !conn_seen(&conns, town, near_pos) {
                        proof {
                            assert(spec_move_cost(town, near_pos) == spec_move_cost(
                                near_pos,
                                town,
                            ));
                        }
                        conns.push(Conn { from: town, to: near_pos });
                    }
                }
                ni = ni + 1;
            }
            ti = ti + 1;
        }

        let mut acc: Vec<Pos> = Vec::new();
        let mut ci: usize = 0;
        while ci < conns.len()
            invariant
                ci <= conns@.len(),
                w == width as int,
                h == height as int,
                self.wf(),
                self.width == width,
                self.height == height,
                grid_wf(altitudes.deep_view(), w, h),
                forall|i: int|
                    0 <= i < conns@.len() ==> pos_in_bounds((#[trigger] conns@[i]).from, w, h)
                        && pos_in_bounds(conns@[i].to, w, h) && towns@.contains(conns@[i].from)
                        && towns@.contains(conns@[i].to) && conns@[i].from != conns@[i].to
                        && spec_move_cost(conns@[i].from, conns@[i].to)
                        <= self.conn_max_cost as int,
                forall|i: int| 0 <= i < acc@.len() ==> pos_in_bounds(#[trigger] acc@[i], w, h),
                forall|i: int, j: int| 0 <= i < j < acc@.len() ==> #[trigger] acc@[i] != #[trigger] acc@[j],
                forall|i: int|
                    0 <= i < acc@.len() ==> route_cell_ok(
                        #[trigger] acc@[i],
                        towns@,
                        self.conn_max_cost as int,
                        w,
                        h,
                    ),
            decreases conns@.len() - ci,
        {
            let from = conns[ci].from;
            let to = conns[ci].to;
            let route = self.shortest_path(from, to, altitudes);
            let mut pi: usize = 0;
            while pi < route.len()
                invariant
                    pi <= route@.len(),
                    w == width as int,
                    h == height as int,
                    self.wf(),
                    self.width == width,
                    self.height == height,
                    towns@.contains(from),
                    towns@.contains(to),
                    from != to,
                    spec_move_cost(from, to) <= self.conn_max_cost as int,
                    forall|i: int|
                        0 <= i < route@.len() ==> pos_in_bounds(#[trigger] route@[i], w, h),
                    forall|i: int|
                        0 <= i < route@.len() ==> #[trigger] route@[i] != from && route@[i] != to,
                    forall|i: int|
                        0 <= i && i + 1 < route@.len() ==> adjacent(
                            #[trigger] route@[i],
                            route@[i + 1],
                        ),
                    route@.len() >= 1 ==> adjacent(to, route@[0]),
                    route@.len() >= 1 ==> adjacent(route@[route@.len() - 1], from),
                    forall|i: int| 0 <= i < acc@.len() ==> pos_in_bounds(#[trigger] acc@[i], w, h),
                    forall|i: int, j: int|
                        0 <= i < j < acc@.len() ==> #[trigger] acc@[i] != #[trigger] acc@[j],
                    forall|i: int|
                        0 <= i < acc@.len() ==> route_cell_ok(
                            #[trigger] acc@[i],
                            towns@,
                            self.conn_max_cost as int,
                            w,
                            h,
                        ),
                decreases route@.len() - pi,
            {
                let cell = route[pi];
                if !crate::board::contains_pos(&acc, cell) {
                    let ghost acc0 = acc@;
                    acc.push(cell);
                    proof {
                        assert(route@[pi as int] == cell);
                        assert(route@.contains(cell));
                        assert(route_cell_ok(cell, towns@, self.conn_max_cost as int, w, h));
                        assert forall|i: int, j: int| 0 <= i < j < acc@.len() implies #[trigger] acc@[i]
                            != #[trigger] acc@[j] by {
                            if j < acc0.len() {
                                assert(acc@[i] == acc0[i] && acc@[j] == acc0[j]);
                            } else {
                                assert(acc@[j] == cell);
                                assert(acc@[i] == acc0[i]);
                                if acc0[i] == cell {
                                    assert(acc0.contains(cell));
                                }
                            }
                        }
                    }
                }
                pi = pi + 1;
            }
            ci = ci + 1;
        }
        acc
    }

    /// Generates one high-resolution board: altitudes are diffused, towns
    /// are placed on the fittest terrain, nearby towns are connected by
    /// low-cost routes, and every cell is classified with the precedence
    /// top over town over path over altitude band.
    ///
    /// The stated guarantees: every altitude is at most 99; town cells are
    /// pairwise farther apart than `town_min_cost`; boards of at least 2048
    /// cells have at least one top cell; and no cell but a top is a strict
    /// local altitude maximum (on boards with at least two cells).
    pub fn gen(&self, rngv: &mut rand::rngs::StdRng) -> (r: Board)
        requires
            self.wf(),
        ensures
            r.wf(),
            r.spec_width() == self.width,
            r.spec_height() == self.height,
            large_board_ok(r),
            exists|ts: Seq<Pos>|
                ts.len() <= self.max_towns && #[trigger] crate::board::town_cells_covered_by(r, ts),
            forall|p: Pos, q: Pos|
                pos_in_bounds(p, self.width as int, self.height as int) && pos_in_bounds(
                    q,
                    self.width as int,
                    self.height as int,
                ) && (#[trigger] cell_of(r, p)).kind == LandKind::Town && (#[trigger] cell_of(
                    r,
                    q,
                )).kind == LandKind::Town && p != q ==> spec_move_cost(p, q)
                    > self.town_min_cost as int,
    {
        let width = self.width;
        let height = self.height;
        let ghost w = width as int;
        let ghost h = height as int;
        let mut slope = SlopeGen::new(width, height, self.down_rate, self.num_tops);
        slope.gen(rngv);
        let ghost a = slope.altitudes.deep_view();
        let ghost tops = slope.tops@;

        let towns = self.towns(rngv, &slope.altitudes);
        let ghost towns_v = towns@;
        let paths = self.paths(&towns, &slope.altitudes);
        let ghost paths_v = paths@;

        let mut cells: Vec<Land> = Vec::new();
        let mut y: usize = 0;
        while y < height
            invariant
                y <= height,
                slope.wf(),
                slope.width == width,
                slope.height == height,
                a == slope.altitudes.deep_view(),
                tops == slope.tops@,
                towns_v == towns@,
                paths_v == paths@,
                w == width as int,
                h == height as int,
                w * h <= usize::MAX,
                cells@.len() == y * width,
                forall|yy: int, xx: int|
                    0 <= yy < y && 0 <= xx < width ==> #[trigger] cells@[yy * width + xx]
                        == spec_large_cell(
                        a,
                        tops,
                        towns_v,
                        paths_v,
                        Pos { x: xx as usize, y: yy as usize },
                    ),
            decreases height - y,
        {
            let mut x: usize = 0;
            proof {
                assert(y * width + width <= height * width) by (nonlinear_arith)
                    requires
                        0 <= y < height,
                        width >= 0,
                {
                }
                assert(height * width <= usize::MAX) by (nonlinear_arith)
                    requires
                        0 <= w * h <= usize::MAX,
                        w == width as int,
                        h == height as int,
                {
                }
            }
            while x < width
                invariant
                    x <= width,
                    y < height,
                    slope.wf(),
                    slope.width == width,
                    slope.height == height,
                    a == slope.altitudes.deep_view(),
                    tops == slope.tops@,
                    towns_v == towns@,
                    paths_v == paths@,
                    w == width as int,
                    h == height as int,
                    y * width + width <= usize::MAX,
                    cells@.len() == y * width + x,
                    forall|yy: int, xx: int|
                        0 <= yy < y && 0 <= xx < width ==> #[trigger] cells@[yy * width + xx]
                            == spec_large_cell(
                            a,
                            tops,
                            towns_v,
                            paths_v,
                            Pos { x: xx as usize, y: yy as usize },
                        ),
                    forall|xx: int|
                        0 <= xx < x ==> #[trigger] cells@[y * width + xx] == spec_large_cell(
                            a,
                            tops,
                            towns_v,
                            paths_v,
                            Pos { x: xx as usize, y: y as usize },
                        ),
                decreases width - x,
            {
                let alt = grid_at(&slope.altitudes, width, height, x, y);
                let p = Pos { x, y };
                let kind = if crate::board::contains_pos(&slope.tops, p) {
                    LandKind::Top
                } else if crate::board::contains_pos(&towns, p) {
                    LandKind::Town
                } else if crate::board::contains_pos(&paths, p) {
                    LandKind::Path
                } else {
                    Self::land_kind(alt)
                };
                let ghost cells0 = cells@;
                cells.push(Land { kind, altitude: alt });
                proof {
                    assert(cells@ == cells0.push(Land { kind, altitude: alt }));
                    assert(cells@[y * width + x] == spec_large_cell(a, tops, towns_v, paths_v, p));
                    assert forall|yy: int, xx: int| 0 <= yy < y && 0 <= xx < width implies #[trigger] cells@[yy
                        * width + xx] == spec_large_cell(
                        a,
                        tops,
                        towns_v,
                        paths_v,
                        Pos { x: xx as usize, y: yy as usize },
                    ) by {
                        assert(yy * width + xx < y * width) by (nonlinear_arith)
                            requires
                                0 <= yy < y,
                                0 <= xx < width,
                        {
                        }
                        assert(cells@[yy * width + xx] == cells0[yy * width + xx]);
                    }
                }
                x = x + 1;
            }
            proof {
                assert((y as int + 1) * width == y as int * width + width) by (nonlinear_arith)
                {
                }
            }
            y = y + 1;
        }

        proof {
            assert(cells@.len() == width * height) by (nonlinear_arith)
                requires
                    cells@.len() == height * width,
            {
            }
        }
        let r = Board::build(width, height, cells);
        proof {
            assert forall|p: Pos| pos_in_bounds(p, w, h) implies #[trigger] cell_of(r, p)
                == spec_large_cell(a, tops, towns_v, paths_v, p) by {
                crate::board::lemma_row_major_index(w, h, p.x as int, p.y as int);
                assert(cells@[p.y as int * width + p.x as int] == spec_large_cell(
                    a,
                    tops,
                    towns_v,
                    paths_v,
                    p,
                ));
            }
            if self.width * self.height >= 2048 {
                assert((self.width * self.height) as int / 2048 >= 1) by (nonlinear_arith)
                    requires
                        self.width * self.height >= 2048,
                {
                }
                assert(tops.len() >= 1);
                let t0 = tops[0];
                assert(cell_of(r, t0).kind == LandKind::Top);
            }
            assert forall|p: Pos|
                pos_in_bounds(p, w, h) && (#[trigger] cell_of(r, p)).kind != LandKind::Top
                    && cell_of(r, p).kind != LandKind::Town && cell_of(r, p).kind != LandKind::Path
                implies cell_of(r, p).kind == spec_large_kind(cell_of(r, p).altitude) by {
                assert(cell_of(r, p) == spec_large_cell(a, tops, towns_v, paths_v, p));
                assert(!tops.contains(p) && !towns_v.contains(p) && !paths_v.contains(p));
            }
            assert forall|p: Pos|
                pos_in_bounds(p, w, h) && (#[trigger] cell_of(r, p)).kind == LandKind::Town
                implies towns_v.contains(p) by {
                assert(cell_of(r, p) == spec_large_cell(a, tops, towns_v, paths_v, p));
            }
            assert(towns_v.len() <= self.max_towns);
            assert(crate::board::town_cells_covered_by(r, towns_v));
            assert forall|p: Pos, q: Pos|
                pos_in_bounds(p, w, h) && pos_in_bounds(q, w, h) && (#[trigger] cell_of(r, p)).kind
                    == LandKind::Town && (#[trigger] cell_of(r, q)).kind == LandKind::Town && p
                    != q implies spec_move_cost(p, q) > self.town_min_cost as int by {
                assert(towns_v.contains(p) && towns_v.contains(q));
                let i = choose|i: int| 0 <= i < towns_v.len() && towns_v[i] == p;
                let j = choose|j: int| 0 <= j < towns_v.len() && towns_v[j] == q;
                assert(i != j);
                assert(spec_move_cost(towns_v[i], towns_v[j]) > self.town_min_cost as int);
            }
            assert forall|p: Pos|
                pos_in_bounds(p, w, h) && (#[trigger] cell_of(r, p)).kind != LandKind::Top && w * h
                    != 1 implies crate::board::board_has_ge_neighbor(r, p) by {
                assert(!tops.contains(p));
                assert(crate::slope::has_ge_neighbor(a, w, h, p));
                let q = choose|q: Pos|
                    pos_in_bounds(q, w, h) && adjacent(p, q) && #[trigger] alt_at(a, q) >= alt_at(
                        a,
                        p,
                    );
                assert(cell_of(r, q).altitude == alt_at(a, q));
                assert(cell_of(r, p).altitude == alt_at(a, p));
                assert(pos_in_bounds(q, r.spec_width() as int, r.spec_height() as int) && adjacent(
                    p,
                    q,
                ) && cell_of(r, q).altitude >= cell_of(r, p).altitude);
            }
        }
        r
    }
}





/// The recorded search cost of position `p`.
pub open spec fn cval(cs: Seq<Seq<u64>>, p: Pos) -> u64 {
    cs[p.y as int][p.x as int]
}

/// The recorded predecessor of position `p`.
pub open spec fn pval(ps: Seq<Seq<Pos>>, p: Pos) -> Pos {
    ps[p.y as int][p.x as int]
}

/// Whether a cost grid is `width` by `height`.
pub open spec fn cs_wf(cs: Seq<Seq<u64>>, width: int, height: int) -> bool {
    cs.len() == height && forall|y: int| 0 <= y < height ==> (#[trigger] cs[y]).len() == width
}

/// Whether a predecessor grid is `width` by `height`.
pub open spec fn ps_wf(ps: Seq<Seq<Pos>>, width: int, height: int) -> bool {
    ps.len() == height && forall|y: int| 0 <= y < height ==> (#[trigger] ps[y]).len() == width
}

/// The search invariant tying recorded costs and predecessors together: a
/// visited cell other than the source has an adjacent predecessor that is
/// the source itself or a visited cell of strictly smaller cost, and the
/// source's own recorded cost stays zero. The strict cost descent makes
/// predecessor chains acyclic.
pub open spec fn search_inv(
    cs: Seq<Seq<u64>>,
    ps: Seq<Seq<Pos>>,
    width: int,
    height: int,
    from: Pos,
) -> bool {
    &&& forall|p: Pos|
        pos_in_bounds(p, width, height) && cval(cs, p) < u64::MAX && p != from ==> {
            let q = #[trigger] pval(ps, p);
            &&& adjacent(p, q)
            &&& (q == from || (pos_in_bounds(q, width, height) && cval(cs, q) < cval(cs, p)))
        }
    &&& (pos_in_bounds(from, width, height) ==> cval(cs, from) == 0)
}

/// One frontier entry of the search, carrying (as ghost data) the route of
/// cells after the source along which its cost was accumulated.
struct Vert {
    cost: u64,
    pos: Pos,
    chain: Ghost<Seq<Pos>>,
}

/// What holds of every frontier entry: it is the initial source entry, or
/// its position is a visited cell whose recorded cost is at most the
/// entry's cost, and its route is a duplicate-free sequence of visited
/// in-bounds cells ending at the entry's position. The route bounds the
/// entry's cost by 64 per cell, and so by 64 times the board area.
spec fn vert_ok(v: Vert, cs: Seq<Seq<u64>>, width: int, height: int, from: Pos) -> bool {
    ||| (v.pos == from && v.cost == 0 && v.chain@.len() == 0)
    ||| {
        &&& pos_in_bounds(v.pos, width, height)
        &&& cval(cs, v.pos) <= v.cost
        &&& cval(cs, v.pos) < u64::MAX
        &&& v.chain@.len() >= 1
        &&& v.chain@.last() == v.pos
        &&& v.cost <= 64 * v.chain@.len()
        &&& v.chain@.len() <= width * height
        &&& forall|i: int, j: int|
            0 <= i < j < v.chain@.len() ==> #[trigger] v.chain@[i] != #[trigger] v.chain@[j]
        &&& forall|i: int|
            0 <= i < v.chain@.len() ==> pos_in_bounds(#[trigger] v.chain@[i], width, height)
        &&& forall|i: int| 0 <= i < v.chain@.len() ==> cval(cs, #[trigger] v.chain@[i]) <= v.cost
    }
}

/// Whether the board area is small enough that no accumulated route cost
/// can reach the saturation value; true of every board that fits in memory.
pub open spec fn area_sized(width: int, height: int) -> bool {
    64 * (width * height + 1) < u64::MAX
}

/// The search's progress invariant: every visited cell still has a
/// frontier entry, or all its in-bounds neighbors are visited too. When the
/// frontier empties, the visited set is therefore closed under adjacency.
spec fn frontier_closed(cs: Seq<Seq<u64>>, hp: Seq<Vert>, width: int, height: int) -> bool {
    forall|c: Pos|
        pos_in_bounds(c, width, height) && #[trigger] cval(cs, c) < u64::MAX ==> ((exists|i: int|
            0 <= i < hp.len() && (#[trigger] hp[i]).pos == c) || (forall|n: Pos|
            pos_in_bounds(n, width, height) && #[trigger] adjacent(c, n) ==> cval(cs, n)
                < u64::MAX))
}

/// How one relaxation changes the search state: the frontier only grows at
/// the end, and any newly visited cell gains a frontier entry.
spec fn visit_step(
    cs0: Seq<Seq<u64>>,
    cs: Seq<Seq<u64>>,
    hp0: Seq<Vert>,
    hp: Seq<Vert>,
    width: int,
    height: int,
) -> bool {
    &&& hp.len() >= hp0.len()
    &&& forall|i: int| 0 <= i < hp0.len() ==> #[trigger] hp[i] == hp0[i]
    &&& forall|c: Pos|
        pos_in_bounds(c, width, height) && #[trigger] cval(cs, c) < u64::MAX ==> ((exists|i: int|
            0 <= i < hp.len() && (#[trigger] hp[i]).pos == c) || cval(cs0, c) < u64::MAX)
}

/// Across the four relaxations of one expansion, a cell that ends up
/// visited either keeps a frontier entry or was visited before them all.
proof fn lemma_visited_has_entry(
    c: Pos,
    width: int,
    height: int,
    cs1: Seq<Seq<u64>>,
    csa: Seq<Seq<u64>>,
    csb: Seq<Seq<u64>>,
    csc: Seq<Seq<u64>>,
    csd: Seq<Seq<u64>>,
    h1: Seq<Vert>,
    ha: Seq<Vert>,
    hb: Seq<Vert>,
    hc: Seq<Vert>,
    hd: Seq<Vert>,
)
    requires
        visit_step(cs1, csa, h1, ha, width, height),
        visit_step(csa, csb, ha, hb, width, height),
        visit_step(csb, csc, hb, hc, width, height),
        visit_step(csc, csd, hc, hd, width, height),
        pos_in_bounds(c, width, height),
        cval(csd, c) < u64::MAX,
    ensures
        (exists|i: int| 0 <= i < hd.len() && (#[trigger] hd[i]).pos == c) || cval(cs1, c)
            < u64::MAX,
{
    if cval(csc, c) < u64::MAX {
        if cval(csb, c) < u64::MAX {
            if cval(csa, c) < u64::MAX {
                if !(cval(cs1, c) < u64::MAX) {
                    let i = choose|i: int| 0 <= i < ha.len() && (#[trigger] ha[i]).pos == c;
                    assert(hb[i] == ha[i]);
                    assert(hc[i] == hb[i]);
                    assert(hd[i] == hc[i]);
                    assert(hd[i].pos == c);
                }
            } else {
                let i = choose|i: int| 0 <= i < hb.len() && (#[trigger] hb[i]).pos == c;
                assert(hc[i] == hb[i]);
                assert(hd[i] == hc[i]);
                assert(hd[i].pos == c);
            }
        } else {
            let i = choose|i: int| 0 <= i < hc.len() && (#[trigger] hc[i]).pos == c;
            assert(hd[i] == hc[i]);
            assert(hd[i].pos == c);
        }
    } else {
        let i = choose|i: int| 0 <= i < hd.len() && (#[trigger] hd[i]).pos == c;
        assert(hd[i].pos == c);
    }
}

/// A cell adjacent to `c` is one of its four cardinal neighbors.
proof fn lemma_adjacent_cases(c: Pos, n: Pos)
    requires
        adjacent(c, n),
    ensures
        (c.y >= 1 && n == Pos { x: c.x, y: (c.y - 1) as usize }) || (c.x >= 1 && n == Pos {
            x: (c.x - 1) as usize,
            y: c.y,
        }) || (c.x < usize::MAX && n == Pos { x: (c.x + 1) as usize, y: c.y }) || (c.y
            < usize::MAX && n == Pos { x: c.x, y: (c.y + 1) as usize }),
{
}

/// On a grid whose visited set is closed under adjacency, every cell is
/// visited once one is: the two cells are joined by a staircase of
/// cardinal steps.
proof fn lemma_connected_recorded(cs: Seq<Seq<u64>>, width: int, height: int, a: Pos, b: Pos)
    requires
        pos_in_bounds(a, width, height),
        pos_in_bounds(b, width, height),
        cval(cs, a) < u64::MAX,
        forall|c: Pos, n: Pos|
            pos_in_bounds(c, width, height) && #[trigger] cval(cs, c) < u64::MAX && pos_in_bounds(
                n,
                width,
                height,
            ) && #[trigger] adjacent(c, n) ==> cval(cs, n) < u64::MAX,
    ensures
        cval(cs, b) < u64::MAX,
    decreases spec_move_cost(a, b),
{
    if a != b {
        let a2 = if a.x < b.x {
            Pos { x: (a.x + 1) as usize, y: a.y }
        } else if a.x > b.x {
            Pos { x: (a.x - 1) as usize, y: a.y }
        } else if a.y < b.y {
            Pos { x: a.x, y: (a.y + 1) as usize }
        } else {
            Pos { x: a.x, y: (a.y - 1) as usize }
        };
        assert(pos_in_bounds(a2, width, height) && adjacent(a, a2));
        assert(cval(cs, a2) < u64::MAX);
        assert(spec_move_cost(a2, b) < spec_move_cost(a, b));
        lemma_connected_recorded(cs, width, height, a2, b);
    }
}

spec fn heap_ok(hp: Seq<Vert>, cs: Seq<Seq<u64>>, width: int, height: int, from: Pos) -> bool {
    forall|i: int| 0 <= i < hp.len() ==> vert_ok(#[trigger] hp[i], cs, width, height, from)
}

/// The sum of one row of recorded costs.
pub open spec fn row_cost_measure(row: Seq<u64>) -> nat {
    crate::sums::sum_nats(row.map_values(|c: u64| c as nat))
}

/// The sum of all recorded costs; every successful relaxation strictly
/// lowers it, so it serves as a termination measure for the search.
pub open spec fn costs_measure(cs: Seq<Seq<u64>>) -> nat {
    crate::sums::sum_nats(cs.map_values(|r: Seq<u64>| row_cost_measure(r)))
}

/// Lowering one recorded cost strictly lowers the total measure.
proof fn lemma_costs_measure_update(cs: Seq<Seq<u64>>, x: int, y: int, v: u64)
    requires
        0 <= y < cs.len(),
        0 <= x < cs[y].len(),
        v < cs[y][x],
    ensures
        costs_measure(cs.update(y, cs[y].update(x, v))) < costs_measure(cs),
{
    let row = cs[y];
    let row2 = row.update(x, v);
    assert(row2.map_values(|c: u64| c as nat) =~= row.map_values(|c: u64| c as nat).update(
        x,
        v as nat,
    ));
    crate::sums::lemma_sum_update(row.map_values(|c: u64| c as nat), x, v as nat);
    assert(row_cost_measure(row2) < row_cost_measure(row));
    let cs2 = cs.update(y, row2);
    assert(cs2.map_values(|r: Seq<u64>| row_cost_measure(r)) =~= cs.map_values(
        |r: Seq<u64>| row_cost_measure(r),
    ).update(y, row_cost_measure(row2)));
    crate::sums::lemma_sum_update(cs.map_values(|r: Seq<u64>| row_cost_measure(r)), y, row_cost_measure(row2));
}

/// Reads one recorded cost.
fn cs_get(g: &Vec<Vec<u64>>, x: usize, y: usize) -> (r: u64)
    requires
        y < g.deep_view().len(),
        x < g.deep_view()[y as int].len(),
    ensures
        r == g.deep_view()[y as int][x as int],
{
    proof {
        assert(g@.len() == g.deep_view().len());
        assert(g@[y as int]@ =~= g.deep_view()[y as int]);
    }
    g[y][x]
}

/// Writes one recorded cost, leaving every other cell unchanged.
fn cs_set(g: &mut Vec<Vec<u64>>, x: usize, y: usize, v: u64)
    requires
        y < old(g).deep_view().len(),
        x < old(g).deep_view()[y as int].len(),
    ensures
        final(g).deep_view() == old(g).deep_view().update(
            y as int,
            old(g).deep_view()[y as int].update(x as int, v),
        ),
{
    let ghost g0 = g.deep_view();
    proof {
        assert(g@.len() == g.deep_view().len());
        assert(g@[y as int]@ =~= g.deep_view()[y as int]);
    }
    g[y][x] = v;
    proof {
        assert(g.deep_view() =~~= g0.update(y as int, g0[y as int].update(x as int, v)));
    }
}

/// Reads one recorded predecessor.
fn ps_get(g: &Vec<Vec<Pos>>, x: usize, y: usize) -> (r: Pos)
    requires
        y < g.deep_view().len(),
        x < g.deep_view()[y as int].len(),
    ensures
        r == g.deep_view()[y as int][x as int],
{
    proof {
        assert(g@.len() == g.deep_view().len());
        assert(g@[y as int]@ =~= g.deep_view()[y as int]);
    }
    g[y][x]
}

/// Writes one recorded predecessor, leaving every other cell unchanged.
fn ps_set(g: &mut Vec<Vec<Pos>>, x: usize, y: usize, v: Pos)
    requires
        y < old(g).deep_view().len(),
        x < old(g).deep_view()[y as int].len(),
    ensures
        final(g).deep_view() == old(g).deep_view().update(
            y as int,
            old(g).deep_view()[y as int].update(x as int, v),
        ),
{
    let ghost g0 = g.deep_view();
    proof {
        assert(g@.len() == g.deep_view().len());
        assert(g@[y as int]@ =~= g.deep_view()[y as int]);
    }
    g[y][x] = v;
    proof {
        assert(g.deep_view() =~~= g0.update(y as int, g0[y as int].update(x as int, v)));
    }
}


/// The 45-degree sector, counted counterclockwise from the positive x axis,
/// that the direction vector `(dx, dy)` falls into; each boundary ray
/// belongs to the sector it opens.
pub open spec fn spec_sector(dx: int, dy: int) -> int {
    if dx > 0 && dy >= 0 && dy < dx {
        0
    } else if dx > 0 && dy >= dx {
        1
    } else if dx <= 0 && dy > 0 && dy > -dx {
        2
    } else if dx < 0 && dy > 0 && dy <= -dx {
        3
    } else if dx < 0 && dy <= 0 && dy > dx {
        4
    } else if dx < 0 && dy <= dx {
        5
    } else if dy < 0 && dx >= 0 && dx < -dy {
        6
    } else {
        7
    }
}

/// Whether `cell` lies on a well-formed connector route: a 4-connected
/// chain of interior route cells joining two distinct towns whose move
/// cost is within the connection bound, excluding the towns themselves.
pub open spec fn route_cell_ok(
    cell: Pos,
    towns: Seq<Pos>,
    conn_max: int,
    width: int,
    height: int,
) -> bool {
    exists|route: Seq<Pos>, a: Pos, b: Pos|
        #![trigger route.contains(cell), towns.contains(a), towns.contains(b)]
        {
            &&& towns.contains(a)
            &&& towns.contains(b)
            &&& a != b
            &&& spec_move_cost(a, b) <= conn_max
            &&& route.contains(cell)
            &&& route.len() >= 1
            &&& adjacent(b, route[0])
            &&& adjacent(route[route.len() - 1], a)
            &&& forall|k: int|
                0 <= k && k + 1 < route.len() ==> adjacent(#[trigger] route[k], route[k + 1])
            &&& forall|k: int|
                0 <= k < route.len() ==> pos_in_bounds(#[trigger] route[k], width, height)
                    && route[k] != a && route[k] != b
        }
}

/// A candidate connection target: another town and its move cost.
struct Near {
    cost: usize,
    pos: Pos,
}

/// An unordered connection between two towns, kept in drawing order.
struct Conn {
    from: Pos,
    to: Pos,
}

/// Whether `conns` already holds the pair `(a, b)` in either orientation.
fn conn_seen(conns: &Vec<Conn>, a: Pos, b: Pos) -> (r: bool)
    ensures
        r == exists|i: int|
            0 <= i < conns@.len() && (((#[trigger] conns@[i]).from == a && conns@[i].to == b) || (
            conns@[i].from == b && conns@[i].to == a)),
{
    let mut i: usize = 0;
    while i < conns.len()
        invariant
            i <= conns@.len(),
            forall|j: int|
                0 <= j < i ==> !(((#[trigger] conns@[j]).from == a && conns@[j].to == b) || (
                conns@[j].from == b && conns@[j].to == a)),
        decreases conns@.len() - i,
    {
        let c_from = conns[i].from;
        let c_to = conns[i].to;
        if (c_from.x == a.x && c_from.y == a.y && c_to.x == b.x && c_to.y == b.y) || (c_from.x
            == b.x && c_from.y == b.y && c_to.x == a.x && c_to.y == a.y) {
            proof {
                assert(((conns@[i as int].from == a && conns@[i as int].to == b) || (
                conns@[i as int].from == b && conns@[i as int].to == a)));
            }
            return true;
        }
        i = i + 1;
    }
    false
}

/// Sorts candidate targets by ascending move cost, keeping exactly the
/// elements given (by repeatedly extracting a cheapest remaining one).
fn sort_near(v: Vec<Near>) -> (r: Vec<Near>)
    ensures
        r@.len() == v@.len(),
        r@.to_multiset() == v@.to_multiset(),
        forall|i: int| 0 <= i < r@.len() ==> v@.contains(#[trigger] r@[i]),
        forall|i: int, j: int|
            0 <= i <= j < r@.len() ==> (#[trigger] r@[i]).cost <= (#[trigger] r@[j]).cost,
{
    let ghost orig = v@;
    let mut rest = v;
    let mut out: Vec<Near> = Vec::new();
    proof {
        assert forall|i: int| 0 <= i < rest@.len() implies orig.contains(#[trigger] rest@[i]) by {
            assert(rest@[i] == orig[i]);
        }
    }
    proof {
        broadcast use vstd::multiset::group_multiset_axioms;

        out@.to_multiset_ensures();
        vstd::multiset::lemma_multiset_empty_len(out@.to_multiset());
        assert(out@.to_multiset().add(rest@.to_multiset()) =~= orig.to_multiset());
    }
    while rest.len() > 0
        invariant
            out@.len() + rest@.len() == orig.len(),
            out@.to_multiset().add(rest@.to_multiset()) == orig.to_multiset(),
            forall|i: int| 0 <= i < out@.len() ==> orig.contains(#[trigger] out@[i]),
            forall|i: int| 0 <= i < rest@.len() ==> orig.contains(#[trigger] rest@[i]),
            forall|i: int, j: int|
                0 <= i <= j < out@.len() ==> (#[trigger] out@[i]).cost <= (#[trigger] out@[j]).cost,
            forall|i: int, j: int|
                0 <= i < out@.len() && 0 <= j < rest@.len() ==> (#[trigger] out@[i]).cost
                    <= (#[trigger] rest@[j]).cost,
        decreases rest@.len(),
    {
        let mut mi: usize = 0;
        let mut k: usize = 1;
        while k < rest.len()
            invariant
                rest@.len() > 0,
                mi < rest@.len(),
                k <= rest@.len(),
                forall|j: int| 0 <= j < k ==> rest@[mi as int].cost <= (#[trigger] rest@[j]).cost,
            decreases rest@.len() - k,
        {
            if rest[k].cost < rest[mi].cost {
                mi = k;
            }
            k = k + 1;
        }
        let ghost rest0 = rest@;
        let ghost out0 = out@;
        let m = rest.remove(mi);
        out.push(m);
        proof {
            broadcast use vstd::multiset::group_multiset_axioms;

            assert(m == rest0[mi as int]);
            rest0.to_multiset_ensures();
            out0.to_multiset_ensures();
            assert(rest@.to_multiset() =~= rest0.to_multiset().remove(m));
            assert(out@.to_multiset() =~= out0.to_multiset().insert(m));
            assert(rest0.contains(m));
            assert(rest0.to_multiset().count(m) > 0);
            assert(out@.to_multiset().add(rest@.to_multiset()) =~= orig.to_multiset());
            assert forall|i: int| 0 <= i < rest@.len() implies orig.contains(
                #[trigger] rest@[i],
            ) by {
                if i < mi {
                    assert(rest@[i] == rest0[i]);
                } else {
                    assert(rest@[i] == rest0[i + 1]);
                }
            }
            assert forall|i: int, j: int|
                0 <= i < out@.len() && 0 <= j < rest@.len() implies (#[trigger] out@[i]).cost
                <= (#[trigger] rest@[j]).cost by {
                let r0j = if j < mi {
                    rest0[j]
                } else {
                    rest0[j + 1]
                };
                assert(rest@[j] == r0j);
                if i < out0.len() {
                    assert(out@[i] == out0[i]);
                } else {
                    assert(out@[i] == m);
                    assert(m.cost <= r0j.cost);
                }
            }
        }
    }
    proof {
        broadcast use vstd::multiset::group_multiset_axioms;

        rest@.to_multiset_ensures();
        vstd::multiset::lemma_multiset_empty_len(rest@.to_multiset());
        assert(rest@.to_multiset() =~= Multiset::<Near>::empty());
        assert(out@.to_multiset() =~= orig.to_multiset());
    }
    out
}

} // verus!
