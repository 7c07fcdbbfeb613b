//! The random world-map generator: dispatches to one of three resolutions
//! by request or by board size, and defaults omitted sizes from the
//! terminal geometry handed in by the caller.

use vstd::prelude::*;

use crate::board::{cell_of, pos_in_bounds, Board, Pos};
use crate::error::Error;
use crate::land::{Land, LandKind};
use crate::large_gen::{large_board_ok, large_params_ok, LargeBoardGen};
use crate::middle_gen::{middle_board_ok, middle_down_rate, middle_params_ok, MiddleBoardGen};
use crate::rng;

verus! {

/// Resolution of the board.
#[derive(Debug, Copy, Clone, Eq, PartialEq, Structural)]
pub enum Resolution {
    /// Low resolution: limited kinds of cells, one independent random
    /// altitude per cell.
    Low,
    /// Middle resolution: mountains are carved with slopes and towns are
    /// placed.
    Middle,
    /// High resolution: more kinds such as deep sea and highland are used,
    /// and paths between towns are drawn.
    High,
}

/// The altitude band classification of the low resolution.
pub open spec fn spec_small_kind(alt: u8) -> LandKind {
    if alt <= 15 {
        LandKind::Sea
    } else if alt <= 55 {
        LandKind::Plain
    } else if alt <= 85 {
        LandKind::Forest
    } else {
        LandKind::Mountain
    }
}

/// What every generated low-resolution board satisfies: every cell carries
/// an altitude below 100 and exactly the kind of its altitude band.
pub open spec fn small_board_ok(b: Board) -> bool {
    forall|p: Pos|
        pos_in_bounds(p, b.spec_width() as int, b.spec_height() as int) ==> {
            let c = #[trigger] cell_of(b, p);
            c.altitude <= 99 && c.kind == spec_small_kind(c.altitude)
        }
}

/// How the board size is settled: explicit sizes win; an omitted one falls
/// back to the terminal geometry, with the width halved because a cell is
/// drawn two characters wide, and the height capped by that width. Without
/// terminal geometry an omitted size is an error.
pub open spec fn spec_board_size(
    width: Option<usize>,
    height: Option<usize>,
    term: Option<(usize, usize)>,
) -> Result<(usize, usize), Error> {
    match (width, height) {
        (Some(w), Some(h)) => Ok((w, h)),
        _ => match term {
            None => Err(Error::CannotDetermineTermsize),
            Some((tw, th)) => {
                let wdef = (tw / 2) as usize;
                let w = match width {
                    Some(w) => w,
                    None => wdef,
                };
                let h = match height {
                    Some(h) => h,
                    None => if wdef <= th {
                        wdef
                    } else {
                        th
                    },
                };
                Ok((w, h))
            },
        },
    }
}

/// The resolution selected for a size when none is requested: both sides
/// under 15 is low, both under 120 is middle, anything else is high.
pub open spec fn spec_tier(resolution: Option<Resolution>, width: int, height: int) -> Resolution {
    match resolution {
        Some(r) => r,
        None => if width < 15 && height < 15 {
            Resolution::Low
        } else if width < 120 && height < 120 {
            Resolution::Middle
        } else {
            Resolution::High
        },
    }
}

/// The board sizes each resolution can handle.
pub open spec fn tier_params_ok(tier: Resolution, width: int, height: int) -> bool {
    match tier {
        Resolution::Low => width * height <= usize::MAX,
        Resolution::Middle => middle_params_ok(width, height),
        Resolution::High => large_params_ok(width, height),
    }
}

/// What a generated board of each resolution satisfies.
pub open spec fn tier_board_ok(tier: Resolution, b: Board) -> bool {
    match tier {
        Resolution::Low => small_board_ok(b),
        Resolution::Middle => middle_board_ok(b),
        Resolution::High => large_board_ok(b),
    }
}

/// Settles the board size from the explicit sizes and the terminal
/// geometry, if any.
fn board_size(width: Option<usize>, height: Option<usize>, term: Option<(usize, usize)>) -> (r:
    Result<(usize, usize), Error>)
    ensures
        r == spec_board_size(width, height, term),
{
    if let (Some(w), Some(h)) = (width, height) {
        return Ok((w, h));
    }
    match term {
        None => Err(Error::CannotDetermineTermsize),
        Some((tw, th)) => {
            let wdef = tw / 2;
            let w = match width {
                Some(w) => w,
                None => wdef,
            };
            let h = match height {
                Some(h) => h,
                None => if wdef <= th {
                    wdef
                } else {
                    th
                },
            };
            Ok((w, h))
        },
    }
}

/// Whether the middle resolution can handle a `width` by `height` board.
fn middle_ok(width: usize, height: usize) -> (r: bool)
    ensures
        r == middle_params_ok(width as int, height as int),
{
    let area = match width.checked_mul(height) {
        Some(a) => a,
        None => {
            return false;
        },
    };
    if area == 0 {
        return false;
    }
    let both = match width.checked_add(height) {
        Some(b) => b,
        None => {
            return false;
        },
    };
    if both > usize::MAX / 6 {
        proof {
            assert((width + height) * 6 > usize::MAX) by (nonlinear_arith)
                requires
                    width + height == both,
                    both > usize::MAX / 6,
            {
            }
        }
        return false;
    }
    proof {
        assert((width + height) * 6 <= usize::MAX) by (nonlinear_arith)
            requires
                width + height == both,
                both <= usize::MAX / 6,
        {
        }
    }
    let q = 48 * 36 * 8 / area;
    let d = 12 + q % 256;
    if d > 255 {
        return false;
    }
    let low = 7 * d / 10;
    proof {
        assert(d == middle_down_rate(width as int, height as int));
        assert(low == 7 * (d as int) / 10);
    }
    low >= 1 && low + 4 * (d - low) <= 255
}

/// Whether the high resolution can handle a `width` by `height` board.
fn large_ok(width: usize, height: usize) -> (r: bool)
    ensures
        r == large_params_ok(width as int, height as int),
{
    if width == 0 || height == 0 {
        return false;
    }
    if width.checked_mul(height).is_none() {
        return false;
    }
    if width.checked_add(height).is_none() {
        return false;
    }
    true
}

/// Random world-map board generator, holding the random source every
/// resolution draws from.
pub struct RandomBoardGen {
    rng: rand::rngs::StdRng,
}

impl RandomBoardGen {
    /// A generator whose random source is seeded with the given seed, so
    /// that equal seeds yield equal boards.
    pub fn from_seed(seed: u64) -> Self {
        RandomBoardGen { rng: rng::rng_from_seed(seed) }
    }

    /// A generator whose random source is seeded from the operating
    /// system's entropy; it aborts in the rare case that the operating
    /// system cannot provide entropy.
    pub fn default() -> Self {
        RandomBoardGen { rng: rng::rng_from_entropy() }
    }

    /// The most generic way to generate a random map: an omitted size is
    /// settled from the terminal geometry in `term` (an error when that is
    /// unknown too), an omitted resolution is selected from the size, and a
    /// size the selected resolution cannot handle is reported as too small.
    pub fn gen(
        &mut self,
        resolution: &Option<Resolution>,
        width: Option<usize>,
        height: Option<usize>,
        term: Option<(usize, usize)>,
    ) -> (r: Result<Board, Error>)
        ensures
            spec_board_size(width, height, term) matches Err(e) ==> r == Result::<
                Board,
                Error,
            >::Err(e),
            spec_board_size(width, height, term) matches Ok(wh) ==> {
                let tier = spec_tier(*resolution, wh.0 as int, wh.1 as int);
                &&& (!tier_params_ok(tier, wh.0 as int, wh.1 as int) ==> r == Result::<
                    Board,
                    Error,
                >::Err(Error::BoardTooSmall))
                &&& (tier_params_ok(tier, wh.0 as int, wh.1 as int) ==> (r matches Ok(b) && b.wf()
                    && b.spec_width() == wh.0 && b.spec_height() == wh.1 && tier_board_ok(tier, b)))
            },
    {
        let (w, h) = match board_size(width, height, term) {
            Ok(wh) => wh,
            Err(e) => {
                return Err(e);
            },
        };
        let auto_low = w < 15 && h < 15;
        let auto_middle = w < 120 && h < 120;
        let tier = match resolution {
            Some(Resolution::Low) => Resolution::Low,
            Some(Resolution::Middle) => Resolution::Middle,
            Some(Resolution::High) => Resolution::High,
            None => if auto_low {
                Resolution::Low
            } else if auto_middle {
                Resolution::Middle
            } else {
                Resolution::High
            },
        };
        proof {
            assert(tier == spec_tier(*resolution, w as int, h as int));
        }
        match tier {
            Resolution::Low => {
                if w.checked_mul(h).is_none() {
                    return Err(Error::BoardTooSmall);
                }
                Ok(self.gen_small(w, h))
            },
            Resolution::Middle => {
                if !middle_ok(w, h) {
                    return Err(Error::BoardTooSmall);
                }
                Ok(self.gen_middle(w, h))
            },
            Resolution::High => {
                if !large_ok(w, h) {
                    return Err(Error::BoardTooSmall);
                }
                Ok(self.gen_large(w, h))
            },
        }
    }

    /// Generates a random map of the given size; the resolution is selected
    /// from the size as in [`spec_tier`].
    pub fn gen_auto(&mut self, width: usize, height: usize) -> (r: Board)
        requires
            tier_params_ok(spec_tier(None, width as int, height as int), width as int, height as int),
        ensures
            r.wf(),
            r.spec_width() == width,
            r.spec_height() == height,
            tier_board_ok(spec_tier(None, width as int, height as int), r),
    {
        if width < 15 && height < 15 {
            self.gen_small(width, height)
        } else if width < 120 && height < 120 {
            self.gen_middle(width, height)
        } else {
            self.gen_large(width, height)
        }
    }

    /// Generates a low-resolution map: every cell is classified
    /// independently from one uniform random altitude below 100.
    pub fn gen_small(&mut self, width: usize, height: usize) -> (r: Board)
        requires
            width * height <= usize::MAX,
        ensures
            r.wf(),
            r.spec_width() == width,
            r.spec_height() == height,
            small_board_ok(r),
    {
        let ghost w = width as int;
        let ghost h = height as int;
        let mut cells: Vec<Land> = Vec::new();
        let mut y: usize = 0;
        while y < height
            invariant
                y <= height,
                w == width as int,
                h == height as int,
                w * h <= usize::MAX,
                cells@.len() == y * width,
                forall|i: int|
                    0 <= i < cells@.len() ==> (#[trigger] cells@[i]).altitude <= 99
                        && cells@[i].kind == spec_small_kind(cells@[i].altitude),
            decreases height - y,
        {
            let mut x: usize = 0;
            proof {
                assert(y * width + width <= height * width) by (nonlinear_arith)
                    requires
                        0 <= y < height,
                        width >= 0,
                {
                }
                assert(height * width <= usize::MAX) by (nonlinear_arith)
                    requires
                        0 <= w * h <= usize::MAX,
                        w == width as int,
                        h == height as int,
                {
                }
            }
            while x < width
                invariant
                    x <= width,
                    y < height,
                    y * width + width <= usize::MAX,
                    cells@.len() == y * width + x,
                    forall|i: int|
                        0 <= i < cells@.len() ==> (#[trigger] cells@[i]).altitude <= 99
                            && cells@[i].kind == spec_small_kind(cells@[i].altitude),
                decreases width - x,
            {
                let alt = rng::gen_range(&mut self.rng, 0, 100) as u8;
                let kind = if alt <= 15 {
                    LandKind::Sea
                } else if alt <= 55 {
                    LandKind::Plain
                } else if alt <= 85 {
                    LandKind::Forest
                } else {
                    LandKind::Mountain
                };
                cells.push(Land { kind, altitude: alt });
                x = x + 1;
            }
            proof {
                assert((y as int + 1) * width == y as int * width + width) by (nonlinear_arith)
                {
                }
            }
            y = y + 1;
        }
        proof {
            assert(cells@.len() == width * height) by (nonlinear_arith)
                requires
                    cells@.len() == height * width,
            {
            }
        }
        let r = Board::build(width, height, cells);
        proof {
            assert forall|p: Pos| pos_in_bounds(p, w, h) implies {
                let c = #[trigger] cell_of(r, p);
                c.altitude <= 99 && c.kind == spec_small_kind(c.altitude)
            } by {
                crate::board::lemma_row_major_index(w, h, p.x as int, p.y as int);
                assert(cell_of(r, p) == cells@[p.y as int * width + p.x as int]);
            }
        }
        r
    }

    /// Generates a middle-resolution map of the given size.
    pub fn gen_middle(&mut self, width: usize, height: usize) -> (r: Board)
        requires
            middle_params_ok(width as int, height as int),
        ensures
            r.wf(),
            r.spec_width() == width,
            r.spec_height() == height,
            middle_board_ok(r),
    {
        let g = MiddleBoardGen::new(&mut self.rng, width, height);
        g.gen(&mut self.rng)
    }

    /// Generates a high-resolution map of the given size.
    pub fn gen_large(&mut self, width: usize, height: usize) -> (r: Board)
        requires
            large_params_ok(width as int, height as int),
        ensures
            r.wf(),
            r.spec_width() == width,
            r.spec_height() == height,
            large_board_ok(r),
    {
        let g = LargeBoardGen::new(&mut self.rng, width, height);
        g.gen(&mut self.rng)
    }
}

} // verus!

