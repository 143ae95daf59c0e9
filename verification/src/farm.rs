use vstd::prelude::*;

verus! {

pub const FARM_HEIGHT: usize = 3;

pub const FARM_WIDTH: usize = 3;

pub const NUM_FARM_PLOTS: usize = FARM_HEIGHT * FARM_WIDTH;

/// The row of plot `x`; plots are numbered row by row.
pub open spec fn plot_row(x: int) -> int {
    x / FARM_WIDTH as int
}

/// The column of plot `x`.
pub open spec fn plot_col(x: int) -> int {
    x % FARM_WIDTH as int
}

/// To row-column coordinates.
pub fn to_farm_coords(x: usize) -> (r: (usize, usize))
    requires
        x < NUM_FARM_PLOTS,
    ensures
        r.0 == plot_row(x as int),
        r.1 == plot_col(x as int),
        r.0 < FARM_HEIGHT,
        r.1 < FARM_WIDTH,
{
    (x / FARM_WIDTH, x % FARM_WIDTH)
}

/// From row-column coordinates.
pub fn from_farm_coords(r: usize, c: usize) -> (x: usize)
    requires
        r < FARM_HEIGHT,
        c < FARM_WIDTH,
    ensures
        x == r * FARM_WIDTH + c,
        x < NUM_FARM_PLOTS,
        plot_row(x as int) == r,
        plot_col(x as int) == c,
{
    r * FARM_WIDTH + c
}

/// The two conversions between plot numbers and coordinates undo each other.
pub proof fn lemma_farm_coords_inverse(x: int, r: int, c: int)
    ensures
        0 <= x < NUM_FARM_PLOTS ==> 0 <= plot_row(x) < FARM_HEIGHT && 0 <= plot_col(x) < FARM_WIDTH
            && plot_row(x) * FARM_WIDTH + plot_col(x) == x,
        0 <= r < FARM_HEIGHT && 0 <= c < FARM_WIDTH ==> plot_row(r * FARM_WIDTH + c) == r
            && plot_col(r * FARM_WIDTH + c) == c,
{
}

} // verus!
