use vstd::prelude::*;

verus! {

/// Largest number of cells along one side of the world: coordinates are
/// shifted as `i32` values, so a side must leave room for a full turn of wrapping.
pub const MAX_SIDE: usize = 1073741824;

/// Largest vision radius: squared distances inside the vision window are `i32` values.
pub const MAX_VISION_LIMIT: usize = 32767;

/// The integer parameters of the world: its size, the agents' vision and
/// lifespan limits, and the lengths of the day and of the Ice Age cycle.
#[derive(Clone, Copy, Debug, PartialEq, Eq)]
pub struct Config {
    pub width: usize,
    pub height: usize,
    pub max_vision: usize,
    pub max_age: usize,
    pub day_length: u64,
    pub ice_age_period: u64,
    pub ice_age_duration: u64,
    pub seed: Option<u64>,
}

impl Config {
    /// A configuration the simulation can run with: a non-empty grid whose
    /// cells can be counted, a vision radius of at least one cell, and
    /// non-zero day and Ice Age periods.
    pub open spec fn valid(&self) -> bool {
        &&& 1 <= self.width <= MAX_SIDE
        &&& 1 <= self.height <= MAX_SIDE
        &&& self.width * self.height <= usize::MAX
        &&& 1 <= self.max_vision <= MAX_VISION_LIMIT
        &&& self.day_length > 0
        &&& self.ice_age_period > 0
    }

    /// Number of cells of the grid.
    pub open spec fn cells(&self) -> nat {
        (self.width * self.height) as nat
    }

    /// Tests `valid`.
    pub fn is_valid(&self) -> (r: bool)
        ensures
            r == self.valid(),
    {
        if !(1 <= self.width && self.width <= MAX_SIDE && 1 <= self.height && self.height
            <= MAX_SIDE) {
            return false;
        }
        let fits = self.width <= usize::MAX / self.height;
        proof {
            let w = self.width as int;
            let h = self.height as int;
            let m = usize::MAX as int;
            assert(fits <==> w * h <= m) by (nonlinear_arith)
                requires
                    h >= 1,
                    w >= 0,
                    fits <==> w <= m / h,
            ;
        }
        fits && 1 <= self.max_vision && self.max_vision <= MAX_VISION_LIMIT && self.day_length > 0
            && self.ice_age_period > 0
    }

    /// Number of cells of the grid.
    pub fn cell_count(&self) -> (r: usize)
        requires
            self.valid(),
        ensures
            r == self.cells(),
    {
        self.width * self.height
    }

    /// Index in the row-major grid of the cell at column `x`, row `y`.
    pub open spec fn index_of(&self, x: int, y: int) -> int {
        y * self.width + x
    }

    /// Index in the row-major grid of the cell at column `x`, row `y`.
    pub fn cell_index(&self, x: usize, y: usize) -> (r: usize)
        requires
            self.valid(),
            x < self.width,
            y < self.height,
        ensures
            r == self.index_of(x as int, y as int),
            r < self.cells(),
    {
        proof {
            lemma_index_in_grid(x as int, y as int, self.width as int, self.height as int);
        }
        y * self.width + x
    }
}

/// A cell inside the grid has an index inside the row-major grid.
pub proof fn lemma_index_in_grid(x: int, y: int, w: int, h: int)
    requires
        0 <= x < w,
        0 <= y < h,
    ensures
        0 <= y * w + x < w * h,
{
    assert(0 <= y * w + x < w * h) by (nonlinear_arith)
        requires
            0 <= x < w,
            0 <= y < h,
    ;
}

impl Default for Config {
    /// The default world: 80 columns by 24 rows.
    fn default() -> (c: Self)
        ensures
            c.width == 80,
            c.height == 24,
            c.max_vision == 10,
            c.max_age == 300,
            c.day_length == 400,
            c.ice_age_period == 1200,
            c.ice_age_duration == 200,
            c.seed == None::<u64>,
            c.valid(),
    {
        Config {
            width: 80,
            height: 24,
            max_vision: 10,
            max_age: 300,
            day_length: 400,
            ice_age_period: 1200,
            ice_age_duration: 200,
            seed: None,
        }
    }
}

} // verus!
