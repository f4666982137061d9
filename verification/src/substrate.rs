use vstd::prelude::*;
use crate::config::{Config, MAX_SIDE, MAX_VISION_LIMIT};
use vstd::arithmetic::div_mod::{
    lemma_fundamental_div_mod, lemma_mod_add_multiples_vanish, lemma_small_mod,
    lemma_mod_multiples_vanish,
};

verus! {

/// Rust's remainder for signed integers, which truncates toward zero.
pub open spec fn trunc_rem(c: int, b: int) -> int {
    if c >= 0 { c % b } else { -((-c) % b) }
}

/// The cell index that `coord` denotes on an axis of `bound` cells wrapped into a ring.
pub open spec fn wrap_spec(coord: int, bound: int) -> int {
    coord % bound
}

/// Wraps a coordinate toroidally.
pub fn wrap_coord(coord: i32, bound: usize) -> (r: usize)
    requires
        0 < bound <= i32::MAX,
        trunc_rem(coord as int, bound as int) + bound <= i32::MAX,
    ensures
        r == wrap_spec(coord as int, bound as int),
        r < bound,
        (coord - r) % (bound as int) == 0,
{
    let b = bound as i32;
    let t = coord % b;
    proof {
        lemma_trunc_rem_wrap(coord as int, b as int);
        lemma_fundamental_div_mod(coord as int, b as int);
        let q = (coord as int) / (b as int);
        let ci = coord as int;
        let bi = b as int;
        assert(ci - ci % bi == bi * q);
        lemma_mod_multiples_vanish(q, 0, bi);
    }
    assert(t == trunc_rem(coord as int, b as int));
    ((t + b) % b) as usize
}

/// A coordinate within `MAX_VISION_LIMIT` of the grid can be wrapped.
pub proof fn lemma_wrappable(c: int, bound: int)
    requires
        1 <= bound <= MAX_SIDE,
        -(MAX_VISION_LIMIT as int) <= c <= bound + MAX_VISION_LIMIT,
    ensures
        trunc_rem(c, bound) + bound <= i32::MAX,
{
    lemma_trunc_rem_wrap(c, bound);
}

/// Adding `b` to a truncated remainder and reducing again gives the Euclidean remainder.
pub proof fn lemma_trunc_rem_wrap(c: int, b: int)
    requires
        b > 0,
    ensures
        (trunc_rem(c, b) + b) % b == c % b,
        -b < trunc_rem(c, b) < b,
{
    if c >= 0 {
        lemma_mod_add_multiples_vanish(c % b, b);
        lemma_small_mod((c % b) as nat, b as nat);
    } else {
        let m = (-c) % b;
        let q = (-c) / b;
        lemma_fundamental_div_mod(-c, b);
        assert(c == b * (-q - 1) + (b - m)) by (nonlinear_arith)
            requires -c == b * q + m;
        lemma_mod_multiples_vanish(-q - 1, b - m, b);
    }
}

/// The signed difference from `a` to `b` on a ring of `bound` cells, taken
/// the short way round (ties at half a turn keep the direct difference).
pub open spec fn toroidal_diff_spec(a: int, b: int, bound: int) -> int {
    let d = b - a;
    let half = bound / 2;
    if d > half {
        d - bound
    } else if d < -half {
        d + bound
    } else {
        d
    }
}

/// Shortest signed toroidal difference from a to b.
///
/// Between two cells of the ring the result is a shortest step: at most half
/// a turn either way, and it leads from `a` to `b`.
pub fn toroidal_diff(a: usize, b: usize, bound: usize) -> (r: i32)
    requires
        a <= i32::MAX,
        b <= i32::MAX,
        bound <= i32::MAX,
    ensures
        r == toroidal_diff_spec(a as int, b as int, bound as int),
        a < bound && b < bound ==> {
            &&& -(bound as int / 2) <= r <= bound as int / 2
            &&& wrap_spec(a + r, bound as int) == b
            &&& (a + r - b) % (bound as int) == 0
        },
{
    let d = b as i32 - a as i32;
    let half = bound as i32 / 2;
    let r = if d > half {
        d - bound as i32
    } else if d < -half {
        d + bound as i32
    } else {
        d
    };
    proof {
        if a < bound && b < bound {
            let bi = bound as int;
            lemma_small_mod(b as nat, bound as nat);
            if d > half {
                lemma_mod_add_multiples_vanish(b - bi, bi);
                assert(a + r - b == -bi);
                lemma_mod_multiples_vanish(-1, 0, bi);
            } else if d < -half {
                lemma_mod_multiples_vanish(1, b as int, bi);
                assert(a + r - b == bi);
                lemma_mod_multiples_vanish(1, 0, bi);
            } else {
                assert(a + r - b == 0);
            }
        }
    }
    r
}

/// The most food a cell holds through gradual deposits.
pub const MAX_FOOD_PER_CELL: u8 = 5;

/// The grid after one unit of food is offered to cell `idx`: a cell that holds
/// fewer than `MAX_FOOD_PER_CELL` units gains one, any other cell is unchanged.
pub open spec fn deposit_spec(grid: Seq<u8>, idx: int) -> Seq<u8> {
    if grid[idx] < MAX_FOOD_PER_CELL {
        grid.update(idx, (grid[idx] + 1) as u8)
    } else {
        grid
    }
}

/// Offers one unit of food to cell `idx`.
pub fn deposit_food(grid: &mut Vec<u8>, idx: usize)
    requires
        idx < old(grid).len(),
    ensures
        final(grid)@ == deposit_spec(old(grid)@, idx as int),
{
    if grid[idx] < MAX_FOOD_PER_CELL {
        grid.set(idx, grid[idx] + 1);
    }
}

/// Whether column `x` lies in the Oasis, the left half of the world; the
/// right half is the Tundra.
pub open spec fn in_oasis_spec(x: int, width: int) -> bool {
    x < width / 2
}

/// Whether column `x` lies in the Oasis (left half); otherwise it is Tundra.
pub fn in_oasis(x: usize, width: usize) -> (r: bool)
    ensures
        r == in_oasis_spec(x as int, width as int),
{
    x < width / 2
}

/// The `k`-th cell of the square of radius `r` around (cx, cy), scanning
/// rows from top to bottom and each row from left to right, wrapped around
/// a `width` × `height` world.
pub open spec fn cluster_cell(cx: int, cy: int, r: int, k: int, width: int, height: int) -> (int, int) {
    let side = 2 * r + 1;
    (wrap_spec(cx + (k % side - r), width), wrap_spec(cy + (k / side - r), height))
}

/// Absolute value.
pub open spec fn abs_int(v: int) -> int {
    if v < 0 { -v } else { v }
}

/// The short way round never exceeds any way round: stepping `d` from `x`
/// and measuring back with `toroidal_diff_spec` gives a step no longer than `d`.
pub proof fn lemma_shortest_step(x: int, d: int, w: int)
    requires
        w >= 1,
        0 <= x < w,
    ensures
        abs_int(toroidal_diff_spec(x, (x + d) % w, w)) <= abs_int(d),
        abs_int(toroidal_diff_spec(x, (x + d) % w, w)) <= w / 2,
{
    let c = (x + d) % w;
    let q = (x + d) / w;
    lemma_fundamental_div_mod(x + d, w);
    assert(0 <= c < w);
    let e = c - x;
    let t = toroidal_diff_spec(x, c, w);
    let half = w / 2;
    assert(abs_int(t) <= half);
    let j: int = if e > half { -1 } else if e < -half { 1 } else { 0 };
    assert(t == e + j * w);
    let m = q - j;
    assert(d == q * w + e) by (nonlinear_arith)
        requires x + d == w * q + c, e == c - x;
    assert(d - t == m * w) by (nonlinear_arith)
        requires d == q * w + e, t == e + j * w, m == q - j;
    if m != 0 {
        assert(abs_int(m * w) >= w) by (nonlinear_arith)
            requires m != 0, w >= 1;
    }
}

/// The cells of a food cluster: the square of radius `radius` around
/// (cx, cy), row by row, wrapped around the world.
pub fn cluster_cells(cx: usize, cy: usize, radius: i32, config: &Config) -> (cells: Vec<(usize, usize)>)
    requires
        config.valid(),
        cx < config.width,
        cy < config.height,
        0 <= radius <= MAX_VISION_LIMIT,
    ensures
        cells@.len() == (2 * radius + 1) * (2 * radius + 1),
        forall|k: int|
            0 <= k < cells@.len() ==> {
                let c = cluster_cell(
                    cx as int,
                    cy as int,
                    radius as int,
                    k,
                    config.width as int,
                    config.height as int,
                );
                &&& (#[trigger] cells@[k]).0 == c.0
                &&& cells@[k].1 == c.1
            },
        forall|k: int|
            0 <= k < cells@.len() ==> {
                &&& (#[trigger] cells@[k]).0 == (cx + k % (2 * radius + 1) - radius)
                    % (config.width as int)
                &&& cells@[k].1 == (cy + k / (2 * radius + 1) - radius) % (config.height as int)
                &&& abs_int(toroidal_diff_spec(cx as int, cells@[k].0 as int, config.width as int))
                    <= radius
                &&& abs_int(toroidal_diff_spec(cy as int, cells@[k].1 as int, config.height as int))
                    <= radius
            },
{
    let mut cells: Vec<(usize, usize)> = Vec::new();
    let side: i32 = 2 * radius + 1;
    let mut dy: i32 = -radius;
    while dy <= radius
        invariant
            config.valid(),
            cx < config.width,
            cy < config.height,
            0 <= radius <= MAX_VISION_LIMIT,
            side == 2 * radius + 1,
            -radius <= dy <= radius + 1,
            cells@.len() == (dy + radius) * side,
            forall|k: int|
                0 <= k < cells@.len() ==> {
                    let c = cluster_cell(
                        cx as int,
                        cy as int,
                        radius as int,
                        k,
                        config.width as int,
                        config.height as int,
                    );
                    &&& (#[trigger] cells@[k]).0 == c.0
                    &&& cells@[k].1 == c.1
                },
        decreases radius + 1 - dy,
    {
        let mut dx: i32 = -radius;
        while dx <= radius
            invariant
                config.valid(),
                cx < config.width,
                cy < config.height,
                0 <= radius <= MAX_VISION_LIMIT,
                side == 2 * radius + 1,
                -radius <= dy <= radius,
                -radius <= dx <= radius + 1,
                cells@.len() == (dy + radius) * side + (dx + radius),
                forall|k: int|
                    0 <= k < cells@.len() ==> {
                        let c = cluster_cell(
                            cx as int,
                            cy as int,
                            radius as int,
                            k,
                            config.width as int,
                            config.height as int,
                        );
                        &&& (#[trigger] cells@[k]).0 == c.0
                        &&& cells@[k].1 == c.1
                    },
            decreases radius + 1 - dx,
        {
            proof {
                lemma_wrappable(cx + dx, config.width as int);
                lemma_wrappable(cy + dy, config.height as int);
                let k = (dy + radius) * side + (dx + radius);
                let row = dy + radius;
                let col = dx + radius;
                assert(k / (side as int) == row && k % (side as int) == col) by (nonlinear_arith)
                    requires
                        k == row * side + col,
                        0 <= col < side,
                        0 <= row,
                ;
            }
            let wx = wrap_coord(cx as i32 + dx, config.width);
            let wy = wrap_coord(cy as i32 + dy, config.height);
            cells.push((wx, wy));
            dx = dx + 1;
        }
        proof {
            assert((dy + radius) * side + (radius + radius + 1) == (dy + 1 + radius) * side) by (nonlinear_arith)
                requires side == 2 * radius + 1;
        }
        dy = dy + 1;
    }
    proof {
        assert((radius + 1 + radius) * side == (2 * radius + 1) * (2 * radius + 1)) by (nonlinear_arith)
            requires side == 2 * radius + 1;
        assert forall|k: int| 0 <= k < cells@.len() implies {
            &&& (#[trigger] cells@[k]).0 == (cx + k % (2 * radius + 1) - radius)
                % (config.width as int)
            &&& cells@[k].1 == (cy + k / (2 * radius + 1) - radius) % (config.height as int)
            &&& abs_int(toroidal_diff_spec(cx as int, cells@[k].0 as int, config.width as int))
                <= radius
            &&& abs_int(toroidal_diff_spec(cy as int, cells@[k].1 as int, config.height as int))
                <= radius
        } by {
            let r = radius as int;
            let sd = 2 * r + 1;
            let dx = k % sd - r;
            let dy = k / sd - r;
            assert(0 <= k % sd < sd);
            assert(0 <= k / sd < sd) by (nonlinear_arith)
                requires 0 <= k < sd * sd, sd >= 1;
            lemma_shortest_step(cx as int, dx, config.width as int);
            lemma_shortest_step(cy as int, dy, config.height as int);
        }
    }
    cells
}

/// Total units of food on the grid.
pub open spec fn food_sum(grid: Seq<u8>) -> int
    decreases grid.len(),
{
    if grid.len() == 0 {
        0
    } else {
        food_sum(grid.drop_last()) + grid.last()
    }
}

/// A prefix of the grid holds no more food than the whole grid.
pub proof fn lemma_food_sum_prefix(grid: Seq<u8>, i: int)
    requires
        0 <= i <= grid.len(),
    ensures
        0 <= food_sum(grid.take(i)) <= food_sum(grid),
    decreases grid.len() - i,
{
    if i < grid.len() {
        lemma_food_sum_prefix(grid, i + 1);
        lemma_food_sum_nonneg(grid.take(i));
        assert(grid.take(i + 1).drop_last() =~= grid.take(i));
        assert(food_sum(grid.take(i + 1)) == food_sum(grid.take(i)) + grid[i]);
    } else {
        assert(grid.take(i) =~= grid);
        lemma_food_sum_nonneg(grid);
    }
}

/// Food counts are never negative.
pub proof fn lemma_food_sum_nonneg(grid: Seq<u8>)
    ensures
        food_sum(grid) >= 0,
    decreases grid.len(),
{
    if grid.len() > 0 {
        lemma_food_sum_nonneg(grid.drop_last());
    }
}

/// A grid holds at most 255 units per cell.
pub proof fn lemma_food_sum_bound(grid: Seq<u8>)
    ensures
        food_sum(grid) <= 255 * grid.len(),
    decreases grid.len(),
{
    if grid.len() > 0 {
        lemma_food_sum_bound(grid.drop_last());
    }
}

/// Total units of food on the grid.
pub fn total_food(grid: &Vec<u8>) -> (r: u64)
    requires
        grid@.len() <= u32::MAX,
    ensures
        r == food_sum(grid@),
{
    let mut sum: u64 = 0;
    let mut i: usize = 0;
    proof {
        lemma_food_sum_bound(grid@);
    }
    while i < grid.len()
        invariant
            i <= grid.len(),
            sum == food_sum(grid@.take(i as int)),
            food_sum(grid@) <= 255 * grid@.len(),
            grid@.len() <= u32::MAX,
        decreases grid.len() - i,
    {
        proof {
            lemma_food_sum_prefix(grid@, i + 1);
            assert(grid@.take(i + 1).drop_last() =~= grid@.take(i as int));
        }
        sum = sum + grid[i] as u64;
        i = i + 1;
    }
    assert(grid@.take(i as int) =~= grid@);
    sum
}

} // verus!
