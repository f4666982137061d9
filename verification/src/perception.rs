use vstd::prelude::*;
use crate::config::{Config, MAX_VISION_LIMIT};
use crate::substrate::{lemma_wrappable, toroidal_diff, toroidal_diff_spec, wrap_coord, wrap_spec};

verus! {

/// Squared Euclidean length of the offset (dx, dy).
pub open spec fn sq_dist(dx: int, dy: int) -> int {
    dx * dx + dy * dy
}

/// Whether the offset (dx, dy) lies in the square window of radius `v`.
pub open spec fn in_window(dx: int, dy: int, v: int) -> bool {
    -v <= dx <= v && -v <= dy <= v
}

/// Whether offset (dx1, dy1) is scanned before offset (dx2, dy2): rows from
/// top to bottom, and within a row from left to right.
pub open spec fn scans_before(dx1: int, dy1: int, dx2: int, dy2: int) -> bool {
    dy1 < dy2 || (dy1 == dy2 && dx1 < dx2)
}

/// Whether the cell at offset (dx, dy) from (x, y), wrapped around the world, holds food.
pub open spec fn food_at(grid: Seq<u8>, config: Config, x: int, y: int, dx: int, dy: int) -> bool {
    grid[config.index_of(
        wrap_spec(x + dx, config.width as int),
        wrap_spec(y + dy, config.height as int),
    )] > 0
}

/// Whether some cell of the vision window around (x, y) holds food.
pub open spec fn food_visible(grid: Seq<u8>, config: Config, x: int, y: int, v: int) -> bool {
    exists|ex: int, ey: int| in_window(ex, ey, v) && #[trigger] food_at(grid, config, x, y, ex, ey)
}

/// (dx, dy) is the nearest food in the vision window around (x, y): it holds
/// food, no food cell is closer, and every equally close food cell comes
/// later in the scan.
pub open spec fn is_nearest_food(
    grid: Seq<u8>,
    config: Config,
    x: int,
    y: int,
    v: int,
    dx: int,
    dy: int,
) -> bool {
    &&& in_window(dx, dy, v)
    &&& food_at(grid, config, x, y, dx, dy)
    &&& forall|ex: int, ey: int|
        in_window(ex, ey, v) && #[trigger] food_at(grid, config, x, y, ex, ey) ==> {
            &&& sq_dist(dx, dy) <= sq_dist(ex, ey)
            &&& scans_before(ex, ey, dx, dy) ==> sq_dist(dx, dy) < sq_dist(ex, ey)
        }
}

/// Loop state of the food scan: `best` holds the nearest food among the
/// window cells scanned before (cx, cy), or there is none.
spec fn food_scan_state(
    grid: Seq<u8>,
    config: Config,
    x: int,
    y: int,
    v: int,
    cx: int,
    cy: int,
    best_sq: int,
    bx: int,
    by: int,
) -> bool {
    if best_sq < i32::MAX {
        &&& best_sq == sq_dist(bx, by)
        &&& in_window(bx, by, v)
        &&& food_at(grid, config, x, y, bx, by)
        &&& scans_before(bx, by, cx, cy)
        &&& forall|ex: int, ey: int|
            in_window(ex, ey, v) && scans_before(ex, ey, cx, cy) && #[trigger] food_at(
                grid,
                config,
                x,
                y,
                ex,
                ey,
            ) ==> {
                &&& sq_dist(bx, by) <= sq_dist(ex, ey)
                &&& scans_before(ex, ey, bx, by) ==> sq_dist(bx, by) < sq_dist(ex, ey)
            }
    } else {
        forall|ex: int, ey: int|
            in_window(ex, ey, v) && scans_before(ex, ey, cx, cy) ==> !#[trigger] food_at(
                grid,
                config,
                x,
                y,
                ex,
                ey,
            )
    }
}

/// Squared offsets inside a valid vision window stay below `i32::MAX`.
proof fn lemma_sq_bound(dx: int, dy: int, v: int)
    requires
        0 <= v <= MAX_VISION_LIMIT,
        in_window(dx, dy, v),
    ensures
        0 <= sq_dist(dx, dy) < i32::MAX,
        0 <= dx * dx <= v * v,
        0 <= dy * dy <= v * v,
{
    assert(0 <= dx * dx <= v * v && 0 <= dy * dy <= v * v) by (nonlinear_arith)
        requires
            -v <= dx <= v,
            -v <= dy <= v,
    ;
    assert(0 <= dx * dx + dy * dy <= 2 * v * v) by (nonlinear_arith)
        requires
            -v <= dx <= v,
            -v <= dy <= v,
    ;
    assert(2 * v * v < i32::MAX) by (nonlinear_arith)
        requires
            0 <= v <= MAX_VISION_LIMIT,
    ;
}

/// Nearest cell holding food within the vision window around (x, y), as an
/// offset, or `None` when the window holds no food.
pub fn nearest_food(grid: &Vec<u8>, config: &Config, x: usize, y: usize, vision: usize) -> (r:
    Option<(i32, i32)>)
    requires
        config.valid(),
        grid@.len() == config.cells(),
        x < config.width,
        y < config.height,
        1 <= vision <= config.max_vision,
    ensures
        match r {
            Some((dx, dy)) => is_nearest_food(
                grid@,
                *config,
                x as int,
                y as int,
                vision as int,
                dx as int,
                dy as int,
            ),
            None => !food_visible(grid@, *config, x as int, y as int, vision as int),
        },
{
    let v = vision as i32;
    let mut best_sq: i32 = i32::MAX;
    let mut best_tdx: i32 = 0;
    let mut best_tdy: i32 = 0;
    let mut tdy: i32 = -v;
    while tdy <= v
        invariant
            config.valid(),
            grid@.len() == config.cells(),
            x < config.width,
            y < config.height,
            1 <= v <= config.max_vision,
            -v <= tdy <= v + 1,
            food_scan_state(
                grid@,
                *config,
                x as int,
                y as int,
                v as int,
                -v as int,
                tdy as int,
                best_sq as int,
                best_tdx as int,
                best_tdy as int,
            ),
        decreases v + 1 - tdy,
    {
        let mut tdx: i32 = -v;
        while tdx <= v
            invariant
                config.valid(),
                grid@.len() == config.cells(),
                x < config.width,
                y < config.height,
                1 <= v <= config.max_vision,
                -v <= tdy <= v,
                -v <= tdx <= v + 1,
                food_scan_state(
                    grid@,
                    *config,
                    x as int,
                    y as int,
                    v as int,
                    tdx as int,
                    tdy as int,
                    best_sq as int,
                    best_tdx as int,
                    best_tdy as int,
                ),
            decreases v + 1 - tdx,
        {
            proof {
                lemma_wrappable(x + tdx, config.width as int);
                lemma_wrappable(y + tdy, config.height as int);
            }
            let wx = wrap_coord(x as i32 + tdx, config.width);
            let wy = wrap_coord(y as i32 + tdy, config.height);
            let idx = config.cell_index(wx, wy);
            if grid[idx] > 0 {
                proof {
                    lemma_sq_bound(tdx as int, tdy as int, v as int);
                }
                let sq = tdx * tdx + tdy * tdy;
                if sq < best_sq {
                    best_sq = sq;
                    best_tdx = tdx;
                    best_tdy = tdy;
                }
            }
            proof {
                let cx = tdx as int;
                let cy = tdy as int;
                assert forall|ex: int, ey: int|
                    in_window(ex, ey, v as int) && scans_before(ex, ey, cx + 1, cy) && !scans_before(
                        ex,
                        ey,
                        cx,
                        cy,
                    ) implies ex == cx && ey == cy by {}
            }
            tdx = tdx + 1;
        }
        proof {
            assert forall|ex: int, ey: int|
                in_window(ex, ey, v as int) implies (scans_before(ex, ey, v + 1, tdy as int)
                <==> scans_before(ex, ey, -v, tdy + 1)) by {}
        }
        tdy = tdy + 1;
    }
    proof {
        assert forall|ex: int, ey: int| in_window(ex, ey, v as int) implies scans_before(
            ex,
            ey,
            -v,
            v + 1,
        ) by {}
    }
    if best_sq < i32::MAX {
        Some((best_tdx, best_tdy))
    } else {
        None
    }
}

/// Offset along the two axes from (x, y) to the candidate at (cx, cy), each
/// taken the short way round the world.
pub open spec fn mate_offset(config: Config, x: int, y: int, cx: int, cy: int) -> (int, int) {
    (
        toroidal_diff_spec(x, cx, config.width as int),
        toroidal_diff_spec(y, cy, config.height as int),
    )
}

/// Whether candidate `cand` (agent index, column, row) is a mate that the
/// agent `me` at (x, y) can see: another agent, within `v` cells along each axis.
pub open spec fn mate_seen(config: Config, me: int, x: int, y: int, v: int, cand: (
    usize,
    usize,
    usize,
)) -> bool {
    let (dx, dy) = mate_offset(config, x, y, cand.1 as int, cand.2 as int);
    cand.0 != me && in_window(dx, dy, v)
}

/// Whether some candidate is a mate that agent `me` at (x, y) can see.
pub open spec fn mate_visible(
    cands: Seq<(usize, usize, usize)>,
    config: Config,
    me: int,
    x: int,
    y: int,
    v: int,
) -> bool {
    exists|k: int| 0 <= k < cands.len() && #[trigger] mate_seen(config, me, x, y, v, cands[k])
}

/// Candidate `k` is the nearest visible mate: no visible mate is closer, and
/// every equally close one comes later in the list.
pub open spec fn is_nearest_mate_at(
    cands: Seq<(usize, usize, usize)>,
    config: Config,
    me: int,
    x: int,
    y: int,
    v: int,
    k: int,
) -> bool {
    let (kx, ky) = mate_offset(config, x, y, cands[k].1 as int, cands[k].2 as int);
    &&& 0 <= k < cands.len()
    &&& mate_seen(config, me, x, y, v, cands[k])
    &&& forall|m: int|
        0 <= m < cands.len() && #[trigger] mate_seen(config, me, x, y, v, cands[m]) ==> {
            let (mx, my) = mate_offset(config, x, y, cands[m].1 as int, cands[m].2 as int);
            &&& sq_dist(kx, ky) <= sq_dist(mx, my)
            &&& m < k ==> sq_dist(kx, ky) < sq_dist(mx, my)
        }
}

/// Loop state of the mate scan over the first `n` candidates.
spec fn mate_scan_state(
    cands: Seq<(usize, usize, usize)>,
    config: Config,
    me: int,
    x: int,
    y: int,
    v: int,
    n: int,
    best_sq: int,
    best_k: int,
) -> bool {
    if best_sq < i32::MAX {
        &&& 0 <= best_k < n
        &&& is_nearest_mate_at(cands.take(n), config, me, x, y, v, best_k)
        &&& best_sq == sq_dist(
            mate_offset(config, x, y, cands[best_k].1 as int, cands[best_k].2 as int).0,
            mate_offset(config, x, y, cands[best_k].1 as int, cands[best_k].2 as int).1,
        )
    } else {
        forall|m: int| 0 <= m < n ==> !#[trigger] mate_seen(config, me, x, y, v, cands[m])
    }
}

/// Nearest other mate candidate that agent `me` at (x, y) sees within
/// `vision` cells, as a toroidal offset, or `None` when it sees none.
/// Candidates are (agent index, column, row) triples.
pub fn nearest_mate(
    cands: &Vec<(usize, usize, usize)>,
    me: usize,
    x: usize,
    y: usize,
    config: &Config,
    vision: usize,
) -> (r: Option<(i32, i32)>)
    requires
        config.valid(),
        x < config.width,
        y < config.height,
        1 <= vision <= config.max_vision,
        forall|k: int|
            0 <= k < cands@.len() ==> #[trigger] cands@[k].1 < config.width && cands@[k].2
                < config.height,
    ensures
        match r {
            Some((dx, dy)) => exists|k: int|
                #[trigger] is_nearest_mate_at(
                    cands@,
                    *config,
                    me as int,
                    x as int,
                    y as int,
                    vision as int,
                    k,
                ) && mate_offset(*config, x as int, y as int, cands@[k].1 as int, cands@[k].2 as int)
                    == (dx as int, dy as int),
            None => !mate_visible(cands@, *config, me as int, x as int, y as int, vision as int),
        },
{
    let v = vision as i32;
    let mut best_sq: i32 = i32::MAX;
    let mut best_dx: i32 = 0;
    let mut best_dy: i32 = 0;
    let ghost mut best_k: int = 0;
    let mut n: usize = 0;
    while n < cands.len()
        invariant
            config.valid(),
            x < config.width,
            y < config.height,
            1 <= v <= config.max_vision,
            v == vision,
            n <= cands@.len(),
            forall|k: int|
                0 <= k < cands@.len() ==> #[trigger] cands@[k].1 < config.width && cands@[k].2
                    < config.height,
            mate_scan_state(
                cands@,
                *config,
                me as int,
                x as int,
                y as int,
                v as int,
                n as int,
                best_sq as int,
                best_k,
            ),
            best_sq < i32::MAX ==> mate_offset(
                *config,
                x as int,
                y as int,
                cands@[best_k].1 as int,
                cands@[best_k].2 as int,
            ) == (best_dx as int, best_dy as int),
        decreases cands.len() - n,
    {
        let (j, mx, my) = cands[n];
        if j != me {
            let dx = toroidal_diff(x, mx, config.width);
            let dy = toroidal_diff(y, my, config.height);
            if -v <= dx && dx <= v && -v <= dy && dy <= v {
                proof {
                    lemma_sq_bound(dx as int, dy as int, v as int);
                }
                let sq = dx * dx + dy * dy;
                if sq < best_sq {
                    best_sq = sq;
                    best_dx = dx;
                    best_dy = dy;
                    proof {
                        best_k = n as int;
                    }
                }
            }
        }
        proof {
            let t0 = cands@.take(n as int);
            let t1 = cands@.take(n + 1);
            assert forall|m: int| 0 <= m < n implies t1[m] == t0[m] && t1[m] == cands@[m] by {}
            assert(t1[n as int] == cands@[n as int]);
        }
        n = n + 1;
    }
    proof {
        assert(cands@.take(n as int) =~= cands@);
    }
    if best_sq < i32::MAX {
        Some((best_dx, best_dy))
    } else {
        None
    }
}

} // verus!
