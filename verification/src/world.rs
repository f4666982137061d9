use vstd::prelude::*;
use crate::config::Config;
use crate::environment::{ice_age_at, ice_age_change, ice_age_change_at, is_ice_age};
use crate::history::{bounded_push, push_bounded, LogEntry, HISTORY_LIMIT};
use crate::random::random_index;
use crate::substrate::{deposit_food, deposit_spec, food_sum, MAX_FOOD_PER_CELL};

verus! {

/// The substrate the agents live on: the food grid, the clock and the
/// history log, under an integer configuration.
pub struct World {
    pub config: Config,
    /// Units of food per cell, row by row.
    pub grid: Vec<u8>,
    pub tick_count: u64,
    /// The newest notable events, oldest first.
    pub history_log: Vec<LogEntry>,
}

/// Food units scattered over a fresh world.
pub open spec fn initial_food_count(config: Config) -> nat {
    config.cells() / 6
}

/// Food units offered by one burst of chaos food.
pub open spec fn chaos_food_count(config: Config) -> nat {
    config.cells() / 4
}

/// The grid after one unit of food is offered, in turn, to each of the
/// cells `idxs[0]`, `idxs[1]`, … `idxs[k - 1]`.
pub open spec fn deposit_all(grid: Seq<u8>, idxs: Seq<usize>, k: int) -> Seq<u8>
    decreases k,
{
    if k <= 0 {
        grid
    } else {
        deposit_spec(deposit_all(grid, idxs, k - 1), idxs[k - 1] as int)
    }
}

/// The grid after one unit of food is dropped on each of the positions
/// `draws[0]`, … `draws[k - 1]` in turn, a cell's count wrapping from 255 to 0.
pub open spec fn drop_all(grid: Seq<u8>, config: Config, draws: Seq<(usize, usize)>, k: int) -> Seq<u8>
    decreases k,
{
    if k <= 0 {
        grid
    } else {
        let g = drop_all(grid, config, draws, k - 1);
        let i = config.index_of(draws[k - 1].0 as int, draws[k - 1].1 as int);
        g.update(i, if g[i] == 255 { 0u8 } else { (g[i] + 1) as u8 })
    }
}

/// How many of the first `k` positions fall in grid cell `cell`.
pub open spec fn hits(config: Config, draws: Seq<(usize, usize)>, k: int, cell: int) -> nat
    decreases k,
{
    if k <= 0 {
        0
    } else {
        hits(config, draws, k - 1, cell) + if config.index_of(
            draws[k - 1].0 as int,
            draws[k - 1].1 as int,
        ) == cell {
            1nat
        } else {
            0nat
        }
    }
}

/// A grid of `n` empty cells.
pub open spec fn empty_grid(n: nat) -> Seq<u8> {
    Seq::new(n, |c: int| 0u8)
}

/// Every position lies on the grid.
pub open spec fn draws_on_grid(config: Config, draws: Seq<(usize, usize)>) -> bool {
    forall|m: int|
        0 <= m < draws.len() ==> #[trigger] draws[m].0 < config.width && draws[m].1 < config.height
}

/// `grid` is the food of a fresh world: `initial_food_count(config)` units
/// dropped on the positions `draws`, starting from an empty grid.
pub open spec fn initial_placement(config: Config, draws: Seq<(usize, usize)>, grid: Seq<u8>) -> bool {
    &&& draws.len() == initial_food_count(config)
    &&& draws_on_grid(config, draws)
    &&& grid == drop_all(empty_grid(config.cells()), config, draws, draws.len() as int)
}

/// `grid` is the food of a fresh world dropped on the positions `draws`:
/// each cell holds the number of units dropped on it modulo 256, the total
/// agrees with the number of drops modulo 256, and when no
/// cell receives 256 units or more, the grid holds exactly
/// `initial_food_count(config)` units.
pub open spec fn initial_food_of(config: Config, draws: Seq<(usize, usize)>, grid: Seq<u8>) -> bool {
    &&& initial_placement(config, draws, grid)
    &&& forall|c: int|
        0 <= c < config.cells() ==> #[trigger] grid[c] == hits(config, draws, draws.len() as int, c)
            % 256
    &&& (forall|c: int|
        0 <= c < config.cells() ==> #[trigger] hits(config, draws, draws.len() as int, c) < 256)
        ==> food_sum(grid) == initial_food_count(config)
    &&& food_sum(grid) % 256 == initial_food_count(config) % 256
}

/// Dropping food on an empty grid leaves in each cell the number of units
/// dropped on it, modulo 256; when no cell receives 256 units or more, the
/// grid holds exactly one unit per drop.
pub proof fn lemma_drop_all_counts(config: Config, draws: Seq<(usize, usize)>, k: int)
    requires
        config.valid(),
        draws_on_grid(config, draws),
        0 <= k <= draws.len(),
    ensures
        drop_all(empty_grid(config.cells()), config, draws, k).len() == config.cells(),
        forall|c: int|
            0 <= c < config.cells() ==> #[trigger] drop_all(
                empty_grid(config.cells()),
                config,
                draws,
                k,
            )[c] == hits(config, draws, k, c) % 256,
        (forall|c: int| 0 <= c < config.cells() ==> #[trigger] hits(config, draws, k, c) < 256)
            ==> food_sum(drop_all(empty_grid(config.cells()), config, draws, k)) == k,
        food_sum(drop_all(empty_grid(config.cells()), config, draws, k)) % 256 == k % 256,
    decreases k,
{
    let z = empty_grid(config.cells());
    if k == 0 {
        lemma_zero_sum(z);
    } else {
        lemma_drop_all_counts(config, draws, k - 1);
        let g = drop_all(z, config, draws, k - 1);
        let p = draws[k - 1];
        let i = config.index_of(p.0 as int, p.1 as int);
        crate::config::lemma_index_in_grid(p.0 as int, p.1 as int, config.width as int, config.height as int);
        let v: u8 = if g[i] == 255 { 0u8 } else { (g[i] + 1) as u8 };
        assert(g[i] == hits(config, draws, k - 1, i) % 256);
        lemma_food_sum_update(g, i, v);
        assert(food_sum(drop_all(z, config, draws, k)) % 256 == k % 256) by {
            let s0 = food_sum(g);
            let s1 = food_sum(drop_all(z, config, draws, k));
            if g[i] == 255 {
                assert(s1 == s0 - 255);
                assert(s1 % 256 == k % 256) by (nonlinear_arith)
                    requires s0 % 256 == (k - 1) % 256, s1 == s0 - 255;
            } else {
                assert(s1 == s0 + 1);
                assert(s1 % 256 == k % 256) by (nonlinear_arith)
                    requires s0 % 256 == (k - 1) % 256, s1 == s0 + 1;
            }
        }
        assert forall|c: int| 0 <= c < config.cells() implies #[trigger] drop_all(
            z,
            config,
            draws,
            k,
        )[c] == hits(config, draws, k, c) % 256 by {
            if c == i {
                let h = hits(config, draws, k - 1, i);
                assert(v == (h + 1) % 256) by {
                    if h % 256 == 255 {
                        vstd::arithmetic::div_mod::lemma_fundamental_div_mod(h as int, 256);
                        assert((h + 1) % 256 == 0) by (nonlinear_arith)
                            requires h % 256 == 255, h >= 0;
                    } else {
                        assert((h + 1) % 256 == h % 256 + 1) by (nonlinear_arith)
                            requires 0 <= h % 256 < 255, h >= 0;
                    }
                }
            }
        }
        if forall|c: int| 0 <= c < config.cells() ==> #[trigger] hits(config, draws, k, c) < 256 {
            assert forall|c: int| 0 <= c < config.cells() implies #[trigger] hits(config, draws, k - 1, c) < 256 by {
                assert(hits(config, draws, k, c) < 256);
            }
            assert(hits(config, draws, k, i) < 256);
            let h = hits(config, draws, k - 1, i);
            assert(h < 255);
            vstd::arithmetic::div_mod::lemma_small_mod(h, 256);
            lemma_food_sum_update(g, i, v);
        }
    }
}

/// Every index names a cell of a grid of `len` cells.
pub open spec fn indices_below(idxs: Seq<usize>, len: nat) -> bool {
    forall|k: int| 0 <= k < idxs.len() ==> #[trigger] idxs[k] < len
}

/// Replacing one cell changes the total by the difference of the two values.
pub proof fn lemma_food_sum_update(grid: Seq<u8>, i: int, v: u8)
    requires
        0 <= i < grid.len(),
    ensures
        food_sum(grid.update(i, v)) == food_sum(grid) - grid[i] + v,
        grid[i] <= food_sum(grid),
    decreases grid.len(),
{
    let u = grid.update(i, v);
    crate::substrate::lemma_food_sum_nonneg(grid.drop_last());
    if i == grid.len() - 1 {
        assert(u.drop_last() =~= grid.drop_last());
    } else {
        lemma_food_sum_update(grid.drop_last(), i, v);
        assert(u.drop_last() =~= grid.drop_last().update(i, v));
    }
}

impl World {
    /// The grid covers the configured world and the log keeps its bound.
    pub open spec fn wf(&self) -> bool {
        &&& self.config.valid()
        &&& self.grid@.len() == self.config.cells()
        &&& self.history_log@.len() <= HISTORY_LIMIT
    }

    /// A fresh world at tick 0 with an empty log, and `cells / 6` units of
    /// food dropped one by one on random cells, starting from an empty grid
    /// (a cell's count wraps from 255 to 0). Each cell holds the number of
    /// units dropped on it modulo 256, so when no cell receives 256 units or
    /// more, the grid holds exactly `cells / 6` units.
    pub fn new(config: Config, rng: &mut rand::rngs::StdRng) -> (w: World)
        requires
            config.valid(),
        ensures
            w.wf(),
            w.config == config,
            w.tick_count == 0,
            w.history_log@.len() == 0,
            food_sum(w.grid@) <= initial_food_count(config),
            initial_food_count(config) < 256 ==> food_sum(w.grid@) == initial_food_count(config),
            exists|draws: Seq<(usize, usize)>| #[trigger] initial_food_of(config, draws, w.grid@),
    {
        let cells = config.cell_count();
        let mut grid: Vec<u8> = Vec::new();
        while grid.len() < cells
            invariant
                grid@.len() <= cells,
                forall|c: int| 0 <= c < grid@.len() ==> #[trigger] grid@[c] == 0,
            decreases cells - grid.len(),
        {
            grid.push(0);
        }
        proof {
            assert(food_sum(grid@) == 0) by {
                lemma_zero_sum(grid@);
            }
        }
        let count = cells / 6;
        let mut placed: usize = 0;
        let ghost mut draws: Seq<(usize, usize)> = Seq::empty();
        proof {
            assert(grid@ =~= empty_grid(config.cells()));
        }
        while placed < count
            invariant
                config.valid(),
                cells == config.cells(),
                count == initial_food_count(config),
                placed <= count,
                grid@.len() == cells,
                food_sum(grid@) <= placed,
                count < 256 ==> food_sum(grid@) == placed,
                draws.len() == placed,
                draws_on_grid(config, draws),
                grid@ == drop_all(empty_grid(config.cells()), config, draws, placed as int),
            decreases count - placed,
        {
            let x = random_index(rng, 0, config.width);
            let y = random_index(rng, 0, config.height);
            let idx = config.cell_index(x, y);
            let ghost before = grid@;
            grid.set(idx, grid[idx].wrapping_add(1));
            proof {
                lemma_food_sum_update(before, idx as int, grid@[idx as int]);
                if before[idx as int] < 255 {
                    assert(grid@[idx as int] == before[idx as int] + 1);
                }
                let d0 = draws;
                draws = draws.push((x, y));
                assert forall|m: int| 0 <= m < placed implies #[trigger] draws[m] == d0[m] by {}
                lemma_drop_all_prefix(empty_grid(config.cells()), config, d0, draws, placed as int);
                assert(grid@ =~= drop_all(empty_grid(config.cells()), config, draws, placed + 1));
            }
            placed = placed + 1;
        }
        proof {
            lemma_drop_all_counts(config, draws, count as int);
            assert(draws.len() as int == count as int);
            assert(initial_placement(config, draws, grid@));
        }
        let w = World { config, grid, tick_count: 0, history_log: Vec::new() };
        assert(initial_food_of(config, draws, w.grid@));
        w
    }

    /// Scatters `cells / 4` units of extra food, each offered in turn to a
    /// random cell: the grid is what these deposits make of it, so a cell
    /// never loses food and never gains past `MAX_FOOD_PER_CELL`, and cells
    /// already at the limit are unchanged.
    pub fn spawn_chaos_food(&mut self, rng: &mut rand::rngs::StdRng)
        requires
            old(self).wf(),
        ensures
            final(self).wf(),
            final(self).config == old(self).config,
            final(self).tick_count == old(self).tick_count,
            final(self).history_log@ == old(self).history_log@,
            final(self).grid@.len() == old(self).grid@.len(),
            forall|c: int|
                0 <= c < old(self).grid@.len() ==> {
                    &&& old(self).grid@[c] <= #[trigger] final(self).grid@[c]
                    &&& old(self).grid@[c] >= MAX_FOOD_PER_CELL ==> final(self).grid@[c]
                        == old(self).grid@[c]
                    &&& old(self).grid@[c] < MAX_FOOD_PER_CELL ==> final(self).grid@[c]
                        <= MAX_FOOD_PER_CELL
                },
            food_sum(final(self).grid@) <= food_sum(old(self).grid@) + chaos_food_count(
                old(self).config,
            ),
            exists|draws: Seq<usize>|
                draws.len() == chaos_food_count(old(self).config) && indices_below(
                    draws,
                    old(self).grid@.len(),
                ) && final(self).grid@ == #[trigger] deposit_all(
                    old(self).grid@,
                    draws,
                    draws.len() as int,
                ),
    {
        let count = self.config.cell_count() / 4;
        let ghost start = self.grid@;
        let ghost mut draws: Seq<usize> = Seq::empty();
        let mut k: usize = 0;
        while k < count
            invariant
                self.wf(),
                self.config == old(self).config,
                self.tick_count == old(self).tick_count,
                self.history_log@ == old(self).history_log@,
                start == old(self).grid@,
                count == chaos_food_count(self.config),
                k <= count,
                self.grid@.len() == start.len(),
                forall|c: int|
                    0 <= c < start.len() ==> {
                        &&& start[c] <= #[trigger] self.grid@[c]
                        &&& start[c] >= MAX_FOOD_PER_CELL ==> self.grid@[c] == start[c]
                        &&& start[c] < MAX_FOOD_PER_CELL ==> self.grid@[c] <= MAX_FOOD_PER_CELL
                    },
                food_sum(self.grid@) <= food_sum(start) + k,
                draws.len() == k,
                indices_below(draws, start.len()),
                self.grid@ == deposit_all(start, draws, k as int),
            decreases count - k,
        {
            let idx = random_index(rng, 0, self.grid.len());
            let ghost before = self.grid@;
            deposit_food(&mut self.grid, idx);
            proof {
                let d0 = draws;
                draws = draws.push(idx);
                assert forall|m: int| 0 <= m < k implies #[trigger] draws[m] == d0[m] by {}
                lemma_deposit_all_prefix(start, d0, draws, k as int);
                assert(self.grid@ == deposit_all(start, draws, k + 1));
                if before[idx as int] < MAX_FOOD_PER_CELL {
                    lemma_food_sum_update(before, idx as int, (before[idx as int] + 1) as u8);
                }
            }
            k = k + 1;
        }
    }

    /// Forces an Ice Age at once by moving the clock back to the start of
    /// the current Ice Age period; with a non-zero duration, an Ice Age is
    /// then under way.
    pub fn force_ice_age(&mut self)
        requires
            old(self).wf(),
        ensures
            final(self).wf(),
            final(self).config == old(self).config,
            final(self).grid@ == old(self).grid@,
            final(self).history_log@ == old(self).history_log@,
            final(self).tick_count == old(self).tick_count - old(self).tick_count
                % old(self).config.ice_age_period,
            final(self).config.ice_age_duration > 0 ==> ice_age_at(
                final(self).tick_count as int,
                final(self).config,
            ),
    {
        let period = self.config.ice_age_period;
        proof {
            let t = self.tick_count as int;
            let p = period as int;
            vstd::arithmetic::div_mod::lemma_fundamental_div_mod(t, p);
            vstd::arithmetic::div_mod::lemma_mod_multiples_basic(t / p, p);
            assert((t / p) * p == p * (t / p)) by (nonlinear_arith);
            assert(0 <= t / p);
        }
        self.tick_count = (self.tick_count / period) * period;
    }

    /// Advances the clock by one tick and records the start or end of an
    /// Ice Age that falls on the new tick. Returns whether an Ice Age is
    /// active on the new tick.
    pub fn begin_tick(&mut self) -> (ice_age_active: bool)
        requires
            old(self).wf(),
            old(self).tick_count < u64::MAX,
        ensures
            final(self).wf(),
            final(self).config == old(self).config,
            final(self).grid@ == old(self).grid@,
            final(self).tick_count == old(self).tick_count + 1,
            ice_age_active == ice_age_at(final(self).tick_count as int, final(self).config),
            final(self).history_log@ == match ice_age_change_at(
                final(self).tick_count,
                final(self).config,
            ) {
                Some(entry) => bounded_push(old(self).history_log@, entry),
                None => old(self).history_log@,
            },
    {
        self.tick_count = self.tick_count + 1;
        let active = is_ice_age(self.tick_count, &self.config);
        match ice_age_change(self.tick_count, &self.config) {
            Some(entry) => push_bounded(&mut self.history_log, entry),
            None => {},
        }
        active
    }

    /// Records a drop of the population from `prev` to `now` agents; a
    /// population that did not shrink leaves the log unchanged.
    pub fn record_population(&mut self, prev: usize, now: usize)
        requires
            old(self).wf(),
        ensures
            final(self).wf(),
            final(self).config == old(self).config,
            final(self).grid@ == old(self).grid@,
            final(self).tick_count == old(self).tick_count,
            final(self).history_log@ == if now < prev {
                bounded_push(
                    old(self).history_log@,
                    LogEntry::PopulationDropped { tick: old(self).tick_count, from: prev, to: now },
                )
            } else {
                old(self).history_log@
            },
    {
        if now < prev {
            push_bounded(
                &mut self.history_log,
                LogEntry::PopulationDropped { tick: self.tick_count, from: prev, to: now },
            );
        }
    }

    /// An agent standing on (x, y) eats one unit of food there, if there is
    /// any; returns whether it ate.
    pub fn eat_at(&mut self, x: usize, y: usize) -> (ate: bool)
        requires
            old(self).wf(),
            x < old(self).config.width,
            y < old(self).config.height,
        ensures
            final(self).wf(),
            final(self).config == old(self).config,
            final(self).tick_count == old(self).tick_count,
            final(self).history_log@ == old(self).history_log@,
            ate == (old(self).grid@[old(self).config.index_of(x as int, y as int)] > 0),
            final(self).grid@ == if ate {
                old(self).grid@.update(
                    old(self).config.index_of(x as int, y as int),
                    (old(self).grid@[old(self).config.index_of(x as int, y as int)] - 1) as u8,
                )
            } else {
                old(self).grid@
            },
    {
        let idx = self.config.cell_index(x, y);
        if self.grid[idx] > 0 {
            let left = self.grid[idx] - 1;
            self.grid.set(idx, left);
            true
        } else {
            false
        }
    }

    /// Offers one unit of food to the cell at (x, y), as food spawning does.
    pub fn deposit_at(&mut self, x: usize, y: usize)
        requires
            old(self).wf(),
            x < old(self).config.width,
            y < old(self).config.height,
        ensures
            final(self).wf(),
            final(self).config == old(self).config,
            final(self).tick_count == old(self).tick_count,
            final(self).history_log@ == old(self).history_log@,
            final(self).grid@ == deposit_spec(
                old(self).grid@,
                old(self).config.index_of(x as int, y as int),
            ),
    {
        let idx = self.config.cell_index(x, y);
        deposit_food(&mut self.grid, idx);
    }

    /// One pass of food growth: every cell whose entry in `hits` is set is
    /// offered one unit of food, so a cell gains at most one unit and never
    /// passes `MAX_FOOD_PER_CELL`; cells already past it are unchanged.
    /// `hits` lists the cells row by row.
    pub fn deposit_hits(&mut self, hits: &Vec<bool>)
        requires
            old(self).wf(),
            hits@.len() == old(self).grid@.len(),
        ensures
            final(self).wf(),
            final(self).config == old(self).config,
            final(self).tick_count == old(self).tick_count,
            final(self).history_log@ == old(self).history_log@,
            final(self).grid@.len() == old(self).grid@.len(),
            forall|c: int|
                0 <= c < old(self).grid@.len() ==> #[trigger] final(self).grid@[c] == if hits@[c]
                    && old(self).grid@[c] < MAX_FOOD_PER_CELL {
                    (old(self).grid@[c] + 1) as u8
                } else {
                    old(self).grid@[c]
                },
    {
        let ghost start = self.grid@;
        let mut c: usize = 0;
        while c < self.grid.len()
            invariant
                self.wf(),
                self.config == old(self).config,
                self.tick_count == old(self).tick_count,
                self.history_log@ == old(self).history_log@,
                start == old(self).grid@,
                hits@.len() == start.len(),
                self.grid@.len() == start.len(),
                c <= start.len(),
                forall|d: int|
                    0 <= d < start.len() ==> #[trigger] self.grid@[d] == if d < c && hits@[d]
                        && start[d] < MAX_FOOD_PER_CELL {
                        (start[d] + 1) as u8
                    } else {
                        start[d]
                    },
            decreases start.len() - c,
        {
            if hits[c] {
                deposit_food(&mut self.grid, c);
            }
            c = c + 1;
        }
    }

    /// The history log as text, one entry per line.
    pub fn log_text(&self) -> (s: String)
        ensures
            s@ == crate::history::joined(
                self.history_log@.map_values(|e: LogEntry| crate::history::entry_text(e)),
            ),
    {
        crate::history::log_text(&self.history_log)
    }
}

/// Drops depend only on the positions they use.
proof fn lemma_drop_all_prefix(
    grid: Seq<u8>,
    config: Config,
    a: Seq<(usize, usize)>,
    b: Seq<(usize, usize)>,
    k: int,
)
    requires
        0 <= k <= a.len(),
        k <= b.len(),
        forall|m: int| 0 <= m < k ==> #[trigger] a[m] == b[m],
    ensures
        drop_all(grid, config, a, k) == drop_all(grid, config, b, k),
    decreases k,
{
    if k > 0 {
        lemma_drop_all_prefix(grid, config, a, b, k - 1);
    }
}

/// Deposits depend only on the indices they use.
proof fn lemma_deposit_all_prefix(grid: Seq<u8>, a: Seq<usize>, b: Seq<usize>, k: int)
    requires
        0 <= k <= a.len(),
        k <= b.len(),
        forall|m: int| 0 <= m < k ==> #[trigger] a[m] == b[m],
    ensures
        deposit_all(grid, a, k) == deposit_all(grid, b, k),
    decreases k,
{
    if k > 0 {
        lemma_deposit_all_prefix(grid, a, b, k - 1);
    }
}

/// A grid of empty cells holds no food.
proof fn lemma_zero_sum(grid: Seq<u8>)
    requires
        forall|c: int| 0 <= c < grid.len() ==> #[trigger] grid[c] == 0,
    ensures
        food_sum(grid) == 0,
    decreases grid.len(),
{
    if grid.len() > 0 {
        lemma_zero_sum(grid.drop_last());
    }
}

} // verus!
