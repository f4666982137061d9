use vstd::prelude::*;
use crate::config::Config;
use crate::random::random_index;
use crate::substrate::{lemma_wrappable, wrap_coord, wrap_spec};
use vstd::seq_lib::lemma_multiset_commutative;
use crate::mating::{bucket_views, buckets_partition, lemma_mating_pairs_sound, mating_pairs_spec};

verus! {

/// Every position (column, row) lies on the grid.
pub open spec fn positions_in_grid(positions: Seq<(usize, usize)>, config: Config) -> bool {
    forall|k: int|
        0 <= k < positions.len() ==> #[trigger] positions[k].0 < config.width && positions[k].1
            < config.height
}

/// Grid index of the cell holding position `p`.
pub open spec fn cell_of(config: Config, p: (usize, usize)) -> int {
    config.index_of(p.0 as int, p.1 as int)
}

/// `order` lists each of the indices `0..n` exactly once.
pub open spec fn is_order_of(order: Seq<usize>, n: nat) -> bool {
    &&& order.len() == n
    &&& forall|k: int| 0 <= k < n ==> #[trigger] order[k] < n
    &&& order.no_duplicates()
}

/// `s` with the entries at `i` and `j` exchanged.
pub open spec fn swap_spec(s: Seq<usize>, i: int, j: int) -> Seq<usize> {
    s.update(i, s[j]).update(j, s[i])
}

/// The order after the first `k` steps of a Fisher–Yates shuffle of `0..n`
/// in which step `i` exchanges position `i` with position `draws[i]`.
pub open spec fn fisher_yates(n: nat, draws: Seq<usize>, k: int) -> Seq<usize>
    decreases k,
{
    if k <= 0 {
        Seq::new(n, |m: int| m as usize)
    } else {
        swap_spec(fisher_yates(n, draws, k - 1), k - 1, draws[k - 1] as int)
    }
}

/// Draws fit a shuffle of `draws.len()` entries: step `i` picks a partner in `i..n`.
pub open spec fn valid_draws(draws: Seq<usize>) -> bool {
    forall|i: int| 0 <= i < draws.len() ==> i <= #[trigger] draws[i] < draws.len()
}

/// The Fisher–Yates shuffle of `0..n` with the given partner draws, `n`
/// being the number of draws.
pub fn shuffle_with_draws(draws: &Vec<usize>) -> (order: Vec<usize>)
    requires
        valid_draws(draws@),
    ensures
        order@ == fisher_yates(draws@.len(), draws@, draws@.len() as int),
        is_order_of(order@, draws@.len()),
{
    let n = draws.len();
    let mut order: Vec<usize> = Vec::new();
    let mut k: usize = 0;
    while k < n
        invariant
            k <= n,
            order@.len() == k,
            forall|m: int| 0 <= m < k ==> #[trigger] order@[m] == m,
        decreases n - k,
    {
        order.push(k);
        k = k + 1;
    }
    assert(order@ =~= fisher_yates(n as nat, draws@, 0));
    let mut i: usize = 0;
    while i < n
        invariant
            n == draws@.len(),
            i <= n,
            valid_draws(draws@),
            is_order_of(order@, n as nat),
            order@ == fisher_yates(n as nat, draws@, i as int),
        decreases n - i,
    {
        let j = draws[i];
        let a = order[i];
        let b = order[j];
        let ghost before = order@;
        order.set(i, b);
        order.set(j, a);
        proof {
            assert(order@ =~= swap_spec(before, i as int, j as int));
            assert forall|p: int, q: int|
                0 <= p < order@.len() && 0 <= q < order@.len() && p != q implies order@[p]
                != order@[q] by {
                let sp = if p == i { j as int } else if p == j { i as int } else { p };
                let sq = if q == i { j as int } else if q == j { i as int } else { q };
                assert(order@[p] == before[sp]);
                assert(order@[q] == before[sq]);
            }
        }
        i = i + 1;
    }
    order
}

/// A random processing order of the agents `0..n`: a Fisher–Yates shuffle
/// that draws, for each position `i`, a partner in `i..n`.
pub fn shuffled_order(n: usize, rng: &mut rand::rngs::StdRng) -> (order: Vec<usize>)
    ensures
        is_order_of(order@, n as nat),
        exists|draws: Seq<usize>|
            draws.len() == n && valid_draws(draws) && order@ == #[trigger] fisher_yates(
                n as nat,
                draws,
                n as int,
            ),
{
    let mut draws: Vec<usize> = Vec::new();
    let mut i: usize = 0;
    while i < n
        invariant
            i <= n,
            draws@.len() == i,
            forall|k: int| 0 <= k < i ==> k <= #[trigger] draws@[k] < n,
        decreases n - i,
    {
        draws.push(random_index(rng, i, n));
        i = i + 1;
    }
    shuffle_with_draws(&draws)
}

/// Index `i` occurs in `order`.
pub open spec fn order_reaches(order: Seq<usize>, i: int) -> bool {
    exists|k: int| 0 <= k < order.len() && order[k] == i
}

/// A processing order reaches every agent: each index in `0..n` occurs in it.
pub proof fn lemma_order_covers(order: Seq<usize>, n: nat)
    requires
        is_order_of(order, n),
    ensures
        forall|i: int| 0 <= i < n ==> #[trigger] order_reaches(order, i),
{
    let s = order.map_values(|v: usize| v as int);
    assert(s.no_duplicates()) by {
        assert forall|a: int, b: int| 0 <= a < s.len() && 0 <= b < s.len() && a != b implies s[a]
            != s[b] by {
            assert(order[a] != order[b]);
        }
    }
    s.unique_seq_to_set();
    vstd::seq_lib::seq_to_set_is_finite(s);
    vstd::set_lib::lemma_int_range(0, n as int);
    let range = vstd::set_lib::set_int_range(0, n as int);
    assert(s.to_set().subset_of(range)) by {
        assert forall|x: int| s.to_set().contains(x) implies range.contains(x) by {
            assert(s.contains(x));
            let k = choose|k: int| 0 <= k < s.len() && s[k] == x;
            assert(order[k] < n);
        }
    }
    vstd::set_lib::lemma_subset_equality(s.to_set(), range);
    assert forall|i: int| 0 <= i < n implies #[trigger] order_reaches(order, i) by {
        assert(range.contains(i));
        assert(s.to_set().contains(i));
        assert(s.contains(i));
        let k = choose|k: int| 0 <= k < s.len() && s[k] == i;
        assert(order[k] == i);
    }
}

/// Number of the listed positions that fall in grid cell `cell`.
pub open spec fn occupants(positions: Seq<(usize, usize)>, config: Config, cell: int) -> nat
    decreases positions.len(),
{
    if positions.len() == 0 {
        0
    } else {
        occupants(positions.drop_last(), config, cell) + if cell_of(config, positions.last())
            == cell {
            1nat
        } else {
            0nat
        }
    }
}

/// Crowding count of each cell: how many of the positions stand in it,
/// saturating at 255.
pub fn density_counts(positions: &Vec<(usize, usize)>, config: &Config) -> (d: Vec<u8>)
    requires
        config.valid(),
        positions_in_grid(positions@, *config),
    ensures
        d@.len() == config.cells(),
        forall|c: int|
            0 <= c < config.cells() ==> #[trigger] d@[c] == if occupants(
                positions@,
                *config,
                c,
            ) < 255 {
                occupants(positions@, *config, c)
            } else {
                255
            },
{
    let cells = config.cell_count();
    let mut d: Vec<u8> = Vec::new();
    while d.len() < cells
        invariant
            d@.len() <= cells,
            forall|c: int| 0 <= c < d@.len() ==> #[trigger] d@[c] == 0,
        decreases cells - d.len(),
    {
        d.push(0);
    }
    let mut k: usize = 0;
    while k < positions.len()
        invariant
            config.valid(),
            cells == config.cells(),
            k <= positions@.len(),
            positions_in_grid(positions@, *config),
            d@.len() == cells,
            forall|c: int|
                0 <= c < cells ==> #[trigger] d@[c] == if occupants(
                    positions@.take(k as int),
                    *config,
                    c,
                ) < 255 {
                    occupants(positions@.take(k as int), *config, c)
                } else {
                    255
                },
        decreases positions.len() - k,
    {
        let (x, y) = positions[k];
        let idx = config.cell_index(x, y);
        let bumped = d[idx].saturating_add(1);
        d.set(idx, bumped);
        proof {
            assert(positions@.take(k + 1).drop_last() =~= positions@.take(k as int));
        }
        k = k + 1;
    }
    proof {
        assert(positions@.take(k as int) =~= positions@);
    }
    d
}

/// Indices of the listed positions that fall in grid cell `cell`, in increasing order.
pub open spec fn members(positions: Seq<(usize, usize)>, config: Config, cell: int) -> Seq<usize>
    decreases positions.len(),
{
    if positions.len() == 0 {
        Seq::empty()
    } else {
        let rest = members(positions.drop_last(), config, cell);
        if cell_of(config, positions.last()) == cell {
            rest.push((positions.len() - 1) as usize)
        } else {
            rest
        }
    }
}

/// The members of a cell are agents standing in that cell, listed in increasing order.
pub proof fn lemma_members(positions: Seq<(usize, usize)>, config: Config, cell: int)
    requires
        positions.len() <= usize::MAX,
    ensures
        forall|m: int|
            0 <= m < members(positions, config, cell).len() ==> {
                let k = #[trigger] members(positions, config, cell)[m];
                &&& k < positions.len()
                &&& cell_of(config, positions[k as int]) == cell
            },
        forall|i: int, j: int|
            0 <= i < j < members(positions, config, cell).len() ==> #[trigger] members(
                positions,
                config,
                cell,
            )[i] < #[trigger] members(positions, config, cell)[j],
    decreases positions.len(),
{
    if positions.len() > 0 {
        let rest = positions.drop_last();
        lemma_members(rest, config, cell);
        let mr = members(rest, config, cell);
        let ma = members(positions, config, cell);
        assert forall|m: int| 0 <= m < ma.len() implies {
            let k = #[trigger] ma[m];
            &&& k < positions.len()
            &&& cell_of(config, positions[k as int]) == cell
        } by {
            if m < mr.len() {
                assert(ma[m] == mr[m]);
                assert(rest[mr[m] as int] == positions[mr[m] as int]);
            }
        }
        assert forall|i: int, j: int| 0 <= i < j < ma.len() implies #[trigger] ma[i] < #[trigger] ma[j] by {
            if j < mr.len() {
                assert(ma[i] == mr[i] && ma[j] == mr[j]);
            } else {
                assert(ma[i] == mr[i]);
            }
        }
    }
}

/// Buckets of members, one per cell, place every agent in exactly one bucket.
pub proof fn lemma_members_partition(positions: Seq<(usize, usize)>, config: Config, buckets: Seq<Seq<usize>>)
    requires
        positions.len() <= usize::MAX,
        forall|c: int| 0 <= c < buckets.len() ==> #[trigger] buckets[c] == members(positions, config, c),
    ensures
        buckets_partition(buckets),
{
    assert forall|c: int| 0 <= c < buckets.len() implies (#[trigger] buckets[c]).no_duplicates() by {
        lemma_members(positions, config, c);
        assert forall|i: int, j: int| 0 <= i < buckets[c].len() && 0 <= j < buckets[c].len() && i != j implies buckets[c][i] != buckets[c][j] by {
            if i < j {
                assert(members(positions, config, c)[i] < members(positions, config, c)[j]);
            } else {
                assert(members(positions, config, c)[j] < members(positions, config, c)[i]);
            }
        }
    }
    assert forall|c1: int, c2: int, m1: int, m2: int|
        0 <= c1 < buckets.len() && 0 <= c2 < buckets.len() && c1 != c2 && 0 <= m1
            < buckets[c1].len() && 0 <= m2 < buckets[c2].len() implies #[trigger] buckets[c1][m1]
            != #[trigger] buckets[c2][m2] by {
        lemma_members(positions, config, c1);
        lemma_members(positions, config, c2);
        assert(members(positions, config, c1)[m1] == buckets[c1][m1]);
        assert(members(positions, config, c2)[m2] == buckets[c2][m2]);
    }
}

/// The crowding count of a cell is the size of its bucket.
pub proof fn lemma_occupants_are_members(positions: Seq<(usize, usize)>, config: Config, cell: int)
    ensures
        occupants(positions, config, cell) == members(positions, config, cell).len(),
    decreases positions.len(),
{
    if positions.len() > 0 {
        lemma_occupants_are_members(positions.drop_last(), config, cell);
    }
}

/// The buckets of all cells of the grid, as `cell_buckets` builds them.
pub open spec fn grid_buckets(positions: Seq<(usize, usize)>, config: Config) -> Seq<Seq<usize>> {
    Seq::new(config.cells(), |c: int| members(positions, config, c))
}

/// An agent reproduces at most once per tick, and only with another eligible
/// agent standing in the same cell.
pub proof fn lemma_reproduction_once_per_tick(
    positions: Seq<(usize, usize)>,
    config: Config,
    eligible: Seq<bool>,
)
    requires
        positions.len() <= usize::MAX,
    ensures
        forall|i: int|
            0 <= i < mating_pairs_spec(
                grid_buckets(positions, config),
                eligible,
                config.cells() as int,
            ).len() ==> {
                let p = #[trigger] mating_pairs_spec(
                    grid_buckets(positions, config),
                    eligible,
                    config.cells() as int,
                )[i];
                &&& p.0 != p.1
                &&& eligible[p.0 as int]
                &&& eligible[p.1 as int]
                &&& p.0 < positions.len()
                &&& p.1 < positions.len()
                &&& cell_of(config, positions[p.0 as int]) == cell_of(config, positions[p.1 as int])
            },
        forall|i: int, j: int|
            0 <= i < mating_pairs_spec(
                grid_buckets(positions, config),
                eligible,
                config.cells() as int,
            ).len() && 0 <= j < mating_pairs_spec(
                grid_buckets(positions, config),
                eligible,
                config.cells() as int,
            ).len() && i != j ==> {
                let p = #[trigger] mating_pairs_spec(
                    grid_buckets(positions, config),
                    eligible,
                    config.cells() as int,
                )[i];
                let q = #[trigger] mating_pairs_spec(
                    grid_buckets(positions, config),
                    eligible,
                    config.cells() as int,
                )[j];
                &&& p.0 != q.0
                &&& p.0 != q.1
                &&& p.1 != q.0
                &&& p.1 != q.1
            },
{
    let buckets = grid_buckets(positions, config);
    lemma_members_partition(positions, config, buckets);
    lemma_mating_pairs_sound(buckets, eligible);
    let all = mating_pairs_spec(buckets, eligible, config.cells() as int);
    assert forall|i: int| 0 <= i < all.len() implies {
        let p = #[trigger] all[i];
        &&& p.0 != p.1
        &&& eligible[p.0 as int]
        &&& eligible[p.1 as int]
        &&& p.0 < positions.len()
        &&& p.1 < positions.len()
        &&& cell_of(config, positions[p.0 as int]) == cell_of(config, positions[p.1 as int])
    } by {
        let p = all[i];
        let d = choose|d: int|
            0 <= d < buckets.len() && #[trigger] buckets[d].contains(p.0) && buckets[d].contains(
                p.1,
            );
        lemma_members(positions, config, d);
        let m0 = choose|m: int| 0 <= m < buckets[d].len() && buckets[d][m] == p.0;
        let m1 = choose|m: int| 0 <= m < buckets[d].len() && buckets[d][m] == p.1;
        assert(members(positions, config, d)[m0] == p.0);
        assert(members(positions, config, d)[m1] == p.1);
    }
}

/// For every grid cell, the indices of the agents standing in it, in increasing order.
pub fn cell_buckets(positions: &Vec<(usize, usize)>, config: &Config) -> (b: Vec<Vec<usize>>)
    requires
        config.valid(),
        positions_in_grid(positions@, *config),
    ensures
        b@.len() == config.cells(),
        forall|c: int| 0 <= c < config.cells() ==> #[trigger] b@[c]@ == members(positions@, *config, c),
        buckets_partition(bucket_views(b@)),
        bucket_views(b@) == grid_buckets(positions@, *config),
{
    let cells = config.cell_count();
    let mut b: Vec<Vec<usize>> = Vec::new();
    while b.len() < cells
        invariant
            b@.len() <= cells,
            forall|c: int| 0 <= c < b@.len() ==> #[trigger] b@[c]@ == Seq::<usize>::empty(),
        decreases cells - b.len(),
    {
        b.push(Vec::new());
    }
    let mut k: usize = 0;
    while k < positions.len()
        invariant
            config.valid(),
            cells == config.cells(),
            k <= positions@.len(),
            positions_in_grid(positions@, *config),
            b@.len() == cells,
            forall|c: int|
                0 <= c < cells ==> #[trigger] b@[c]@ == members(
                    positions@.take(k as int),
                    *config,
                    c,
                ),
        decreases positions.len() - k,
    {
        let (x, y) = positions[k];
        let idx = config.cell_index(x, y);
        b[idx].push(k);
        proof {
            assert(positions@.take(k + 1).drop_last() =~= positions@.take(k as int));
        }
        k = k + 1;
    }
    proof {
        assert(positions@.take(k as int) =~= positions@);
        lemma_members_partition(positions@, *config, bucket_views(b@));
        assert(bucket_views(b@) =~= grid_buckets(positions@, *config));
    }
    b
}

/// The slot, in a cell of `len` agents, that lies `offset` places after slot `a`, going round.
pub open spec fn victim_slot(len: int, a: int, offset: int) -> int {
    (a + offset) % len
}

/// The victim of the agent in slot `a` of a shared cell when the drawn
/// offset is `offset`: the agent `offset` slots further round the cell.
pub fn victim_for(cell: &Vec<usize>, a: usize, offset: usize) -> (victim: usize)
    requires
        a < cell@.len(),
        1 <= offset < cell@.len(),
    ensures
        victim == cell@[victim_slot(cell@.len() as int, a as int, offset as int)],
        victim_slot(cell@.len() as int, a as int, offset as int) != a,
        victim == cell@[(a + offset) % (cell@.len() as int)],
{
    let len = cell.len();
    let slot = if offset < len - a {
        a + offset
    } else {
        offset - (len - a)
    };
    proof {
        let l = len as int;
        if offset < len - a {
            vstd::arithmetic::div_mod::lemma_small_mod((a + offset) as nat, l as nat);
        } else {
            vstd::arithmetic::div_mod::lemma_mod_add_multiples_vanish((offset - (l - a)) as int, l);
            vstd::arithmetic::div_mod::lemma_small_mod((offset - (l - a)) as nat, l as nat);
        }
        assert(slot == victim_slot(l, a as int, offset as int));
    }
    cell[slot]
}

/// Distinct drawn offsets pick distinct victims' slots, none of them the
/// attacker's own: offsets `1..len` map one to one onto the other slots.
pub proof fn lemma_victim_slots_distinct(len: int, a: int, o1: int, o2: int)
    requires
        0 <= a < len,
        1 <= o1 < len,
        1 <= o2 < len,
    ensures
        0 <= (a + o1) % len < len,
        (a + o1) % len != a,
        o1 != o2 ==> (a + o1) % len != (a + o2) % len,
{
    let s1 = if a + o1 < len { a + o1 } else { a + o1 - len };
    let s2 = if a + o2 < len { a + o2 } else { a + o2 - len };
    if a + o1 < len {
        vstd::arithmetic::div_mod::lemma_small_mod((a + o1) as nat, len as nat);
    } else {
        vstd::arithmetic::div_mod::lemma_mod_add_multiples_vanish(a + o1 - len, len);
        vstd::arithmetic::div_mod::lemma_small_mod((a + o1 - len) as nat, len as nat);
    }
    if a + o2 < len {
        vstd::arithmetic::div_mod::lemma_small_mod((a + o2) as nat, len as nat);
    } else {
        vstd::arithmetic::div_mod::lemma_mod_add_multiples_vanish(a + o2 - len, len);
        vstd::arithmetic::div_mod::lemma_small_mod((a + o2 - len) as nat, len as nat);
    }
    assert((a + o1) % len == s1 && (a + o2) % len == s2);
}

/// Chooses the victim of the agent in slot `a` of a shared cell: another
/// slot, `offset` places further round the cell, with `offset` drawn from `1..len`.
/// When the cell lists no agent twice, the victim is never the attacker itself.
pub fn pick_victim(cell: &Vec<usize>, a: usize, rng: &mut rand::rngs::StdRng) -> (victim: usize)
    requires
        cell@.len() >= 2,
        a < cell@.len(),
    ensures
        exists|offset: int|
            1 <= offset < cell@.len() && victim == cell@[#[trigger] victim_slot(
                cell@.len() as int,
                a as int,
                offset,
            )],
        exists|offset: int|
            1 <= offset < cell@.len() && #[trigger] cell@[(a + offset) % (cell@.len() as int)]
                == victim,
        cell@.no_duplicates() ==> victim != cell@[a as int],
{
    let offset = random_index(rng, 1, cell.len());
    victim_for(cell, a, offset)
}

/// What is left, in order, of `s[i..]` once every marked entry is taken out
/// back to front by swapping the last entry into its place.
pub open spec fn removal_tail<T>(s: Seq<T>, dead: Seq<bool>, i: int) -> Seq<T>
    decreases s.len() - i,
{
    if i < 0 || i >= s.len() {
        Seq::empty()
    } else {
        let r = removal_tail(s, dead, i + 1);
        if dead[i] {
            if r.len() == 0 {
                r
            } else {
                seq![r.last()] + r.drop_last()
            }
        } else {
            seq![s[i]] + r
        }
    }
}

/// The unmarked entries of `s[i..]`, in the order they stand in `s`.
pub open spec fn survivors<T>(s: Seq<T>, dead: Seq<bool>, i: int) -> Seq<T>
    decreases s.len() - i,
{
    if i < 0 || i >= s.len() {
        Seq::empty()
    } else if dead[i] {
        survivors(s, dead, i + 1)
    } else {
        seq![s[i]] + survivors(s, dead, i + 1)
    }
}

/// Taking out the marked entries keeps exactly the unmarked ones, counted with multiplicity.
pub proof fn lemma_removal_keeps_survivors<T>(s: Seq<T>, dead: Seq<bool>, i: int)
    requires
        0 <= i <= s.len(),
    ensures
        removal_tail(s, dead, i).to_multiset() == survivors(s, dead, i).to_multiset(),
        removal_tail(s, dead, i).len() == survivors(s, dead, i).len(),
    decreases s.len() - i,
{
    if i < s.len() {
        lemma_removal_keeps_survivors(s, dead, i + 1);
        let r = removal_tail(s, dead, i + 1);
        let v = survivors(s, dead, i + 1);
        if dead[i] {
            if r.len() > 0 {
                lemma_multiset_commutative(seq![r.last()], r.drop_last());
                lemma_multiset_commutative(r.drop_last(), seq![r.last()]);
                assert(r.drop_last() + seq![r.last()] =~= r);
            }
        } else {
            lemma_multiset_commutative(seq![s[i]], r);
            lemma_multiset_commutative(seq![s[i]], v);
        }
    }
}

/// Takes every entry marked in `dead` out of `items`, going from the back
/// and moving the last entry into each freed slot.
pub fn remove_marked<T>(items: &mut Vec<T>, dead: &Vec<bool>)
    requires
        dead@.len() == old(items)@.len(),
    ensures
        final(items)@ == removal_tail(old(items)@, dead@, 0),
        final(items)@.to_multiset() == survivors(old(items)@, dead@, 0).to_multiset(),
        final(items)@.len() == survivors(old(items)@, dead@, 0).len(),
{
    let ghost s = items@;
    let mut i: usize = items.len();
    while i > 0
        invariant
            dead@.len() == s.len(),
            i <= s.len(),
            items@ == s.take(i as int) + removal_tail(s, dead@, i as int),
        decreases i,
    {
        i = i - 1;
        let ghost r = removal_tail(s, dead@, i + 1);
        proof {
            assert(s.take(i + 1) =~= s.take(i as int).push(s[i as int]));
            assert(items@ =~= s.take(i as int) + (seq![s[i as int]] + r));
        }
        if dead[i] {
            items.swap_remove(i);
            proof {
                if r.len() == 0 {
                    assert(items@ =~= s.take(i as int) + r);
                } else {
                    assert(items@ =~= s.take(i as int) + (seq![r.last()] + r.drop_last()));
                }
            }
        }
    }
    proof {
        assert(items@ =~= removal_tail(s, dead@, 0));
        lemma_removal_keeps_survivors(s, dead@, 0);
    }
}

/// One of the eight cells around a parent, by number 0..8: the row above
/// from left to right, the two side cells, then the row below.
pub open spec fn neighbour_offset(k: int) -> (int, int) {
    if k == 0 {
        (-1, -1)
    } else if k == 1 {
        (0, -1)
    } else if k == 2 {
        (1, -1)
    } else if k == 3 {
        (-1, 0)
    } else if k == 4 {
        (1, 0)
    } else if k == 5 {
        (-1, 1)
    } else if k == 6 {
        (0, 1)
    } else {
        (1, 1)
    }
}

/// The cell numbered `k` (see `neighbour_offset`) around (x, y), wrapped around the world.
pub fn neighbour_cell(x: usize, y: usize, k: usize, config: &Config) -> (r: (usize, usize))
    requires
        config.valid(),
        x < config.width,
        y < config.height,
        k < 8,
    ensures
        r.0 == wrap_spec(x + neighbour_offset(k as int).0, config.width as int),
        r.1 == wrap_spec(y + neighbour_offset(k as int).1, config.height as int),
        r.0 < config.width,
        r.1 < config.height,
{
    let offsets: [(i32, i32); 8] = [(-1, -1), (0, -1), (1, -1), (-1, 0), (1, 0), (-1, 1), (0, 1), (1, 1)];
    let (dx, dy) = offsets[k];
    assert(dx == neighbour_offset(k as int).0 && dy == neighbour_offset(k as int).1);
    proof {
        lemma_wrappable(x + dx, config.width as int);
        lemma_wrappable(y + dy, config.height as int);
    }
    (wrap_coord(x as i32 + dx, config.width), wrap_coord(y as i32 + dy, config.height))
}

/// Birth place of a child of the parent at (x, y): one of the eight
/// surrounding cells, chosen at random, wrapped around the world.
pub fn child_position(x: usize, y: usize, config: &Config, rng: &mut rand::rngs::StdRng) -> (r: (
    usize,
    usize,
))
    requires
        config.valid(),
        x < config.width,
        y < config.height,
    ensures
        exists|k: int|
            0 <= k < 8 && r.0 == wrap_spec(x + (#[trigger] neighbour_offset(k)).0, config.width as int)
                && r.1 == wrap_spec(y + neighbour_offset(k).1, config.height as int),
        r.0 < config.width,
        r.1 < config.height,
{
    let k = random_index(rng, 0, 8);
    neighbour_cell(x, y, k, config)
}

/// Position reached from (x, y) by a step of `step_x`, `step_y` (each -1, 0
/// or 1), wrapped around the world.
pub fn step_position(x: usize, y: usize, step_x: i32, step_y: i32, config: &Config) -> (r: (
    usize,
    usize,
))
    requires
        config.valid(),
        x < config.width,
        y < config.height,
        -1 <= step_x <= 1,
        -1 <= step_y <= 1,
    ensures
        r.0 == wrap_spec(x + step_x, config.width as int),
        r.1 == wrap_spec(y + step_y, config.height as int),
        r.0 < config.width,
        r.1 < config.height,
{
    proof {
        lemma_wrappable(x + step_x, config.width as int);
        lemma_wrappable(y + step_y, config.height as int);
    }
    (wrap_coord(x as i32 + step_x, config.width), wrap_coord(y as i32 + step_y, config.height))
}

/// How strongly genes mutate, set by the size of the population: sparse
/// populations mutate more, crowded ones less.
#[derive(Clone, Copy, Debug, PartialEq, Eq, Structural)]
pub enum MutationRegime {
    /// Fewer than 15 agents.
    Boosted,
    /// From 15 to 120 agents.
    Normal,
    /// More than 120 agents.
    Damped,
}

/// The mutation regime for a population of `pop` agents.
pub open spec fn mutation_regime_spec(pop: int) -> MutationRegime {
    if pop < 15 {
        MutationRegime::Boosted
    } else if pop > 120 {
        MutationRegime::Damped
    } else {
        MutationRegime::Normal
    }
}

/// The mutation regime for a population of `pop` agents.
pub fn mutation_regime(pop: usize) -> (r: MutationRegime)
    ensures
        r == mutation_regime_spec(pop as int),
{
    if pop < 15 {
        MutationRegime::Boosted
    } else if pop > 120 {
        MutationRegime::Damped
    } else {
        MutationRegime::Normal
    }
}

/// The (agent index, column, row) triples of the eligible agents among the
/// first `n` positions, in index order.
pub open spec fn candidates_spec(positions: Seq<(usize, usize)>, eligible: Seq<bool>, n: int) -> Seq<
    (usize, usize, usize),
>
    decreases n,
{
    if n <= 0 {
        Seq::empty()
    } else {
        let rest = candidates_spec(positions, eligible, n - 1);
        if eligible[n - 1] {
            rest.push(((n - 1) as usize, positions[n - 1].0, positions[n - 1].1))
        } else {
            rest
        }
    }
}

/// The agents ready to mate this tick, as (agent index, column, row)
/// triples in index order; `eligible[k]` tells whether agent `k`'s energy
/// reaches its reproduction threshold.
pub fn mate_candidates(positions: &Vec<(usize, usize)>, eligible: &Vec<bool>) -> (r: Vec<
    (usize, usize, usize),
>)
    requires
        eligible@.len() == positions@.len(),
    ensures
        r@ == candidates_spec(positions@, eligible@, positions@.len() as int),
        forall|k: int|
            0 <= k < r@.len() ==> {
                let c = #[trigger] r@[k];
                &&& c.0 < positions@.len()
                &&& eligible@[c.0 as int]
                &&& c.1 == positions@[c.0 as int].0
                &&& c.2 == positions@[c.0 as int].1
            },
        forall|k: int|
            0 <= k < positions@.len() && #[trigger] eligible@[k] ==> exists|j: int|
                0 <= j < r@.len() && #[trigger] r@[j].0 == k,
        forall|i: int, j: int| 0 <= i < j < r@.len() ==> #[trigger] r@[i].0 < #[trigger] r@[j].0,
{
    let mut r: Vec<(usize, usize, usize)> = Vec::new();
    let mut k: usize = 0;
    while k < positions.len()
        invariant
            eligible@.len() == positions@.len(),
            k <= positions@.len(),
            r@ == candidates_spec(positions@, eligible@, k as int),
        decreases positions.len() - k,
    {
        if eligible[k] {
            let (x, y) = positions[k];
            r.push((k, x, y));
        }
        k = k + 1;
    }
    proof {
        lemma_candidates_positions(positions@, eligible@, positions@.len() as int);
        lemma_candidates_complete(positions@, eligible@, positions@.len() as int);
    }
    r
}

/// The candidate list holds every agent ready to mate, each once, in index
/// order: every eligible index among the first `n` appears, and indices strictly increase.
pub proof fn lemma_candidates_complete(positions: Seq<(usize, usize)>, eligible: Seq<bool>, n: int)
    requires
        0 <= n <= positions.len(),
        positions.len() <= usize::MAX,
    ensures
        forall|k: int|
            0 <= k < n && #[trigger] eligible[k] ==> exists|j: int|
                0 <= j < candidates_spec(positions, eligible, n).len()
                    && #[trigger] candidates_spec(positions, eligible, n)[j].0 == k,
        forall|i: int, j: int|
            0 <= i < j < candidates_spec(positions, eligible, n).len() ==> #[trigger] candidates_spec(
                positions,
                eligible,
                n,
            )[i].0 < #[trigger] candidates_spec(positions, eligible, n)[j].0,
    decreases n,
{
    lemma_candidates_positions(positions, eligible, n);
    if n > 0 {
        lemma_candidates_complete(positions, eligible, n - 1);
        lemma_candidates_positions(positions, eligible, n - 1);
        let rest = candidates_spec(positions, eligible, n - 1);
        let all = candidates_spec(positions, eligible, n);
        assert forall|k: int| 0 <= k < n && #[trigger] eligible[k] implies exists|j: int|
            0 <= j < all.len() && #[trigger] all[j].0 == k by {
            if k < n - 1 {
                let j = choose|j: int| 0 <= j < rest.len() && #[trigger] rest[j].0 == k;
                assert(all[j] == rest[j]);
            } else {
                assert(all[rest.len() as int].0 == k);
            }
        }
        assert forall|i: int, j: int| 0 <= i < j < all.len() implies #[trigger] all[i].0 < #[trigger] all[j].0 by {
            assert(all[i] == rest[i] || i == rest.len());
            if j < rest.len() {
                assert(all[i] == rest[i] && all[j] == rest[j]);
            } else {
                assert(all[i] == rest[i]);
                assert(rest[i].0 < n - 1);
            }
        }
    }
}

/// Every candidate triple carries the index and position of an eligible agent.
proof fn lemma_candidates_positions(positions: Seq<(usize, usize)>, eligible: Seq<bool>, n: int)
    requires
        0 <= n <= positions.len(),
        positions.len() <= usize::MAX,
    ensures
        forall|k: int|
            0 <= k < candidates_spec(positions, eligible, n).len() ==> {
                let c = #[trigger] candidates_spec(positions, eligible, n)[k];
                &&& c.0 < n
                &&& eligible[c.0 as int]
                &&& c.1 == positions[c.0 as int].0
                &&& c.2 == positions[c.0 as int].1
            },
    decreases n,
{
    if n > 0 {
        lemma_candidates_positions(positions, eligible, n - 1);
        let rest = candidates_spec(positions, eligible, n - 1);
        let all = candidates_spec(positions, eligible, n);
        assert forall|k: int| 0 <= k < all.len() implies {
            let c = #[trigger] all[k];
            &&& c.0 < n
            &&& eligible[c.0 as int]
            &&& c.1 == positions[c.0 as int].0
            &&& c.2 == positions[c.0 as int].1
        } by {
            if k < rest.len() {
                assert(all[k] == rest[k]);
            }
        }
    }
}

} // verus!
