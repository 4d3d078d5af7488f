//! Region partitioning: every walkable cell is assigned to the nearest of
//! N seed cells (discrete Voronoi over Manhattan distance, ties broken by
//! seed order), producing the spawn regions, and a simple spawn pass draws
//! entity-kind identifiers for cells of each region.

use vstd::prelude::*;
use crate::grid::Grid;
use crate::tiletype::spec_tile_walkable;
use crate::rng::roll;

verus! {

/// Manhattan distance between two cells.
pub open spec fn manhattan(x1: int, y1: int, x2: int, y2: int) -> int {
    (if x1 >= x2 {
        x1 - x2
    } else {
        x2 - x1
    }) + (if y1 >= y2 {
        y1 - y2
    } else {
        y2 - y1
    })
}

/// Distance from cell `(x, y)` to the seed stored at flat index `seed`.
pub open spec fn seed_dist(g: Grid, seed: int, x: int, y: int) -> int {
    manhattan(g.x_of(seed), g.y_of(seed), x, y)
}

/// The index of the nearest seed among the first `n`, earliest seed
/// winning ties.
pub open spec fn best_seed_prefix(g: Grid, seeds: Seq<usize>, x: int, y: int, n: int) -> int
    decreases n,
{
    if n <= 1 {
        0
    } else {
        let b = best_seed_prefix(g, seeds, x, y, n - 1);
        if seed_dist(g, seeds[n - 1] as int, x, y) < seed_dist(g, seeds[b] as int, x, y) {
            n - 1
        } else {
            b
        }
    }
}

/// The region a cell belongs to: the seed minimizing Manhattan distance,
/// with ties broken by seed index order.
pub open spec fn nearest_seed(g: Grid, seeds: Seq<usize>, x: int, y: int) -> int {
    best_seed_prefix(g, seeds, x, y, seeds.len() as int)
}

proof fn lemma_best_seed_range(g: Grid, seeds: Seq<usize>, x: int, y: int, n: int)
    requires
        n >= 1,
    ensures
        0 <= best_seed_prefix(g, seeds, x, y, n) < n,
    decreases n,
{
    if n > 1 {
        lemma_best_seed_range(g, seeds, x, y, n - 1);
    }
}

/// The chosen seed really is minimal over the prefix, and earlier seeds
/// are strictly farther only when they lose the tie-break.
pub proof fn lemma_best_seed_minimal(g: Grid, seeds: Seq<usize>, x: int, y: int, n: int)
    requires
        n >= 1,
    ensures
        0 <= best_seed_prefix(g, seeds, x, y, n) < n,
        forall|s: int|
            0 <= s < n ==> seed_dist(g, seeds[best_seed_prefix(g, seeds, x, y, n)] as int, x, y)
                <= seed_dist(g, #[trigger] seeds[s] as int, x, y),
        forall|s: int|
            0 <= s < best_seed_prefix(g, seeds, x, y, n) ==> seed_dist(
                g,
                seeds[best_seed_prefix(g, seeds, x, y, n)] as int,
                x,
                y,
            ) < seed_dist(g, #[trigger] seeds[s] as int, x, y),
    decreases n,
{
    if n > 1 {
        lemma_best_seed_minimal(g, seeds, x, y, n - 1);
    }
}

/// Finds the nearest seed to `(x, y)`, earliest seed winning ties.
#[verifier::loop_isolation(false)]
fn nearest_seed_exec(g: &Grid, seeds: &Vec<usize>, x: i32, y: i32) -> (r: usize)
    requires
        g.inv(),
        seeds.len() >= 1,
        forall|k: int| 0 <= k < seeds.len() ==> #[trigger] seeds[k] < g.tiles.len(),
    ensures
        r as int == nearest_seed(*g, seeds@, x as int, y as int),
{
    let mut b: usize = 0;
    let mut t: usize = 1;
    while t < seeds.len()
        invariant
            g.inv(),
            seeds.len() >= 1,
            1 <= t <= seeds.len(),
            b < t,
            b as int == best_seed_prefix(*g, seeds@, x as int, y as int, t as int),
        decreases seeds.len() - t,
    {
        let cand = seeds[t];
        let cur = seeds[b];
        if dist_to(g, cand, x, y) < dist_to(g, cur, x, y) {
            b = t;
        }
        t = t + 1;
    }
    b
}

/// Manhattan distance from `(x, y)` to the cell at flat index `seed`.
fn dist_to(g: &Grid, seed: usize, x: i32, y: i32) -> (r: i64)
    requires
        g.inv(),
        seed < g.tiles.len(),
    ensures
        r as int == seed_dist(*g, seed as int, x as int, y as int),
{
    let w = g.width as usize;
    let sx = (seed % w) as i64;
    let sy = (seed / w) as i64;
    let dx = if sx >= x as i64 {
        sx - x as i64
    } else {
        x as i64 - sx
    };
    let dy = if sy >= y as i64 {
        sy - y as i64
    } else {
        y as i64 - sy
    };
    dx + dy
}

/// Whether a vector holds a value.
pub(crate) fn vec_contains(v: &Vec<usize>, val: usize) -> (r: bool)
    ensures
        r == v@.contains(val),
{
    let mut i: usize = 0;
    while i < v.len()
        invariant
            i <= v.len(),
            forall|j: int| 0 <= j < i ==> v[j] != val,
        decreases v.len() - i,
    {
        if v[i] == val {
            return true;
        }
        i = i + 1;
    }
    false
}

/// Chooses up to `n` distinct random walkable seed cells. Random draws come
/// first; if they do not find enough distinct cells within their budget, a
/// deterministic scan completes the set, so fewer than `n` seeds come back
/// only when the grid has fewer than `n` walkable cells (and then every
/// walkable cell is a seed).
#[verifier::loop_isolation(false)]
pub fn pick_seeds(g: &Grid, rng: &mut rltk::RandomNumberGenerator, n: usize) -> (seeds: Vec<usize>)
    requires
        g.inv(),
        g.width < i32::MAX,
        g.height < i32::MAX,
        1 <= n <= 1000,
    ensures
        seeds.len() <= n,
        forall|k: int|
            0 <= k < seeds.len() ==> #[trigger] seeds[k] < g.tiles.len() && spec_tile_walkable(
                g.tiles[seeds[k] as int],
            ),
        forall|k1: int, k2: int| 0 <= k1 < k2 < seeds.len() ==> seeds[k1] != seeds[k2],
        seeds.len() < n ==> (forall|i: int|
            0 <= i < g.tiles.len() && spec_tile_walkable(g.tiles[i]) ==> seeds@.contains(i as usize)),
{
    let mut seeds: Vec<usize> = Vec::new();
    let budget: usize = n * 10;
    let mut t: usize = 0;
    while t < budget && seeds.len() < n
        invariant
            seeds.len() <= n,
            forall|k: int|
                0 <= k < seeds.len() ==> #[trigger] seeds[k] < g.tiles.len() && spec_tile_walkable(
                    g.tiles[seeds[k] as int],
                ),
            forall|k1: int, k2: int| 0 <= k1 < k2 < seeds.len() ==> seeds[k1] != seeds[k2],
        decreases budget - t,
    {
        let x = roll(rng, g.width) - 1;
        let y = roll(rng, g.height) - 1;
        let i = g.xy_idx(x, y);
        if crate::tiletype::tile_walkable(g.tiles[i]) {
            if !vec_contains(&seeds, i) {
                let ghost pre = seeds@;
                seeds.push(i);
                proof {
                    assert forall|k1: int, k2: int|
                        0 <= k1 < k2 < seeds.len() implies seeds[k1] != seeds[k2] by {
                        if k2 == seeds.len() - 1 {
                            assert(!pre.contains(i));
                            assert(pre[k1] != i) by {
                                if pre[k1] == i {
                                    assert(pre.contains(i));
                                }
                            }
                        }
                    }
                }
            }
        }
        t = t + 1;
    }
    let len: usize = g.tiles.len();
    let mut i: usize = 0;
    while i < len
        invariant
            i <= len,
            seeds.len() <= n,
            forall|k: int|
                0 <= k < seeds.len() ==> #[trigger] seeds[k] < g.tiles.len() && spec_tile_walkable(
                    g.tiles[seeds[k] as int],
                ),
            forall|k1: int, k2: int| 0 <= k1 < k2 < seeds.len() ==> seeds[k1] != seeds[k2],
            seeds.len() < n ==> (forall|j: int|
                0 <= j < i && spec_tile_walkable(g.tiles[j]) ==> seeds@.contains(j as usize)),
        decreases len - i,
    {
        if seeds.len() < n {
            if crate::tiletype::tile_walkable(g.tiles[i]) {
                if !vec_contains(&seeds, i) {
                    let ghost pre = seeds@;
                    seeds.push(i);
                    proof {
                        assert forall|k1: int, k2: int|
                            0 <= k1 < k2 < seeds.len() implies seeds[k1] != seeds[k2] by {
                            if k2 == seeds.len() - 1 {
                                assert(!pre.contains(i));
                                assert(pre[k1] != i) by {
                                    if pre[k1] == i {
                                        assert(pre.contains(i));
                                    }
                                }
                            }
                        }
                        assert forall|j: int|
                            0 <= j < i + 1 && spec_tile_walkable(g.tiles[j]) implies seeds@.contains(
                            j as usize,
                        ) by {
                            if j < i {
                                assert(pre.contains(j as usize));
                                let k = choose|k: int| 0 <= k < pre.len() && pre[k] == j as usize;
                                assert(seeds@[k] == j as usize);
                            } else {
                                assert(seeds@[seeds@.len() - 1] == i);
                            }
                        }
                    }
                } else {
                    proof {
                        assert(seeds@.contains(i));
                    }
                }
            }
        } else {
            proof {
                assert(seeds.len() == n);
            }
        }
        i = i + 1;
    }
    seeds
}

/// Groups every walkable cell into the region of its nearest seed.
/// The regions partition the walkable cells: each walkable cell lies in
/// exactly one region (that of its `nearest_seed`), unreachable kinds lie
/// in none, and each region lists its cells in ascending order.
#[verifier::loop_isolation(false)]
pub fn voronoi_regions(g: &Grid, seeds: &Vec<usize>) -> (regions: Vec<Vec<usize>>)
    requires
        g.inv(),
        seeds.len() >= 1,
        forall|k: int| 0 <= k < seeds.len() ==> #[trigger] seeds[k] < g.tiles.len(),
    ensures
        regions.len() == seeds.len(),
        forall|s: int, i: usize|
            #![trigger regions[s]@.contains(i)]
            0 <= s < regions.len() ==> (regions[s]@.contains(i) <==> (i < g.tiles.len()
                && spec_tile_walkable(g.tiles[i as int]) && nearest_seed(
                *g,
                seeds@,
                g.x_of(i as int),
                g.y_of(i as int),
            ) == s)),
        forall|s: int, k1: int, k2: int|
            0 <= s < regions.len() && 0 <= k1 < k2 < regions[s].len() ==> #[trigger] regions[s]@[k1]
                < #[trigger] regions[s]@[k2],
{
    let len: usize = g.tiles.len();
    let w = g.width as usize;
    let mut regions: Vec<Vec<usize>> = Vec::new();
    let mut s: usize = 0;
    while s < seeds.len()
        invariant
            regions.len() == s,
            s <= seeds.len(),
            forall|s2: int, i: usize|
                #![trigger regions[s2]@.contains(i)]
                0 <= s2 < s ==> (regions[s2]@.contains(i) <==> (i < g.tiles.len()
                    && spec_tile_walkable(g.tiles[i as int]) && nearest_seed(
                    *g,
                    seeds@,
                    g.x_of(i as int),
                    g.y_of(i as int),
                ) == s2)),
            forall|s2: int, k1: int, k2: int|
                0 <= s2 < s && 0 <= k1 < k2 < regions[s2].len() ==> #[trigger] regions[s2]@[k1]
                    < #[trigger] regions[s2]@[k2],
        decreases seeds.len() - s,
    {
        let mut row: Vec<usize> = Vec::new();
        let mut i: usize = 0;
        while i < len
            invariant
                i <= len,
                forall|k: int|
                    0 <= k < row.len() ==> #[trigger] row@[k] < i && 0 <= row@[k]
                        < g.tiles.len() && spec_tile_walkable(g.tiles[row@[k] as int])
                        && nearest_seed(
                        *g,
                        seeds@,
                        g.x_of(row@[k] as int),
                        g.y_of(row@[k] as int),
                    ) == s,
                forall|j: int|
                    0 <= j < i && spec_tile_walkable(g.tiles[j]) && nearest_seed(
                        *g,
                        seeds@,
                        g.x_of(j),
                        g.y_of(j),
                    ) == s ==> row@.contains(j as usize),
                forall|k1: int, k2: int| 0 <= k1 < k2 < row.len() ==> row@[k1] < row@[k2],
            decreases len - i,
        {
            if crate::tiletype::tile_walkable(g.tiles[i]) {
                let x = (i % w) as i32;
                let y = (i / w) as i32;
                proof {
                    g.lemma_idx_inverse(i as int);
                }
                let b = nearest_seed_exec(g, seeds, x, y);
                if b == s {
                    let ghost pre = row@;
                    row.push(i);
                    proof {
                        assert forall|j: int|
                            0 <= j < i + 1 && spec_tile_walkable(g.tiles[j]) && nearest_seed(
                                *g,
                                seeds@,
                                g.x_of(j),
                                g.y_of(j),
                            ) == s implies row@.contains(j as usize) by {
                            if j < i {
                                let k = choose|k: int| 0 <= k < pre.len() && pre[k] == j as usize;
                                assert(row@[k] == j as usize);
                            } else {
                                assert(row@[row@.len() - 1] == i);
                            }
                        }
                    }
                }
            }
            i = i + 1;
        }
        let ghost rowv = row@;
        regions.push(row);
        proof {
            assert forall|s2: int, i: usize|
                #![trigger regions[s2]@.contains(i)]
                0 <= s2 < s + 1 implies (regions[s2]@.contains(i) <==> (i < g.tiles.len()
                && spec_tile_walkable(g.tiles[i as int]) && nearest_seed(
                *g,
                seeds@,
                g.x_of(i as int),
                g.y_of(i as int),
            ) == s2)) by {
                if s2 == s {
                    assert(regions[s2]@ == rowv);
                    if i < g.tiles.len() && spec_tile_walkable(g.tiles[i as int]) && nearest_seed(
                        *g,
                        seeds@,
                        g.x_of(i as int),
                        g.y_of(i as int),
                    ) == s2 {
                        assert(rowv.contains(i));
                    }
                    if regions[s2]@.contains(i) {
                        let k = choose|k: int| 0 <= k < rowv.len() && rowv[k] == i;
                        assert(rowv[k] == i);
                        assert(i < g.tiles.len() && spec_tile_walkable(g.tiles[i as int]));
                    }
                }
            }
        }
        s = s + 1;
    }
    regions
}

/// A walkable cell lies in exactly one region: the union of the regions is
/// the set of walkable cells, and two different regions never share a cell.
pub proof fn lemma_regions_partition(g: Grid, seeds: Seq<usize>, regions: Seq<Seq<usize>>, i: usize)
    requires
        g.inv(),
        seeds.len() >= 1,
        regions.len() == seeds.len(),
        forall|s: int, c: usize|
            #![trigger regions[s].contains(c)]
            0 <= s < regions.len() ==> (regions[s].contains(c) <==> (c < g.tiles.len()
                && spec_tile_walkable(g.tiles[c as int]) && nearest_seed(
                g,
                seeds,
                g.x_of(c as int),
                g.y_of(c as int),
            ) == s)),
        i < g.tiles.len(),
    ensures
        spec_tile_walkable(g.tiles[i as int]) ==> exists|s: int|
            0 <= s < regions.len() && #[trigger] regions[s].contains(i),
        forall|s1: int, s2: int|
            0 <= s1 < s2 < regions.len() ==> !(#[trigger] regions[s1].contains(i)
                && #[trigger] regions[s2].contains(i)),
        !spec_tile_walkable(g.tiles[i as int]) ==> forall|s: int|
            0 <= s < regions.len() ==> !(#[trigger] regions[s].contains(i)),
{
    if spec_tile_walkable(g.tiles[i as int]) {
        lemma_best_seed_range(g, seeds, g.x_of(i as int), g.y_of(i as int), seeds.len() as int);
        let s = nearest_seed(g, seeds, g.x_of(i as int), g.y_of(i as int));
        assert(regions[s].contains(i));
    }
}

/// Every seed cell is nearest to itself, so each seed's own region holds
/// at least that cell: no region of a distinct-seed set is empty.
pub proof fn lemma_seed_in_own_region(g: Grid, seeds: Seq<usize>)
    requires
        g.inv(),
        seeds.len() >= 1,
        forall|k: int| 0 <= k < seeds.len() ==> #[trigger] seeds[k] < g.tiles.len(),
        forall|k1: int, k2: int| 0 <= k1 < k2 < seeds.len() ==> seeds[k1] != seeds[k2],
    ensures
        nearest_seed(g, seeds, g.x_of(seeds[0] as int), g.y_of(seeds[0] as int)) == 0,
{
    let x = g.x_of(seeds[0] as int);
    let y = g.y_of(seeds[0] as int);
    assert(seed_dist(g, seeds[0] as int, x, y) == 0);
    lemma_best_seed_minimal(g, seeds, x, y, seeds.len() as int);
    let b = nearest_seed(g, seeds, x, y);
    assert(seed_dist(g, seeds[b] as int, x, y) <= seed_dist(g, seeds[0] as int, x, y));
    assert(seed_dist(g, seeds[b] as int, x, y) == 0);
    assert(g.x_of(seeds[b] as int) == x && g.y_of(seeds[b] as int) == y);
    g.lemma_idx_inverse(seeds[0] as int);
    g.lemma_idx_inverse(seeds[b] as int);
    assert(seeds[b] as int == g.idx(x, y));
    assert(seeds[b] == seeds[0]);
    if b != 0 {
        assert(seeds[0] != seeds[b]);
    }
}

/// Whether a cell belongs to one of the given regions.
pub open spec fn cell_in_regions(regions: Seq<Vec<usize>>, cell: usize) -> bool {
    exists|s: int| 0 <= s < regions.len() && #[trigger] regions[s]@.contains(cell)
}

/// Draws spawn entries from each region: one to four cells of every
/// non-empty region receive a random entity-kind identifier in
/// `[1, n_kinds]`. Every spawned cell belongs to one of the regions, and at
/// least one entry comes back whenever any region is non-empty.
#[verifier::loop_isolation(false)]
pub fn spawn_from_regions(
    regions: &Vec<Vec<usize>>,
    rng: &mut rltk::RandomNumberGenerator,
    n_kinds: u32,
) -> (spawns: Vec<(usize, u64)>)
    requires
        1 <= n_kinds <= 100_000,
    ensures
        forall|k: int|
            0 <= k < spawns.len() ==> #[trigger] cell_in_regions(regions@, spawns[k].0) && 1
                <= spawns[k].1 <= n_kinds,
        (exists|s: int| 0 <= s < regions.len() && regions[s].len() > 0) ==> spawns.len() > 0,
{
    let mut spawns: Vec<(usize, u64)> = Vec::new();
    let mut s: usize = 0;
    while s < regions.len()
        invariant
            s <= regions.len(),
            forall|k: int|
                0 <= k < spawns.len() ==> #[trigger] cell_in_regions(regions@, spawns[k].0) && 1
                    <= spawns[k].1 <= n_kinds,
            (exists|s2: int| 0 <= s2 < s && regions[s2].len() > 0) ==> spawns.len() > 0,
        decreases regions.len() - s,
    {
        let region_len = regions[s].len();
        if region_len > 0 {
            let cap: i32 = if region_len >= 4 {
                4
            } else {
                region_len as i32
            };
            let count = roll(rng, cap);
            let mut c: i32 = 0;
            while c < count
                invariant
                    0 <= c <= count,
                    s < regions.len(),
                    region_len == regions[s as int].len(),
                    region_len > 0,
                    forall|k: int|
                        0 <= k < spawns.len() ==> #[trigger] cell_in_regions(
                            regions@,
                            spawns[k].0,
                        ) && 1 <= spawns[k].1 <= n_kinds,
                    c > 0 ==> spawns.len() > 0,
                decreases count - c,
            {
                let bound: i32 = if region_len >= 1_000_000 {
                    1_000_000
                } else {
                    region_len as i32
                };
                let pick: usize = (roll(rng, bound) - 1) as usize;
                let cell = regions[s][pick];
                let kind = roll(rng, n_kinds as i32) as u64;
                spawns.push((cell, kind));
                proof {
                    assert(regions[s as int]@[pick as int] == cell);
                    assert(regions[s as int]@.contains(cell));
                    assert(cell_in_regions(regions@, cell));
                }
                c = c + 1;
            }
        }
        proof {
            assert(forall|k: int|
                0 <= k < spawns.len() ==> #[trigger] cell_in_regions(regions@, spawns[k].0) && 1
                    <= spawns[k].1 <= n_kinds);
        }
        s = s + 1;
    }
    spawns
}

} // verus!
