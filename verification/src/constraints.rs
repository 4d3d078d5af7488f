//! Pattern extraction and adjacency constraints for the tiling solver:
//! fixed-size square excerpts of a template grid, their directional exit
//! bitmaps, and the pairwise direction-specific compatibility lists.

use vstd::prelude::*;
use crate::grid::Grid;
use crate::tiletype::{TileType, spec_tile_walkable};

verus! {

/// A fixed-size square excerpt of tile kinds with its four directional
/// exit bitmaps (north, south, west, east) and the per-direction lists of
/// compatible chunk indices.
pub struct MapChunk {
    pub pattern: Vec<TileType>,
    pub exits: Vec<Vec<bool>>,
    pub has_exits: bool,
    pub compatible_with: Vec<Vec<usize>>,
}

/// Shape of a well-formed chunk for a given chunk size.
pub open spec fn chunk_wf(c: MapChunk, cs: int) -> bool {
    &&& c.pattern.len() == cs * cs
    &&& c.exits.len() == 4
    &&& (forall|d: int| 0 <= d < 4 ==> #[trigger] c.exits[d].len() == cs)
    &&& c.compatible_with.len() == 4
}

/// The flat index within a chunk of the cell `(x, y)`.
pub open spec fn spec_tile_idx_in_chunk(cs: int, x: int, y: int) -> int {
    y * cs + x
}

/// The flat index within a chunk of the `k`-th cell of edge `d`
/// (0 north, 1 south, 2 west, 3 east).
pub open spec fn edge_idx(cs: int, d: int, k: int) -> int {
    if d == 0 {
        k
    } else if d == 1 {
        (cs - 1) * cs + k
    } else if d == 2 {
        k * cs
    } else {
        k * cs + (cs - 1)
    }
}

/// Whether the `k`-th cell of edge `d` is a walkable opening.
pub open spec fn pattern_exit(p: Seq<TileType>, cs: int, d: int, k: int) -> bool {
    spec_tile_walkable(p[edge_idx(cs, d, k)])
}

/// Whether edge `d` has no openings at all.
pub open spec fn edge_empty(p: Seq<TileType>, cs: int, d: int) -> bool {
    forall|k: int| 0 <= k < cs ==> !pattern_exit(p, cs, d, k)
}

/// Whether any edge of the pattern has an opening.
pub open spec fn pattern_has_exits(p: Seq<TileType>, cs: int) -> bool {
    exists|d: int, k: int| 0 <= d < 4 && 0 <= k < cs && pattern_exit(p, cs, d, k)
}

/// The direction opposite to `d`.
pub open spec fn opposite(d: int) -> int {
    if d == 0 {
        1
    } else if d == 1 {
        0
    } else if d == 2 {
        3
    } else {
        2
    }
}

/// Chunk `a` accepts chunk `b` as its neighbour in direction `d`: either
/// the two facing edges share an opening at the same offset, or neither
/// facing edge has any opening.
pub open spec fn compat(a: Seq<TileType>, b: Seq<TileType>, cs: int, d: int) -> bool {
    (exists|k: int|
        0 <= k < cs && pattern_exit(a, cs, d, k) && pattern_exit(b, cs, opposite(d), k)) || (
    edge_empty(a, cs, d) && edge_empty(b, cs, opposite(d)))
}

/// The flat index within a chunk of the cell `(x, y)`.
pub fn tile_idx_in_chunk(chunk_size: i32, x: i32, y: i32) -> (r: usize)
    requires
        1 <= chunk_size,
        chunk_size * chunk_size <= i32::MAX,
        0 <= x < chunk_size,
        0 <= y < chunk_size,
    ensures
        r == spec_tile_idx_in_chunk(chunk_size as int, x as int, y as int),
        r < chunk_size * chunk_size,
{
    proof {
        assert(0 <= y * chunk_size + x < chunk_size * chunk_size) by (nonlinear_arith)
            requires
                0 <= x < chunk_size,
                0 <= y < chunk_size,
        {}
    }
    (y as usize) * (chunk_size as usize) + (x as usize)
}

/// Whether the `k`-th cell of edge `d` of the pattern is a walkable opening.
fn edge_exit(p: &Vec<TileType>, cs: i32, d: usize, k: i32) -> (r: bool)
    requires
        1 <= cs,
        cs * cs <= i32::MAX,
        p.len() == cs * cs,
        d < 4,
        0 <= k < cs,
    ensures
        r == pattern_exit(p@, cs as int, d as int, k as int),
{
    proof {
        assert(0 <= k && k < (cs - 1) * cs + k + 1 <= cs * cs && 0 <= k * cs < cs * cs && 0 <= k
            * cs + (cs - 1) < cs * cs) by (nonlinear_arith)
            requires
                1 <= cs,
                0 <= k < cs,
        {}
    }
    let i: usize = if d == 0 {
        k as usize
    } else if d == 1 {
        ((cs - 1) as usize) * (cs as usize) + k as usize
    } else if d == 2 {
        (k as usize) * (cs as usize)
    } else {
        (k as usize) * (cs as usize) + (cs - 1) as usize
    };
    crate::tiletype::tile_walkable(p[i])
}

/// Whether edge `d` of the pattern has any opening.
#[verifier::loop_isolation(false)]
fn edge_any(p: &Vec<TileType>, cs: i32, d: usize) -> (r: bool)
    requires
        1 <= cs,
        cs * cs <= i32::MAX,
        p.len() == cs * cs,
        d < 4,
    ensures
        r == !edge_empty(p@, cs as int, d as int),
{
    let mut k: i32 = 0;
    while k < cs
        invariant
            0 <= k <= cs,
            forall|k2: int| 0 <= k2 < k ==> !pattern_exit(p@, cs as int, d as int, k2),
        decreases cs - k,
    {
        if edge_exit(p, cs, d, k) {
            return true;
        }
        k = k + 1;
    }
    false
}

/// Whether the facing edges of `a` (direction `d`) and `b` (the opposite
/// direction) share an opening at the same offset.
#[verifier::loop_isolation(false)]
fn edges_fit(a: &Vec<TileType>, b: &Vec<TileType>, cs: i32, d: usize) -> (r: bool)
    requires
        1 <= cs,
        cs * cs <= i32::MAX,
        a.len() == cs * cs,
        b.len() == cs * cs,
        d < 4,
    ensures
        r == exists|k: int|
            0 <= k < cs && pattern_exit(a@, cs as int, d as int, k) && pattern_exit(
                b@,
                cs as int,
                opposite(d as int),
                k,
            ),
{
    let od: usize = if d == 0 {
        1
    } else if d == 1 {
        0
    } else if d == 2 {
        3
    } else {
        2
    };
    let mut k: i32 = 0;
    while k < cs
        invariant
            0 <= k <= cs,
            od == opposite(d as int),
            forall|k2: int|
                0 <= k2 < k ==> !(pattern_exit(a@, cs as int, d as int, k2) && pattern_exit(
                    b@,
                    cs as int,
                    opposite(d as int),
                    k2,
                )),
        decreases cs - k,
    {
        if edge_exit(a, cs, d, k) && edge_exit(b, cs, od, k) {
            return true;
        }
        k = k + 1;
    }
    false
}

/// Whether chunk pattern `a` accepts `b` as its neighbour in direction `d`.
fn compat_exec(a: &Vec<TileType>, b: &Vec<TileType>, cs: i32, d: usize) -> (r: bool)
    requires
        1 <= cs,
        cs * cs <= i32::MAX,
        a.len() == cs * cs,
        b.len() == cs * cs,
        d < 4,
    ensures
        r == compat(a@, b@, cs as int, d as int),
{
    let od: usize = if d == 0 {
        1
    } else if d == 1 {
        0
    } else if d == 2 {
        3
    } else {
        2
    };
    if edges_fit(a, b, cs, d) {
        true
    } else {
        !edge_any(a, cs, d) && !edge_any(b, cs, od)
    }
}

/// Whether any edge of the pattern has an opening.
fn pattern_any_exit(p: &Vec<TileType>, cs: i32) -> (r: bool)
    requires
        1 <= cs,
        cs * cs <= i32::MAX,
        p.len() == cs * cs,
    ensures
        r == pattern_has_exits(p@, cs as int),
{
    let r = edge_any(p, cs, 0) || edge_any(p, cs, 1) || edge_any(p, cs, 2) || edge_any(p, cs, 3);
    proof {
        if pattern_has_exits(p@, cs as int) {
            let (d, k) = choose|d: int, k: int|
                0 <= d < 4 && 0 <= k < cs && pattern_exit(p@, cs as int, d, k);
            assert(d == 0 || d == 1 || d == 2 || d == 3);
            assert(!edge_empty(p@, cs as int, d));
        }
        if r {
            if !edge_empty(p@, cs as int, 0) {
                let k = choose|k: int| 0 <= k < cs && pattern_exit(p@, cs as int, 0, k);
                assert(pattern_exit(p@, cs as int, 0, k));
            } else if !edge_empty(p@, cs as int, 1) {
                let k = choose|k: int| 0 <= k < cs && pattern_exit(p@, cs as int, 1, k);
                assert(pattern_exit(p@, cs as int, 1, k));
            } else if !edge_empty(p@, cs as int, 2) {
                let k = choose|k: int| 0 <= k < cs && pattern_exit(p@, cs as int, 2, k);
                assert(pattern_exit(p@, cs as int, 2, k));
            } else {
                let k = choose|k: int| 0 <= k < cs && pattern_exit(p@, cs as int, 3, k);
                assert(pattern_exit(p@, cs as int, 3, k));
            }
        }
    }
    r
}

/// Derives each pattern's directional exit bitmaps, its `has_exits` flag,
/// and the full direction-specific compatibility lists: chunk `j` stands in
/// `compatible_with[d]` of chunk `k` exactly when the facing edges share an
/// opening at the same offset or neither facing edge has any opening.
#[verifier::loop_isolation(false)]
pub fn patterns_to_constraints(patterns: Vec<Vec<TileType>>, chunk_size: i32) -> (r: Vec<MapChunk>)
    requires
        1 <= chunk_size,
        chunk_size * chunk_size <= i32::MAX,
        forall|k: int|
            0 <= k < patterns.len() ==> #[trigger] patterns[k].len() == chunk_size * chunk_size,
    ensures
        r.len() == patterns.len(),
        forall|k: int| 0 <= k < r.len() ==> chunk_wf(#[trigger] r[k], chunk_size as int),
        forall|k: int| 0 <= k < r.len() ==> #[trigger] r[k].pattern@ == patterns[k]@,
        forall|k: int, d: int, e: int|
            #![trigger r[k].exits[d]@[e]]
            0 <= k < r.len() && 0 <= d < 4 && 0 <= e < chunk_size ==> r[k].exits[d]@[e]
                == pattern_exit(patterns[k]@, chunk_size as int, d, e),
        forall|k: int|
            0 <= k < r.len() ==> #[trigger] r[k].has_exits == pattern_has_exits(
                patterns[k]@,
                chunk_size as int,
            ),
        forall|k: int, d: int, j: usize|
            #![trigger r[k].compatible_with[d]@.contains(j)]
            0 <= k < r.len() && 0 <= d < 4 ==> (r[k].compatible_with[d]@.contains(j) <==> (j
                < patterns.len() && compat(
                patterns[k]@,
                patterns[j as int]@,
                chunk_size as int,
                d,
            ))),
        forall|k: int, d: int, e1: int, e2: int|
            #![trigger r[k].compatible_with[d]@[e1], r[k].compatible_with[d]@[e2]]
            0 <= k < r.len() && 0 <= d < 4 && 0 <= e1 < e2 < r[k].compatible_with[d].len()
                ==> r[k].compatible_with[d]@[e1] < r[k].compatible_with[d]@[e2],
{
    let cs = chunk_size;
    let n = patterns.len();
    let mut r: Vec<MapChunk> = Vec::new();
    let mut k: usize = 0;
    while k < n
        invariant
            r.len() == k,
            k <= n,
            forall|k2: int| 0 <= k2 < k ==> chunk_wf(#[trigger] r[k2], cs as int),
            forall|k2: int| 0 <= k2 < k ==> #[trigger] r[k2].pattern@ == patterns[k2]@,
            forall|k2: int, d: int, e: int|
                #![trigger r[k2].exits[d]@[e]]
                0 <= k2 < k && 0 <= d < 4 && 0 <= e < cs ==> r[k2].exits[d]@[e] == pattern_exit(
                    patterns[k2]@,
                    cs as int,
                    d,
                    e,
                ),
            forall|k2: int|
                0 <= k2 < k ==> #[trigger] r[k2].has_exits == pattern_has_exits(
                    patterns[k2]@,
                    cs as int,
                ),
            forall|k2: int, d: int, j: usize|
                #![trigger r[k2].compatible_with[d]@.contains(j)]
                0 <= k2 < k && 0 <= d < 4 ==> (r[k2].compatible_with[d]@.contains(j) <==> (j < n
                    && compat(patterns[k2]@, patterns[j as int]@, cs as int, d))),
            forall|k2: int, d: int, e1: int, e2: int|
                #![trigger r[k2].compatible_with[d]@[e1], r[k2].compatible_with[d]@[e2]]
                0 <= k2 < k && 0 <= d < 4 && 0 <= e1 < e2 < r[k2].compatible_with[d].len()
                    ==> r[k2].compatible_with[d]@[e1] < r[k2].compatible_with[d]@[e2],
        decreases n - k,
    {
        let mut exits: Vec<Vec<bool>> = Vec::new();
        let mut d: usize = 0;
        while d < 4
            invariant
                k < n,
                exits.len() == d,
                d <= 4,
                forall|d2: int, e: int|
                    #![trigger exits[d2]@[e]]
                    0 <= d2 < d && 0 <= e < cs ==> exits[d2]@[e] == pattern_exit(
                        patterns[k as int]@,
                        cs as int,
                        d2,
                        e,
                    ),
                forall|d2: int| 0 <= d2 < d ==> #[trigger] exits[d2].len() == cs,
            decreases 4 - d,
        {
            let mut row: Vec<bool> = Vec::new();
            let mut e: i32 = 0;
            while e < cs
                invariant
                    k < n,
                    d < 4,
                    0 <= e <= cs,
                    row.len() == e,
                    forall|e2: int|
                        0 <= e2 < e ==> #[trigger] row@[e2] == pattern_exit(
                            patterns[k as int]@,
                            cs as int,
                            d as int,
                            e2,
                        ),
                decreases cs - e,
            {
                row.push(edge_exit(&patterns[k], cs, d, e));
                e = e + 1;
            }
            exits.push(row);
            d = d + 1;
        }
        let has = pattern_any_exit(&patterns[k], cs);
        let mut compat_lists: Vec<Vec<usize>> = Vec::new();
        let mut d: usize = 0;
        while d < 4
            invariant
                k < n,
                compat_lists.len() == d,
                d <= 4,
                forall|d2: int, j: usize|
                    #![trigger compat_lists[d2]@.contains(j)]
                    0 <= d2 < d ==> (compat_lists[d2]@.contains(j) <==> (j < n && compat(
                        patterns[k as int]@,
                        patterns[j as int]@,
                        cs as int,
                        d2,
                    ))),
                forall|d2: int, e1: int, e2: int|
                    #![trigger compat_lists[d2]@[e1], compat_lists[d2]@[e2]]
                    0 <= d2 < d && 0 <= e1 < e2 < compat_lists[d2].len() ==> compat_lists[d2]@[e1]
                        < compat_lists[d2]@[e2],
            decreases 4 - d,
        {
            let mut list: Vec<usize> = Vec::new();
            let mut j: usize = 0;
            while j < n
                invariant
                    k < n,
                    d < 4,
                    j <= n,
                    forall|e: int|
                        0 <= e < list.len() ==> #[trigger] list@[e] < j && compat(
                            patterns[k as int]@,
                            patterns[list@[e] as int]@,
                            cs as int,
                            d as int,
                        ),
                    forall|j2: usize|
                        j2 < j && compat(
                            patterns[k as int]@,
                            patterns[j2 as int]@,
                            cs as int,
                            d as int,
                        ) ==> #[trigger] list@.contains(j2),
                    forall|e1: int, e2: int|
                        0 <= e1 < e2 < list.len() ==> #[trigger] list@[e1] < #[trigger] list@[e2],
                decreases n - j,
            {
                if compat_exec(&patterns[k], &patterns[j], cs, d) {
                    let ghost pre = list@;
                    list.push(j);
                    proof {
                        assert forall|j2: usize|
                            j2 < j + 1 && compat(
                                patterns[k as int]@,
                                patterns[j2 as int]@,
                                cs as int,
                                d as int,
                            ) implies #[trigger] list@.contains(j2) by {
                            if j2 < j {
                                assert(pre.contains(j2));
                                let e = choose|e: int| 0 <= e < pre.len() && pre[e] == j2;
                                assert(list@[e] == j2);
                            } else {
                                assert(list@[list@.len() - 1] == j);
                            }
                        }
                    }
                }
                j = j + 1;
            }
            let ghost listv = list@;
            compat_lists.push(list);
            proof {
                assert forall|d2: int, j2: usize|
                    #![trigger compat_lists[d2]@.contains(j2)]
                    0 <= d2 < d + 1 implies (compat_lists[d2]@.contains(j2) <==> (j2 < n && compat(
                    patterns[k as int]@,
                    patterns[j2 as int]@,
                    cs as int,
                    d2,
                ))) by {
                    if d2 == d {
                        assert(compat_lists[d2]@ == listv);
                        if j2 < n && compat(
                            patterns[k as int]@,
                            patterns[j2 as int]@,
                            cs as int,
                            d2,
                        ) {
                            assert(listv.contains(j2));
                        }
                        if compat_lists[d2]@.contains(j2) {
                            let e = choose|e: int| 0 <= e < listv.len() && listv[e] == j2;
                            assert(listv[e] == j2);
                        }
                    }
                }
            }
            d = d + 1;
        }
        let pat = crate::grid::clone_vec_copy(&patterns[k]);
        let chunk = MapChunk { pattern: pat, exits, has_exits: has, compatible_with: compat_lists };
        proof {
            assert(patterns[k as int].len() == cs * cs);
            assert(chunk.pattern@ == patterns[k as int]@);
            assert(chunk.pattern.len() == cs * cs);
            assert(forall|d2: int| 0 <= d2 < 4 ==> #[trigger] chunk.exits[d2].len() == cs);
            assert(chunk_wf(chunk, cs as int));
        }
        r.push(chunk);
        k = k + 1;
    }
    r
}

/// Direction consistency of a compatibility listing: when chunk `a`
/// accepts chunk `b` as its neighbour in direction `d`, the shared edge of
/// a map that places `b` next to `a` in that direction is aligned: either
/// both facing edges expose a walkable opening at the same offset, or
/// neither facing edge has any walkable cell.
pub proof fn lemma_compat_alignment(a: Seq<TileType>, b: Seq<TileType>, cs: int, d: int)
    requires
        0 <= d < 4,
        compat(a, b, cs, d),
    ensures
        (exists|k: int|
            0 <= k < cs && spec_tile_walkable(#[trigger] a[edge_idx(cs, d, k)])
                && spec_tile_walkable(b[edge_idx(cs, opposite(d), k)])) || ((forall|k: int|
            0 <= k < cs ==> !spec_tile_walkable(#[trigger] a[edge_idx(cs, d, k)])) && (forall|
            k: int,
        |
            0 <= k < cs ==> !spec_tile_walkable(#[trigger] b[edge_idx(cs, opposite(d), k)]))),
{
    if exists|k: int|
        0 <= k < cs && pattern_exit(a, cs, d, k) && pattern_exit(b, cs, opposite(d), k) {
        let k = choose|k: int|
            0 <= k < cs && pattern_exit(a, cs, d, k) && pattern_exit(b, cs, opposite(d), k);
        assert(spec_tile_walkable(a[edge_idx(cs, d, k)]) && spec_tile_walkable(
            b[edge_idx(cs, opposite(d), k)],
        ));
    } else {
        assert(edge_empty(a, cs, d) && edge_empty(b, cs, opposite(d)));
        assert forall|k: int| 0 <= k < cs implies !spec_tile_walkable(
            #[trigger] a[edge_idx(cs, d, k)],
        ) by {
            assert(!pattern_exit(a, cs, d, k));
        }
        assert forall|k: int| 0 <= k < cs implies !spec_tile_walkable(
            #[trigger] b[edge_idx(cs, opposite(d), k)],
        ) by {
            assert(!pattern_exit(b, cs, opposite(d), k));
        }
    }
}

/// The tile excerpt of the chunk at chunk coordinates `(cx, cy)`,
/// optionally mirrored horizontally, listed row by row.
pub open spec fn pattern_at(g: Grid, cs: int, cx: int, cy: int, flip: bool) -> Seq<TileType> {
    Seq::new(
        (cs * cs) as nat,
        |k: int|
            g.tiles[g.idx(
                cx * cs + (if flip {
                    cs - 1 - (k % cs)
                } else {
                    k % cs
                }),
                cy * cs + k / cs,
            )],
    )
}

/// All patterns extracted from the grid in chunk scan order; with flipping
/// each chunk contributes its mirrored variant right after the original.
pub open spec fn extracted_patterns(g: Grid, cs: int, flip: bool) -> Seq<Seq<TileType>> {
    let m: int = if flip {
        2
    } else {
        1
    };
    let chunks_x = g.width as int / cs;
    let chunks_y = g.height as int / cs;
    Seq::new(
        (chunks_x * chunks_y * m) as nat,
        |j: int|
            pattern_at(g, cs, (j / m) % chunks_x, (j / m) / chunks_x, flip && j % m == 1),
    )
}

/// Keeps the first occurrence of every pattern, in order.
pub open spec fn dedup_patterns(s: Seq<Seq<TileType>>) -> Seq<Seq<TileType>>
    decreases s.len(),
{
    if s.len() == 0 {
        Seq::empty()
    } else {
        let prefix = dedup_patterns(s.drop_last());
        if s.drop_last().contains(s.last()) {
            prefix
        } else {
            prefix.push(s.last())
        }
    }
}

/// Deduplication keeps exactly the members of the original list, each once.
pub proof fn lemma_dedup_props(s: Seq<Seq<TileType>>)
    ensures
        forall|x: Seq<TileType>| dedup_patterns(s).contains(x) <==> s.contains(x),
        forall|i: int, j: int|
            0 <= i < j < dedup_patterns(s).len() ==> dedup_patterns(s)[i] != dedup_patterns(s)[j],
    decreases s.len(),
{
    if s.len() > 0 {
        let p = s.drop_last();
        lemma_dedup_props(p);
        let dp = dedup_patterns(p);
        assert forall|x: Seq<TileType>| dedup_patterns(s).contains(x) implies s.contains(x) by {
            let ds = dedup_patterns(s);
            let i = choose|i: int| 0 <= i < ds.len() && ds[i] == x;
            if p.contains(s.last()) {
                assert(ds =~= dp);
                assert(dp[i] == x);
                assert(dp.contains(x));
            } else if i < dp.len() {
                assert(ds[i] == dp[i]);
                assert(dp.contains(x));
            } else {
                assert(ds[i] == s.last());
                assert(s[s.len() - 1] == x);
            }
            if dp.contains(x) {
                assert(p.contains(x));
                let i2 = choose|i2: int| 0 <= i2 < p.len() && p[i2] == x;
                assert(p[i2] == s[i2]);
            }
        }
        assert forall|x: Seq<TileType>| s.contains(x) implies dedup_patterns(s).contains(x) by {
            let i = choose|i: int| 0 <= i < s.len() && s[i] == x;
            if i < s.len() - 1 {
                assert(p[i] == x);
                assert(p.contains(x));
                assert(dp.contains(x));
                let i2 = choose|i2: int| 0 <= i2 < dp.len() && dp[i2] == x;
                assert(dedup_patterns(s)[i2] == x);
            } else {
                if p.contains(s.last()) {
                    assert(dp.contains(x));
                    let i2 = choose|i2: int| 0 <= i2 < dp.len() && dp[i2] == x;
                    assert(dedup_patterns(s)[i2] == x);
                } else {
                    assert(dedup_patterns(s)[dedup_patterns(s).len() - 1] == x);
                }
            }
        }
        if !p.contains(s.last()) {
            assert forall|i: int, j: int|
                0 <= i < j < dedup_patterns(s).len() implies dedup_patterns(s)[i]
                != dedup_patterns(s)[j] by {
                if j < dp.len() {
                } else {
                    assert(dedup_patterns(s)[j] == s.last());
                    assert(dp[i] == dedup_patterns(s)[i]);
                    if dp[i] == s.last() {
                        assert(dp.contains(s.last()));
                        assert(p.contains(s.last()));
                    }
                }
            }
        }
    }
}

/// Whether two tile lists hold the same kinds in the same order.
fn vec_tiles_eq(a: &Vec<TileType>, b: &Vec<TileType>) -> (r: bool)
    ensures
        r == (a@ == b@),
{
    if a.len() != b.len() {
        return false;
    }
    let mut i: usize = 0;
    while i < a.len()
        invariant
            a.len() == b.len(),
            i <= a.len(),
            forall|j: int| 0 <= j < i ==> a[j] == b[j],
        decreases a.len() - i,
    {
        if a[i] != b[i] {
            proof {
                assert(a@[i as int] != b@[i as int]);
            }
            return false;
        }
        i = i + 1;
    }
    proof {
        assert(a@ =~= b@);
    }
    true
}

/// The pattern lists a chunk vector holds, as mathematical sequences.
pub open spec fn patterns_view(v: Seq<Vec<TileType>>) -> Seq<Seq<TileType>> {
    v.map_values(|q: Vec<TileType>| q@)
}

/// Whether one of the held patterns equals `p`.
fn patterns_contain(v: &Vec<Vec<TileType>>, p: &Vec<TileType>) -> (r: bool)
    ensures
        r == patterns_view(v@).contains(p@),
{
    let mut j: usize = 0;
    while j < v.len()
        invariant
            j <= v.len(),
            forall|j2: int| 0 <= j2 < j ==> v[j2]@ != p@,
        decreases v.len() - j,
    {
        if vec_tiles_eq(&v[j], p) {
            proof {
                assert(patterns_view(v@)[j as int] == p@);
            }
            return true;
        }
        j = j + 1;
    }
    proof {
        if patterns_view(v@).contains(p@) {
            let j2 = choose|j2: int| 0 <= j2 < v@.len() && patterns_view(v@)[j2] == p@;
            assert(v[j2]@ == p@);
        }
    }
    false
}

/// Partitions the grid into non-overlapping `chunk_size`-square excerpts in
/// scan order; with `include_flipping` each excerpt is followed by its
/// horizontally mirrored variant, and with `dedupe` only the first
/// occurrence of each distinct pattern is kept.
#[verifier::loop_isolation(false)]
#[verifier::rlimit(30)]
pub fn build_patterns(
    g: &Grid,
    chunk_size: i32,
    include_flipping: bool,
    dedupe: bool,
) -> (r: Vec<Vec<TileType>>)
    requires
        g.inv(),
        1 <= chunk_size,
        chunk_size * chunk_size <= i32::MAX,
    ensures
        patterns_view(r@) == (if dedupe {
            dedup_patterns(extracted_patterns(*g, chunk_size as int, include_flipping))
        } else {
            extracted_patterns(*g, chunk_size as int, include_flipping)
        }),
        forall|k: int|
            0 <= k < r.len() ==> #[trigger] r[k].len() == chunk_size * chunk_size,
{
    let cs = chunk_size;
    let ghost csi = cs as int;
    let chunks_x: i32 = g.width / cs;
    let chunks_y: i32 = g.height / cs;
    let m: usize = if include_flipping {
        2
    } else {
        1
    };
    let ghost ext = extracted_patterns(*g, csi, include_flipping);
    proof {
        vstd::arithmetic::div_mod::lemma_fundamental_div_mod(g.width as int, csi);
        vstd::arithmetic::div_mod::lemma_fundamental_div_mod(g.height as int, csi);
        assert(ext.len() == chunks_x as int * (chunks_y as int) * (m as int));
    }
    let mut raw: Vec<Vec<TileType>> = Vec::new();
    let mut cy: i32 = 0;
    while cy < chunks_y
        invariant
            0 <= cy <= chunks_y,
            raw.len() == (cy * chunks_x) as int * m,
            patterns_view(raw@) =~= ext.take(raw.len() as int),
            forall|k: int| 0 <= k < raw.len() ==> #[trigger] raw[k].len() == csi * csi,
        decreases chunks_y - cy,
    {
        let mut cx: i32 = 0;
        proof {
            assert((cy * chunks_x + 0) as int * m == (cy * chunks_x) as int * m);
        }
        while cx < chunks_x
            invariant
                0 <= cy < chunks_y,
                0 <= cx <= chunks_x,
                raw.len() == (cy * chunks_x + cx) as int * m,
                patterns_view(raw@) =~= ext.take(raw.len() as int),
                forall|k: int| 0 <= k < raw.len() ==> #[trigger] raw[k].len() == csi * csi,
            decreases chunks_x - cx,
        {
            proof {
                assert((cy + 1) * chunks_x <= chunks_y * chunks_x && cy * chunks_x + cx + 1 <= (cy
                    + 1) * chunks_x && (cx + 1) * cs <= (g.width / cs) * cs && (g.width / cs) * cs
                    <= g.width && (cy + 1) * cs <= (g.height / cs) * cs && (g.height / cs) * cs
                    <= g.height) by (nonlinear_arith)
                    requires
                        0 <= cx < chunks_x,
                        0 <= cy < chunks_y,
                        chunks_x == g.width / cs,
                        chunks_y == g.height / cs,
                        1 <= cs,
                        1 <= g.width,
                        1 <= g.height,
                {}
            }
            let normal = extract_chunk(g, cs, cx, cy, false);
            let ghost c = (cy * chunks_x + cx) as int;
            let ghost j0 = c * (m as int);
            proof {
                assert(j0 / (m as int) == c && j0 % (m as int) == 0 && (j0 + 1) / (m as int) == (
                if m == 2 {
                    c
                } else {
                    c + 1
                }) && (j0 + 1) % (m as int) == (if m == 2 {
                    1int
                } else {
                    0int
                })) by (nonlinear_arith)
                    requires
                        1 <= m <= 2,
                        j0 == c * (m as int),
                        0 <= c,
                {}
                assert(c % (chunks_x as int) == cx && c / (chunks_x as int)
                    == cy) by (nonlinear_arith)
                    requires
                        c == (cy * chunks_x + cx) as int,
                        0 <= cx < chunks_x,
                        0 <= cy,
                {}
                assert(j0 + (m as int) <= ext.len()) by (nonlinear_arith)
                    requires
                        c + 1 <= (chunks_y as int) * (chunks_x as int),
                        1 <= m <= 2,
                        j0 == c * (m as int),
                        0 <= c,
                        ext.len() == chunks_x as int * (chunks_y as int) * (m as int),
                {}
                assert(ext[j0] == pattern_at(*g, csi, cx as int, cy as int, false));
            }
            raw.push(normal);
            proof {
                assert(patterns_view(raw@) =~= ext.take(raw.len() as int));
            }
            if include_flipping {
                let flipped = extract_chunk(g, cs, cx, cy, true);
                proof {
                    assert(ext[j0 + 1] == pattern_at(*g, csi, cx as int, cy as int, true));
                }
                raw.push(flipped);
                proof {
                    assert(patterns_view(raw@) =~= ext.take(raw.len() as int));
                }
            }
            cx = cx + 1;
            proof {
                assert((cy * chunks_x + cx) as int * m == (cy * chunks_x + (cx - 1)) as int * m
                    + m) by (nonlinear_arith)
                    requires
                        1 <= m <= 2,
                {}
            }
        }
        cy = cy + 1;
        proof {
            assert((cy * chunks_x) as int * m == ((cy - 1) * chunks_x + chunks_x) as int
                * m) by (nonlinear_arith)
                requires
                    1 <= m <= 2,
                    1 <= cy,
            {}
        }
    }
    proof {
        assert(raw.len() == ext.len()) by (nonlinear_arith)
            requires
                raw.len() == (chunks_y * chunks_x) as int * m,
                ext.len() == chunks_x as int * (chunks_y as int) * (m as int),
        {}
        assert(patterns_view(raw@) =~= ext);
    }
    if !dedupe {
        return raw;
    }
    let mut out: Vec<Vec<TileType>> = Vec::new();
    let mut t: usize = 0;
    proof {
        assert(ext.take(0) =~= Seq::<Seq<TileType>>::empty());
    }
    while t < raw.len()
        invariant
            t <= raw.len(),
            patterns_view(raw@) == ext,
            patterns_view(out@) =~= dedup_patterns(ext.take(t as int)),
            forall|k: int| 0 <= k < out.len() ==> #[trigger] out[k].len() == csi * csi,
        decreases raw.len() - t,
    {
        proof {
            lemma_dedup_props(ext.take(t as int));
            assert(ext.take(t + 1).drop_last() =~= ext.take(t as int));
            assert(ext.take(t + 1).last() == ext[t as int]);
            assert(ext[t as int] == raw[t as int]@);
        }
        if !patterns_contain(&out, &raw[t]) {
            let copy = crate::grid::clone_vec_copy(&raw[t]);
            out.push(copy);
            proof {
                assert(patterns_view(out@) =~= dedup_patterns(ext.take(t + 1)));
            }
        } else {
            proof {
                assert(patterns_view(out@) =~= dedup_patterns(ext.take(t + 1)));
            }
        }
        t = t + 1;
    }
    proof {
        assert(ext.take(raw.len() as int) =~= ext);
    }
    out
}

/// Copies one chunk-sized excerpt out of the grid, row by row, optionally
/// mirrored horizontally.
#[verifier::loop_isolation(false)]
fn extract_chunk(g: &Grid, cs: i32, cx: i32, cy: i32, flip: bool) -> (p: Vec<TileType>)
    requires
        g.inv(),
        1 <= cs,
        cs * cs <= i32::MAX,
        0 <= cx,
        0 <= cy,
        (cx + 1) * cs <= g.width,
        (cy + 1) * cs <= g.height,
    ensures
        p@ =~= pattern_at(*g, cs as int, cx as int, cy as int, flip),
        p.len() == cs * cs,
{
    let ghost target = pattern_at(*g, cs as int, cx as int, cy as int, flip);
    let mut p: Vec<TileType> = Vec::new();
    let mut ty: i32 = 0;
    proof {
        assert(0 <= cx * cs && (cx + 1) * cs == cx * cs + cs && 0 <= cy * cs && (cy + 1) * cs == cy
            * cs + cs) by (nonlinear_arith)
            requires
                0 <= cx,
                0 <= cy,
                1 <= cs,
        {}
    }
    while ty < cs
        invariant
            0 <= ty <= cs,
            p.len() == ty * cs,
            forall|k: int| 0 <= k < p.len() ==> p[k] == target[k],
        decreases cs - ty,
    {
        let mut tx: i32 = 0;
        while tx < cs
            invariant
                0 <= ty < cs,
                0 <= tx <= cs,
                p.len() == ty * cs + tx,
                forall|k: int| 0 <= k < p.len() ==> p[k] == target[k],
            decreases cs - tx,
        {
            let sx: i32 = if flip {
                cx * cs + (cs - 1 - tx)
            } else {
                cx * cs + tx
            };
            let sy: i32 = cy * cs + ty;
            let i = g.xy_idx(sx, sy);
            proof {
                assert((ty * cs + tx) % (cs as int) == tx && (ty * cs + tx) / (cs as int) == ty
                    && ty * cs + tx < cs * cs) by (nonlinear_arith)
                    requires
                        0 <= tx < cs,
                        0 <= ty < cs,
                        1 <= cs,
                {}
                assert(target[p.len() as int] == g.tiles[g.idx(sx as int, sy as int)]);
            }
            p.push(g.tiles[i]);
            tx = tx + 1;
        }
        proof {
            assert((ty + 1) * cs == ty * cs + cs) by (nonlinear_arith) {}
        }
        ty = ty + 1;
    }
    proof {
        assert(p.len() == cs * cs) by (nonlinear_arith)
            requires
                p.len() == cs as int * cs,
        {}
    }
    p
}

/// Whether the renderer overwrites chunk cell `(tx, ty)` with the special
/// exit marker: the cell sits on an edge whose bitmap lists an opening
/// there.
pub open spec fn exit_marked(c: MapChunk, cs: int, tx: int, ty: int) -> bool {
    ||| (ty == 0 && c.exits[0]@[tx])
    ||| (ty == cs - 1 && c.exits[1]@[tx])
    ||| (tx == 0 && c.exits[2]@[ty])
    ||| (tx == cs - 1 && c.exits[3]@[ty])
}

/// Whether the renderer overwrites chunk cell `(tx, ty)` with the exit
/// marker, phrased over the raw pattern: the cell sits on an edge with a
/// walkable opening there.
pub open spec fn pattern_marked(p: Seq<TileType>, cs: int, tx: int, ty: int) -> bool {
    ||| (ty == 0 && pattern_exit(p, cs, 0, tx))
    ||| (ty == cs - 1 && pattern_exit(p, cs, 1, tx))
    ||| (tx == 0 && pattern_exit(p, cs, 2, ty))
    ||| (tx == cs - 1 && pattern_exit(p, cs, 3, ty))
}

/// What rendering a pattern writes into chunk cell `(tx, ty)`: the exit
/// marker on marked edge cells, the pattern's own tile everywhere else.
pub open spec fn rendered_cell(p: Seq<TileType>, cs: int, tx: int, ty: int) -> TileType {
    if pattern_marked(p, cs, tx, ty) {
        TileType::DownStairs
    } else {
        p[spec_tile_idx_in_chunk(cs, tx, ty)]
    }
}

/// Copies a chunk's pattern into the grid with its top-left corner at
/// `(start_x, start_y)`, marking the rendered cells visible and stamping
/// each listed exit cell with `DownStairs`. Cells outside the chunk's
/// rectangle are untouched.
#[verifier::loop_isolation(false)]
pub fn render_pattern_to_map(
    g: &mut Grid,
    chunk: &MapChunk,
    chunk_size: i32,
    start_x: i32,
    start_y: i32,
)
    requires
        old(g).inv(),
        chunk_wf(*chunk, chunk_size as int),
        1 <= chunk_size,
        chunk_size * chunk_size <= i32::MAX,
        0 <= start_x,
        start_x + chunk_size <= old(g).width,
        0 <= start_y,
        start_y + chunk_size <= old(g).height,
    ensures
        final(g).inv(),
        final(g).width == old(g).width,
        final(g).height == old(g).height,
        final(g).depth == old(g).depth,
        final(g).name == old(g).name,
        final(g).revealed_tiles == old(g).revealed_tiles,
        final(g).view_blocked == old(g).view_blocked,
        final(g).tile_content == old(g).tile_content,
        final(g).tiles.len() == old(g).tiles.len(),
        final(g).visible_tiles.len() == old(g).visible_tiles.len(),
        forall|tx: int, ty: int|
            #![trigger old(g).idx(start_x + tx, start_y + ty)]
            0 <= tx < chunk_size && 0 <= ty < chunk_size ==> final(g).tiles[old(g).idx(
                start_x + tx,
                start_y + ty,
            )] == (if exit_marked(*chunk, chunk_size as int, tx, ty) {
                TileType::DownStairs
            } else {
                chunk.pattern@[spec_tile_idx_in_chunk(chunk_size as int, tx, ty)]
            }) && final(g).visible_tiles[old(g).idx(start_x + tx, start_y + ty)],
        forall|x: int, y: int|
            #![trigger old(g).idx(x, y)]
            old(g).in_bounds(x, y) && !(start_x <= x < start_x + chunk_size && start_y <= y
                < start_y + chunk_size) ==> final(g).tiles[old(g).idx(x, y)] == old(g).tiles[old(
                g,
            ).idx(x, y)] && final(g).visible_tiles[old(g).idx(x, y)] == old(g).visible_tiles[old(
                g,
            ).idx(x, y)],
{
    let ghost g0 = *g;
    let cs = chunk_size;
    let mut ty: i32 = 0;
    while ty < cs
        invariant
            0 <= ty <= cs,
            g.width == g0.width,
            g.height == g0.height,
            g.depth == g0.depth,
            g.name == g0.name,
            g.revealed_tiles == g0.revealed_tiles,
            g.view_blocked == g0.view_blocked,
            g.tile_content == g0.tile_content,
            g.tiles.len() == g0.tiles.len(),
            g.visible_tiles.len() == g0.visible_tiles.len(),
            forall|tx2: int, ty2: int|
                #![trigger g0.idx(start_x + tx2, start_y + ty2)]
                0 <= tx2 < cs && 0 <= ty2 < ty ==> g.tiles[g0.idx(start_x + tx2, start_y + ty2)]
                    == (if exit_marked(*chunk, cs as int, tx2, ty2) {
                    TileType::DownStairs
                } else {
                    chunk.pattern@[spec_tile_idx_in_chunk(cs as int, tx2, ty2)]
                }) && g.visible_tiles[g0.idx(start_x + tx2, start_y + ty2)],
            forall|x: int, y: int|
                #![trigger g0.idx(x, y)]
                g0.in_bounds(x, y) && !(start_x <= x < start_x + cs && start_y <= y < start_y + ty)
                    ==> g.tiles[g0.idx(x, y)] == g0.tiles[g0.idx(x, y)] && g.visible_tiles[g0.idx(
                    x,
                    y,
                )] == g0.visible_tiles[g0.idx(x, y)],
        decreases cs - ty,
    {
        let mut tx: i32 = 0;
        while tx < cs
            invariant
                0 <= ty < cs,
                0 <= tx <= cs,
                g.width == g0.width,
                g.height == g0.height,
                g.depth == g0.depth,
                g.name == g0.name,
                g.revealed_tiles == g0.revealed_tiles,
                g.view_blocked == g0.view_blocked,
                g.tile_content == g0.tile_content,
                g.tiles.len() == g0.tiles.len(),
                g.visible_tiles.len() == g0.visible_tiles.len(),
                forall|tx2: int, ty2: int|
                    #![trigger g0.idx(start_x + tx2, start_y + ty2)]
                    0 <= tx2 < cs && 0 <= ty2 < ty ==> g.tiles[g0.idx(start_x + tx2, start_y + ty2)]
                        == (if exit_marked(*chunk, cs as int, tx2, ty2) {
                        TileType::DownStairs
                    } else {
                        chunk.pattern@[spec_tile_idx_in_chunk(cs as int, tx2, ty2)]
                    }) && g.visible_tiles[g0.idx(start_x + tx2, start_y + ty2)],
                forall|tx2: int|
                    #![trigger g0.idx(start_x + tx2, start_y + ty)]
                    0 <= tx2 < tx ==> g.tiles[g0.idx(start_x + tx2, start_y + ty)] == (if
                        exit_marked(*chunk, cs as int, tx2, ty as int) {
                        TileType::DownStairs
                    } else {
                        chunk.pattern@[spec_tile_idx_in_chunk(cs as int, tx2, ty as int)]
                    }) && g.visible_tiles[g0.idx(start_x + tx2, start_y + ty)],
                forall|x: int, y: int|
                    #![trigger g0.idx(x, y)]
                    g0.in_bounds(x, y) && !(start_x <= x < start_x + cs && start_y <= y < start_y
                        + ty) && !(start_x <= x < start_x + tx && y == start_y + ty) ==> g.tiles[
                    g0.idx(x, y)] == g0.tiles[g0.idx(x, y)] && g.visible_tiles[g0.idx(x, y)]
                        == g0.visible_tiles[g0.idx(x, y)],
            decreases cs - tx,
        {
            let i = g.xy_idx(start_x + tx, start_y + ty);
            let pi = tile_idx_in_chunk(cs, tx, ty);
            proof {
                assert(chunk.exits[0].len() == cs && chunk.exits[1].len() == cs && chunk.exits[2].len()
                    == cs && chunk.exits[3].len() == cs);
            }
            let marked: bool = (ty == 0 && chunk.exits[0][tx as usize]) || (ty == cs - 1
                && chunk.exits[1][tx as usize]) || (tx == 0 && chunk.exits[2][ty as usize]) || (tx
                == cs - 1 && chunk.exits[3][ty as usize]);
            if marked {
                g.tiles[i] = TileType::DownStairs;
            } else {
                g.tiles[i] = chunk.pattern[pi];
            }
            g.visible_tiles[i] = true;
            proof {
                assert(marked == exit_marked(*chunk, cs as int, tx as int, ty as int));
                assert forall|x: int, y: int|
                    #![trigger g0.idx(x, y)]
                    g0.in_bounds(x, y) && !(start_x <= x < start_x + cs && start_y <= y < start_y
                        + ty) && !(start_x <= x < start_x + tx + 1 && y == start_y + ty) implies g.tiles[
                    g0.idx(x, y)] == g0.tiles[g0.idx(x, y)] && g.visible_tiles[g0.idx(x, y)]
                    == g0.visible_tiles[g0.idx(x, y)] by {
                    g0.lemma_idx_bounds(x, y);
                    if g0.idx(x, y) == i {
                        g0.lemma_idx_injective(x, y, start_x + tx as int, start_y + ty as int);
                    }
                }
                assert forall|tx2: int|
                    #![trigger g0.idx(start_x + tx2, start_y + ty)]
                    0 <= tx2 < tx + 1 implies g.tiles[g0.idx(start_x + tx2, start_y + ty)] == (if
                    exit_marked(*chunk, cs as int, tx2, ty as int) {
                    TileType::DownStairs
                } else {
                    chunk.pattern@[spec_tile_idx_in_chunk(cs as int, tx2, ty as int)]
                }) && g.visible_tiles[g0.idx(start_x + tx2, start_y + ty)] by {
                    g0.lemma_idx_bounds(start_x + tx2, start_y + ty as int);
                    if tx2 < tx {
                        if g0.idx(start_x + tx2, start_y + ty as int) == i {
                            g0.lemma_idx_injective(
                                start_x + tx2,
                                start_y + ty as int,
                                start_x + tx as int,
                                start_y + ty as int,
                            );
                        }
                    }
                }
                assert forall|tx2: int, ty2: int|
                    #![trigger g0.idx(start_x + tx2, start_y + ty2)]
                    0 <= tx2 < cs && 0 <= ty2 < ty implies g.tiles[g0.idx(
                    start_x + tx2,
                    start_y + ty2,
                )] == (if exit_marked(*chunk, cs as int, tx2, ty2) {
                    TileType::DownStairs
                } else {
                    chunk.pattern@[spec_tile_idx_in_chunk(cs as int, tx2, ty2)]
                }) && g.visible_tiles[g0.idx(start_x + tx2, start_y + ty2)] by {
                    g0.lemma_idx_bounds(start_x + tx2, start_y + ty2);
                    if g0.idx(start_x + tx2, start_y + ty2) == i {
                        g0.lemma_idx_injective(
                            start_x + tx2,
                            start_y + ty2,
                            start_x + tx as int,
                            start_y + ty as int,
                        );
                    }
                }
            }
            tx = tx + 1;
        }
        ty = ty + 1;
    }
}

} // verus!
