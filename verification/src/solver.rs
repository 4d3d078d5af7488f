//! Constrained chunk placement: fills a grid of chunk slots so that every
//! adjacent pair of chosen chunks is listed compatible in the joining
//! direction, by randomized placement with restart on contradiction and a
//! bounded retry budget.

use vstd::prelude::*;
use crate::constraints::MapChunk;
use crate::rng::roll;
use crate::regions::vec_contains;

verus! {

/// The slot grid is consistent: every slot holds a chunk index, each
/// east-adjacent pair appears in the west chunk's east compatibility list,
/// and each south-adjacent pair appears in the north chunk's south list.
pub open spec fn assignment_ok(
    chunks: Seq<MapChunk>,
    a: Seq<usize>,
    cw: int,
    ch: int,
) -> bool {
    &&& a.len() == cw * ch
    &&& (forall|i: int| 0 <= i < a.len() ==> #[trigger] a[i] < chunks.len())
    &&& (forall|sx: int, sy: int|
        #![trigger a[sy * cw + sx]]
        0 <= sx < cw - 1 && 0 <= sy < ch ==> chunks[a[sy * cw + sx] as int].compatible_with[3]@.contains(
            a[sy * cw + sx + 1],
        ))
    &&& (forall|sx: int, sy: int|
        #![trigger a[sy * cw + sx]]
        0 <= sx < cw && 0 <= sy < ch - 1 ==> chunks[a[sy * cw + sx] as int].compatible_with[1]@.contains(
            a[(sy + 1) * cw + sx],
        ))
}

/// One placement attempt in slot scan order; `None` on contradiction.
#[verifier::loop_isolation(false)]
#[verifier::rlimit(30)]
fn try_assignment(
    chunks: &Vec<MapChunk>,
    cw: usize,
    ch: usize,
    rng: &mut rltk::RandomNumberGenerator,
) -> (r: Option<Vec<usize>>)
    requires
        1 <= chunks.len() <= 1_000_000,
        forall|k: int| 0 <= k < chunks.len() ==> (#[trigger] chunks[k].compatible_with.len()) == 4,
        1 <= cw <= 10_000,
        1 <= ch <= 10_000,
    ensures
        r is Some ==> assignment_ok(chunks@, r->Some_0@, cw as int, ch as int),
{
    let n = chunks.len();
    proof {
        assert(cw * ch <= 100_000_000) by (nonlinear_arith)
            requires
                1 <= cw <= 10_000,
                1 <= ch <= 10_000,
        {}
    }
    let total: usize = cw * ch;
    let mut a: Vec<usize> = Vec::new();
    let mut sy: usize = 0;
    while sy < ch
        invariant
            sy <= ch,
            a.len() == sy * cw,
            forall|i: int| 0 <= i < a.len() ==> #[trigger] a[i] < chunks.len(),
            forall|px: int, py: int|
                #![trigger a[py * cw + px]]
                0 <= px < cw - 1 && 0 <= py < ch && py * cw + px + 1 < a.len() ==> chunks[a[py * cw
                    + px] as int].compatible_with[3]@.contains(a[py * cw + px + 1]),
            forall|px: int, py: int|
                #![trigger a[py * cw + px]]
                0 <= px < cw && 0 <= py < ch - 1 && (py + 1) * cw + px < a.len() ==> chunks[a[py
                    * cw + px] as int].compatible_with[1]@.contains(a[(py + 1) * cw + px]),
        decreases ch - sy,
    {
        let mut sx: usize = 0;
        proof {
            assert(sy * cw + 0 == a.len());
        }
        while sx < cw
            invariant
                sy < ch,
                sx <= cw,
                a.len() == sy * cw + sx,
                forall|i: int| 0 <= i < a.len() ==> #[trigger] a[i] < chunks.len(),
                forall|px: int, py: int|
                    #![trigger a[py * cw + px]]
                    0 <= px < cw - 1 && 0 <= py < ch && py * cw + px + 1 < a.len() ==> chunks[a[py
                        * cw + px] as int].compatible_with[3]@.contains(a[py * cw + px + 1]),
                forall|px: int, py: int|
                    #![trigger a[py * cw + px]]
                    0 <= px < cw && 0 <= py < ch - 1 && (py + 1) * cw + px < a.len() ==> chunks[a[
                    py * cw + px] as int].compatible_with[1]@.contains(a[(py + 1) * cw + px]),
            decreases cw - sx,
        {
            proof {
                assert(sy * cw + sx < ch * cw && (sy > 0 ==> (sy - 1) * cw + sx < sy * cw
                    + sx)) by (nonlinear_arith)
                    requires
                        0 <= sx < cw,
                        0 <= sy < ch,
                {}
            }
            proof {
                assert(sy * cw >= 0 && (sy > 0 ==> 0 <= (sy - 1) * cw + sx < sy * cw
                    + sx)) by (nonlinear_arith)
                    requires
                        0 <= sx < cw,
                        0 <= sy < ch,
                {}
            }
            let mut cands: Vec<usize> = Vec::new();
            let mut j: usize = 0;
            while j < n
                invariant
                    j <= n,
                    sy < ch,
                    sx < cw,
                    a.len() == sy * cw + sx,
                    forall|e: int| 0 <= e < cands.len() ==> #[trigger] cands[e] < chunks.len(),
                    forall|e: int|
                        0 <= e < cands.len() ==> (sx > 0 ==> chunks[a[a.len() - 1] as int].compatible_with[3]@.contains(
                            #[trigger] cands[e],
                        )) && (sy > 0 ==> chunks[a[(sy - 1) * cw + sx] as int].compatible_with[1]@.contains(
                            cands[e],
                        )),
                decreases n - j,
            {
                let mut ok: bool = true;
                if sx > 0 {
                    proof {
                        assert(sy * cw >= 0) by (nonlinear_arith) {}
                    }
                    let west = a[a.len() - 1];
                    proof {
                        assert(chunks[west as int].compatible_with.len() == 4);
                    }
                    if !vec_contains(&chunks[west].compatible_with[3], j) {
                        ok = false;
                    }
                }
                if sy > 0 {
                    proof {
                        assert(0 <= (sy - 1) * cw + sx < sy * cw + sx) by (nonlinear_arith)
                            requires
                                0 <= sx < cw,
                                1 <= sy,
                        {}
                    }
                    let north_i: usize = (sy - 1) * cw + sx;
                    let north = a[north_i];
                    proof {
                        assert(chunks[north as int].compatible_with.len() == 4);
                    }
                    if !vec_contains(&chunks[north].compatible_with[1], j) {
                        ok = false;
                    }
                }
                if ok {
                    cands.push(j);
                }
                j = j + 1;
            }
            if cands.len() == 0 {
                return None;
            }
            let pick_bound: i32 = if cands.len() >= 1_000_000 {
                1_000_000
            } else {
                cands.len() as i32
            };
            let pick = (roll(rng, pick_bound) - 1) as usize;
            let chosen = cands[pick];
            let ghost apre = a@;
            a.push(chosen);
            proof {
                assert forall|px: int, py: int|
                    #![trigger a[py * cw + px]]
                    0 <= px < cw - 1 && 0 <= py < ch && py * cw + px + 1 < a.len() implies chunks[a[
                py * cw + px] as int].compatible_with[3]@.contains(a[py * cw + px + 1]) by {
                    if py * cw + px + 1 < apre.len() {
                        assert(0 <= py * cw + px) by (nonlinear_arith)
                            requires
                                0 <= px,
                                0 <= py,
                                1 <= cw,
                        {}
                        assert(apre[py * cw + px] == a[py * cw + px]);
                    } else {
                        // the new slot's west pair
                        assert(py * cw + px + 1 == apre.len());
                        assert(py * cw + px == apre.len() - 1);
                        assert(a[py * cw + px] == apre[apre.len() - 1]);
                        assert(sx > 0) by (nonlinear_arith)
                            requires
                                py * cw + px == (sy * cw + sx) as int - 1,
                                0 <= px < cw - 1,
                                0 <= py < ch,
                                0 <= sx < cw,
                                sy < ch,
                                1 <= cw,
                        {}
                    }
                }
                assert forall|px: int, py: int|
                    #![trigger a[py * cw + px]]
                    0 <= px < cw && 0 <= py < ch - 1 && (py + 1) * cw + px < a.len() implies chunks[
                a[py * cw + px] as int].compatible_with[1]@.contains(a[(py + 1) * cw + px]) by {
                    if (py + 1) * cw + px < apre.len() {
                        assert(0 <= py * cw + px < (py + 1) * cw + px) by (nonlinear_arith)
                            requires
                                0 <= px < cw,
                                0 <= py,
                                1 <= cw,
                        {}
                        assert(apre[py * cw + px] == a[py * cw + px]);
                        assert(apre[(py + 1) * cw + px] == a[(py + 1) * cw + px]);
                    } else {
                        assert((py + 1) * cw + px == apre.len());
                        assert(py + 1 == sy && px == sx && sy > 0) by (nonlinear_arith)
                            requires
                                (py + 1) * cw + px == (sy * cw + sx) as int,
                                0 <= px < cw,
                                0 <= py < ch - 1,
                                0 <= sx < cw,
                                0 <= sy < ch,
                                1 <= cw,
                        {}
                        assert(a[py * cw + px] == apre[(sy - 1) * cw + sx]);
                    }
                }
            }
            sx = sx + 1;
        }
        proof {
            assert((sy + 1) * cw == sy * cw + cw) by (nonlinear_arith) {}
        }
        sy = sy + 1;
    }
    proof {
        assert(a.len() == cw * ch) by (nonlinear_arith)
            requires
                a.len() == ch * cw,
        {}
        assert forall|px: int, py: int|
            #![trigger a@[py * cw + px]]
            0 <= px < cw - 1 && 0 <= py < ch implies py * cw + px + 1 < a.len() by {
            assert(py * cw + px + 1 < ch * cw) by (nonlinear_arith)
                requires
                    0 <= px < cw - 1,
                    0 <= py < ch,
            {}
        }
        assert forall|px: int, py: int|
            #![trigger a@[py * cw + px]]
            0 <= px < cw && 0 <= py < ch - 1 implies (py + 1) * cw + px < a.len() by {
            assert((py + 1) * cw + px < ch * cw) by (nonlinear_arith)
                requires
                    0 <= px < cw,
                    0 <= py < ch - 1,
            {}
        }
    }
    Some(a)
}

/// Fills the `cw` by `ch` slot grid with chunk indices so that every
/// adjacent pair is compatible in the joining direction. Contradictions
/// abandon the attempt; after `max_attempts` failed attempts the solver
/// reports exhaustion rather than returning a partial assignment.
#[verifier::loop_isolation(false)]
pub fn solve_chunk_assignment(
    chunks: &Vec<MapChunk>,
    cw: usize,
    ch: usize,
    rng: &mut rltk::RandomNumberGenerator,
    max_attempts: u32,
) -> (r: Result<Vec<usize>, crate::builder::BuildError>)
    requires
        1 <= chunks.len() <= 1_000_000,
        forall|k: int| 0 <= k < chunks.len() ==> (#[trigger] chunks[k].compatible_with.len()) == 4,
        1 <= cw <= 10_000,
        1 <= ch <= 10_000,
    ensures
        r is Ok ==> assignment_ok(chunks@, r->Ok_0@, cw as int, ch as int),
        r is Err ==> r->Err_0 == crate::builder::BuildError::SolverExhausted,
{
    let mut attempt: u32 = 0;
    while attempt < max_attempts
        invariant
            attempt <= max_attempts,
        decreases max_attempts - attempt,
    {
        match try_assignment(chunks, cw, ch, rng) {
            Some(a) => {
                return Ok(a);
            },
            None => {},
        }
        attempt = attempt + 1;
    }
    Err(crate::builder::BuildError::SolverExhausted)
}

} // verus!
