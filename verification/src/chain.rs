//! The builder-chain orchestrator: one initial generator plus an ordered
//! list of meta passes, run in sequence against a shared working state.

use vstd::prelude::*;
use crate::grid::Grid;
use crate::builder::{BuilderMap, BuildError, InitialBuilder, MetaBuilder, XStart, YStart,
    DrunkardParams, VoronoiParams, bm_inv, start_consistent, area_starting_position,
    cull_unreachable_pass, distant_exit_pass, voronoi_spawning_pass, waveform_collapse_pass};
use crate::cellular::{cellular_automata_generate, cavern_level_ok};
use crate::drunkard::{drunkards_walk_generate, walk_level_ok};
use crate::empty_map::{empty_map_generate, blank_level_ok};

verus! {

/// The generator's tuning is within its documented ranges.
pub open spec fn initial_ok(i: InitialBuilder) -> bool {
    match i {
        InitialBuilder::CellularAutomata(p) => p.fill_percent <= 100 && p.accept_percent <= 100,
        InitialBuilder::DrunkardsWalk(p) => p.floor_percent <= 100,
        InitialBuilder::EmptyMap => true,
    }
}

/// The pass's tuning is within its documented ranges.
pub open spec fn meta_ok(m: MetaBuilder) -> bool {
    match m {
        MetaBuilder::VoronoiSpawning(p) => 1 <= p.n_seeds <= 1000 && 1 <= p.n_kinds <= 100_000,
        MetaBuilder::WaveformCollapse(p) => 1 <= p.chunk_size <= 100,
        _ => true,
    }
}

/// What a chain run with no meta passes leaves behind: exactly the chosen
/// starter's own guarantee on the working state.
pub open spec fn starter_level_ok(s: Option<InitialBuilder>, b: BuilderMap) -> bool {
    match s {
        Some(InitialBuilder::CellularAutomata(_)) => cavern_level_ok(b),
        Some(InitialBuilder::DrunkardsWalk(_)) => walk_level_ok(b),
        Some(InitialBuilder::EmptyMap) => blank_level_ok(b),
        None => true,
    }
}

/// One initial generator, an ordered pass list, and the working state they
/// share. Passes run strictly in append order.
pub struct BuilderChain {
    pub starter: Option<InitialBuilder>,
    pub builders: Vec<MetaBuilder>,
    pub build_data: BuilderMap,
}

impl BuilderChain {
    /// An empty chain over a fresh walled grid.
    pub fn new(new_depth: i32, width: i32, height: i32, name: &str) -> (c: BuilderChain)
        requires
            1 <= width <= 10_000,
            1 <= height <= 10_000,
        ensures
            c.starter is None,
            c.builders.len() == 0,
            bm_inv(c.build_data),
            c.build_data.map.width == width,
            c.build_data.map.height == height,
            c.build_data.map.depth == new_depth,
            c.build_data.map.name@ == name@,
            c.build_data.starting_position is None,
            c.build_data.spawn_list.len() == 0,
            c.build_data.history.len() == 0,
    {
        proof {
            assert(width * height <= 100_000_000) by (nonlinear_arith)
                requires
                    1 <= width <= 10_000,
                    1 <= height <= 10_000,
            {}
        }
        BuilderChain {
            starter: None,
            builders: Vec::new(),
            build_data: BuilderMap {
                map: Grid::new(width, height, new_depth, name),
                starting_position: None,
                history: Vec::new(),
                spawn_regions: Vec::new(),
                spawn_list: Vec::new(),
                show_snapshots: true,
            },
        }
    }

    /// Sets the sole initial generator. Setting it twice is a contract
    /// violation, reported as an error rather than an overwrite.
    pub fn start_with(&mut self, initial: InitialBuilder) -> (r: Result<(), BuildError>)
        ensures
            old(self).starter is None ==> r is Ok && final(self).starter == Some(initial)
                && final(self).builders == old(self).builders && final(self).build_data == old(
                self,
            ).build_data,
            old(self).starter is Some ==> r is Err && r->Err_0 == BuildError::StarterAlreadySet
                && *final(self) == *old(self),
    {
        match self.starter {
            None => {
                self.starter = Some(initial);
                Ok(())
            },
            Some(_) => Err(BuildError::StarterAlreadySet),
        }
    }

    /// Appends a meta pass; passes execute in append order.
    pub fn with(&mut self, meta: MetaBuilder)
        ensures
            final(self).starter == old(self).starter,
            final(self).build_data == old(self).build_data,
            final(self).builders@ == old(self).builders@.push(meta),
    {
        self.builders.push(meta);
    }

    /// Runs the initial generator once, then every meta pass once in
    /// order, against the shared working state. Any pass failure aborts
    /// the whole chain; no partially built map is handed onward.
    #[verifier::loop_isolation(false)]
    pub fn build_map(&mut self, rng: &mut rltk::RandomNumberGenerator) -> (r: Result<
        (),
        BuildError,
    >)
        requires
            bm_inv(old(self).build_data),
            match old(self).starter {
                Some(i) => initial_ok(i),
                None => true,
            },
            forall|k: int|
                0 <= k < old(self).builders.len() ==> meta_ok(#[trigger] old(self).builders[k]),
        ensures
            bm_inv(final(self).build_data),
            (r is Err && r->Err_0 == BuildError::NoInitialBuilder) <==> old(self).starter is None,
            old(self).starter is None ==> *final(self) == *old(self),
            old(self).starter == Some(InitialBuilder::EmptyMap) && old(self).builders.len() == 0
                && old(self).build_data.map.width >= 3 && old(self).build_data.map.height >= 3
                ==> r is Ok,
            r is Ok && old(self).builders.len() == 0 ==> starter_level_ok(
                old(self).starter,
                final(self).build_data,
            ),
            r is Ok ==> start_consistent(final(self).build_data),
    {
        let initial = match self.starter {
            Some(i) => i,
            None => {
                return Err(BuildError::NoInitialBuilder);
            },
        };
        let first = match initial {
            InitialBuilder::CellularAutomata(p) => cellular_automata_generate(
                &mut self.build_data,
                rng,
                p,
            ),
            InitialBuilder::DrunkardsWalk(p) => drunkards_walk_generate(
                &mut self.build_data,
                rng,
                p,
            ),
            InitialBuilder::EmptyMap => empty_map_generate(&mut self.build_data),
        };
        match first {
            Ok(()) => {},
            Err(e) => {
                return Err(e);
            },
        }
        self.build_data.take_snapshot();
        proof {
            if old(self).builders.len() == 0 {
                assert(starter_level_ok(old(self).starter, self.build_data));
            }
        }
        let mut i: usize = 0;
        while i < self.builders.len()
            invariant
                bm_inv(self.build_data),
                start_consistent(self.build_data),
                self.builders == old(self).builders,
                self.starter == old(self).starter,
                old(self).builders.len() == 0 ==> starter_level_ok(
                    old(self).starter,
                    self.build_data,
                ),
            decreases self.builders.len() - i,
        {
            let meta = self.builders[i];
            let step = match meta {
                MetaBuilder::AreaStartingPosition(xs, ys) => area_starting_position(
                    &mut self.build_data,
                    xs,
                    ys,
                ),
                MetaBuilder::CullUnreachable => cull_unreachable_pass(&mut self.build_data),
                MetaBuilder::DistantExit => distant_exit_pass(&mut self.build_data),
                MetaBuilder::VoronoiSpawning(p) => voronoi_spawning_pass(
                    &mut self.build_data,
                    rng,
                    p,
                ),
                MetaBuilder::WaveformCollapse(p) => waveform_collapse_pass(
                    &mut self.build_data,
                    rng,
                    p,
                ),
            };
            match step {
                Ok(()) => {},
                Err(e) => {
                    return Err(e);
                },
            }
            self.build_data.take_snapshot();
            i = i + 1;
        }
        Ok(())
    }
}

/// The limestone-cavern recipe: winding randomized passages, a centred
/// start used for culling, the final start on the left edge, region
/// spawning, and a distant exit.
pub fn limestone_cavern_builder(
    new_depth: i32,
    _rng: &mut rltk::RandomNumberGenerator,
    width: i32,
    height: i32,
) -> (c: BuilderChain)
    requires
        1 <= width <= 10_000,
        1 <= height <= 10_000,
    ensures
        bm_inv(c.build_data),
        c.build_data.map.width == width,
        c.build_data.map.height == height,
        c.build_data.map.depth == new_depth,
        c.build_data.map.name@ == "Limestone Caverns"@,
        c.starter == Some(InitialBuilder::DrunkardsWalk(DrunkardParams {
            lifetime: 100u32,
            floor_percent: 40u32,
            max_diggers: 2000u32,
        })),
        c.builders@ =~= seq![
            MetaBuilder::AreaStartingPosition(XStart::CENTER, YStart::CENTER),
            MetaBuilder::CullUnreachable,
            MetaBuilder::AreaStartingPosition(XStart::LEFT, YStart::CENTER),
            MetaBuilder::VoronoiSpawning(VoronoiParams { n_seeds: 8usize, n_kinds: 10u32 }),
            MetaBuilder::DistantExit,
        ],
{
    let mut chain = BuilderChain::new(new_depth, width, height, "Limestone Caverns");
    let started = chain.start_with(
        InitialBuilder::DrunkardsWalk(DrunkardParams::winding_passages()),
    );
    proof {
        assert(started is Ok);
    }
    chain.with(MetaBuilder::AreaStartingPosition(XStart::CENTER, YStart::CENTER));
    chain.with(MetaBuilder::CullUnreachable);
    chain.with(MetaBuilder::AreaStartingPosition(XStart::LEFT, YStart::CENTER));
    chain.with(MetaBuilder::VoronoiSpawning(VoronoiParams { n_seeds: 8, n_kinds: 10 }));
    chain.with(MetaBuilder::DistantExit);
    chain
}

} // verus!
