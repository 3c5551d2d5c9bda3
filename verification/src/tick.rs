use vstd::prelude::*;
use crate::claims::claims_record;
use crate::claims::claims_settled;
use crate::claims::proposals_tidy;
use crate::claims::pruned;
use crate::error::ConfigError;
use crate::grid::Grid;
use crate::movement::committed;
use crate::movement::policy_ready;
use crate::movement::proposals_follow_policy;
use crate::movement::MovementRegistry;
use crate::neighborhood::Neighborhood;
use crate::policy::Movement;
use crate::resolution::can_move;
use crate::resolution::intents_tidy;
use crate::resolution::single_claimant;
use crate::rules::rules_ready;
use crate::rules::traits_updated;
use crate::rules::Rule;
use crate::rules::RulesRegistry;
use crate::walk::ResolveState;

verus! {

/// One tick.  The attribute channels of `grid` are updated into
/// `next_grid`, and the agents of `next_grid` are then moved back into
/// `grid`: when the tick is over `grid` holds the new state, and
/// `next_grid` the state between update and movement.
pub fn step_simulation<T: Copy, R, M>(
    rules_registry: &RulesRegistry,
    evaluate_rule: &R,
    active_mask: &Vec<u8>,
    neighborhood_traits: &Neighborhood,
    movement_registry: &mut MovementRegistry,
    evaluate_movement: &M,
    neighborhood_mvt: &Neighborhood,
    grid: &mut Grid<T>,
    next_grid: &mut Grid<T>,
) where
    R: Fn(Rule, usize, usize, usize, &Neighborhood, &Grid<T>) -> T,
    M: Fn(Movement, usize, usize, &Neighborhood, &Grid<T>) -> (isize, isize),

    requires
        old(grid).wf(),
        old(next_grid).wf(),
        old(grid).same_shape(old(next_grid)),
        neighborhood_mvt.wf(),
        rules_registry.rules@.len() == old(grid).channels(),
        active_mask@.len() == old(grid).channels(),
        rules_ready(evaluate_rule, rules_registry.rules@, active_mask@, neighborhood_traits, old(grid)),
        forall|between: Grid<T>|
            between.wf() && old(grid).same_shape(&between) ==> policy_ready(
                evaluate_movement,
                old(movement_registry).movement,
                neighborhood_mvt,
                &between,
            ),
    ensures
        final(grid).wf(),
        final(next_grid).wf(),
        old(grid).same_shape(final(grid)),
        old(grid).same_shape(final(next_grid)),
        final(grid).blank == old(grid).blank,
        final(next_grid).blank == old(next_grid).blank,
        traits_updated(evaluate_rule, rules_registry.rules@, active_mask@, neighborhood_traits, old(grid), final(next_grid)),
        final(movement_registry).movement == old(movement_registry).movement,
        final(movement_registry).sized(old(grid).cells()),
        proposals_tidy(final(next_grid).occupancy(), final(movement_registry).proposals@),
        proposals_follow_policy(
            evaluate_movement,
            final(movement_registry).movement,
            neighborhood_mvt,
            final(next_grid),
            final(movement_registry).proposals@,
            old(grid).cells(),
        ),
        claims_settled(final(movement_registry).proposals@, final(movement_registry).claims@, old(grid).cells()),
        exists|priorities: Seq<u32>|
            claims_record(
                final(movement_registry).proposals@,
                priorities,
                final(movement_registry).claims@,
                old(grid).cells(),
            ),
        final(movement_registry).intentions@ == pruned(
            final(movement_registry).proposals@,
            final(movement_registry).claims@,
        ),
        intents_tidy(final(next_grid).occupancy(), final(movement_registry).intentions@),
        single_claimant(final(movement_registry).intentions@),
        forall|i: int|
            0 <= i < old(grid).cells() && final(next_grid).occupied(i) ==> #[trigger] final(movement_registry).states@[i]
                == ResolveState::Resolved(
                can_move(final(next_grid).occupancy(), final(movement_registry).intentions@, i),
            ),
        committed(final(next_grid), final(movement_registry).intentions@, final(grid)),
        final(grid).filled() == old(grid).filled(),
{
    rules_registry.apply_rules(evaluate_rule, active_mask, neighborhood_traits, grid, next_grid);
    assert(next_grid.occupancy() =~= grid.occupancy());
    movement_registry.apply_movement(evaluate_movement, neighborhood_mvt, next_grid, grid);
}

/// What keeps a tick from being run, if anything.
pub open spec fn tick_verdict<T: Copy>(
    rules_registry: &RulesRegistry,
    active_mask: Seq<u8>,
    neighborhood_traits: &Neighborhood,
    neighborhood_mvt: &Neighborhood,
    grid: &Grid<T>,
    next_grid: &Grid<T>,
) -> Option<ConfigError> {
    if MovementRegistry::pass_verdict(neighborhood_mvt, grid, next_grid).is_some() {
        MovementRegistry::pass_verdict(neighborhood_mvt, grid, next_grid)
    } else if !neighborhood_traits.wf() {
        Some(ConfigError::MalformedWindow)
    } else if rules_registry.rules@.len() != grid.channels() || active_mask.len() != grid.channels() {
        Some(ConfigError::ChannelCountMismatch)
    } else {
        None
    }
}

/// Runs `step_simulation` where the grids, the windows and the counts
/// allow it, and says what is wrong with them, leaving everything as it
/// is, where they do not.
pub fn try_step_simulation<T: Copy, R, M>(
    rules_registry: &RulesRegistry,
    evaluate_rule: &R,
    active_mask: &Vec<u8>,
    neighborhood_traits: &Neighborhood,
    movement_registry: &mut MovementRegistry,
    evaluate_movement: &M,
    neighborhood_mvt: &Neighborhood,
    grid: &mut Grid<T>,
    next_grid: &mut Grid<T>,
) -> (result: Result<(), ConfigError>) where
    R: Fn(Rule, usize, usize, usize, &Neighborhood, &Grid<T>) -> T,
    M: Fn(Movement, usize, usize, &Neighborhood, &Grid<T>) -> (isize, isize),

    requires
        rules_ready(evaluate_rule, rules_registry.rules@, active_mask@, neighborhood_traits, old(grid)),
        forall|between: Grid<T>|
            between.wf() && old(grid).same_shape(&between) ==> policy_ready(
                evaluate_movement,
                old(movement_registry).movement,
                neighborhood_mvt,
                &between,
            ),
    ensures
        result == match tick_verdict(
            rules_registry,
            active_mask@,
            neighborhood_traits,
            neighborhood_mvt,
            old(grid),
            old(next_grid),
        ) {
            Some(error) => Err::<(), ConfigError>(error),
            None => Ok::<(), ConfigError>(()),
        },
        result.is_err() ==> {
            &&& *final(grid) == *old(grid)
            &&& *final(next_grid) == *old(next_grid)
            &&& *final(movement_registry) == *old(movement_registry)
        },
        result.is_ok() ==> {
            &&& final(grid).wf()
            &&& final(next_grid).wf()
            &&& old(grid).same_shape(final(grid))
            &&& old(grid).same_shape(final(next_grid))
            &&& final(grid).blank == old(grid).blank
            &&& final(next_grid).blank == old(next_grid).blank
            &&& traits_updated(
                evaluate_rule,
                rules_registry.rules@,
                active_mask@,
                neighborhood_traits,
                old(grid),
                final(next_grid),
            )
            &&& final(movement_registry).movement == old(movement_registry).movement
            &&& final(movement_registry).sized(old(grid).cells())
            &&& proposals_tidy(final(next_grid).occupancy(), final(movement_registry).proposals@)
            &&& proposals_follow_policy(
                evaluate_movement,
                final(movement_registry).movement,
                neighborhood_mvt,
                final(next_grid),
                final(movement_registry).proposals@,
                old(grid).cells(),
            )
            &&& claims_settled(
                final(movement_registry).proposals@,
                final(movement_registry).claims@,
                old(grid).cells(),
            )
            &&& exists|priorities: Seq<u32>|
                claims_record(
                    final(movement_registry).proposals@,
                    priorities,
                    final(movement_registry).claims@,
                    old(grid).cells(),
                )
            &&& final(movement_registry).intentions@ == pruned(
                final(movement_registry).proposals@,
                final(movement_registry).claims@,
            )
            &&& intents_tidy(final(next_grid).occupancy(), final(movement_registry).intentions@)
            &&& single_claimant(final(movement_registry).intentions@)
            &&& forall|i: int|
                0 <= i < old(grid).cells() && final(next_grid).occupied(i) ==> #[trigger] final(movement_registry).states@[i] == ResolveState::Resolved(
                    can_move(final(next_grid).occupancy(), final(movement_registry).intentions@, i),
                )
            &&& committed(final(next_grid), final(movement_registry).intentions@, final(grid))
            &&& final(grid).filled() == old(grid).filled()
        },
{
    match MovementRegistry::check_pass(neighborhood_mvt, grid, next_grid) {
        Err(error) => {
            return Err(error);
        },
        Ok(_) => {},
    }
    if !neighborhood_traits.is_well_formed() {
        return Err(ConfigError::MalformedWindow);
    }
    if rules_registry.rules.len() != grid.traits.len() || active_mask.len() != grid.traits.len() {
        return Err(ConfigError::ChannelCountMismatch);
    }
    step_simulation(
        rules_registry,
        evaluate_rule,
        active_mask,
        neighborhood_traits,
        movement_registry,
        evaluate_movement,
        neighborhood_mvt,
        grid,
        next_grid,
    );
    Ok(())
}

/// A run of the simulation: the two buffers, the rules and the movement
/// policy with its records, the two windows, the activity flags, and the
/// number of ticks that have been run.
pub struct Simulation<T> {
    /// The state at the last tick boundary.
    pub grid: Grid<T>,
    /// The buffer that a tick writes the updated channels to.
    pub next_grid: Grid<T>,
    pub rules_registry: RulesRegistry,
    pub movement_registry: MovementRegistry,
    /// Non-zero for every channel that the update touches.
    pub active_mask: Vec<u8>,
    pub neighborhood_traits: Neighborhood,
    pub neighborhood_mvt: Neighborhood,
    /// The number of ticks run.
    pub timestep: usize,
}

impl<T: Copy> Simulation<T> {
    /// The parts fit together: nothing keeps a tick from being run.
    pub open spec fn wf(&self) -> bool {
        tick_verdict(
            &self.rules_registry,
            self.active_mask@,
            &self.neighborhood_traits,
            &self.neighborhood_mvt,
            &self.grid,
            &self.next_grid,
        ).is_none()
    }

    /// Puts a run together, at tick zero, where the parts fit, and says
    /// what is wrong with them where they do not.
    pub fn new(
        grid: Grid<T>,
        next_grid: Grid<T>,
        rules_registry: RulesRegistry,
        movement: Movement,
        active_mask: Vec<u8>,
        neighborhood_traits: Neighborhood,
        neighborhood_mvt: Neighborhood,
    ) -> (result: Result<Self, ConfigError>)
        ensures
            match tick_verdict(
                &rules_registry,
                active_mask@,
                &neighborhood_traits,
                &neighborhood_mvt,
                &grid,
                &next_grid,
            ) {
                Some(error) => result == Err::<Self, ConfigError>(error),
                None => result matches Ok(run) && {
                    &&& run.wf()
                    &&& run.timestep == 0
                    &&& run.grid == grid
                    &&& run.next_grid == next_grid
                    &&& run.rules_registry == rules_registry
                    &&& run.movement_registry.movement == movement
                    &&& run.movement_registry.sized(grid.cells())
                    &&& run.movement_registry.cleared()
                    &&& run.active_mask == active_mask
                    &&& run.neighborhood_traits == neighborhood_traits
                    &&& run.neighborhood_mvt == neighborhood_mvt
                },
            },
    {
        match MovementRegistry::check_pass(&neighborhood_mvt, &grid, &next_grid) {
            Err(error) => {
                return Err(error);
            },
            Ok(_) => {},
        }
        if !neighborhood_traits.is_well_formed() {
            return Err(ConfigError::MalformedWindow);
        }
        if rules_registry.rules.len() != grid.traits.len() || active_mask.len() != grid.traits.len() {
            return Err(ConfigError::ChannelCountMismatch);
        }
        let movement_registry = MovementRegistry::custom(grid.width, grid.height, movement);
        Ok(
            Self {
                grid,
                next_grid,
                rules_registry,
                movement_registry,
                active_mask,
                neighborhood_traits,
                neighborhood_mvt,
                timestep: 0,
            },
        )
    }

    /// Runs one tick and counts it.  The channels are updated into the
    /// second buffer and the agents moved back into the first, so that the
    /// first holds the new state; there are as many agents as before, on a
    /// grid of the same size.
    pub fn step_simulation<R, M>(&mut self, evaluate_rule: &R, evaluate_movement: &M) where
        R: Fn(Rule, usize, usize, usize, &Neighborhood, &Grid<T>) -> T,
        M: Fn(Movement, usize, usize, &Neighborhood, &Grid<T>) -> (isize, isize),

        requires
            old(self).wf(),
            old(self).timestep < usize::MAX,
            rules_ready(
                evaluate_rule,
                old(self).rules_registry.rules@,
                old(self).active_mask@,
                &old(self).neighborhood_traits,
                &old(self).grid,
            ),
            forall|between: Grid<T>|
                between.wf() && old(self).grid.same_shape(&between) ==> policy_ready(
                    evaluate_movement,
                    old(self).movement_registry.movement,
                    &old(self).neighborhood_mvt,
                    &between,
                ),
        ensures
            final(self).timestep == old(self).timestep + 1,
            final(self).wf(),
            final(self).rules_registry == old(self).rules_registry,
            final(self).active_mask == old(self).active_mask,
            final(self).neighborhood_traits == old(self).neighborhood_traits,
            final(self).neighborhood_mvt == old(self).neighborhood_mvt,
            final(self).movement_registry.movement == old(self).movement_registry.movement,
            old(self).grid.same_shape(&final(self).grid),
            final(self).grid.width == old(self).grid.width,
            final(self).grid.height == old(self).grid.height,
            final(self).grid.blank == old(self).grid.blank,
            final(self).next_grid.blank == old(self).next_grid.blank,
            final(self).grid.filled() == old(self).grid.filled(),
            traits_updated(
                evaluate_rule,
                final(self).rules_registry.rules@,
                final(self).active_mask@,
                &final(self).neighborhood_traits,
                &old(self).grid,
                &final(self).next_grid,
            ),
            proposals_follow_policy(
                evaluate_movement,
                final(self).movement_registry.movement,
                &final(self).neighborhood_mvt,
                &final(self).next_grid,
                final(self).movement_registry.proposals@,
                old(self).grid.cells(),
            ),
            final(self).movement_registry.intentions@ == pruned(
                final(self).movement_registry.proposals@,
                final(self).movement_registry.claims@,
            ),
            exists|priorities: Seq<u32>|
                claims_record(
                    final(self).movement_registry.proposals@,
                    priorities,
                    final(self).movement_registry.claims@,
                    old(self).grid.cells(),
                ),
            single_claimant(final(self).movement_registry.intentions@),
            committed(&final(self).next_grid, final(self).movement_registry.intentions@, &final(self).grid),
    {
        step_simulation(
            &self.rules_registry,
            evaluate_rule,
            &self.active_mask,
            &self.neighborhood_traits,
            &mut self.movement_registry,
            evaluate_movement,
            &self.neighborhood_mvt,
            &mut self.grid,
            &mut self.next_grid,
        );
        self.timestep = self.timestep + 1;
    }
}

} // verus!
