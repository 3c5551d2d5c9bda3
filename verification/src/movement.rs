use vstd::prelude::*;
use crate::claims::bid_source;
use crate::claims::claims_record;
use crate::claims::claims_settled;
use crate::claims::contested;
use crate::claims::has_loser;
use crate::claims::lemma_contested_has_loser;
use crate::claims::lemma_pruned_single_claimant;
use crate::claims::lemma_pruned_tidy;
use crate::claims::lemma_record_settles;
use crate::claims::lemma_record_step;
use crate::claims::place_bid;
use crate::claims::proposals_tidy;
use crate::claims::pruned;
use crate::claims::pruned_intent;
use crate::claims::CLAIM_SOURCE_LIMIT;
use crate::error::ConfigError;
use crate::grid::count_marked;
use crate::grid::filled_with;
use crate::grid::occupied_set;
use crate::grid::wrap_spec;
use crate::grid::Grid;
use crate::neighborhood::Neighborhood;
use crate::policy::Movement;
use crate::random::random_priority;
use crate::trace::lemma_done_ascends;
use crate::trace::lemma_frame_descends;
use crate::trace::lemma_frame_starts;
use crate::trace::lemma_no_walk;
use crate::trace::lemma_walk_ends;
use crate::trace::lemma_walk_outcome;
use crate::trace::lemma_walk_short;
use crate::trace::on_walk;
use crate::trace::reserved_after;
use crate::trace::state_after;
use crate::trace::walk_done;
use crate::trace::walk_frame;
use crate::trace::wanted_on_walk;
use crate::walk::ascent_ok;
use crate::walk::descent_ok;
use crate::walk::ledger_ok;
use crate::walk::lemma_settled_source;
use crate::walk::lemma_unvisited_update;
use crate::walk::lemma_walk_ascends;
use crate::walk::lemma_walk_blocked;
use crate::walk::lemma_walk_descends;
use crate::walk::lemma_walk_starts;
use crate::walk::lemma_walk_stays;
use crate::walk::lemma_walk_takes;
use crate::walk::unvisited_count;
use crate::walk::ResolveState;
use crate::resolution::arrival;
use crate::resolution::can_move;
use crate::resolution::destination;
use crate::resolution::intents_tidy;
use crate::resolution::lands;
use crate::resolution::lemma_arrival_unique;
use crate::resolution::lemma_stay_priority;
use crate::resolution::lemma_occupancy_conserved;
use crate::resolution::single_claimant;

verus! {

/// The cell that an agent on `(row, col)` asks for when its policy answers
/// `delta`: the cell that many steps away on the torus where the movement
/// window admits the offset, and the agent's own cell where it does not.
pub open spec fn target_of<T: Copy>(
    grid: &Grid<T>,
    nb: &Neighborhood,
    row: int,
    col: int,
    delta: (isize, isize),
) -> int {
    if nb.admits(delta.0 as int, delta.1 as int) {
        grid.flat(wrap_spec(row + delta.0, grid.height as int), wrap_spec(col + delta.1, grid.width as int))
    } else {
        grid.flat(row, col)
    }
}

/// The policy can be asked about every occupied cell of the grid.
pub open spec fn policy_ready<T: Copy, E: Fn(Movement, usize, usize, &Neighborhood, &Grid<T>) -> (isize, isize)>(
    evaluate: &E,
    movement: Movement,
    nb: &Neighborhood,
    grid: &Grid<T>,
) -> bool {
    forall|row: usize, col: usize|
        row < grid.height && col < grid.width && grid.occupied(grid.flat(row as int, col as int)) ==> call_requires(
            *evaluate,
            (movement, row, col, nb, grid),
        )
}

/// `target` is what the agent on `(row, col)` asks for under some answer
/// that the policy may give for that cell.
pub open spec fn proposal_allowed<T: Copy, E: Fn(Movement, usize, usize, &Neighborhood, &Grid<T>) -> (isize, isize)>(
    evaluate: &E,
    movement: Movement,
    nb: &Neighborhood,
    grid: &Grid<T>,
    row: usize,
    col: usize,
    target: int,
) -> bool {
    exists|delta: (isize, isize)|
        call_ensures(*evaluate, (movement, row, col, nb, grid), delta) && target == target_of(
            grid,
            nb,
            row as int,
            col as int,
            delta,
        )
}

/// Every agent's proposal is one that the policy allows for its cell.
pub open spec fn proposals_follow_policy<T: Copy, E: Fn(Movement, usize, usize, &Neighborhood, &Grid<T>) -> (isize, isize)>(
    evaluate: &E,
    movement: Movement,
    nb: &Neighborhood,
    grid: &Grid<T>,
    proposals: Seq<usize>,
    upto: int,
) -> bool {
    forall|i: int|
        0 <= i < upto && grid.occupied(i) ==> proposal_allowed(
            evaluate,
            movement,
            nb,
            grid,
            (i / (grid.width as int)) as usize,
            (i % (grid.width as int)) as usize,
            (#[trigger] proposals[i]) as int,
        )
}

/// Cell `d` of `next` holds what the tick leaves there: the agent that
/// arrives, with every channel as it was in `grid`, or nothing but blanks.
pub open spec fn cell_committed<T: Copy>(grid: &Grid<T>, intent: Seq<usize>, next: &Grid<T>, d: int) -> bool {
    match arrival(grid.occupancy(), intent, d) {
        Some(s) => next.is_empty@[d] == 0 && forall|t: int|
            0 <= t < grid.channels() ==> #[trigger] next.value(t, d) == grid.value(t, s),
        None => next.is_empty@[d] == 1 && forall|t: int|
            0 <= t < grid.channels() ==> #[trigger] next.value(t, d) == next.blank,
    }
}

/// Every cell of `next` holds what the tick leaves there.
pub open spec fn committed<T: Copy>(grid: &Grid<T>, intent: Seq<usize>, next: &Grid<T>) -> bool {
    forall|d: int| 0 <= d < grid.cells() ==> cell_committed(grid, intent, next, d)
}

/// A committed tick leaves as many agents on the grid as it found.
pub proof fn lemma_committed_conserves<T: Copy>(grid: &Grid<T>, intent: Seq<usize>, next: &Grid<T>)
    requires
        grid.wf(),
        next.wf(),
        grid.same_shape(next),
        intents_tidy(grid.occupancy(), intent),
        single_claimant(intent),
        committed(grid, intent, next),
    ensures
        next.filled() == grid.filled(),
{
    let occ = grid.occupancy();
    let after = next.occupancy();
    assert forall|d: int| 0 <= d < after.len() implies ((#[trigger] after[d]) <==> exists|s: int| lands(occ, intent, s, d)) by {
        assert(cell_committed(grid, intent, next, d));
    }
    lemma_occupancy_conserved(occ, intent, after);
}

/// No agent is lost: after a committed tick every agent is on the cell
/// that it was bound for, with every channel as it was.
pub proof fn lemma_agent_lands<T: Copy>(grid: &Grid<T>, intent: Seq<usize>, next: &Grid<T>, i: int)
    requires
        grid.wf(),
        intents_tidy(grid.occupancy(), intent),
        single_claimant(intent),
        committed(grid, intent, next),
        0 <= i < grid.cells(),
        grid.occupied(i),
    ensures
        0 <= destination(grid.occupancy(), intent, i) < grid.cells(),
        next.is_empty@[destination(grid.occupancy(), intent, i)] == 0,
        forall|t: int|
            0 <= t < grid.channels() ==> #[trigger] next.value(t, destination(grid.occupancy(), intent, i)) == grid.value(
                t,
                i,
            ),
{
    let occ = grid.occupancy();
    let d = destination(occ, intent, i);
    assert(lands(occ, intent, i, d));
    lemma_arrival_unique(occ, intent, i, d);
    assert(cell_committed(grid, intent, next, d));
}

/// An agent that wants its own cell is never kept from staying: after a
/// committed tick it is on its cell, with every channel as it was.
pub proof fn lemma_stayer_keeps_cell<T: Copy>(grid: &Grid<T>, intent: Seq<usize>, next: &Grid<T>, i: int)
    requires
        grid.wf(),
        intents_tidy(grid.occupancy(), intent),
        single_claimant(intent),
        committed(grid, intent, next),
        0 <= i < grid.cells(),
        grid.occupied(i),
        intent[i] == i,
    ensures
        can_move(grid.occupancy(), intent, i),
        next.is_empty@[i] == 0,
        forall|t: int| 0 <= t < grid.channels() ==> #[trigger] next.value(t, i) == grid.value(t, i),
{
    lemma_stay_priority(grid.occupancy(), intent, i);
    lemma_agent_lands(grid, intent, next, i);
}

/// Stay-priority at the pass: an agent whose policy answers with nothing
/// but its own cell, by a zero step, a step that the window does not admit
/// or a step that wraps back, is on its cell after the pass with every
/// channel as it was, whatever the other agents ask for.
pub proof fn lemma_pass_keeps_stayer<T: Copy, E: Fn(Movement, usize, usize, &Neighborhood, &Grid<T>) -> (isize, isize)>(
    evaluate: &E,
    movement: Movement,
    nb: &Neighborhood,
    grid: &Grid<T>,
    proposals: Seq<usize>,
    claims: Seq<u64>,
    next: &Grid<T>,
    i: int,
)
    requires
        grid.wf(),
        0 <= i < grid.cells(),
        grid.occupied(i),
        proposals_tidy(grid.occupancy(), proposals),
        claims.len() == proposals.len(),
        proposals_follow_policy(evaluate, movement, nb, grid, proposals, grid.cells()),
        committed(grid, pruned(proposals, claims), next),
        forall|delta: (isize, isize)|
            call_ensures(
                *evaluate,
                (movement, (i / (grid.width as int)) as usize, (i % (grid.width as int)) as usize, nb, grid),
                delta,
            ) ==> #[trigger] target_of(grid, nb, i / (grid.width as int), i % (grid.width as int), delta) == i,
    ensures
        pruned(proposals, claims)[i] == i,
        next.is_empty@[i] == 0,
        forall|t: int| 0 <= t < grid.channels() ==> #[trigger] next.value(t, i) == grid.value(t, i),
{
    let intent = pruned(proposals, claims);
    grid.lemma_coords_of_flat(i);
    assert(proposal_allowed(
        evaluate,
        movement,
        nb,
        grid,
        (i / (grid.width as int)) as usize,
        (i % (grid.width as int)) as usize,
        proposals[i] as int,
    ));
    assert(proposals[i] == i);
    assert(intent[i] == pruned_intent(proposals, claims, i));
    lemma_pruned_tidy(grid.occupancy(), proposals, claims);
    lemma_pruned_single_claimant(proposals, claims);
    lemma_stayer_keeps_cell(grid, intent, next, i);
}

/// Where every agent wants its own cell the tick moves nobody: the same
/// cells are occupied afterwards, by the same agents.
pub proof fn lemma_nobody_moves<T: Copy>(grid: &Grid<T>, intent: Seq<usize>, next: &Grid<T>)
    requires
        grid.wf(),
        intents_tidy(grid.occupancy(), intent),
        committed(grid, intent, next),
        forall|i: int| 0 <= i < grid.cells() ==> #[trigger] intent[i] == i,
    ensures
        forall|i: int| 0 <= i < grid.cells() ==> (#[trigger] next.is_empty@[i] == 0 <==> grid.occupied(i)),
        forall|t: int, i: int|
            0 <= t < grid.channels() && 0 <= i < grid.cells() && grid.occupied(i) ==> #[trigger] next.value(t, i)
                == grid.value(t, i),
{
    let occ = grid.occupancy();
    assert(single_claimant(intent));
    assert forall|i: int| 0 <= i < grid.cells() implies (#[trigger] next.is_empty@[i] == 0 <==> grid.occupied(i)) by {
        assert(cell_committed(grid, intent, next, i));
        if grid.occupied(i) {
            lemma_stayer_keeps_cell(grid, intent, next, i);
        } else {
            assert forall|s: int| !lands(occ, intent, s, i) by {
                if lands(occ, intent, s, i) {
                    lemma_stay_priority(occ, intent, s);
                }
            }
        }
    }
    assert forall|t: int, i: int|
        0 <= t < grid.channels() && 0 <= i < grid.cells() && grid.occupied(i) implies #[trigger] next.value(t, i)
            == grid.value(t, i) by {
        lemma_stayer_keeps_cell(grid, intent, next, i);
    }
}

/// The movement policy in force together with the arrays that one
/// resolution pass works on, all indexed by flat cell index and reused from
/// tick to tick.
pub struct MovementRegistry {
    /// The policy that the agents follow.
    pub movement: Movement,
    /// The highest bid placed on each cell, zero where nobody bid.
    pub claims: Vec<u64>,
    /// What each agent asked for before the bids were compared.
    pub proposals: Vec<usize>,
    /// What each agent still wants once the losers have been sent home.
    pub intentions: Vec<usize>,
    /// The agent that took each cell in the walk.
    pub reserved: Vec<Option<usize>>,
    /// How far the walk has come with each cell.
    pub states: Vec<ResolveState>,
}

impl MovementRegistry {
    /// Every array has `n` entries.
    pub open spec fn sized(&self, n: int) -> bool {
        &&& self.claims@.len() == n
        &&& self.proposals@.len() == n
        &&& self.intentions@.len() == n
        &&& self.reserved@.len() == n
        &&& self.states@.len() == n
    }

    /// Nothing is left of an earlier pass: no claim, no reservation, no visit.
    pub open spec fn cleared(&self) -> bool {
        &&& forall|i: int| 0 <= i < self.claims@.len() ==> #[trigger] self.claims@[i] == 0
        &&& forall|i: int| 0 <= i < self.reserved@.len() ==> (#[trigger] self.reserved@[i]).is_none()
        &&& forall|i: int| 0 <= i < self.states@.len() ==> #[trigger] self.states@[i] == ResolveState::Unvisited
    }

    /// A registry for a grid of `width * height` cells with the given policy.
    pub fn custom(width: usize, height: usize, movement: Movement) -> (registry: Self)
        requires
            width * height <= usize::MAX,
        ensures
            registry.sized(width * height),
            registry.cleared(),
            registry.movement == movement,
    {
        let size: usize = width * height;
        Self {
            movement,
            claims: filled_with(0u64, size),
            proposals: filled_with(0usize, size),
            intentions: filled_with(0usize, size),
            reserved: filled_with(None, size),
            states: filled_with(ResolveState::Unvisited, size),
        }
    }

    /// A registry for a grid of `width * height` cells whose agents stay
    /// where they are.
    pub fn new(width: usize, height: usize) -> (registry: Self)
        requires
            width * height <= usize::MAX,
        ensures
            registry.sized(width * height),
            registry.cleared(),
            registry.movement == Movement::Static,
    {
        Self::custom(width, height, Movement::Static)
    }

    /// The name of the policy in force.
    pub fn get_movement_name(&self) -> (text: &'static str)
        ensures
            text@ == self.movement.name_spec(),
    {
        self.movement.name()
    }

    /// Whether `movement` is the policy in force.
    pub fn is_stored_function(&self, movement: Movement) -> (stored: bool)
        ensures
            stored == (self.movement == movement),
    {
        self.movement == movement
    }

    /// Replaces the policy and leaves the arrays alone.
    pub fn set_movement_function(&mut self, movement_fn: Movement)
        ensures
            final(self).movement == movement_fn,
            final(self).claims == old(self).claims,
            final(self).proposals == old(self).proposals,
            final(self).intentions == old(self).intentions,
            final(self).reserved == old(self).reserved,
            final(self).states == old(self).states,
    {
        self.movement = movement_fn;
    }

    /// Readies the arrays for a pass over a grid of `width * height` cells:
    /// they get that many entries, and every claim, reservation and visit of
    /// an earlier pass is wiped.
    pub fn prepare(&mut self, width: usize, height: usize)
        requires
            width * height <= usize::MAX,
        ensures
            final(self).sized(width * height),
            final(self).cleared(),
            final(self).movement == old(self).movement,
            old(self).sized(width * height) ==> final(self).proposals == old(self).proposals && final(self).intentions
                == old(self).intentions,
            !old(self).sized(width * height) ==> forall|i: int|
                0 <= i < width * height ==> final(self).proposals@[i] == 0 && final(self).intentions@[i] == 0,
    {
        let size: usize = width * height;
        if self.claims.len() != size || self.proposals.len() != size || self.intentions.len() != size
            || self.reserved.len() != size || self.states.len() != size {
            self.claims = filled_with(0u64, size);
            self.proposals = filled_with(0usize, size);
            self.intentions = filled_with(0usize, size);
            self.reserved = filled_with(None, size);
            self.states = filled_with(ResolveState::Unvisited, size);
        } else {
            let mut i: usize = 0;
            while i < size
                invariant
                    i <= size,
                    self.sized(size as int),
                    self.movement == old(self).movement,
                    self.proposals == old(self).proposals,
                    self.intentions == old(self).intentions,
                    forall|k: int| 0 <= k < i ==> #[trigger] self.claims@[k] == 0,
                    forall|k: int| 0 <= k < i ==> (#[trigger] self.reserved@[k]).is_none(),
                    forall|k: int| 0 <= k < i ==> #[trigger] self.states@[k] == ResolveState::Unvisited,
                decreases size - i,
            {
                self.claims[i] = 0;
                self.reserved[i] = None;
                self.states[i] = ResolveState::Unvisited;
                i += 1;
            }
        }
    }

    /// Asks the policy about the agent on `(row, col)` and turns its answer
    /// into the flat index of the cell that the agent asks for.
    pub fn propose<T: Copy, E>(&self, evaluate: &E, row: usize, col: usize, nb: &Neighborhood, grid: &Grid<T>) -> (target:
        usize) where E: Fn(Movement, usize, usize, &Neighborhood, &Grid<T>) -> (isize, isize)

        requires
            grid.wf(),
            nb.wf(),
            row < grid.height,
            col < grid.width,
            call_requires(*evaluate, (self.movement, row, col, nb, grid)),
        ensures
            target < grid.cells(),
            proposal_allowed(evaluate, self.movement, nb, grid, row, col, target as int),
    {
        let delta: (isize, isize) = evaluate(self.movement, row, col, nb, grid);
        let target: usize = if nb.admits_offset(delta.0, delta.1) {
            let (tr, tc) = grid.offset_position(row, col, delta.0, delta.1);
            grid.idx(tr, tc)
        } else {
            grid.idx(row, col)
        };
        assert(target == target_of(grid, nb, row as int, col as int, delta));
        target
    }

    /// First phase.  Every agent's proposal is recorded, and every agent that
    /// asks for another cell bids for it with a random priority.
    pub fn bid<T: Copy, E>(&mut self, evaluate: &E, nb: &Neighborhood, grid: &Grid<T>) where
        E: Fn(Movement, usize, usize, &Neighborhood, &Grid<T>) -> (isize, isize),

        requires
            grid.wf(),
            nb.wf(),
            old(self).sized(grid.cells()),
            forall|t: int| 0 <= t < old(self).claims@.len() ==> #[trigger] old(self).claims@[t] == 0,
            policy_ready(evaluate, old(self).movement, nb, grid),
        ensures
            final(self).sized(grid.cells()),
            final(self).movement == old(self).movement,
            final(self).intentions == old(self).intentions,
            final(self).reserved == old(self).reserved,
            final(self).states == old(self).states,
            proposals_tidy(grid.occupancy(), final(self).proposals@),
            proposals_follow_policy(evaluate, final(self).movement, nb, grid, final(self).proposals@, grid.cells()),
            claims_settled(final(self).proposals@, final(self).claims@, grid.cells()),
            exists|priorities: Seq<u32>| claims_record(final(self).proposals@, priorities, final(self).claims@, grid.cells()),
    {
        let size: usize = self.claims.len();
        let ghost mut priorities: Seq<u32> = Seq::new(size as nat, |k: int| 0u32);
        let mut i: usize = 0;
        while i < size
            invariant
                grid.wf(),
                nb.wf(),
                size == grid.cells(),
                size <= CLAIM_SOURCE_LIMIT,
                i <= size,
                self.sized(size as int),
                self.movement == old(self).movement,
                self.intentions == old(self).intentions,
                self.reserved == old(self).reserved,
                self.states == old(self).states,
                policy_ready(evaluate, self.movement, nb, grid),
                forall|k: int| 0 <= k < i ==> (#[trigger] self.proposals@[k]) < size,
                forall|k: int| 0 <= k < i && grid.is_empty@[k] != 0 ==> #[trigger] self.proposals@[k] == k,
                proposals_follow_policy(evaluate, self.movement, nb, grid, self.proposals@, i as int),
                claims_record(self.proposals@, priorities, self.claims@, i as int),
            decreases size - i,
        {
            let ghost before_proposals = self.proposals@;
            let ghost before_claims = self.claims@;
            let ghost before_priorities = priorities;
            let mut target: usize = i;
            let mut priority: u32 = 0;
            if grid.is_empty[i] == 0 {
                let (row, col) = grid.coords(i);
                target = self.propose(evaluate, row, col, nb, grid);
            }
            self.proposals[i] = target;
            if target != i {
                priority = random_priority();
                place_bid(&mut self.claims, target, priority, i);
            }
            proof {
                priorities = before_priorities.update(i as int, priority);
                lemma_record_step(before_proposals, before_priorities, before_claims, i as int, target, priority);
                assert forall|k: int| 0 <= k < i + 1 && grid.occupied(k) implies proposal_allowed(
                    evaluate,
                    self.movement,
                    nb,
                    grid,
                    (k / (grid.width as int)) as usize,
                    (k % (grid.width as int)) as usize,
                    (#[trigger] self.proposals@[k]) as int,
                ) by {
                    if k < i {
                        assert(self.proposals@[k] == before_proposals[k]);
                    }
                }
            }
            i += 1;
        }
        proof {
            lemma_record_settles(self.proposals@, priorities, self.claims@);
        }
    }

    /// What agent `i` still wants once the bids are compared: what it
    /// asked for where the claim on that cell names it, and its own cell
    /// otherwise.
    pub fn kept_intent(&self, i: usize) -> (kept: usize)
        requires
            i < self.proposals@.len(),
            self.proposals@[i as int] < self.claims@.len(),
        ensures
            kept == pruned_intent(self.proposals@, self.claims@, i as int),
    {
        let target: usize = self.proposals[i];
        if target != i && bid_source(self.claims[target]) == i {
            target
        } else {
            i
        }
    }

    /// Second phase.  An agent keeps its proposal where the claim on the
    /// target names it; every other agent's intent becomes its own cell.
    pub fn prune(&mut self)
        requires
            old(self).sized(old(self).claims@.len() as int),
            forall|i: int| 0 <= i < old(self).proposals@.len() ==> (#[trigger] old(self).proposals@[i]) < old(self).proposals@.len(),
        ensures
            final(self).intentions@ == pruned(old(self).proposals@, old(self).claims@),
            final(self).movement == old(self).movement,
            final(self).claims == old(self).claims,
            final(self).proposals == old(self).proposals,
            final(self).reserved == old(self).reserved,
            final(self).states == old(self).states,
    {
        let size: usize = self.proposals.len();
        let mut i: usize = 0;
        while i < size
            invariant
                i <= size,
                self.sized(size as int),
                self.movement == old(self).movement,
                self.claims == old(self).claims,
                self.proposals == old(self).proposals,
                self.reserved == old(self).reserved,
                self.states == old(self).states,
                forall|k: int| 0 <= k < size ==> (#[trigger] self.proposals@[k]) < size,
                forall|k: int| 0 <= k < i ==> #[trigger] self.intentions@[k] == pruned_intent(
                    self.proposals@,
                    self.claims@,
                    k,
                ),
            decreases size - i,
        {
            let kept: usize = self.kept_intent(i);
            self.intentions[i] = kept;
            i += 1;
        }
        assert(self.intentions@ =~= pruned(old(self).proposals@, old(self).claims@));
    }

    /// Which cells hold an agent, as the walk's records have it.
    pub open spec fn occupancy(&self) -> Seq<bool> {
        Seq::new(self.states@.len(), |i: int| self.states@[i] != ResolveState::Empty)
    }

    /// The records are in order and no chain is being followed.
    pub open spec fn walk_ready(&self) -> bool {
        &&& self.sized(self.states@.len() as int)
        &&& ledger_ok(self.occupancy(), self.intentions@, self.states@, self.reserved@)
        &&& forall|i: int| 0 <= i < self.states@.len() ==> #[trigger] self.states@[i] != ResolveState::Visiting
    }

    /// Settles the agent on cell `(r, c)` of a grid that is `w` wide, and
    /// with it every agent on the chain in front of it, up to the first
    /// cell that is settled, vacant or met before.  The answer is `true`
    /// when the agent may take the cell it wants.  A cell that has been
    /// looked at is answered from the records, and nothing changes; a
    /// vacant cell answers `true`.  No state changes but those of the chain,
    /// and no reservation but on a cell that an agent of the chain wants.
    pub fn resolve_move(&mut self, r: usize, c: usize, w: usize) -> (moved: bool)
        requires
            old(self).walk_ready(),
            r * w + c < old(self).states@.len(),
        ensures
            final(self).walk_ready(),
            final(self).occupancy() == old(self).occupancy(),
            forall|k: int|
                0 <= k < old(self).states@.len() ==> #[trigger] final(self).states@[k] == state_after(
                    old(self).occupancy(),
                    old(self).states@,
                    old(self).intentions@,
                    r * w + c,
                    k,
                ),
            forall|d: int|
                0 <= d < old(self).reserved@.len() ==> #[trigger] final(self).reserved@[d] == reserved_after(
                    old(self).states@,
                    old(self).reserved@,
                    old(self).intentions@,
                    r * w + c,
                    d,
                ),
            old(self).states@[r * w + c] != ResolveState::Unvisited ==> {
                &&& final(self).states == old(self).states
                &&& final(self).reserved == old(self).reserved
            },
            old(self).states@[r * w + c] == ResolveState::Unvisited && old(self).intentions@[r * w + c] == r * w + c ==> {
                &&& moved
                &&& final(self).states@ == old(self).states@.update(r * w + c, ResolveState::Resolved(true))
                &&& final(self).reserved@ == old(self).reserved@.update(r * w + c, Some((r * w + c) as usize))
            },
            old(self).states@[r * w + c] == ResolveState::Unvisited && old(self).intentions@[r * w + c] != r * w + c
                && old(self).reserved@[old(self).intentions@[r * w + c] as int].is_some() ==> {
                &&& !moved
                &&& final(self).states@ == old(self).states@.update(r * w + c, ResolveState::Resolved(false))
                &&& final(self).reserved@ == old(self).reserved@
            },
            final(self).movement == old(self).movement,
            final(self).claims == old(self).claims,
            final(self).proposals == old(self).proposals,
            final(self).intentions == old(self).intentions,
            forall|k: int|
                0 <= k < old(self).states@.len() && old(self).states@[k] != ResolveState::Unvisited ==> #[trigger] final(self).states@[k] == old(self).states@[k],
            old(self).states@[r * w + c] == ResolveState::Empty ==> moved,
            old(self).states@[r * w + c] != ResolveState::Empty ==> {
                &&& final(self).states@[r * w + c] == ResolveState::Resolved(moved)
                &&& moved == can_move(old(self).occupancy(), old(self).intentions@, r * w + c)
            },
    {
        let size: usize = self.states.len();
        assert(r * w >= 0) by (nonlinear_arith)
            requires
                r >= 0,
                w >= 0,
        ;
        let idx: usize = r * w + c;
        match self.states[idx] {
            ResolveState::Resolved(result) => {
                proof {
                    lemma_no_walk(self.states@, self.intentions@, idx as int);
                }
                return result;
            },
            ResolveState::Visiting => {
                proof {
                    lemma_no_walk(self.states@, self.intentions@, idx as int);
                }
                return true;
            },
            ResolveState::Empty => {
                proof {
                    lemma_no_walk(self.states@, self.intentions@, idx as int);
                }
                return true;
            },
            ResolveState::Unvisited => {},
        }
        let ghost occ = self.occupancy();
        let ghost intent = self.intentions@;
        let ghost old_states = self.states@;
        let ghost old_reserved = self.reserved@;
        let ghost mut chain: Seq<usize> = seq![idx];
        let mut stack: Vec<usize> = Vec::new();
        proof {
            lemma_walk_starts(occ, intent, self.states@, self.reserved@, idx);
            lemma_frame_starts(old_states, old_reserved, idx);
        }
        self.states[idx] = ResolveState::Visiting;
        stack.push(idx);
        assert(stack@ =~= seq![idx]);
        let mut descending: bool = true;
        let mut above: usize = idx;
        let mut verdict: bool = false;
        while descending
            invariant
                size == old(self).states@.len(),
                idx < size,
                self.sized(size as int),
                self.movement == old(self).movement,
                self.claims == old(self).claims,
                self.proposals == old(self).proposals,
                self.intentions == old(self).intentions,
                intent == self.intentions@,
                occ == old(self).occupancy(),
                ledger_ok(occ, intent, self.states@, self.reserved@),
                descending ==> descent_ok(intent, self.states@, self.reserved@, stack@),
                !descending ==> ascent_ok(occ, intent, self.states@, self.reserved@, stack@, above, verdict),
                old_states == old(self).states@,
                old_reserved == old(self).reserved@,
                ledger_ok(occ, intent, old_states, old_reserved),
                descending ==> walk_frame(old_states, old_reserved, self.states@, self.reserved@, stack@) && stack@[0]
                    == idx,
                !descending ==> {
                    &&& walk_done(old_states, old_reserved, intent, self.states@, self.reserved@, chain)
                    &&& chain[0] == idx
                    &&& stack@ == chain.drop_last()
                    &&& self.states@[chain.last() as int] is Resolved
                },
                forall|k: int|
                    0 <= k < size && old(self).states@[k] != ResolveState::Unvisited ==> #[trigger] self.states@[k] == old(self).states@[k],
                forall|j: int| 0 <= j < stack@.len() ==> old(self).states@[(#[trigger] stack@[j]) as int] == ResolveState::Unvisited,
                self.states@[idx as int] == ResolveState::Visiting || self.states@[idx as int] is Resolved,
            decreases unvisited_count(self.states@) + if descending { 1nat } else { 0nat },
        {
            let ghost states0 = self.states@;
            let ghost reserved0 = self.reserved@;
            let ghost stack0 = stack@;
            let cur: usize = stack[stack.len() - 1];
            assert(cur == stack0.last());
            assert(states0[cur as int] == ResolveState::Visiting);
            let target: usize = self.intentions[cur];
            assert(target < size);
            if target == cur {
                proof {
                    lemma_walk_stays(occ, intent, states0, reserved0, stack0);
                    lemma_unvisited_update(states0, cur as int, ResolveState::Resolved(true));
                    lemma_walk_ends(
                        occ,
                        intent,
                        old_states,
                        old_reserved,
                        states0,
                        reserved0,
                        stack0,
                        ResolveState::Resolved(true),
                    );
                    chain = stack0;
                }
                self.reserved[target] = Some(cur);
                self.states[cur] = ResolveState::Resolved(true);
                stack.pop();
                above = cur;
                verdict = false;
                descending = false;
            } else if self.reserved[target].is_some() {
                proof {
                    lemma_walk_blocked(occ, intent, states0, reserved0, stack0);
                    lemma_unvisited_update(states0, cur as int, ResolveState::Resolved(false));
                    lemma_walk_ends(
                        occ,
                        intent,
                        old_states,
                        old_reserved,
                        states0,
                        reserved0,
                        stack0,
                        ResolveState::Resolved(false),
                    );
                    chain = stack0;
                }
                self.states[cur] = ResolveState::Resolved(false);
                stack.pop();
                above = cur;
                verdict = false;
                descending = false;
            } else {
                let occupant: ResolveState = self.states[target];
                self.reserved[target] = Some(cur);
                match occupant {
                    ResolveState::Unvisited => {
                        proof {
                            lemma_walk_descends(occ, intent, states0, reserved0, stack0);
                            lemma_frame_descends(old_states, old_reserved, intent, states0, reserved0, stack0, target);
                        }
                        self.states[target] = ResolveState::Visiting;
                        stack.push(target);
                    },
                    _ => {
                        let leaves: bool = match occupant {
                            ResolveState::Resolved(occupant_can_move) => occupant_can_move && self.intentions[target]
                                != target,
                            _ => true,
                        };
                        proof {
                            lemma_walk_takes(occ, intent, states0, reserved0, stack0, leaves);
                            lemma_unvisited_update(states0, cur as int, ResolveState::Resolved(leaves));
                            lemma_walk_ends(
                                occ,
                                intent,
                                old_states,
                                old_reserved,
                                states0,
                                reserved0,
                                stack0,
                                ResolveState::Resolved(leaves),
                            );
                            chain = stack0;
                        }
                        self.states[cur] = ResolveState::Resolved(leaves);
                        stack.pop();
                        above = cur;
                        verdict = leaves;
                        descending = false;
                    },
                }
            }
        }
        while stack.len() > 0
            invariant
                size == old(self).states@.len(),
                idx < size,
                self.sized(size as int),
                self.movement == old(self).movement,
                self.claims == old(self).claims,
                self.proposals == old(self).proposals,
                self.intentions == old(self).intentions,
                intent == self.intentions@,
                occ == old(self).occupancy(),
                ledger_ok(occ, intent, self.states@, self.reserved@),
                ascent_ok(occ, intent, self.states@, self.reserved@, stack@, above, verdict),
                old_states == old(self).states@,
                old_reserved == old(self).reserved@,
                ledger_ok(occ, intent, old_states, old_reserved),
                walk_done(old_states, old_reserved, intent, self.states@, self.reserved@, chain),
                chain[0] == idx,
                stack@.len() <= chain.len(),
                stack@ == chain.take(stack@.len() as int),
                forall|j: int| stack@.len() <= j < chain.len() ==> self.states@[(#[trigger] chain[j]) as int] is Resolved,
                forall|k: int|
                    0 <= k < size && old(self).states@[k] != ResolveState::Unvisited ==> #[trigger] self.states@[k] == old(self).states@[k],
                forall|j: int| 0 <= j < stack@.len() ==> old(self).states@[(#[trigger] stack@[j]) as int] == ResolveState::Unvisited,
                self.states@[idx as int] == ResolveState::Visiting || self.states@[idx as int] is Resolved,
            decreases stack@.len(),
        {
            let ghost states0 = self.states@;
            let ghost stack0 = stack@;
            let cur: usize = stack[stack.len() - 1];
            assert(cur == stack0.last());
            proof {
                lemma_walk_ascends(occ, intent, states0, self.reserved@, stack0, above, verdict);
                lemma_done_ascends(
                    old_states,
                    old_reserved,
                    intent,
                    states0,
                    self.reserved@,
                    chain,
                    stack0.len() - 1,
                    ResolveState::Resolved(verdict),
                );
                assert(chain[stack0.len() - 1] == cur);
            }
            self.states[cur] = ResolveState::Resolved(verdict);
            stack.pop();
            above = cur;
            assert(stack@ =~= chain.take(stack@.len() as int));
        }
        proof {
            assert forall|i: int| 0 <= i < size implies #[trigger] self.states@[i] != ResolveState::Visiting by {
                if self.states@[i] == ResolveState::Visiting {
                    let j = choose|j: int| 0 <= j < stack@.len() && stack@[j] == i;
                }
            }
            assert(self.occupancy() =~= occ);
            lemma_walk_outcome(occ, intent, old_states, old_reserved, self.states@, self.reserved@, chain);
            if intent[idx as int] == idx || old_reserved[intent[idx as int] as int].is_some() {
                lemma_walk_short(occ, old_states, old_reserved, intent, idx as int);
                let settled = ResolveState::Resolved(intent[idx as int] == idx);
                assert forall|d: int| d != idx || intent[idx as int] != idx implies !wanted_on_walk(
                    old_states,
                    intent,
                    idx as int,
                    d,
                ) || old_reserved[d].is_some() by {
                    if wanted_on_walk(old_states, intent, idx as int, d) {
                        let k = choose|k: int| on_walk(old_states, intent, idx as int, k) && intent[k] == d;
                        assert(k == idx);
                    }
                }
                assert(self.states@ =~= old_states.update(idx as int, settled));
                if intent[idx as int] == idx {
                    assert(self.reserved@ =~= old_reserved.update(idx as int, Some(idx)));
                } else {
                    assert(self.reserved@ =~= old_reserved);
                }
            }
        }
        match self.states[idx] {
            ResolveState::Resolved(result) => result,
            _ => true,
        }
    }

    /// Third phase.  Vacant cells are marked as such, and then every agent
    /// is settled, each once, in row-major order of the cells that the walk
    /// starts from.
    pub fn resolve<T: Copy>(&mut self, grid: &Grid<T>)
        requires
            grid.wf(),
            old(self).sized(grid.cells()),
            forall|i: int| 0 <= i < old(self).reserved@.len() ==> (#[trigger] old(self).reserved@[i]).is_none(),
            forall|i: int| 0 <= i < old(self).states@.len() ==> #[trigger] old(self).states@[i] == ResolveState::Unvisited,
            intents_tidy(grid.occupancy(), old(self).intentions@),
            single_claimant(old(self).intentions@),
        ensures
            final(self).walk_ready(),
            final(self).sized(grid.cells()),
            final(self).occupancy() == grid.occupancy(),
            forall|i: int| 0 <= i < final(self).states@.len() ==> #[trigger] final(self).states@[i] != ResolveState::Unvisited,
            final(self).movement == old(self).movement,
            final(self).claims == old(self).claims,
            final(self).proposals == old(self).proposals,
            final(self).intentions == old(self).intentions,
    {
        let size: usize = self.states.len();
        let mut i: usize = 0;
        while i < size
            invariant
                grid.wf(),
                size == grid.cells(),
                i <= size,
                self.sized(size as int),
                self.movement == old(self).movement,
                self.claims == old(self).claims,
                self.proposals == old(self).proposals,
                self.intentions == old(self).intentions,
                self.reserved == old(self).reserved,
                forall|k: int|
                    0 <= k < i ==> #[trigger] self.states@[k] == if grid.is_empty@[k] != 0 {
                        ResolveState::Empty
                    } else {
                        ResolveState::Unvisited
                    },
                forall|k: int| i <= k < size ==> #[trigger] self.states@[k] == ResolveState::Unvisited,
            decreases size - i,
        {
            if grid.is_empty[i] != 0 {
                self.states[i] = ResolveState::Empty;
            }
            i += 1;
        }
        proof {
            assert(self.occupancy() =~= grid.occupancy());
        }
        let mut i: usize = 0;
        while i < size
            invariant
                grid.wf(),
                size == grid.cells(),
                i <= size,
                self.sized(size as int),
                self.walk_ready(),
                self.occupancy() == grid.occupancy(),
                self.movement == old(self).movement,
                self.claims == old(self).claims,
                self.proposals == old(self).proposals,
                self.intentions == old(self).intentions,
                forall|k: int| 0 <= k < i ==> #[trigger] self.states@[k] != ResolveState::Unvisited,
            decreases size - i,
        {
            if self.states[i] == ResolveState::Unvisited {
                let (r, c) = grid.coords(i);
                let ghost before = self.states@;
                self.resolve_move(r, c, grid.width);
                assert forall|k: int| 0 <= k < i + 1 implies #[trigger] self.states@[k] != ResolveState::Unvisited by {
                    if k < i {
                        assert(before[k] != ResolveState::Unvisited);
                    }
                }
            }
            i += 1;
        }
    }

    /// The cell from which the agent comes that ends the tick on cell `d`,
    /// if an agent does: the holder of the reservation where the cell was
    /// vacant or its agent got its way, and the cell itself where its agent
    /// was held back.
    pub fn source_of<T: Copy>(&self, grid: &Grid<T>, d: usize) -> (source: Option<usize>)
        requires
            grid.wf(),
            self.sized(grid.cells()),
            self.walk_ready(),
            self.occupancy() == grid.occupancy(),
            forall|i: int| 0 <= i < self.states@.len() ==> #[trigger] self.states@[i] != ResolveState::Unvisited,
            d < grid.cells(),
        ensures
            arrival(grid.occupancy(), self.intentions@, d as int) == match source {
                Some(s) => Some(s as int),
                None => None,
            },
            source matches Some(s) ==> s < grid.cells() && grid.occupied(s as int),
    {
        let source: Option<usize> = if grid.is_empty[d] != 0 {
            self.reserved[d]
        } else {
            match self.states[d] {
                ResolveState::Resolved(true) => self.reserved[d],
                _ => Some(d),
            }
        };
        proof {
            lemma_settled_source(grid.occupancy(), self.intentions@, self.states@, self.reserved@, d as int);
        }
        source
    }

    /// Fourth phase.  Every cell of the next buffer gets the agent that ends
    /// the tick on it, with all its channels, or is made vacant.
    pub fn commit<T: Copy>(&self, grid: &Grid<T>, next_grid: &mut Grid<T>)
        requires
            grid.wf(),
            old(next_grid).wf(),
            grid.same_shape(old(next_grid)),
            self.sized(grid.cells()),
            self.walk_ready(),
            self.occupancy() == grid.occupancy(),
            forall|i: int| 0 <= i < self.states@.len() ==> #[trigger] self.states@[i] != ResolveState::Unvisited,
        ensures
            final(next_grid).wf(),
            grid.same_shape(final(next_grid)),
            final(next_grid).blank == old(next_grid).blank,
            committed(grid, self.intentions@, final(next_grid)),
    {
        let size: usize = self.states.len();
        let channels: usize = grid.traits.len();
        let ghost occ = grid.occupancy();
        let ghost intent = self.intentions@;
        let mut d: usize = 0;
        while d < size
            invariant
                grid.wf(),
                next_grid.wf(),
                grid.same_shape(next_grid),
                next_grid.blank == old(next_grid).blank,
                size == grid.cells(),
                channels == grid.channels(),
                d <= size,
                self.sized(size as int),
                self.walk_ready(),
                self.occupancy() == grid.occupancy(),
                occ == grid.occupancy(),
                intent == self.intentions@,
                forall|i: int| 0 <= i < self.states@.len() ==> #[trigger] self.states@[i] != ResolveState::Unvisited,
                forall|k: int| 0 <= k < d ==> cell_committed(grid, intent, next_grid, k),
            decreases size - d,
        {
            let source: Option<usize> = self.source_of(grid, d);
            let ghost unflagged = *next_grid;
            next_grid.is_empty[d] = if source.is_some() { 0u8 } else { 1u8 };
            let ghost flagged = *next_grid;
            assert forall|k: int| 0 <= k < d implies cell_committed(grid, intent, &flagged, k) by {
                assert(cell_committed(grid, intent, &unflagged, k));
                assert(flagged.is_empty@[k] == unflagged.is_empty@[k]);
                assert forall|u: int| 0 <= u < grid.channels() implies #[trigger] flagged.value(u, k) == unflagged.value(
                    u,
                    k,
                ) by {}
            }
            let mut t: usize = 0;
            while t < channels
                invariant
                    grid.wf(),
                    next_grid.wf(),
                    grid.same_shape(next_grid),
                    next_grid.blank == old(next_grid).blank,
                    size == grid.cells(),
                    channels == grid.channels(),
                    d < size,
                    t <= channels,
                    next_grid.is_empty == flagged.is_empty,
                    source matches Some(s) ==> s < size,
                    forall|k: int| 0 <= k < d ==> cell_committed(grid, intent, next_grid, k),
                    forall|u: int|
                        0 <= u < t ==> #[trigger] next_grid.value(u, d as int) == match source {
                            Some(s) => grid.value(u, s as int),
                            None => next_grid.blank,
                        },
                decreases channels - t,
            {
                let value: T = match source {
                    Some(s) => grid.traits[t][s],
                    None => next_grid.blank,
                };
                let ghost before = *next_grid;
                next_grid.set_flat(t, d, value);
                assert forall|k: int| 0 <= k < d implies cell_committed(grid, intent, next_grid, k) by {
                    assert(cell_committed(grid, intent, &before, k));
                    assert forall|u: int| 0 <= u < grid.channels() implies #[trigger] next_grid.value(u, k) == before.value(
                        u,
                        k,
                    ) by {}
                }
                assert forall|u: int| 0 <= u < t + 1 implies #[trigger] next_grid.value(u, d as int) == match source {
                    Some(s) => grid.value(u, s as int),
                    None => next_grid.blank,
                } by {
                    if u < t {
                        assert(next_grid.value(u, d as int) == before.value(u, d as int));
                    }
                }
                t += 1;
            }
            assert(cell_committed(grid, intent, next_grid, d as int));
            d += 1;
        }
    }

    /// Moves the agents of `grid` by one tick and writes the outcome to
    /// `next_grid`.  Every agent proposes a step, agents that ask for one
    /// cell bid for it and all but one of them stay, chains of agents that
    /// want each other's cells are settled, and the agents are copied to
    /// where they end up.  No agent is lost or doubled, an agent that wants
    /// to stay stays, and a closed ring of agents rotates.
    pub fn apply_movement<T: Copy, E>(
        &mut self,
        evaluate: &E,
        neighborhood_mvt: &Neighborhood,
        grid: &Grid<T>,
        next_grid: &mut Grid<T>,
    ) where E: Fn(Movement, usize, usize, &Neighborhood, &Grid<T>) -> (isize, isize)

        requires
            grid.wf(),
            old(next_grid).wf(),
            grid.same_shape(old(next_grid)),
            neighborhood_mvt.wf(),
            policy_ready(evaluate, old(self).movement, neighborhood_mvt, grid),
        ensures
            final(self).movement == old(self).movement,
            final(self).sized(grid.cells()),
            proposals_tidy(grid.occupancy(), final(self).proposals@),
            proposals_follow_policy(
                evaluate,
                final(self).movement,
                neighborhood_mvt,
                grid,
                final(self).proposals@,
                grid.cells(),
            ),
            claims_settled(final(self).proposals@, final(self).claims@, grid.cells()),
            exists|priorities: Seq<u32>| claims_record(final(self).proposals@, priorities, final(self).claims@, grid.cells()),
            final(self).intentions@ == pruned(final(self).proposals@, final(self).claims@),
            intents_tidy(grid.occupancy(), final(self).intentions@),
            single_claimant(final(self).intentions@),
            final(self).walk_ready(),
            final(self).occupancy() == grid.occupancy(),
            forall|i: int|
                0 <= i < grid.cells() && grid.occupied(i) ==> #[trigger] final(self).states@[i] == ResolveState::Resolved(
                    can_move(grid.occupancy(), final(self).intentions@, i),
                ),
            final(next_grid).wf(),
            grid.same_shape(final(next_grid)),
            final(next_grid).blank == old(next_grid).blank,
            committed(grid, final(self).intentions@, final(next_grid)),
            final(next_grid).filled() == grid.filled(),
    {
        self.prepare(grid.width, grid.height);
        self.bid(evaluate, neighborhood_mvt, grid);
        self.prune();
        proof {
            lemma_pruned_tidy(grid.occupancy(), self.proposals@, self.claims@);
            lemma_pruned_single_claimant(self.proposals@, self.claims@);
        }
        self.resolve(grid);
        self.commit(grid, next_grid);
        proof {
            lemma_committed_conserves(grid, self.intentions@, next_grid);
            assert forall|i: int| 0 <= i < grid.cells() && grid.occupied(i) implies #[trigger] self.states@[i]
                == ResolveState::Resolved(can_move(grid.occupancy(), self.intentions@, i)) by {
                assert(self.states@[i] != ResolveState::Unvisited);
                assert(self.states@[i] != ResolveState::Visiting);
                assert(self.occupancy()[i]);
            }
        }
    }

    /// What keeps a pass over `grid` into `next_grid` from being run, if
    /// anything.
    pub open spec fn pass_verdict<T: Copy>(
        neighborhood_mvt: &Neighborhood,
        grid: &Grid<T>,
        next_grid: &Grid<T>,
    ) -> Option<ConfigError> {
        if !grid.wf() || !next_grid.wf() {
            Some(ConfigError::MalformedGrid)
        } else if !grid.same_shape(next_grid) {
            Some(ConfigError::BufferShapeMismatch)
        } else if !neighborhood_mvt.wf() {
            Some(ConfigError::MalformedWindow)
        } else {
            None
        }
    }

    /// Tests what `apply_movement` takes for granted of the grids and the
    /// window.
    pub fn check_pass<T: Copy>(neighborhood_mvt: &Neighborhood, grid: &Grid<T>, next_grid: &Grid<T>) -> (result: Result<
        (),
        ConfigError,
    >)
        ensures
            result == match Self::pass_verdict(neighborhood_mvt, grid, next_grid) {
                Some(error) => Err::<(), ConfigError>(error),
                None => Ok::<(), ConfigError>(()),
            },
    {
        if !grid.is_well_formed() || !next_grid.is_well_formed() {
            return Err(ConfigError::MalformedGrid);
        }
        if grid.width != next_grid.width || grid.height != next_grid.height || grid.traits.len()
            != next_grid.traits.len() {
            return Err(ConfigError::BufferShapeMismatch);
        }
        if !neighborhood_mvt.is_well_formed() {
            return Err(ConfigError::MalformedWindow);
        }
        Ok(())
    }

    /// Runs `apply_movement` where the grids and the window allow it, and
    /// says what is wrong with them, leaving everything as it is, where
    /// they do not.
    pub fn try_apply_movement<T: Copy, E>(
        &mut self,
        evaluate: &E,
        neighborhood_mvt: &Neighborhood,
        grid: &Grid<T>,
        next_grid: &mut Grid<T>,
    ) -> (result: Result<(), ConfigError>) where E: Fn(Movement, usize, usize, &Neighborhood, &Grid<T>) -> (isize, isize)
        requires
            policy_ready(evaluate, old(self).movement, neighborhood_mvt, grid),
        ensures
            result == match Self::pass_verdict(neighborhood_mvt, grid, old(next_grid)) {
                Some(error) => Err::<(), ConfigError>(error),
                None => Ok::<(), ConfigError>(()),
            },
            result.is_err() ==> *final(self) == *old(self) && *final(next_grid) == *old(next_grid),
            result.is_ok() ==> {
                &&& final(self).movement == old(self).movement
                &&& final(self).sized(grid.cells())
                &&& proposals_tidy(grid.occupancy(), final(self).proposals@)
                &&& proposals_follow_policy(
                    evaluate,
                    final(self).movement,
                    neighborhood_mvt,
                    grid,
                    final(self).proposals@,
                    grid.cells(),
                )
                &&& claims_settled(final(self).proposals@, final(self).claims@, grid.cells())
                &&& exists|priorities: Seq<u32>|
                    claims_record(final(self).proposals@, priorities, final(self).claims@, grid.cells())
                &&& final(self).intentions@ == pruned(final(self).proposals@, final(self).claims@)
                &&& intents_tidy(grid.occupancy(), final(self).intentions@)
                &&& single_claimant(final(self).intentions@)
                &&& final(self).walk_ready()
                &&& final(self).occupancy() == grid.occupancy()
                &&& forall|i: int|
                    0 <= i < grid.cells() && grid.occupied(i) ==> #[trigger] final(self).states@[i]
                        == ResolveState::Resolved(can_move(grid.occupancy(), final(self).intentions@, i))
                &&& final(next_grid).wf()
                &&& grid.same_shape(final(next_grid))
                &&& final(next_grid).blank == old(next_grid).blank
                &&& committed(grid, final(self).intentions@, final(next_grid))
                &&& final(next_grid).filled() == grid.filled()
            },
    {
        match Self::check_pass(neighborhood_mvt, grid, next_grid) {
            Err(error) => Err(error),
            Ok(_) => {
                self.apply_movement(evaluate, neighborhood_mvt, grid, next_grid);
                Ok(())
            },
        }
    }

    /// The number of cells that two or more agents asked for in the last
    /// pass.
    pub fn contested_cells(&self) -> (count: usize)
        requires
            self.sized(self.proposals@.len() as int),
            forall|i: int| 0 <= i < self.proposals@.len() ==> (#[trigger] self.proposals@[i]) < self.proposals@.len(),
            claims_settled(self.proposals@, self.claims@, self.proposals@.len() as int),
            self.intentions@ == pruned(self.proposals@, self.claims@),
        ensures
            count == occupied_set(contested(self.proposals@)).len(),
    {
        let size: usize = self.proposals.len();
        let mut marks: Vec<bool> = filled_with(false, size);
        let mut i: usize = 0;
        while i < size
            invariant
                size == self.proposals@.len(),
                self.sized(size as int),
                forall|k: int| 0 <= k < size ==> (#[trigger] self.proposals@[k]) < size,
                i <= size,
                marks@.len() == size,
                forall|t: int| 0 <= t < size ==> #[trigger] marks@[t] == has_loser(self.proposals@, self.intentions@, i as int, t),
            decreases size - i,
        {
            let target: usize = self.proposals[i];
            let ghost before = marks@;
            if self.intentions[i] != target {
                marks[target] = true;
            }
            assert forall|t: int| 0 <= t < size implies #[trigger] marks@[t] == has_loser(
                self.proposals@,
                self.intentions@,
                i + 1,
                t,
            ) by {
                let lost_before = has_loser(self.proposals@, self.intentions@, i as int, t);
                let lost_now = has_loser(self.proposals@, self.intentions@, i + 1, t);
                assert(before[t] == lost_before);
                if lost_before {
                    let k = choose|k: int|
                        0 <= k < i && k < self.proposals@.len() && self.proposals@[k] == t && self.intentions@[k] != t;
                    assert(0 <= k < i + 1 && self.proposals@[k] == t && self.intentions@[k] != t);
                }
                if t == target && self.intentions@[i as int] != target {
                    assert(0 <= i < i + 1 && self.proposals@[i as int] == t && self.intentions@[i as int] != t);
                }
                if lost_now && !lost_before {
                    let k = choose|k: int|
                        0 <= k < i + 1 && k < self.proposals@.len() && self.proposals@[k] == t && self.intentions@[k] != t;
                    if k < i {
                        assert(0 <= k < i && self.proposals@[k] == t && self.intentions@[k] != t);
                    }
                }
            }
            i += 1;
        }
        proof {
            assert forall|t: int| 0 <= t < size implies #[trigger] marks@[t] == contested(self.proposals@)[t] by {
                lemma_contested_has_loser(self.proposals@, self.claims@, t);
            }
            assert(marks@ =~= contested(self.proposals@));
        }
        count_marked(&marks)
    }

    /// The names of all movement policies, in the order of the table.
    pub fn get_all_names(&self) -> (list: Vec<&'static str>)
        ensures
            list@.len() == Movement::all_spec().len(),
            forall|k: int| 0 <= k < list@.len() ==> (#[trigger] list@[k])@ == Movement::all_spec()[k].name_spec(),
    {
        Movement::names()
    }

    /// The movement policy that goes by `movement_name`, if there is one.
    pub fn get_movement_by_name(&self, movement_name: &str) -> (found: Option<Movement>)
        ensures
            match found {
                Some(movement) => movement.name_spec() == movement_name@,
                None => forall|movement: Movement| movement.name_spec() != movement_name@,
            },
            forall|movement: Movement| movement.name_spec() == movement_name@ ==> found == Some(movement),
    {
        Movement::from_name(movement_name)
    }

    /// The name that a configuration uses for a movement policy.
    pub fn get_name_for_movement(&self, movement: Movement) -> (text: &'static str)
        ensures
            text@ == movement.name_spec(),
    {
        movement.name()
    }
}

} // verus!
