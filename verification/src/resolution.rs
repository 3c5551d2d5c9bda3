use vstd::prelude::*;
use vstd::relations::injective_on;
use vstd::set_lib::lemma_map_size;
use crate::grid::lemma_occupied_finite;
use crate::grid::occupied_set;

verus! {

/// Every intent names a cell of the grid, and a vacant cell names itself.
pub open spec fn intents_tidy(occ: Seq<bool>, intent: Seq<usize>) -> bool {
    &&& intent.len() == occ.len()
    &&& forall|i: int| 0 <= i < intent.len() ==> (#[trigger] intent[i]) < intent.len()
    &&& forall|i: int| 0 <= i < intent.len() && !occ[i] ==> #[trigger] intent[i] == i
}

/// No cell is the target of two agents other than its own occupant.
pub open spec fn single_claimant(intent: Seq<usize>) -> bool {
    forall|i: int, j: int|
        0 <= i < intent.len() && 0 <= j < intent.len() && #[trigger] intent[i] == #[trigger] intent[j]
            && intent[i] != i && intent[j] != j ==> i == j
}

/// Following the intents from cell `i`, the agent met after exactly `steps`
/// hops stays where it is, and every agent met before it wants to move into
/// a cell that is occupied.
pub open spec fn blocked_at(occ: Seq<bool>, intent: Seq<usize>, i: int, steps: nat) -> bool
    decreases steps,
{
    if steps == 0 {
        intent[i] == i
    } else {
        &&& intent[i] != i
        &&& occ[intent[i] as int]
        &&& blocked_at(occ, intent, intent[i] as int, (steps - 1) as nat)
    }
}

/// The agent on cell `i` does not leave its cell: it wants to stay, or the
/// chain of agents in front of it ends at one that stays.  A chain that
/// reaches a vacant cell, or closes into a ring, blocks nobody.
pub open spec fn blocked(occ: Seq<bool>, intent: Seq<usize>, i: int) -> bool {
    exists|steps: nat| blocked_at(occ, intent, i, steps)
}

/// What the walk records for an agent: `true` when it may take the cell it
/// wants, which for an agent that wants its own cell is always the case.
pub open spec fn can_move(occ: Seq<bool>, intent: Seq<usize>, i: int) -> bool {
    intent[i] == i || !blocked(occ, intent, i)
}

/// Where the agent on cell `i` is after the tick.
pub open spec fn destination(occ: Seq<bool>, intent: Seq<usize>, i: int) -> int {
    if blocked(occ, intent, i) {
        i
    } else {
        intent[i] as int
    }
}

/// The agent on cell `s` is on cell `d` after the tick.
pub open spec fn lands(occ: Seq<bool>, intent: Seq<usize>, s: int, d: int) -> bool {
    &&& 0 <= s < occ.len()
    &&& occ[s]
    &&& destination(occ, intent, s) == d
}

/// The agent that is on cell `d` after the tick, if there is one.
pub open spec fn arrival(occ: Seq<bool>, intent: Seq<usize>, d: int) -> Option<int> {
    if exists|s: int| lands(occ, intent, s, d) {
        Some(choose|s: int| lands(occ, intent, s, d))
    } else {
        None
    }
}

/// The agent that lands on a cell is the one that arrives there.
pub proof fn lemma_arrival_unique(occ: Seq<bool>, intent: Seq<usize>, s: int, d: int)
    requires
        intents_tidy(occ, intent),
        single_claimant(intent),
        lands(occ, intent, s, d),
    ensures
        arrival(occ, intent, d) == Some(s),
{
    let other = choose|other: int| lands(occ, intent, other, d);
    lemma_destination_injective(occ, intent, s, other);
}

/// An agent that wants its own cell is never kept from staying.
pub proof fn lemma_stay_priority(occ: Seq<bool>, intent: Seq<usize>, i: int)
    requires
        intent[i] == i,
    ensures
        can_move(occ, intent, i),
        destination(occ, intent, i) == i,
{
    assert(blocked_at(occ, intent, i, 0));
}

/// An agent whose target is vacant takes it.
pub proof fn lemma_vacant_target(occ: Seq<bool>, intent: Seq<usize>, i: int)
    requires
        intent[i] != i,
        !occ[intent[i] as int],
    ensures
        !blocked(occ, intent, i),
{
    assert forall|steps: nat| !blocked_at(occ, intent, i, steps) by {
        if steps > 0 {
            assert(!blocked_at(occ, intent, i, steps));
        }
    }
}

/// An agent whose target is occupied moves exactly when the occupant leaves.
pub proof fn lemma_blocked_through(occ: Seq<bool>, intent: Seq<usize>, i: int)
    requires
        intent[i] != i,
        occ[intent[i] as int],
    ensures
        blocked(occ, intent, i) == blocked(occ, intent, intent[i] as int),
{
    let t = intent[i] as int;
    if blocked(occ, intent, i) {
        let steps = choose|steps: nat| blocked_at(occ, intent, i, steps);
        assert(steps > 0);
        assert(blocked_at(occ, intent, t, (steps - 1) as nat));
    }
    if blocked(occ, intent, t) {
        let steps = choose|steps: nat| blocked_at(occ, intent, t, steps);
        assert(blocked_at(occ, intent, i, steps + 1));
    }
}

/// The cells of `ring` want each other's cells in turn, the last one that of
/// the first.
pub open spec fn is_ring(intent: Seq<usize>, ring: Seq<usize>) -> bool {
    &&& ring.len() > 0
    &&& forall|j: int| 0 <= j < ring.len() ==> (#[trigger] ring[j]) < intent.len()
    &&& forall|j: int| 0 <= j < ring.len() ==> intent[(#[trigger] ring[j]) as int] != ring[j]
    &&& forall|j: int| 0 <= j < ring.len() - 1 ==> intent[(#[trigger] ring[j]) as int] == ring[j + 1]
    &&& intent[ring[ring.len() - 1] as int] == ring[0]
}

/// No agent of a ring is blocked after any given number of hops.
proof fn lemma_ring_steps(occ: Seq<bool>, intent: Seq<usize>, ring: Seq<usize>, steps: nat)
    requires
        is_ring(intent, ring),
    ensures
        forall|j: int| 0 <= j < ring.len() ==> !blocked_at(occ, intent, (#[trigger] ring[j]) as int, steps),
    decreases steps,
{
    if steps > 0 {
        lemma_ring_steps(occ, intent, ring, (steps - 1) as nat);
        assert forall|j: int| 0 <= j < ring.len() implies !blocked_at(
            occ,
            intent,
            (#[trigger] ring[j]) as int,
            steps,
        ) by {
            if j < ring.len() - 1 {
                assert(intent[ring[j] as int] == ring[j + 1]);
            } else {
                assert(intent[ring[j] as int] == ring[0]);
            }
        }
    }
}

/// A closed ring of agents, each wanting the next one's cell, rotates as a
/// whole: none of them is blocked.
pub proof fn lemma_ring_rotates(occ: Seq<bool>, intent: Seq<usize>, ring: Seq<usize>)
    requires
        is_ring(intent, ring),
    ensures
        forall|j: int| 0 <= j < ring.len() ==> !blocked(occ, intent, (#[trigger] ring[j]) as int),
{
    assert forall|j: int| 0 <= j < ring.len() implies !blocked(occ, intent, (#[trigger] ring[j]) as int) by {
        assert forall|steps: nat| !blocked_at(occ, intent, ring[j] as int, steps) by {
            lemma_ring_steps(occ, intent, ring, steps);
        }
    }
}

/// The cells of `chain` want each other's cells in turn, and the last one
/// wants a vacant cell.
pub open spec fn is_vacancy_chain(occ: Seq<bool>, intent: Seq<usize>, chain: Seq<usize>) -> bool {
    &&& chain.len() > 0
    &&& forall|j: int| 0 <= j < chain.len() ==> (#[trigger] chain[j]) < intent.len() && occ[chain[j] as int]
    &&& forall|j: int| 0 <= j < chain.len() ==> intent[(#[trigger] chain[j]) as int] != chain[j]
    &&& forall|j: int| 0 <= j < chain.len() - 1 ==> intent[(#[trigger] chain[j]) as int] == chain[j + 1]
    &&& !occ[intent[chain[chain.len() - 1] as int] as int]
}

/// The agents of a vacancy chain from position `from` on are not blocked.
proof fn lemma_chain_from(occ: Seq<bool>, intent: Seq<usize>, chain: Seq<usize>, from: int)
    requires
        is_vacancy_chain(occ, intent, chain),
        0 <= from < chain.len(),
    ensures
        forall|j: int| from <= j < chain.len() ==> !blocked(occ, intent, (#[trigger] chain[j]) as int),
    decreases chain.len() - from,
{
    if from == chain.len() - 1 {
        lemma_vacant_target(occ, intent, chain[from] as int);
    } else {
        lemma_chain_from(occ, intent, chain, from + 1);
        assert(intent[chain[from] as int] == chain[from + 1]);
        assert(occ[chain[from + 1] as int]);
        lemma_blocked_through(occ, intent, chain[from] as int);
    }
}

/// A chain of agents that ends in front of a vacant cell shifts by one as a
/// whole: none of them is blocked.
pub proof fn lemma_chain_shifts(occ: Seq<bool>, intent: Seq<usize>, chain: Seq<usize>)
    requires
        is_vacancy_chain(occ, intent, chain),
    ensures
        forall|j: int| 0 <= j < chain.len() ==> !blocked(occ, intent, (#[trigger] chain[j]) as int),
{
    lemma_chain_from(occ, intent, chain, 0);
}

/// No two agents end the tick on one cell.
pub proof fn lemma_destination_injective(occ: Seq<bool>, intent: Seq<usize>, a: int, b: int)
    requires
        intents_tidy(occ, intent),
        single_claimant(intent),
        0 <= a < occ.len(),
        0 <= b < occ.len(),
        occ[a],
        occ[b],
        destination(occ, intent, a) == destination(occ, intent, b),
    ensures
        a == b,
{
    let blocked_a = blocked(occ, intent, a);
    let blocked_b = blocked(occ, intent, b);
    if intent[a] == a {
        assert(blocked_at(occ, intent, a, 0));
    }
    if intent[b] == b {
        assert(blocked_at(occ, intent, b, 0));
    }
    if !blocked_a && blocked_b {
        // `a` would move onto `b`, which stays.
        assert(intent[a] as int == b);
        lemma_blocked_through(occ, intent, a);
    } else if blocked_a && !blocked_b {
        assert(intent[b] as int == a);
        lemma_blocked_through(occ, intent, b);
    } else if !blocked_a && !blocked_b {
        assert(intent[a] == intent[b]);
    }
}

/// Every agent ends the tick on a cell of the grid.
pub proof fn lemma_destination_in_grid(occ: Seq<bool>, intent: Seq<usize>, i: int)
    requires
        intents_tidy(occ, intent),
        0 <= i < occ.len(),
    ensures
        0 <= destination(occ, intent, i) < occ.len(),
{
}

/// Agents are neither lost nor made: when the cells occupied after the tick
/// are exactly those on which an agent lands, there are as many agents after
/// the tick as before it.
pub proof fn lemma_occupancy_conserved(occ: Seq<bool>, intent: Seq<usize>, after: Seq<bool>)
    requires
        intents_tidy(occ, intent),
        single_claimant(intent),
        after.len() == occ.len(),
        forall|d: int| 0 <= d < after.len() ==> ((#[trigger] after[d]) <==> exists|s: int| lands(occ, intent, s, d)),
    ensures
        occupied_set(after).len() == occupied_set(occ).len(),
{
    let before_set = occupied_set(occ);
    let after_set = occupied_set(after);
    let f = |s: int| destination(occ, intent, s);
    lemma_occupied_finite(occ, occ.len() as int);
    assert(injective_on(f, before_set)) by {
        assert forall|a: int, b: int|
            before_set.contains(a) && before_set.contains(b) && #[trigger] f(a) == #[trigger] f(b) implies a == b by {
            lemma_destination_injective(occ, intent, a, b);
        }
    }
    assert(before_set.map(f) =~= after_set) by {
        assert forall|d: int| before_set.map(f).contains(d) implies after_set.contains(d) by {
            let s = choose|s: int| before_set.contains(s) && d == f(s);
            lemma_destination_in_grid(occ, intent, s);
            assert(lands(occ, intent, s, d));
        }
        assert forall|d: int| after_set.contains(d) implies before_set.map(f).contains(d) by {
            assert(after[d]);
            let s = choose|s: int| lands(occ, intent, s, d);
            assert(before_set.contains(s) && d == f(s));
        }
    }
    lemma_map_size(before_set, after_set, f);
}

} // verus!
