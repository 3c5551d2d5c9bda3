use vstd::prelude::*;
use crate::resolution::blocked_at;
use crate::resolution::can_move;
use crate::walk::chain_ok;
use crate::walk::descent_ok;
use crate::walk::ledger_ok;
use crate::walk::reservation_ok;
use crate::walk::ResolveState;

verus! {

/// Cell `k` is reached from cell `start` in at most `steps` hops along the
/// intents, through cells whose agents the walk has not looked at and that
/// want another cell than their own.  The cell reached has not been looked
/// at either.
pub open spec fn on_walk_within(
    states: Seq<ResolveState>,
    intent: Seq<usize>,
    start: int,
    k: int,
    steps: nat,
) -> bool
    decreases steps,
{
    &&& 0 <= start < states.len()
    &&& states[start] == ResolveState::Unvisited
    &&& (start == k || (steps > 0 && intent[start] != start && on_walk_within(
        states,
        intent,
        intent[start] as int,
        k,
        (steps - 1) as nat,
    )))
}

/// Cell `k` lies on the chain that a walk from `start` follows: the cells
/// in front of `start`, `start` included, up to the first one that is
/// settled, vacant, met before, or whose agent stays.
pub open spec fn on_walk(states: Seq<ResolveState>, intent: Seq<usize>, start: int, k: int) -> bool {
    exists|steps: nat| on_walk_within(states, intent, start, k, steps)
}

/// The state of cell `k` after a walk from `start`: settled where the cell
/// lies on the chain, and as before where it does not.
pub open spec fn state_after(
    occ: Seq<bool>,
    states: Seq<ResolveState>,
    intent: Seq<usize>,
    start: int,
    k: int,
) -> ResolveState {
    if on_walk(states, intent, start, k) {
        ResolveState::Resolved(can_move(occ, intent, k))
    } else {
        states[k]
    }
}

/// Some cell of the chain of a walk from `start` wants cell `d`.
pub open spec fn wanted_on_walk(states: Seq<ResolveState>, intent: Seq<usize>, start: int, d: int) -> bool {
    exists|k: int| on_walk(states, intent, start, k) && intent[k] == d
}

/// The holder of the reservation of cell `d` after a walk from `start`:
/// the cell's own agent where it lies on the chain and stays; else the
/// agent of the chain that wants the cell, where the cell was free; else
/// the holder before the walk.
pub open spec fn reserved_after(
    states: Seq<ResolveState>,
    reserved: Seq<Option<usize>>,
    intent: Seq<usize>,
    start: int,
    d: int,
) -> Option<usize> {
    if on_walk(states, intent, start, d) && intent[d] == d {
        Some(d as usize)
    } else if reserved[d].is_none() && wanted_on_walk(states, intent, start, d) {
        Some((choose|k: int| on_walk(states, intent, start, k) && intent[k] == d) as usize)
    } else {
        reserved[d]
    }
}

/// Cell `k` is one of the cells of `chain`.
pub open spec fn holds(chain: Seq<usize>, k: int) -> bool {
    exists|j: int| 0 <= j < chain.len() && chain[j] == k
}

/// Cell `k` is one of the cells of `chain` after the first.
pub open spec fn holds_later(chain: Seq<usize>, k: int) -> bool {
    exists|j: int| 1 <= j < chain.len() && chain[j] == k
}

/// Some cell of `chain` wants cell `d`.
pub open spec fn wanted_by(intent: Seq<usize>, chain: Seq<usize>, d: int) -> bool {
    exists|j: int| 0 <= j < chain.len() && intent[chain[j] as int] == d
}

/// While a walk is under way, states have changed only on the chain and
/// reservations only on the cells of the chain after the first, and no
/// cell of the chain had been looked at before.
pub open spec fn walk_frame(
    old_states: Seq<ResolveState>,
    old_reserved: Seq<Option<usize>>,
    states: Seq<ResolveState>,
    reserved: Seq<Option<usize>>,
    stack: Seq<usize>,
) -> bool {
    &&& states.len() == old_states.len()
    &&& reserved.len() == old_states.len()
    &&& old_reserved.len() == old_states.len()
    &&& forall|j: int| 0 <= j < stack.len() ==> old_states[(#[trigger] stack[j]) as int] == ResolveState::Unvisited
    &&& forall|k: int| 0 <= k < states.len() ==> (#[trigger] states[k]) == old_states[k] || holds(stack, k)
    &&& forall|d: int| 0 <= d < reserved.len() ==> (#[trigger] reserved[d]) == old_reserved[d] || holds_later(stack, d)
}

/// `chain` is the whole chain of a walk: cells that had not been looked
/// at, no cell twice, each wanting the cell of the next, and the last one
/// staying, or wanting the first, or wanting a cell that had been looked at.
pub open spec fn walked(old_states: Seq<ResolveState>, intent: Seq<usize>, chain: Seq<usize>) -> bool {
    &&& chain.len() >= 1
    &&& forall|j: int|
        0 <= j < chain.len() ==> (#[trigger] chain[j]) < old_states.len() && old_states[chain[j] as int]
            == ResolveState::Unvisited
    &&& forall|j: int, k: int| 0 <= j < k < chain.len() ==> #[trigger] chain[j] != #[trigger] chain[k]
    &&& forall|j: int|
        0 <= j < chain.len() - 1 ==> intent[(#[trigger] chain[j]) as int] == chain[j + 1] && intent[chain[j] as int]
            != chain[j]
    &&& {
        let last = chain[chain.len() - 1];
        let target = intent[last as int];
        target == last || target == chain[0] || old_states[target as int] != ResolveState::Unvisited
    }
}

/// The holder of the reservation of cell `d` once the walk along `chain`
/// has taken its last cell.
pub open spec fn chain_reserved(
    old_reserved: Seq<Option<usize>>,
    intent: Seq<usize>,
    chain: Seq<usize>,
    d: int,
) -> Option<usize> {
    if holds(chain, d) && intent[d] == d {
        Some(d as usize)
    } else if old_reserved[d].is_none() && wanted_by(intent, chain, d) {
        Some(chain[choose|j: int| 0 <= j < chain.len() && intent[chain[j] as int] == d])
    } else {
        old_reserved[d]
    }
}

/// What a walk along `chain` has left once its last cell is taken.
pub open spec fn walk_done(
    old_states: Seq<ResolveState>,
    old_reserved: Seq<Option<usize>>,
    intent: Seq<usize>,
    states: Seq<ResolveState>,
    reserved: Seq<Option<usize>>,
    chain: Seq<usize>,
) -> bool {
    &&& states.len() == old_states.len()
    &&& reserved.len() == old_states.len()
    &&& old_reserved.len() == old_states.len()
    &&& walked(old_states, intent, chain)
    &&& forall|k: int| 0 <= k < states.len() ==> (#[trigger] states[k]) == old_states[k] || holds(chain, k)
    &&& forall|d: int|
        0 <= d < reserved.len() ==> (#[trigger] reserved[d]) == chain_reserved(old_reserved, intent, chain, d)
}

/// A walk that sets out changes nothing but the state of its first cell.
pub proof fn lemma_frame_starts(old_states: Seq<ResolveState>, old_reserved: Seq<Option<usize>>, start: usize)
    requires
        old_reserved.len() == old_states.len(),
        start < old_states.len(),
        old_states[start as int] == ResolveState::Unvisited,
    ensures
        walk_frame(
            old_states,
            old_reserved,
            old_states.update(start as int, ResolveState::Visiting),
            old_reserved,
            seq![start],
        ),
{
    let stack = seq![start];
    let states = old_states.update(start as int, ResolveState::Visiting);
    assert forall|k: int| 0 <= k < states.len() implies (#[trigger] states[k]) == old_states[k] || holds(stack, k) by {
        if k == start {
            assert(stack[0] == k);
        }
    }
}

/// A walk that goes one cell further changes the state and the
/// reservation of that cell and nothing else.
pub proof fn lemma_frame_descends(
    old_states: Seq<ResolveState>,
    old_reserved: Seq<Option<usize>>,
    intent: Seq<usize>,
    states: Seq<ResolveState>,
    reserved: Seq<Option<usize>>,
    stack: Seq<usize>,
    target: usize,
)
    requires
        walk_frame(old_states, old_reserved, states, reserved, stack),
        chain_ok(intent, states, stack),
        stack.len() >= 1,
        target < states.len(),
        states[target as int] == ResolveState::Unvisited,
    ensures
        walk_frame(
            old_states,
            old_reserved,
            states.update(target as int, ResolveState::Visiting),
            reserved.update(target as int, Some(stack.last())),
            stack.push(target),
        ),
{
    let states2 = states.update(target as int, ResolveState::Visiting);
    let reserved2 = reserved.update(target as int, Some(stack.last()));
    let stack2 = stack.push(target);
    assert(stack2[stack.len() as int] == target);
    if holds(stack, target as int) {
        let j = choose|j: int| 0 <= j < stack.len() && stack[j] == target;
        assert(states[stack[j] as int] == ResolveState::Visiting);
    }
    assert(states[target as int] == old_states[target as int]);
    assert forall|j: int| 0 <= j < stack2.len() implies old_states[(#[trigger] stack2[j]) as int]
        == ResolveState::Unvisited by {
        if j < stack.len() {
            assert(stack2[j] == stack[j]);
        }
    }
    assert forall|k: int| 0 <= k < states2.len() implies (#[trigger] states2[k]) == old_states[k] || holds(stack2, k) by {
        if k == target {
            assert(holds(stack2, k));
        } else if states[k] != old_states[k] {
            let j = choose|j: int| 0 <= j < stack.len() && stack[j] == k;
            assert(stack2[j] == k);
        }
    }
    assert forall|d: int| 0 <= d < reserved2.len() implies (#[trigger] reserved2[d]) == old_reserved[d] || holds_later(
        stack2,
        d,
    ) by {
        if d == target {
            assert(holds_later(stack2, d));
        } else if reserved[d] != old_reserved[d] {
            let j = choose|j: int| 1 <= j < stack.len() && stack[j] == d;
            assert(stack2[j] == d);
        }
    }
}

/// Once the last cell of the chain is taken, the chain is whole, states
/// have changed on it alone, and every reservation is held as the chain
/// calls for.
pub proof fn lemma_walk_ends(
    occ: Seq<bool>,
    intent: Seq<usize>,
    old_states: Seq<ResolveState>,
    old_reserved: Seq<Option<usize>>,
    states: Seq<ResolveState>,
    reserved: Seq<Option<usize>>,
    stack: Seq<usize>,
    value: ResolveState,
)
    requires
        ledger_ok(occ, intent, old_states, old_reserved),
        ledger_ok(occ, intent, states, reserved),
        descent_ok(intent, states, reserved, stack),
        walk_frame(old_states, old_reserved, states, reserved, stack),
        value is Resolved,
        intent[stack.last() as int] != stack.last() && reserved[intent[stack.last() as int] as int].is_none()
            ==> states[intent[stack.last() as int] as int] != ResolveState::Unvisited,
    ensures
        walk_done(
            old_states,
            old_reserved,
            intent,
            states.update(stack.last() as int, value),
            if intent[stack.last() as int] == stack.last() {
                reserved.update(stack.last() as int, Some(stack.last()))
            } else if reserved[intent[stack.last() as int] as int].is_some() {
                reserved
            } else {
                reserved.update(intent[stack.last() as int] as int, Some(stack.last()))
            },
            stack,
        ),
{
    let n = stack.len() as int;
    let cur = stack.last();
    let target = intent[cur as int];
    let states2 = states.update(cur as int, value);
    let reserved2 = if target == cur {
        reserved.update(cur as int, Some(cur))
    } else if reserved[target as int].is_some() {
        reserved
    } else {
        reserved.update(target as int, Some(cur))
    };
    assert(stack[n - 1] == cur);
    assert(states[cur as int] == ResolveState::Visiting);
    assert(target < states.len());
    // Where the chain stops.
    if target != cur {
        if reserved[target as int].is_some() {
            let holder = reserved[target as int]->0;
            assert(reservation_ok(occ, intent, states, holder as int, target as int));
            assert(holder != cur);
            assert(intent[holder as int] == intent[cur as int]);
            assert(holder == target);
            if holds(stack, target as int) {
                let j = choose|j: int| 0 <= j < n && stack[j] == target;
                if j < n - 1 {
                    assert(intent[stack[j] as int] != stack[j]);
                }
            }
            assert(!holds(stack, target as int));
            if states[target as int] == ResolveState::Visiting {
                let j = choose|j: int| 0 <= j < n && stack[j] == target;
            }
            assert(old_states[target as int] != ResolveState::Unvisited);
        } else {
            if holds(stack, target as int) {
                let j = choose|j: int| 0 <= j < n && stack[j] == target;
                if j > 0 {
                    assert(reserved[stack[j - 1 + 1] as int] == Some(stack[j - 1]));
                }
                assert(target == stack[0]);
            } else {
                assert(states[target as int] == old_states[target as int]);
            }
        }
    }
    assert(walked(old_states, intent, stack));
    assert forall|k: int| 0 <= k < states2.len() implies (#[trigger] states2[k]) == old_states[k] || holds(stack, k) by {
        if k == cur {
            assert(holds(stack, k));
        }
    }
    // No cell of the chain was reserved before the walk.
    assert forall|j: int| 0 <= j < n implies old_reserved[(#[trigger] stack[j]) as int].is_none() by {
        assert(old_states[stack[j] as int] == ResolveState::Unvisited);
    }
    assert forall|d: int| 0 <= d < reserved2.len() implies (#[trigger] reserved2[d]) == chain_reserved(
        old_reserved,
        intent,
        stack,
        d,
    ) by {
        lemma_chain_reservation(occ, intent, old_states, old_reserved, states, reserved, stack, d);
    }
}

/// The reservation of one cell once the last cell of the chain is taken.
proof fn lemma_chain_reservation(
    occ: Seq<bool>,
    intent: Seq<usize>,
    old_states: Seq<ResolveState>,
    old_reserved: Seq<Option<usize>>,
    states: Seq<ResolveState>,
    reserved: Seq<Option<usize>>,
    stack: Seq<usize>,
    d: int,
)
    requires
        ledger_ok(occ, intent, old_states, old_reserved),
        ledger_ok(occ, intent, states, reserved),
        descent_ok(intent, states, reserved, stack),
        walk_frame(old_states, old_reserved, states, reserved, stack),
        0 <= d < reserved.len(),
    ensures
        chain_reserved(old_reserved, intent, stack, d) == if intent[stack.last() as int] == stack.last() && d
            == stack.last() {
            Some(stack.last())
        } else if intent[stack.last() as int] != stack.last() && reserved[intent[stack.last() as int] as int].is_none()
            && d == intent[stack.last() as int] {
            Some(stack.last())
        } else {
            reserved[d]
        },
{
    let n = stack.len() as int;
    let cur = stack.last();
    let target = intent[cur as int];
    assert(stack[n - 1] == cur);
    assert(states[cur as int] == ResolveState::Visiting);
    assert(target < states.len());
    assert forall|j: int| 0 <= j < n implies old_reserved[(#[trigger] stack[j]) as int].is_none() by {
        assert(old_states[stack[j] as int] == ResolveState::Unvisited);
    }
    // A cell of the chain that stays is the last one.
    if holds(stack, d) && intent[d] == d {
        let j = choose|j: int| 0 <= j < n && stack[j] == d;
        if j < n - 1 {
            assert(intent[stack[j] as int] != stack[j]);
        }
        assert(d == cur);
    } else if old_reserved[d].is_none() && wanted_by(intent, stack, d) {
        let j = choose|j: int| 0 <= j < n && intent[stack[j] as int] == d;
        assert(stack[j] != d) by {
            if stack[j] == d {
                assert(holds(stack, d));
            }
        }
        if j < n - 1 {
            assert(intent[stack[j] as int] == stack[j + 1]);
            assert(reserved[stack[j + 1] as int] == Some(stack[j]));
            // Nothing overwrites the reservation of a cell inside the chain.
            if target != cur && d == target {
                assert(intent[cur as int] == intent[stack[j] as int]);
                assert(cur == stack[j]);
                assert(stack[j] != stack[n - 1]);
            }
            if target == cur && d == cur {
                assert(holds(stack, d));
            }
        } else {
            assert(d == target);
            assert(target != cur);
            if holds_later(stack, d) {
                let m = choose|m: int| 1 <= m < n && stack[m] == d;
                assert(reserved[stack[m - 1 + 1] as int] == Some(stack[m - 1]));
                assert(intent[stack[m - 1] as int] == stack[m - 1 + 1]);
                assert(intent[stack[m - 1] as int] != stack[m - 1]);
                assert(intent[stack[m - 1] as int] == intent[cur as int]);
                assert(stack[m - 1] == cur);
                assert(stack[m - 1] != stack[n - 1]);
            }
            assert(reserved[d] == old_reserved[d]);
        }
    } else {
        if target == cur && d == cur {
            assert(holds(stack, d));
        }
        if holds_later(stack, d) {
            let m = choose|m: int| 1 <= m < n && stack[m] == d;
            assert(intent[stack[m - 1] as int] == stack[m - 1 + 1]);
            assert(wanted_by(intent, stack, d));
            assert(old_reserved[stack[m] as int].is_none());
        }
        assert(reserved[d] == old_reserved[d]);
        if target != cur && reserved[target as int].is_none() && d == target {
            assert(intent[stack[n - 1] as int] == d);
            assert(wanted_by(intent, stack, d));
        }
    }
}

/// Settling a cell of the chain on the way back changes its state alone.
pub proof fn lemma_done_ascends(
    old_states: Seq<ResolveState>,
    old_reserved: Seq<Option<usize>>,
    intent: Seq<usize>,
    states: Seq<ResolveState>,
    reserved: Seq<Option<usize>>,
    chain: Seq<usize>,
    j: int,
    value: ResolveState,
)
    requires
        walk_done(old_states, old_reserved, intent, states, reserved, chain),
        0 <= j < chain.len(),
    ensures
        walk_done(old_states, old_reserved, intent, states.update(chain[j] as int, value), reserved, chain),
{
    let states2 = states.update(chain[j] as int, value);
    assert forall|k: int| 0 <= k < states2.len() implies (#[trigger] states2[k]) == old_states[k] || holds(chain, k) by {
        if k == chain[j] {
            assert(holds(chain, k));
        }
    }
}

/// A cell reached from a cell of the chain is a cell of the chain.
proof fn lemma_walk_stays_on_chain(
    old_states: Seq<ResolveState>,
    intent: Seq<usize>,
    chain: Seq<usize>,
    j: int,
    k: int,
    steps: nat,
)
    requires
        walked(old_states, intent, chain),
        0 <= j < chain.len(),
        on_walk_within(old_states, intent, chain[j] as int, k, steps),
    ensures
        holds(chain, k),
    decreases steps,
{
    if chain[j] == k {
    } else if j < chain.len() - 1 {
        assert(intent[chain[j] as int] == chain[j + 1]);
        lemma_walk_stays_on_chain(old_states, intent, chain, j + 1, k, (steps - 1) as nat);
    } else {
        let target = intent[chain[j] as int];
        assert(on_walk_within(old_states, intent, target as int, k, (steps - 1) as nat));
        assert(target == chain[0]);
        lemma_walk_stays_on_chain(old_states, intent, chain, 0, k, (steps - 1) as nat);
    }
}

/// A cell of the chain is reached from every cell of the chain before it.
proof fn lemma_chain_is_walked(old_states: Seq<ResolveState>, intent: Seq<usize>, chain: Seq<usize>, i: int, j: int)
    requires
        walked(old_states, intent, chain),
        0 <= i <= j < chain.len(),
    ensures
        on_walk_within(old_states, intent, chain[i] as int, chain[j] as int, (j - i) as nat),
    decreases j - i,
{
    if i < j {
        lemma_chain_is_walked(old_states, intent, chain, i + 1, j);
        assert(intent[chain[i] as int] == chain[i + 1]);
    }
}

/// The cells of a whole chain are the cells that lie on the walk from its
/// first cell.
pub proof fn lemma_walk_cells(old_states: Seq<ResolveState>, intent: Seq<usize>, chain: Seq<usize>)
    requires
        walked(old_states, intent, chain),
    ensures
        forall|k: int| #[trigger] on_walk(old_states, intent, chain[0] as int, k) <==> holds(chain, k),
{
    assert forall|k: int| #[trigger] on_walk(old_states, intent, chain[0] as int, k) <==> holds(chain, k) by {
        if on_walk(old_states, intent, chain[0] as int, k) {
            let steps = choose|steps: nat| on_walk_within(old_states, intent, chain[0] as int, k, steps);
            lemma_walk_stays_on_chain(old_states, intent, chain, 0, k, steps);
        }
        if holds(chain, k) {
            let j = choose|j: int| 0 <= j < chain.len() && chain[j] == k;
            lemma_chain_is_walked(old_states, intent, chain, 0, j);
        }
    }
}

/// What a finished walk has left, told by the cells that lie on it: they
/// are settled and no other state has changed, and a reservation has
/// changed only where a cell of the walk wanted the cell or stayed on it.
pub proof fn lemma_walk_outcome(
    occ: Seq<bool>,
    intent: Seq<usize>,
    old_states: Seq<ResolveState>,
    old_reserved: Seq<Option<usize>>,
    states: Seq<ResolveState>,
    reserved: Seq<Option<usize>>,
    chain: Seq<usize>,
)
    requires
        ledger_ok(occ, intent, old_states, old_reserved),
        ledger_ok(occ, intent, states, reserved),
        walk_done(old_states, old_reserved, intent, states, reserved, chain),
        forall|j: int| 0 <= j < chain.len() ==> states[(#[trigger] chain[j]) as int] is Resolved,
    ensures
        forall|k: int|
            0 <= k < states.len() ==> #[trigger] states[k] == state_after(occ, old_states, intent, chain[0] as int, k),
        forall|d: int|
            0 <= d < reserved.len() ==> #[trigger] reserved[d] == reserved_after(
                old_states,
                old_reserved,
                intent,
                chain[0] as int,
                d,
            ),
{
    let start = chain[0] as int;
    lemma_walk_cells(old_states, intent, chain);
    assert forall|k: int| 0 <= k < states.len() implies #[trigger] states[k] == state_after(
        occ,
        old_states,
        intent,
        start,
        k,
    ) by {
        if holds(chain, k) {
            let j = choose|j: int| 0 <= j < chain.len() && chain[j] == k;
            assert(states[chain[j] as int] is Resolved);
            assert(on_walk(old_states, intent, start, k));
        } else {
            assert(!on_walk(old_states, intent, start, k));
        }
    }
    assert forall|d: int| 0 <= d < reserved.len() implies #[trigger] reserved[d] == reserved_after(
        old_states,
        old_reserved,
        intent,
        start,
        d,
    ) by {
        assert(reserved[d] == chain_reserved(old_reserved, intent, chain, d));
        assert(on_walk(old_states, intent, start, d) <==> holds(chain, d));
        if wanted_on_walk(old_states, intent, start, d) {
            let k = choose|k: int| on_walk(old_states, intent, start, k) && intent[k] == d;
            assert(holds(chain, k));
            let j = choose|j: int| 0 <= j < chain.len() && chain[j] == k;
            assert(intent[chain[j] as int] == d);
            assert(wanted_by(intent, chain, d));
        }
        if wanted_by(intent, chain, d) {
            let j = choose|j: int| 0 <= j < chain.len() && intent[chain[j] as int] == d;
            assert(holds(chain, chain[j] as int));
            assert(on_walk(old_states, intent, start, chain[j] as int));
            assert(wanted_on_walk(old_states, intent, start, d));
            if !(holds(chain, d) && intent[d] == d) {
                let k = choose|k: int| on_walk(old_states, intent, start, k) && intent[k] == d;
                assert(holds(chain, k));
                assert(k != d);
                assert(chain[j] != d);
                assert(intent[k] == intent[chain[j] as int]);
                assert(k == chain[j]);
            }
        }
    }
}

/// A walk from a cell whose agent stays, or wants a cell that is taken,
/// comes to no other cell.
pub proof fn lemma_walk_short(
    occ: Seq<bool>,
    states: Seq<ResolveState>,
    reserved: Seq<Option<usize>>,
    intent: Seq<usize>,
    start: int,
)
    requires
        ledger_ok(occ, intent, states, reserved),
        0 <= start < states.len(),
        states[start] == ResolveState::Unvisited,
        intent[start] == start || reserved[intent[start] as int].is_some(),
    ensures
        forall|k: int| #[trigger] on_walk(states, intent, start, k) <==> k == start,
        intent[start] != start ==> !can_move(occ, intent, start),
{
    assert forall|k: int| #[trigger] on_walk(states, intent, start, k) <==> k == start by {
        if on_walk(states, intent, start, k) && k != start {
            let steps = choose|steps: nat| on_walk_within(states, intent, start, k, steps);
            assert(on_walk_within(states, intent, intent[start] as int, k, (steps - 1) as nat));
            assert(reserved[intent[start] as int].is_some());
        }
        if k == start {
            assert(on_walk_within(states, intent, start, k, 0));
        }
    }
    if intent[start] != start {
        let target = intent[start] as int;
        let holder = reserved[target]->0;
        assert(reservation_ok(occ, intent, states, holder as int, target));
        assert(holder != start);
        assert(intent[holder as int] == intent[start]);
        assert(holder == target);
        assert(blocked_at(occ, intent, target, 0));
        assert(blocked_at(occ, intent, start, 1));
    }
}

/// A walk does not set out from a cell that has been looked at.
pub proof fn lemma_no_walk(states: Seq<ResolveState>, intent: Seq<usize>, start: int)
    requires
        0 <= start < states.len(),
        states[start] != ResolveState::Unvisited,
    ensures
        forall|k: int| !#[trigger] on_walk(states, intent, start, k),
        forall|d: int| !#[trigger] wanted_on_walk(states, intent, start, d),
{
    assert forall|k: int| !#[trigger] on_walk(states, intent, start, k) by {
        assert forall|steps: nat| !on_walk_within(states, intent, start, k, steps) by {}
    }
}

} // verus!
