use vstd::prelude::*;
use crate::resolution::arrival;
use crate::resolution::blocked;
use crate::resolution::blocked_at;
use crate::resolution::can_move;
use crate::resolution::intents_tidy;
use crate::resolution::is_ring;
use crate::resolution::lands;
use crate::resolution::lemma_arrival_unique;
use crate::resolution::lemma_blocked_through;
use crate::resolution::lemma_ring_rotates;
use crate::resolution::lemma_vacant_target;
use crate::resolution::single_claimant;

verus! {

/// How far the walk has come with a cell.
#[derive(Clone, Copy, Debug, PartialEq, Eq, Structural)]
pub enum ResolveState {
    /// Not looked at yet.
    Unvisited,
    /// On the chain that is being followed.
    Visiting,
    /// No agent sits here: an incoming mover is always accepted.
    Empty,
    /// Settled: `true` when the agent may take the cell it wants.
    Resolved(bool),
}

/// The number of cells that the walk has not looked at yet.
pub open spec fn unvisited_count(states: Seq<ResolveState>) -> nat
    decreases states.len(),
{
    if states.len() == 0 {
        0
    } else {
        unvisited_count(states.drop_last()) + if states.last() == ResolveState::Unvisited {
            1nat
        } else {
            0nat
        }
    }
}

/// Overwriting one state changes the number of unvisited cells by what the
/// old and the new state contribute.
pub proof fn lemma_unvisited_update(states: Seq<ResolveState>, i: int, value: ResolveState)
    requires
        0 <= i < states.len(),
    ensures
        unvisited_count(states.update(i, value)) + (if states[i] == ResolveState::Unvisited {
            1nat
        } else {
            0nat
        }) == unvisited_count(states) + (if value == ResolveState::Unvisited {
            1nat
        } else {
            0nat
        }),
    decreases states.len(),
{
    if i == states.len() - 1 {
        assert(states.update(i, value).drop_last() =~= states.drop_last());
    } else {
        assert(states.update(i, value).drop_last() =~= states.drop_last().update(i, value));
        lemma_unvisited_update(states.drop_last(), i, value);
    }
}

/// The agent on cell `s` holds the reservation of cell `d` rightly: it sits
/// on `s`, wants `d`, and the walk has come to it.
pub open spec fn reservation_ok(
    occ: Seq<bool>,
    intent: Seq<usize>,
    states: Seq<ResolveState>,
    s: int,
    d: int,
) -> bool {
    &&& 0 <= s < occ.len()
    &&& occ[s]
    &&& intent[s] == d
    &&& (states[s] is Resolved || states[s] == ResolveState::Visiting)
}

/// What holds of the walk's records at every moment.
pub open spec fn ledger_ok(
    occ: Seq<bool>,
    intent: Seq<usize>,
    states: Seq<ResolveState>,
    reserved: Seq<Option<usize>>,
) -> bool {
    &&& states.len() == occ.len()
    &&& reserved.len() == occ.len()
    &&& intents_tidy(occ, intent)
    &&& single_claimant(intent)
    &&& forall|i: int| 0 <= i < occ.len() ==> (!occ[i] <==> #[trigger] states[i] == ResolveState::Empty)
    &&& forall|i: int|
        0 <= i < occ.len() ==> ((#[trigger] states[i]) matches ResolveState::Resolved(b) ==> b == can_move(
            occ,
            intent,
            i,
        ))
    &&& forall|d: int|
        0 <= d < occ.len() ==> ((#[trigger] reserved[d]) matches Some(s) ==> reservation_ok(
            occ,
            intent,
            states,
            s as int,
            d,
        ))
    &&& forall|s: int|
        0 <= s < occ.len() && (#[trigger] states[s]) is Resolved && can_move(occ, intent, s) ==> reserved[intent[s] as int]
            == Some(s as usize)
    &&& forall|d: int| 0 <= d < occ.len() && (#[trigger] reserved[d]).is_some() ==> states[d] != ResolveState::Unvisited
}

/// The chain that is being followed: its cells are the ones marked as
/// visited, and each wants the cell of the next.
pub open spec fn chain_ok(intent: Seq<usize>, states: Seq<ResolveState>, stack: Seq<usize>) -> bool {
    &&& forall|j: int|
        0 <= j < stack.len() ==> (#[trigger] stack[j]) < states.len() && states[stack[j] as int] == ResolveState::Visiting
    &&& forall|j: int, k: int| 0 <= j < k < stack.len() ==> #[trigger] stack[j] != #[trigger] stack[k]
    &&& forall|i: int|
        0 <= i < states.len() && #[trigger] states[i] == ResolveState::Visiting ==> exists|j: int|
            0 <= j < stack.len() && stack[j] == i
    &&& forall|j: int|
        0 <= j < stack.len() - 1 ==> intent[(#[trigger] stack[j]) as int] == stack[j + 1] && intent[stack[j] as int]
            != stack[j]
}

/// While the walk goes down a chain: every cell but the last has taken the
/// cell of the next, the last has taken nothing yet, and nobody has taken
/// the first.
pub open spec fn descent_ok(
    intent: Seq<usize>,
    states: Seq<ResolveState>,
    reserved: Seq<Option<usize>>,
    stack: Seq<usize>,
) -> bool {
    &&& stack.len() >= 1
    &&& chain_ok(intent, states, stack)
    &&& forall|j: int| 0 <= j < stack.len() - 1 ==> reserved[stack[j + 1] as int] == Some(#[trigger] stack[j])
    &&& reserved[stack[0] as int].is_none()
    &&& forall|d: int| 0 <= d < reserved.len() ==> (#[trigger] reserved[d]) != Some(stack.last())
}

/// While the walk comes back up a chain: the cell settled last is `above`,
/// and `verdict` says whether its agent leaves it.
pub open spec fn ascent_ok(
    occ: Seq<bool>,
    intent: Seq<usize>,
    states: Seq<ResolveState>,
    reserved: Seq<Option<usize>>,
    stack: Seq<usize>,
    above: usize,
    verdict: bool,
) -> bool {
    &&& chain_ok(intent, states, stack)
    &&& verdict ==> forall|j: int|
        0 <= j < stack.len() - 1 ==> reserved[stack[j + 1] as int] == Some(#[trigger] stack[j])
    &&& stack.len() > 0 ==> {
        &&& intent[stack.last() as int] == above
        &&& stack.last() != above
        &&& verdict ==> reserved[above as int] == Some(stack.last())
    }
    &&& above < occ.len()
    &&& occ[above as int]
    &&& states[above as int] is Resolved
    &&& verdict == (intent[above as int] != above && !blocked(occ, intent, above as int))
}

/// Settling the agent on top of the chain leaves a chain of the others.
proof fn lemma_chain_shrinks(intent: Seq<usize>, states: Seq<ResolveState>, stack: Seq<usize>, value: ResolveState)
    requires
        stack.len() > 0,
        chain_ok(intent, states, stack),
        value != ResolveState::Visiting,
    ensures
        chain_ok(intent, states.update(stack.last() as int, value), stack.drop_last()),
{
    let top = stack.last();
    let states2 = states.update(top as int, value);
    let stack2 = stack.drop_last();
    assert forall|j: int| 0 <= j < stack2.len() implies (#[trigger] stack2[j]) < states2.len() && states2[stack2[j] as int]
        == ResolveState::Visiting by {
        assert(stack[j] != stack[stack.len() - 1]);
    }
    assert forall|i: int| 0 <= i < states2.len() && #[trigger] states2[i] == ResolveState::Visiting implies exists|j: int|
        0 <= j < stack2.len() && stack2[j] == i by {
        assert(states[i] == ResolveState::Visiting);
        let j = choose|j: int| 0 <= j < stack.len() && stack[j] == i;
        assert(stack2[j] == i);
    }
    assert forall|j: int| 0 <= j < stack2.len() - 1 implies intent[(#[trigger] stack2[j]) as int] == stack2[j + 1]
        && intent[stack2[j] as int] != stack2[j] by {
        assert(stack[j] == stack2[j]);
    }
}

/// A walk sets out from a cell that has not been looked at.
pub proof fn lemma_walk_starts(
    occ: Seq<bool>,
    intent: Seq<usize>,
    states: Seq<ResolveState>,
    reserved: Seq<Option<usize>>,
    start: usize,
)
    requires
        ledger_ok(occ, intent, states, reserved),
        forall|i: int| 0 <= i < states.len() ==> #[trigger] states[i] != ResolveState::Visiting,
        start < states.len(),
        states[start as int] == ResolveState::Unvisited,
    ensures
        ledger_ok(occ, intent, states.update(start as int, ResolveState::Visiting), reserved),
        descent_ok(intent, states.update(start as int, ResolveState::Visiting), reserved, seq![start]),
        unvisited_count(states.update(start as int, ResolveState::Visiting)) < unvisited_count(states),
{
    let states2 = states.update(start as int, ResolveState::Visiting);
    let stack = seq![start];
    lemma_unvisited_update(states, start as int, ResolveState::Visiting);
    assert forall|s: int|
        0 <= s < occ.len() && (#[trigger] states2[s]) is Resolved && can_move(occ, intent, s) implies reserved[intent[s] as int]
            == Some(s as usize) by {
        assert(states[s] is Resolved);
    }
    assert forall|d: int| 0 <= d < occ.len() implies ((#[trigger] reserved[d]) matches Some(s) ==> reservation_ok(
        occ,
        intent,
        states2,
        s as int,
        d,
    )) by {
        if reserved[d] is Some {
            assert(reservation_ok(occ, intent, states, reserved[d]->0 as int, d));
        }
    }
    assert forall|i: int| 0 <= i < states2.len() && #[trigger] states2[i] == ResolveState::Visiting implies exists|j: int|
        0 <= j < stack.len() && stack[j] == i by {
        assert(i == start);
        assert(stack[0] == i);
    }
    assert forall|d: int| 0 <= d < reserved.len() implies (#[trigger] reserved[d]) != Some(stack.last()) by {
        if reserved[d] == Some(start) {
            assert(reservation_ok(occ, intent, states, start as int, d));
        }
    }
}

/// The agent on top of the chain wants its own cell.
pub proof fn lemma_walk_stays(
    occ: Seq<bool>,
    intent: Seq<usize>,
    states: Seq<ResolveState>,
    reserved: Seq<Option<usize>>,
    stack: Seq<usize>,
)
    requires
        ledger_ok(occ, intent, states, reserved),
        descent_ok(intent, states, reserved, stack),
        intent[stack.last() as int] == stack.last(),
    ensures
        ledger_ok(
            occ,
            intent,
            states.update(stack.last() as int, ResolveState::Resolved(true)),
            reserved.update(stack.last() as int, Some(stack.last())),
        ),
        ascent_ok(
            occ,
            intent,
            states.update(stack.last() as int, ResolveState::Resolved(true)),
            reserved.update(stack.last() as int, Some(stack.last())),
            stack.drop_last(),
            stack.last(),
            false,
        ),
{
    let cur = stack.last();
    let states2 = states.update(cur as int, ResolveState::Resolved(true));
    let reserved2 = reserved.update(cur as int, Some(cur));
    assert(stack[stack.len() - 1] == cur);
    assert(states[cur as int] == ResolveState::Visiting);
    assert(blocked_at(occ, intent, cur as int, 0));
    lemma_chain_shrinks(intent, states, stack, ResolveState::Resolved(true));
    if stack.len() >= 2 {
        assert(reserved[stack[stack.len() - 2 + 1] as int] == Some(stack[stack.len() - 2]));
        assert(states[stack[stack.len() - 2] as int] == ResolveState::Visiting);
    }
    assert forall|s: int|
        0 <= s < occ.len() && (#[trigger] states2[s]) is Resolved && can_move(occ, intent, s) implies reserved2[intent[s] as int]
            == Some(s as usize) by {
        if s != cur {
            assert(states[s] is Resolved);
            assert(reserved[intent[s] as int] == Some(s as usize));
        }
    }
    assert forall|d: int| 0 <= d < occ.len() implies ((#[trigger] reserved2[d]) matches Some(s) ==> reservation_ok(
        occ,
        intent,
        states2,
        s as int,
        d,
    )) by {
        if d != cur {
            assert(reserved2[d] == reserved[d]);
        }
    }
    assert forall|d: int| 0 <= d < occ.len() && (#[trigger] reserved2[d]).is_some() implies states2[d]
        != ResolveState::Unvisited by {
        if d != cur {
            assert(reserved2[d] == reserved[d]);
        }
    }
    if stack.len() >= 2 {
        assert(intent[stack[stack.len() - 2] as int] == stack[stack.len() - 2 + 1]);
    }
}

/// The cell that the agent on top of the chain wants is already taken.
pub proof fn lemma_walk_blocked(
    occ: Seq<bool>,
    intent: Seq<usize>,
    states: Seq<ResolveState>,
    reserved: Seq<Option<usize>>,
    stack: Seq<usize>,
)
    requires
        ledger_ok(occ, intent, states, reserved),
        descent_ok(intent, states, reserved, stack),
        intent[stack.last() as int] != stack.last(),
        reserved[intent[stack.last() as int] as int].is_some(),
    ensures
        ledger_ok(occ, intent, states.update(stack.last() as int, ResolveState::Resolved(false)), reserved),
        ascent_ok(
            occ,
            intent,
            states.update(stack.last() as int, ResolveState::Resolved(false)),
            reserved,
            stack.drop_last(),
            stack.last(),
            false,
        ),
{
    let cur = stack.last();
    let target = intent[cur as int];
    let states2 = states.update(cur as int, ResolveState::Resolved(false));
    assert(stack[stack.len() - 1] == cur);
    assert(states[cur as int] == ResolveState::Visiting);
    let holder = reserved[target as int]->0;
    assert(reservation_ok(occ, intent, states, holder as int, target as int));
    assert(holder != cur);
    assert(intent[holder as int] == intent[cur as int]);
    assert(holder == target);
    assert(blocked_at(occ, intent, target as int, 0));
    assert(blocked_at(occ, intent, cur as int, 1));
    lemma_chain_shrinks(intent, states, stack, ResolveState::Resolved(false));
    assert forall|s: int|
        0 <= s < occ.len() && (#[trigger] states2[s]) is Resolved && can_move(occ, intent, s) implies reserved[intent[s] as int]
            == Some(s as usize) by {
        if s != cur {
            assert(states[s] is Resolved);
        }
    }
    assert forall|d: int| 0 <= d < occ.len() implies ((#[trigger] reserved[d]) matches Some(s) ==> reservation_ok(
        occ,
        intent,
        states2,
        s as int,
        d,
    )) by {
        if reserved[d] is Some {
            assert(reservation_ok(occ, intent, states, reserved[d]->0 as int, d));
        }
    }
    if stack.len() >= 2 {
        assert(intent[stack[stack.len() - 2] as int] == stack[stack.len() - 2 + 1]);
    }
}

/// The agent on top of the chain takes its target, and whether it leaves is
/// known: the target is vacant (`verdict` is `true`), or its occupant is
/// settled (`verdict` says whether that occupant leaves), or its occupant is
/// the first of the chain, which closes into a ring (`verdict` is `true`).
pub proof fn lemma_walk_takes(
    occ: Seq<bool>,
    intent: Seq<usize>,
    states: Seq<ResolveState>,
    reserved: Seq<Option<usize>>,
    stack: Seq<usize>,
    verdict: bool,
)
    requires
        ledger_ok(occ, intent, states, reserved),
        descent_ok(intent, states, reserved, stack),
        intent[stack.last() as int] != stack.last(),
        reserved[intent[stack.last() as int] as int].is_none(),
        match states[intent[stack.last() as int] as int] {
            ResolveState::Empty => verdict,
            ResolveState::Visiting => verdict,
            ResolveState::Resolved(b) => verdict == (b && intent[intent[stack.last() as int] as int] != intent[stack.last() as int]),
            ResolveState::Unvisited => false,
        },
    ensures
        ledger_ok(
            occ,
            intent,
            states.update(stack.last() as int, ResolveState::Resolved(verdict)),
            reserved.update(intent[stack.last() as int] as int, Some(stack.last())),
        ),
        ascent_ok(
            occ,
            intent,
            states.update(stack.last() as int, ResolveState::Resolved(verdict)),
            reserved.update(intent[stack.last() as int] as int, Some(stack.last())),
            stack.drop_last(),
            stack.last(),
            verdict,
        ),
{
    let cur = stack.last();
    let target = intent[cur as int];
    let states2 = states.update(cur as int, ResolveState::Resolved(verdict));
    let reserved2 = reserved.update(target as int, Some(cur));
    let stack2 = stack.drop_last();
    assert(stack[stack.len() - 1] == cur);
    assert(states[cur as int] == ResolveState::Visiting);
    assert(target < occ.len());
    // Whether the agent on `cur` is blocked.
    match states[target as int] {
        ResolveState::Empty => {
            lemma_vacant_target(occ, intent, cur as int);
        },
        ResolveState::Visiting => {
            let j = choose|j: int| 0 <= j < stack.len() && stack[j] == target;
            if j > 0 {
                assert(reserved[stack[j - 1 + 1] as int] == Some(stack[j - 1]));
            }
            assert(j == 0);
            assert(is_ring(intent, stack)) by {
                assert forall|k: int| 0 <= k < stack.len() implies intent[(#[trigger] stack[k]) as int] != stack[k] by {
                    if k < stack.len() - 1 {
                    }
                }
            }
            lemma_ring_rotates(occ, intent, stack);
            assert(!blocked(occ, intent, stack[stack.len() - 1] as int));
        },
        ResolveState::Resolved(b) => {
            assert(b == can_move(occ, intent, target as int));
            if intent[target as int] == target {
                assert(can_move(occ, intent, target as int));
                assert(reserved[intent[target as int] as int] == Some(target));
            }
            lemma_blocked_through(occ, intent, cur as int);
        },
        ResolveState::Unvisited => {},
    }
    assert(verdict == !blocked(occ, intent, cur as int));
    assert(target != cur);
    assert(states2[target as int] == states[target as int]);
    lemma_chain_shrinks(intent, states, stack, ResolveState::Resolved(verdict));
    assert forall|s: int|
        0 <= s < occ.len() && (#[trigger] states2[s]) is Resolved && can_move(occ, intent, s) implies reserved2[intent[s] as int]
            == Some(s as usize) by {
        if s != cur {
            assert(states[s] is Resolved);
            assert(reserved[intent[s] as int] == Some(s as usize));
        }
    }
    assert forall|d: int| 0 <= d < occ.len() implies ((#[trigger] reserved2[d]) matches Some(s) ==> reservation_ok(
        occ,
        intent,
        states2,
        s as int,
        d,
    )) by {
        if d != target {
            assert(reserved2[d] == reserved[d]);
            if reserved[d] is Some {
                assert(reservation_ok(occ, intent, states, reserved[d]->0 as int, d));
            }
        }
    }
    assert forall|d: int| 0 <= d < occ.len() && (#[trigger] reserved2[d]).is_some() implies states2[d]
        != ResolveState::Unvisited by {
        if d != target {
            assert(reserved2[d] == reserved[d]);
        }
    }
    if verdict {
        assert forall|j: int| 0 <= j < stack2.len() - 1 implies reserved2[stack2[j + 1] as int] == Some(
            #[trigger] stack2[j],
        ) by {
            assert(stack[j] == stack2[j]);
            assert(reserved[stack[j + 1] as int] == Some(stack[j]));
        }
    }
    if stack.len() >= 2 {
        assert(intent[stack[stack.len() - 2] as int] == stack[stack.len() - 2 + 1]);
        assert(reserved[stack[stack.len() - 2 + 1] as int] == Some(stack[stack.len() - 2]));
    }
}

/// The agent on top of the chain takes its target, whose occupant the walk
/// has not looked at: the chain grows by that occupant.
pub proof fn lemma_walk_descends(
    occ: Seq<bool>,
    intent: Seq<usize>,
    states: Seq<ResolveState>,
    reserved: Seq<Option<usize>>,
    stack: Seq<usize>,
)
    requires
        ledger_ok(occ, intent, states, reserved),
        descent_ok(intent, states, reserved, stack),
        intent[stack.last() as int] != stack.last(),
        reserved[intent[stack.last() as int] as int].is_none(),
        states[intent[stack.last() as int] as int] == ResolveState::Unvisited,
    ensures
        ledger_ok(
            occ,
            intent,
            states.update(intent[stack.last() as int] as int, ResolveState::Visiting),
            reserved.update(intent[stack.last() as int] as int, Some(stack.last())),
        ),
        descent_ok(
            intent,
            states.update(intent[stack.last() as int] as int, ResolveState::Visiting),
            reserved.update(intent[stack.last() as int] as int, Some(stack.last())),
            stack.push(intent[stack.last() as int]),
        ),
        unvisited_count(states.update(intent[stack.last() as int] as int, ResolveState::Visiting)) < unvisited_count(
            states,
        ),
{
    let cur = stack.last();
    let target = intent[cur as int];
    let states2 = states.update(target as int, ResolveState::Visiting);
    let reserved2 = reserved.update(target as int, Some(cur));
    let stack2 = stack.push(target);
    assert(stack[stack.len() - 1] == cur);
    assert(states[cur as int] == ResolveState::Visiting);
    assert(target < occ.len());
    lemma_unvisited_update(states, target as int, ResolveState::Visiting);
    assert forall|s: int|
        0 <= s < occ.len() && (#[trigger] states2[s]) is Resolved && can_move(occ, intent, s) implies reserved2[intent[s] as int]
            == Some(s as usize) by {
        assert(states[s] is Resolved);
        assert(reserved[intent[s] as int] == Some(s as usize));
    }
    assert forall|d: int| 0 <= d < occ.len() implies ((#[trigger] reserved2[d]) matches Some(s) ==> reservation_ok(
        occ,
        intent,
        states2,
        s as int,
        d,
    )) by {
        if d != target {
            assert(reserved2[d] == reserved[d]);
            if reserved[d] is Some {
                assert(reservation_ok(occ, intent, states, reserved[d]->0 as int, d));
            }
        }
    }
    assert forall|d: int| 0 <= d < occ.len() && (#[trigger] reserved2[d]).is_some() implies states2[d]
        != ResolveState::Unvisited by {
        if d != target {
            assert(reserved2[d] == reserved[d]);
        }
    }
    assert(chain_ok(intent, states2, stack2)) by {
        assert forall|j: int| 0 <= j < stack2.len() implies (#[trigger] stack2[j]) < states2.len() && states2[stack2[j] as int]
            == ResolveState::Visiting by {
            if j < stack.len() {
                assert(stack2[j] == stack[j]);
            }
        }
        assert forall|j: int, k: int| 0 <= j < k < stack2.len() implies #[trigger] stack2[j] != #[trigger] stack2[k] by {
            assert(stack2[j] == stack[j]);
            if k < stack.len() {
                assert(stack2[k] == stack[k]);
            }
        }
        assert forall|i: int| 0 <= i < states2.len() && #[trigger] states2[i] == ResolveState::Visiting implies exists|j: int|
            0 <= j < stack2.len() && stack2[j] == i by {
            if i == target {
                assert(stack2[stack.len() as int] == i);
            } else {
                assert(states[i] == ResolveState::Visiting);
                let j = choose|j: int| 0 <= j < stack.len() && stack[j] == i;
                assert(stack2[j] == i);
            }
        }
        assert forall|j: int| 0 <= j < stack2.len() - 1 implies intent[(#[trigger] stack2[j]) as int] == stack2[j + 1]
            && intent[stack2[j] as int] != stack2[j] by {
            assert(stack2[j] == stack[j]);
            if j < stack.len() - 1 {
                assert(stack2[j + 1] == stack[j + 1]);
            }
        }
    }
    assert forall|j: int| 0 <= j < stack2.len() - 1 implies reserved2[stack2[j + 1] as int] == Some(#[trigger] stack2[j]) by {
        assert(stack2[j] == stack[j]);
        if j < stack.len() - 1 {
            assert(stack2[j + 1] == stack[j + 1]);
            assert(reserved[stack[j + 1] as int] == Some(stack[j]));
        }
    }
    assert(stack2[0] == stack[0]);
    assert forall|d: int| 0 <= d < reserved2.len() implies (#[trigger] reserved2[d]) != Some(stack2.last()) by {
        if d != target {
            assert(reserved2[d] == reserved[d]);
            if reserved[d] == Some(target) {
                assert(reservation_ok(occ, intent, states, target as int, d));
            }
        }
    }
}

/// The agent below the one settled last is settled in turn: it leaves
/// exactly when the one in front of it leaves.
pub proof fn lemma_walk_ascends(
    occ: Seq<bool>,
    intent: Seq<usize>,
    states: Seq<ResolveState>,
    reserved: Seq<Option<usize>>,
    stack: Seq<usize>,
    above: usize,
    verdict: bool,
)
    requires
        ledger_ok(occ, intent, states, reserved),
        ascent_ok(occ, intent, states, reserved, stack, above, verdict),
        stack.len() > 0,
    ensures
        ledger_ok(occ, intent, states.update(stack.last() as int, ResolveState::Resolved(verdict)), reserved),
        ascent_ok(
            occ,
            intent,
            states.update(stack.last() as int, ResolveState::Resolved(verdict)),
            reserved,
            stack.drop_last(),
            stack.last(),
            verdict,
        ),
{
    let cur = stack.last();
    let states2 = states.update(cur as int, ResolveState::Resolved(verdict));
    let stack2 = stack.drop_last();
    assert(stack[stack.len() - 1] == cur);
    assert(states[cur as int] == ResolveState::Visiting);
    lemma_blocked_through(occ, intent, cur as int);
    if intent[above as int] == above {
        assert(blocked_at(occ, intent, above as int, 0));
    }
    assert(verdict == !blocked(occ, intent, cur as int));
    lemma_chain_shrinks(intent, states, stack, ResolveState::Resolved(verdict));
    assert forall|s: int|
        0 <= s < occ.len() && (#[trigger] states2[s]) is Resolved && can_move(occ, intent, s) implies reserved[intent[s] as int]
            == Some(s as usize) by {
        if s != cur {
            assert(states[s] is Resolved);
        }
    }
    assert forall|d: int| 0 <= d < occ.len() implies ((#[trigger] reserved[d]) matches Some(s) ==> reservation_ok(
        occ,
        intent,
        states2,
        s as int,
        d,
    )) by {
        if reserved[d] is Some {
            assert(reservation_ok(occ, intent, states, reserved[d]->0 as int, d));
        }
    }
    if verdict {
        assert forall|j: int| 0 <= j < stack2.len() - 1 implies reserved[stack2[j + 1] as int] == Some(
            #[trigger] stack2[j],
        ) by {
            assert(stack[j] == stack2[j]);
        }
    }
    if stack.len() >= 2 {
        assert(intent[stack[stack.len() - 2] as int] == stack[stack.len() - 2 + 1]);
        if verdict {
            assert(reserved[stack[stack.len() - 2 + 1] as int] == Some(stack[stack.len() - 2]));
        }
    }
}

/// Where the agent that ends the tick on cell `d` comes from, read off the
/// records of a finished walk: the holder of the reservation where the cell
/// was vacant or its agent got its way, and the cell itself where its agent
/// was held back.
pub open spec fn settled_source(
    occ: Seq<bool>,
    states: Seq<ResolveState>,
    reserved: Seq<Option<usize>>,
    d: int,
) -> Option<int> {
    if !occ[d] || states[d] == ResolveState::Resolved(true) {
        match reserved[d] {
            Some(s) => Some(s as int),
            None => None,
        }
    } else {
        Some(d)
    }
}

/// Once every agent is settled, the records name for every cell the agent
/// that ends the tick on it.
pub proof fn lemma_settled_source(
    occ: Seq<bool>,
    intent: Seq<usize>,
    states: Seq<ResolveState>,
    reserved: Seq<Option<usize>>,
    d: int,
)
    requires
        ledger_ok(occ, intent, states, reserved),
        forall|i: int| 0 <= i < states.len() ==> #[trigger] states[i] != ResolveState::Visiting,
        forall|i: int| 0 <= i < states.len() ==> #[trigger] states[i] != ResolveState::Unvisited,
        0 <= d < occ.len(),
    ensures
        arrival(occ, intent, d) == settled_source(occ, states, reserved, d),
        settled_source(occ, states, reserved, d) matches Some(s) ==> 0 <= s < occ.len() && occ[s],
{
    if !occ[d] || states[d] == ResolveState::Resolved(true) {
        match reserved[d] {
            Some(s) => {
                assert(reservation_ok(occ, intent, states, s as int, d));
                if !occ[d] {
                    lemma_vacant_target(occ, intent, s as int);
                } else if s != d {
                    assert(can_move(occ, intent, d));
                    if intent[d] == d {
                        assert(reserved[intent[d] as int] == Some(d as usize));
                    }
                    lemma_blocked_through(occ, intent, s as int);
                } else {
                    assert(blocked_at(occ, intent, d, 0));
                }
                assert(lands(occ, intent, s as int, d));
                lemma_arrival_unique(occ, intent, s as int, d);
            },
            None => {
                assert forall|s: int| !lands(occ, intent, s, d) by {
                    if lands(occ, intent, s, d) {
                        assert(states[s] is Resolved);
                        if blocked(occ, intent, s) {
                            assert(s == d);
                            assert(can_move(occ, intent, d));
                            assert(reserved[intent[d] as int] == Some(d as usize));
                        } else {
                            assert(can_move(occ, intent, s));
                            assert(reserved[intent[s] as int] == Some(s as usize));
                        }
                    }
                }
            },
        }
    } else {
        assert(states[d] is Resolved);
        assert(!can_move(occ, intent, d));
        assert(lands(occ, intent, d, d));
        lemma_arrival_unique(occ, intent, d, d);
    }
}

} // verus!
