use vstd::prelude::*;
use vstd::arithmetic::div_mod::lemma_fundamental_div_mod_converse;
use crate::resolution::intents_tidy;
use crate::resolution::single_claimant;

verus! {

/// A claim holds a source index in its low 32 bits, so a grid that takes part
/// in bidding has at most this many cells.
pub const CLAIM_SOURCE_LIMIT: u64 = 0x1_0000_0000;

/// The 64-bit word that stands for a bid: the priority in the high half, the
/// bidder's flat index in the low half.
pub open spec fn bid_value(priority: u32, source: int) -> int {
    priority as int * 0x1_0000_0000 + source
}

/// The flat index that a claim word names.
pub open spec fn claim_source(claim: u64) -> int {
    claim as int % 0x1_0000_0000
}

/// Packs a bid.  Bids order by priority first and by source index second.
pub fn pack_bid(priority: u32, source: usize) -> (bid: u64)
    requires
        source < CLAIM_SOURCE_LIMIT,
    ensures
        bid == bid_value(priority, source as int),
        claim_source(bid) == source,
{
    let high: u64 = priority as u64;
    let low: u64 = source as u64;
    assert((high << 32) | low == high * 0x1_0000_0000 + low) by (bit_vector)
        requires
            high < 0x1_0000_0000,
            low < 0x1_0000_0000,
    ;
    proof {
        lemma_fundamental_div_mod_converse(high * 0x1_0000_0000 + low, 0x1_0000_0000, high as int, low as int);
    }
    (high << 32) | low
}

/// The flat index of the bidder that a claim word names.
pub fn bid_source(claim: u64) -> (source: usize)
    ensures
        source == claim_source(claim),
{
    assert(claim & 0xFFFF_FFFF == claim % 0x1_0000_0000) by (bit_vector);
    (claim & 0xFFFF_FFFF) as usize
}

/// Raises the claim on `target` to the bid of `source` unless a bid at least
/// as high is already recorded there.
pub fn place_bid(claims: &mut Vec<u64>, target: usize, priority: u32, source: usize)
    requires
        target < old(claims)@.len(),
        source < CLAIM_SOURCE_LIMIT,
    ensures
        final(claims)@ == old(claims)@.update(
            target as int,
            if old(claims)@[target as int] >= bid_value(priority, source as int) {
                old(claims)@[target as int]
            } else {
                bid_value(priority, source as int) as u64
            },
        ),
{
    let bid: u64 = pack_bid(priority, source);
    if claims[target] < bid {
        claims[target] = bid;
    }
}

/// The agent on cell `i` asked for the other cell `t`.
pub open spec fn contends(proposals: Seq<usize>, i: int, t: int) -> bool {
    &&& 0 <= i < proposals.len()
    &&& proposals[i] == t
    &&& i != t
}

/// Some agent among the first `upto` asked for cell `t`.
pub open spec fn contended(proposals: Seq<usize>, upto: int, t: int) -> bool {
    exists|i: int| i < upto && contends(proposals, i, t)
}

/// The claims record the bids of the first `upto` cells: an uncontended cell
/// has a zero claim, and the claim on a contended cell names one of the
/// agents that asked for it.
pub open spec fn claims_settled(proposals: Seq<usize>, claims: Seq<u64>, upto: int) -> bool {
    &&& claims.len() == proposals.len()
    &&& forall|t: int|
        0 <= t < claims.len() ==> if contended(proposals, upto, t) {
            claim_source(#[trigger] claims[t]) < upto && contends(proposals, claim_source(claims[t]), t)
        } else {
            claims[t] == 0
        }
}

/// The highest of the bids that the first `upto` agents place on cell `t`
/// when agent `i` bids with priority `priorities[i]`, and zero where none
/// of them asks for the cell.
pub open spec fn highest_bid(proposals: Seq<usize>, priorities: Seq<u32>, t: int, upto: int) -> int
    decreases upto,
{
    if upto <= 0 {
        0
    } else {
        let rest = highest_bid(proposals, priorities, t, upto - 1);
        if contends(proposals, upto - 1, t) && bid_value(priorities[upto - 1], upto - 1) > rest {
            bid_value(priorities[upto - 1], upto - 1)
        } else {
            rest
        }
    }
}

/// Every claim is the highest of the bids that the first `upto` agents
/// placed on the cell.
pub open spec fn claims_record(proposals: Seq<usize>, priorities: Seq<u32>, claims: Seq<u64>, upto: int) -> bool {
    &&& claims.len() == proposals.len()
    &&& priorities.len() == proposals.len()
    &&& forall|t: int| 0 <= t < claims.len() ==> (#[trigger] claims[t]) == highest_bid(proposals, priorities, t, upto)
}

/// The highest bid of the first `upto` agents does not depend on what the
/// later agents ask for or bid.
pub proof fn lemma_highest_bid_frame(
    proposals: Seq<usize>,
    priorities: Seq<u32>,
    proposals2: Seq<usize>,
    priorities2: Seq<u32>,
    t: int,
    upto: int,
)
    requires
        upto <= proposals.len(),
        upto <= priorities.len(),
        proposals2.len() == proposals.len(),
        priorities2.len() == priorities.len(),
        forall|k: int| 0 <= k < upto ==> proposals[k] == proposals2[k] && priorities[k] == priorities2[k],
    ensures
        highest_bid(proposals, priorities, t, upto) == highest_bid(proposals2, priorities2, t, upto),
    decreases upto,
{
    if upto > 0 {
        lemma_highest_bid_frame(proposals, priorities, proposals2, priorities2, t, upto - 1);
    }
}

/// Recording the proposal of agent `i` and raising the claim on its target
/// to its bid keeps every claim the highest of the bids placed.
pub proof fn lemma_record_step(
    proposals: Seq<usize>,
    priorities: Seq<u32>,
    claims: Seq<u64>,
    i: int,
    target: usize,
    priority: u32,
)
    requires
        claims_record(proposals, priorities, claims, i),
        0 <= i < proposals.len(),
        target < proposals.len(),
        i < CLAIM_SOURCE_LIMIT,
    ensures
        claims_record(
            proposals.update(i, target),
            priorities.update(i, priority),
            if target != i {
                claims.update(
                    target as int,
                    if claims[target as int] >= bid_value(priority, i) {
                        claims[target as int]
                    } else {
                        bid_value(priority, i) as u64
                    },
                )
            } else {
                claims
            },
            i + 1,
        ),
{
    let bid = bid_value(priority, i);
    let proposals2 = proposals.update(i, target);
    let priorities2 = priorities.update(i, priority);
    let claims2 = if target != i {
        claims.update(target as int, if claims[target as int] >= bid { claims[target as int] } else { bid as u64 })
    } else {
        claims
    };
    assert(0 <= priority as int * 0x1_0000_0000 <= 0xFFFF_FFFF * 0x1_0000_0000) by (nonlinear_arith)
        requires
            0 <= priority <= 0xFFFF_FFFF,
    ;
    assert forall|t: int| 0 <= t < claims2.len() implies (#[trigger] claims2[t]) == highest_bid(
        proposals2,
        priorities2,
        t,
        i + 1,
    ) by {
        lemma_highest_bid_frame(proposals, priorities, proposals2, priorities2, t, i);
        assert(claims[t] == highest_bid(proposals, priorities, t, i));
    }
}

/// What becomes of an agent's proposal: it stands when the claim on the
/// target names this agent, and falls back to the agent's own cell otherwise.
pub open spec fn pruned_intent(proposals: Seq<usize>, claims: Seq<u64>, i: int) -> usize {
    if proposals[i] != i && claim_source(claims[proposals[i] as int]) == i {
        proposals[i]
    } else {
        i as usize
    }
}

/// All proposals after pruning.
pub open spec fn pruned(proposals: Seq<usize>, claims: Seq<u64>) -> Seq<usize> {
    Seq::new(proposals.len(), |i: int| pruned_intent(proposals, claims, i))
}

/// Every proposal names a cell of the grid, and a vacant cell names itself.
pub open spec fn proposals_tidy(occ: Seq<bool>, proposals: Seq<usize>) -> bool {
    intents_tidy(occ, proposals)
}

/// After pruning at most one agent from elsewhere wants any one cell.
pub proof fn lemma_pruned_single_claimant(proposals: Seq<usize>, claims: Seq<u64>)
    requires
        claims.len() == proposals.len(),
        proposals.len() <= usize::MAX,
        forall|i: int| 0 <= i < proposals.len() ==> (#[trigger] proposals[i]) < proposals.len(),
    ensures
        single_claimant(pruned(proposals, claims)),
{
    let after = pruned(proposals, claims);
    assert forall|i: int, j: int|
        0 <= i < after.len() && 0 <= j < after.len() && #[trigger] after[i] == #[trigger] after[j] && after[i] != i
            && after[j] != j implies i == j by {
        assert(claim_source(claims[proposals[i] as int]) == i);
        assert(claim_source(claims[proposals[j] as int]) == j);
    }
}

/// Among the agents that ask for one cell exactly one keeps its proposal:
/// the one that the claim names.
pub proof fn lemma_pruned_one_winner(proposals: Seq<usize>, claims: Seq<u64>, t: int)
    requires
        claims_settled(proposals, claims, proposals.len() as int),
        proposals.len() <= usize::MAX,
        forall|i: int| 0 <= i < proposals.len() ==> (#[trigger] proposals[i]) < proposals.len(),
        0 <= t < proposals.len(),
        contended(proposals, proposals.len() as int, t),
    ensures
        contends(proposals, claim_source(claims[t]), t),
        contends(pruned(proposals, claims), claim_source(claims[t]), t),
        forall|i: int| contends(pruned(proposals, claims), i, t) ==> i == claim_source(claims[t]),
{
    let after = pruned(proposals, claims);
    let w = claim_source(claims[t]);
    assert(contends(proposals, w, t));
    assert(after[w] == pruned_intent(proposals, claims, w));
    assert forall|i: int| contends(after, i, t) implies i == w by {
        assert(after[i] == pruned_intent(proposals, claims, i));
    }
}

/// Pruning keeps the proposals tidy: each agent keeps its proposal or stays.
pub proof fn lemma_pruned_tidy(occ: Seq<bool>, proposals: Seq<usize>, claims: Seq<u64>)
    requires
        proposals_tidy(occ, proposals),
        claims.len() == proposals.len(),
        proposals.len() <= usize::MAX,
    ensures
        intents_tidy(occ, pruned(proposals, claims)),
        forall|i: int|
            0 <= i < proposals.len() ==> (#[trigger] pruned(proposals, claims)[i]) == proposals[i] || pruned(
                proposals,
                claims,
            )[i] == i,
{
    let after = pruned(proposals, claims);
    assert forall|i: int| 0 <= i < after.len() implies (#[trigger] after[i]) < after.len() by {
        assert(proposals[i] < proposals.len());
    }
    assert forall|i: int| 0 <= i < after.len() && !occ[i] implies #[trigger] after[i] == i by {
        assert(proposals[i] == i);
    }
}

/// No agent bids more for a cell than the highest bid on it: the claim
/// goes to the highest priority, and among equal priorities to the agent
/// with the higher index.
pub proof fn lemma_highest_bid_is_highest(proposals: Seq<usize>, priorities: Seq<u32>, t: int, upto: int, k: int)
    requires
        0 <= k < upto,
        contends(proposals, k, t),
    ensures
        bid_value(priorities[k], k) <= highest_bid(proposals, priorities, t, upto),
    decreases upto,
{
    if k < upto - 1 {
        lemma_highest_bid_is_highest(proposals, priorities, t, upto - 1, k);
    }
}

/// The highest bid of the first `upto` agents on a cell is the bid of one
/// of those who asked for it, and zero where none of them did.
proof fn lemma_record_settles_upto(proposals: Seq<usize>, priorities: Seq<u32>, t: int, upto: int)
    requires
        priorities.len() == proposals.len(),
        0 <= upto <= proposals.len(),
        proposals.len() <= CLAIM_SOURCE_LIMIT,
    ensures
        0 <= highest_bid(proposals, priorities, t, upto) <= u64::MAX,
        contended(proposals, upto, t) ==> {
            &&& highest_bid(proposals, priorities, t, upto) % 0x1_0000_0000 < upto
            &&& contends(proposals, highest_bid(proposals, priorities, t, upto) % 0x1_0000_0000, t)
        },
        !contended(proposals, upto, t) ==> highest_bid(proposals, priorities, t, upto) == 0,
    decreases upto,
{
    if upto > 0 {
        let k = upto - 1;
        lemma_record_settles_upto(proposals, priorities, t, k);
        let rest = highest_bid(proposals, priorities, t, k);
        let bid = bid_value(priorities[k], k);
        assert(0 <= priorities[k] as int * 0x1_0000_0000 <= 0xFFFF_FFFF * 0x1_0000_0000) by (nonlinear_arith)
            requires
                0 <= priorities[k] <= 0xFFFF_FFFF,
        ;
        lemma_fundamental_div_mod_converse(bid, 0x1_0000_0000, priorities[k] as int, k);
        if contends(proposals, k, t) {
            assert(contended(proposals, upto, t));
            if bid <= rest && !contended(proposals, k, t) {
                assert(bid == 0);
                assert(k == 0) by (nonlinear_arith)
                    requires
                        priorities[k] as int * 0x1_0000_0000 + k == 0,
                        priorities[k] >= 0,
                        k >= 0,
                ;
            }
        } else {
            if contended(proposals, upto, t) {
                let j = choose|j: int| j < upto && contends(proposals, j, t);
                assert(j < k && contends(proposals, j, t));
            }
            if contended(proposals, k, t) {
                let j = choose|j: int| j < k && contends(proposals, j, t);
                assert(j < upto && contends(proposals, j, t));
            }
        }
    }
}

/// Where every claim is the highest of the bids placed, the claim on a
/// cell that somebody asked for names one of those who asked, and the
/// claim on any other cell is zero.
pub proof fn lemma_record_settles(proposals: Seq<usize>, priorities: Seq<u32>, claims: Seq<u64>)
    requires
        claims_record(proposals, priorities, claims, proposals.len() as int),
        proposals.len() <= CLAIM_SOURCE_LIMIT,
    ensures
        claims_settled(proposals, claims, proposals.len() as int),
{
    assert forall|t: int| 0 <= t < claims.len() implies if contended(proposals, proposals.len() as int, t) {
        claim_source(#[trigger] claims[t]) < proposals.len() && contends(proposals, claim_source(claims[t]), t)
    } else {
        claims[t] == 0
    } by {
        lemma_record_settles_upto(proposals, priorities, t, proposals.len() as int);
    }
}

/// Two different agents asked for cell `t`.
pub open spec fn cell_contested(proposals: Seq<usize>, t: int) -> bool {
    exists|i: int, j: int| i != j && contends(proposals, i, t) && contends(proposals, j, t)
}

/// For every cell, whether two different agents asked for it.
pub open spec fn contested(proposals: Seq<usize>) -> Seq<bool> {
    Seq::new(proposals.len(), |t: int| cell_contested(proposals, t))
}

/// Some agent among the first `upto` asked for cell `t` and was sent home.
pub open spec fn has_loser(proposals: Seq<usize>, intentions: Seq<usize>, upto: int, t: int) -> bool {
    exists|i: int| 0 <= i < upto && i < proposals.len() && proposals[i] == t && intentions[i] != t
}

/// A cell was asked for by two agents exactly when one of those that asked
/// for it was sent home.
pub proof fn lemma_contested_has_loser(proposals: Seq<usize>, claims: Seq<u64>, t: int)
    requires
        claims_settled(proposals, claims, proposals.len() as int),
        proposals.len() <= usize::MAX,
        forall|i: int| 0 <= i < proposals.len() ==> (#[trigger] proposals[i]) < proposals.len(),
        0 <= t < proposals.len(),
    ensures
        cell_contested(proposals, t) == has_loser(proposals, pruned(proposals, claims), proposals.len() as int, t),
{
    let after = pruned(proposals, claims);
    let n = proposals.len() as int;
    if cell_contested(proposals, t) {
        let (i, j) = choose|i: int, j: int| i != j && contends(proposals, i, t) && contends(proposals, j, t);
        assert(contended(proposals, n, t));
        let w = claim_source(claims[t]);
        if i != w {
            assert(after[i] == pruned_intent(proposals, claims, i));
            assert(has_loser(proposals, after, n, t));
        } else {
            assert(after[j] == pruned_intent(proposals, claims, j));
            assert(has_loser(proposals, after, n, t));
        }
    }
    if has_loser(proposals, after, n, t) {
        let i = choose|i: int| 0 <= i < n && i < proposals.len() && proposals[i] == t && after[i] != t;
        assert(after[i] == pruned_intent(proposals, claims, i));
        assert(contends(proposals, i, t));
        assert(contended(proposals, n, t));
        let w = claim_source(claims[t]);
        assert(contends(proposals, w, t));
        assert(i != w);
        assert(cell_contested(proposals, t));
    }
}

} // verus!
