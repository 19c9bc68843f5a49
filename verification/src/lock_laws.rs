//! What is left of the tree when a chain configuration is locked, told by the
//! records of the blocks.

use vstd::prelude::*;

use crate::acquisition::RunView;
use crate::acquisition_laws as steps;
use crate::api::NodeView;
use crate::block_data::ChainBlock;
use crate::blocks as tree;
use crate::blocks::{BlockEntry, NONE_REF};
use crate::branching;
use crate::branching_laws as order;
use crate::coherence_laws as laws;
use crate::deletion_laws as deletion;
use crate::derivation::ProcessingError;
use crate::hash::BlockHash;
use crate::lifecycle::LifecyclePhase;
use crate::locking_laws as locking;
use crate::processing;
use crate::record_laws as records;
use crate::recovery;
use crate::staged_validation::BlockStatus;

verus! {

/// Whether the block speaks against the locked configuration: it is larger than
/// its limit, or it carries another configuration, as far as it could be read.
pub open spec fn speaks_against(
    entry: BlockEntry,
    content: Option<Seq<u8>>,
    locked: Seq<u8>,
    limit: u16,
) -> bool {
    ||| entry.len > limit
    ||| entry.flags >> 3 == 3 && content is Some && content->0 != locked
}

proof fn lemma_gone_below(
    before: Seq<BlockEntry>,
    after: Seq<BlockEntry>,
    idx: u32,
    target: u32,
    bound: nat,
)
    requires
        after.len() == before.len(),
        tree::descends(before, idx, target, bound),
        !deletion::held(after, target as int),
        forall|i: int| #[trigger]
            deletion::held(after, i) && after[i].parent_ref != NONE_REF ==> deletion::held(
                after,
                after[i].parent_ref as int,
            ),
        forall|i: int| #[trigger]
            deletion::held(after, i) ==> after[i].parent_ref == before[i].parent_ref,
    ensures
        !deletion::held(after, idx as int),
        idx != target ==> {
            let parent = before[idx as int].parent_ref;
            &&& parent != NONE_REF
            &&& deletion::held(before, parent as int)
            &&& !deletion::held(after, parent as int)
        },
    decreases bound,
{
    if idx != target {
        let parent = before[idx as int].parent_ref;
        lemma_gone_below(before, after, parent, target, (bound - 1) as nat);
        assert(tree::descends(before, parent, target, (bound - 1) as nat));
        assert(tree::present(before, parent));
        if deletion::held(after, idx as int) {
            assert(deletion::held(after, after[idx as int].parent_ref as int));
        }
    }
}

proof fn lemma_target(s: Seq<BlockEntry>, idx: u32, target: u32, bound: nat)
    requires
        tree::descends(s, idx, target, bound),
    ensures
        tree::present(s, target),
    decreases bound,
{
    if idx != target {
        lemma_target(s, s[idx as int].parent_ref, target, (bound - 1) as nat);
    }
}

proof fn lemma_promoted_keeps(s: Seq<BlockEntry>, cur: u32, bound: nat, i: int)
    requires
        0 <= i < s.len(),
    ensures
        ({
            let after = recovery::promoted(s, cur, bound);
            &&& after.len() == s.len()
            &&& after[i].sequence == s[i].sequence
            &&& after[i].hash == s[i].hash
            &&& after[i].parent_ref == s[i].parent_ref
            &&& after[i].len == s[i].len
            &&& after[i].spent_bits == s[i].spent_bits
            &&& after[i].head_ref_count == s[i].head_ref_count
            &&& after[i].flags >> 3 == s[i].flags >> 3
            &&& after[i].flags & 1 == 0 ==> s[i].flags & 1 == 0
        }),
    decreases bound,
{
    if bound > 0 && tree::present(s, cur) {
        let entry = s[cur as int];
        let staged = entry.with_stage(BlockStatus::Active);
        records::marks_are_kept_apart(entry, true, BlockStatus::Active, 0);
        records::marks_are_kept_apart(staged, true, BlockStatus::Active, 0);
        let f = staged.flags;
        let g = staged.with_active(true).flags;
        assert(g >> 1 == f >> 1 ==> g >> 3 == f >> 3) by (bit_vector);
        let next = s.update(cur as int, staged.with_active(true));
        if entry.parent_ref != NONE_REF {
            lemma_promoted_keeps(next, entry.parent_ref, (bound - 1) as nat, i);
        }
    }
}

/// Locking the configuration of a candidate leaves the candidate, active and at the
/// head of the active chain. Of the other blocks every one that was not active and
/// speaks against the lock goes, and what stands on it goes with it; nothing else
/// does, and what is left is as it was.
pub proof fn locks_leave_what_does_not_speak_against_them(
    node: NodeView,
    prev: Seq<BlockHash>,
    run: RunView,
    tip: u32,
    chain: Seq<u32>,
    block: Option<ChainBlock>,
    contents: Seq<Option<Seq<u8>>>,
    i: int,
)
    requires
        order::orderly(node),
        laws::coherent_node(node, prev),
        steps::is_chain(node.blocks, chain, tip),
        chain.len() <= node.blocks.len(),
        steps::carries_what_is_held(node, block),
        0 <= i < node.blocks.len(),
    ensures
        ({
            let next = node.concluded(run, tip, block, true, contents).node;
            let before = node.blocks[i];
            let after = next.blocks[i];
            let locked = node.config->Tentative_content;
            let limit = (node.config->Tentative_parameters).block_size_limit;
            let against = speaks_against(before, contents[i], locked, limit);
            &&& next.phase == LifecyclePhase::Ready
            &&& next.active_head == tip
            &&& next.config is Durable
            &&& next.config->Durable_content == locked
            &&& next.config->Durable_parameters == node.config->Tentative_parameters
            &&& next.blocks.len() == node.blocks.len()
            &&& chain.contains(i as u32) ==> {
                &&& deletion::held(next.blocks, i)
                &&& after.flags & 1 == 1
                &&& (after.flags >> 1) & 3 == 2
            }
            &&& deletion::held(next.blocks, i) ==> {
                &&& deletion::held(node.blocks, i)
                &&& after.sequence == before.sequence
                &&& after.hash == before.hash
                &&& after.parent_ref == before.parent_ref
                &&& after.len == before.len
                &&& after.flags >> 3 == before.flags >> 3
                &&& after.spent_bits == before.spent_bits
                &&& !chain.contains(i as u32) ==> after.flags == before.flags
                &&& !chain.contains(i as u32) && before.flags & 1 == 0 ==> !against
            }
            &&& deletion::held(node.blocks, i) && !deletion::held(next.blocks, i) ==> {
                &&& !chain.contains(i as u32)
                &&& before.flags & 1 == 0
                &&& against || before.parent_ref != NONE_REF && deletion::held(
                    node.blocks,
                    before.parent_ref as int,
                ) && !deletion::held(next.blocks, before.parent_ref as int)
            }
        }),
{
    let s = node.blocks;
    let next = node.concluded(run, tip, block, true, contents).node;
    let active = node.activated(tip).blocks;
    let locked = node.config->Tentative_content;
    let limit = (node.config->Tentative_parameters).block_size_limit;
    assert(steps::leads_on(s, chain, 0));
    assert(node.commits(block));
    steps::configurations_are_locked_when_written(node, run, tip, block, true, contents);
    steps::candidates_are_chains(s, tip, chain);
    locking::locking_deletes_what_it_rules_out(node, prev, run, tip, block, contents);
    recovery::promotion_marks_the_candidate(node, tip);
    order::locking_keeps_order(node, prev, run, tip, block, true, contents);
    assert(next.config.durable() == Some(locked));
    assert(next.enforceable_limit() == limit);
    assert(processing::candidate(s, tip) == Ok::<
        Seq<u32>,
        ProcessingError,
    >(chain));
    lemma_promoted_keeps(s, tip, s.len(), i);
    assert forall|k: int| #[trigger]
        deletion::held(next.blocks, k) && next.blocks[k].parent_ref
            != NONE_REF implies deletion::held(
        next.blocks,
        next.blocks[k].parent_ref as int,
    ) by {
        let t = next.tips();
        assert(branching::rooted(t.blocks));
        assert(t.blocks[k].occupied() && t.blocks[k].parent_ref != NONE_REF);
    }
    assert forall|k: int| #[trigger] deletion::held(next.blocks, k) implies next.blocks[k].parent_ref
        == active[k].parent_ref by {
        assert(next.blocks[k].occupied());
        assert(next.blocks[k].with_count(0).parent_ref == active[k].with_count(0).parent_ref);
    }
    if chain.contains(i as u32) {
        let k = choose|k: int| 0 <= k < chain.len() && chain[k] == i as u32;
        assert(tree::present(next.blocks, chain[k]));
        assert(active[chain[k] as int].stage() == BlockStatus::Active);
        records::marks_are_kept_apart(active[i], true, BlockStatus::Active, 0);
    }
    if deletion::held(next.blocks, i) {
        assert(next.blocks[i].occupied());
        assert(next.blocks[i].with_count(0) == active[i].with_count(0));
        assert(next.blocks[i].with_count(0).flags == active[i].with_count(0).flags);
        assert(next.blocks[i].with_count(0).sequence == active[i].with_count(0).sequence);
        assert(next.blocks[i].with_count(0).hash == active[i].with_count(0).hash);
        assert(next.blocks[i].with_count(0).parent_ref == active[i].with_count(0).parent_ref);
        assert(next.blocks[i].with_count(0).len == active[i].with_count(0).len);
        assert(next.blocks[i].with_count(0).spent_bits == active[i].with_count(0).spent_bits);
        records::marks_are_kept_apart(s[i], true, BlockStatus::Active, 0);
    }
    if deletion::held(s, i) && !deletion::held(next.blocks, i) {
        assert(active[i].occupied());
        assert(!next.blocks[i].occupied());
        let j = choose|j: u32| #[trigger]
            tree::descends(active, i as u32, j, active.len()) && locking::ruled_out(
                active[j as int],
                contents[j as int],
                Some(locked),
                limit,
            );
        assert(tree::descends(active, i as u32, j, active.len()));
        lemma_target(active, i as u32, j, active.len());
        if deletion::held(next.blocks, j as int) {
            assert(next.blocks[j as int].occupied());
            assert(next.blocks[j as int].with_count(0).flags == active[j as int].with_count(
                0,
            ).flags);
            assert(next.blocks[j as int].with_count(0).len == active[j as int].with_count(0).len);
            assert(next.blocks[j as int].with_count(0).sequence == active[j as int].with_count(
                0,
            ).sequence);
        }
        lemma_gone_below(active, next.blocks, i as u32, j, active.len());
        records::marks_are_kept_apart(s[i], true, BlockStatus::Active, 0);
        if i != j {
            let parent = active[i].parent_ref;
            lemma_promoted_keeps(s, tip, s.len(), parent as int);
        }
    }
}

/// Under a locked configuration a candidate that passes becomes the active chain:
/// each of its blocks is active and on it, and no other block changes.
pub proof fn accepted_candidates_become_active(
    node: NodeView,
    run: RunView,
    tip: u32,
    chain: Seq<u32>,
    i: int,
)
    requires
        node.config is Durable,
        node.blocks.len() <= NONE_REF,
        steps::is_chain(node.blocks, chain, tip),
        chain.len() <= node.blocks.len(),
        0 <= i < node.blocks.len(),
    ensures
        ({
            let next = node.accepted(run, tip).node;
            &&& next.active_head == tip
            &&& next.blocks.len() == node.blocks.len()
            &&& chain.contains(i as u32) ==> {
                &&& next.blocks[i].flags & 1 == 1
                &&& (next.blocks[i].flags >> 1) & 3 == 2
                &&& next.blocks[i].flags >> 3 == node.blocks[i].flags >> 3
                &&& records::same_but_flags(next.blocks[i], node.blocks[i])
            }
            &&& !chain.contains(i as u32) ==> next.blocks[i] == node.blocks[i]
        }),
{
    let s = node.blocks;
    let next = node.accepted(run, tip).node;
    steps::candidates_are_chains(s, tip, chain);
    recovery::promotion_marks_the_candidate(node, tip);
    lemma_promoted_keeps(s, tip, s.len(), i);
    if chain.contains(i as u32) {
        let k = choose|k: int| 0 <= k < chain.len() && chain[k] == i as u32;
        assert(next.blocks[chain[k] as int].active());
        assert(next.blocks[chain[k] as int].stage() == BlockStatus::Active);
        records::marks_are_kept_apart(next.blocks[i], true, BlockStatus::Active, 0);
    }
}

} // verus!
