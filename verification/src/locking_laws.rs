//! What becomes of the tree when the chain configuration is locked: the active
//! chain stays, and of the rest exactly what the lock rules out is deleted.

use vstd::prelude::*;

use crate::acquisition;
use crate::acquisition::RunView;
use crate::api::NodeView;
use crate::block_data::{ChainBlock, PAYLOAD_TYPE_CHAIN_CONFIG};
use crate::blocks as tree;
use crate::blocks::{BlockEntry, NONE_REF};
use crate::chain_heads as tips;
use crate::chain_heads::Tips;
use crate::coherence as fit;
use crate::coherence_laws as laws;
use crate::collecting_laws as collecting;
use crate::hash::BlockHash;
use crate::processing;
use crate::recovery;
use crate::staged_validation::BlockStatus;

verus! {

/// Whether the lock rules the block out: it is not on the active chain, and it
/// is larger than the locked limit, or carries another configuration, as far as
/// it could be read.
pub open spec fn ruled_out(
    entry: BlockEntry,
    content: Option<Seq<u8>>,
    locked: Option<Seq<u8>>,
    limit: u16,
) -> bool {
    &&& entry.occupied()
    &&& !entry.active()
    &&& entry.len > limit || entry.kind() == PAYLOAD_TYPE_CHAIN_CONFIG && recovery::content_differs(
        locked,
        content,
    )
}

/// The parent of a block on the active chain is on it too, if it is linked.
spec fn closed(s: Seq<BlockEntry>) -> bool {
    forall|i: int|
        0 <= i < s.len() && s[i].occupied() && s[i].active() && #[trigger] s[i].parent_ref
            != NONE_REF ==> tree::present(s, s[i].parent_ref)
            && s[s[i].parent_ref as int].active()
}

/// `after` holds blocks of `before` alone, differing in nothing but branch
/// counts; the whole active chain is among them, and every block that is not
/// descends from one that the lock rules out.
spec fn culled(
    before: Seq<BlockEntry>,
    after: Seq<BlockEntry>,
    contents: Seq<Option<Seq<u8>>>,
    locked: Option<Seq<u8>>,
    limit: u16,
) -> bool {
    &&& after.len() == before.len()
    &&& forall|i: int|
        0 <= i < before.len() && (#[trigger] after[i]).occupied() ==> before[i].occupied()
            && after[i].with_count(0) == before[i].with_count(0)
    &&& forall|i: int|
        0 <= i < before.len() && (#[trigger] before[i]).occupied() && before[i].active()
            ==> after[i].occupied()
    &&& forall|i: int|
        0 <= i < before.len() && (#[trigger] before[i]).occupied() && !after[i].occupied()
            ==> descends_from_ruled_out(before, i as u32, contents, locked, limit)
}

/// Whether the block descends from one that the lock rules out.
pub open spec fn descends_from_ruled_out(
    s: Seq<BlockEntry>,
    idx: u32,
    contents: Seq<Option<Seq<u8>>>,
    locked: Option<Seq<u8>>,
    limit: u16,
) -> bool {
    exists|j: u32| #[trigger]
        tree::descends(s, idx, j, s.len()) && ruled_out(
            s[j as int],
            contents[j as int],
            locked,
            limit,
        )
}

proof fn lemma_active_ancestors(s: Seq<BlockEntry>, idx: u32, target: u32, steps: nat)
    requires
        closed(s),
        tree::descends(s, idx, target, steps),
        s[idx as int].active(),
    ensures
        s[target as int].active(),
        tree::present(s, target),
    decreases steps,
{
    if idx != target {
        assert(s[idx as int].parent_ref != NONE_REF);
        lemma_active_ancestors(s, s[idx as int].parent_ref, target, (steps - 1) as nat);
    }
}

proof fn lemma_descends_wider(part: Seq<BlockEntry>, s: Seq<BlockEntry>, idx: u32, target: u32, steps: nat)
    requires
        part.len() == s.len(),
        forall|i: int|
            0 <= i < part.len() && (#[trigger] part[i]).occupied() ==> s[i].occupied()
                && part[i].with_count(0) == s[i].with_count(0),
        tree::descends(part, idx, target, steps),
    ensures
        tree::descends(s, idx, target, steps),
        tree::present(part, target),
    decreases steps,
{
    assert(part[idx as int].occupied());
    assert(part[idx as int].with_count(0).parent_ref == s[idx as int].with_count(0).parent_ref);
    if idx != target {
        lemma_descends_wider(part, s, part[idx as int].parent_ref, target, (steps - 1) as nat);
    }
}

/// Two cullings one after the other are one.
proof fn lemma_culled_twice(
    before: Seq<BlockEntry>,
    middle: Seq<BlockEntry>,
    after: Seq<BlockEntry>,
    contents: Seq<Option<Seq<u8>>>,
    locked: Option<Seq<u8>>,
    limit: u16,
)
    requires
        culled(before, middle, contents, locked, limit),
        culled(middle, after, contents, locked, limit),
    ensures
        culled(before, after, contents, locked, limit),
{
    assert forall|i: int| 0 <= i < before.len() && (
    #[trigger] after[i]).occupied() implies before[i].occupied() && after[i].with_count(0)
        == before[i].with_count(0) by {
        assert(middle[i].occupied());
    }
    assert forall|i: int|
        0 <= i < before.len() && (#[trigger] before[i]).occupied()
            && before[i].active() implies after[i].occupied() by {
        assert(middle[i].occupied());
        assert(middle[i].with_count(0).flags == before[i].with_count(0).flags);
    }
    assert forall|i: int|
        0 <= i < before.len() && (#[trigger] before[i]).occupied()
            && !after[i].occupied() implies descends_from_ruled_out(
        before,
        i as u32,
        contents,
        locked,
        limit,
    ) by {
        if middle[i].occupied() {
            let j = choose|j: u32| #[trigger]
                tree::descends(middle, i as u32, j, middle.len()) && ruled_out(
                    middle[j as int],
                    contents[j as int],
                    locked,
                    limit,
                );
            lemma_descends_wider(middle, before, i as u32, j, middle.len());
            assert(middle[j as int].with_count(0) == before[j as int].with_count(0));
            assert(tree::descends(before, i as u32, j, before.len()));
            assert(ruled_out(before[j as int], contents[j as int], locked, limit));
        }
    }
}

proof fn lemma_closed_part(before: Seq<BlockEntry>, after: Seq<BlockEntry>)
    requires
        closed(before),
        before.len() == after.len(),
        forall|i: int|
            0 <= i < before.len() && (#[trigger] after[i]).occupied() ==> before[i].occupied()
                && after[i].with_count(0) == before[i].with_count(0),
        forall|i: int|
            0 <= i < before.len() && (#[trigger] before[i]).occupied() && before[i].active()
                ==> after[i].occupied(),
    ensures
        closed(after),
{
    assert forall|i: int|
        0 <= i < after.len() && after[i].occupied() && after[i].active()
            && #[trigger] after[i].parent_ref != NONE_REF implies tree::present(
        after,
        after[i].parent_ref,
    ) && after[after[i].parent_ref as int].active() by {
        assert(after[i].with_count(0) == before[i].with_count(0));
        assert(after[i].with_count(0).parent_ref == before[i].with_count(0).parent_ref);
        assert(after[i].with_count(0).flags == before[i].with_count(0).flags);
        assert(before[i].parent_ref != NONE_REF);
        let p = before[i].parent_ref as int;
        assert(before[p].occupied());
        assert(after[p].with_count(0).flags == before[p].with_count(0).flags);
    }
}

/// Deleting a block that the lock rules out, with its descendants.
proof fn lemma_one_culled(
    node: NodeView,
    target: u32,
    contents: Seq<Option<Seq<u8>>>,
    locked: Option<Seq<u8>>,
    limit: u16,
)
    requires
        node.blocks.len() <= NONE_REF,
        closed(node.blocks),
        target < node.blocks.len(),
        ruled_out(node.blocks[target as int], contents[target as int], locked, limit),
        tree::present(node.blocks, node.active_head),
        node.blocks[node.active_head as int].active(),
    ensures
        ({
            let after = node.subtree_deleted(target);
            &&& culled(node.blocks, after.blocks, contents, locked, limit)
            &&& closed(after.blocks)
            &&& !after.blocks[target as int].occupied()
            &&& after.active_head == node.active_head
        }),
{
    let s = node.blocks;
    let after = node.subtree_deleted(target);
    let gone = tree::subtree(s, target);
    let rest = tree::without_subtree(s, target);
    recovery::deletion_is_exact(node, target);
    laws::lemma_head_left(s, node.active_head, target);
    if tree::descends(s, node.active_head, target, s.len()) {
        lemma_active_ancestors(s, node.active_head, target, s.len());
    }
    assert(tree::present(s, target));
    tips::deletion_follow_up_only_counts(
        Tips { heads: node.heads, blocks: rest },
        gone,
        node.parent_of(target),
    );
    assert forall|i: int| 0 <= i < s.len() && (
    #[trigger] after.blocks[i]).occupied() implies s[i].occupied() && after.blocks[i].with_count(0)
        == s[i].with_count(0) by {
        assert(tree::present(after.blocks, i as u32));
        assert(after.blocks[i].with_count(0) == rest[i].with_count(0));
    }
    assert forall|i: int|
        0 <= i < s.len() && (#[trigger] s[i]).occupied()
            && s[i].active() implies after.blocks[i].occupied() by {
        if tree::descends(s, i as u32, target, s.len()) {
            lemma_active_ancestors(s, i as u32, target, s.len());
        }
        assert(tree::present(s, i as u32));
        assert(tree::present(after.blocks, i as u32));
    }
    assert forall|i: int|
        0 <= i < s.len() && (#[trigger] s[i]).occupied()
            && !after.blocks[i].occupied() implies descends_from_ruled_out(
        s,
        i as u32,
        contents,
        locked,
        limit,
    ) by {
        assert(tree::present(s, i as u32));
        assert(!tree::present(after.blocks, i as u32));
        assert(tree::descends(s, i as u32, target, s.len()));
    }
    assert(tree::descends(s, target, target, s.len()));
    assert(!tree::present(after.blocks, target));
    lemma_closed_part(s, after.blocks);
}

proof fn lemma_mismatches_culled(
    node: NodeView,
    contents: Seq<Option<Seq<u8>>>,
    limit: u16,
    from: int,
)
    requires
        node.blocks.len() <= NONE_REF,
        node.config is Durable,
        closed(node.blocks),
        tree::present(node.blocks, node.active_head),
        node.blocks[node.active_head as int].active(),
        0 <= from,
    ensures
        ({
            let locked = node.config.durable();
            let after = node.mismatches_deleted(contents, from, node.blocks.len() as int);
            &&& culled(node.blocks, after.blocks, contents, locked, limit)
            &&& closed(after.blocks)
            &&& after.config == node.config
            &&& after.active_head == node.active_head
            &&& forall|i: int|
                from <= i < node.blocks.len() && (#[trigger] after.blocks[i]).occupied()
                    && !after.blocks[i].active() && after.blocks[i].kind()
                    == PAYLOAD_TYPE_CHAIN_CONFIG ==> !recovery::content_differs(locked, contents[i])
        }),
    decreases node.blocks.len() - from,
{
    let s = node.blocks;
    let end = s.len() as int;
    let locked = node.config.durable();
    if from < end {
        let hit = s[from].occupied() && s[from].kind() == PAYLOAD_TYPE_CHAIN_CONFIG
            && !s[from].active() && recovery::content_differs(locked, contents[from]);
        let next = if hit {
            node.subtree_deleted(from as u32)
        } else {
            node
        };
        if hit {
            lemma_one_culled(node, from as u32, contents, locked, limit);
            acquisition::lemma_deletion_frame(node, from as u32);
            let a = node.active_head as int;
            assert(next.blocks[a].occupied());
            assert(next.blocks[a].with_count(0).flags == s[a].with_count(0).flags);
        }
        lemma_mismatches_culled(next, contents, limit, from + 1);
        let after = node.mismatches_deleted(contents, from, end);
        assert(culled(s, next.blocks, contents, locked, limit));
        lemma_culled_twice(s, next.blocks, after.blocks, contents, locked, limit);
        assert forall|i: int|
            from <= i < s.len() && (#[trigger] after.blocks[i]).occupied()
                && !after.blocks[i].active() && after.blocks[i].kind()
                == PAYLOAD_TYPE_CHAIN_CONFIG implies !recovery::content_differs(
            locked,
            contents[i],
        ) by {
            assert(after.blocks[i].with_count(0).flags == next.blocks[i].with_count(0).flags);
        }
    }
}

proof fn lemma_oversized_culled(
    node: NodeView,
    contents: Seq<Option<Seq<u8>>>,
    limit: u16,
    from: int,
)
    requires
        node.blocks.len() <= NONE_REF,
        node.config is Durable,
        closed(node.blocks),
        tree::present(node.blocks, node.active_head),
        node.blocks[node.active_head as int].active(),
        0 <= from,
    ensures
        ({
            let locked = node.config.durable();
            let after = node.oversized_deleted(limit, from, node.blocks.len() as int);
            &&& culled(node.blocks, after.blocks, contents, locked, limit)
            &&& after.config == node.config
            &&& after.active_head == node.active_head
            &&& forall|i: int|
                from <= i < node.blocks.len() && (#[trigger] after.blocks[i]).occupied()
                    && !after.blocks[i].active() ==> after.blocks[i].len <= limit
        }),
    decreases node.blocks.len() - from,
{
    let s = node.blocks;
    let end = s.len() as int;
    let locked = node.config.durable();
    if from < end {
        let hit = s[from].occupied() && !s[from].active() && s[from].len > limit;
        let next = if hit {
            node.subtree_deleted(from as u32)
        } else {
            node
        };
        if hit {
            lemma_one_culled(node, from as u32, contents, locked, limit);
            acquisition::lemma_deletion_frame(node, from as u32);
            let a = node.active_head as int;
            assert(next.blocks[a].occupied());
            assert(next.blocks[a].with_count(0).flags == s[a].with_count(0).flags);
        }
        lemma_oversized_culled(next, contents, limit, from + 1);
        let after = node.oversized_deleted(limit, from, end);
        assert(culled(s, next.blocks, contents, locked, limit));
        lemma_culled_twice(s, next.blocks, after.blocks, contents, locked, limit);
        assert forall|i: int|
            from <= i < s.len() && (#[trigger] after.blocks[i]).occupied()
                && !after.blocks[i].active() implies after.blocks[i].len <= limit by {
            assert(after.blocks[i].with_count(0).flags == next.blocks[i].with_count(0).flags);
            assert(after.blocks[i].with_count(0).len == next.blocks[i].with_count(0).len);
        }
    }
}

proof fn lemma_promoted_keeps(first: Seq<BlockEntry>, s: Seq<BlockEntry>, cur: u32, steps: nat)
    requires
        s.len() == first.len(),
        forall|i: int|
            0 <= i < s.len() ==> tree::same_block(first[i], #[trigger] s[i]) && s[i].parent_ref
                == first[i].parent_ref,
    ensures
        ({
            let after = recovery::promoted(s, cur, steps);
            &&& after.len() == first.len()
            &&& forall|i: int|
                0 <= i < s.len() ==> tree::same_block(first[i], #[trigger] after[i])
                    && after[i].parent_ref == first[i].parent_ref
        }),
    decreases steps,
{
    if steps > 0 && tree::present(s, cur) {
        let entry = s[cur as int];
        let staged = entry.with_stage(BlockStatus::Active);
        tree::lemma_status_bits(entry.flags, BlockStatus::Active);
        tree::lemma_active_bit(staged.flags);
        let next = s.update(cur as int, staged.with_active(true));
        if entry.parent_ref != NONE_REF {
            lemma_promoted_keeps(first, next, entry.parent_ref, (steps - 1) as nat);
        }
    }
}

/// The promoted candidate is closed under parents.
proof fn lemma_promoted_closed(node: NodeView, prev: Seq<BlockHash>, tip: u32)
    requires
        fit::linked(node.blocks, prev),
        fit::marked(node.blocks, node.active_head),
        tree::present(node.blocks, tip),
    ensures
        processing::candidate(node.blocks, tip) matches Ok(segment) && {
            let after = node.activated(tip).blocks;
            &&& collecting::whole(node.blocks, segment, 0)
            &&& segment[0] == tip
            &&& closed(after)
            &&& after.len() == node.blocks.len()
            &&& forall|i: int|
                0 <= i < after.len() ==> tree::same_block(node.blocks[i], #[trigger] after[i])
                    && after[i].parent_ref == node.blocks[i].parent_ref
            &&& forall|k: int|
                0 <= k < segment.len() ==> after[#[trigger] segment[k] as int].active()
                    && tree::present(after, segment[k])
        },
{
    let s = node.blocks;
    fit::lemma_below_bound(s, s[tip as int].sequence as int);
    collecting::lemma_whole(s, prev, node.active_head, tip, s.len(), Seq::empty());
    let segment = processing::candidate(s, tip)->Ok_0;
    let after = node.activated(tip).blocks;
    recovery::promotion_marks_the_candidate(node, tip);
    lemma_promoted_keeps(s, s, tip, s.len());
    assert forall|k: int| 0 <= k < segment.len() implies after[
        #[trigger] segment[k] as int
    ].active() && tree::present(after, segment[k]) by {
        assert(tree::present(s, segment[k]));
        assert(tree::same_block(s[segment[k] as int], after[segment[k] as int]));
    }
    assert forall|i: int|
        0 <= i < after.len() && after[i].occupied() && after[i].active()
            && #[trigger] after[i].parent_ref != NONE_REF implies tree::present(
        after,
        after[i].parent_ref,
    ) && after[after[i].parent_ref as int].active() by {
        assert(tree::same_block(s[i], after[i]));
        if segment.contains(i as u32) {
            let k = choose|k: int| 0 <= k < segment.len() && segment[k] == i as u32;
            assert(s[segment[k] as int].parent_ref != NONE_REF);
            assert(k + 1 < segment.len());
            assert(segment[k + 1] == s[segment[k] as int].parent_ref);
        } else {
            assert(after[i] == s[i]);
            assert(s[i].occupied());
            assert(s[i].parent_ref != NONE_REF);
        }
    }
}

/// Locking keeps the whole active chain, and its head. Of the other blocks it
/// deletes exactly those that the lock rules out and their descendants: none
/// that is left is larger than the locked limit or is known to carry another
/// configuration, and every block that is gone descends from one that is or
/// does.
pub proof fn locking_deletes_what_it_rules_out(
    node: NodeView,
    prev: Seq<BlockHash>,
    run: RunView,
    tip: u32,
    block: Option<ChainBlock>,
    contents: Seq<Option<Seq<u8>>>,
)
    requires
        laws::coherent_node(node, prev),
        tree::present(node.blocks, tip),
        node.commits(block),
    ensures
        ({
            let after = node.concluded(run, tip, block, true, contents).node;
            let chain = node.activated(tip).blocks;
            let locked = after.config.durable();
            let limit = after.enforceable_limit();
            &&& after.active_head == tip
            &&& after.blocks.len() == chain.len()
            &&& processing::candidate(node.blocks, tip) matches Ok(segment) && forall|k: int|
                0 <= k < segment.len() ==> tree::present(after.blocks, #[trigger] segment[k])
                    && after.blocks[segment[k] as int].active()
            &&& forall|i: int|
                0 <= i < chain.len() && (#[trigger] after.blocks[i]).occupied()
                    ==> after.blocks[i].with_count(0) == chain[i].with_count(0) && !ruled_out(
                    after.blocks[i],
                    contents[i],
                    locked,
                    limit,
                )
            &&& forall|i: int|
                0 <= i < chain.len() && (#[trigger] chain[i]).occupied()
                    && !after.blocks[i].occupied() ==> descends_from_ruled_out(
                    chain,
                    i as u32,
                    contents,
                    locked,
                    limit,
                )
        }),
{
    let active = node.committed().activated(tip);
    let chain = node.activated(tip).blocks;
    let end = active.blocks.len() as int;
    let limit = active.enforceable_limit();
    let locked = active.config.durable();
    lemma_promoted_closed(node, prev, tip);
    let segment = processing::candidate(node.blocks, tip)->Ok_0;
    assert(active.blocks == chain);
    assert(active.config is Durable);
    assert(chain[segment[0] as int].active());
    let matching = active.mismatches_deleted(contents, 0, end);
    lemma_mismatches_culled(active, contents, limit, 0);
    assert(matching.blocks[tip as int].occupied());
    assert(matching.blocks[tip as int].with_count(0).flags == chain[tip as int].with_count(0).flags);
    lemma_oversized_culled(matching, contents, limit, 0);
    let kept = matching.oversized_deleted(limit, 0, end);
    lemma_culled_twice(chain, matching.blocks, kept.blocks, contents, locked, limit);
    let after = node.concluded(run, tip, block, true, contents).node;
    assert(after.blocks == kept.blocks);
    assert forall|k: int| 0 <= k < segment.len() implies tree::present(
        after.blocks,
        #[trigger] segment[k],
    ) && after.blocks[segment[k] as int].active() by {
        let i = segment[k] as int;
        assert(chain[i].occupied() && chain[i].active());
        assert(kept.blocks[i].occupied());
        assert(kept.blocks[i].with_count(0).flags == chain[i].with_count(0).flags);
    }
    assert forall|i: int| 0 <= i < chain.len() && (
    #[trigger] after.blocks[i]).occupied() implies after.blocks[i].with_count(0)
        == chain[i].with_count(0) && !ruled_out(after.blocks[i], contents[i], locked, limit) by {
        assert(kept.blocks[i].with_count(0) == matching.blocks[i].with_count(0));
        assert(kept.blocks[i].with_count(0).flags == matching.blocks[i].with_count(0).flags);
        assert(matching.blocks[i].occupied());
    }
}

} // verus!
