//! What a start makes of durable storage: which blocks return and how they are
//! linked, which configuration is held, and what happens next.

use vstd::prelude::*;

use crate::api::{InitOutcome, NextCall, NodeView, RestartRejectReason};
use crate::block_data::{BlockPayload, ChainBlock};
use crate::blocks as tree;
use crate::blocks::{BlockEntry, NONE_REF};
use crate::chain_heads as tips;
use crate::chain_heads::ChainHeadEntry;
use crate::coherence_laws as laws;
use crate::coherent_counts as counts;
use crate::deletion_laws as deletion;
use crate::founding_laws as founding;
use crate::genesis;
use crate::hash::BlockHash;
use crate::record_laws as records;
use crate::recovery;
use crate::restart;
use crate::restart::{ControlPlane, InitStep, StoredConfiguration};
use crate::restart_laws as tables;
use crate::staged_validation::BlockStatus;

verus! {

// -- Blocks ------------------------------------------------------------------

/// Whether slot `i` was read back as the block.
pub open spec fn reads_as(
    slots: Seq<Option<ChainBlock>>,
    i: int,
    sequence: u32,
    block_hash: BlockHash,
) -> bool {
    &&& 0 <= i < slots.len()
    &&& slots[i] is Some
    &&& (slots[i]->0).sequence == sequence
    &&& (slots[i]->0).hash == block_hash
}

/// Whether the block in slot `i` comes back into the tree: it was read, and no lower
/// slot holds the same block.
pub open spec fn comes_back(slots: Seq<Option<ChainBlock>>, i: int) -> bool {
    &&& 0 <= i < slots.len()
    &&& slots[i] is Some
    &&& (slots[i]->0).sequence != NONE_REF
    &&& forall|j: int|
        0 <= j < i ==> !#[trigger] reads_as(slots, j, (slots[i]->0).sequence, (slots[i]->0).hash)
}

/// Whether the record is that of the block as it was read, stored and unspent.
pub open spec fn records_stored(entry: BlockEntry, block: ChainBlock) -> bool {
    &&& entry.sequence == block.sequence
    &&& entry.hash == block.hash
    &&& block.bytes@.len() <= u16::MAX ==> entry.len == block.bytes@.len()
    &&& block.payload_type <= 31 ==> entry.flags >> 3 == block.payload_type
    &&& (entry.flags >> 1) & 3 == 0
    &&& forall|n: int| 0 <= n < 32 ==> #[trigger] entry.spent_bits@[n] == 0
}

proof fn lemma_returned(s: Seq<BlockEntry>, slots: Seq<Option<ChainBlock>>, from: int)
    requires
        s.len() <= NONE_REF,
        slots.len() <= s.len(),
        0 <= from <= slots.len(),
        forall|i: int| 0 <= i < from ==> (#[trigger] s[i]).occupied() == comes_back(slots, i),
        forall|i: int| from <= i < s.len() ==> !(#[trigger] s[i]).occupied(),
        forall|i: int|
            0 <= i < from && (#[trigger] s[i]).occupied() ==> s[i] == restart::stored_entry(
                slots[i]->0,
            ),
        forall|i: int|
            0 <= i < from && (#[trigger] slots[i]) is Some && (slots[i]->0).sequence != NONE_REF
                ==> restart::holds_block(s, (slots[i]->0).sequence, (slots[i]->0).hash),
    ensures
        ({
            let after = restart::materialized(s, slots, from);
            &&& after.len() == s.len()
            &&& forall|i: int|
                0 <= i < s.len() ==> (#[trigger] after[i]).occupied() == comes_back(slots, i)
            &&& forall|i: int|
                0 <= i < s.len() && (#[trigger] after[i]).occupied() ==> after[i]
                    == restart::stored_entry(slots[i]->0)
        }),
    decreases slots.len() - from,
{
    if from < slots.len() {
        match slots[from] {
            Some(block) => {
                if block.sequence == NONE_REF {
                    lemma_returned(s, slots, from + 1);
                } else {
                    tree::slot_of_is_first(s, block.sequence, block.hash, 0);
                    if let Some(held) = tree::slot_of(s, block.sequence, block.hash, 0) {
                        assert(s[held as int].occupied());
                        assert(reads_as(slots, held as int, block.sequence, block.hash));
                        assert(!comes_back(slots, from));
                        assert(restart::holds_block(s, block.sequence, block.hash));
                        lemma_returned(s, slots, from + 1);
                    } else {
                        assert(comes_back(slots, from)) by {
                            assert forall|j: int| 0 <= j < from implies !#[trigger] reads_as(
                                slots,
                                j,
                                block.sequence,
                                block.hash,
                            ) by {
                                if reads_as(slots, j, block.sequence, block.hash) {
                                    assert(slots[j] is Some);
                                    assert(restart::holds_block(s, block.sequence, block.hash));
                                    let i = choose|i: int|
                                        0 <= i < s.len() && (#[trigger] s[i]).is_block(
                                            block.sequence,
                                            block.hash,
                                        );
                                    assert(s[i].is_block(block.sequence, block.hash));
                                    assert(false);
                                }
                            }
                        }
                        let next = s.update(from, restart::stored_entry(block));
                        assert(next[from].is_block(block.sequence, block.hash));
                        assert forall|i: int|
                            0 <= i < from + 1 && (#[trigger] slots[i]) is Some && (
                            slots[i]->0).sequence != NONE_REF implies restart::holds_block(
                            next,
                            (slots[i]->0).sequence,
                            (slots[i]->0).hash,
                        ) by {
                            if i < from {
                                let (seq, hash) = ((slots[i]->0).sequence, (slots[i]->0).hash);
                                let k = choose|k: int|
                                    0 <= k < s.len() && (#[trigger] s[k]).is_block(seq, hash);
                                assert(next[k].is_block(seq, hash));
                            }
                        }
                        lemma_returned(next, slots, from + 1);
                    }
                }
            },
            None => {
                lemma_returned(s, slots, from + 1);
            },
        }
    }
}

proof fn lemma_links_alone(s: Seq<BlockEntry>, slots: Seq<Option<ChainBlock>>, from: int, i: int)
    requires
        slots.len() <= s.len(),
        0 <= from,
        0 <= i < s.len(),
    ensures
        ({
            let after = restart::linked(s, slots, from);
            &&& after.len() == s.len()
            &&& after[i].with_parent(NONE_REF) == s[i].with_parent(NONE_REF)
        }),
    decreases slots.len() - from,
{
    if from < slots.len() {
        if s[from].occupied() && slots[from] is Some {
            let block = slots[from]->0;
            match tree::parent_slot(s, block.previous_hash, block.sequence) {
                Some(parent) => {
                    lemma_links_alone(
                        s.update(from, s[from].with_parent(parent)),
                        slots,
                        from + 1,
                        i,
                    );
                },
                None => {
                    lemma_links_alone(s, slots, from + 1, i);
                },
            }
        } else {
            lemma_links_alone(s, slots, from + 1, i);
        }
    }
}

proof fn lemma_stored(block: ChainBlock)
    ensures
        records_stored(restart::stored_entry(block), block),
        restart::stored_entry(block).flags & 1 == 0,
{
    let fresh = BlockEntry::fresh(block.hash, NONE_REF, block.sequence);
    let staged = fresh.with_stage(BlockStatus::Stored).with_len(block.bytes@.len() as u16);
    let typed = staged.with_kind(block.payload_type);
    records::marks_are_kept_apart(fresh, false, BlockStatus::Stored, block.payload_type);
    records::marks_are_kept_apart(staged, false, BlockStatus::Stored, block.payload_type);
    let f = staged.flags;
    let g = typed.flags;
    assert(0u8 & 1 == 0) by (bit_vector);
    assert(g & 7 == f & 7 ==> (g >> 1) & 3 == (f >> 1) & 3 && g & 1 == f & 1) by (bit_vector);
}

/// Whether the tree is what storage read back as: each block that comes back stands
/// in its own slot, as it was read, and nothing else does; a block is linked to its
/// parent exactly if that is in the tree; and of the blocks that can start a chain
/// the one in the lowest slot is on the active chain, alone.
pub open spec fn as_stored(s: Seq<BlockEntry>, slots: Seq<Option<ChainBlock>>) -> bool {
    &&& forall|i: int| 0 <= i < s.len() ==> #[trigger] deletion::held(s, i) == comes_back(slots, i)
    &&& forall|i: int| #[trigger] deletion::held(s, i) ==> records_stored(s[i], slots[i]->0)
    &&& forall|i: int| #[trigger]
        deletion::held(s, i) && s[i].parent_ref != NONE_REF ==> {
            let p = s[i].parent_ref as int;
            &&& deletion::held(s, p)
            &&& s[p].sequence + 1 == s[i].sequence
            &&& s[p].hash == (slots[i]->0).previous_hash
        }
    &&& forall|i: int, p: int| #[trigger]
        deletion::held(s, i) && #[trigger] deletion::held(s, p) && s[p].sequence + 1
            == s[i].sequence && s[p].hash == (slots[i]->0).previous_hash ==> s[i].parent_ref
            != NONE_REF
    &&& forall|i: int| #[trigger]
        deletion::held(s, i) ==> (s[i].flags & 1 == 1) == (s[i].sequence == 0 && forall|j: int|
            0 <= j < i ==> (#[trigger] s[j]).sequence != 0)
}

/// The tree that a start builds is what storage read back as.
pub proof fn starts_rebuild_what_was_stored(node: NodeView, slots: Seq<Option<ChainBlock>>)
    requires
        founding::empty_tree(node.blocks),
        node.blocks.len() <= NONE_REF,
        slots.len() <= node.blocks.len(),
    ensures
        node.retained_tree(slots).len() == node.blocks.len(),
        as_stored(node.retained_tree(slots), slots),
{
    let m = restart::materialized(node.blocks, slots, 0);
    let l = restart::linked(m, slots, 0);
    let s = node.retained_tree(slots);
    let prev = restart::previous_hashes(slots, node.blocks.len());
    assert forall|i: int| 0 <= i < node.blocks.len() implies !(
    #[trigger] node.blocks[i]).occupied() by {
        assert(node.blocks[i].sequence == NONE_REF);
    }
    lemma_returned(node.blocks, slots, 0);
    laws::lemma_retained_tree(node, slots);
    recovery::genesis_slot_is_first(l, 0);
    assert forall|i: int| 0 <= i < s.len() implies {
        &&& (#[trigger] s[i]).sequence == m[i].sequence
        &&& l[i].sequence == m[i].sequence
        &&& s[i].hash == m[i].hash
        &&& s[i].len == m[i].len
        &&& s[i].spent_bits == m[i].spent_bits
        &&& s[i].flags >> 1 == m[i].flags >> 1
        &&& s[i].flags >> 3 == m[i].flags >> 3
        &&& s[i].flags & 1 == if recovery::genesis_slot(l, 0) == Some(i as u32) {
            1
        } else {
            m[i].flags & 1
        }
    } by {
        lemma_links_alone(m, slots, 0, i);
        assert(l[i].with_parent(NONE_REF).flags == m[i].with_parent(NONE_REF).flags);
        assert(l[i].with_parent(NONE_REF).hash == m[i].with_parent(NONE_REF).hash);
        assert(l[i].with_parent(NONE_REF).len == m[i].with_parent(NONE_REF).len);
        assert(l[i].with_parent(NONE_REF).sequence == m[i].with_parent(NONE_REF).sequence);
        assert(l[i].with_parent(NONE_REF).spent_bits == m[i].with_parent(NONE_REF).spent_bits);
        let f = l[i].flags;
        assert((f | 1) >> 1 == f >> 1 && (f | 1) >> 3 == f >> 3 && (f | 1) & 1 == 1)
            by (bit_vector);
    }
    assert forall|i: int| 0 <= i < s.len() implies #[trigger] deletion::held(s, i) == comes_back(
        slots,
        i,
    ) by {
        assert(m[i].occupied() == comes_back(slots, i));
    }
    assert forall|i: int| #[trigger] deletion::held(s, i) implies records_stored(
        s[i],
        slots[i]->0,
    ) by {
        assert(m[i].occupied());
        lemma_stored(slots[i]->0);
    }
    assert forall|i: int| #[trigger]
        deletion::held(s, i) && s[i].parent_ref != NONE_REF implies {
        let p = s[i].parent_ref as int;
        &&& deletion::held(s, p)
        &&& s[p].sequence + 1 == s[i].sequence
        &&& s[p].hash == (slots[i]->0).previous_hash
    } by {
        assert(s[i].occupied());
        assert(m[i].occupied());
    }
    assert forall|i: int, p: int| #[trigger]
        deletion::held(s, i) && #[trigger] deletion::held(s, p) && s[p].sequence + 1
            == s[i].sequence && s[p].hash == (slots[i]->0).previous_hash implies s[i].parent_ref
        != NONE_REF by {
        assert(s[i].occupied() && s[p].occupied());
        assert(m[i].occupied());
        assert(prev[i] == (slots[i]->0).previous_hash);
    }
    assert forall|i: int| #[trigger] deletion::held(s, i) implies (s[i].flags & 1 == 1) == (
    s[i].sequence == 0 && forall|j: int| 0 <= j < i ==> (#[trigger] s[j]).sequence != 0) by {
        assert(m[i].occupied());
        lemma_stored(slots[i]->0);
        if recovery::genesis_slot(l, 0) == Some(i as u32) {
            assert forall|j: int| 0 <= j < i implies (#[trigger] s[j]).sequence != 0 by {
                assert(l[j].sequence == s[j].sequence);
            }
        } else if s[i].sequence == 0 {
            assert(l[i].sequence == 0);
            let g = recovery::genesis_slot(l, 0)->0 as int;
            assert(s[g].sequence == l[g].sequence);
        }
    }
}

/// What a start keeps of that tree. A block it keeps is the stored one, in all but
/// its branch count and perhaps its parent; the active chain is kept. Where there
/// is a tip for every childless block and no block has more children than a branch
/// count can hold, the whole tree is kept.
pub proof fn starts_keep_the_stored_blocks(
    node: NodeView,
    slots: Seq<Option<ChainBlock>>,
    now: u64,
    i: int,
)
    requires
        founding::empty_tree(node.blocks),
        node.blocks.len() <= NONE_REF,
        slots.len() <= node.blocks.len(),
        0 <= i < node.blocks.len(),
    ensures
        ({
            let s = node.retained_tree(slots);
            let after = node.rebuilt(slots, now);
            &&& after.blocks.len() == node.blocks.len()
            &&& deletion::held(after.blocks, i) ==> {
                &&& comes_back(slots, i)
                &&& records_stored(after.blocks[i], slots[i]->0)
                &&& after.blocks[i].flags == s[i].flags
            }
            &&& deletion::held(s, i) && s[i].flags & 1 == 1 ==> deletion::held(after.blocks, i)
                && after.active_head == i
            &&& tables::leaf_count(s, 0) <= node.heads.len() && counts::kids_fit(s) ==> {
                &&& deletion::held(after.blocks, i) == deletion::held(s, i)
                &&& deletion::held(s, i) ==> after.blocks[i].parent_ref == s[i].parent_ref
            }
        }),
{
    let s = node.retained_tree(slots);
    let after = node.rebuilt(slots, now);
    let l = restart::linked(restart::materialized(node.blocks, slots, 0), slots, 0);
    let prev = restart::previous_hashes(slots, node.blocks.len());
    starts_rebuild_what_was_stored(node, slots);
    assert forall|k: int| 0 <= k < node.blocks.len() implies !(
    #[trigger] node.blocks[k]).occupied() by {
        assert(node.blocks[k].sequence == NONE_REF);
    }
    laws::lemma_retained_tree(node, slots);
    recovery::genesis_slot_is_first(l, 0);
    let active_head = match recovery::genesis_slot(l, 0) {
        Some(idx) => idx,
        None => NONE_REF,
    };
    let heads = Seq::new(node.heads.len(), |k: int| ChainHeadEntry::vacant());
    tips::rebuild_spares_the_active_chain(heads, s, prev, now, active_head);
    if deletion::held(after.blocks, i) {
        assert(after.blocks[i].occupied());
        assert(deletion::held(s, i));
        assert(tree::same_block(s[i], after.blocks[i]));
    }
    if deletion::held(s, i) && s[i].flags & 1 == 1 {
        assert(s[i].occupied() && s[i].active());
        assert(after.blocks[i].occupied());
    }
    if tables::leaf_count(s, 0) <= node.heads.len() && counts::kids_fit(s) {
        let same = NodeView { blocks: s, ..node };
        tables::lemma_blocks_rebuilt(same, node, slots, now);
        assert(after.blocks[i].occupied() == s[i].occupied());
    }
}

// -- Configuration and outcome -----------------------------------------------

/// Whether the block in slot `i` of the tree carries a configuration that node #0
/// signed and the registry accepts.
pub open spec fn carries_usable(
    s: Seq<BlockEntry>,
    slots: Seq<Option<ChainBlock>>,
    i: int,
) -> bool {
    &&& 0 <= i < slots.len()
    &&& deletion::held(s, i)
    &&& s[i].flags >> 3 == 3
    &&& slots[i] is Some
    &&& (slots[i]->0).payload is ChainConfig
    &&& ((slots[i]->0).payload->ChainConfig_0).signature_valid
    &&& ((slots[i]->0).payload->ChainConfig_0).accepted is Some
}

/// Whether the node holds the configuration of slot `i`, which is the lowest of the
/// tree that carries a usable one, and has not locked it.
pub open spec fn holds_configuration_of(
    node: NodeView,
    slots: Seq<Option<ChainBlock>>,
    i: int,
) -> bool {
    let envelope = (slots[i]->0).payload->ChainConfig_0;
    &&& carries_usable(node.blocks, slots, i)
    &&& forall|j: int| 0 <= j < i ==> !#[trigger] carries_usable(node.blocks, slots, j)
    &&& node.config is Tentative
    &&& node.config->Tentative_content == envelope.content@
    &&& node.config->Tentative_parameters == envelope.accepted->0
    &&& node.config_source == i
}

proof fn lemma_source(node: NodeView, slots: Seq<Option<ChainBlock>>, from: int)
    requires
        0 <= from,
        !(node.config is Durable),
        slots.len() <= node.blocks.len(),
    ensures
        match restart::tentative_source(node, slots, from) {
            Some(i) => {
                &&& from <= i < slots.len()
                &&& carries_usable(node.blocks, slots, i)
                &&& forall|j: int| from <= j < i ==> !#[trigger] carries_usable(
                    node.blocks,
                    slots,
                    j,
                )
            },
            None => forall|j: int| from <= j ==> !#[trigger] carries_usable(
                node.blocks,
                slots,
                j,
            ),
        },
    decreases slots.len() - from,
{
    if from < slots.len() {
        lemma_source(node, slots, from + 1);
        match slots[from] {
            Some(block) => match block.payload {
                BlockPayload::ChainConfig(envelope) => {},
                _ => {},
            },
            None => {},
        }
        assert(restart::tentative_source(node, slots, from) == Some(from) <==> carries_usable(
            node.blocks,
            slots,
            from,
        ));
    }
}

/// A start needs a control plane that it can read, and in it no configuration or
/// one that is accepted; where it cannot be read, an empty storage starts afresh.
/// What does not start leaves the node as it was.
pub proof fn starts_need_the_control_plane(
    node: NodeView,
    control: ControlPlane,
    slots: Seq<Option<ChainBlock>>,
    now: u64,
)
    requires
        node.config is Unloaded,
    ensures
        ({
            let (after, step) = node.started(control, slots, now);
            let fresh = InitStep::Finished {
                outcome: InitOutcome::StartedCollecting,
                next: NextCall::Idle,
            };
            let unreadable = InitStep::Finished {
                outcome: InitOutcome::Rejected(RestartRejectReason::ControlPlaneUnreadable),
                next: NextCall::Idle,
            };
            let unusable = InitStep::Finished {
                outcome: InitOutcome::Rejected(RestartRejectReason::ChainConfigUnusable),
                next: NextCall::Idle,
            };
            match control {
                ControlPlane::Unreadable { durable_blocks } => {
                    &&& after == node
                    &&& step == if durable_blocks == 0 {
                        fresh
                    } else {
                        unreadable
                    }
                },
                ControlPlane::Readable { chain_configuration } => match chain_configuration {
                    StoredConfiguration::Absent => step != unreadable && step != unusable,
                    StoredConfiguration::Unusable => after == node && step == unusable,
                    StoredConfiguration::Framed(envelope) => {
                        &&& envelope.accepted is None ==> after == node && step == unusable
                        &&& envelope.accepted is Some ==> step != unreadable && step != unusable
                    },
                },
            }
        }),
{
}

/// Where nothing stands in its way, a start goes on exactly if a block returned and
/// a configuration is held: it acquires. With no block it starts afresh; with
/// blocks but no configuration it collects again. The configuration that is held
/// is the one of the control plane, locked, or else that of the lowest slot of the
/// tree that carries a usable one, not locked.
pub proof fn starts_go_on_with_what_was_stored(
    node: NodeView,
    control: ControlPlane,
    slots: Seq<Option<ChainBlock>>,
    now: u64,
)
    requires
        node.config is Unloaded,
        founding::empty_tree(node.blocks),
        node.blocks.len() <= NONE_REF,
        slots.len() <= node.blocks.len(),
        control is Readable,
        !(control->chain_configuration is Unusable),
        control->chain_configuration is Framed ==> (
        control->chain_configuration->Framed_0).accepted is Some,
    ensures
        ({
            let (after, step) = node.started(control, slots, now);
            let locked = control->chain_configuration is Framed;
            let some = exists|i: int| #[trigger] comes_back(slots, i);
            let usable = exists|i: int| #[trigger] carries_usable(after.blocks, slots, i);
            &&& after.phase == node.phase
            &&& after.blocks == node.rebuilt(slots, now).blocks
            &&& after.heads == node.rebuilt(slots, now).heads
            &&& after.active_head == node.rebuilt(slots, now).active_head
            &&& !some ==> step == (InitStep::Finished {
                outcome: InitOutcome::StartedCollecting,
                next: NextCall::Idle,
            })
            &&& some && (locked || usable) ==> step == InitStep::Acquire
            &&& some && !locked && !usable ==> step == (InitStep::Finished {
                outcome: InitOutcome::ResumedCollecting,
                next: NextCall::Idle,
            })
            &&& locked ==> {
                let envelope = control->chain_configuration->Framed_0;
                &&& after.config is Durable
                &&& after.config->Durable_content == envelope.content@
                &&& after.config->Durable_parameters == envelope.accepted->0
            }
            &&& some && !locked && usable ==> exists|i: int| #[trigger]
                holds_configuration_of(after, slots, i)
            &&& !locked && !(some && usable) ==> after.config is Unloaded
            &&& locked || some && usable ==> after.vote_reset
        }),
{
    let m = restart::materialized(node.blocks, slots, 0);
    let relocked = node.relocked(control);
    let rebuilt = relocked.rebuilt(slots, now);
    assert(rebuilt.blocks == node.rebuilt(slots, now).blocks);
    assert forall|i: int| 0 <= i < node.blocks.len() implies !(
    #[trigger] node.blocks[i]).occupied() by {
        assert(node.blocks[i].sequence == NONE_REF);
    }
    lemma_returned(node.blocks, slots, 0);
    genesis::lemma_no_block(m);
    founding::lemma_some_block(m);
    if tree::occupied_count(m) == 0 {
        assert forall|i: int| !#[trigger] comes_back(slots, i) by {
            if comes_back(slots, i) {
                assert(m[i].occupied());
            }
        }
    } else {
        let i = choose|i: int| 0 <= i < m.len() && (#[trigger] m[i]).sequence != NONE_REF;
        assert(m[i].occupied());
        assert(comes_back(slots, i));
    }
    lemma_rebuilt_len(node, slots, now);
    let (after, step) = node.started(control, slots, now);
    if control->chain_configuration is Framed {
        assert(rebuilt.config is Durable);
        assert(after == rebuilt);
    } else {
        assert(control->chain_configuration is Absent);
        assert(rebuilt.config is Unloaded);
        lemma_source(rebuilt, slots, 0);
        match restart::tentative_source(rebuilt, slots, 0) {
            Some(i) => {
                assert(carries_usable(rebuilt.blocks, slots, i));
                assert(holds_configuration_of(rebuilt.reestablished(slots), slots, i));
            },
            None => {
                assert forall|i: int| !#[trigger] carries_usable(rebuilt.blocks, slots, i) by {}
                assert(rebuilt.reestablished(slots) == rebuilt);
            },
        }
    }
}

proof fn lemma_rebuilt_len(
    node: NodeView,
    slots: Seq<Option<ChainBlock>>,
    now: u64,
)
    requires
        founding::empty_tree(node.blocks),
        node.blocks.len() <= NONE_REF,
        slots.len() <= node.blocks.len(),
    ensures
        node.rebuilt(slots, now).blocks.len() == node.blocks.len(),
{
    if node.blocks.len() > 0 {
        starts_keep_the_stored_blocks(node, slots, now, 0);
    } else {
        let heads = Seq::new(node.heads.len(), |k: int| ChainHeadEntry::vacant());
        starts_rebuild_what_was_stored(node, slots);
        tips::rebuild_spares_the_active_chain(
            heads,
            node.retained_tree(slots),
            restart::previous_hashes(slots, node.blocks.len()),
            now,
            node.rebuilt(slots, now).active_head,
        );
    }
}

} // verus!
