use moonblokz_blockchain::blocks::{BlockEntry, BlockTable, NONE_REF};
use moonblokz_blockchain::chain_heads::{Anchor, ChainHeadsTable};

fn hash_of(byte: u8) -> [u8; 32] {
    [byte; 32]
}

/// Enters a block by its metadata alone; tips are a matter of the graph.
fn put<const N: usize>(t: &mut BlockTable<N>, byte: u8, parent: u32, seq: u32) -> u32 {
    t.insert(BlockEntry::new(hash_of(byte), parent, seq))
        .unwrap()
}

#[test]
fn empty_table_has_no_heads() {
    let ch = ChainHeadsTable::<4>::new();
    assert_eq!(ch.count(), 0);
    assert!(!ch.has_stored_head());
}

#[test]
fn new_stored_head_on_unresolved_parent() {
    let mut blocks = BlockTable::<8>::new();
    let mut ch = ChainHeadsTable::<4>::new();
    let b = put(&mut blocks, 5, NONE_REF, 5);
    ch.on_block_admitted(&mut blocks, b, None, hash_of(9), 1_000, NONE_REF);
    assert_eq!(ch.count(), 1);
    assert!(ch.has_stored_head());
    assert!(ch.head_at(0).is_stored());
    assert_eq!(ch.head_at(0).tail_or_connection_idx, b);
    assert_eq!(ch.head_at(0).missing_parent_hash, hash_of(9));
    assert_eq!(ch.head_at(0).last_request_timestamp, 0);
    assert_eq!(blocks.head_ref_count(b), Some(1));
}

#[test]
fn extend_advances_single_head() {
    let mut blocks = BlockTable::<8>::new();
    let mut ch = ChainHeadsTable::<4>::new();
    let a = put(&mut blocks, 1, NONE_REF, 5);
    ch.on_block_admitted(&mut blocks, a, None, hash_of(9), 1, NONE_REF);
    let b = put(&mut blocks, 2, a, 6);
    ch.on_block_admitted(&mut blocks, b, Some(a), hash_of(1), 2, NONE_REF);
    assert_eq!(ch.count(), 1, "extend does not create a new head");
    assert_eq!(ch.head_at(0).head_idx, b);
    assert_eq!(
        blocks.head_ref_count(a),
        Some(1),
        "extend leaves parent unchanged"
    );
    assert_eq!(blocks.head_ref_count(b), Some(1));
}

#[test]
fn fork_creates_second_head_and_bumps_fork_point() {
    let mut blocks = BlockTable::<8>::new();
    let mut ch = ChainHeadsTable::<4>::new();
    let a = put(&mut blocks, 1, NONE_REF, 5);
    ch.on_block_admitted(&mut blocks, a, None, hash_of(9), 1, NONE_REF);
    let b = put(&mut blocks, 2, a, 6);
    ch.on_block_admitted(&mut blocks, b, Some(a), hash_of(1), 2, NONE_REF);
    let bp = put(&mut blocks, 3, a, 6);
    ch.on_block_admitted(&mut blocks, bp, Some(a), hash_of(1), 3, NONE_REF);
    assert_eq!(ch.count(), 2, "fork creates a second head");
    assert_eq!(
        blocks.head_ref_count(a),
        Some(2),
        "fork-point gains a branch (+1) for eviction safety"
    );
    assert_eq!(blocks.head_ref_count(b), Some(1));
    assert_eq!(blocks.head_ref_count(bp), Some(1));
}

#[test]
fn eviction_deletes_exclusive_blocks_and_protects_shared() {
    let mut blocks = BlockTable::<8>::new();
    let mut ch = ChainHeadsTable::<4>::new();
    let a = put(&mut blocks, 1, NONE_REF, 5);
    ch.on_block_admitted(&mut blocks, a, None, hash_of(9), 1, NONE_REF);
    let b = put(&mut blocks, 2, a, 6);
    ch.on_block_admitted(&mut blocks, b, Some(a), hash_of(1), 2, NONE_REF);
    let bp = put(&mut blocks, 3, a, 6);
    ch.on_block_admitted(&mut blocks, bp, Some(a), hash_of(1), 3, NONE_REF);
    ch.evict_one(&mut blocks, NONE_REF);
    assert_eq!(ch.count(), 1);
    assert!(blocks.get(b).is_none(), "exclusive block B deleted");
    assert!(blocks.get(a).is_some(), "shared fork-point A protected");
    assert_eq!(
        blocks.head_ref_count(a),
        Some(1),
        "A decremented to B'-only"
    );
    assert!(blocks.get(bp).is_some(), "surviving head B' intact");
}

#[test]
fn eviction_full_branch_when_unshared() {
    let mut blocks = BlockTable::<8>::new();
    let mut ch = ChainHeadsTable::<4>::new();
    let a = put(&mut blocks, 1, NONE_REF, 5);
    ch.on_block_admitted(&mut blocks, a, None, hash_of(9), 1, NONE_REF);
    let b = put(&mut blocks, 2, a, 6);
    ch.on_block_admitted(&mut blocks, b, Some(a), hash_of(1), 2, NONE_REF);
    ch.evict_one(&mut blocks, NONE_REF);
    assert_eq!(ch.count(), 0);
    assert!(blocks.get(a).is_none());
    assert!(blocks.get(b).is_none(), "whole unshared branch deleted");
}

#[test]
fn eviction_never_evicts_active_head() {
    let mut blocks = BlockTable::<8>::new();
    let mut ch = ChainHeadsTable::<4>::new();
    let a = put(&mut blocks, 1, NONE_REF, 5);
    ch.on_block_admitted(&mut blocks, a, None, hash_of(9), 1, NONE_REF);
    let b = put(&mut blocks, 2, NONE_REF, 4);
    ch.on_block_admitted(&mut blocks, b, None, hash_of(8), 2, NONE_REF);
    ch.evict_one(&mut blocks, a);
    assert!(blocks.get(a).is_some(), "active head never evicted");
    assert!(
        blocks.get(b).is_none(),
        "non-active smaller-seq head evicted"
    );
}

#[test]
fn scheduler_selects_most_overdue_then_tie_breaks() {
    let mut blocks = BlockTable::<8>::new();
    let mut ch = ChainHeadsTable::<4>::new();
    let lo = put(&mut blocks, 20, NONE_REF, 5);
    ch.on_block_admitted(&mut blocks, lo, None, hash_of(20), 1, NONE_REF);
    let hi = put(&mut blocks, 30, NONE_REF, 9);
    ch.on_block_admitted(&mut blocks, hi, None, hash_of(30), 1, NONE_REF);
    let (slot, req) = ch
        .select_parent_recovery(&blocks, 1_000_000, 100)
        .expect("an eligible head");
    assert_eq!(
        ch.head_at(slot).head_idx,
        lo,
        "smaller head_sequence wins the lrt=0 tie"
    );
    assert_eq!(req.missing_parent_hash(), &hash_of(20));
    assert_eq!(req.claimed_parent_sequence(), 4, "tail.sequence - 1");
}

#[test]
fn scheduler_per_head_retry_window_gates() {
    let mut blocks = BlockTable::<8>::new();
    let mut ch = ChainHeadsTable::<4>::new();
    let h = put(&mut blocks, 20, NONE_REF, 5);
    ch.on_block_admitted(&mut blocks, h, None, hash_of(20), 1, NONE_REF);
    let (slot, _) = ch.select_parent_recovery(&blocks, 1_000, 500).unwrap();
    ch.mark_requested(slot, 1_000);
    assert!(
        ch.select_parent_recovery(&blocks, 1_400, 500).is_none(),
        "per-head retry window not yet elapsed"
    );
    assert!(
        ch.select_parent_recovery(&blocks, 1_500, 500).is_some(),
        "retry window elapsed at now == lrt + retry"
    );
}

#[test]
fn scheduler_never_requested_head_is_immediately_eligible() {
    let mut blocks = BlockTable::<8>::new();
    let mut ch = ChainHeadsTable::<4>::new();
    let h = put(&mut blocks, 20, NONE_REF, 5);
    ch.on_block_admitted(&mut blocks, h, None, hash_of(20), 1, NONE_REF);
    assert!(
        ch.select_parent_recovery(&blocks, 5, 120_000).is_some(),
        "lrt == 0 is eligible even at now (5) << per_head_retry (120000)"
    );
    assert_eq!(ch.earliest_recovery_deadline(120_000), Some(0));
    let (slot, _) = ch.select_parent_recovery(&blocks, 5, 120_000).unwrap();
    ch.mark_requested(slot, 1_000);
    assert_eq!(ch.earliest_recovery_deadline(120_000), Some(121_000));
    assert!(ch.select_parent_recovery(&blocks, 5, 120_000).is_none());
}

#[test]
fn earliest_recovery_deadline_none_without_stored_heads() {
    let ch = ChainHeadsTable::<4>::new();
    assert_eq!(ch.earliest_recovery_deadline(120_000), None);
}

#[test]
fn scheduler_ignores_connected_heads() {
    let mut blocks = BlockTable::<8>::new();
    let mut ch = ChainHeadsTable::<4>::new();
    let mut e = BlockEntry::new(hash_of(1), NONE_REF, 0);
    e.set_on_active_chain(true);
    let g = blocks.insert(e).unwrap();
    ch.on_block_admitted(&mut blocks, g, None, [0; 32], 1, g);
    assert!(
        ch.head_at(0).is_connected(),
        "genesis/active head is Connected"
    );
    assert!(!ch.has_stored_head());
    assert!(ch.select_parent_recovery(&blocks, 1_000_000, 1).is_none());
}

#[test]
fn event_ii_resolves_tail_to_new_deeper_tail() {
    let mut blocks = BlockTable::<8>::new();
    let mut ch = ChainHeadsTable::<4>::new();
    let t = put(&mut blocks, 6, NONE_REF, 6);
    ch.on_block_admitted(&mut blocks, t, None, hash_of(5), 1, NONE_REF);
    assert_eq!(ch.head_at(0).tail_or_connection_idx, t);
    let x = put(&mut blocks, 5, NONE_REF, 5);
    ch.on_block_admitted(&mut blocks, x, None, hash_of(4), 2, NONE_REF);
    assert_eq!(
        ch.count(),
        1,
        "X's transient head merges into H (one branch)"
    );
    let h_slot = (0..4).find(|&s| ch.head_at(s).head_idx == t).unwrap();
    assert!(ch.head_at(h_slot).is_stored());
    assert_eq!(ch.head_at(h_slot).tail_or_connection_idx, x);
    assert_eq!(ch.head_at(h_slot).missing_parent_hash, hash_of(4));
    assert_eq!(blocks.get(t).unwrap().parent_ref(), x, "tail linked to X");
    assert_eq!(blocks.head_ref_count(x), Some(1));
    ch.evict_one(&mut blocks, NONE_REF);
    assert_eq!(ch.count(), 0);
    assert!(blocks.get(t).is_none());
    assert!(
        blocks.get(x).is_none(),
        "no leaked block after merge + eviction"
    );
}

#[test]
fn eviction_never_deletes_active_chain_root_after_extend() {
    let mut blocks = BlockTable::<8>::new();
    let mut ch = ChainHeadsTable::<4>::new();
    let mut ge = BlockEntry::new(hash_of(1), NONE_REF, 0);
    ge.set_on_active_chain(true);
    let g = blocks.insert(ge).unwrap();
    ch.on_block_admitted(&mut blocks, g, None, [0; 32], 1, g);
    let b = put(&mut blocks, 2, g, 1);
    ch.on_block_admitted(&mut blocks, b, Some(g), hash_of(1), 2, g);
    assert_eq!(ch.count(), 1);
    assert_eq!(
        ch.head_at(0).head_idx,
        b,
        "head advanced off the active root"
    );
    for (byte, seq) in [(20u8, 5u32), (30, 6), (40, 7)] {
        let o = put(&mut blocks, byte, NONE_REF, seq);
        ch.on_block_admitted(&mut blocks, o, None, hash_of(byte), 3, g);
    }
    assert_eq!(ch.count(), 4);
    let extra = put(&mut blocks, 50, NONE_REF, 9);
    ch.on_block_admitted(&mut blocks, extra, None, hash_of(50), 4, g);
    assert!(
        blocks.get(g).is_some(),
        "genesis / active root is never evicted"
    );
    assert!(
        blocks.get(b).is_none(),
        "the Connected extension B was the victim"
    );
    assert_eq!(ch.count(), 4, "capacity held");
}

#[test]
fn event_ii_shared_tail_resolves_all_heads_no_zombie() {
    let mut blocks = BlockTable::<8>::new();
    let mut ch = ChainHeadsTable::<4>::new();
    let t = put(&mut blocks, 6, NONE_REF, 5);
    ch.on_block_admitted(&mut blocks, t, None, hash_of(4), 1, NONE_REF);
    let u = put(&mut blocks, 7, t, 6);
    ch.on_block_admitted(&mut blocks, u, Some(t), hash_of(6), 2, NONE_REF);
    let v = put(&mut blocks, 8, t, 6);
    ch.on_block_admitted(&mut blocks, v, Some(t), hash_of(6), 3, NONE_REF);
    assert_eq!(ch.count(), 2, "two heads U and V share tail T");
    let x = put(&mut blocks, 4, NONE_REF, 4);
    ch.on_block_admitted(&mut blocks, x, None, hash_of(3), 4, NONE_REF);
    for slot in 0..4 {
        let h = ch.head_at(slot);
        if !h.is_empty() && !h.is_connected() {
            assert_ne!(
                h.missing_parent_hash,
                hash_of(4),
                "no head still requests the now-present block X"
            );
            assert_eq!(
                h.tail_or_connection_idx, x,
                "both heads' tails migrated to X"
            );
            assert_eq!(h.missing_parent_hash, hash_of(3));
        }
    }
    assert_eq!(ch.count(), 2, "U and V both survive as heads");
    assert_eq!(blocks.head_ref_count(x), Some(1), "X has one child (T)");
    assert_eq!(blocks.head_ref_count(t), Some(2), "T forks to U and V");
    let (_, req) = ch.select_parent_recovery(&blocks, 1_000_000, 1).unwrap();
    assert_eq!(
        req.missing_parent_hash(),
        &hash_of(3),
        "requests X's parent, not X"
    );
}

#[test]
fn event_ii_connects_to_active_chain() {
    let mut blocks = BlockTable::<8>::new();
    let mut ch = ChainHeadsTable::<4>::new();
    let mut ge = BlockEntry::new(hash_of(7), NONE_REF, 0);
    ge.set_on_active_chain(true);
    let g = blocks.insert(ge).unwrap();
    ch.on_block_admitted(&mut blocks, g, None, [0; 32], 1, g);
    let t = put(&mut blocks, 6, NONE_REF, 1);
    ch.on_block_admitted(&mut blocks, t, None, hash_of(7), 2, NONE_REF);
    assert!(ch.head_at(1).is_stored());
    ch.resolve_pending_tails(&mut blocks, g, &[0; 32]);
    let h_slot = (0..4).find(|&s| ch.head_at(s).head_idx == t).unwrap();
    assert!(
        !ch.head_at(h_slot).is_stored(),
        "H transitions to Connected"
    );
    assert_eq!(
        ch.head_at(h_slot).tail_or_connection_idx,
        g,
        "connection-point is the active block"
    );
    assert!(!ch.has_stored_head());
}

#[test]
fn eviction_takes_exactly_what_no_other_tip_needs() {
    let mut blocks = BlockTable::<16>::new();
    let mut ch = ChainHeadsTable::<4>::new();
    let mut grow = |blocks: &mut BlockTable<16>, byte: u8, parent: u32, seq: u32| {
        let idx = put(blocks, byte, parent, seq);
        let linked = if parent == NONE_REF { None } else { Some(parent) };
        ch.on_block_admitted(blocks, idx, linked, hash_of(byte + 100), 1, NONE_REF);
        idx
    };
    let root = grow(&mut blocks, 1, NONE_REF, 5);
    let fork = grow(&mut blocks, 2, root, 6);
    let short = grow(&mut blocks, 3, fork, 7);
    let shorter_tip = grow(&mut blocks, 4, short, 8);
    let long = grow(&mut blocks, 5, fork, 7);
    let longer = grow(&mut blocks, 6, long, 8);
    let long_tip = grow(&mut blocks, 7, longer, 9);
    let alone = grow(&mut blocks, 8, NONE_REF, 20);
    assert_eq!(ch.count(), 3);
    ch.evict_one(&mut blocks, NONE_REF);
    for gone in [short, shorter_tip] {
        assert!(blocks.get(gone).is_none());
    }
    for kept in [root, fork, long, longer, long_tip, alone] {
        assert!(blocks.get(kept).is_some());
    }
    assert_eq!(blocks.head_ref_count(fork), Some(1));
    assert_eq!(ch.count(), 2);
}

#[test]
fn eviction_spares_the_active_chain_below_its_victim() {
    let mut blocks = BlockTable::<8>::new();
    let mut ch = ChainHeadsTable::<4>::new();
    let root = put(&mut blocks, 1, NONE_REF, 5);
    ch.on_block_admitted(&mut blocks, root, None, hash_of(9), 1, NONE_REF);
    blocks.blocks[root as usize].set_on_active_chain(true);
    let a = put(&mut blocks, 2, root, 6);
    ch.on_block_admitted(&mut blocks, a, Some(root), hash_of(1), 1, root);
    let b = put(&mut blocks, 3, a, 7);
    ch.on_block_admitted(&mut blocks, b, Some(a), hash_of(2), 1, root);
    ch.evict_one(&mut blocks, root);
    assert!(blocks.get(b).is_none());
    assert!(blocks.get(a).is_none());
    assert_eq!(blocks.head_ref_count(root), Some(0));
}

#[test]
fn walks_end_at_the_first_active_block_or_at_the_last_one() {
    let mut blocks = BlockTable::<8>::new();
    let root = put(&mut blocks, 1, NONE_REF, 5);
    let a = put(&mut blocks, 2, root, 6);
    let b = put(&mut blocks, 3, a, 7);
    let tip = put(&mut blocks, 4, b, 8);
    let end = |blocks: &BlockTable<8>, start: u32| {
        let reached = blocks.walks_to_active_chain(start);
        match ChainHeadsTable::<4>::locate_anchor(blocks, start) {
            Anchor::Connection(idx) => {
                assert!(reached);
                (true, idx)
            }
            Anchor::Tail(idx) => {
                assert!(!reached);
                (false, idx)
            }
        }
    };
    assert_eq!(end(&blocks, tip), (false, root));
    blocks.blocks[root as usize].set_on_active_chain(true);
    assert_eq!(end(&blocks, tip), (true, root));
    blocks.blocks[a as usize].set_on_active_chain(true);
    assert_eq!(end(&blocks, tip), (true, a));
    assert_eq!(end(&blocks, root), (true, root));
    blocks.blocks[a as usize].set_on_active_chain(false);
    blocks.blocks[a as usize].parent_ref = 7;
    assert_eq!(end(&blocks, tip), (false, a), "the slot below is empty");
    assert_eq!(end(&blocks, 7), (false, 7));
}

#[test]
fn eviction_from_a_table_of_one_slot() {
    let mut blocks = BlockTable::<8>::new();
    let mut ch = ChainHeadsTable::<1>::new();
    let root = put(&mut blocks, 1, NONE_REF, 5);
    ch.on_block_admitted(&mut blocks, root, None, hash_of(9), 1, NONE_REF);
    let tip = put(&mut blocks, 2, root, 6);
    ch.on_block_admitted(&mut blocks, tip, Some(root), hash_of(1), 1, NONE_REF);
    assert_eq!(ch.occupied_heads(), vec![(tip, root)]);
    ch.evict_one(&mut blocks, NONE_REF);
    assert_eq!(ch.count(), 0);
    assert!(blocks.get(tip).is_none());
    assert!(blocks.get(root).is_none());
}

#[test]
fn eviction_without_a_victim_changes_nothing() {
    let mut blocks = BlockTable::<8>::new();
    let mut ch = ChainHeadsTable::<2>::new();
    ch.evict_one(&mut blocks, NONE_REF);
    assert_eq!(ch.count(), 0);
    let root = put(&mut blocks, 1, NONE_REF, 5);
    ch.on_block_admitted(&mut blocks, root, None, hash_of(9), 1, root);
    let before = blocks.blocks.clone();
    let tips = ch.occupied_heads();
    ch.evict_one(&mut blocks, root);
    assert_eq!(ch.occupied_heads(), tips);
    for (old, new) in before.iter().zip(blocks.blocks.iter()) {
        assert_eq!(old.hash, new.hash);
        assert_eq!(old.sequence, new.sequence);
        assert_eq!(old.head_ref_count, new.head_ref_count);
    }
}
