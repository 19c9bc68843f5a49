use moonblokz_blockchain::blocks::{BlockEntry, BlockTable, BlockTableError, NONE_REF};
use moonblokz_blockchain::staged_validation::BlockStatus;

fn hash_of(byte: u8) -> [u8; 32] {
    [byte; 32]
}

#[test]
fn block_entry_size_is_within_budget() {
    assert_eq!(core::mem::size_of::<BlockEntry>(), 76);
}

#[test]
fn block_table_empty_slot_sentinel() {
    let table = BlockTable::<4>::new();
    for i in 0..4 {
        assert!(table.get(i).is_none());
    }
    assert_eq!(table.len(), 0);
}

#[test]
fn insert_assigns_index_and_is_findable() {
    let mut table = BlockTable::<4>::new();
    let entry = BlockEntry::new(hash_of(1), NONE_REF, 0);
    let idx = table.insert(entry).unwrap();
    assert_eq!(table.find(0, &hash_of(1)), Some(idx));
    assert_eq!(table.len(), 1);
}

#[test]
fn find_returns_none_for_unknown_sequence_hash() {
    let mut table = BlockTable::<4>::new();
    table
        .insert(BlockEntry::new(hash_of(1), NONE_REF, 0))
        .unwrap();
    assert_eq!(table.find(1, &hash_of(1)), None);
    assert_eq!(table.find(0, &hash_of(2)), None);
}

#[test]
fn insert_rejects_reserved_sequence_sentinel() {
    let mut table = BlockTable::<4>::new();
    let result = table.insert(BlockEntry::new(hash_of(1), NONE_REF, NONE_REF));
    assert_eq!(result, Err(BlockTableError::ReservedSequence));
    assert_eq!(table.len(), 0);
}

#[test]
fn insert_rejects_when_table_full() {
    let mut table = BlockTable::<2>::new();
    table
        .insert(BlockEntry::new(hash_of(1), NONE_REF, 0))
        .unwrap();
    table
        .insert(BlockEntry::new(hash_of(2), NONE_REF, 1))
        .unwrap();
    let result = table.insert(BlockEntry::new(hash_of(3), NONE_REF, 2));
    assert_eq!(result, Err(BlockTableError::Full));
    assert_eq!(table.len(), 2);
    assert!(table.find(0, &hash_of(1)).is_some());
    assert!(table.find(1, &hash_of(2)).is_some());
}

#[test]
fn ancestry_walk_finds_active_chain_through_multiple_hops() {
    let mut table = BlockTable::<8>::new();
    let root = table
        .insert(BlockEntry::new(hash_of(0), NONE_REF, 0))
        .unwrap();
    table.blocks[root as usize].set_on_active_chain(true);

    let child1 = table.insert(BlockEntry::new(hash_of(1), root, 1)).unwrap();
    let child2 = table
        .insert(BlockEntry::new(hash_of(2), child1, 2))
        .unwrap();
    let tip = table
        .insert(BlockEntry::new(hash_of(3), child2, 3))
        .unwrap();

    assert!(table.walks_to_active_chain(tip));
}

#[test]
fn ancestry_walk_returns_false_on_unresolved_parent() {
    let mut table = BlockTable::<4>::new();
    let orphan = table
        .insert(BlockEntry::new(hash_of(1), NONE_REF, 5))
        .unwrap();
    assert!(!table.walks_to_active_chain(orphan));
}

#[test]
fn ancestry_walk_is_bounded() {
    let mut table = BlockTable::<4>::new();
    let a = table
        .insert(BlockEntry::new(hash_of(1), NONE_REF, 0))
        .unwrap();
    let b = table.insert(BlockEntry::new(hash_of(2), a, 1)).unwrap();
    table.blocks[a as usize].parent_ref = b;
    assert!(!table.walks_to_active_chain(b));
}

#[test]
fn multiple_branches_all_retained() {
    let mut table = BlockTable::<8>::new();
    let root = table
        .insert(BlockEntry::new(hash_of(0), NONE_REF, 0))
        .unwrap();
    let branch_a = table.insert(BlockEntry::new(hash_of(1), root, 1)).unwrap();
    let branch_b = table.insert(BlockEntry::new(hash_of(2), root, 1)).unwrap();

    assert_ne!(branch_a, branch_b);
    assert!(table.find(1, &hash_of(1)).is_some());
    assert!(table.find(1, &hash_of(2)).is_some());
    assert_eq!(table.len(), 3);
}

#[test]
fn status_default_is_stored() {
    assert_eq!(
        BlockEntry::new(hash_of(1), NONE_REF, 0).status(),
        BlockStatus::Stored
    );
    assert_eq!(BlockEntry::new_empty().status(), BlockStatus::Stored);
}

#[test]
fn status_round_trips_through_flags() {
    for status in [
        BlockStatus::Stored,
        BlockStatus::Connected,
        BlockStatus::Active,
    ] {
        let mut entry = BlockEntry::new(hash_of(1), NONE_REF, 0);
        entry.set_status(status);
        assert_eq!(entry.status(), status);
    }
}

#[test]
fn status_and_active_chain_bit_are_independent() {
    let mut entry = BlockEntry::new(hash_of(1), NONE_REF, 0);
    entry.set_on_active_chain(true);
    entry.set_status(BlockStatus::Active);
    assert!(entry.is_on_active_chain());
    assert_eq!(entry.status(), BlockStatus::Active);

    entry.set_status(BlockStatus::Stored);
    assert!(
        entry.is_on_active_chain(),
        "flipping status must not clear the active-chain bit"
    );

    entry.set_status(BlockStatus::Connected);
    entry.set_on_active_chain(false);
    assert_eq!(
        entry.status(),
        BlockStatus::Connected,
        "clearing the active-chain bit must not disturb status"
    );
    assert!(!entry.is_on_active_chain());
}

#[test]
fn block_table_footprint_invariant() {
    let mut table = BlockTable::<4>::new();
    for i in 0..4u32 {
        table
            .insert(BlockEntry::new(hash_of(i as u8), NONE_REF, i))
            .unwrap();
        assert!(table.len() <= 4);
    }
    for entry in table.blocks.iter() {
        assert!(!entry.is_empty_slot());
    }
    assert_eq!(
        table.insert(BlockEntry::new(hash_of(99), NONE_REF, 99)),
        Err(BlockTableError::Full)
    );
}

#[test]
fn retained_length_is_the_recorded_one_where_it_fits() {
    let mut t = BlockTable::<4>::new();
    let idx = t.insert(BlockEntry::new(hash_of(1), NONE_REF, 7)).expect("room");
    assert_eq!(t.retained_len(idx, 300), 300, "no length is on record");
    t.blocks[idx as usize].set_len(120);
    assert_eq!(t.retained_len(idx, 300), 120);
    assert_eq!(t.retained_len(idx, 120), 120);
    assert_eq!(t.retained_len(idx, 119), 119, "less was read than is on record");
    assert_eq!(t.retained_len(idx + 1, 300), 300, "the slot is empty");
    assert_eq!(t.retained_len(4, 300), 300, "no such slot");
}
