use moonblokz_blockchain::node_info::{NodeInfoState, PUBLIC_KEY_SIZE};

fn make() -> NodeInfoState<16> {
    NodeInfoState::new()
}

#[test]
fn init_in_place_sets_empty_baseline() {
    let ni = make();
    assert_eq!(ni.max_known_node_id(), 0);
    assert!(
        !ni.is_seeded(0),
        "seed_source sentinel is NONE_REF (unseeded)"
    );
    assert!(!ni.is_seeded(15));
    assert_eq!(ni.balance_of(7), 0);
    assert!(
        ni.public_key_of(7).is_none(),
        "empty-slot sentinel is all-zero key"
    );
}

#[test]
fn seed_credit_debit_watermark_and_reset() {
    let mut ni = make();
    ni.seed_node(2, &[7u8; PUBLIC_KEY_SIZE], 100, 4);
    assert!(ni.is_seeded(2));
    assert_eq!(ni.balance_of(2), 100);
    assert!(ni.public_key_of(2).is_some());
    ni.credit(2, 50);
    ni.debit(2, 30);
    assert_eq!(ni.balance_of(2), 120);
    ni.debit(2, u64::MAX);
    assert_eq!(ni.balance_of(2), 0);
    ni.set_max_known_node_id(9);
    assert_eq!(ni.max_known_node_id(), 9);
    ni.reset();
    assert_eq!(ni.max_known_node_id(), 0);
    assert!(!ni.is_seeded(2));
    assert_eq!(ni.balance_of(2), 0);
    assert!(ni.public_key_of(2).is_none());
}

#[test]
fn out_of_range_node_id_is_ignored() {
    let mut ni = make();
    ni.seed_node(999, &[1u8; PUBLIC_KEY_SIZE], 5, 0);
    ni.credit(999, 10);
    assert!(!ni.is_seeded(999));
    assert_eq!(ni.balance_of(999), 0);
    assert!(ni.public_key_of(999).is_none());
}

#[test]
fn a_node_that_is_not_seeded_has_no_balance() {
    let mut ni = make();
    ni.credit(3, 10);
    assert!(!ni.is_seeded(3));
    assert_eq!(ni.balance_of(3), 0);
    ni.credit(999, 10);
    assert_eq!(ni.balance_of(999), 0);
    ni.seed_node(3, &[7u8; PUBLIC_KEY_SIZE], 5, 1);
    assert_eq!(ni.balance_of(3), 5);
}
