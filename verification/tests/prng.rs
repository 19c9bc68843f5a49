use moonblokz_blockchain::prng::Prng;
use rand_xoshiro::rand_core::{RngCore, SeedableRng};
use rand_xoshiro::Xoshiro256PlusPlus;

#[test]
fn derive_subseed_is_deterministic() {
    let p = Prng::new(0x1234_5678_9ABC_DEF0);
    let a = p.derive_subseed(b"mempool");
    let b = p.derive_subseed(b"mempool");
    assert_eq!(a, b);
}

#[test]
fn derive_subseed_pure_no_inner_dependence() {
    let mut p1 = Prng::new(0x1234);
    let _ = p1.next_u64();
    let _ = p1.next_u64();
    let _ = p1.next_u64();

    let p2 = Prng::new(0x1234);
    assert_eq!(p1.derive_subseed(b"mempool"), p2.derive_subseed(b"mempool"));
}

#[test]
fn different_labels_produce_different_subseeds() {
    let p = Prng::new(0xFEED_FACE_DEAD_BEEF);
    let m = p.derive_subseed(b"mempool");
    let i = p.derive_subseed(b"intake");
    let r = p.derive_subseed(b"replay");
    assert_ne!(m, i);
    assert_ne!(i, r);
    assert_ne!(m, r);
}

#[test]
fn next_u64_advances_state_and_diverges() {
    let mut p = Prng::new(0x7777);
    let a = p.next_u64();
    let b = p.next_u64();
    let c = p.next_u64();
    assert_ne!(a, b);
    assert_ne!(b, c);
    assert_ne!(a, c);
}

#[test]
fn different_seeds_produce_different_streams() {
    let mut p1 = Prng::new(1);
    let mut p2 = Prng::new(2);
    assert_ne!(p1.next_u64(), p2.next_u64());
}

#[test]
fn draws_are_those_of_the_seeded_generator() {
    for seed in [0u64, 1, 0xDEAD_BEEF] {
        let mut expected = Xoshiro256PlusPlus::seed_from_u64(seed);
        let mut prng = Prng::new(seed);
        for _ in 0..5 {
            assert_eq!(prng.next_u64(), expected.next_u64());
        }
        assert_ne!(Prng::new(seed).next_u64(), seed);
    }
}

#[test]
fn subseed_is_the_seed_folded_with_the_label() {
    assert_eq!(Prng::new(0).derive_subseed(b""), 0xCBF2_9CE4_8422_2325);
    assert_eq!(Prng::new(0).derive_subseed(b"a"), 0xAF63_DC4C_8601_EC8C);
    assert_eq!(Prng::new(7).derive_subseed(b"a"), 0xAF63_DC4C_8601_EC8C ^ 7);
}
