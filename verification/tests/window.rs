use moonblokz_blockchain::intake::{snake_chain_window_verdict, WindowVerdict};

const W: u32 = 16;

#[test]
fn window_verdict_in_window_interior() {
    assert_eq!(
        snake_chain_window_verdict(10, 5, 20, W),
        WindowVerdict::InWindow
    );
}

#[test]
fn window_verdict_in_window_at_tail_boundary() {
    assert_eq!(
        snake_chain_window_verdict(5, 5, 20, W),
        WindowVerdict::InWindow
    );
}

#[test]
fn window_verdict_in_window_just_below_ahead_boundary() {
    assert_eq!(
        snake_chain_window_verdict(20 + W - 1, 5, 20, W),
        WindowVerdict::InWindow
    );
}

#[test]
fn window_verdict_too_far_ahead_at_boundary() {
    assert_eq!(
        snake_chain_window_verdict(20 + W, 5, 20, W),
        WindowVerdict::TooFarAhead
    );
}

#[test]
fn window_verdict_below_tail() {
    assert_eq!(
        snake_chain_window_verdict(4, 5, 20, W),
        WindowVerdict::BelowTail
    );
}

#[test]
fn window_verdict_no_overflow_near_u32_max() {
    assert_eq!(
        snake_chain_window_verdict(u32::MAX, 0, u32::MAX - 3, W),
        WindowVerdict::InWindow
    );
    assert_eq!(
        snake_chain_window_verdict(u32::MAX, 0, u32::MAX - 20, W),
        WindowVerdict::TooFarAhead
    );
}
