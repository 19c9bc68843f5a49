use moonblokz_blockchain::lifecycle::{is_legal_transition, LifecyclePhase};

#[test]
fn module_skeleton_compiles() {}

#[test]
fn legal_edges_accepted() {
    assert!(is_legal_transition(
        &LifecyclePhase::Collecting,
        &LifecyclePhase::Processing
    ));
    assert!(is_legal_transition(
        &LifecyclePhase::Processing,
        &LifecyclePhase::Ready
    ));
    assert!(is_legal_transition(
        &LifecyclePhase::Processing,
        &LifecyclePhase::Collecting
    ));
}

#[test]
fn illegal_edges_rejected() {
    assert!(!is_legal_transition(
        &LifecyclePhase::Collecting,
        &LifecyclePhase::Ready
    ));
    assert!(!is_legal_transition(
        &LifecyclePhase::Ready,
        &LifecyclePhase::Collecting
    ));
    assert!(!is_legal_transition(
        &LifecyclePhase::Ready,
        &LifecyclePhase::Processing
    ));
    assert!(!is_legal_transition(
        &LifecyclePhase::Collecting,
        &LifecyclePhase::Collecting
    ));
    assert!(!is_legal_transition(
        &LifecyclePhase::Processing,
        &LifecyclePhase::Processing
    ));
    assert!(!is_legal_transition(
        &LifecyclePhase::Ready,
        &LifecyclePhase::Ready
    ));
}
