use slotcore::authority::{Authority, AuthoritySet};
use slotcore::slots::{
    proposal_allowance, slot_at, EngineConfig, SkipReason, SlotConsensusEngine, SlotDecision,
};

fn engine_authorities() -> AuthoritySet {
    AuthoritySet::from_entries(vec![
        Authority { key: 1, weight: 1 },
        Authority { key: 2, weight: 1 },
        Authority { key: 3, weight: 1 },
    ])
    .unwrap()
}

fn config() -> EngineConfig {
    EngineConfig {
        genesis_time_ms: 0,
        slot_duration_ms: 1000,
        proposal_share_percent: 50,
        authoring_enabled: true,
    }
}

#[test]
fn slot_number_follows_the_clock() {
    assert_eq!(slot_at(0, 0, 1000), 0);
    assert_eq!(slot_at(999, 0, 1000), 0);
    assert_eq!(slot_at(5000, 0, 1000), 5);
    assert_eq!(slot_at(5999, 0, 1000), 5);
    assert_eq!(slot_at(7_300, 2_000, 1000), 5);
}

#[test]
fn proposal_allowance_is_half_the_slot_at_fifty_percent() {
    assert_eq!(proposal_allowance(config()), 500);
    let c = EngineConfig { proposal_share_percent: 20, ..config() };
    assert_eq!(proposal_allowance(c), 200);
}

#[test]
fn leader_authors_once_per_slot() {
    let auth = engine_authorities();
    let mut engine = SlotConsensusEngine::new(1, config());
    let d = engine.on_slot(5, &auth, true, true);
    assert!(matches!(d, SlotDecision::Author { proposal_allowance_ms: 500 }));
    // The same slot never yields a second block for the same key.
    let again = engine.on_slot(5, &auth, true, true);
    assert!(matches!(
        again,
        SlotDecision::Skip { reason: SkipReason::AlreadyAuthored }
    ));
    // Nor does an earlier slot after a restart-free run.
    let earlier = engine.on_slot(4, &auth, true, true);
    assert!(matches!(
        earlier,
        SlotDecision::Skip { reason: SkipReason::AlreadyAuthored }
    ));
    // The next slot is available again.
    let next = engine.on_slot(6, &auth, true, true);
    assert!(matches!(next, SlotDecision::Author { .. }));
}

#[test]
fn non_members_and_non_leaders_skip() {
    let auth = engine_authorities();
    let mut outsider = SlotConsensusEngine::new(9, config());
    assert!(matches!(
        outsider.on_slot(1, &auth, true, true),
        SlotDecision::Skip { reason: SkipReason::NotAnAuthority }
    ));
    let mut member = SlotConsensusEngine::new(2, config());
    assert!(matches!(
        member.on_slot(1, &auth, false, true),
        SlotDecision::Skip { reason: SkipReason::NotLeader }
    ));
}

#[test]
fn ambiguous_runtime_state_skips_the_slot() {
    let auth = engine_authorities();
    let mut engine = SlotConsensusEngine::new(1, config());
    assert!(matches!(
        engine.on_slot(1, &auth, true, false),
        SlotDecision::Skip { reason: SkipReason::CannotValidate }
    ));
    // The slot was not consumed: the engine may author in it once the
    // runtime state is available again.
    assert!(matches!(engine.on_slot(1, &auth, true, true), SlotDecision::Author { .. }));
}

#[test]
fn disabled_authoring_never_authors() {
    let auth = engine_authorities();
    let c = EngineConfig { authoring_enabled: false, ..config() };
    let mut engine = SlotConsensusEngine::new(1, c);
    assert!(matches!(
        engine.on_slot(1, &auth, true, true),
        SlotDecision::Skip { reason: SkipReason::AuthoringDisabled }
    ));
}
