use slotcore::authority::{Authority, AuthoritySet};
use slotcore::voter::{
    genesis_voter_state, FinalityVoter, Justification, JustificationError, Precommit, RoundTally,
    verify_justification, VoteOutcome, VoterState,
};

fn equal_authorities() -> AuthoritySet {
    AuthoritySet::from_entries(vec![
        Authority { key: 1, weight: 1 },
        Authority { key: 2, weight: 1 },
        Authority { key: 3, weight: 1 },
    ])
    .unwrap()
}

fn vote(signer: u64, hash: u64, number: u64) -> Precommit {
    Precommit { signer, target_hash: hash, target_number: number }
}

#[test]
fn two_of_three_precommits_time_out_without_finalizing() {
    // Round 10 receives precommits from 2 of 3 equally weighted authorities
    // for the block at height 50: not a supermajority, so the round times
    // out and advances to round 11 without finalizing.
    let auth = equal_authorities();
    let mut voter = FinalityVoter::recover(VoterState {
        last_completed_round: 9,
        finalized_number: 0,
        finalized_hash: 100,
    });
    assert_eq!(voter.current_round, 10);
    let mut tally = RoundTally::new(10);
    assert!(matches!(tally.record(vote(1, 500, 50), &auth), VoteOutcome::Recorded));
    assert!(matches!(tally.record(vote(2, 500, 50), &auth), VoteOutcome::Recorded));
    let committed = voter.complete_round(&tally, &auth);
    assert!(committed.is_none());
    assert_eq!(voter.current_round, 11);
    assert_eq!(voter.finalized_number, 0);
}

#[test]
fn supermajority_commits_persists_then_announces() {
    let auth = equal_authorities();
    let mut voter = FinalityVoter::recover(genesis_voter_state(100));
    assert_eq!(voter.current_round, 1);
    let mut tally = RoundTally::new(1);
    tally.record(vote(1, 500, 50), &auth);
    tally.record(vote(2, 500, 50), &auth);
    tally.record(vote(3, 500, 50), &auth);
    let committed = voter.complete_round(&tally, &auth);
    let j = committed.expect("three of three is a supermajority");
    assert_eq!(j.round, 1);
    assert_eq!(j.target_hash, 500);
    assert_eq!(j.target_number, 50);
    assert_eq!(j.precommits.len(), 3);
    // Persisted before the justification was handed out.
    assert_eq!(voter.persisted.finalized_number, 50);
    assert_eq!(voter.persisted.last_completed_round, 1);
    assert_eq!(voter.finalized_number, 50);

    // A crash-and-restart from the persisted state never lowers the
    // finalized height.
    let restarted = FinalityVoter::recover(voter.persisted);
    assert_eq!(restarted.finalized_number, 50);
    assert_eq!(restarted.finalized_hash, 500);
    assert_eq!(restarted.current_round, 2);
}

#[test]
fn equivocating_voter_is_excluded_from_the_round() {
    let auth = equal_authorities();
    let mut tally = RoundTally::new(4);
    assert!(matches!(tally.record(vote(1, 500, 50), &auth), VoteOutcome::Recorded));
    // A conflicting vote by the same signer discards both votes.
    assert!(matches!(tally.record(vote(1, 600, 60), &auth), VoteOutcome::Equivocation));
    // Later votes by the excluded signer are ignored.
    assert!(matches!(tally.record(vote(1, 500, 50), &auth), VoteOutcome::Excluded));
    assert!(matches!(tally.record(vote(2, 500, 50), &auth), VoteOutcome::Recorded));
    assert!(matches!(tally.record(vote(2, 500, 50), &auth), VoteOutcome::Duplicate));
    assert!(matches!(tally.record(vote(3, 500, 50), &auth), VoteOutcome::Recorded));
    // Only 2 of 3 counted votes remain: no supermajority.
    assert!(tally.try_finalize(&auth).is_none());
    assert!(tally.supermajority_target(&auth).is_none());
}

#[test]
fn prevote_supermajority_names_the_precommit_target() {
    let auth = equal_authorities();
    let mut prevotes = RoundTally::new(3);
    prevotes.record(vote(1, 500, 50), &auth);
    prevotes.record(vote(2, 500, 50), &auth);
    prevotes.record(vote(3, 777, 51), &auth);
    assert_eq!(prevotes.supermajority_target(&auth), None);
    let mut agreed = RoundTally::new(4);
    agreed.record(vote(1, 500, 50), &auth);
    agreed.record(vote(2, 500, 50), &auth);
    agreed.record(vote(3, 500, 50), &auth);
    assert_eq!(agreed.supermajority_target(&auth), Some((500, 50)));
}

#[test]
fn unknown_voters_are_ignored() {
    let auth = equal_authorities();
    let mut tally = RoundTally::new(4);
    assert!(matches!(tally.record(vote(9, 500, 50), &auth), VoteOutcome::UnknownVoter));
    assert!(tally.try_finalize(&auth).is_none());
}

#[test]
fn justification_verification_accepts_a_supermajority() {
    let auth = equal_authorities();
    let j = Justification {
        round: 7,
        target_hash: 500,
        target_number: 50,
        precommits: vec![vote(1, 500, 50), vote(2, 500, 50), vote(3, 500, 50)],
    };
    assert!(verify_justification(&j, &auth).is_ok());
}

#[test]
fn justification_verification_names_each_defect() {
    let auth = equal_authorities();
    let wrong_target = Justification {
        round: 7,
        target_hash: 500,
        target_number: 50,
        precommits: vec![vote(1, 500, 50), vote(2, 600, 50), vote(3, 500, 50)],
    };
    assert_eq!(
        verify_justification(&wrong_target, &auth),
        Err(JustificationError::WrongTarget)
    );
    let unknown_signer = Justification {
        round: 7,
        target_hash: 500,
        target_number: 50,
        precommits: vec![vote(1, 500, 50), vote(9, 500, 50), vote(3, 500, 50)],
    };
    assert_eq!(
        verify_justification(&unknown_signer, &auth),
        Err(JustificationError::UnknownSigner)
    );
    let duplicate_signer = Justification {
        round: 7,
        target_hash: 500,
        target_number: 50,
        precommits: vec![vote(1, 500, 50), vote(1, 500, 50), vote(3, 500, 50)],
    };
    assert_eq!(
        verify_justification(&duplicate_signer, &auth),
        Err(JustificationError::DuplicateSigner)
    );
    let two_of_three = Justification {
        round: 7,
        target_hash: 500,
        target_number: 50,
        precommits: vec![vote(1, 500, 50), vote(2, 500, 50)],
    };
    assert_eq!(
        verify_justification(&two_of_three, &auth),
        Err(JustificationError::InsufficientWeight)
    );
}

#[test]
fn weights_count_not_heads() {
    // One heavy authority outweighs two light ones.
    let auth = AuthoritySet::from_entries(vec![
        Authority { key: 1, weight: 7 },
        Authority { key: 2, weight: 1 },
        Authority { key: 3, weight: 1 },
    ])
    .unwrap();
    let heavy_alone = Justification {
        round: 1,
        target_hash: 500,
        target_number: 50,
        precommits: vec![vote(1, 500, 50)],
    };
    assert!(verify_justification(&heavy_alone, &auth).is_ok());
    let light_pair = Justification {
        round: 1,
        target_hash: 500,
        target_number: 50,
        precommits: vec![vote(2, 500, 50), vote(3, 500, 50)],
    };
    assert_eq!(
        verify_justification(&light_pair, &auth),
        Err(JustificationError::InsufficientWeight)
    );
}

#[test]
fn duplicate_authority_keys_are_refused() {
    assert!(AuthoritySet::from_entries(vec![
        Authority { key: 1, weight: 1 },
        Authority { key: 1, weight: 2 },
    ])
    .is_none());
    let set = equal_authorities();
    assert_eq!(set.total_weight(), 3);
    assert!(set.contains_key(2));
    assert!(!set.contains_key(9));
}
