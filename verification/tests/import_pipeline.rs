use slotcore::authority::{Authority, AuthoritySet};
use slotcore::import::{
    Block, Candidate, Header, ImportOutcome, ImportPipeline, JustificationOutcome, RejectReason,
    SlotProof,
};
use slotcore::slots::{EngineConfig, SlotConsensusEngine, SlotDecision};
use slotcore::voter::{Justification, Precommit};

fn pipeline_authorities() -> AuthoritySet {
    AuthoritySet::from_entries(vec![
        Authority { key: 1, weight: 1 },
        Authority { key: 2, weight: 1 },
        Authority { key: 3, weight: 1 },
    ])
    .unwrap()
}

fn genesis() -> Header {
    Header {
        hash: 100,
        parent_hash: 0,
        number: 0,
        state_root: 0,
        extrinsics_root: 0,
        proof: SlotProof { author: 0, slot: 0, difficulty: 0 },
    }
}

fn block(hash: u64, parent: &Header, slot: u64, author: u64, difficulty: u64) -> Block {
    Block {
        header: Header {
            hash,
            parent_hash: parent.hash,
            number: parent.number + 1,
            state_root: 0,
            extrinsics_root: 0,
            proof: SlotProof { author, slot, difficulty },
        },
        extrinsics: Vec::new(),
    }
}

fn plain(b: Block) -> Candidate {
    Candidate { block: b, justification: None }
}

#[test]
fn leader_block_imports_identically_on_both_nodes() {
    // Three authorities, slot duration 1000 ms, genesis finalized at height
    // 0. Authority A (key 1) is leader for slot 5 and proposes block X.
    let auth = pipeline_authorities();
    let config = EngineConfig {
        genesis_time_ms: 0,
        slot_duration_ms: 1000,
        proposal_share_percent: 50,
        authoring_enabled: true,
    };
    let mut engine_a = SlotConsensusEngine::new(1, config);
    let decision = engine_a.on_slot(5, &auth, true, true);
    assert!(matches!(decision, SlotDecision::Author { .. }));
    let g = genesis();
    let x = engine_a.seal_candidate(&g, 200, 5, 1, 0, 0, Vec::new());

    let mut node_a = ImportPipeline::new(g, 16);
    assert_eq!(node_a.finalized_number, 0);
    let out = node_a.import_candidate(plain(x), &auth);
    assert!(matches!(out, ImportOutcome::Imported));
    assert_eq!(node_a.best_hash, 200);

    // Authority B receives X over the network and imports it independently,
    // reaching the identical best-chain hash.
    let x_again = engine_a.seal_candidate(&g, 200, 5, 1, 0, 0, Vec::new());
    let mut node_b = ImportPipeline::new(genesis(), 16);
    let out_b = node_b.import_candidate(plain(x_again), &auth);
    assert!(matches!(out_b, ImportOutcome::Imported));
    assert_eq!(node_b.best_hash, node_a.best_hash);
}

#[test]
fn unknown_author_slot_proof_is_rejected_and_best_unchanged() {
    let auth = pipeline_authorities();
    let g = genesis();
    let mut node = ImportPipeline::new(g, 16);
    let best_before = node.best_hash;
    let bad = block(200, &g, 5, 99, 1);
    let out = node.import_candidate(plain(bad), &auth);
    assert!(matches!(
        out,
        ImportOutcome::Rejected { reason: RejectReason::InvalidSlotProof }
    ));
    assert_eq!(node.best_hash, best_before);
    assert_eq!(node.chain.len(), 1);
}

#[test]
fn slot_not_past_parent_is_rejected() {
    let auth = pipeline_authorities();
    let g = genesis();
    let mut node = ImportPipeline::new(g, 16);
    let x = block(200, &g, 5, 1, 1);
    let xh = x.header;
    assert!(matches!(node.import_candidate(plain(x), &auth), ImportOutcome::Imported));
    let stale = block(300, &xh, 5, 2, 1);
    assert!(matches!(
        node.import_candidate(plain(stale), &auth),
        ImportOutcome::Rejected { reason: RejectReason::InvalidSlotProof }
    ));
}

#[test]
fn orphan_is_buffered_until_its_parent_resolves() {
    let auth = pipeline_authorities();
    let g = genesis();
    let mut node = ImportPipeline::new(g, 16);
    let parent = block(200, &g, 1, 1, 1);
    let child = block(300, &parent.header, 2, 2, 1);
    let out = node.import_candidate(plain(child), &auth);
    assert!(matches!(out, ImportOutcome::Buffered));
    assert_eq!(node.chain.len(), 1);
    assert!(matches!(node.import_candidate(plain(parent), &auth), ImportOutcome::Imported));
    node.resolve_pending(&auth);
    assert_eq!(node.chain.len(), 3);
    assert_eq!(node.best_hash, 300);
    assert_eq!(node.pending.len(), 0);
}

#[test]
fn resolving_one_parent_cascades_through_the_buffer() {
    let auth = pipeline_authorities();
    let g = genesis();
    let mut node = ImportPipeline::new(g, 16);
    let parent = block(200, &g, 1, 1, 1);
    let child = block(300, &parent.header, 2, 2, 1);
    let grandchild = block(400, &child.header, 3, 3, 1);
    assert!(matches!(node.import_candidate(plain(grandchild), &auth), ImportOutcome::Buffered));
    assert!(matches!(node.import_candidate(plain(child), &auth), ImportOutcome::Buffered));
    assert_eq!(node.pending.len(), 2);
    assert!(matches!(node.import_candidate(plain(parent), &auth), ImportOutcome::Imported));
    node.resolve_pending(&auth);
    assert_eq!(node.chain.len(), 4);
    assert_eq!(node.pending.len(), 0);
    assert_eq!(node.best_hash, 400);
}

#[test]
fn full_buffer_rejects_deep_dependencies() {
    let auth = pipeline_authorities();
    let g = genesis();
    let mut node = ImportPipeline::new(g, 0);
    let parent = block(200, &g, 1, 1, 1);
    let child = block(300, &parent.header, 2, 2, 1);
    assert!(matches!(
        node.import_candidate(plain(child), &auth),
        ImportOutcome::Rejected { reason: RejectReason::DependencyTooDeep }
    ));
}

#[test]
fn replayed_and_misnumbered_blocks_are_rejected() {
    let auth = pipeline_authorities();
    let g = genesis();
    let mut node = ImportPipeline::new(g, 16);
    let x = block(200, &g, 1, 1, 1);
    assert!(matches!(node.import_candidate(plain(x), &auth), ImportOutcome::Imported));
    let replay = block(200, &g, 1, 1, 1);
    assert!(matches!(
        node.import_candidate(plain(replay), &auth),
        ImportOutcome::Rejected { reason: RejectReason::KnownBlock }
    ));
    let mut skipper = block(300, &g, 2, 2, 1);
    skipper.header.number = 7;
    assert!(matches!(
        node.import_candidate(plain(skipper), &auth),
        ImportOutcome::Rejected { reason: RejectReason::BadNumber }
    ));
}

#[test]
fn fork_choice_prefers_length_then_work_then_hash() {
    let auth = pipeline_authorities();
    let g = genesis();
    let mut node = ImportPipeline::new(g, 16);
    // Two children of the root: equal length, different work.
    let light = block(200, &g, 1, 1, 1);
    let heavy = block(300, &g, 2, 2, 5);
    assert!(matches!(node.import_candidate(plain(light), &auth), ImportOutcome::Imported));
    assert_eq!(node.best_hash, 200);
    assert!(matches!(node.import_candidate(plain(heavy), &auth), ImportOutcome::Imported));
    assert_eq!(node.best_hash, 300);
    // A longer chain beats the heavier short one.
    let light_hdr = Header { hash: 200, parent_hash: 100, number: 1, ..g };
    let grandchild = block(400, &light_hdr, 3, 3, 1);
    assert!(matches!(node.import_candidate(plain(grandchild), &auth), ImportOutcome::Imported));
    assert_eq!(node.best_hash, 400);
}

#[test]
fn equal_work_tie_breaks_to_the_lower_hash() {
    let auth = pipeline_authorities();
    let g = genesis();
    let mut node = ImportPipeline::new(g, 16);
    let a = block(300, &g, 1, 1, 1);
    let b = block(200, &g, 2, 2, 1);
    assert!(matches!(node.import_candidate(plain(a), &auth), ImportOutcome::Imported));
    assert_eq!(node.best_hash, 300);
    assert!(matches!(node.import_candidate(plain(b), &auth), ImportOutcome::Imported));
    assert_eq!(node.best_hash, 200);
}

#[test]
fn equivocating_slot_claims_are_recorded_but_import() {
    let auth = pipeline_authorities();
    let g = genesis();
    let mut node = ImportPipeline::new(g, 16);
    let one = block(200, &g, 5, 1, 1);
    let two = block(201, &g, 5, 1, 1);
    assert!(matches!(node.import_candidate(plain(one), &auth), ImportOutcome::Imported));
    assert_eq!(node.equivocations.len(), 0);
    assert!(matches!(node.import_candidate(plain(two), &auth), ImportOutcome::Imported));
    assert_eq!(node.equivocations.len(), 1);
    assert_eq!(node.equivocations[0], (1, 5));
    assert_eq!(node.chain.len(), 3);
}

#[test]
fn carried_justification_advances_finality_and_gates_fork_choice() {
    let auth = pipeline_authorities();
    let g = genesis();
    let mut node = ImportPipeline::new(g, 16);
    let sibling = block(300, &g, 1, 2, 9);
    assert!(matches!(node.import_candidate(plain(sibling), &auth), ImportOutcome::Imported));
    assert_eq!(node.best_hash, 300);

    let x = block(200, &g, 2, 1, 1);
    let precommits = vec![
        Precommit { signer: 1, target_hash: 200, target_number: 1 },
        Precommit { signer: 2, target_hash: 200, target_number: 1 },
        Precommit { signer: 3, target_hash: 200, target_number: 1 },
    ];
    let j = Justification { round: 1, target_hash: 200, target_number: 1, precommits };
    let out = node.import_candidate(Candidate { block: x, justification: Some(j) }, &auth);
    assert!(matches!(out, ImportOutcome::Imported));
    assert_eq!(node.finalized_hash, 200);
    assert_eq!(node.finalized_number, 1);
    // The heavier sibling no longer descends from the finalized block, so
    // the finalized branch is best.
    assert_eq!(node.best_hash, 200);
    assert!(node.extends_finalized(200));
    assert!(!node.extends_finalized(300));
    assert!(!node.extends_finalized(100));
    assert!(!node.extends_finalized(999));
}

#[test]
fn separate_justification_finalizes_its_imported_target() {
    let auth = pipeline_authorities();
    let g = genesis();
    let mut node = ImportPipeline::new(g, 16);
    let x = block(200, &g, 1, 1, 1);
    assert!(matches!(node.import_candidate(plain(x), &auth), ImportOutcome::Imported));
    let j = Justification {
        round: 1,
        target_hash: 200,
        target_number: 1,
        precommits: vec![
            Precommit { signer: 1, target_hash: 200, target_number: 1 },
            Precommit { signer: 2, target_hash: 200, target_number: 1 },
            Precommit { signer: 3, target_hash: 200, target_number: 1 },
        ],
    };
    assert_eq!(node.apply_justification(j, &auth), JustificationOutcome::Applied);
    assert_eq!(node.finalized_hash, 200);
    assert_eq!(node.finalized_number, 1);
}

#[test]
fn early_justification_is_held_until_its_block_arrives() {
    let auth = pipeline_authorities();
    let g = genesis();
    let mut node = ImportPipeline::new(g, 16);
    let j = Justification {
        round: 1,
        target_hash: 200,
        target_number: 1,
        precommits: vec![
            Precommit { signer: 1, target_hash: 200, target_number: 1 },
            Precommit { signer: 2, target_hash: 200, target_number: 1 },
            Precommit { signer: 3, target_hash: 200, target_number: 1 },
        ],
    };
    assert_eq!(node.apply_justification(j, &auth), JustificationOutcome::Held);
    assert_eq!(node.held_justifications.len(), 1);
    assert_eq!(node.finalized_number, 0);
    let x = block(200, &g, 1, 1, 1);
    assert!(matches!(node.import_candidate(plain(x), &auth), ImportOutcome::Imported));
    node.resolve_held_justifications(&auth);
    assert_eq!(node.held_justifications.len(), 0);
    assert_eq!(node.finalized_hash, 200);
    assert_eq!(node.finalized_number, 1);
}

#[test]
fn passed_justifications_are_garbage_collected_on_finalization() {
    let auth = pipeline_authorities();
    let g = genesis();
    let mut node = ImportPipeline::new(g, 16);
    // Held for a block at height 1 that never arrives.
    let stale = Justification {
        round: 1,
        target_hash: 999,
        target_number: 1,
        precommits: vec![
            Precommit { signer: 1, target_hash: 999, target_number: 1 },
            Precommit { signer: 2, target_hash: 999, target_number: 1 },
            Precommit { signer: 3, target_hash: 999, target_number: 1 },
        ],
    };
    assert_eq!(node.apply_justification(stale, &auth), JustificationOutcome::Held);
    // Finality advances past height 1 on another branch.
    let x = block(200, &g, 1, 1, 1);
    assert!(matches!(node.import_candidate(plain(x), &auth), ImportOutcome::Imported));
    let fresh = Justification {
        round: 2,
        target_hash: 200,
        target_number: 1,
        precommits: vec![
            Precommit { signer: 1, target_hash: 200, target_number: 1 },
            Precommit { signer: 2, target_hash: 200, target_number: 1 },
            Precommit { signer: 3, target_hash: 200, target_number: 1 },
        ],
    };
    assert_eq!(node.apply_justification(fresh, &auth), JustificationOutcome::Applied);
    node.gc_held_justifications();
    assert_eq!(node.held_justifications.len(), 0);
}

#[test]
fn off_chain_or_weak_separate_justifications_are_rejected() {
    let auth = pipeline_authorities();
    let g = genesis();
    let mut node = ImportPipeline::new(g, 16);
    let x = block(200, &g, 1, 1, 1);
    assert!(matches!(node.import_candidate(plain(x), &auth), ImportOutcome::Imported));
    let weak = Justification {
        round: 1,
        target_hash: 200,
        target_number: 1,
        precommits: vec![
            Precommit { signer: 1, target_hash: 200, target_number: 1 },
            Precommit { signer: 2, target_hash: 200, target_number: 1 },
        ],
    };
    assert_eq!(node.apply_justification(weak, &auth), JustificationOutcome::Rejected);
    let misnumbered = Justification {
        round: 1,
        target_hash: 200,
        target_number: 7,
        precommits: vec![
            Precommit { signer: 1, target_hash: 200, target_number: 7 },
            Precommit { signer: 2, target_hash: 200, target_number: 7 },
            Precommit { signer: 3, target_hash: 200, target_number: 7 },
        ],
    };
    assert_eq!(node.apply_justification(misnumbered, &auth), JustificationOutcome::Rejected);
    assert_eq!(node.finalized_number, 0);
}

#[test]
fn weak_justification_rejects_the_whole_import() {
    let auth = pipeline_authorities();
    let g = genesis();
    let mut node = ImportPipeline::new(g, 16);
    let x = block(200, &g, 1, 1, 1);
    let precommits = vec![
        Precommit { signer: 1, target_hash: 200, target_number: 1 },
        Precommit { signer: 2, target_hash: 200, target_number: 1 },
    ];
    let j = Justification { round: 1, target_hash: 200, target_number: 1, precommits };
    let out = node.import_candidate(Candidate { block: x, justification: Some(j) }, &auth);
    assert!(matches!(
        out,
        ImportOutcome::Rejected { reason: RejectReason::InvalidJustification }
    ));
    assert_eq!(node.chain.len(), 1);
    assert_eq!(node.finalized_hash, 100);
}
