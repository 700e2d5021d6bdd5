//! Slot arithmetic and the authoring decision of the slot consensus engine:
//! which slot a wall-clock instant falls in, how long a proposal may take,
//! whether this node may author in a slot, and the guarantee that one key
//! never authors twice for the same slot.

use vstd::prelude::*;
use crate::authority::AuthoritySet;
use crate::import::{Block, Header, SlotProof};

verus! {

/// Configuration values consumed by the engine; loading them is a
/// collaborator's concern.
#[derive(Clone, Copy, PartialEq, Eq, Structural, Debug)]
pub struct EngineConfig {
    /// Wall-clock origin of slot 0, in milliseconds.
    pub genesis_time_ms: u64,
    /// Fixed duration of every slot, in milliseconds.
    pub slot_duration_ms: u64,
    /// Share of the slot (in percent) a block proposal may consume.
    pub proposal_share_percent: u64,
    /// Whether this node authors blocks at all.
    pub authoring_enabled: bool,
}

impl EngineConfig {
    /// Valid configuration: slots have positive duration and the proposal
    /// share is at most half the slot, the largest policy allows.
    pub open spec fn wf(self) -> bool {
        &&& self.slot_duration_ms > 0
        &&& self.proposal_share_percent <= 50
    }
}

/// Why the engine did not author in a slot.
#[derive(Clone, Copy, PartialEq, Eq, Structural, Debug)]
pub enum SkipReason {
    /// Authoring is switched off by configuration.
    AuthoringDisabled,
    /// The runtime state needed to validate our own block is missing;
    /// never author on state the node cannot independently validate.
    CannotValidate,
    /// The node's key is not in the slot's authority set.
    NotAnAuthority,
    /// The key is a member but its eligibility proof failed for this slot.
    NotLeader,
    /// A block for this slot (or a later one) was already authored
    /// with this key.
    AlreadyAuthored,
}

/// The engine's decision for one slot tick.
#[derive(Clone, Copy, PartialEq, Eq, Structural, Debug)]
pub enum SlotDecision {
    /// Author a block, spending at most `proposal_allowance_ms` on the
    /// proposal.
    Author { proposal_allowance_ms: u64 },
    /// Skip the slot, for the given reason.
    Skip { reason: SkipReason },
}

/// The slot a wall-clock instant falls in.
pub open spec fn spec_slot_at(now_ms: u64, genesis_time_ms: u64, slot_duration_ms: u64) -> int {
    (now_ms - genesis_time_ms) / (slot_duration_ms as int)
}

/// Computes the current slot number from the wall clock and the genesis
/// offset.
pub fn slot_at(now_ms: u64, genesis_time_ms: u64, slot_duration_ms: u64) -> (r: u64)
    requires
        slot_duration_ms > 0,
        now_ms >= genesis_time_ms,
    ensures
        r == spec_slot_at(now_ms, genesis_time_ms, slot_duration_ms),
{
    (now_ms - genesis_time_ms) / slot_duration_ms
}

/// Time a proposal may consume: the configured share of one slot.
pub open spec fn spec_proposal_allowance_ms(c: EngineConfig) -> int {
    (c.slot_duration_ms * c.proposal_share_percent) / 100
}

/// The authoring state the engine carries between slots.
pub struct SlotConsensusEngine {
    /// The key this node signs with.
    pub key: u64,
    pub config: EngineConfig,
    /// Highest slot this key has authored for since start, if any;
    /// deliberately not persisted (restart resets it).
    pub last_authored_slot: Option<u64>,
}

/// One observed engine transition: before and after authoring state, the
/// slot decided on, and whether the decision was to author.
pub open spec fn engine_step(
    pre: Option<u64>,
    slot: u64,
    authored: bool,
    post: Option<u64>,
) -> bool {
    if authored {
        &&& (pre is None || slot > pre->Some_0)
        &&& post == Some(slot)
    } else {
        post == pre
    }
}

impl SlotConsensusEngine {
    pub fn new(key: u64, config: EngineConfig) -> (r: SlotConsensusEngine)
        ensures
            r.key == key,
            r.config == config,
            r.last_authored_slot is None,
    {
        SlotConsensusEngine { key, config, last_authored_slot: None }
    }

    /// Whether authoring in `slot` is allowed for this engine state:
    /// authoring enabled, runtime state validatable, key a member of the
    /// epoch's authority set, the eligibility proof good, and the slot not
    /// yet authored for.
    pub open spec fn spec_should_author(
        self,
        slot: u64,
        authorities: AuthoritySet,
        eligible: bool,
        can_validate: bool,
    ) -> bool {
        &&& self.config.authoring_enabled
        &&& can_validate
        &&& authorities.spec_contains_key(self.key)
        &&& eligible
        &&& (self.last_authored_slot is None || slot > self.last_authored_slot->Some_0)
    }

    /// Decides one slot tick. `eligible` is the keystore collaborator's
    /// leadership proof for (key, slot); `can_validate` is the runtime's
    /// answer whether this node could validate its own block. The engine
    /// authors exactly when `spec_should_author` holds, and then records the
    /// slot so the same key never authors twice for it.
    pub fn on_slot(
        &mut self,
        slot: u64,
        authorities: &AuthoritySet,
        eligible: bool,
        can_validate: bool,
    ) -> (d: SlotDecision)
        requires
            old(self).config.wf(),
        ensures
            d is Author <==> old(self).spec_should_author(slot, *authorities, eligible, can_validate),
            final(self).key == old(self).key,
            final(self).config == old(self).config,
            engine_step(
                old(self).last_authored_slot,
                slot,
                d is Author,
                final(self).last_authored_slot,
            ),
            d matches SlotDecision::Author { proposal_allowance_ms }
                ==> proposal_allowance_ms == spec_proposal_allowance_ms(old(self).config),
    {
        if !self.config.authoring_enabled {
            return SlotDecision::Skip { reason: SkipReason::AuthoringDisabled };
        }
        if !can_validate {
            return SlotDecision::Skip { reason: SkipReason::CannotValidate };
        }
        if !authorities.contains_key(self.key) {
            return SlotDecision::Skip { reason: SkipReason::NotAnAuthority };
        }
        if !eligible {
            return SlotDecision::Skip { reason: SkipReason::NotLeader };
        }
        match self.last_authored_slot {
            Some(last) => {
                if slot <= last {
                    return SlotDecision::Skip { reason: SkipReason::AlreadyAuthored };
                }
            },
            None => {},
        }
        self.last_authored_slot = Some(slot);
        let allowance = proposal_allowance(self.config);
        SlotDecision::Author { proposal_allowance_ms: allowance }
    }

    /// Seals a proposed block for a claimed slot: the header continues the
    /// parent's chain and carries this engine's slot-claim proof. The hash
    /// and the roots come from the hashing and block-building collaborators;
    /// the proposal itself was produced within the slot's allowance.
    pub fn seal_candidate(
        &self,
        parent: &Header,
        hash: u64,
        slot: u64,
        difficulty: u64,
        state_root: u64,
        extrinsics_root: u64,
        extrinsics: Vec<u64>,
    ) -> (b: Block)
        requires
            parent.number < u64::MAX,
        ensures
            b.header.hash == hash,
            b.header.parent_hash == parent.hash,
            b.header.number == parent.number + 1,
            b.header.state_root == state_root,
            b.header.extrinsics_root == extrinsics_root,
            b.header.proof == (SlotProof { author: self.key, slot, difficulty }),
            b.extrinsics == extrinsics,
    {
        Block {
            header: Header {
                hash,
                parent_hash: parent.hash,
                number: parent.number + 1,
                state_root,
                extrinsics_root,
                proof: SlotProof { author: self.key, slot, difficulty },
            },
            extrinsics,
        }
    }
}

/// Computes the proposal time allowance for a configuration.
pub fn proposal_allowance(c: EngineConfig) -> (r: u64)
    requires
        c.wf(),
    ensures
        r == spec_proposal_allowance_ms(c),
        r <= c.slot_duration_ms,
{
    proof {
        assert(c.slot_duration_ms * c.proposal_share_percent <= c.slot_duration_ms * 100)
            by (nonlinear_arith)
            requires c.proposal_share_percent <= 50,
        ;
        assert(c.slot_duration_ms * 100 / 100 == c.slot_duration_ms);
        vstd::arithmetic::div_mod::lemma_div_is_ordered(
            (c.slot_duration_ms as int) * (c.proposal_share_percent as int),
            (c.slot_duration_ms as int) * 100,
            100,
        );
    }
    let wide: u128 = (c.slot_duration_ms as u128) * (c.proposal_share_percent as u128) / 100;
    wide as u64
}

/// Last-authored slots only ever grow along a valid trace.
proof fn lemma_last_authored_monotonic(
    states: Seq<Option<u64>>,
    slots: Seq<u64>,
    authored: Seq<bool>,
    i: int,
    j: int,
)
    requires
        states.len() == slots.len() + 1,
        authored.len() == slots.len(),
        forall|k: int|
            0 <= k < slots.len() ==> engine_step(states[k], slots[k], authored[k], states[k + 1]),
        0 <= i <= j <= slots.len(),
        states[i] is Some,
    ensures
        states[j] is Some,
        states[j]->Some_0 >= states[i]->Some_0,
    decreases j - i,
{
    if i < j {
        assert(engine_step(states[i], slots[i], authored[i], states[i + 1]));
        lemma_last_authored_monotonic(states, slots, authored, i + 1, j);
    }
}

/// Single authorship per slot: along any trace of engine transitions, a
/// fixed key authors for strictly increasing slots, so no slot number is
/// authored for twice.
pub proof fn lemma_single_authorship_per_slot(
    states: Seq<Option<u64>>,
    slots: Seq<u64>,
    authored: Seq<bool>,
    i: int,
    j: int,
)
    requires
        states.len() == slots.len() + 1,
        authored.len() == slots.len(),
        forall|k: int|
            0 <= k < slots.len() ==> engine_step(states[k], slots[k], authored[k], states[k + 1]),
        0 <= i < j < slots.len(),
        authored[i],
        authored[j],
    ensures
        slots[i] < slots[j],
{
    assert(engine_step(states[i], slots[i], authored[i], states[i + 1]));
    assert(engine_step(states[j], slots[j], authored[j], states[j + 1]));
    lemma_last_authored_monotonic(states, slots, authored, i + 1, j);
}

} // verus!

