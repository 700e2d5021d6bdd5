//! The block-import pipeline: an ordered chain of verification stages applied
//! to every candidate block, local or remote — justification check, slot-proof
//! check, then commit — followed by a deterministic fork-choice rule (longest
//! finalized-descendant chain, ties broken by greatest chain work, then by
//! lowest hash). Children arriving before their parent are buffered in a
//! bounded queue; rejected candidates are terminal.

use vstd::prelude::*;
use crate::authority::AuthoritySet;
use crate::voter::{Justification, justification_valid, verify_justification};

verus! {

/// The slot-claim proof carried in a header's consensus digest: the claimed
/// author, the slot claimed, and the claim's difficulty (its contribution to
/// chain work). The eligibility signature itself is verified by the
/// cryptography collaborator before a candidate reaches the pipeline; the
/// pipeline checks the claim against the epoch's authority set.
#[derive(Clone, Copy, PartialEq, Eq, Structural, Debug)]
pub struct SlotProof {
    pub author: u64,
    pub slot: u64,
    pub difficulty: u64,
}

/// A block header. The hash is the block's identity, computed by the hashing
/// collaborator; the pipeline treats it as opaque and only requires it to be
/// unique.
#[derive(Clone, Copy, PartialEq, Eq, Structural, Debug)]
pub struct Header {
    pub hash: u64,
    pub parent_hash: u64,
    pub number: u64,
    pub state_root: u64,
    pub extrinsics_root: u64,
    pub proof: SlotProof,
}

/// A sealed block: header plus the ordered extrinsics of its body.
pub struct Block {
    pub header: Header,
    pub extrinsics: Vec<u64>,
}

/// What the pipeline records of an imported block: its header and the
/// cumulative chain work up to it.
#[derive(Clone, Copy, PartialEq, Eq, Structural, Debug)]
pub struct ImportedBlock {
    pub header: Header,
    pub total_work: u128,
}

/// Whether some imported block has this hash.
pub open spec fn contains_hash(s: Seq<ImportedBlock>, h: u64) -> bool {
    exists|i: int| 0 <= i < s.len() && s[i].header.hash == h
}

/// The index of the block with this hash (unique under `chain_wf`).
pub open spec fn idx_of(s: Seq<ImportedBlock>, h: u64) -> int {
    choose|i: int| 0 <= i < s.len() && s[i].header.hash == h
}

/// The imported block with this hash.
pub open spec fn block_of(s: Seq<ImportedBlock>, h: u64) -> ImportedBlock {
    s[idx_of(s, h)]
}

/// Whether following at most `fuel` parent links from `h` reaches `anc`.
pub open spec fn reaches(s: Seq<ImportedBlock>, h: u64, anc: u64, fuel: nat) -> bool
    decreases fuel,
{
    h == anc || (fuel > 0 && contains_hash(s, h) && reaches(
        s,
        block_of(s, h).header.parent_hash,
        anc,
        (fuel - 1) as nat,
    ))
}

/// Whether the imported block `h` descends from the imported block `anc`
/// (inclusively: every block descends from itself). Kept opaque: callers work
/// through the descent lemmas rather than the raw parent walk.
#[verifier::opaque]
pub open spec fn descends(s: Seq<ImportedBlock>, h: u64, anc: u64) -> bool {
    &&& contains_hash(s, h)
    &&& contains_hash(s, anc)
    &&& reaches(s, h, anc, block_of(s, h).header.number as nat)
}

/// The pipeline's chain record, in import order, is well-formed: it starts at
/// its root (number 0, work 0, parent outside the chain), hashes are unique,
/// and every later block's parent stands earlier in the record, one number
/// below it, with the work accumulated from the parent.
pub open spec fn chain_wf(s: Seq<ImportedBlock>) -> bool {
    &&& s.len() >= 1
    &&& s[0].header.number == 0
    &&& s[0].total_work == 0
    &&& forall|i: int| 0 <= i < s.len() ==> #[trigger] s[i].header.hash != s[0].header.parent_hash
    &&& forall|i: int, j: int|
        0 <= i < j < s.len() ==> s[i].header.hash != s[j].header.hash
    &&& forall|i: int|
        1 <= i < s.len() ==> exists|p: int|
            0 <= p < i && #[trigger] s[p].header.hash == (#[trigger] s[i]).header.parent_hash
                && s[p].header.number + 1 == s[i].header.number && s[i].total_work
                == s[p].total_work + s[i].header.proof.difficulty
    &&& forall|i: int|
        0 <= i < s.len() ==> (#[trigger] s[i].total_work) <= s[i].header.number as int * u64::MAX
}

/// No orphan import: every imported block other than the root has its parent
/// imported at an earlier position of the import-ordered record.
pub proof fn lemma_no_orphan_import(s: Seq<ImportedBlock>, i: int)
    requires
        chain_wf(s),
        1 <= i < s.len(),
    ensures
        exists|p: int| 0 <= p < i && #[trigger] s[p].header.hash == s[i].header.parent_hash,
{
    let p = choose|p: int|
        0 <= p < i && #[trigger] s[p].header.hash == s[i].header.parent_hash && s[p].header.number
            + 1 == s[i].header.number && s[i].total_work == s[p].total_work
            + s[i].header.proof.difficulty;
    assert(s[p].header.hash == s[i].header.parent_hash);
}

/// Under `chain_wf` a hash names one block: any index holding it is the one
/// `idx_of` picks.
pub proof fn lemma_block_at_index(s: Seq<ImportedBlock>, i: int)
    requires
        chain_wf(s),
        0 <= i < s.len(),
    ensures
        contains_hash(s, s[i].header.hash),
        idx_of(s, s[i].header.hash) == i,
        block_of(s, s[i].header.hash) == s[i],
{
    assert(contains_hash(s, s[i].header.hash));
    let k = idx_of(s, s[i].header.hash);
    if k != i {
        if k < i {
            assert(s[k].header.hash != s[i].header.hash);
        } else {
            assert(s[i].header.hash != s[k].header.hash);
        }
    }
}

/// Parent links only walk down in block number, so an ancestor candidate at
/// or above the start's number is never reached (unless it is the start).
proof fn lemma_no_reach_down(s: Seq<ImportedBlock>, h: u64, anc: u64, fuel: nat)
    requires
        chain_wf(s),
        contains_hash(s, h),
        contains_hash(s, anc),
        h != anc,
        block_of(s, h).header.number <= block_of(s, anc).header.number,
    ensures
        !reaches(s, h, anc, fuel),
    decreases fuel,
{
    if fuel > 0 {
        let i = idx_of(s, h);
        let ph = s[i].header.parent_hash;
        if i == 0 {
            if contains_hash(s, ph) {
                let k = idx_of(s, ph);
                assert(s[k].header.hash != s[0].header.parent_hash);
                assert(false);
            }
            if ph == anc {
                assert(contains_hash(s, ph));
                assert(false);
            }
            assert(!reaches(s, ph, anc, (fuel - 1) as nat));
        } else {
            let p = choose|p: int|
                0 <= p < i && #[trigger] s[p].header.hash == s[i].header.parent_hash
                    && s[p].header.number + 1 == s[i].header.number && s[i].total_work
                    == s[p].total_work + s[i].header.proof.difficulty;
            lemma_block_at_index(s, p);
            assert(block_of(s, ph).header.number < block_of(s, anc).header.number);
            if ph == anc {
                assert(block_of(s, ph) == block_of(s, anc));
                assert(false);
            }
            lemma_no_reach_down(s, ph, anc, (fuel - 1) as nat);
        }
    }
}

/// One step of the descent walk: from a block strictly above the ancestor
/// candidate, descent holds exactly when it holds from the parent.
proof fn lemma_descends_step(s: Seq<ImportedBlock>, h: u64, anc: u64)
    requires
        chain_wf(s),
        contains_hash(s, h),
        contains_hash(s, anc),
        block_of(s, h).header.number > block_of(s, anc).header.number,
    ensures
        contains_hash(s, block_of(s, h).header.parent_hash),
        block_of(s, block_of(s, h).header.parent_hash).header.number == block_of(
            s,
            h,
        ).header.number - 1,
        descends(s, h, anc) == descends(s, block_of(s, h).header.parent_hash, anc),
{
    reveal(descends);
    let i = idx_of(s, h);
    if i == 0 {
        assert(block_of(s, h).header.number == 0);
        assert(false);
    }
    let p = choose|p: int|
        0 <= p < i && #[trigger] s[p].header.hash == s[i].header.parent_hash && s[p].header.number
            + 1 == s[i].header.number && s[i].total_work == s[p].total_work
            + s[i].header.proof.difficulty;
    lemma_block_at_index(s, p);
    let ph = s[i].header.parent_hash;
    if h == anc {
        assert(block_of(s, h) == block_of(s, anc));
        assert(false);
    }
    let fuel = block_of(s, h).header.number as nat;
    assert(reaches(s, h, anc, fuel) == reaches(s, ph, anc, (fuel - 1) as nat));
    assert((fuel - 1) as nat == block_of(s, ph).header.number as nat);
}

/// A descendant never stands below its ancestor.
pub proof fn lemma_descends_number(s: Seq<ImportedBlock>, h: u64, anc: u64)
    requires
        chain_wf(s),
        descends(s, h, anc),
    ensures
        block_of(s, h).header.number >= block_of(s, anc).header.number,
{
    reveal(descends);
    if h != anc && block_of(s, h).header.number < block_of(s, anc).header.number {
        lemma_no_reach_down(s, h, anc, block_of(s, h).header.number as nat);
    }
}

/// The fork-choice order: a longer chain wins; at equal length the greater
/// chain work wins; at equal work the lower hash wins, so that the order is
/// total over distinct blocks and every instance picks the same head.
pub open spec fn better(a: ImportedBlock, b: ImportedBlock) -> bool {
    ||| a.header.number > b.header.number
    ||| (a.header.number == b.header.number && a.total_work > b.total_work)
    ||| (a.header.number == b.header.number && a.total_work == b.total_work && a.header.hash
        < b.header.hash)
}

/// The block `h` is the best head: it descends from `fin` and beats every
/// other imported block that descends from `fin`.
pub open spec fn is_best_head(s: Seq<ImportedBlock>, fin: u64, h: u64) -> bool {
    &&& descends(s, h, fin)
    &&& forall|i: int|
        0 <= i < s.len() && descends(s, (#[trigger] s[i]).header.hash, fin)
            && s[i].header.hash != h ==> better(block_of(s, h), s[i])
}

/// Two records hold the same imported blocks, in whatever order.
pub open spec fn same_blocks(s1: Seq<ImportedBlock>, s2: Seq<ImportedBlock>) -> bool {
    forall|b: ImportedBlock| s1.contains(b) <==> s2.contains(b)
}

/// Membership, lookup, descent and headship depend only on which blocks were
/// imported, not on the order they arrived in.
proof fn lemma_same_blocks_lookup(s1: Seq<ImportedBlock>, s2: Seq<ImportedBlock>, h: u64)
    requires
        chain_wf(s1),
        chain_wf(s2),
        same_blocks(s1, s2),
    ensures
        contains_hash(s1, h) == contains_hash(s2, h),
        contains_hash(s1, h) ==> block_of(s1, h) == block_of(s2, h),
{
    if contains_hash(s1, h) {
        let i = idx_of(s1, h);
        assert(s1.contains(s1[i]));
        assert(s2.contains(s1[i]));
        let k = choose|k: int| 0 <= k < s2.len() && s2[k] == s1[i];
        assert(contains_hash(s2, h));
        lemma_block_at_index(s2, k);
        assert(block_of(s2, h) == s1[i]);
        lemma_block_at_index(s1, i);
    }
    if contains_hash(s2, h) {
        let i = idx_of(s2, h);
        assert(s2.contains(s2[i]));
        assert(s1.contains(s2[i]));
        let k = choose|k: int| 0 <= k < s1.len() && s1[k] == s2[i];
        assert(s1[k].header.hash == h);
        assert(contains_hash(s1, h));
    }
}

proof fn lemma_same_blocks_reaches(
    s1: Seq<ImportedBlock>,
    s2: Seq<ImportedBlock>,
    h: u64,
    anc: u64,
    fuel: nat,
)
    requires
        chain_wf(s1),
        chain_wf(s2),
        same_blocks(s1, s2),
    ensures
        reaches(s1, h, anc, fuel) == reaches(s2, h, anc, fuel),
    decreases fuel,
{
    lemma_same_blocks_lookup(s1, s2, h);
    if fuel > 0 && h != anc && contains_hash(s1, h) {
        lemma_same_blocks_reaches(
            s1,
            s2,
            block_of(s1, h).header.parent_hash,
            anc,
            (fuel - 1) as nat,
        );
    }
}

proof fn lemma_same_blocks_descends(
    s1: Seq<ImportedBlock>,
    s2: Seq<ImportedBlock>,
    h: u64,
    anc: u64,
)
    requires
        chain_wf(s1),
        chain_wf(s2),
        same_blocks(s1, s2),
    ensures
        descends(s1, h, anc) == descends(s2, h, anc),
{
    reveal(descends);
    lemma_same_blocks_lookup(s1, s2, h);
    lemma_same_blocks_lookup(s1, s2, anc);
    if contains_hash(s1, h) {
        lemma_same_blocks_reaches(s1, s2, h, anc, block_of(s1, h).header.number as nat);
    }
}

/// At most one block is the best head of a record.
pub proof fn lemma_best_head_unique(s: Seq<ImportedBlock>, fin: u64, a: u64, b: u64)
    requires
        chain_wf(s),
        is_best_head(s, fin, a),
        is_best_head(s, fin, b),
    ensures
        a == b,
{
    reveal(descends);
    if a != b {
        let ia = idx_of(s, a);
        let ib = idx_of(s, b);
        lemma_block_at_index(s, ia);
        lemma_block_at_index(s, ib);
        assert(better(block_of(s, a), s[ib]));
        assert(better(block_of(s, b), s[ia]));
        assert(false);
    }
}

/// Fork-choice determinism: two pipeline instances that imported the same
/// set of blocks, with the same chain-work values and the same finalized
/// block, select the same best head.
pub proof fn lemma_fork_choice_deterministic(
    s1: Seq<ImportedBlock>,
    s2: Seq<ImportedBlock>,
    fin: u64,
    a: u64,
    b: u64,
)
    requires
        chain_wf(s1),
        chain_wf(s2),
        same_blocks(s1, s2),
        is_best_head(s1, fin, a),
        is_best_head(s2, fin, b),
    ensures
        a == b,
{
    reveal(descends);
    lemma_same_blocks_descends(s1, s2, a, fin);
    assert(is_best_head(s1, fin, b)) by {
        lemma_same_blocks_descends(s1, s2, b, fin);
        assert forall|i: int|
            0 <= i < s1.len() && descends(s1, (#[trigger] s1[i]).header.hash, fin)
                && s1[i].header.hash != b implies better(block_of(s1, b), s1[i]) by {
            assert(s1.contains(s1[i]));
            assert(s2.contains(s1[i]));
            let k = choose|k: int| 0 <= k < s2.len() && s2[k] == s1[i];
            lemma_same_blocks_descends(s1, s2, s1[i].header.hash, fin);
            assert(descends(s2, s2[k].header.hash, fin));
            assert(better(block_of(s2, b), s2[k]));
            lemma_same_blocks_lookup(s1, s2, b);
        }
    }
    lemma_best_head_unique(s1, fin, a, b);
}

/// Taking a strictly better descendant as the running best keeps it ahead of
/// everything scanned so far.
proof fn lemma_best_update(s: Seq<ImportedBlock>, fin: u64, b: int, k: int)
    requires
        chain_wf(s),
        0 <= b < s.len(),
        0 <= k < s.len(),
        better(s[k], s[b]),
        forall|i: int|
            0 <= i < k && descends(s, (#[trigger] s[i]).header.hash, fin) && s[i].header.hash
                != s[b].header.hash ==> better(s[b], s[i]),
    ensures
        forall|i: int|
            0 <= i < k + 1 && descends(s, (#[trigger] s[i]).header.hash, fin) && s[i].header.hash
                != s[k].header.hash ==> better(s[k], s[i]),
{
    assert forall|i: int|
        0 <= i < k + 1 && descends(s, (#[trigger] s[i]).header.hash, fin) && s[i].header.hash
            != s[k].header.hash implies better(s[k], s[i]) by {
        if i < k {
            if s[i].header.hash != s[b].header.hash {
                assert(better(s[b], s[i]));
            } else {
                lemma_block_at_index(s, i);
                lemma_block_at_index(s, b);
                assert(s[i] == s[b]);
            }
        }
    }
}

/// A scanned block that is no descendant, or no better than the running
/// best, leaves the running best ahead of everything scanned so far.
proof fn lemma_best_keep(s: Seq<ImportedBlock>, fin: u64, b: int, k: int, desc: bool)
    requires
        chain_wf(s),
        0 <= b < s.len(),
        0 <= k < s.len(),
        desc == descends(s, s[k].header.hash, fin),
        !(desc && better(s[k], s[b])),
        forall|i: int|
            0 <= i < k && descends(s, (#[trigger] s[i]).header.hash, fin) && s[i].header.hash
                != s[b].header.hash ==> better(s[b], s[i]),
    ensures
        forall|i: int|
            0 <= i < k + 1 && descends(s, (#[trigger] s[i]).header.hash, fin) && s[i].header.hash
                != s[b].header.hash ==> better(s[b], s[i]),
{
    assert forall|i: int|
        0 <= i < k + 1 && descends(s, (#[trigger] s[i]).header.hash, fin) && s[i].header.hash
            != s[b].header.hash implies better(s[b], s[i]) by {
        if i == k {
            lemma_block_at_index(s, k);
            lemma_block_at_index(s, b);
            assert(s[k] != s[b]);
            assert(better(s[b], s[k]));
        }
    }
}

/// A candidate block as it arrives, local or remote, with the justification
/// it may carry.
pub struct Candidate {
    pub block: Block,
    pub justification: Option<Justification>,
}

/// Why a candidate was rejected. Rejections are terminal: the candidate is
/// never retried.
#[derive(Clone, Copy, PartialEq, Eq, Structural, Debug)]
pub enum RejectReason {
    /// The block (or the root's parent) is already known.
    KnownBlock,
    /// The header's number is not one above its parent's.
    BadNumber,
    /// The carried justification failed verification, or its target is not
    /// this block on a chain descending from the finalized block.
    InvalidJustification,
    /// The slot claim is not by a member of the epoch's authority set, or
    /// does not advance past the parent's slot.
    InvalidSlotProof,
    /// The parent is unknown and the buffer of waiting children is full.
    DependencyTooDeep,
}

/// How the pipeline disposed of a candidate.
#[derive(Clone, Copy, PartialEq, Eq, Structural, Debug)]
pub enum ImportOutcome {
    /// Verified and committed; the best head is up to date.
    Imported,
    /// Parent not imported yet: queued until it resolves.
    Buffered,
    /// Terminally rejected.
    Rejected { reason: RejectReason },
}

/// How the pipeline disposed of a justification that arrived apart from its
/// block.
#[derive(Clone, Copy, PartialEq, Eq, Structural, Debug)]
pub enum JustificationOutcome {
    /// Verified against an imported target: finality advanced.
    Applied,
    /// Target not imported yet: held until it arrives.
    Held,
    /// Failed verification, or named a target off the finalized chain.
    Rejected,
}

/// The block-import pipeline and the chain state it maintains.
pub struct ImportPipeline {
    /// Imported blocks, in import order; the first entry is the root.
    pub chain: Vec<ImportedBlock>,
    pub finalized_hash: u64,
    pub finalized_number: u64,
    pub best_hash: u64,
    /// Highest slot seen in an accepted proof, per author.
    pub seen: Vec<(u64, u64)>,
    /// Recorded equivocations: (author, slot) of each offending claim.
    pub equivocations: Vec<(u64, u64)>,
    /// Children waiting for their parent, oldest first.
    pub pending: Vec<Candidate>,
    /// Justifications that arrived before their target block, held until it
    /// is imported; garbage-collected once finality passes their target.
    pub held_justifications: Vec<Justification>,
    /// Capacity of `pending`; overflow rejects the candidate.
    pub max_pending: usize,
}

impl ImportPipeline {
    /// The pipeline's invariant: a well-formed chain record, the finalized
    /// block imported under its recorded number, the best head selected by
    /// the fork-choice rule, and one slot-tracking entry per author.
    pub open spec fn wf(self) -> bool {
        &&& chain_wf(self.chain@)
        &&& contains_hash(self.chain@, self.finalized_hash)
        &&& block_of(self.chain@, self.finalized_hash).header.number == self.finalized_number
        &&& is_best_head(self.chain@, self.finalized_hash, self.best_hash)
        &&& forall|i: int, j: int| 0 <= i < j < self.seen@.len() ==> self.seen@[i].0 != self.seen@[j].0
    }

    /// The hash is already taken: by an imported block, or by the root's
    /// (never importable) parent.
    pub open spec fn spec_known(self, h: u64) -> bool {
        contains_hash(self.chain@, h) || h == self.chain@[0].header.parent_hash
    }

    /// The header continues its parent's numbering.
    pub open spec fn spec_number_ok(self, hdr: Header) -> bool {
        block_of(self.chain@, hdr.parent_hash).header.number + 1 == hdr.number
    }

    /// A carried justification must verify against the authority set, target
    /// exactly this block, and extend the finalized chain.
    pub open spec fn spec_justification_ok(self, c: Candidate, auth: AuthoritySet) -> bool {
        match c.justification {
            None => true,
            Some(j) => {
                &&& justification_valid(j, auth)
                &&& j.target_hash == c.block.header.hash
                &&& j.target_number == c.block.header.number
                &&& descends(self.chain@, c.block.header.parent_hash, self.finalized_hash)
            },
        }
    }

    /// The slot claim is by an authority-set member and advances past the
    /// parent's slot.
    pub open spec fn spec_slot_proof_ok(self, hdr: Header, auth: AuthoritySet) -> bool {
        &&& auth.spec_contains_key(hdr.proof.author)
        &&& hdr.proof.slot > block_of(self.chain@, hdr.parent_hash).header.proof.slot
    }

    /// All three stages pass: the candidate is fresh, its parent imported,
    /// its numbering, justification and slot proof in order.
    pub open spec fn spec_importable(self, c: Candidate, auth: AuthoritySet) -> bool {
        &&& !self.spec_known(c.block.header.hash)
        &&& contains_hash(self.chain@, c.block.header.parent_hash)
        &&& self.spec_number_ok(c.block.header)
        &&& self.spec_justification_ok(c, auth)
        &&& self.spec_slot_proof_ok(c.block.header, auth)
    }

    /// The record committed for a candidate: its header, with the chain work
    /// accumulated from the parent.
    pub open spec fn spec_committed(self, hdr: Header) -> ImportedBlock {
        ImportedBlock {
            header: hdr,
            total_work: (block_of(self.chain@, hdr.parent_hash).total_work
                + hdr.proof.difficulty) as u128,
        }
    }

    /// A claim equivocates when its author already produced a proof for an
    /// equal or higher slot.
    pub open spec fn spec_equivocates(self, proof: SlotProof) -> bool {
        exists|i: int|
            0 <= i < self.seen@.len() && (#[trigger] self.seen@[i]).0 == proof.author
                && proof.slot <= self.seen@[i].1
    }

    /// Starts a pipeline at its root block (a genesis, or a warp-sync
    /// snapshot header renumbered as the local origin), which is finalized
    /// and best.
    pub fn new(root: Header, max_pending: usize) -> (r: ImportPipeline)
        requires
            root.number == 0,
            root.hash != root.parent_hash,
        ensures
            r.wf(),
            r.chain@.len() == 1,
            r.chain@[0] == (ImportedBlock { header: root, total_work: 0 }),
            r.finalized_hash == root.hash,
            r.finalized_number == 0,
            r.best_hash == root.hash,
            r.pending@.len() == 0,
            r.held_justifications@.len() == 0,
            r.equivocations@.len() == 0,
            r.max_pending == max_pending,
    {
        let rec = ImportedBlock { header: root, total_work: 0 };
        let mut chain: Vec<ImportedBlock> = Vec::new();
        chain.push(rec);
        let r = ImportPipeline {
            chain,
            finalized_hash: root.hash,
            finalized_number: 0,
            best_hash: root.hash,
            seen: Vec::new(),
            equivocations: Vec::new(),
            pending: Vec::new(),
            held_justifications: Vec::new(),
            max_pending,
        };
        proof {
            assert(chain_wf(r.chain@));
            lemma_block_at_index(r.chain@, 0);
            reveal(descends);
            assert(descends(r.chain@, root.hash, root.hash));
        }
        r
    }

    /// The position of the block with this hash, which must be imported.
    fn index_of_hash(&self, h: u64) -> (i: usize)
        requires
            chain_wf(self.chain@),
            contains_hash(self.chain@, h),
        ensures
            i < self.chain@.len(),
            self.chain@[i as int].header.hash == h,
            idx_of(self.chain@, h) == i,
            block_of(self.chain@, h) == self.chain@[i as int],
    {
        let ghost s = self.chain@;
        let n = self.chain.len();
        let mut i: usize = 0;
        while i < n
            invariant
                s == self.chain@,
                chain_wf(s),
                n == s.len(),
                0 <= i <= n,
                forall|k: int| 0 <= k < i ==> s[k].header.hash != h,
            decreases n - i,
        {
            if self.chain[i].header.hash == h {
                proof {
                    lemma_block_at_index(s, i as int);
                }
                return i;
            }
            i = i + 1;
        }
        proof {
            let w = choose|w: int| 0 <= w < s.len() && s[w].header.hash == h;
            assert(false);
        }
        0
    }

    /// Whether the block with this hash is imported.
    fn is_imported(&self, h: u64) -> (r: bool)
        requires
            chain_wf(self.chain@),
        ensures
            r == contains_hash(self.chain@, h),
    {
        let ghost s = self.chain@;
        let n = self.chain.len();
        let mut i: usize = 0;
        while i < n
            invariant
                s == self.chain@,
                n == s.len(),
                0 <= i <= n,
                forall|k: int| 0 <= k < i ==> s[k].header.hash != h,
            decreases n - i,
        {
            if self.chain[i].header.hash == h {
                return true;
            }
            i = i + 1;
        }
        false
    }

    /// Whether imported block `h` descends from imported block `anc`,
    /// walking parent links.
    fn is_descendant(&self, h: u64, anc: u64) -> (r: bool)
        requires
            chain_wf(self.chain@),
            contains_hash(self.chain@, h),
            contains_hash(self.chain@, anc),
        ensures
            r == descends(self.chain@, h, anc),
    {
        let ghost s = self.chain@;
        let ai = self.index_of_hash(anc);
        let anc_number = self.chain[ai].header.number;
        let mut cur = h;
        let mut ci = self.index_of_hash(cur);
        while self.chain[ci].header.number > anc_number
            invariant
                s == self.chain@,
                chain_wf(s),
                contains_hash(s, cur),
                contains_hash(s, anc),
                ci < s.len(),
                ci == idx_of(s, cur),
                s[ci as int].header.hash == cur,
                anc_number == block_of(s, anc).header.number,
                descends(s, h, anc) == descends(s, cur, anc),
            decreases block_of(s, cur).header.number,
        {
            proof {
                lemma_descends_step(s, cur, anc);
            }
            let parent = self.chain[ci].header.parent_hash;
            cur = parent;
            ci = self.index_of_hash(cur);
        }
        if cur == anc {
            proof {
                reveal(descends);
                assert(reaches(s, cur, anc, block_of(s, cur).header.number as nat));
            }
            true
        } else {
            proof {
                reveal(descends);
                lemma_no_reach_down(s, cur, anc, block_of(s, cur).header.number as nat);
            }
            false
        }
    }

    /// The fork-choice order, decided on records.
    fn better_exec(a: &ImportedBlock, b: &ImportedBlock) -> (r: bool)
        ensures
            r == better(*a, *b),
    {
        if a.header.number != b.header.number {
            a.header.number > b.header.number
        } else if a.total_work != b.total_work {
            a.total_work > b.total_work
        } else {
            a.header.hash < b.header.hash
        }
    }

    /// Selects the best head among the blocks descending from the finalized
    /// block: the fork-choice rule.
    #[verifier::rlimit(100)]
    fn compute_best(&self) -> (r: u64)
        requires
            chain_wf(self.chain@),
            contains_hash(self.chain@, self.finalized_hash),
        ensures
            is_best_head(self.chain@, self.finalized_hash, r),
    {
        let ghost s = self.chain@;
        let ghost fin = self.finalized_hash;
        let mut best_i = self.index_of_hash(self.finalized_hash);
        proof {
            reveal(descends);
            assert(descends(s, s[best_i as int].header.hash, fin));
        }
        let n = self.chain.len();
        let mut k: usize = 0;
        while k < n
            invariant
                s == self.chain@,
                chain_wf(s),
                fin == self.finalized_hash,
                contains_hash(s, fin),
                n == s.len(),
                0 <= k <= n,
                best_i < n,
                descends(s, s[best_i as int].header.hash, fin),
                forall|i: int|
                    0 <= i < k && descends(s, (#[trigger] s[i]).header.hash, fin)
                        && s[i].header.hash != s[best_i as int].header.hash ==> better(
                        s[best_i as int],
                        s[i],
                    ),
            decreases n - k,
        {
            let desc = self.is_descendant(self.chain[k].header.hash, self.finalized_hash);
            if desc && Self::better_exec(&self.chain[k], &self.chain[best_i]) {
                proof {
                    lemma_best_update(s, fin, best_i as int, k as int);
                }
                best_i = k;
            } else {
                proof {
                    lemma_best_keep(s, fin, best_i as int, k as int, desc);
                }
            }
            k = k + 1;
        }
        proof {
            lemma_block_at_index(s, best_i as int);
        }
        self.chain[best_i].header.hash
    }

    /// Whether an imported block extends the finalized chain: the constraint
    /// on a finality voter's prevote, which must name a descendant of the
    /// last finalized block.
    pub fn extends_finalized(&self, h: u64) -> (r: bool)
        requires
            self.wf(),
        ensures
            r == descends(self.chain@, h, self.finalized_hash),
    {
        if !self.is_imported(h) {
            proof {
                reveal(descends);
            }
            return false;
        }
        self.is_descendant(h, self.finalized_hash)
    }

    /// Runs one candidate through the pipeline stages. Commits and answers
    /// `Imported` exactly when the candidate is importable; buffers a child
    /// whose parent is missing while the buffer has room; rejects terminally
    /// otherwise, leaving the state untouched.
    pub fn import_candidate(&mut self, c: Candidate, auth: &AuthoritySet) -> (out: ImportOutcome)
        requires
            old(self).wf(),
            auth.wf(),
        ensures
            final(self).wf(),
            final(self).max_pending == old(self).max_pending,
            out == (ImportOutcome::Rejected { reason: RejectReason::KnownBlock }) <==> old(self).spec_known(c.block.header.hash),
            out == ImportOutcome::Buffered <==> !old(self).spec_known(c.block.header.hash)
                && !contains_hash(old(self).chain@, c.block.header.parent_hash) && old(self).pending@.len() < old(self).max_pending,
            out == (ImportOutcome::Rejected { reason: RejectReason::DependencyTooDeep }) <==> !old(self).spec_known(c.block.header.hash) && !contains_hash(
                old(self).chain@,
                c.block.header.parent_hash,
            ) && old(self).pending@.len() >= old(self).max_pending,
            out == (ImportOutcome::Rejected { reason: RejectReason::BadNumber }) <==> !old(self).spec_known(c.block.header.hash) && contains_hash(
                old(self).chain@,
                c.block.header.parent_hash,
            ) && !old(self).spec_number_ok(c.block.header),
            out == (ImportOutcome::Rejected { reason: RejectReason::InvalidJustification }) <==> !old(self).spec_known(c.block.header.hash) && contains_hash(
                old(self).chain@,
                c.block.header.parent_hash,
            ) && old(self).spec_number_ok(c.block.header) && !old(self).spec_justification_ok(
                c,
                *auth,
            ),
            out == (ImportOutcome::Rejected { reason: RejectReason::InvalidSlotProof }) <==> !old(self).spec_known(c.block.header.hash) && contains_hash(
                old(self).chain@,
                c.block.header.parent_hash,
            ) && old(self).spec_number_ok(c.block.header) && old(self).spec_justification_ok(
                c,
                *auth,
            ) && !old(self).spec_slot_proof_ok(c.block.header, *auth),
            out == ImportOutcome::Imported <==> old(self).spec_importable(c, *auth),
            out is Rejected ==> *final(self) == *old(self),
            out == ImportOutcome::Buffered ==> final(self).chain@ == old(self).chain@
                && final(self).finalized_hash == old(self).finalized_hash && final(self).finalized_number == old(self).finalized_number && final(self).best_hash == old(self).best_hash && final(self).seen@ == old(self).seen@ && final(self).equivocations@
                == old(self).equivocations@ && final(self).held_justifications@ == old(self).held_justifications@ && final(self).pending@ == old(self).pending@.push(c),
            out == ImportOutcome::Imported ==> {
                &&& final(self).chain@ == old(self).chain@.push(
                    old(self).spec_committed(c.block.header),
                )
                &&& final(self).pending@ == old(self).pending@
                &&& final(self).held_justifications@ == old(self).held_justifications@
                &&& (c.justification is Some ==> final(self).finalized_hash == c.block.header.hash
                    && final(self).finalized_number == c.block.header.number)
                &&& (c.justification is None ==> final(self).finalized_hash == old(self).finalized_hash && final(self).finalized_number == old(self).finalized_number)
                &&& (old(self).spec_equivocates(c.block.header.proof) ==> final(self).equivocations@ == old(self).equivocations@.push(
                    (c.block.header.proof.author, c.block.header.proof.slot),
                ))
                &&& (!old(self).spec_equivocates(c.block.header.proof) ==> final(self).equivocations@ == old(self).equivocations@)
            },
            final(self).finalized_number >= old(self).finalized_number,
    {
        let hdr = c.block.header;
        if self.is_imported(hdr.hash) {
            return ImportOutcome::Rejected { reason: RejectReason::KnownBlock };
        }
        if hdr.hash == self.chain[0].header.parent_hash {
            return ImportOutcome::Rejected { reason: RejectReason::KnownBlock };
        }
        if !self.is_imported(hdr.parent_hash) {
            if self.pending.len() < self.max_pending {
                self.pending.push(c);
                return ImportOutcome::Buffered;
            }
            return ImportOutcome::Rejected { reason: RejectReason::DependencyTooDeep };
        }
        let pi = self.index_of_hash(hdr.parent_hash);
        let parent = self.chain[pi];
        if parent.header.number == u64::MAX || hdr.number != parent.header.number + 1 {
            return ImportOutcome::Rejected { reason: RejectReason::BadNumber };
        }
        match &c.justification {
            Some(j) => {
                if verify_justification(j, auth).is_err() || j.target_hash != hdr.hash
                    || j.target_number != hdr.number || !self.is_descendant(
                    hdr.parent_hash,
                    self.finalized_hash,
                ) {
                    return ImportOutcome::Rejected { reason: RejectReason::InvalidJustification };
                }
            },
            None => {},
        }
        if !auth.contains_key(hdr.proof.author) {
            return ImportOutcome::Rejected { reason: RejectReason::InvalidSlotProof };
        }
        if hdr.proof.slot <= parent.header.proof.slot {
            return ImportOutcome::Rejected { reason: RejectReason::InvalidSlotProof };
        }

        // Slot-claim bookkeeping: an equal or lower slot than already seen
        // from this author is an equivocation; it is recorded but does not
        // block the import.
        let ghost seen0 = self.seen@;
        let author = hdr.proof.author;
        let mut si: usize = 0;
        let n = self.seen.len();
        let mut found = false;
        while si < n && !found
            invariant
                *self == *old(self),
                seen0 == self.seen@,
                n == seen0.len(),
                0 <= si <= n,
                !found ==> forall|k: int| 0 <= k < si ==> seen0[k].0 != author,
                found ==> si < n && seen0[si as int].0 == author,
            decreases n - si + if found { 0int } else { 1int },
        {
            if self.seen[si].0 == author {
                found = true;
            } else {
                si = si + 1;
            }
        }
        if found {
            if hdr.proof.slot <= self.seen[si].1 {
                proof {
                    assert(old(self).spec_equivocates(hdr.proof));
                }
                self.equivocations.push((author, hdr.proof.slot));
            } else {
                proof {
                    assert forall|i: int|
                        0 <= i < seen0.len() && (#[trigger] seen0[i]).0 == author implies seen0[i].1
                        < hdr.proof.slot by {
                        if i < si {
                            assert(seen0[i].0 != author);
                        } else if i > si {
                            assert(seen0[si as int].0 != seen0[i].0);
                        }
                    }
                    assert(!old(self).spec_equivocates(hdr.proof));
                }
                self.seen[si] = (author, hdr.proof.slot);
            }
        } else {
            proof {
                assert(!old(self).spec_equivocates(hdr.proof));
            }
            self.seen.push((author, hdr.proof.slot));
        }
        proof {
            assert forall|i: int, j: int|
                0 <= i < j < self.seen@.len() implies self.seen@[i].0 != self.seen@[j].0 by {
                assert(seen0.len() <= self.seen@.len());
                if j < seen0.len() {
                    assert(seen0[i].0 != seen0[j].0);
                }
            }
        }

        // Commit stage: extend the chain record with the accumulated work,
        // advance finality if the candidate carried its justification, and
        // re-run fork choice.
        let ghost s0 = self.chain@;
        proof {
            lemma_work_bound(
                parent.total_work as int,
                parent.header.number as int,
                hdr.proof.difficulty as int,
            );
        }
        let rec = ImportedBlock {
            header: hdr,
            total_work: parent.total_work + (hdr.proof.difficulty as u128),
        };
        self.chain.push(rec);
        proof {
            lemma_chain_push_wf(s0, rec, pi as int);
            assert(rec == old(self).spec_committed(hdr));
            lemma_block_at_index(self.chain@, s0.len() as int);
            assert(contains_hash(self.chain@, old(self).finalized_hash)) by {
                let fi = idx_of(s0, old(self).finalized_hash);
                assert(self.chain@[fi].header.hash == old(self).finalized_hash);
            }
        }
        match &c.justification {
            Some(_) => {
                proof {
                    lemma_block_at_index(s0, pi as int);
                    lemma_descends_number(s0, hdr.parent_hash, old(self).finalized_hash);
                }
                self.finalized_hash = hdr.hash;
                self.finalized_number = hdr.number;
            },
            None => {
                proof {
                    let fi = idx_of(s0, old(self).finalized_hash);
                    lemma_block_at_index(s0, fi);
                    lemma_block_at_index(self.chain@, fi);
                }
            },
        }
        let best = self.compute_best();
        self.best_hash = best;
        proof {
            assert(old(self).spec_importable(c, *auth));
        }
        ImportOutcome::Imported
    }

    /// Re-queues buffered children whose parent has resolved (or whose hash
    /// is known by now), running each through the stages again, until every
    /// candidate left in the buffer still waits for an unknown parent.
    pub fn resolve_pending(&mut self, auth: &AuthoritySet)
        requires
            old(self).wf(),
            auth.wf(),
        ensures
            final(self).wf(),
            final(self).max_pending == old(self).max_pending,
            final(self).finalized_number >= old(self).finalized_number,
            forall|i: int|
                0 <= i < final(self).pending@.len() ==> !final(self).spec_known(
                    (#[trigger] final(self).pending@[i]).block.header.hash,
                ) && !contains_hash(
                    final(self).chain@,
                    final(self).pending@[i].block.header.parent_hash,
                ),
    {
        let mut progress = true;
        while progress
            invariant
                self.wf(),
                auth.wf(),
                self.max_pending == old(self).max_pending,
                self.finalized_number >= old(self).finalized_number,
                !progress ==> forall|i: int|
                    0 <= i < self.pending@.len() ==> !self.spec_known(
                        (#[trigger] self.pending@[i]).block.header.hash,
                    ) && !contains_hash(self.chain@, self.pending@[i].block.header.parent_hash),
            decreases self.pending@.len() + if progress { 1int } else { 0int },
        {
            let n = self.pending.len();
            let mut k: usize = 0;
            let mut found = false;
            while k < n && !found
                invariant
                    self.wf(),
                    n == self.pending@.len(),
                    0 <= k <= n,
                    !found ==> forall|i: int|
                        0 <= i < k ==> !self.spec_known(
                            (#[trigger] self.pending@[i]).block.header.hash,
                        ) && !contains_hash(
                            self.chain@,
                            self.pending@[i].block.header.parent_hash,
                        ),
                    found ==> k < n && (self.spec_known(self.pending@[k as int].block.header.hash)
                        || contains_hash(
                        self.chain@,
                        self.pending@[k as int].block.header.parent_hash,
                    )),
                decreases n - k + if found { 0int } else { 1int },
            {
                let hash = self.pending[k].block.header.hash;
                let parent = self.pending[k].block.header.parent_hash;
                if self.is_imported(hash) || hash == self.chain[0].header.parent_hash
                    || self.is_imported(parent) {
                    found = true;
                } else {
                    k = k + 1;
                }
            }
            if found {
                let ghost pend0 = self.pending@;
                let cand = self.pending.remove(k);
                proof {
                    assert(self.pending@.len() == pend0.len() - 1);
                }
                let outcome = self.import_candidate(cand, auth);
                proof {
                    assert(outcome != ImportOutcome::Buffered);
                }
            } else {
                progress = false;
            }
        }
    }

    /// Takes a justification that arrived apart from its block. Applied —
    /// finality advanced and fork choice re-run — exactly when it verifies,
    /// its target is imported under the stated number, and the target
    /// extends the finalized chain; held until the block arrives when the
    /// target is unknown; rejected otherwise, leaving the state untouched.
    pub fn apply_justification(&mut self, j: Justification, auth: &AuthoritySet) -> (r:
        JustificationOutcome)
        requires
            old(self).wf(),
            auth.wf(),
        ensures
            final(self).wf(),
            final(self).max_pending == old(self).max_pending,
            final(self).chain@ == old(self).chain@,
            final(self).pending@ == old(self).pending@,
            final(self).finalized_number >= old(self).finalized_number,
            r == JustificationOutcome::Applied <==> justification_valid(j, *auth) && contains_hash(
                old(self).chain@,
                j.target_hash,
            ) && block_of(old(self).chain@, j.target_hash).header.number == j.target_number
                && descends(old(self).chain@, j.target_hash, old(self).finalized_hash),
            r == JustificationOutcome::Held <==> justification_valid(j, *auth) && !contains_hash(
                old(self).chain@,
                j.target_hash,
            ),
            r == JustificationOutcome::Applied ==> final(self).finalized_hash == j.target_hash
                && final(self).finalized_number == j.target_number
                && final(self).held_justifications@ == old(self).held_justifications@,
            r == JustificationOutcome::Held ==> final(self).finalized_hash == old(self).finalized_hash && final(self).finalized_number == old(self).finalized_number
                && final(self).best_hash == old(self).best_hash
                && final(self).held_justifications@ == old(self).held_justifications@.push(j),
            r == JustificationOutcome::Rejected ==> *final(self) == *old(self),
    {
        if verify_justification(&j, auth).is_err() {
            return JustificationOutcome::Rejected;
        }
        if !self.is_imported(j.target_hash) {
            self.held_justifications.push(j);
            return JustificationOutcome::Held;
        }
        let ti = self.index_of_hash(j.target_hash);
        if self.chain[ti].header.number != j.target_number {
            return JustificationOutcome::Rejected;
        }
        if !self.is_descendant(j.target_hash, self.finalized_hash) {
            return JustificationOutcome::Rejected;
        }
        proof {
            lemma_descends_number(self.chain@, j.target_hash, self.finalized_hash);
        }
        self.finalized_hash = j.target_hash;
        self.finalized_number = j.target_number;
        let best = self.compute_best();
        self.best_hash = best;
        JustificationOutcome::Applied
    }

    /// Re-examines held justifications whose target has since been imported,
    /// applying or rejecting each, until every remaining one still waits for
    /// an unknown block.
    pub fn resolve_held_justifications(&mut self, auth: &AuthoritySet)
        requires
            old(self).wf(),
            auth.wf(),
        ensures
            final(self).wf(),
            final(self).max_pending == old(self).max_pending,
            final(self).chain@ == old(self).chain@,
            final(self).finalized_number >= old(self).finalized_number,
            forall|i: int|
                0 <= i < final(self).held_justifications@.len() ==> !contains_hash(
                    final(self).chain@,
                    (#[trigger] final(self).held_justifications@[i]).target_hash,
                ),
    {
        let mut progress = true;
        while progress
            invariant
                self.wf(),
                auth.wf(),
                self.max_pending == old(self).max_pending,
                self.chain@ == old(self).chain@,
                self.finalized_number >= old(self).finalized_number,
                !progress ==> forall|i: int|
                    0 <= i < self.held_justifications@.len() ==> !contains_hash(
                        self.chain@,
                        (#[trigger] self.held_justifications@[i]).target_hash,
                    ),
            decreases self.held_justifications@.len() + if progress { 1int } else { 0int },
        {
            let n = self.held_justifications.len();
            let mut k: usize = 0;
            let mut found = false;
            while k < n && !found
                invariant
                    self.wf(),
                    n == self.held_justifications@.len(),
                    0 <= k <= n,
                    !found ==> forall|i: int|
                        0 <= i < k ==> !contains_hash(
                            self.chain@,
                            (#[trigger] self.held_justifications@[i]).target_hash,
                        ),
                    found ==> k < n && contains_hash(
                        self.chain@,
                        self.held_justifications@[k as int].target_hash,
                    ),
                decreases n - k + if found { 0int } else { 1int },
            {
                if self.is_imported(self.held_justifications[k].target_hash) {
                    found = true;
                } else {
                    k = k + 1;
                }
            }
            if found {
                let ghost held0 = self.held_justifications@;
                let j = self.held_justifications.remove(k);
                proof {
                    assert(self.held_justifications@.len() == held0.len() - 1);
                }
                let outcome = self.apply_justification(j, auth);
                proof {
                    assert(outcome != JustificationOutcome::Held);
                }
            } else {
                progress = false;
            }
        }
    }

    /// Garbage-collects held justifications once finality has passed their
    /// target: anything at or below the finalized height can never advance
    /// finality again. A justification whose target never arrives is dropped
    /// by the caller's timeout through the same collection.
    pub fn gc_held_justifications(&mut self)
        requires
            old(self).wf(),
        ensures
            final(self).wf(),
            *final(self) == (ImportPipeline {
                held_justifications: final(self).held_justifications,
                ..*old(self)
            }),
            forall|i: int|
                0 <= i < final(self).held_justifications@.len() ==> (#[trigger] final(self).held_justifications@[i]).target_number > old(self).finalized_number && old(self).held_justifications@.contains(final(self).held_justifications@[i]),
            forall|i: int|
                0 <= i < old(self).held_justifications@.len() && (#[trigger] old(self).held_justifications@[i]).target_number > old(self).finalized_number ==> final(self).held_justifications@.contains(old(self).held_justifications@[i]),
    {
        let ghost held0 = self.held_justifications@;
        let mut kept: Vec<Justification> = Vec::new();
        let n = self.held_justifications.len();
        let mut k: usize = 0;
        while k < n
            invariant
                *self == (ImportPipeline {
                    held_justifications: self.held_justifications,
                    ..*old(self)
                }),
                n == held0.len(),
                self.held_justifications@ == held0.skip(k as int),
                0 <= k <= n,
                forall|t: int|
                    0 <= t < kept@.len() ==> (#[trigger] kept@[t]).target_number
                        > self.finalized_number && held0.contains(kept@[t]),
                forall|t: int|
                    0 <= t < k && held0[t].target_number > self.finalized_number
                        ==> kept@.contains(#[trigger] held0[t]),
            decreases n - k,
        {
            let ghost rest = self.held_justifications@;
            let j = self.held_justifications.remove(0);
            proof {
                assert(rest.remove(0) =~= held0.skip(k as int + 1));
                assert(rest[0] == held0[k as int]);
                assert(held0.contains(held0[k as int]));
            }
            if j.target_number > self.finalized_number {
                let ghost kept0 = kept@;
                kept.push(j);
                proof {
                    assert(kept@[kept0.len() as int] == held0[k as int]);
                    assert forall|t: int|
                        0 <= t < k + 1 && held0[t].target_number > self.finalized_number
                            implies kept@.contains(#[trigger] held0[t]) by {
                        if t < k {
                            let w = choose|w: int| 0 <= w < kept0.len() && kept0[w] == held0[t];
                            assert(kept@[w] == held0[t]);
                        } else {
                            assert(kept@[kept0.len() as int] == held0[t]);
                        }
                    }
                }
            }
            k = k + 1;
        }
        proof {
            assert(held0.skip(n as int).len() == 0);
        }
        self.held_justifications = kept;
    }
}


/// Arithmetic of the work accumulation: a child's total work stays within
/// its number's bound and within the machine word that holds it.
proof fn lemma_work_bound(pw: int, pn: int, d: int)
    requires
        0 <= pw,
        0 <= pn <= u64::MAX - 1,
        0 <= d <= u64::MAX,
        pw <= pn * (u64::MAX as int),
    ensures
        pw + d <= (pn + 1) * (u64::MAX as int),
        pw + d <= u128::MAX,
{
    let mx = u64::MAX as int;
    assert(pw + d <= (pn + 1) * mx) by (nonlinear_arith)
        requires
            pw <= pn * mx,
            d <= mx,
            0 <= pn,
    ;
    assert((pn + 1) * mx <= mx * mx) by (nonlinear_arith)
        requires
            pn + 1 <= mx,
            0 <= mx,
    ;
    assert(mx * mx == 0xFFFFFFFFFFFFFFFE0000000000000001int) by (nonlinear_arith)
        requires
            mx == 0xFFFFFFFFFFFFFFFFint,
    ;
    assert(mx * mx <= u128::MAX);
}

/// Appending a child whose parent is the record's entry `p` preserves the
/// chain record's well-formedness.
proof fn lemma_chain_push_wf(s: Seq<ImportedBlock>, rec: ImportedBlock, p: int)
    requires
        chain_wf(s),
        0 <= p < s.len(),
        s[p].header.hash == rec.header.parent_hash,
        s[p].header.number + 1 == rec.header.number,
        rec.total_work == s[p].total_work + rec.header.proof.difficulty,
        !contains_hash(s, rec.header.hash),
        rec.header.hash != s[0].header.parent_hash,
    ensures
        chain_wf(s.push(rec)),
{
    let s2 = s.push(rec);
    assert(s2[0] == s[0]);
    assert forall|i: int| 0 <= i < s2.len() implies #[trigger] s2[i].header.hash
        != s2[0].header.parent_hash by {
        if i < s.len() {
            assert(s2[i] == s[i]);
        }
    }
    assert forall|i: int, j: int| 0 <= i < j < s2.len() implies s2[i].header.hash
        != s2[j].header.hash by {
        if j < s.len() {
            assert(s[i].header.hash != s[j].header.hash);
        } else {
            assert(s2[i] == s[i]);
            if s[i].header.hash == rec.header.hash {
                assert(contains_hash(s, rec.header.hash));
            }
        }
    }
    assert forall|i: int| 1 <= i < s2.len() implies exists|q: int|
        0 <= q < i && #[trigger] s2[q].header.hash == (#[trigger] s2[i]).header.parent_hash
            && s2[q].header.number + 1 == s2[i].header.number && s2[i].total_work
            == s2[q].total_work + s2[i].header.proof.difficulty by {
        if i < s.len() {
            let q = choose|q: int|
                0 <= q < i && #[trigger] s[q].header.hash == s[i].header.parent_hash
                    && s[q].header.number + 1 == s[i].header.number && s[i].total_work
                    == s[q].total_work + s[i].header.proof.difficulty;
            assert(s2[q] == s[q]);
            assert(s2[i] == s[i]);
            assert(s2[q].header.hash == s2[i].header.parent_hash && s2[q].header.number + 1
                == s2[i].header.number && s2[i].total_work == s2[q].total_work
                + s2[i].header.proof.difficulty);
        } else {
            assert(s2[p] == s[p]);
            assert(s2[p].header.hash == s2[i].header.parent_hash && s2[p].header.number + 1
                == s2[i].header.number && s2[i].total_work == s2[p].total_work
                + s2[i].header.proof.difficulty);
        }
    }
    assert forall|i: int| 0 <= i < s2.len() implies (#[trigger] s2[i].total_work)
        <= s2[i].header.number as int * u64::MAX by {
        if i < s.len() {
            assert(s2[i] == s[i]);
        } else {
            lemma_work_bound(
                s[p].total_work as int,
                s[p].header.number as int,
                rec.header.proof.difficulty as int,
            );
        }
    }
}

} // verus!
