//! Round-based finality voting: precommit tallies with equivocation
//! exclusion, justification assembly and verification against an epoch's
//! authority set, and the voter state persisted for crash recovery.
//!
//! Signatures are a collaborator's concern: a `Precommit` reaching this
//! module has already been authenticated, and its signer key is checked here
//! against the authority set.

use vstd::prelude::*;
use crate::authority::{
    AuthoritySet, is_supermajority, signed_weight_of, supermajority, total_weight_of,
    lemma_signed_weight_le_total, lemma_take_weight_monotonic,
};

verus! {

/// One authenticated precommit vote of a finality round.
#[derive(Clone, Copy, PartialEq, Eq, Structural, Debug)]
pub struct Precommit {
    pub signer: u64,
    pub target_hash: u64,
    pub target_number: u64,
}

/// A finality proof: the round it was reached in, the block it finalizes,
/// and the precommits that carry it. Immutable once accepted.
pub struct Justification {
    pub round: u64,
    pub target_hash: u64,
    pub target_number: u64,
    pub precommits: Vec<Precommit>,
}

/// The set of keys that signed any of the votes.
pub open spec fn signers_of(votes: Seq<Precommit>) -> Set<u64> {
    Set::new(|k: u64| exists|i: int| 0 <= i < votes.len() && votes[i].signer == k)
}

/// The set of keys that voted for exactly the given target.
pub open spec fn target_supporters(votes: Seq<Precommit>, hash: u64, number: u64) -> Set<u64> {
    Set::new(
        |k: u64|
            exists|i: int|
                0 <= i < votes.len() && votes[i].signer == k && votes[i].target_hash == hash
                    && votes[i].target_number == number,
    )
}

/// An acceptable justification: every precommit names the justification's
/// target, every signer is a member of the authority set, no signer appears
/// twice, and the signers' weight is a supermajority of the set.
pub open spec fn justification_valid(j: Justification, auth: AuthoritySet) -> bool {
    &&& forall|i: int|
        0 <= i < j.precommits@.len() ==> j.precommits@[i].target_hash == j.target_hash
            && j.precommits@[i].target_number == j.target_number
    &&& forall|i: int|
        0 <= i < j.precommits@.len() ==> auth.spec_contains_key(j.precommits@[i].signer)
    &&& forall|i: int, k: int|
        0 <= i < k < j.precommits@.len() ==> j.precommits@[i].signer != j.precommits@[k].signer
    &&& is_supermajority(
        signed_weight_of(auth.authorities@, signers_of(j.precommits@)),
        total_weight_of(auth.authorities@),
    )
}

/// Justification soundness: an acceptable justification carries a
/// supermajority (by weight) of the authority set, and no signer appears
/// twice, so no signer contributes two conflicting votes.
pub proof fn lemma_justification_soundness(j: Justification, auth: AuthoritySet)
    requires
        justification_valid(j, auth),
    ensures
        is_supermajority(
            signed_weight_of(auth.authorities@, signers_of(j.precommits@)),
            total_weight_of(auth.authorities@),
        ),
        forall|i: int, k: int|
            0 <= i < k < j.precommits@.len() ==> j.precommits@[i].signer
                != j.precommits@[k].signer,
        signed_weight_of(auth.authorities@, signers_of(j.precommits@))
            <= total_weight_of(auth.authorities@),
{
    lemma_signed_weight_le_total(auth.authorities@, signers_of(j.precommits@));
}

/// Why a justification was rejected.
#[derive(Clone, Copy, PartialEq, Eq, Structural, Debug)]
pub enum JustificationError {
    /// A precommit names a block other than the justification's target.
    WrongTarget,
    /// A precommit's signer is not in the authority set.
    UnknownSigner,
    /// One key signed more than one of the precommits.
    DuplicateSigner,
    /// The signers' combined weight is not a supermajority.
    InsufficientWeight,
}

/// Whether any of the votes was signed by `key`.
fn has_vote_by(votes: &Vec<Precommit>, key: u64) -> (r: bool)
    ensures
        r == signers_of(votes@).contains(key),
{
    let mut i: usize = 0;
    while i < votes.len()
        invariant
            0 <= i <= votes@.len(),
            forall|k: int| 0 <= k < i ==> votes@[k].signer != key,
        decreases votes@.len() - i,
    {
        if votes[i].signer == key {
            return true;
        }
        i = i + 1;
    }
    false
}

/// Combined weight of the authority-set members that signed one of the
/// votes.
fn signed_weight(auth: &AuthoritySet, votes: &Vec<Precommit>) -> (w: u64)
    requires
        auth.wf(),
    ensures
        w == signed_weight_of(auth.authorities@, signers_of(votes@)),
{
    let ghost all = auth.authorities@;
    let ghost sgn = signers_of(votes@);
    let mut w: u64 = 0;
    let mut i: usize = 0;
    while i < auth.authorities.len()
        invariant
            auth.wf(),
            all == auth.authorities@,
            sgn == signers_of(votes@),
            0 <= i <= all.len(),
            w == signed_weight_of(all.take(i as int), sgn),
        decreases all.len() - i,
    {
        proof {
            assert(all.take(i as int + 1).drop_last() =~= all.take(i as int));
            lemma_signed_weight_le_total(all.take(i as int + 1), sgn);
            lemma_take_weight_monotonic(all, i as int + 1);
        }
        if has_vote_by(votes, auth.authorities[i].key) {
            w = w + auth.authorities[i].weight;
        }
        i = i + 1;
    }
    proof {
        assert(all.take(all.len() as int) =~= all);
    }
    w
}

/// Verifies a justification against the authority set active at its target's
/// epoch. Accepts exactly the acceptable justifications; a rejection names
/// the first violated condition.
pub fn verify_justification(j: &Justification, auth: &AuthoritySet) -> (r: Result<
    (),
    JustificationError,
>)
    requires
        auth.wf(),
    ensures
        r is Ok <==> justification_valid(*j, *auth),
        r matches Err(e) ==> match e {
            JustificationError::WrongTarget => exists|i: int|
                0 <= i < j.precommits@.len() && (j.precommits@[i].target_hash != j.target_hash
                    || j.precommits@[i].target_number != j.target_number),
            JustificationError::UnknownSigner => exists|i: int|
                0 <= i < j.precommits@.len() && !auth.spec_contains_key(j.precommits@[i].signer),
            JustificationError::DuplicateSigner => exists|i: int, k: int|
                0 <= i < k < j.precommits@.len() && j.precommits@[i].signer
                    == j.precommits@[k].signer,
            JustificationError::InsufficientWeight => !is_supermajority(
                signed_weight_of(auth.authorities@, signers_of(j.precommits@)),
                total_weight_of(auth.authorities@),
            ),
        },
{
    let n = j.precommits.len();
    let mut i: usize = 0;
    while i < n
        invariant
            n == j.precommits@.len(),
            0 <= i <= n,
            forall|k: int|
                0 <= k < i ==> j.precommits@[k].target_hash == j.target_hash
                    && j.precommits@[k].target_number == j.target_number,
        decreases n - i,
    {
        if j.precommits[i].target_hash != j.target_hash
            || j.precommits[i].target_number != j.target_number {
            return Err(JustificationError::WrongTarget);
        }
        i = i + 1;
    }

    let mut i: usize = 0;
    while i < n
        invariant
            n == j.precommits@.len(),
            0 <= i <= n,
            forall|k: int| 0 <= k < i ==> auth.spec_contains_key(j.precommits@[k].signer),
        decreases n - i,
    {
        if !auth.contains_key(j.precommits[i].signer) {
            return Err(JustificationError::UnknownSigner);
        }
        i = i + 1;
    }

    let mut i: usize = 0;
    while i < n
        invariant
            n == j.precommits@.len(),
            0 <= i <= n,
            forall|a: int, b: int|
                0 <= a < b < n && a < i ==> j.precommits@[a].signer != j.precommits@[b].signer,
        decreases n - i,
    {
        let mut k: usize = i + 1;
        while k < n
            invariant
                n == j.precommits@.len(),
                0 <= i < k <= n,
                forall|b: int| i < b < k ==> j.precommits@[i as int].signer != j.precommits@[b].signer,
            decreases n - k,
        {
            if j.precommits[k].signer == j.precommits[i].signer {
                return Err(JustificationError::DuplicateSigner);
            }
            k = k + 1;
        }
        i = i + 1;
    }

    let w = signed_weight(auth, &j.precommits);
    let total = auth.total_weight();
    if !supermajority(w, total) {
        return Err(JustificationError::InsufficientWeight);
    }
    Ok(())
}

/// How one incoming precommit was handled by the round tally.
#[derive(Clone, Copy, PartialEq, Eq, Structural, Debug)]
pub enum VoteOutcome {
    /// First vote by this signer in the round: counted.
    Recorded,
    /// The signer is not a member of the round's authority set: ignored.
    UnknownVoter,
    /// The signer already voted for the same target: ignored.
    Duplicate,
    /// The signer already voted for a different target in this round: both
    /// votes are discarded and the signer is excluded from this round's
    /// counts (but stays in the authority set).
    Equivocation,
    /// The signer was already excluded for equivocating in this round.
    Excluded,
}

/// The precommit tally of one finality round.
pub struct RoundTally {
    pub round: u64,
    /// At most one counted vote per signer.
    pub votes: Vec<Precommit>,
    /// Signers excluded from this round's counts for equivocating.
    pub equivocators: Vec<u64>,
}

impl RoundTally {
    /// Well-formed for an authority set: one vote per signer, every voting
    /// signer a member, and no counted vote by an excluded signer.
    pub open spec fn wf(self, auth: AuthoritySet) -> bool {
        &&& forall|i: int, k: int|
            0 <= i < k < self.votes@.len() ==> self.votes@[i].signer != self.votes@[k].signer
        &&& forall|i: int| 0 <= i < self.votes@.len() ==> auth.spec_contains_key(
            self.votes@[i].signer,
        )
        &&& forall|i: int| 0 <= i < self.votes@.len() ==> !self.equivocators@.contains(
            self.votes@[i].signer,
        )
    }

    pub fn new(round: u64) -> (r: RoundTally)
        ensures
            r.round == round,
            r.votes@.len() == 0,
            r.equivocators@.len() == 0,
            forall|auth: AuthoritySet| r.wf(auth),
    {
        RoundTally { round, votes: Vec::new(), equivocators: Vec::new() }
    }

    /// Records one precommit. A second, conflicting vote by the same signer
    /// in the same round is an equivocation: the signer is excluded from
    /// this round's counts, but not ejected from the authority set.
    pub fn record(&mut self, v: Precommit, auth: &AuthoritySet) -> (out: VoteOutcome)
        requires
            old(self).wf(*auth),
        ensures
            final(self).wf(*auth),
            final(self).round == old(self).round,
            out == VoteOutcome::UnknownVoter <==> !auth.spec_contains_key(v.signer),
            out == VoteOutcome::Excluded <==> auth.spec_contains_key(v.signer)
                && old(self).equivocators@.contains(v.signer),
            out == VoteOutcome::Duplicate <==> auth.spec_contains_key(v.signer)
                && old(self).votes@.contains(v),
            out == VoteOutcome::Equivocation <==> auth.spec_contains_key(v.signer)
                && !old(self).equivocators@.contains(v.signer) && !old(self).votes@.contains(v)
                && signers_of(old(self).votes@).contains(v.signer),
            out == VoteOutcome::Recorded <==> auth.spec_contains_key(v.signer)
                && !old(self).equivocators@.contains(v.signer)
                && !signers_of(old(self).votes@).contains(v.signer),
            out == VoteOutcome::Recorded ==> final(self).votes@ == old(self).votes@.push(v)
                && final(self).equivocators@ == old(self).equivocators@,
            out == VoteOutcome::Equivocation ==> final(self).equivocators@ == old(
                self,
            ).equivocators@.push(v.signer) && !signers_of(final(self).votes@).contains(v.signer),
            (out == VoteOutcome::UnknownVoter || out == VoteOutcome::Excluded || out
                == VoteOutcome::Duplicate) ==> final(self).votes@ == old(self).votes@
                && final(self).equivocators@ == old(self).equivocators@,
    {
        if !auth.contains_key(v.signer) {
            return VoteOutcome::UnknownVoter;
        }
        let mut e: usize = 0;
        while e < self.equivocators.len()
            invariant
                *self == *old(self),
                old(self).wf(*auth),
                auth.spec_contains_key(v.signer),
                0 <= e <= self.equivocators@.len(),
                forall|k: int| 0 <= k < e ==> self.equivocators@[k] != v.signer,
            decreases self.equivocators@.len() - e,
        {
            if self.equivocators[e] == v.signer {
                proof {
                    assert(old(self).equivocators@.contains(v.signer));
                    assert(!old(self).votes@.contains(v)) by {
                        if old(self).votes@.contains(v) {
                            let w = choose|k: int|
                                0 <= k < old(self).votes@.len() && old(self).votes@[k] == v;
                            assert(!old(self).equivocators@.contains(old(self).votes@[w].signer));
                        }
                    }
                }
                return VoteOutcome::Excluded;
            }
            e = e + 1;
        }
        let mut i: usize = 0;
        while i < self.votes.len()
            invariant
                *self == *old(self),
                old(self).wf(*auth),
                auth.spec_contains_key(v.signer),
                !old(self).equivocators@.contains(v.signer),
                0 <= i <= self.votes@.len(),
                forall|k: int| 0 <= k < i ==> self.votes@[k].signer != v.signer,
            decreases self.votes@.len() - i,
        {
            if self.votes[i].signer == v.signer {
                proof {
                    assert(forall|k: int|
                        0 <= k < old(self).votes@.len() && old(self).votes@[k].signer == v.signer
                            ==> k == i) by {
                        assert(old(self).votes@[i as int].signer == v.signer);
                    }
                }
                if self.votes[i].target_hash == v.target_hash
                    && self.votes[i].target_number == v.target_number {
                    proof {
                        assert(self.votes@[i as int] == v);
                        assert(old(self).votes@.contains(v));
                    }
                    return VoteOutcome::Duplicate;
                }
                let ghost pre = self.votes@;
                proof {
                    assert(!pre.contains(v)) by {
                        if pre.contains(v) {
                            let w = choose|k: int| 0 <= k < pre.len() && pre[k] == v;
                            assert(w == i);
                            assert(pre[i as int] == v);
                        }
                    }
                    assert(signers_of(pre).contains(v.signer)) by {
                        assert(pre[i as int].signer == v.signer);
                    }
                }
                self.votes.remove(i);
                self.equivocators.push(v.signer);
                proof {
                    assert(self.votes@ == pre.remove(i as int));
                    assert(forall|k: int|
                        0 <= k < self.votes@.len() ==> #[trigger] self.votes@[k] == if k < i {
                            pre[k]
                        } else {
                            pre[k + 1]
                        });
                    assert(!signers_of(self.votes@).contains(v.signer)) by {
                        if signers_of(self.votes@).contains(v.signer) {
                            let w = choose|k: int|
                                0 <= k < self.votes@.len() && self.votes@[k].signer == v.signer;
                        }
                    }
                    assert(self.wf(*auth)) by {
                        assert(forall|k: int|
                            0 <= k < self.votes@.len()
                                ==> !self.equivocators@.contains(#[trigger] self.votes@[k].signer))
                            by {
                            assert(forall|k: int|
                                0 <= k < self.votes@.len() && self.equivocators@.contains(
                                    #[trigger] self.votes@[k].signer,
                                ) ==> false) by {
                                assert(self.equivocators@ == old(self).equivocators@.push(v.signer));
                                assert(forall|k: int|
                                    0 <= k < self.votes@.len() ==> #[trigger] self.votes@[k].signer
                                        != v.signer);
                            }
                        }
                    }
                }
                return VoteOutcome::Equivocation;
            }
            i = i + 1;
        }
        proof {
            assert(!signers_of(self.votes@).contains(v.signer)) by {
                if signers_of(self.votes@).contains(v.signer) {
                    let w = choose|k: int|
                        0 <= k < self.votes@.len() && self.votes@[k].signer == v.signer;
                }
            }
            assert(!self.votes@.contains(v)) by {
                if self.votes@.contains(v) {
                    let w = choose|k: int| 0 <= k < self.votes@.len() && self.votes@[k] == v;
                }
            }
        }
        self.votes.push(v);
        proof {
            assert(self.wf(*auth)) by {
                assert(self.votes@ == old(self).votes@.push(v));
            }
            assert(signers_of(old(self).votes@).contains(v.signer) == false);
        }
        return VoteOutcome::Recorded;
    }

    /// The supermajority target of this tally, if any: for a prevote tally,
    /// the block a voter must precommit to once observed; for a precommit
    /// tally, the block about to be finalized.
    pub fn supermajority_target(&self, auth: &AuthoritySet) -> (r: Option<(u64, u64)>)
        requires
            auth.wf(),
            self.wf(*auth),
        ensures
            r matches Some(t) ==> is_supermajority(
                signed_weight_of(auth.authorities@, target_supporters(self.votes@, t.0, t.1)),
                total_weight_of(auth.authorities@),
            ),
            r is None ==> forall|i: int|
                0 <= i < self.votes@.len() ==> !is_supermajority(
                    signed_weight_of(
                        auth.authorities@,
                        target_supporters(
                            self.votes@,
                            #[trigger] self.votes@[i].target_hash,
                            self.votes@[i].target_number,
                        ),
                    ),
                    total_weight_of(auth.authorities@),
                ),
    {
        match self.try_finalize(auth) {
            Some(j) => Some((j.target_hash, j.target_number)),
            None => None,
        }
    }

    /// Tries to commit this round: if some block gathered a supermajority of
    /// the counted precommit weight, assembles the justification from exactly
    /// the precommits naming it. Returns nothing when no block has
    /// supermajority support, as when the round must time out instead.
    pub fn try_finalize(&self, auth: &AuthoritySet) -> (r: Option<Justification>)
        requires
            auth.wf(),
            self.wf(*auth),
        ensures
            r matches Some(j) ==> {
                &&& justification_valid(j, *auth)
                &&& j.round == self.round
                &&& target_supporters(self.votes@, j.target_hash, j.target_number)
                    =~= signers_of(j.precommits@)
                &&& exists|i: int|
                    0 <= i < self.votes@.len() && #[trigger] self.votes@[i].target_hash
                        == j.target_hash && self.votes@[i].target_number == j.target_number
            },
            r is None ==> forall|i: int|
                0 <= i < self.votes@.len() ==> !is_supermajority(
                    signed_weight_of(
                        auth.authorities@,
                        target_supporters(
                            self.votes@,
                            #[trigger] self.votes@[i].target_hash,
                            self.votes@[i].target_number,
                        ),
                    ),
                    total_weight_of(auth.authorities@),
                ),
    {
        let total = auth.total_weight();
        let n = self.votes.len();
        let mut c: usize = 0;
        while c < n
            invariant
                auth.wf(),
                self.wf(*auth),
                n == self.votes@.len(),
                total == total_weight_of(auth.authorities@),
                0 <= c <= n,
                forall|i: int|
                    0 <= i < c ==> !is_supermajority(
                        signed_weight_of(
                            auth.authorities@,
                            target_supporters(
                                self.votes@,
                                #[trigger] self.votes@[i].target_hash,
                                self.votes@[i].target_number,
                            ),
                        ),
                        total_weight_of(auth.authorities@),
                    ),
            decreases n - c,
        {
            let hash = self.votes[c].target_hash;
            let number = self.votes[c].target_number;
            let mut supporting: Vec<Precommit> = Vec::new();
            let mut i: usize = 0;
            while i < n
                invariant
                    auth.wf(),
                    self.wf(*auth),
                    n == self.votes@.len(),
                    0 <= i <= n,
                    forall|k: int|
                        0 <= k < supporting@.len() ==> #[trigger] supporting@[k].target_hash == hash
                            && supporting@[k].target_number == number,
                    forall|k: int|
                        0 <= k < supporting@.len() ==> exists|t: int|
                            0 <= t < i && self.votes@[t] == #[trigger] supporting@[k],
                    forall|a: int, b: int|
                        0 <= a < b < supporting@.len() ==> supporting@[a].signer
                            != supporting@[b].signer,
                    forall|k: int|
                        0 <= k < i && self.votes@[k].target_hash == hash
                            && self.votes@[k].target_number == number ==> supporting@.contains(
                            #[trigger] self.votes@[k],
                        ),
                decreases n - i,
            {
                if self.votes[i].target_hash == hash && self.votes[i].target_number == number {
                    let ghost pre = supporting@;
                    proof {
                        assert(forall|a: int, b: int|
                            0 <= a < b < self.votes@.len() ==> self.votes@[a].signer
                                != self.votes@[b].signer);
                        assert forall|a: int| 0 <= a < pre.len() implies pre[a].signer
                            != self.votes@[i as int].signer by {
                            let w = choose|t: int| 0 <= t < i && self.votes@[t] == pre[a];
                            assert(self.votes@[w].signer != self.votes@[i as int].signer);
                        }
                    }
                    supporting.push(self.votes[i]);
                    proof {
                        assert(supporting@.drop_last() =~= pre);
                        assert(self.votes@[i as int] == supporting@[pre.len() as int]);
                    }
                }
                i = i + 1;
            }
            let w = signed_weight(auth, &supporting);
            proof {
                assert forall|k: int| 0 <= k < supporting@.len() implies self.votes@.contains(
                    #[trigger] supporting@[k],
                ) by {
                    let t = choose|t: int|
                        0 <= t < self.votes@.len() && self.votes@[t] == supporting@[k];
                }
                lemma_supporters_are_signers(self.votes@, supporting@, hash, number);
            }
            if supermajority(w, total) {
                let j = Justification {
                    round: self.round,
                    target_hash: hash,
                    target_number: number,
                    precommits: supporting,
                };
                proof {
                    assert forall|k: int| 0 <= k < j.precommits@.len() implies
                        auth.spec_contains_key(#[trigger] j.precommits@[k].signer) by {
                        assert(self.votes@.contains(j.precommits@[k]));
                        let q = choose|t: int|
                            0 <= t < self.votes@.len() && self.votes@[t] == j.precommits@[k];
                    }
                    assert(justification_valid(j, *auth));
                    assert(self.votes@[c as int].target_hash == j.target_hash
                        && self.votes@[c as int].target_number == j.target_number);
                }
                return Some(j);
            }
            c = c + 1;
        }
        None
    }
}

/// Two distinct targets cannot both gather a supermajority in one round:
/// with one counted vote per signer their supporter sets are disjoint, and
/// two disjoint supermajorities would outweigh the whole set.
pub proof fn lemma_one_supermajority_target(
    votes: Seq<Precommit>,
    auth: AuthoritySet,
    h1: u64,
    n1: u64,
    h2: u64,
    n2: u64,
)
    requires
        forall|i: int, k: int| 0 <= i < k < votes.len() ==> votes[i].signer != votes[k].signer,
        is_supermajority(
            signed_weight_of(auth.authorities@, target_supporters(votes, h1, n1)),
            total_weight_of(auth.authorities@),
        ),
        is_supermajority(
            signed_weight_of(auth.authorities@, target_supporters(votes, h2, n2)),
            total_weight_of(auth.authorities@),
        ),
    ensures
        h1 == h2,
        n1 == n2,
{
    if h1 != h2 || n1 != n2 {
        let a = target_supporters(votes, h1, n1);
        let b = target_supporters(votes, h2, n2);
        assert(a.disjoint(b)) by {
            assert forall|key: u64| a.contains(key) implies !b.contains(key) by {
                if b.contains(key) {
                    let i = choose|i: int|
                        0 <= i < votes.len() && votes[i].signer == key && votes[i].target_hash
                            == h1 && votes[i].target_number == n1;
                    let k = choose|k: int|
                        0 <= k < votes.len() && votes[k].signer == key && votes[k].target_hash
                            == h2 && votes[k].target_number == n2;
                    if i < k {
                        assert(votes[i].signer != votes[k].signer);
                    } else if k < i {
                        assert(votes[k].signer != votes[i].signer);
                    }
                }
            }
        }
        crate::authority::lemma_signed_weight_union(auth.authorities@, a, b);
        lemma_signed_weight_le_total(auth.authorities@, a.union(b));
        assert(false);
    }
}

/// The voter state persisted to the backend on each completed round, and
/// reloaded on restart.
#[derive(Clone, Copy, PartialEq, Eq, Structural, Debug)]
pub struct VoterState {
    pub last_completed_round: u64,
    pub finalized_number: u64,
    pub finalized_hash: u64,
}

/// One allowed evolution of the durable voter state: rounds complete in
/// order and the finalized block number never decreases.
pub open spec fn voter_evolves(a: VoterState, b: VoterState) -> bool {
    &&& b.finalized_number >= a.finalized_number
    &&& b.last_completed_round >= a.last_completed_round
}

/// Finality monotonicity: across any sequence of voter-state transitions,
/// each allowed by `voter_evolves` — round completions with or without a
/// commit, and crash recoveries, which resume from an earlier state of the
/// same sequence — the finalized block number never decreases.
pub proof fn lemma_finality_monotonic(states: Seq<VoterState>, i: int, j: int)
    requires
        forall|k: int| 0 <= k < states.len() - 1 ==> #[trigger] voter_evolves(states[k], states[k + 1]),
        0 <= i <= j < states.len(),
    ensures
        states[j].finalized_number >= states[i].finalized_number,
    decreases j - i,
{
    if i < j {
        let k = j - 1;
        assert(voter_evolves(states[k], states[k + 1]));
        lemma_finality_monotonic(states, i, j - 1);
    }
}

/// The durable state a voter starts from at the chain's origin: nothing
/// finalized beyond the genesis block, no round completed.
pub fn genesis_voter_state(genesis_hash: u64) -> (r: VoterState)
    ensures
        r.last_completed_round == 0,
        r.finalized_number == 0,
        r.finalized_hash == genesis_hash,
{
    VoterState { last_completed_round: 0, finalized_number: 0, finalized_hash: genesis_hash }
}

/// The round-based finality voter. Rounds are strictly sequential; the
/// durable `persisted` mirror is written before any justification is handed
/// out for broadcast (persist-then-announce).
pub struct FinalityVoter {
    pub current_round: u64,
    pub finalized_number: u64,
    pub finalized_hash: u64,
    /// What the backend holds; updated before a commit is announced.
    pub persisted: VoterState,
}

impl FinalityVoter {
    /// The in-memory state never runs ahead of the backend between round
    /// completions, and exactly one round is in flight.
    pub open spec fn wf(self) -> bool {
        &&& self.persisted.finalized_number == self.finalized_number
        &&& self.persisted.finalized_hash == self.finalized_hash
        &&& self.persisted.last_completed_round < u64::MAX
        &&& self.current_round == self.persisted.last_completed_round + 1
    }

    /// Starts (or restarts after a crash) from the persisted state, resuming
    /// with the round after the last completed one.
    pub fn recover(persisted: VoterState) -> (v: FinalityVoter)
        requires
            persisted.last_completed_round < u64::MAX,
        ensures
            v.wf(),
            v.persisted == persisted,
            v.finalized_number == persisted.finalized_number,
            v.finalized_hash == persisted.finalized_hash,
            v.current_round == persisted.last_completed_round + 1,
    {
        FinalityVoter {
            current_round: persisted.last_completed_round + 1,
            finalized_number: persisted.finalized_number,
            finalized_hash: persisted.finalized_hash,
            persisted,
        }
    }

    /// Completes the current round, by commit or by timeout. Returns a
    /// justification to broadcast exactly when some block gathered a
    /// supermajority of the round's counted precommit weight at or above the
    /// finalized height; the voter state is persisted before the
    /// justification is handed out. Otherwise the round advances without
    /// finalizing.
    pub fn complete_round(&mut self, tally: &RoundTally, auth: &AuthoritySet) -> (r: Option<
        Justification,
    >)
        requires
            auth.wf(),
            old(self).wf(),
            tally.wf(*auth),
            tally.round == old(self).current_round,
            old(self).current_round < u64::MAX,
        ensures
            final(self).wf(),
            voter_evolves(old(self).persisted, final(self).persisted),
            final(self).current_round == old(self).current_round + 1,
            final(self).persisted.last_completed_round == old(self).current_round,
            r matches Some(j) ==> {
                &&& justification_valid(j, *auth)
                &&& j.round == old(self).current_round
                &&& j.target_number >= old(self).finalized_number
                &&& final(self).finalized_number == j.target_number
                &&& final(self).finalized_hash == j.target_hash
                &&& final(self).persisted.finalized_number == j.target_number
                &&& final(self).persisted.finalized_hash == j.target_hash
            },
            r is None ==> final(self).finalized_number == old(self).finalized_number
                && final(self).finalized_hash == old(self).finalized_hash,
            r is Some <==> exists|i: int|
                0 <= i < tally.votes@.len() && is_supermajority(
                    signed_weight_of(
                        auth.authorities@,
                        target_supporters(
                            tally.votes@,
                            #[trigger] tally.votes@[i].target_hash,
                            tally.votes@[i].target_number,
                        ),
                    ),
                    total_weight_of(auth.authorities@),
                ) && tally.votes@[i].target_number >= old(self).finalized_number,
    {
        let outcome = tally.try_finalize(auth);
        match outcome {
            Some(j) => {
                proof {
                    assert(signed_weight_of(
                        auth.authorities@,
                        target_supporters(tally.votes@, j.target_hash, j.target_number),
                    ) == signed_weight_of(auth.authorities@, signers_of(j.precommits@)));
                }
                if j.target_number >= self.finalized_number {
                    self.finalized_number = j.target_number;
                    self.finalized_hash = j.target_hash;
                    self.persisted = VoterState {
                        last_completed_round: self.current_round,
                        finalized_number: j.target_number,
                        finalized_hash: j.target_hash,
                    };
                    self.current_round = self.current_round + 1;
                    Some(j)
                } else {
                    proof {
                        assert forall|i: int|
                            0 <= i < tally.votes@.len() && is_supermajority(
                                signed_weight_of(
                                    auth.authorities@,
                                    target_supporters(
                                        tally.votes@,
                                        #[trigger] tally.votes@[i].target_hash,
                                        tally.votes@[i].target_number,
                                    ),
                                ),
                                total_weight_of(auth.authorities@),
                            ) implies tally.votes@[i].target_number < old(self).finalized_number by {
                            lemma_one_supermajority_target(
                                tally.votes@,
                                *auth,
                                tally.votes@[i].target_hash,
                                tally.votes@[i].target_number,
                                j.target_hash,
                                j.target_number,
                            );
                        }
                    }
                    self.persisted = VoterState {
                        last_completed_round: self.current_round,
                        finalized_number: self.finalized_number,
                        finalized_hash: self.finalized_hash,
                    };
                    self.current_round = self.current_round + 1;
                    None
                }
            },
            None => {
                self.persisted = VoterState {
                    last_completed_round: self.current_round,
                    finalized_number: self.finalized_number,
                    finalized_hash: self.finalized_hash,
                };
                self.current_round = self.current_round + 1;
                None
            },
        }
    }
}

/// The votes naming a target and carrying pairwise distinct signers have as
/// signers exactly the target's supporters, provided they are exactly the
/// votes for that target.
proof fn lemma_supporters_are_signers(
    votes: Seq<Precommit>,
    supporting: Seq<Precommit>,
    hash: u64,
    number: u64,
)
    requires
        forall|k: int|
            0 <= k < supporting.len() ==> #[trigger] supporting[k].target_hash == hash
                && supporting[k].target_number == number,
        forall|k: int| 0 <= k < supporting.len() ==> votes.contains(#[trigger] supporting[k]),
        forall|k: int|
            0 <= k < votes.len() && votes[k].target_hash == hash && votes[k].target_number
                == number ==> supporting.contains(#[trigger] votes[k]),
    ensures
        signers_of(supporting) =~= target_supporters(votes, hash, number),
{
    assert forall|key: u64| signers_of(supporting).contains(key) implies target_supporters(
        votes,
        hash,
        number,
    ).contains(key) by {
        let k = choose|k: int| 0 <= k < supporting.len() && supporting[k].signer == key;
        let w = choose|t: int| 0 <= t < votes.len() && votes[t] == supporting[k];
    }
    assert forall|key: u64| target_supporters(votes, hash, number).contains(key)
        implies signers_of(supporting).contains(key) by {
        let k = choose|k: int|
            0 <= k < votes.len() && votes[k].signer == key && votes[k].target_hash == hash
                && votes[k].target_number == number;
        assert(supporting.contains(votes[k]));
        let w = choose|t: int| 0 <= t < supporting.len() && supporting[t] == votes[k];
    }
}

} // verus!
