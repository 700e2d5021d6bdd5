//! Authority sets: the ordered sequence of (public key, vote weight) entries
//! valid for one epoch, and the supermajority rule used by finality voting.

use vstd::prelude::*;

verus! {

/// One voting member of an epoch's authority set: an opaque public key
/// (held as an integer identifier) and its vote weight.
#[derive(Clone, Copy, PartialEq, Eq, Structural, Debug)]
pub struct Authority {
    pub key: u64,
    pub weight: u64,
}

/// Sum of the weights of a sequence of authorities.
pub open spec fn total_weight_of(s: Seq<Authority>) -> int
    decreases s.len(),
{
    if s.len() == 0 {
        0
    } else {
        total_weight_of(s.drop_last()) + s.last().weight
    }
}

/// Sum of the weights of the authorities whose key lies in `signers`.
/// Counting over the authority set (rather than over the votes) makes the
/// tally insensitive to duplicate votes by one signer.
pub open spec fn signed_weight_of(s: Seq<Authority>, signers: Set<u64>) -> int
    decreases s.len(),
{
    if s.len() == 0 {
        0
    } else {
        signed_weight_of(s.drop_last(), signers)
            + if signers.contains(s.last().key) { s.last().weight as int } else { 0 }
    }
}

/// Supermajority by weight: strictly more than two thirds of the total.
/// With three equal authorities, two voters are not a supermajority and
/// three are.
pub open spec fn is_supermajority(weight: int, total: int) -> bool {
    3 * weight > 2 * total
}

/// The authority set of one epoch.
pub struct AuthoritySet {
    pub authorities: Vec<Authority>,
}

impl AuthoritySet {
    /// Well-formed: keys are pairwise distinct and the total weight fits
    /// in a machine word.
    pub open spec fn wf(self) -> bool {
        &&& forall|i: int, j: int|
            0 <= i < j < self.authorities@.len()
                ==> self.authorities@[i].key != self.authorities@[j].key
        &&& total_weight_of(self.authorities@) <= u64::MAX
    }

    pub open spec fn spec_contains_key(self, key: u64) -> bool {
        exists|i: int|
            0 <= i < self.authorities@.len() && self.authorities@[i].key == key
    }

    pub open spec fn spec_total_weight(self) -> int {
        total_weight_of(self.authorities@)
    }

    /// Builds a set; rejects duplicate keys and a total weight that does not
    /// fit in a machine word.
    pub fn from_entries(entries: Vec<Authority>) -> (r: Option<AuthoritySet>)
        ensures
            r is Some ==> (r->Some_0).wf() && (r->Some_0).authorities@ == entries@,
            r is None ==> !(AuthoritySet { authorities: entries }).wf(),
    {
        let ghost all = entries@;
        let mut total: u64 = 0;
        let mut i: usize = 0;
        while i < entries.len()
            invariant
                0 <= i <= all.len(),
                entries@ == all,
                total == total_weight_of(all.take(i as int)),
                total_weight_of(all.take(i as int)) <= u64::MAX,
                forall|p: int, q: int| 0 <= p < q < i ==> all[p].key != all[q].key,
            decreases all.len() - i,
        {
            let mut j: usize = 0;
            while j < i
                invariant
                    0 <= j <= i < all.len(),
                    entries@ == all,
                    forall|p: int| 0 <= p < j ==> all[p].key != all[i as int].key,
                decreases i - j,
            {
                if entries[j].key == entries[i].key {
                    proof {
                        assert(!(AuthoritySet { authorities: entries }).wf()) by {
                            assert(all[j as int].key == all[i as int].key);
                        }
                    }
                    return None;
                }
                j = j + 1;
            }
            proof {
                assert(all.take(i as int + 1).drop_last() =~= all.take(i as int));
            }
            let w = entries[i].weight;
            if u64::MAX - total < w {
                proof {
                    lemma_take_weight_monotonic(all, i as int + 1);
                }
                return None;
            }
            total = total + w;
            i = i + 1;
        }
        proof {
            assert(all.take(all.len() as int) =~= all);
        }
        Some(AuthoritySet { authorities: entries })
    }

    /// Whether `key` belongs to this authority set.
    pub fn contains_key(&self, key: u64) -> (r: bool)
        ensures
            r == self.spec_contains_key(key),
    {
        let mut i: usize = 0;
        while i < self.authorities.len()
            invariant
                0 <= i <= self.authorities@.len(),
                forall|p: int| 0 <= p < i ==> self.authorities@[p].key != key,
            decreases self.authorities@.len() - i,
        {
            if self.authorities[i].key == key {
                return true;
            }
            i = i + 1;
        }
        false
    }

    /// Total voting weight of the set.
    pub fn total_weight(&self) -> (r: u64)
        requires
            self.wf(),
        ensures
            r == self.spec_total_weight(),
    {
        let ghost all = self.authorities@;
        let mut total: u64 = 0;
        let mut i: usize = 0;
        while i < self.authorities.len()
            invariant
                0 <= i <= all.len(),
                self.authorities@ == all,
                total_weight_of(all) <= u64::MAX,
                total == total_weight_of(all.take(i as int)),
            decreases all.len() - i,
        {
            proof {
                assert(all.take(i as int + 1).drop_last() =~= all.take(i as int));
                lemma_take_weight_monotonic(all, i as int + 1);
            }
            total = total + self.authorities[i].weight;
            i = i + 1;
        }
        proof {
            assert(all.take(all.len() as int) =~= all);
        }
        total
    }
}

/// Decides the supermajority rule on machine words.
pub fn supermajority(weight: u64, total: u64) -> (r: bool)
    ensures
        r == is_supermajority(weight as int, total as int),
{
    (weight as u128) * 3 > (total as u128) * 2
}

/// A prefix of the sequence never weighs more than the whole: weights are
/// non-negative.
pub proof fn lemma_take_weight_monotonic(s: Seq<Authority>, n: int)
    requires
        0 <= n <= s.len(),
    ensures
        total_weight_of(s.take(n)) <= total_weight_of(s),
    decreases s.len(),
{
    if s.len() > 0 && n < s.len() {
        assert(s.drop_last().take(n) =~= s.take(n));
        lemma_take_weight_monotonic(s.drop_last(), n);
    } else if n == s.len() {
        assert(s.take(n) =~= s);
    }
}

/// The weight counted for any signer set never exceeds the total weight.
pub proof fn lemma_signed_weight_le_total(s: Seq<Authority>, signers: Set<u64>)
    ensures
        0 <= signed_weight_of(s, signers) <= total_weight_of(s),
    decreases s.len(),
{
    if s.len() > 0 {
        lemma_signed_weight_le_total(s.drop_last(), signers);
    }
}

/// Disjoint signer sets contribute their weights separately.
pub proof fn lemma_signed_weight_union(s: Seq<Authority>, a: Set<u64>, b: Set<u64>)
    requires
        a.disjoint(b),
    ensures
        signed_weight_of(s, a.union(b)) == signed_weight_of(s, a) + signed_weight_of(s, b),
    decreases s.len(),
{
    if s.len() > 0 {
        lemma_signed_weight_union(s.drop_last(), a, b);
    }
}

} // verus!
