//! Inherent-data composition: per-block ambient facts (timestamp, slot claim,
//! uncle and storage proofs) assembled from an ordered sequence of provider
//! results into one identifier-keyed bundle. A provider failure aborts the
//! slot's proposal; it is never fatal to the engine.

use vstd::prelude::*;

verus! {

/// One inherent: an identifier and an opaque payload.
pub struct InherentEntry {
    pub id: u64,
    pub payload: Vec<u8>,
}

/// Mathematical model of one inherent.
pub struct Inherent {
    pub id: u64,
    pub payload: Seq<u8>,
}

impl View for InherentEntry {
    type V = Inherent;

    open spec fn view(&self) -> Inherent {
        Inherent { id: self.id, payload: self.payload@ }
    }
}

impl DeepView for InherentEntry {
    type V = Inherent;

    open spec fn deep_view(&self) -> Inherent {
        self@
    }
}

/// The bundle handed to the proposer: a mapping from inherent identifier to
/// payload, built fresh per block and consumed once.
pub struct InherentData {
    pub entries: Vec<InherentEntry>,
}

/// Why composing the bundle for one slot was aborted.
#[derive(Clone, Copy, PartialEq, Eq, Structural, Debug)]
pub enum ComposeError {
    /// The provider at this position failed (for example, a proof against a
    /// pruned state); earlier providers all succeeded.
    ProviderFailed { provider: usize },
    /// Two providers contributed the same inherent identifier.
    DuplicateIdentifier { id: u64 },
}

/// The entries contributed by a sequence of provider results, in provider
/// order; a failed provider contributes nothing.
pub open spec fn entries_of(outs: Seq<Result<Vec<InherentEntry>, u64>>) -> Seq<Inherent>
    decreases outs.len(),
{
    if outs.len() == 0 {
        Seq::empty()
    } else {
        entries_of(outs.drop_last()) + if outs.last() is Ok {
            (outs.last()->Ok_0).deep_view()
        } else {
            Seq::empty()
        }
    }
}

/// Identifiers are pairwise distinct.
pub open spec fn ids_distinct(es: Seq<Inherent>) -> bool {
    forall|i: int, j: int| 0 <= i < j < es.len() ==> es[i].id != es[j].id
}

impl InherentData {
    /// Well-formed: one payload per identifier.
    pub open spec fn wf(self) -> bool {
        ids_distinct(self.entries.deep_view())
    }

    pub open spec fn spec_has(self, id: u64) -> bool {
        exists|i: int| 0 <= i < self.entries@.len() && self.entries@[i].id == id
    }

    /// The payload stored under `id`, if any.
    pub fn get(&self, id: u64) -> (r: Option<&Vec<u8>>)
        ensures
            r is Some <==> self.spec_has(id),
            r matches Some(p) ==> exists|i: int|
                0 <= i < self.entries@.len() && self.entries@[i].id == id
                    && p@ == self.entries@[i].payload@,
    {
        let mut i: usize = 0;
        while i < self.entries.len()
            invariant
                0 <= i <= self.entries@.len(),
                forall|k: int| 0 <= k < i ==> self.entries@[k].id != id,
            decreases self.entries@.len() - i,
        {
            if self.entries[i].id == id {
                return Some(&self.entries[i].payload);
            }
            i = i + 1;
        }
        None
    }
}

/// Composes the inherent bundle for one slot from the ordered provider
/// results. Succeeds exactly when every provider succeeded and no
/// identifier was contributed twice; the bundle then holds all contributed
/// entries in provider order. On the first provider failure composition is
/// aborted and reported, never fatal.
pub fn compose(outcomes: Vec<Result<Vec<InherentEntry>, u64>>) -> (r: Result<
    InherentData,
    ComposeError,
>)
    ensures
        r is Ok <==> (forall|k: int| 0 <= k < outcomes@.len() ==> outcomes@[k] is Ok)
            && ids_distinct(entries_of(outcomes@)),
        r matches Ok(d) ==> d.entries.deep_view() == entries_of(outcomes@) && d.wf(),
        r matches Err(e) ==> match e {
            ComposeError::ProviderFailed { provider } => {
                &&& 0 <= provider < outcomes@.len()
                &&& outcomes@[provider as int] is Err
                &&& forall|k: int| 0 <= k < provider ==> outcomes@[k] is Ok
            },
            ComposeError::DuplicateIdentifier { id } => exists|i: int, j: int|
                0 <= i < j < entries_of(outcomes@).len() && entries_of(outcomes@)[i].id == id
                    && entries_of(outcomes@)[j].id == id,
        },
{
    let ghost outs = outcomes@;
    let n = outcomes.len();
    let mut p: usize = 0;
    while p < n
        invariant
            n == outs.len(),
            outcomes@ == outs,
            0 <= p <= n,
            forall|k: int| 0 <= k < p ==> outs[k] is Ok,
        decreases n - p,
    {
        if outcomes[p].is_err() {
            return Err(ComposeError::ProviderFailed { provider: p });
        }
        p = p + 1;
    }

    let mut flat: Vec<InherentEntry> = Vec::new();
    let mut q: usize = 0;
    while q < n
        invariant
            n == outs.len(),
            outcomes@ == outs,
            0 <= q <= n,
            forall|k: int| 0 <= k < n ==> outs[k] is Ok,
            flat.deep_view() == entries_of(outs.take(q as int)),
        decreases n - q,
    {
        proof {
            assert(outs.take(q as int + 1).drop_last() =~= outs.take(q as int));
        }
        match &outcomes[q] {
            Ok(entries) => {
                let mut t: usize = 0;
                let ghost before = flat.deep_view();
                let m = entries.len();
                while t < m
                    invariant
                        m == entries@.len(),
                        0 <= t <= m,
                        flat.deep_view() == before + entries.deep_view().take(t as int),
                    decreases m - t,
                {
                    let e = InherentEntry {
                        id: entries[t].id,
                        payload: clone_payload(&entries[t].payload),
                    };
                    let ghost ev = e@;
                    proof {
                        assert(ev == entries@[t as int]@);
                    }
                    let ghost pre = flat@;
                    let ghost pre_deep = flat.deep_view();
                    flat.push(e);
                    proof {
                        let rhs = before + entries.deep_view().take(t as int + 1);
                        assert(pre_deep.len() == pre.len());
                        assert(flat@.len() == pre.len() + 1);
                        assert(rhs.len() == before.len() + t + 1);
                        assert forall|k: int| 0 <= k < flat@.len() implies flat.deep_view()[k]
                            == rhs[k] by {
                            if k < pre.len() {
                                assert(flat@[k] == pre[k]);
                                assert(flat.deep_view()[k] == pre_deep[k]);
                                assert(pre_deep[k] == rhs[k]);
                            } else {
                                assert(flat@[k]@ == ev);
                                assert(rhs[k] == entries.deep_view()[t as int]);
                            }
                        }
                        assert(flat.deep_view() =~= rhs);
                    }
                    t = t + 1;
                }
                proof {
                    assert(entries.deep_view().take(m as int) =~= entries.deep_view());
                    assert(outs[q as int] is Ok);
                    assert((outs[q as int]->Ok_0).deep_view() == entries.deep_view());
                }
            },
            Err(_) => {
                proof {
                    assert(outs[q as int] is Ok);
                    assert(false);
                }
            },
        }
        q = q + 1;
    }
    proof {
        assert(outs.take(outs.len() as int) =~= outs);
    }

    let total = flat.len();
    let ghost all = flat.deep_view();
    let mut i: usize = 0;
    while i < total
        invariant
            total == flat@.len(),
            flat.deep_view() == all,
            all == entries_of(outs),
            outcomes@ == outs,
            0 <= i <= total,
            forall|a: int, b: int| 0 <= a < b < all.len() && a < i ==> all[a].id != all[b].id,
        decreases total - i,
    {
        let mut j: usize = i + 1;
        while j < total
            invariant
                total == flat@.len(),
                flat.deep_view() == all,
                all == entries_of(outs),
                outcomes@ == outs,
                0 <= i < j <= total,
                forall|b: int| i < b < j ==> all[i as int].id != all[b].id,
            decreases total - j,
        {
            if flat[j].id == flat[i].id {
                proof {
                    assert(all[i as int].id == flat@[i as int]@.id);
                    assert(all[j as int].id == flat@[j as int]@.id);
                    assert(!ids_distinct(entries_of(outs))) by {
                        assert(all[i as int].id == all[j as int].id);
                    }
                }
                return Err(ComposeError::DuplicateIdentifier { id: flat[i].id });
            }
            j = j + 1;
        }
        i = i + 1;
    }
    Ok(InherentData { entries: flat })
}

/// Copies an opaque payload byte for byte.
fn clone_payload(p: &Vec<u8>) -> (r: Vec<u8>)
    ensures
        r@ == p@,
{
    let mut out: Vec<u8> = Vec::new();
    let mut i: usize = 0;
    while i < p.len()
        invariant
            0 <= i <= p@.len(),
            out@ == p@.take(i as int),
        decreases p@.len() - i,
    {
        proof {
            assert(p@.take(i as int + 1) =~= p@.take(i as int).push(p@[i as int]));
        }
        out.push(p[i]);
        i = i + 1;
    }
    proof {
        assert(p@.take(p@.len() as int) =~= p@);
    }
    out
}

} // verus!
