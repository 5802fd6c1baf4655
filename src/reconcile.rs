//! The three-way reconciliation of the masking layer, and the laws it obeys.
use vstd::prelude::*;

use crate::names::{names_of, NameSet};

verus! {

/// Masked paths that the whitelist now requires.
pub open spec fn unmask_of(
    store: Set<Seq<char>>,
    whitelist: Set<Seq<char>>,
    masked: Set<Seq<char>>,
) -> Set<Seq<char>> {
    masked.intersect(whitelist)
}

/// Masked paths that are no longer in the store.
pub open spec fn stale_of(
    store: Set<Seq<char>>,
    whitelist: Set<Seq<char>>,
    masked: Set<Seq<char>>,
) -> Set<Seq<char>> {
    masked.difference(store)
}

/// Store paths that are neither masked yet nor required.
pub open spec fn newly_mask_of(
    store: Set<Seq<char>>,
    whitelist: Set<Seq<char>>,
    masked: Set<Seq<char>>,
) -> Set<Seq<char>> {
    store.difference(masked).difference(whitelist)
}

/// The masked set once a plan with these three parts has been carried out.
pub open spec fn masked_after(
    masked: Set<Seq<char>>,
    unmask: Set<Seq<char>>,
    stale: Set<Seq<char>>,
    newly_mask: Set<Seq<char>>,
) -> Set<Seq<char>> {
    masked.difference(unmask.union(stale)).union(newly_mask)
}

/// The masked set after one reconciliation of `masked` against `store` and `whitelist`.
pub open spec fn reconciled(
    store: Set<Seq<char>>,
    whitelist: Set<Seq<char>>,
    masked: Set<Seq<char>>,
) -> Set<Seq<char>> {
    masked_after(
        masked,
        unmask_of(store, whitelist, masked),
        stale_of(store, whitelist, masked),
        newly_mask_of(store, whitelist, masked),
    )
}

/// One change to the masking directory.
#[derive(Debug, PartialEq, Eq)]
pub enum MaskOp {
    /// Remove the marker of this path, making it visible.
    Remove(String),
    /// Create a marker for this path, hiding it.
    Create(String),
}

/// The masked set after one change.
pub open spec fn apply_op(masked: Set<Seq<char>>, op: MaskOp) -> Set<Seq<char>> {
    match op {
        MaskOp::Remove(n) => masked.remove(n@),
        MaskOp::Create(n) => masked.insert(n@),
    }
}

/// The masked set after the changes `ops`, made in order.
pub open spec fn apply_ops(masked: Set<Seq<char>>, ops: Seq<MaskOp>) -> Set<Seq<char>>
    decreases ops.len(),
{
    if ops.len() == 0 {
        masked
    } else {
        apply_op(apply_ops(masked, ops.drop_last()), ops.last())
    }
}

/// No removal comes after a creation.
pub open spec fn removals_first(ops: Seq<MaskOp>) -> bool {
    forall|i: int, j: int|
        0 <= i < j < ops.len() && (#[trigger] ops[i] is Create) ==> (#[trigger] ops[j] is Create)
}

/// The changes that bring the masking directory to the desired state.
#[derive(Debug)]
pub struct Plan {
    /// Markers to remove because the path is now required.
    pub unmask: NameSet,
    /// Markers to remove because the path has left the store.
    pub stale: NameSet,
    /// Markers to create.
    pub newly_mask: NameSet,
}

impl Plan {
    /// All three parts are well formed.
    pub open spec fn wf(&self) -> bool {
        &&& self.unmask.wf()
        &&& self.stale.wf()
        &&& self.newly_mask.wf()
    }

    /// The markers to remove, each once: the unmasked and the stale paths.
    pub fn removals(&self) -> (r: NameSet)
        requires
            self.wf(),
        ensures
            r.wf(),
            r@ == self.unmask@.union(self.stale@),
    {
        self.unmask.union(&self.stale)
    }

    /// The changes in the order they are to be made: every marker removal, each
    /// path once, and then every marker creation.
    pub fn operations(&self) -> (r: Vec<MaskOp>)
        requires
            self.wf(),
        ensures
            removals_first(r@),
            r@.len() == self.unmask@.union(self.stale@).len() + self.newly_mask@.len(),
            forall|m: Set<Seq<char>>|
                #[trigger] apply_ops(m, r@) == m.difference(self.unmask@.union(self.stale@)).union(
                    self.newly_mask@,
                ),
    {
        let removals = self.removals();
        let rv = removals.to_vec();
        let cv = self.newly_mask.to_vec();
        proof {
            names_of(rv@).unique_seq_to_set();
            names_of(cv@).unique_seq_to_set();
        }
        let mut ops: Vec<MaskOp> = Vec::new();
        let mut i: usize = 0;
        while i < rv.len()
            invariant
                i <= rv@.len(),
                ops@.len() == i,
                forall|k: int| 0 <= k < ops@.len() ==> #[trigger] ops@[k] is Remove,
                forall|m: Set<Seq<char>>|
                    #[trigger] apply_ops(m, ops@) == m.difference(names_of(rv@.take(i as int)).to_set()),
            decreases rv@.len() - i,
        {
            let ghost prev = ops@;
            let ghost done = names_of(rv@.take(i as int));
            let op = MaskOp::Remove(rv[i].clone());
            ops.push(op);
            proof {
                assert(rv@.take(i + 1) =~= rv@.take(i as int).push(rv@[i as int]));
                assert(names_of(rv@.take(i + 1)) =~= done.push(rv@[i as int]@));
                done.lemma_push_to_set_commute(rv@[i as int]@);
                assert forall|m: Set<Seq<char>>|
                    #[trigger] apply_ops(m, ops@) == m.difference(names_of(rv@.take(i + 1)).to_set()) by {
                    assert(ops@.drop_last() =~= prev);
                    assert(apply_ops(m, prev) == m.difference(done.to_set()));
                    assert(m.difference(done.to_set()).remove(rv@[i as int]@) =~= m.difference(
                        done.to_set().insert(rv@[i as int]@),
                    ));
                }
            }
            i = i + 1;
        }
        assert(rv@.take(rv@.len() as int) =~= rv@);
        let mut j: usize = 0;
        while j < cv.len()
            invariant
                i == rv@.len(),
                j <= cv@.len(),
                ops@.len() == i + j,
                forall|k: int| 0 <= k < i ==> #[trigger] ops@[k] is Remove,
                forall|k: int| i <= k < ops@.len() ==> #[trigger] ops@[k] is Create,
                forall|m: Set<Seq<char>>|
                    #[trigger] apply_ops(m, ops@) == m.difference(names_of(rv@).to_set()).union(
                        names_of(cv@.take(j as int)).to_set(),
                    ),
            decreases cv@.len() - j,
        {
            let ghost prev = ops@;
            let ghost done = names_of(cv@.take(j as int));
            let op = MaskOp::Create(cv[j].clone());
            ops.push(op);
            proof {
                assert(cv@.take(j + 1) =~= cv@.take(j as int).push(cv@[j as int]));
                assert(names_of(cv@.take(j + 1)) =~= done.push(cv@[j as int]@));
                done.lemma_push_to_set_commute(cv@[j as int]@);
                assert forall|m: Set<Seq<char>>|
                    #[trigger] apply_ops(m, ops@) == m.difference(names_of(rv@).to_set()).union(
                        names_of(cv@.take(j + 1)).to_set(),
                    ) by {
                    assert(ops@.drop_last() =~= prev);
                    assert(apply_ops(m, prev) == m.difference(names_of(rv@).to_set()).union(
                        done.to_set(),
                    ));
                    assert(m.difference(names_of(rv@).to_set()).union(done.to_set()).insert(
                        cv@[j as int]@,
                    ) =~= m.difference(names_of(rv@).to_set()).union(done.to_set().insert(cv@[j as int]@)));
                }
            }
            j = j + 1;
        }
        assert(cv@.take(cv@.len() as int) =~= cv@);
        assert(removals_first(ops@)) by {
            assert forall|a: int, b: int|
                0 <= a < b < ops@.len() && (#[trigger] ops@[a] is Create) implies (#[trigger] ops@[b] is Create) by {
                if a < i {
                    assert(ops@[a] is Remove);
                }
            }
        }
        ops
    }
}

/// Computes which masking markers to remove and which to create, given the
/// paths in the store, the paths the whitelist requires, and the paths masked now.
pub fn reconcile(store: &NameSet, whitelist: &NameSet, masked: &NameSet) -> (r: Plan)
    requires
        store.wf(),
        whitelist.wf(),
        masked.wf(),
    ensures
        r.wf(),
        r.unmask@ == unmask_of(store@, whitelist@, masked@),
        r.stale@ == stale_of(store@, whitelist@, masked@),
        r.newly_mask@ == newly_mask_of(store@, whitelist@, masked@),
{
    let unmask = masked.intersection(whitelist);
    let stale = masked.difference(store);
    let not_masked = store.difference(masked);
    let newly_mask = not_masked.difference(whitelist);
    Plan { unmask, stale, newly_mask }
}

/// After one reconciliation, exactly the store paths outside the whitelist are masked.
pub proof fn lemma_reconcile_converges(
    store: Set<Seq<char>>,
    whitelist: Set<Seq<char>>,
    masked: Set<Seq<char>>,
)
    ensures
        reconciled(store, whitelist, masked) == store.difference(whitelist),
{
    assert(reconciled(store, whitelist, masked) =~= store.difference(whitelist));
}

/// Reconciling a second time against the same store and whitelist changes nothing.
pub proof fn lemma_reconcile_idempotent(
    store: Set<Seq<char>>,
    whitelist: Set<Seq<char>>,
    masked: Set<Seq<char>>,
)
    ensures
        ({
            let again = reconciled(store, whitelist, masked);
            &&& unmask_of(store, whitelist, again) == Set::<Seq<char>>::empty()
            &&& stale_of(store, whitelist, again) == Set::<Seq<char>>::empty()
            &&& newly_mask_of(store, whitelist, again) == Set::<Seq<char>>::empty()
        }),
{
    lemma_reconcile_converges(store, whitelist, masked);
    let again = reconciled(store, whitelist, masked);
    assert(unmask_of(store, whitelist, again) =~= Set::<Seq<char>>::empty());
    assert(stale_of(store, whitelist, again) =~= Set::<Seq<char>>::empty());
    assert(newly_mask_of(store, whitelist, again) =~= Set::<Seq<char>>::empty());
}

/// No path is in two of the three parts of a plan, provided no masked and
/// required path has left the store (such a path is both unmasked and stale).
pub proof fn lemma_plan_parts_disjoint(
    store: Set<Seq<char>>,
    whitelist: Set<Seq<char>>,
    masked: Set<Seq<char>>,
)
    requires
        masked.intersect(whitelist).subset_of(store),
    ensures
        unmask_of(store, whitelist, masked).disjoint(stale_of(store, whitelist, masked)),
        unmask_of(store, whitelist, masked).disjoint(newly_mask_of(store, whitelist, masked)),
        stale_of(store, whitelist, masked).disjoint(newly_mask_of(store, whitelist, masked)),
{
    let u = unmask_of(store, whitelist, masked);
    let s = stale_of(store, whitelist, masked);
    assert(u.disjoint(s)) by {
        assert forall|a: Seq<char>| u.contains(a) implies !s.contains(a) by {
            assert(masked.intersect(whitelist).contains(a));
        }
    }
}

/// When the whitelist covers the store, nothing new is masked, and the unmasked
/// paths are the masked store paths, provided no masked and required path has
/// left the store (such a path is unmasked too).
pub proof fn lemma_whitelist_covers_store(
    store: Set<Seq<char>>,
    whitelist: Set<Seq<char>>,
    masked: Set<Seq<char>>,
)
    requires
        store.subset_of(whitelist),
        masked.intersect(whitelist).subset_of(store),
    ensures
        newly_mask_of(store, whitelist, masked) == Set::<Seq<char>>::empty(),
        unmask_of(store, whitelist, masked) == masked.intersect(store),
{
    assert(newly_mask_of(store, whitelist, masked) =~= Set::<Seq<char>>::empty());
    assert(unmask_of(store, whitelist, masked) =~= masked.intersect(store));
}

/// With an empty whitelist the whole store ends up masked.
pub proof fn lemma_empty_whitelist_masks_store(store: Set<Seq<char>>, masked: Set<Seq<char>>)
    ensures
        reconciled(store, Set::<Seq<char>>::empty(), masked) == store,
{
    assert(reconciled(store, Set::<Seq<char>>::empty(), masked) =~= store);
}

} // verus!
