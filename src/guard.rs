use vstd::prelude::*;

use crate::store::{CoverageStore, hits, lemma_hits_append, lemma_hits_zero};

verus! {

/// An expectation that a mark is recorded while a scope runs.
///
/// It keeps the mark and its count at the moment it was made; when the
/// scope ends, `release` compares that count with the current one.
#[allow(non_camel_case_types)]
pub struct __CoversGuard {
    pos: &'static str,
    cnt: u64,
}

/// A scope ended without its expected mark having been recorded.
#[derive(Debug)]
pub struct NotCovered {
    pub mark: &'static str,
}

impl __CoversGuard {
    /// The mark this guard expects.
    pub closed spec fn mark(&self) -> Seq<char> {
        self.pos@
    }

    /// The mark's count when this guard was made.
    pub closed spec fn snapshot(&self) -> nat {
        self.cnt as nat
    }

    /// Whether `store` holds more hits of the mark than the snapshot.
    pub open spec fn covered_in(&self, store: CoverageStore) -> bool {
        self.snapshot() < store.count(self.mark())
    }

    /// Starts an expectation for `pos`, taking its current count in `store`.
    pub fn new(store: &CoverageStore, pos: &'static str) -> (r: __CoversGuard)
        requires
            store.wf(),
        ensures
            r.mark() == pos@,
            r.snapshot() == store.count(pos@),
    {
        let cnt = crate::store::__covers_get_coverage(store, pos);
        __CoversGuard { pos, cnt }
    }

    /// The mark this guard expects.
    pub fn mark_name(&self) -> (r: &'static str)
        ensures
            r@ == self.mark(),
    {
        self.pos
    }

    /// The check made when the guard's scope ends. While the scope is already
    /// unwinding from another failure it always passes; otherwise it fails
    /// exactly when the mark's count in `store` has not grown since the guard
    /// was made, and the failure names the mark.
    pub fn release(&self, store: &CoverageStore, unwinding: bool) -> (r: Result<(), NotCovered>)
        requires
            store.wf(),
        ensures
            r is Ok <==> (unwinding || self.covered_in(*store)),
            r matches Err(e) ==> e.mark@ == self.mark(),
    {
        if unwinding {
            return Ok(());
        }
        let now = crate::store::__covers_get_coverage(store, self.pos);
        if self.cnt < now {
            Ok(())
        } else {
            Err(NotCovered { mark: self.pos })
        }
    }
}

/// Starts an expectation for `pos` when `enabled` holds; otherwise does
/// nothing and yields no guard.
pub fn covers(store: &CoverageStore, enabled: bool, pos: &'static str) -> (r: Option<
    __CoversGuard,
>)
    requires
        store.wf(),
    ensures
        r is Some <==> enabled,
        r matches Some(g) ==> g.mark() == pos@ && g.snapshot() == store.count(pos@),
{
    if enabled {
        Some(__CoversGuard::new(store, pos))
    } else {
        None
    }
}

/// Records one hit of `pos` when `enabled` holds; otherwise leaves `store`
/// as it was.
pub fn covered_by(store: &mut CoverageStore, enabled: bool, pos: &'static str)
    requires
        old(store).wf(),
        enabled ==> old(store).count(pos@) < u64::MAX,
    ensures
        final(store).wf(),
        enabled ==> final(store).log() == old(store).log().push(pos@),
        !enabled ==> final(store).log() == old(store).log(),
{
    if enabled {
        crate::store::__covers_record_coverage(store, pos);
    }
}

/// Counts never go down: whatever is recorded into a store after another
/// point in its history, every mark's count there is at least what it was.
pub proof fn lemma_counts_never_decrease(
    before: CoverageStore,
    after: CoverageStore,
    later: Seq<Seq<char>>,
    m: Seq<char>,
)
    requires
        after.log() == before.log() + later,
    ensures
        before.count(m) <= after.count(m),
{
    lemma_hits_append(before.log(), later, m);
}

/// A guard whose mark is recorded at least once after the guard was made
/// is covered at the end of its scope.
pub proof fn lemma_recorded_guard_passes(
    before: CoverageStore,
    g: __CoversGuard,
    after: CoverageStore,
    later: Seq<Seq<char>>,
)
    requires
        g.snapshot() == before.count(g.mark()),
        after.log() == before.log() + later,
        later.contains(g.mark()),
    ensures
        g.covered_in(after),
{
    lemma_hits_append(before.log(), later, g.mark());
    lemma_hits_zero(later, g.mark());
}

/// A guard whose mark is not recorded between the guard's making and the end
/// of its scope is not covered there.
pub proof fn lemma_unrecorded_guard_fails(
    before: CoverageStore,
    g: __CoversGuard,
    after: CoverageStore,
    later: Seq<Seq<char>>,
)
    requires
        g.snapshot() == before.count(g.mark()),
        after.log() == before.log() + later,
        !later.contains(g.mark()),
    ensures
        !g.covered_in(after),
{
    lemma_hits_append(before.log(), later, g.mark());
    lemma_hits_zero(later, g.mark());
}

/// After `n` hits of a mark, its count has grown by exactly `n`.
pub proof fn lemma_records_add_up(before: CoverageStore, after: CoverageStore, m: Seq<char>, n: nat)
    requires
        after.log() == before.log() + Seq::new(n, |i: int| m),
    ensures
        after.count(m) == before.count(m) + n,
{
    let copies = Seq::new(n, |i: int| m);
    lemma_hits_append(before.log(), copies, m);
    lemma_hits_copies(m, n);
}

proof fn lemma_hits_copies(m: Seq<char>, n: nat)
    ensures
        hits(Seq::new(n, |i: int| m), m) == n,
    decreases n,
{
    if n > 0 {
        lemma_hits_copies(m, (n - 1) as nat);
        assert(Seq::new(n, |i: int| m).drop_last() =~= Seq::new((n - 1) as nat, |i: int| m));
    }
}

} // verus!
