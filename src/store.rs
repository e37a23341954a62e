use vstd::prelude::*;

verus! {

/// Number of times mark `m` occurs in the record log `log`.
pub open spec fn hits(log: Seq<Seq<char>>, m: Seq<char>) -> nat
    decreases log.len(),
{
    if log.len() == 0 {
        0
    } else {
        hits(log.drop_last(), m) + if log.last() == m { 1nat } else { 0nat }
    }
}

/// Appending one mark to a log adds one to that mark's count and leaves the
/// others unchanged.
pub proof fn lemma_hits_push(log: Seq<Seq<char>>, p: Seq<char>)
    ensures
        forall|m: Seq<char>| #[trigger]
            hits(log.push(p), m) == hits(log, m) + if m == p {
                1nat
            } else {
                0nat
            },
{
    assert(log.push(p).drop_last() =~= log);
}

/// A mark has a nonzero count exactly when it occurs in the log.
pub proof fn lemma_hits_zero(log: Seq<Seq<char>>, m: Seq<char>)
    ensures
        hits(log, m) == 0 <==> !log.contains(m),
    decreases log.len(),
{
    if log.len() > 0 {
        let rest = log.drop_last();
        lemma_hits_zero(rest, m);
        assert(log =~= rest.push(log.last()));
        if rest.contains(m) {
            let k = choose|k: int| 0 <= k < rest.len() && rest[k] == m;
            assert(log[k] == m);
        }
        if log.contains(m) && log.last() != m {
            let k = choose|k: int| 0 <= k < log.len() && log[k] == m;
            assert(rest[k] == m);
        }
        assert(log[log.len() - 1] == log.last());
    }
}

/// The count of a mark in two logs put end to end is the sum of its counts
/// in each.
pub proof fn lemma_hits_append(a: Seq<Seq<char>>, b: Seq<Seq<char>>, m: Seq<char>)
    ensures
        hits(a + b, m) == hits(a, m) + hits(b, m),
    decreases b.len(),
{
    if b.len() > 0 {
        lemma_hits_append(a, b.drop_last(), m);
        assert((a + b).drop_last() =~= a + b.drop_last());
        assert((a + b).last() == b.last());
    } else {
        assert(a + b =~= a);
    }
}

/// A table from mark to hit count.
///
/// Its model is the log of every mark recorded into it, oldest first; the
/// count of a mark is the number of its occurrences in that log.
pub struct CoverageStore {
    entries: Vec<(String, u64)>,
    log: Ghost<Seq<Seq<char>>>,
}

impl CoverageStore {
    /// Every mark recorded into this store, in the order of recording.
    pub closed spec fn log(&self) -> Seq<Seq<char>> {
        self.log@
    }

    /// The hit count of mark `m`.
    pub open spec fn count(&self, m: Seq<char>) -> nat {
        hits(self.log(), m)
    }

    /// Keys are unique, each entry holds its mark's count, and a mark
    /// without an entry was never recorded.
    pub closed spec fn wf(&self) -> bool {
        &&& forall|i: int, j: int|
            0 <= i < j < self.entries@.len() ==> self.entries@[i].0@ != self.entries@[j].0@
        &&& forall|i: int|
            0 <= i < self.entries@.len() ==> self.entries@[i].1 as nat == #[trigger] hits(
                self.log@,
                self.entries@[i].0@,
            )
        &&& forall|m: Seq<char>|
            (forall|i: int| 0 <= i < self.entries@.len() ==> self.entries@[i].0@ != m) ==> hits(
                self.log@,
                m,
            ) == 0
    }

    /// An empty store: no mark has been recorded.
    pub fn new() -> (r: CoverageStore)
        ensures
            r.wf(),
            r.log() == Seq::<Seq<char>>::empty(),
    {
        CoverageStore { entries: Vec::new(), log: Ghost(Seq::empty()) }
    }

    /// The position of the entry for `key`, if there is one.
    fn find(&self, key: &String) -> (r: Option<usize>)
        ensures
            r matches Some(i) ==> i < self.entries@.len() && self.entries@[i as int].0@ == key@,
            r is None ==> forall|i: int|
                0 <= i < self.entries@.len() ==> self.entries@[i].0@ != key@,
    {
        let mut i: usize = 0;
        while i < self.entries.len()
            invariant
                i <= self.entries@.len(),
                forall|j: int| 0 <= j < i ==> self.entries@[j].0@ != key@,
            decreases self.entries@.len() - i,
        {
            if self.entries[i].0 == *key {
                return Some(i);
            }
            i = i + 1;
        }
        None
    }
}

/// Records one hit of mark `pos`.
pub fn __covers_record_coverage(store: &mut CoverageStore, pos: &'static str)
    requires
        old(store).wf(),
        old(store).count(pos@) < u64::MAX,
    ensures
        final(store).wf(),
        final(store).log() == old(store).log().push(pos@),
        final(store).count(pos@) == old(store).count(pos@) + 1,
        forall|m: Seq<char>| m != pos@ ==> #[trigger] final(store).count(m) == old(store).count(m),
{
    let key = pos.to_owned();
    let ghost log0 = store.log@;
    proof {
        lemma_hits_push(log0, pos@);
    }
    match store.find(&key) {
        Some(i) => {
            let c = store.entries[i].1;
            store.entries.set(i, (key, c + 1));
            store.log = Ghost(log0.push(pos@));
            proof {
                let e = store.entries@;
                assert forall|j: int| 0 <= j < e.len() implies e[j].1 as nat == #[trigger] hits(
                    log0.push(pos@),
                    e[j].0@,
                ) by {
                    if j != i as int {
                        assert(old(store).entries@[j].0@ != pos@);
                    }
                }
                assert forall|m: Seq<char>|
                    (forall|j: int| 0 <= j < e.len() ==> e[j].0@ != m) implies hits(
                    log0.push(pos@),
                    m,
                ) == 0 by {
                    assert(e[i as int].0@ != m);
                    assert forall|j: int| 0 <= j < e.len() implies old(store).entries@[j].0@ != m by {
                        assert(e[j].0@ != m);
                    }
                }
            }
        },
        None => {
            proof {
                assert(hits(log0, pos@) == 0);
            }
            store.entries.push((key, 1));
            store.log = Ghost(log0.push(pos@));
            proof {
                let e = store.entries@;
                let n = old(store).entries@.len() as int;
                assert forall|j: int| 0 <= j < e.len() implies e[j].1 as nat == #[trigger] hits(
                    log0.push(pos@),
                    e[j].0@,
                ) by {
                    if j < n {
                        assert(old(store).entries@[j].0@ != pos@);
                    }
                }
                assert forall|m: Seq<char>|
                    (forall|j: int| 0 <= j < e.len() ==> e[j].0@ != m) implies hits(
                    log0.push(pos@),
                    m,
                ) == 0 by {
                    assert(e[n].0@ != m);
                    assert forall|j: int| 0 <= j < n implies old(store).entries@[j].0@ != m by {
                        assert(e[j].0@ != m);
                    }
                }
            }
        },
    }
}

/// The hit count of mark `pos`: zero for a mark never recorded.
pub fn __covers_get_coverage(store: &CoverageStore, pos: &'static str) -> (r: u64)
    requires
        store.wf(),
    ensures
        r == store.count(pos@),
        !store.log().contains(pos@) ==> r == 0,
{
    proof {
        lemma_hits_zero(store.log(), pos@);
    }
    let key = pos.to_owned();
    match store.find(&key) {
        Some(i) => store.entries[i].1,
        None => 0,
    }
}

} // verus!
