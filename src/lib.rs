//! Coverage marks for tests: a test expects a named mark to be hit while a
//! scope runs, and the code under test records each hit of it.
//!
//! A `CoverageStore` keeps one count per mark; counts only grow. A
//! `__CoversGuard` takes a mark's count when it is made and, at the end of
//! its scope, `release` fails unless the count has grown meanwhile. Because
//! counts are shared by mark name, a hit recorded by another test that uses
//! the same name may satisfy a guard; a hit that really happened is never
//! lost, so a guard never fails wrongly.
mod guard;
mod store;

pub use guard::{
    __CoversGuard,
    NotCovered,
    covered_by,
    covers,
    lemma_counts_never_decrease,
    lemma_recorded_guard_passes,
    lemma_records_add_up,
    lemma_unrecorded_guard_fails,
};
pub use store::{
    CoverageStore,
    __covers_get_coverage,
    __covers_record_coverage,
    hits,
    lemma_hits_append,
    lemma_hits_push,
    lemma_hits_zero,
};
