//! An incremental, interruptible filesystem indexing walker: a resumable
//! multi-stage task that scans a directory tree, applies a rule-based
//! inclusion/exclusion engine, reconciles what it finds against
//! previously persisted records to compute create, update and removal
//! sets, and spawns further walk tasks for accepted subdirectories.
//!
//! Each stage boundary is a yield point: the caller performs the I/O a
//! stage needs and hands the results in as plain values, so the stage
//! machine, the rule precedence, the ancestor accumulation and the final
//! diff are all verified.

use vstd::prelude::*;

pub mod db;
pub mod drive;
pub mod error;
pub mod glob;
pub mod iso;
pub mod laws;
pub mod meta;
pub mod p2p;
pub mod path;
pub mod rules;
pub mod task;
pub mod walker;

verus! {

/// The views of a sequence of isolated paths.
pub open spec fn iso_key_seq(s: Seq<crate::iso::IsolatedPath>) -> Seq<(
    int,
    Seq<Seq<char>>,
    bool,
)> {
    Seq::new(s.len(), |i: int| s[i]@)
}

/// Saturating addition on byte counts, used when accumulating directory sizes.
pub fn saturating_add_u64(a: u64, b: u64) -> (r: u64)
    ensures
        r == if a + b <= u64::MAX { a + b } else { u64::MAX as int },
{
    if a <= u64::MAX - b {
        a + b
    } else {
        u64::MAX
    }
}

} // verus!
