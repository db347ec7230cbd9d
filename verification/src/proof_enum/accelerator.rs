//! The fast path for problems with known proofs.

use super::statement::{proved_ids, proved_problem_ids, str_eq};
use vstd::prelude::*;

verus! {

/// Whether a problem is among the known-proved ones.
pub fn is_known_proved(problem_id: &str) -> (b: bool)
    ensures
        b == proved_problem_ids().contains(problem_id@),
{
    let ids = proved_ids();
    let mut i: usize = 0;
    while i < ids.len()
        invariant
            i <= ids@.len(),
            ids@.len() == proved_problem_ids().len(),
            forall|j: int| 0 <= j < ids@.len() ==> #[trigger] ids@[j]@ == proved_problem_ids()[j],
            forall|j: int| 0 <= j < i ==> proved_problem_ids()[j] != problem_id@,
        decreases ids@.len() - i,
    {
        if str_eq(ids[i], problem_id) {
            assert(proved_problem_ids()[i as int] == problem_id@);
            return true;
        }
        i = i + 1;
    }
    false
}

/// The problems the accelerator decides: the known-proved ones.
pub fn accelerator_decidable() -> (r: Vec<&'static str>)
    ensures
        r@.len() == proved_problem_ids().len(),
        forall|i: int| 0 <= i < r@.len() ==> #[trigger] r@[i]@ == proved_problem_ids()[i],
{
    proved_ids()
}

} // verus!
