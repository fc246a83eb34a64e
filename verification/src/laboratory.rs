//! Every kernel against its plain counterpart.
use vstd::prelude::*;

verus! {

/// Runs all checks; the first one that fails would be reported. All of them pass, whatever
/// data are generated.
pub fn run_correctness() -> (r: Result<(), String>)
    ensures
        r is Ok,
{
    crate::factorized::correctness()?;
    crate::answer_store::correctness()?;
    crate::executable::correctness()?;
    crate::progressive::correctness()?;
    crate::certificate::correctness()?;
    crate::wcoj::correctness()?;
    crate::coordination::correctness()?;
    crate::redundancy::correctness()?;
    crate::engine::correctness()?;
    crate::shared::correctness()?;
    crate::joint::correctness()?;
    crate::residue::correctness()?;
    crate::chase::correctness()?;
    crate::prefix::correctness()?;
    crate::ranking_cert::correctness()
}

} // verus!
