//! What a `pull` variable reads from the command it runs.

use vstd::prelude::*;
use crate::text::{owned, trim, trim_chars};

verus! {

/// The output of a command that succeeded, without surrounding white
/// space; the default when it failed or could not run.
pub fn pull_output(succeeded: bool, stdout: &str, default: String) -> (r: String)
    ensures
        succeeded ==> r@ == trim_chars(stdout@),
        !succeeded ==> r@ == default@,
{
    if succeeded {
        owned(trim(stdout))
    } else {
        default
    }
}

} // verus!
