//! Start-up switches read from the command line.

use vstd::prelude::*;

verus! {

/// Whether the arguments ask for a smoke test (`--smoke-test`).
pub fn smoke_test_mode(args: &[String]) -> (smoke: bool)
    ensures
        smoke == exists|k: int| 0 <= k < args@.len() && #[trigger] args@[k]@ == "--smoke-test"@,
{
    let flag = String::from_str("--smoke-test");
    let mut i: usize = 0;
    while i < args.len()
        invariant
            flag@ == "--smoke-test"@,
            i <= args@.len(),
            forall|k: int| 0 <= k < i ==> #[trigger] args@[k]@ != "--smoke-test"@,
        decreases args.len() - i,
    {
        if args[i] == flag {
            return true;
        }
        i += 1;
    }
    false
}

} // verus!
