//! How the program tells a child run from the parent that schedules the runs.

use vstd::prelude::*;
use crate::text::chars_match_str;

verus! {

/// Whether the command line asks for a single benchmark run: more than three
/// arguments, the second being `--benchmark`. The third and the fourth then
/// name the benchmark and the target.
pub fn is_child_invocation(args: &[Vec<char>]) -> (r: bool)
    ensures
        r == (args@.len() > 3 && args@[1]@ == "--benchmark"@),
{
    if args.len() <= 3 {
        return false;
    }
    chars_match_str(args[1].as_slice(), "--benchmark")
}

} // verus!
