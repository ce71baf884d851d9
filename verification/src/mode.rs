//! What a run is asked to do, read off its command line.

use vstd::prelude::*;
use vstd::string::*;

verus! {

/// What the command line asks for.
#[derive(Clone, Copy, Debug, PartialEq, Eq, Structural)]
pub enum RunMode {
    /// Fewer than the two paths: only the usage text can be shown.
    Usage,
    /// Both paths, but neither a threshold nor the test flag.
    MissingMode,
    /// Every line is written out with its entropy.
    Test,
    /// The lines above the threshold are written out; the fourth argument
    /// holds the threshold's text.
    Threshold,
}

/// Whether one of the arguments is the test flag.
pub open spec fn has_test_flag(args: Seq<String>) -> bool {
    exists|i: int| 0 <= i < args.len() && (#[trigger] args[i])@ == "--test"@
}

/// The mode that the arguments ask for. The first argument is the program's
/// name, the next two are the paths. The test flag counts wherever it stands,
/// and a threshold only as the one argument after the paths.
pub open spec fn run_mode(args: Seq<String>) -> RunMode {
    if args.len() < 3 {
        RunMode::Usage
    } else if has_test_flag(args) {
        RunMode::Test
    } else if args.len() == 4 {
        RunMode::Threshold
    } else {
        RunMode::MissingMode
    }
}

/// Reads the mode off the arguments.
pub fn choose_mode(args: &Vec<String>) -> (mode: RunMode)
    ensures
        mode == run_mode(args@),
{
    if args.len() < 3 {
        return RunMode::Usage;
    }
    let flag: String = String::from_str("--test");
    let mut at: usize = 0;
    while at < args.len()
        invariant
            3 <= args.len(),
            at <= args.len(),
            flag@ == "--test"@,
            forall|i: int| 0 <= i < at ==> (#[trigger] args@[i])@ != "--test"@,
        decreases args.len() - at,
    {
        if args[at] == flag {
            proof {
                assert(args@[at as int]@ == "--test"@);
            }
            return RunMode::Test;
        }
        at += 1;
    }
    if args.len() == 4 {
        RunMode::Threshold
    } else {
        RunMode::MissingMode
    }
}

} // verus!
