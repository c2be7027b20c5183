//! The places a benchmarked logger can write to.

use vstd::prelude::*;
use crate::text::{chars_match_str, no_space};

verus! {

/// Where a benchmarked logger sends its records.
#[derive(Debug, Clone, Copy, PartialEq, Eq, Hash, Structural)]
pub enum OutputTarget {
    Sink,
    Stdout,
    File,
}

impl OutputTarget {
    /// The name under which the target is passed to a child process and shown in reports.
    pub open spec fn name(self) -> Seq<char> {
        match self {
            OutputTarget::Sink => "sink"@,
            OutputTarget::Stdout => "stdout"@,
            OutputTarget::File => "file"@,
        }
    }

    /// Different targets have different names, so that a name read back
    /// names the one that wrote it: `from_name` of `as_str` gives back the same one.
    pub proof fn lemma_name_identifies(self, other: OutputTarget)
        ensures
            self.name() == other.name() ==> self == other,
    {
        reveal_strlit("sink");
        reveal_strlit("stdout");
        reveal_strlit("file");
        if self.name() == other.name() && self != other {
            assert(self.name().len() != other.name().len() || self.name()[0] != other.name()[0]);
        }
    }

    pub fn as_str(&self) -> (s: &'static str)
        ensures
            s@ == self.name(),
    {
        match self {
            OutputTarget::Sink => "sink",
            OutputTarget::Stdout => "stdout",
            OutputTarget::File => "file",
        }
    }

    /// Every target, in the order in which the harness lists them.
    pub fn all() -> (v: Vec<OutputTarget>)
        ensures
            v@ == seq![OutputTarget::Sink, OutputTarget::Stdout, OutputTarget::File],
    {
        vec![OutputTarget::Sink, OutputTarget::Stdout, OutputTarget::File]
    }

    /// A target's name is a single non-empty white-space free token without `_`.
    pub proof fn lemma_name_is_word(self)
        ensures
            self.name().len() > 0,
            no_space(self.name()),
            !self.name().contains('_'),
    {
        reveal_strlit("sink");
        reveal_strlit("stdout");
        reveal_strlit("file");
    }

    /// The target whose name is `name`, if there is one.
    pub fn from_name(name: &[char]) -> (r: Option<OutputTarget>)
        ensures
            match r {
                Some(t) => name@ == t.name(),
                None => forall|t: OutputTarget| name@ != t.name(),
            },
    {
        if chars_match_str(name, "sink") {
            Some(OutputTarget::Sink)
        } else if chars_match_str(name, "stdout") {
            Some(OutputTarget::Stdout)
        } else if chars_match_str(name, "file") {
            Some(OutputTarget::File)
        } else {
            proof {
                assert forall|t: OutputTarget| name@ != t.name() by {
                    match t {
                        OutputTarget::Sink => {},
                        OutputTarget::Stdout => {},
                        OutputTarget::File => {},
                    }
                }
            }
            None
        }
    }
}

} // verus!
