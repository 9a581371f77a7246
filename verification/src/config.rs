//! The run configuration: where saved images go and which stages run.
use vstd::prelude::*;
use vstd::string::StringExecFns;

verus! {

pub open spec fn bool_chars(b: bool) -> Seq<char> {
    if b {
        "true"@
    } else {
        "false"@
    }
}

/// The one-line rendering of a configuration.
pub open spec fn config_line(c: Config) -> Seq<char> {
    "[target = "@ + c.target@ + ", verbose = "@ + bool_chars(c.verbose) + ", archive = "@
        + bool_chars(c.archive) + "]"@
}

/// Immutable settings built once at startup and read-only thereafter.
///
/// `target` is the directory that qualifying images are copied into,
/// `verbose` enables informational tracing, and `archive` runs the
/// year-based relocation stage after the save stage.
pub struct Config {
    pub target: String,
    pub verbose: bool,
    pub archive: bool,
}

impl Config {
    pub fn new(target: String, verbose: bool, archive: bool) -> (c: Config)
        ensures
            c.target@ == target@,
            c.verbose == verbose,
            c.archive == archive,
    {
        Config { target, verbose, archive }
    }

    /// The configuration, rendered for tracing.
    pub fn describe(&self) -> (s: String)
        ensures
            s@ == config_line(*self),
    {
        let mut s = String::new();
        s.append("[target = ");
        s.append(self.target.as_str());
        s.append(", verbose = ");
        s.append(if self.verbose { "true" } else { "false" });
        s.append(", archive = ");
        s.append(if self.archive { "true" } else { "false" });
        s.append("]");
        proof {
            assert(s@ =~= config_line(*self));
        }
        s
    }
}

} // verus!
