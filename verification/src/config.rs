//! Engine settings.

use vstd::prelude::*;
use crate::builtins::string_from_chars;

verus! {

/// How the engine treats an assignment to a variable that already has a value.
#[derive(Debug, Clone, Copy, PartialEq, Eq, Structural)]
pub enum ReassignmentBehavior {
    Allow,
    Warn,
    Error,
}

impl Default for ReassignmentBehavior {
    fn default() -> (r: Self)
        ensures
            r == ReassignmentBehavior::Warn,
    {
        ReassignmentBehavior::Warn
    }
}

/// The names of the constants seeded by default.
pub open spec fn default_constants() -> Seq<Seq<char>> {
    seq![seq!['P', 'I'], seq!['T', 'A', 'U'], seq!['E']]
}

/// Engine settings.
pub struct Config {
    pub reassignment: ReassignmentBehavior,
    /// Whether query results are written back into the buffer.
    pub generate_fills: bool,
    /// The names of the pre-seeded constants; the engine reports an assignment to one of
    /// them and does not evaluate it. Their values are fend's own.
    pub constants: Vec<String>,
}

impl Config {
    /// The constant names as plain values.
    pub open spec fn constant_names(&self) -> Seq<Seq<char>> {
        self.constants@.map_values(|s: String| s@)
    }
}

impl Default for Config {
    fn default() -> (c: Self)
        ensures
            c.reassignment == ReassignmentBehavior::Warn,
            c.generate_fills,
            c.constant_names() == default_constants(),
    {
        let pi = string_from_chars(&vec!['P', 'I']);
        let tau = string_from_chars(&vec!['T', 'A', 'U']);
        let e = string_from_chars(&vec!['E']);
        assert(pi@ =~= seq!['P', 'I']);
        assert(tau@ =~= seq!['T', 'A', 'U']);
        assert(e@ =~= seq!['E']);
        let mut constants: Vec<String> = Vec::new();
        constants.push(pi);
        constants.push(tau);
        constants.push(e);
        let c = Config { reassignment: ReassignmentBehavior::default(), generate_fills: true, constants };
        assert(c.constant_names() =~= default_constants());
        c
    }
}

} // verus!
