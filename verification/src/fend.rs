//! The bridge to fend: an evaluation session that keeps, beside fend's context, every
//! input evaluated on it and every reply fend gave.
//!
//! Nothing is claimed of what fend replies: some of its functions and units go through
//! `f64` functions (`sin`, `tan`, `ln`, `exp`, ...) whose precision std leaves
//! unspecified, so a reply need not be the same on every machine or in every call. The
//! library states its results over the replies it was given.

use vstd::prelude::*;

verus! {

/// fend's evaluation context (variables, settings).
#[verifier::external_type_specification]
#[verifier::external_body]
pub struct ExFendContext(fend_core::Context);

/// The plain view of an optional string.
pub open spec fn opt_view(r: Option<String>) -> Option<Seq<char>> {
    match r {
        Some(s) => Some(s@),
        None => None,
    }
}

/// A fresh context from `fend_core::Context::new`: no variables, no clock, no random
/// source and no exchange rates. Nothing is promised of it here; what a session does with
/// it is stated by `session_evaluate`.
#[verifier::external_body]
fn new_context() -> fend_core::Context {
    fend_core::Context::new()
}

/// Evaluates `input` with `fend_core::evaluate` on the session's context and returns the
/// main result text (`FendResult::get_main_result`), or `None` on error.
///
/// Nothing is claimed of the reply (see the module's documentation). The contract only
/// says that the session's records are left as they are; the caller records the input
/// and the reply.
#[verifier::external_body]
fn session_evaluate(s: &mut FendSession, input: &str) -> (r: Option<String>)
    ensures
        final(s).history() == old(s).history(),
        final(s).replies() == old(s).replies(),
{
    match fend_core::evaluate(input, &mut s.ctx) {
        Ok(res) => Some(res.get_main_result().to_string()),
        Err(_) => None,
    }
}

/// A fend context together with every input evaluated on it since it was created, and
/// fend's reply to each.
pub struct FendSession {
    ctx: fend_core::Context,
    inputs: Vec<String>,
    outputs: Vec<Option<String>>,
}

impl FendSession {
    /// The inputs evaluated so far, oldest first.
    pub closed spec fn history(&self) -> Seq<Seq<char>> {
        self.inputs@.map_values(|s: String| s@)
    }

    /// fend's replies so far, oldest first: the reply to each input of `history`.
    pub closed spec fn replies(&self) -> Seq<Option<Seq<char>>> {
        self.outputs@.map_values(|r: Option<String>| opt_view(r))
    }

    /// As many replies as inputs.
    pub open spec fn wf(&self) -> bool {
        self.history().len() == self.replies().len()
    }

    /// A session on a fresh context.
    pub fn new() -> (s: FendSession)
        ensures
            s.wf(),
            s.history() == Seq::<Seq<char>>::empty(),
            s.replies() == Seq::<Option<Seq<char>>>::empty(),
    {
        let s = FendSession { ctx: new_context(), inputs: Vec::new(), outputs: Vec::new() };
        assert(s.history() =~= Seq::<Seq<char>>::empty());
        assert(s.replies() =~= Seq::<Option<Seq<char>>>::empty());
        s
    }

    /// Evaluates `input` and records it with fend's reply; returns the main result text,
    /// or `None` on error.
    pub fn eval(&mut self, input: &str) -> (r: Option<String>)
        requires
            old(self).wf(),
        ensures
            final(self).wf(),
            final(self).history() == old(self).history().push(input@),
            final(self).replies() == old(self).replies().push(opt_view(r)),
    {
        let r = session_evaluate(self, input);
        let ghost before = self.inputs@;
        let ghost before_out = self.outputs@;
        self.inputs.push(input.to_string());
        let kept: Option<String> = match &r {
            Some(t) => Some(t.clone()),
            None => None,
        };
        self.outputs.push(kept);
        assert(self.history() =~= old(self).history().push(input@)) by {
            assert(self.inputs@ == before.push(self.inputs@.last()));
        }
        assert(self.replies() =~= old(self).replies().push(opt_view(r))) by {
            assert(self.outputs@ == before_out.push(self.outputs@.last()));
            assert(opt_view(kept) == opt_view(r));
        }
        r
    }
}

/// Evaluates `input` on its own, in a fresh session. Nothing is claimed of the reply.
pub fn evaluate_fresh(input: &str) -> Option<String> {
    let mut s = FendSession::new();
    s.eval(input)
}

} // verus!
