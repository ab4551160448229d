//! Stage 4: the executioner runs each line's tape through fend, one instruction at a
//! time, and turns the line's final `=` into a query (a fill), an assignment or an
//! assertion. A variable assigned again is treated as the configured reassignment
//! behaviour says; an assignment to a pre-seeded constant is reported and refused.
//!
//! A computed result is kept as the fend text that computes it: an instruction's text
//! is built from its operands' texts, each in parentheses, so that fend evaluates the
//! same exact quantity that the operands denote.

use vstd::prelude::*;
use crate::config::{Config, ReassignmentBehavior};
use crate::fend::{evaluate_fresh, opt_view, FendSession};
use crate::maps::{IdMap, StrMap};
use crate::model::{
    spec_position, Atom, AtomV, Diagnostic, DiagnosticCode, EngineResult, Entity, FendOp,
    OpCode, Position, Span, TextEdit, Workspace, WorkspaceV,
};
use crate::builtins::string_from_chars;
use crate::text::{append_chars, chars_of};

verus! {

// ---------------------------------------------------------------------------
// The executioner as a mathematical state machine.
// ---------------------------------------------------------------------------

/// An edit as plain values.
pub struct EditOut {
    pub span: Span,
    pub new_text: Seq<char>,
    pub value: Option<Seq<char>>,
}

/// The plain view of an edit.
pub open spec fn edit_out(e: TextEdit) -> EditOut {
    EditOut { span: e.span, new_text: e.new_text@, value: opt_view(e.value) }
}

/// Whether two edits have the same span and text, and both or neither carry a value.
/// (Whether two values are equal is fend's to say; see `fend_values_equal`.)
pub open spec fn edits_match(a: EditOut, b: EditOut) -> bool {
    &&& a.span == b.span
    &&& a.new_text == b.new_text
    &&& (a.value is Some) == (b.value is Some)
}

/// What the executioner has gathered so far.
pub struct EngineV {
    /// The fend text of each computed id.
    pub state: Map<i32, Seq<char>>,
    /// The offset of each id met on a line.
    pub offsets: Map<i32, u32>,
    /// The ids whose evaluation failed or depends on a failure.
    pub poison: Set<i32>,
    pub diagnostics: Seq<Diagnostic>,
    pub edits: Seq<EditOut>,
    /// Every text evaluated by fend so far, in order.
    pub history: Seq<Seq<char>>,
    /// How an assignment to an already assigned variable is treated.
    pub reassignment: ReassignmentBehavior,
    /// The variables that an assignment has given a value so far.
    pub assigned: Set<Seq<char>>,
    /// fend's replies: the `k`-th is its reply to the `k`-th text of `history`.
    pub replies: Seq<Option<Seq<char>>>,
}

/// fend's reply to the next text evaluated from `st`.
pub open spec fn reply(st: EngineV) -> Option<Seq<char>> {
    st.replies[st.history.len() as int]
}

/// `st` with fend's replies taken to be `r`.
pub open spec fn given(st: EngineV, r: Seq<Option<Seq<char>>>) -> EngineV {
    EngineV { replies: r, ..st }
}

/// `b` starts with the replies `a`.
pub open spec fn replies_extend(a: Seq<Option<Seq<char>>>, b: Seq<Option<Seq<char>>>) -> bool {
    &&& a.len() <= b.len()
    &&& forall|k: int| 0 <= k < a.len() ==> #[trigger] b[k] == a[k]
}

/// A fresh executioner state that treats reassignments as `rb` says, with fend's
/// replies taken to be `replies`.
pub open spec fn engine_start(rb: ReassignmentBehavior, replies: Seq<Option<Seq<char>>>) -> EngineV {
    EngineV {
        state: Map::empty(),
        offsets: Map::empty(),
        poison: Set::empty(),
        diagnostics: Seq::empty(),
        edits: Seq::empty(),
        history: Seq::empty(),
        reassignment: rb,
        assigned: Set::empty(),
        replies: replies,
    }
}

/// `s` in parentheses.
pub open spec fn paren(s: Seq<char>) -> Seq<char> {
    seq!['('] + s + seq![')']
}

/// The fend text that stands for `id`: a computed result, an identifier or a literal.
pub open spec fn expr_of(ws: WorkspaceV, st: EngineV, id: i32) -> Option<Seq<char>> {
    if st.state.contains_key(id) {
        Some(st.state[id])
    } else if ws.atoms.contains_key(id) {
        match ws.atoms[id] {
            AtomV::Variable(v) => Some(v),
            AtomV::Constant(v) => Some(v),
            AtomV::Function(v) => Some(v),
            AtomV::Value(v) => Some(v),
            _ => None,
        }
    } else {
        None
    }
}

/// The infix text of the binary fend operators the engine evaluates.
pub open spec fn infix(op: FendOp) -> Option<Seq<char>> {
    match op {
        FendOp::To => Some(seq![' ', 't', 'o', ' ']),
        FendOp::Add => Some(seq![' ', '+', ' ']),
        FendOp::Sub => Some(seq![' ', '-', ' ']),
        FendOp::Mul => Some(seq![' ', '*', ' ']),
        FendOp::Div => Some(seq![' ', '/', ' ']),
        FendOp::Mod => Some(seq![' ', 'm', 'o', 'd', ' ']),
        FendOp::Pow => Some(seq![' ', '^', ' ']),
        _ => None,
    }
}

/// The fend text of an instruction: a call, or a binary operation, on two operands.
pub open spec fn build_text(ws: WorkspaceV, st: EngineV, op: OpCode, args: Seq<i32>) -> Option<Seq<char>> {
    if args.len() != 2 {
        None
    } else {
        match (expr_of(ws, st, args[0]), expr_of(ws, st, args[1])) {
            (Some(l), Some(r)) => match op {
                OpCode::Call => Some(paren(l) + paren(r)),
                OpCode::Fend(f) => match infix(f) {
                    Some(t) => Some(paren(l) + t + paren(r)),
                    None => None,
                },
                _ => None,
            },
            _ => None,
        }
    }
}

/// The lowest and highest offsets among `off` and the recorded offsets of `args`.
pub open spec fn span_bounds(offsets: Map<i32, u32>, args: Seq<i32>, off: u32) -> (u32, u32)
    decreases args.len(),
{
    if args.len() == 0 {
        (off, off)
    } else {
        let (lo, hi) = span_bounds(offsets, args.drop_last(), off);
        let a = args.last();
        if offsets.contains_key(a) {
            let p = offsets[a];
            (if p < lo { p } else { lo }, if p > hi { p } else { hi })
        } else {
            (lo, hi)
        }
    }
}

/// The span an instruction covers: from its leftmost to its rightmost operand.
pub open spec fn instr_span(text: Seq<char>, offsets: Map<i32, u32>, args: Seq<i32>, off: u32) -> Span {
    let (lo, hi) = span_bounds(offsets, args, off);
    Span { start: spec_position(text, lo), end: spec_position(text, hi) }
}

/// The text `true`.
pub open spec fn true_text() -> Seq<char> {
    seq!['t', 'r', 'u', 'e']
}

/// A query's outcome: fend's `answer` is filled in after the `=` (one byte past `off`),
/// with a space before it; without an answer the query is poisoned.
pub open spec fn query_settled(text: Seq<char>, st: EngineV, id: i32, off: u32, answer: Option<Seq<char>>) -> EngineV {
    match answer {
        Some(res) => {
            let p = spec_position(text, (off + 1) as u32);
            EngineV {
                edits: st.edits.push(EditOut { span: Span { start: p, end: p }, new_text: seq![' '] + res, value: Some(res) }),
                ..st
            }
        },
        None => EngineV { poison: st.poison.insert(id), ..st },
    }
}

/// An assignment's outcome: with an answer `name` counts as assigned; without one the
/// assignment is poisoned.
pub open spec fn assignment_settled(st: EngineV, id: i32, name: Seq<char>, answer: Option<Seq<char>>) -> EngineV {
    if answer is Some {
        EngineV { assigned: st.assigned.insert(name), ..st }
    } else {
        EngineV { poison: st.poison.insert(id), ..st }
    }
}

/// The diagnostic for a variable assigned again.
pub open spec fn reassigned_at(span: Span) -> Diagnostic {
    Diagnostic { code: DiagnosticCode::Reassignment, span: span }
}

/// An assignment of the fend text `r` to the variable `name`, reported over `span`.
/// A first assignment, or any under `Allow`, is evaluated; a reassignment under `Warn`
/// is reported and evaluated; under `Error` it is reported and poisoned, and fend is not
/// asked.
pub open spec fn assignment(st: EngineV, id: i32, name: Seq<char>, r: Seq<char>, span: Span) -> EngineV {
    let again = st.assigned.contains(name);
    if again && st.reassignment == ReassignmentBehavior::Error {
        EngineV { poison: st.poison.insert(id), diagnostics: st.diagnostics.push(reassigned_at(span)), ..st }
    } else {
        let st1 = if again && st.reassignment == ReassignmentBehavior::Warn {
            EngineV { diagnostics: st.diagnostics.push(reassigned_at(span)), ..st }
        } else {
            st
        };
        let e = name + seq![' ', '=', ' '] + paren(r);
        assignment_settled(EngineV { history: st1.history.push(e), ..st1 }, id, name, reply(st1))
    }
}

/// An assignment to a pre-seeded constant: reported over `span` and poisoned.
pub open spec fn constant_assignment(st: EngineV, id: i32, span: Span) -> EngineV {
    EngineV {
        poison: st.poison.insert(id),
        diagnostics: st.diagnostics.push(Diagnostic { code: DiagnosticCode::ConstantReassignment, span: span }),
        ..st
    }
}

/// The diagnostic for an expression fend refused, or an assertion that does not hold.
pub open spec fn malformed_at(span: Span) -> Diagnostic {
    Diagnostic { code: DiagnosticCode::MalformedExpression, span: span }
}

/// An assertion's outcome: it holds when fend answers `true`; otherwise it is poisoned
/// and reported over `span`.
pub open spec fn assertion_settled(st: EngineV, id: i32, span: Span, answer: Option<Seq<char>>) -> EngineV {
    if answer == Some(true_text()) {
        st
    } else {
        EngineV { poison: st.poison.insert(id), diagnostics: st.diagnostics.push(malformed_at(span)), ..st }
    }
}

/// An instruction's outcome: with an answer its fend text `e` is remembered as its
/// value; without one it is poisoned and reported over `span`.
pub open spec fn instruction_settled(st: EngineV, id: i32, e: Seq<char>, span: Span, answer: Option<Seq<char>>) -> EngineV {
    if answer is Some {
        EngineV { state: st.state.insert(id, e), ..st }
    } else {
        EngineV { poison: st.poison.insert(id), diagnostics: st.diagnostics.push(malformed_at(span)), ..st }
    }
}

/// A line's final `=`: with one operand a query (its result is filled in after the
/// `=`), with a variable on the left an assignment, with a constant on the left a
/// refused assignment, otherwise an assertion that both sides are equal.
pub open spec fn intent(ws: WorkspaceV, text: Seq<char>, st: EngineV, args: Seq<i32>, id: i32, off: u32) -> EngineV {
    if args.len() == 1 {
        match expr_of(ws, st, args[0]) {
            Some(e) => query_settled(text, EngineV { history: st.history.push(e), ..st }, id, off, reply(st)),
            None => st,
        }
    } else if args.len() == 2 {
        if ws.atoms.contains_key(args[0]) && ws.atoms[args[0]] is Variable {
            match expr_of(ws, st, args[1]) {
                Some(r) => assignment(st, id, ws.atoms[args[0]]->Variable_0, r, instr_span(text, st.offsets, args, off)),
                None => st,
            }
        } else if ws.atoms.contains_key(args[0]) && ws.atoms[args[0]] is Constant {
            constant_assignment(st, id, instr_span(text, st.offsets, args, off))
        } else {
            match (expr_of(ws, st, args[0]), expr_of(ws, st, args[1])) {
                (Some(l), Some(r)) => {
                    let e = paren(l) + seq![' ', '=', '=', ' '] + paren(r);
                    assertion_settled(
                        EngineV { history: st.history.push(e), ..st },
                        id,
                        instr_span(text, st.offsets, args, off),
                        reply(st),
                    )
                },
                _ => st,
            }
        }
    } else {
        st
    }
}

/// Whether some operand is poisoned.
pub open spec fn args_poisoned(st: EngineV, args: Seq<i32>) -> bool {
    exists|k: int| 0 <= k < args.len() && st.poison.contains(#[trigger] args[k])
}

/// The handling of the `i`-th entity of a tape.
pub open spec fn child_step(ws: WorkspaceV, text: Seq<char>, st: EngineV, es: Seq<Entity>, i: int) -> EngineV {
    let child = es[i];
    if st.poison.contains(child.id) || !ws.atoms.contains_key(child.id) {
        st
    } else {
        match ws.atoms[child.id] {
            AtomV::Value(v) => EngineV { state: st.state.insert(child.id, v), ..st },
            AtomV::Instruction { op, args } => {
                if args_poisoned(st, args) {
                    EngineV { poison: st.poison.insert(child.id), ..st }
                } else if i == es.len() - 1 && op == OpCode::Fend(FendOp::Equals) {
                    intent(ws, text, st, args, child.id, child.offset)
                } else {
                    match build_text(ws, st, op, args) {
                        Some(e) => instruction_settled(
                            EngineV { history: st.history.push(e), ..st },
                            child.id,
                            e,
                            instr_span(text, st.offsets, args, child.offset),
                            reply(st),
                        ),
                        None => EngineV { poison: st.poison.insert(child.id), ..st },
                    }
                }
            },
            _ => st,
        }
    }
}

/// The first `n` entities of a tape, run in order.
pub open spec fn tape_run(ws: WorkspaceV, text: Seq<char>, st: EngineV, es: Seq<Entity>, n: int) -> EngineV
    decreases n,
{
    if n <= 0 || n > es.len() {
        st
    } else {
        child_step(ws, text, tape_run(ws, text, st, es, n - 1), es, n - 1)
    }
}

/// The offsets of `es` recorded over `offs`, later entities overriding earlier ones.
pub open spec fn record_offsets(offs: Map<i32, u32>, es: Seq<Entity>) -> Map<i32, u32>
    decreases es.len(),
{
    if es.len() == 0 {
        offs
    } else {
        record_offsets(offs, es.drop_last()).insert(es.last().id, es.last().offset)
    }
}

/// The ids of a list of entities.
pub open spec fn ids_of(es: Seq<Entity>) -> Set<i32> {
    es.map_values(|e: Entity| e.id).to_set()
}

/// Whether some entity of a line is poison.
pub open spec fn line_poisoned(ws: WorkspaceV, es: Seq<Entity>) -> bool {
    exists|i: int| 0 <= i < es.len() && ws.atoms.contains_key(#[trigger] es[i].id) && ws.atoms[es[i].id] is Poison
}

/// The handling of a line of the root: a corrupted or poisoned line poisons all its
/// ids; a healthy one runs its tape.
pub open spec fn line_step(ws: WorkspaceV, text: Seq<char>, st: EngineV, e: Entity) -> EngineV {
    if ws.atoms.contains_key(e.id) && ws.atoms[e.id] is Container
        && ws.containers.contains_key(ws.atoms[e.id]->Container_0) {
        let c = ws.containers[ws.atoms[e.id]->Container_0];
        let st1 = EngineV { offsets: record_offsets(st.offsets, c.contents), ..st };
        if c.corrupted || line_poisoned(ws, c.contents) {
            EngineV { poison: st1.poison + ids_of(c.contents), ..st1 }
        } else {
            tape_run(ws, text, st1, c.contents, c.contents.len() as int)
        }
    } else {
        st
    }
}

/// The first `n` lines of the root, run in order.
pub open spec fn lines_run(ws: WorkspaceV, text: Seq<char>, st: EngineV, root: Seq<Entity>, n: int) -> EngineV
    decreases n,
{
    if n <= 0 || n > root.len() {
        st
    } else {
        line_step(ws, text, lines_run(ws, text, st, root, n - 1), root[n - 1])
    }
}

/// The executioner's state after running every line of the root, from `st`.
pub open spec fn spec_execute(ws: WorkspaceV, text: Seq<char>, st: EngineV) -> EngineV {
    if ws.containers.contains_key(0) {
        let root = ws.containers[0].contents;
        lines_run(ws, text, st, root, root.len() as int)
    } else {
        st
    }
}

/// Every entity's offset leaves room for the byte after it.
pub open spec fn offsets_fit(ws: WorkspaceV) -> bool {
    forall|c: i32, i: int|
        #![trigger ws.containers[c].contents[i]]
        ws.containers.contains_key(c) && 0 <= i < ws.containers[c].contents.len()
            ==> ws.containers[c].contents[i].offset < u32::MAX
}

// ---------------------------------------------------------------------------
// Lemmas.
// ---------------------------------------------------------------------------

/// Adding an entity adds its id.
proof fn lemma_ids_of_push(es: Seq<Entity>, e: Entity)
    ensures
        ids_of(es.push(e)) == ids_of(es).insert(e.id),
{
    let f = |x: Entity| x.id;
    es.lemma_push_map_commute(f, e);
    es.map_values(f).lemma_push_to_set_commute(e.id);
}

// ---------------------------------------------------------------------------
// Text building.
// ---------------------------------------------------------------------------

/// `(l)` + `mid` + `(r)`.
fn join(l: &String, mid: &Vec<char>, r: &String) -> (s: String)
    ensures
        s@ == paren(l@) + mid@ + paren(r@),
{
    let mut v: Vec<char> = Vec::new();
    v.push('(');
    append_chars(&mut v, &chars_of(l.as_str()));
    v.push(')');
    append_chars(&mut v, mid);
    v.push('(');
    append_chars(&mut v, &chars_of(r.as_str()));
    v.push(')');
    assert(v@ =~= paren(l@) + mid@ + paren(r@));
    string_from_chars(&v)
}

/// The infix text of a binary fend operator, as characters.
fn infix_chars(op: FendOp) -> (r: Option<Vec<char>>)
    ensures
        match r {
            Some(v) => infix(op) == Some(v@),
            None => infix(op) is None,
        },
{
    let r = match op {
        FendOp::To => Some(vec![' ', 't', 'o', ' ']),
        FendOp::Add => Some(vec![' ', '+', ' ']),
        FendOp::Sub => Some(vec![' ', '-', ' ']),
        FendOp::Mul => Some(vec![' ', '*', ' ']),
        FendOp::Div => Some(vec![' ', '/', ' ']),
        FendOp::Mod => Some(vec![' ', 'm', 'o', 'd', ' ']),
        FendOp::Pow => Some(vec![' ', '^', ' ']),
        _ => None,
    };
    proof {
        if r is Some {
            assert(infix(op)->Some_0 =~= r->Some_0@);
        }
    }
    r
}

/// Whether `s` is the text `true`.
fn is_true(s: &String) -> (b: bool)
    ensures
        b == (s@ == true_text()),
{
    let c = chars_of(s.as_str());
    let b = c.len() == 4 && c[0] == 't' && c[1] == 'r' && c[2] == 'u' && c[3] == 'e';
    proof {
        if b {
            assert(s@ =~= true_text());
        } else if s@ == true_text() {
            assert(s@[0] == 't');
        }
    }
    b
}

/// Whether fend's reply to a comparison says that it holds: the reply is `true`.
pub fn reply_holds(reply: &Option<String>) -> (b: bool)
    ensures
        b == (opt_view(*reply) == Some(true_text())),
{
    match reply {
        Some(s) => is_true(s),
        None => false,
    }
}

/// Compares two printed values with fend's `==`, on a fresh context: asks fend for
/// `(a) == (b)` and reads its reply with `reply_holds`. What fend replies is not
/// claimed, so neither is the result.
pub fn fend_values_equal(a: &String, b: &String) -> bool {
    let e = join(a, &vec![' ', '=', '=', ' '], b);
    let reply = evaluate_fresh(e.as_str());
    reply_holds(&reply)
}

// ---------------------------------------------------------------------------
// The executable executioner.
// ---------------------------------------------------------------------------

/// Runs the unrolled tapes of a workspace through fend.
pub struct Executioner<'a> {
    pub workspace: &'a Workspace,
    pub config: &'a Config,
    pub text: &'a str,
    pub session: FendSession,
    pub state_map: IdMap<String>,
    pub pos_map: IdMap<u32>,
    pub poison_set: IdMap<bool>,
    pub diagnostics: Vec<Diagnostic>,
    pub edits: Vec<TextEdit>,
    /// The variables assigned so far.
    pub assigned: StrMap,
}

impl<'a> Executioner<'a> {
    /// What the executioner has gathered so far, as plain values.
    pub closed spec fn engine(&self) -> EngineV {
        EngineV {
            state: self.state_map.map().map_values(|s: String| s@),
            offsets: self.pos_map.map(),
            poison: self.poison_set.map().dom(),
            diagnostics: self.diagnostics@,
            edits: self.edits@.map_values(|e: TextEdit| edit_out(e)),
            history: self.session.history(),
            reassignment: self.config.reassignment,
            assigned: self.assigned.map().dom(),
            replies: self.session.replies(),
        }
    }

    /// Well-formedness of the executioner's tables.
    pub closed spec fn wf(&self) -> bool {
        &&& self.workspace.wf()
        &&& self.state_map.wf()
        &&& self.pos_map.wf()
        &&& self.poison_set.wf()
        &&& self.assigned.wf()
        &&& self.session.wf()
    }

    /// An executioner with nothing gathered yet, on a fresh fend context.
    pub fn new(workspace: &'a Workspace, config: &'a Config, text: &'a str) -> (e: Self)
        requires
            workspace.wf(),
        ensures
            e.wf(),
            e.workspace == workspace,
            e.config == config,
            e.text == text,
            e.engine() == engine_start(config.reassignment, Seq::empty()),
    {
        let e = Executioner {
            workspace,
            config,
            text,
            session: FendSession::new(),
            state_map: IdMap::new(),
            pos_map: IdMap::new(),
            poison_set: IdMap::new(),
            diagnostics: Vec::new(),
            edits: Vec::new(),
            assigned: StrMap::new(),
        };
        assert(e.engine().state =~= Map::<i32, Seq<char>>::empty());
        assert(e.engine().poison =~= Set::<i32>::empty());
        assert(e.engine().edits =~= Seq::<EditOut>::empty());
        assert(e.engine().assigned =~= Set::<Seq<char>>::empty());
        assert(e.engine().replies =~= Seq::<Option<Seq<char>>>::empty());
        e
    }

    /// The fend text that stands for `id`.
    fn expr_for(&self, id: i32) -> (r: Option<String>)
        requires
            self.wf(),
        ensures
            opt_view(r) == expr_of(self.workspace@, self.engine(), id),
    {
        if let Some(s) = self.state_map.get(id) {
            return Some(s.clone());
        }
        match self.workspace.atoms.get(id) {
            Some(Atom::Variable(v)) => Some(v.clone()),
            Some(Atom::Constant(v)) => Some(v.clone()),
            Some(Atom::Function(v)) => Some(v.clone()),
            Some(Atom::Value(v)) => Some(v.clone()),
            _ => None,
        }
    }

    /// The fend text of an instruction, if the engine evaluates it.
    fn build_expr(&self, op: OpCode, args: &Vec<i32>) -> (r: Option<String>)
        requires
            self.wf(),
        ensures
            opt_view(r) == build_text(self.workspace@, self.engine(), op, args@),
    {
        if args.len() != 2 {
            return None;
        }
        let l = self.expr_for(args[0]);
        let r = self.expr_for(args[1]);
        match (l, r) {
            (Some(l), Some(r)) => match op {
                OpCode::Call => {
                    let s = join(&l, &Vec::new(), &r);
                    assert(s@ =~= paren(l@) + paren(r@));
                    Some(s)
                },
                OpCode::Fend(f) => match infix_chars(f) {
                    Some(t) => Some(join(&l, &t, &r)),
                    None => None,
                },
                _ => None,
            },
            _ => None,
        }
    }

    /// The span from the leftmost to the rightmost operand of an instruction at `off`.
    fn instruction_span(&self, args: &Vec<i32>, off: u32) -> (s: Span)
        requires
            self.wf(),
            self.text@.len() <= u32::MAX,
        ensures
            s == instr_span(self.text@, self.engine().offsets, args@, off),
    {
        let mut lo = off;
        let mut hi = off;
        let mut k: usize = 0;
        while k < args.len()
            invariant
                self.wf(),
                k <= args@.len(),
                (lo, hi) == span_bounds(self.engine().offsets, args@.take(k as int), off),
            decreases args@.len() - k,
        {
            proof {
                assert(args@.take(k + 1).drop_last() =~= args@.take(k as int));
                assert(args@.take(k + 1).last() == args@[k as int]);
            }
            if let Some(p) = self.pos_map.get(args[k]) {
                if *p < lo {
                    lo = *p;
                }
                if *p > hi {
                    hi = *p;
                }
            }
            k = k + 1;
        }
        proof {
            assert(args@.take(args@.len() as int) =~= args@);
        }
        Span { start: self.workspace.get_position(lo, self.text), end: self.workspace.get_position(hi, self.text) }
    }

    /// Marks `id` as poisoned.
    fn poison(&mut self, id: i32)
        requires
            old(self).wf(),
        ensures
            final(self).wf(),
            final(self).engine() == (EngineV { poison: old(self).engine().poison.insert(id), ..old(self).engine() }),
            final(self).workspace == old(self).workspace,
            final(self).text == old(self).text,
            final(self).config == old(self).config,
    {
        self.poison_set.insert(id, true);
        assert(self.engine().poison =~= old(self).engine().poison.insert(id));
    }

    /// Records the fend text of a computed id.
    fn remember(&mut self, id: i32, e: String)
        requires
            old(self).wf(),
        ensures
            final(self).wf(),
            final(self).engine() == (EngineV { state: old(self).engine().state.insert(id, e@), ..old(self).engine() }),
            final(self).workspace == old(self).workspace,
            final(self).text == old(self).text,
            final(self).config == old(self).config,
    {
        self.state_map.insert(id, e);
        assert(self.engine().state =~= old(self).engine().state.insert(id, e@));
    }

    /// Evaluates `input` in the executioner's fend session.
    fn evaluate(&mut self, input: &String) -> (r: Option<String>)
        requires
            old(self).wf(),
        ensures
            final(self).wf(),
            final(self).engine() == (EngineV {
                history: old(self).engine().history.push(input@),
                replies: old(self).engine().replies.push(opt_view(r)),
                ..old(self).engine()
            }),
            reply(given(old(self).engine(), final(self).engine().replies)) == opt_view(r),
            final(self).workspace == old(self).workspace,
            final(self).text == old(self).text,
            final(self).config == old(self).config,
    {
        self.session.eval(input.as_str())
    }

    /// Settles a query on fend's `answer`: fills it in one byte past `off`, or poisons `id`.
    pub fn settle_query(&mut self, id: i32, off: u32, answer: Option<String>)
        requires
            old(self).wf(),
            old(self).text@.len() <= u32::MAX,
            off < u32::MAX,
        ensures
            final(self).wf(),
            final(self).engine() == query_settled(old(self).text@, old(self).engine(), id, off, opt_view(answer)),
            final(self).workspace == old(self).workspace,
            final(self).text == old(self).text,
            final(self).config == old(self).config,
    {
        let ghost st = self.engine();
        match answer {
            Some(res) => {
                let pos = self.workspace.get_position(off + 1, self.text);
                let mut t: Vec<char> = vec![' '];
                append_chars(&mut t, &chars_of(res.as_str()));
                let new_text = string_from_chars(&t);
                assert(new_text@ =~= seq![' '] + res@);
                let edit = TextEdit { span: Span { start: pos, end: pos }, new_text, value: Some(res) };
                let ghost before = self.edits@;
                self.edits.push(edit);
                assert(self.engine().edits =~= st.edits.push(edit_out(edit))) by {
                    assert(self.edits@ == before.push(edit));
                }
            },
            None => {
                self.poison(id);
            },
        }
    }

    /// Settles an assignment to `name` on fend's `answer`: records `name` as assigned, or
    /// poisons `id` when there is no answer.
    pub fn settle_assignment(&mut self, id: i32, name: &str, answer: Option<String>)
        requires
            old(self).wf(),
        ensures
            final(self).wf(),
            final(self).engine() == assignment_settled(old(self).engine(), id, name@, opt_view(answer)),
            final(self).workspace == old(self).workspace,
            final(self).text == old(self).text,
            final(self).config == old(self).config,
    {
        if answer.is_none() {
            self.poison(id);
        } else {
            self.assigned.insert(name, 1);
            assert(self.engine().assigned =~= old(self).engine().assigned.insert(name@));
        }
    }

    /// Assigns the fend text `r` to the variable `name`, as the configured reassignment
    /// behaviour says; a reassignment is reported over `span`.
    fn assign(&mut self, id: i32, name: &String, r: String, span: Span)
        requires
            old(self).wf(),
        ensures
            final(self).wf(),
            final(self).engine() == assignment(given(old(self).engine(), final(self).engine().replies), id, name@, r@, span),
            replies_extend(old(self).engine().replies, final(self).engine().replies),
            final(self).workspace == old(self).workspace,
            final(self).text == old(self).text,
            final(self).config == old(self).config,
    {
        let again = self.assigned.contains_key(name.as_str());
        let rb = self.config.reassignment;
        if again && rb == ReassignmentBehavior::Error {
            self.poison(id);
            self.diagnostics.push(Diagnostic { code: DiagnosticCode::Reassignment, span });
            return;
        }
        if again && rb == ReassignmentBehavior::Warn {
            self.diagnostics.push(Diagnostic { code: DiagnosticCode::Reassignment, span });
        }
        let mut t: Vec<char> = chars_of(name.as_str());
        append_chars(&mut t, &vec![' ', '=', ' ', '(']);
        append_chars(&mut t, &chars_of(r.as_str()));
        t.push(')');
        let e = string_from_chars(&t);
        assert(e@ =~= name@ + seq![' ', '=', ' '] + paren(r@));
        let answer = self.evaluate(&e);
        self.settle_assignment(id, name.as_str(), answer);
    }

    /// Settles an assertion on fend's `answer`: unless it is `true`, poisons `id` and
    /// reports the assertion over `span`.
    pub fn settle_assertion(&mut self, id: i32, span: Span, answer: Option<String>)
        requires
            old(self).wf(),
        ensures
            final(self).wf(),
            final(self).engine() == assertion_settled(old(self).engine(), id, span, opt_view(answer)),
            final(self).workspace == old(self).workspace,
            final(self).text == old(self).text,
            final(self).config == old(self).config,
    {
        let holds = match &answer {
            Some(s) => is_true(s),
            None => false,
        };
        if !holds {
            self.poison(id);
            self.diagnostics.push(Diagnostic { code: DiagnosticCode::MalformedExpression, span });
        }
    }

    /// Settles an instruction on fend's `answer`: remembers its fend text `e`, or poisons
    /// `id` and reports it over `span`.
    pub fn settle_instruction(&mut self, id: i32, e: String, span: Span, answer: Option<String>)
        requires
            old(self).wf(),
        ensures
            final(self).wf(),
            final(self).engine() == instruction_settled(old(self).engine(), id, e@, span, opt_view(answer)),
            final(self).workspace == old(self).workspace,
            final(self).text == old(self).text,
            final(self).config == old(self).config,
    {
        if answer.is_some() {
            self.remember(id, e);
        } else {
            self.poison(id);
            self.diagnostics.push(Diagnostic { code: DiagnosticCode::MalformedExpression, span });
        }
    }

    /// Resolves a line's final `=`: a query, an assignment or an assertion.
    fn handle_intent(&mut self, args: &Vec<i32>, id: i32, off: u32)
        requires
            old(self).wf(),
            old(self).text@.len() <= u32::MAX,
            off < u32::MAX,
        ensures
            final(self).wf(),
            final(self).engine() == intent(old(self).workspace@, old(self).text@, given(old(self).engine(), final(self).engine().replies), args@, id, off),
            replies_extend(old(self).engine().replies, final(self).engine().replies),
            final(self).workspace == old(self).workspace,
            final(self).text == old(self).text,
            final(self).config == old(self).config,
    {
        if args.len() == 1 {
            if let Some(e) = self.expr_for(args[0]) {
                let answer = self.evaluate(&e);
                self.settle_query(id, off, answer);
            }
        } else if args.len() == 2 {
            let lhs: Option<String> = match self.workspace.atoms.get(args[0]) {
                Some(Atom::Variable(v)) => Some(v.clone()),
                _ => None,
            };
            match lhs {
                Some(v) => {
                    if let Some(r) = self.expr_for(args[1]) {
                        let span = self.instruction_span(args, off);
                        self.assign(id, &v, r, span);
                    }
                },
                None => {
                    let constant = match self.workspace.atoms.get(args[0]) {
                        Some(Atom::Constant(_)) => true,
                        _ => false,
                    };
                    if constant {
                        let span = self.instruction_span(args, off);
                        self.poison(id);
                        self.diagnostics.push(Diagnostic { code: DiagnosticCode::ConstantReassignment, span });
                        return;
                    }
                    let l = self.expr_for(args[0]);
                    let r = self.expr_for(args[1]);
                    if let (Some(l), Some(r)) = (l, r) {
                        let e = join(&l, &vec![' ', '=', '=', ' '], &r);
                        let span = self.instruction_span(args, off);
                        let answer = self.evaluate(&e);
                        self.settle_assertion(id, span, answer);
                    }
                },
            }
        }
    }

    /// Handles the `i`-th entity of a tape.
    fn run_child(&mut self, es: &Vec<Entity>, i: usize)
        requires
            old(self).wf(),
            old(self).text@.len() <= u32::MAX,
            i < es@.len(),
            es@[i as int].offset < u32::MAX,
        ensures
            final(self).wf(),
            final(self).engine() == child_step(old(self).workspace@, old(self).text@, given(old(self).engine(), final(self).engine().replies), es@, i as int),
            replies_extend(old(self).engine().replies, final(self).engine().replies),
            final(self).workspace == old(self).workspace,
            final(self).text == old(self).text,
            final(self).config == old(self).config,
    {
        let child = es[i];
        if self.poison_set.contains_key(child.id) {
            return;
        }
        let ws: &'a Workspace = self.workspace;
        match ws.atoms.get(child.id) {
            Some(Atom::Value(v)) => {
                self.remember(child.id, v.clone());
            },
            Some(Atom::Instruction { op, args }) => {
                let mut k: usize = 0;
                let mut hit = false;
                while k < args.len()
                    invariant
                        self.wf(),
                        k <= args@.len(),
                        hit == exists|j: int| 0 <= j < k && self.engine().poison.contains(#[trigger] args@[j]),
                    decreases args@.len() - k,
                {
                    if self.poison_set.contains_key(args[k]) {
                        hit = true;
                    }
                    k = k + 1;
                }
                if hit {
                    self.poison(child.id);
                    return;
                }
                if i == es.len() - 1 && *op == OpCode::Fend(FendOp::Equals) {
                    self.handle_intent(args, child.id, child.offset);
                    return;
                }
                match self.build_expr(*op, args) {
                    Some(e) => {
                        let span = self.instruction_span(args, child.offset);
                        let answer = self.evaluate(&e);
                        self.settle_instruction(child.id, e, span, answer);
                    },
                    None => {
                        self.poison(child.id);
                    },
                }
            },
            _ => {},
        }
    }

    /// Runs one line of the root.
    fn run_line(&mut self, e: Entity)
        requires
            old(self).wf(),
            old(self).text@.len() <= u32::MAX,
            offsets_fit(old(self).workspace@),
        ensures
            final(self).wf(),
            final(self).engine() == line_step(old(self).workspace@, old(self).text@, given(old(self).engine(), final(self).engine().replies), e),
            replies_extend(old(self).engine().replies, final(self).engine().replies),
            final(self).workspace == old(self).workspace,
            final(self).text == old(self).text,
            final(self).config == old(self).config,
    {
        let ws: &'a Workspace = self.workspace;
        let cid = match ws.atoms.get(e.id) {
            Some(Atom::Container(c)) => *c,
            _ => return,
        };
        let c = match ws.containers.get(cid) {
            Some(c) => c,
            None => return,
        };
        let es = &c.contents;
        let ghost st = self.engine();
        let mut k: usize = 0;
        while k < es.len()
            invariant
                self.wf(),
                self.workspace == ws,
                self.text == old(self).text,
                self.config == old(self).config,
                k <= es@.len(),
                self.engine() == (EngineV { offsets: record_offsets(st.offsets, es@.take(k as int)), ..st }),
            decreases es@.len() - k,
        {
            proof {
                assert(es@.take(k + 1).drop_last() =~= es@.take(k as int));
                assert(es@.take(k + 1).last() == es@[k as int]);
            }
            self.pos_map.insert(es[k].id, es[k].offset);
            k = k + 1;
        }
        proof {
            assert(es@.take(es@.len() as int) =~= es@);
        }
        let ghost st1 = self.engine();
        let mut poisoned = c.corrupted;
        let mut j: usize = 0;
        while j < es.len()
            invariant
                self.wf(),
                self.workspace == ws,
                self.text == old(self).text,
                self.config == old(self).config,
                j <= es@.len(),
                poisoned == (c.corrupted || exists|q: int| 0 <= q < j && ws@.atoms.contains_key(#[trigger] es@[q].id)
                    && ws@.atoms[es@[q].id] is Poison),
            decreases es@.len() - j,
        {
            if let Some(Atom::Poison) = ws.atoms.get(es[j].id) {
                poisoned = true;
            }
            j = j + 1;
        }
        if poisoned {
            proof {
                assert(es@.take(0).map_values(|x: Entity| x.id) =~= Seq::<i32>::empty());
                assert(ids_of(es@.take(0)) =~= Set::<i32>::empty());
                assert(st1.poison + ids_of(es@.take(0)) =~= st1.poison);
            }
            let mut q: usize = 0;
            while q < es.len()
                invariant
                    self.wf(),
                    self.workspace == ws,
                    self.text == old(self).text,
                    self.config == old(self).config,
                    q <= es@.len(),
                    self.engine() == (EngineV { poison: st1.poison + ids_of(es@.take(q as int)), ..st1 }),
                decreases es@.len() - q,
            {
                proof {
                    assert(es@.take(q + 1) =~= es@.take(q as int).push(es@[q as int]));
                    lemma_ids_of_push(es@.take(q as int), es@[q as int]);
                    assert(st1.poison + ids_of(es@.take(q + 1)) =~= (st1.poison + ids_of(es@.take(q as int))).insert(es@[q as int].id));
                }
                self.poison(es[q].id);
                q = q + 1;
            }
            proof {
                assert(es@.take(es@.len() as int) =~= es@);
            }
            return;
        }
        let mut i: usize = 0;
        while i < es.len()
            invariant
                self.wf(),
                self.workspace == ws,
                self.text == old(self).text,
                self.config == old(self).config,
                self.text@.len() <= u32::MAX,
                offsets_fit(ws@),
                ws@.containers.contains_key(cid),
                ws@.containers[cid].contents == es@,
                i <= es@.len(),
                self.engine() == tape_run(ws@, self.text@, given(st1, self.engine().replies), es@, i as int),
                replies_extend(st1.replies, self.engine().replies),
            decreases es@.len() - i,
        {
            proof {
                assert(ws@.containers[cid].contents[i as int] == es@[i as int]);
            }
            let ghost cur = self.engine();
            self.run_child(es, i);
            proof {
                let nr = self.engine().replies;
                lemma_tape_stable(ws@, self.text@, given(st1, cur.replies), es@, i as int, nr);
                assert(given(given(st1, cur.replies), nr) == given(st1, nr));
            }
            i = i + 1;
        }
    }

    /// Runs every line of the root and returns the diagnostics and edits gathered.
    pub fn execute(&mut self) -> (r: EngineResult)
        requires
            old(self).wf(),
            old(self).text@.len() <= u32::MAX,
            offsets_fit(old(self).workspace@),
        ensures
            final(self).wf(),
            final(self).workspace == old(self).workspace,
            final(self).text == old(self).text,
            final(self).config == old(self).config,
            final(self).engine() == spec_execute(old(self).workspace@, old(self).text@, given(old(self).engine(), final(self).engine().replies)),
            replies_extend(old(self).engine().replies, final(self).engine().replies),
            final(self).engine().history.len() == final(self).engine().replies.len(),
            old(self).workspace@.containers.contains_key(0) ==> {
                &&& r.diagnostics@ == final(self).engine().diagnostics
                &&& r.edits@.map_values(|e: TextEdit| edit_out(e)) == final(self).engine().edits
            },
            !old(self).workspace@.containers.contains_key(0) ==> r.diagnostics@.len() == 0 && r.edits@.len() == 0,
    {
        let ws: &'a Workspace = self.workspace;
        let root = match ws.containers.get(0) {
            Some(r) => r,
            None => return EngineResult::default(),
        };
        let ghost st0 = self.engine();
        let mut k: usize = 0;
        while k < root.contents.len()
            invariant
                self.wf(),
                self.workspace == ws,
                self.text == old(self).text,
                self.config == old(self).config,
                self.text@.len() <= u32::MAX,
                offsets_fit(ws@),
                k <= root.contents@.len(),
                self.engine() == lines_run(ws@, self.text@, given(st0, self.engine().replies), root.contents@, k as int),
                replies_extend(st0.replies, self.engine().replies),
            decreases root.contents@.len() - k,
        {
            let ghost cur = self.engine();
            self.run_line(root.contents[k]);
            proof {
                let nr = self.engine().replies;
                lemma_lines_stable(ws@, self.text@, given(st0, cur.replies), root.contents@, k as int, nr);
                assert(given(given(st0, cur.replies), nr) == given(st0, nr));
            }
            k = k + 1;
        }
        let mut diagnostics: Vec<Diagnostic> = Vec::new();
        let mut d: usize = 0;
        while d < self.diagnostics.len()
            invariant
                d <= self.diagnostics@.len(),
                diagnostics@ == self.diagnostics@.take(d as int),
            decreases self.diagnostics@.len() - d,
        {
            diagnostics.push(self.diagnostics[d]);
            d = d + 1;
            assert(diagnostics@ =~= self.diagnostics@.take(d as int));
        }
        assert(diagnostics@ =~= self.diagnostics@);
        let mut edits: Vec<TextEdit> = Vec::new();
        let mut q: usize = 0;
        while q < self.edits.len()
            invariant
                q <= self.edits@.len(),
                edits@.map_values(|e: TextEdit| edit_out(e)) == self.edits@.take(q as int).map_values(|e: TextEdit| edit_out(e)),
            decreases self.edits@.len() - q,
        {
            let ed = self.edits[q].duplicate();
            let ghost before = edits@;
            edits.push(ed);
            q = q + 1;
            proof {
                let f = |e: TextEdit| edit_out(e);
                assert(edits@ == before.push(ed));
                assert(edit_out(ed) == edit_out(self.edits@[q - 1]));
                assert(self.edits@.take(q as int) =~= self.edits@.take(q - 1).push(self.edits@[q - 1]));
                before.lemma_push_map_commute(f, ed);
                self.edits@.take(q - 1).lemma_push_map_commute(f, self.edits@[q - 1]);
                assert(edits@.map_values(f) =~= self.edits@.take(q as int).map_values(f));
            }
        }
        assert(self.edits@.take(q as int) =~= self.edits@);
        EngineResult { diagnostics, edits }
    }
}

// ---------------------------------------------------------------------------
// Operands in order, and fills that accumulate.
// ---------------------------------------------------------------------------

/// The text fend is asked for a binary instruction puts its operands in order: the
/// left operand's text, in parentheses, then the operator, then the right operand's;
/// a call puts the function before its argument. So `a - b` asks for `(a) - (b)`.
pub proof fn lemma_operands_in_order(ws: WorkspaceV, st: EngineV, op: OpCode, x: i32, y: i32)
    requires
        expr_of(ws, st, x) is Some,
        expr_of(ws, st, y) is Some,
    ensures
        ({
            let l = expr_of(ws, st, x)->Some_0;
            let r = expr_of(ws, st, y)->Some_0;
            &&& op == OpCode::Fend(FendOp::Sub) ==> build_text(ws, st, op, seq![x, y])
                == Some(seq!['('] + l + seq![')', ' ', '-', ' ', '('] + r + seq![')'])
            &&& op == OpCode::Fend(FendOp::Add) ==> build_text(ws, st, op, seq![x, y])
                == Some(seq!['('] + l + seq![')', ' ', '+', ' ', '('] + r + seq![')'])
            &&& op == OpCode::Fend(FendOp::Mul) ==> build_text(ws, st, op, seq![x, y])
                == Some(seq!['('] + l + seq![')', ' ', '*', ' ', '('] + r + seq![')'])
            &&& op == OpCode::Fend(FendOp::Div) ==> build_text(ws, st, op, seq![x, y])
                == Some(seq!['('] + l + seq![')', ' ', '/', ' ', '('] + r + seq![')'])
            &&& op == OpCode::Fend(FendOp::Pow) ==> build_text(ws, st, op, seq![x, y])
                == Some(seq!['('] + l + seq![')', ' ', '^', ' ', '('] + r + seq![')'])
            &&& op == OpCode::Call ==> build_text(ws, st, op, seq![x, y])
                == Some(seq!['('] + l + seq![')', '('] + r + seq![')'])
            &&& build_text(ws, st, op, seq![x, y]) matches Some(t) ==> {
                &&& t.take(l.len() + 2int) == seq!['('] + l + seq![')']
                &&& t.skip(t.len() - (r.len() + 2)) == seq!['('] + r + seq![')']
            }
        }),
{
    let l = expr_of(ws, st, x)->Some_0;
    let r = expr_of(ws, st, y)->Some_0;
    let a = seq![x, y];
    assert(a.len() == 2 && a[0] == x && a[1] == y);
    if let Some(t) = build_text(ws, st, op, a) {
        let pl = seq!['('] + l + seq![')'];
        let pr = seq!['('] + r + seq![')'];
        assert(paren(l) == pl);
        assert(paren(r) == pr);
        match op {
            OpCode::Call => {
                assert(t == pl + pr);
                assert(t.take(l.len() + 2int) =~= pl);
                assert(t.skip(t.len() - (r.len() + 2)) =~= pr);
            },
            OpCode::Fend(f) => {
                let m = infix(f)->Some_0;
                assert(t == pl + m + pr);
                assert(t.take(l.len() + 2int) =~= pl);
                assert(t.skip(t.len() - (r.len() + 2)) =~= pr);
            },
            _ => {},
        }
    }
    assert(paren(l) + seq![' ', '-', ' '] + paren(r) =~= seq!['('] + l + seq![')', ' ', '-', ' ', '('] + r + seq![')']);
    assert(paren(l) + seq![' ', '+', ' '] + paren(r) =~= seq!['('] + l + seq![')', ' ', '+', ' ', '('] + r + seq![')']);
    assert(paren(l) + seq![' ', '*', ' '] + paren(r) =~= seq!['('] + l + seq![')', ' ', '*', ' ', '('] + r + seq![')']);
    assert(paren(l) + seq![' ', '/', ' '] + paren(r) =~= seq!['('] + l + seq![')', ' ', '/', ' ', '('] + r + seq![')']);
    assert(paren(l) + seq![' ', '^', ' '] + paren(r) =~= seq!['('] + l + seq![')', ' ', '^', ' ', '('] + r + seq![')']);
    assert(paren(l) + paren(r) =~= seq!['('] + l + seq![')', '('] + r + seq![')']);
}

/// `b` keeps the elements of `a`, in place, and perhaps more after them.
pub open spec fn extends<T>(a: Seq<T>, b: Seq<T>) -> bool {
    a.len() <= b.len() && b.take(a.len() as int) == a
}

/// An answered query adds exactly one fill, after the `=`, and keeps every fill made
/// before it: the fills after are the fills before and the new one.
pub proof fn lemma_query_fill(ws: WorkspaceV, text: Seq<char>, st: EngineV, x: i32, id: i32, off: u32, res: Seq<char>)
    requires
        expr_of(ws, st, x) is Some,
        reply(st) == Some(res),
    ensures
        intent(ws, text, st, seq![x], id, off).edits == st.edits.push(EditOut {
            span: Span { start: spec_position(text, (off + 1) as u32), end: spec_position(text, (off + 1) as u32) },
            new_text: seq![' '] + res,
            value: Some(res),
        }),
        !intent(ws, text, st, seq![x], id, off).poison.contains(id) || st.poison.contains(id),
{
    assert(seq![x].len() == 1 && seq![x][0] == x);
}

/// A tape step keeps every fill made before it and adds at most one.
proof fn lemma_child_edits(ws: WorkspaceV, text: Seq<char>, st: EngineV, es: Seq<Entity>, i: int)
    ensures
        extends(st.edits, child_step(ws, text, st, es, i).edits),
        child_step(ws, text, st, es, i).edits.len() <= st.edits.len() + 1,
{
    let c = child_step(ws, text, st, es, i);
    assert(c.edits.take(st.edits.len() as int) =~= st.edits);
}

/// A run of a tape keeps every fill made before it.
proof fn lemma_tape_edits(ws: WorkspaceV, text: Seq<char>, st: EngineV, es: Seq<Entity>, n: int)
    ensures
        extends(st.edits, tape_run(ws, text, st, es, n).edits),
    decreases n,
{
    if 0 < n <= es.len() {
        lemma_tape_edits(ws, text, st, es, n - 1);
        let p = tape_run(ws, text, st, es, n - 1);
        lemma_child_edits(ws, text, p, es, n - 1);
        let c = tape_run(ws, text, st, es, n);
        assert(c.edits.take(st.edits.len() as int) =~= p.edits.take(st.edits.len() as int)) by {
            assert(c.edits.take(p.edits.len() as int) == p.edits);
        }
    } else {
        assert(st.edits.take(st.edits.len() as int) =~= st.edits);
    }
}

/// A line keeps every fill made before it.
proof fn lemma_line_edits(ws: WorkspaceV, text: Seq<char>, st: EngineV, e: Entity)
    ensures
        extends(st.edits, line_step(ws, text, st, e).edits),
{
    if ws.atoms.contains_key(e.id) && ws.atoms[e.id] is Container
        && ws.containers.contains_key(ws.atoms[e.id]->Container_0) {
        let c = ws.containers[ws.atoms[e.id]->Container_0];
        let st1 = EngineV { offsets: record_offsets(st.offsets, c.contents), ..st };
        lemma_tape_edits(ws, text, st1, c.contents, c.contents.len() as int);
    } else {
        assert(st.edits.take(st.edits.len() as int) =~= st.edits);
    }
    if ws.atoms.contains_key(e.id) && ws.atoms[e.id] is Container
        && ws.containers.contains_key(ws.atoms[e.id]->Container_0) {
        assert(st.edits.take(st.edits.len() as int) =~= st.edits);
    }
}

/// The first `n` lines keep every fill made before them.
proof fn lemma_lines_edits(ws: WorkspaceV, text: Seq<char>, st: EngineV, root: Seq<Entity>, n: int)
    ensures
        extends(st.edits, lines_run(ws, text, st, root, n).edits),
    decreases n,
{
    if 0 < n <= root.len() {
        lemma_lines_edits(ws, text, st, root, n - 1);
        let p = lines_run(ws, text, st, root, n - 1);
        lemma_line_edits(ws, text, p, root[n - 1]);
        let c = lines_run(ws, text, st, root, n);
        assert(c.edits.take(st.edits.len() as int) =~= p.edits.take(st.edits.len() as int)) by {
            assert(c.edits.take(p.edits.len() as int) == p.edits);
        }
    } else {
        assert(st.edits.take(st.edits.len() as int) =~= st.edits);
    }
}

/// Fills accumulate: running the lines never drops or changes a fill already made, so
/// every answered query of every line leaves its fill in the result.
pub proof fn lemma_fills_accumulate(ws: WorkspaceV, text: Seq<char>, st: EngineV)
    ensures
        extends(st.edits, spec_execute(ws, text, st).edits),
{
    if ws.containers.contains_key(0) {
        let root = ws.containers[0].contents;
        lemma_lines_edits(ws, text, st, root, root.len() as int);
    } else {
        assert(st.edits.take(st.edits.len() as int) =~= st.edits);
    }
}

// ---------------------------------------------------------------------------
// fend's replies are read in order, one per evaluated text.
// ---------------------------------------------------------------------------

/// A tape step keeps the replies and adds at most one evaluated text.
proof fn lemma_child_grows(ws: WorkspaceV, text: Seq<char>, st: EngineV, es: Seq<Entity>, i: int)
    ensures
        child_step(ws, text, st, es, i).replies == st.replies,
        st.history.len() <= child_step(ws, text, st, es, i).history.len() <= st.history.len() + 1,
{
}

/// A tape step reads fend's reply only at the position of the text it evaluates: with
/// more replies behind those it reads, it does the same.
proof fn lemma_child_stable(ws: WorkspaceV, text: Seq<char>, st: EngineV, es: Seq<Entity>, i: int, r2: Seq<Option<Seq<char>>>)
    requires
        replies_extend(st.replies, r2),
        child_step(ws, text, st, es, i).history.len() <= st.replies.len(),
    ensures
        child_step(ws, text, given(st, r2), es, i) == given(child_step(ws, text, st, es, i), r2),
{
    if st.history.len() < st.replies.len() {
        assert(reply(given(st, r2)) == reply(st));
    }
}

/// A run of a tape keeps the replies and never shortens the evaluated texts.
proof fn lemma_tape_grows(ws: WorkspaceV, text: Seq<char>, st: EngineV, es: Seq<Entity>, n: int)
    ensures
        tape_run(ws, text, st, es, n).replies == st.replies,
        st.history.len() <= tape_run(ws, text, st, es, n).history.len(),
    decreases n,
{
    if 0 < n <= es.len() {
        lemma_tape_grows(ws, text, st, es, n - 1);
        lemma_child_grows(ws, text, tape_run(ws, text, st, es, n - 1), es, n - 1);
    }
}

/// A run of a tape with more replies behind those it reads does the same.
proof fn lemma_tape_stable(ws: WorkspaceV, text: Seq<char>, st: EngineV, es: Seq<Entity>, n: int, r2: Seq<Option<Seq<char>>>)
    requires
        replies_extend(st.replies, r2),
        tape_run(ws, text, st, es, n).history.len() <= st.replies.len(),
    ensures
        tape_run(ws, text, given(st, r2), es, n) == given(tape_run(ws, text, st, es, n), r2),
    decreases n,
{
    if 0 < n <= es.len() {
        let p = tape_run(ws, text, st, es, n - 1);
        lemma_tape_grows(ws, text, st, es, n - 1);
        lemma_child_grows(ws, text, p, es, n - 1);
        lemma_tape_stable(ws, text, st, es, n - 1, r2);
        lemma_child_stable(ws, text, p, es, n - 1, r2);
    }
}

/// A line keeps the replies and never shortens the evaluated texts.
proof fn lemma_line_grows(ws: WorkspaceV, text: Seq<char>, st: EngineV, e: Entity)
    ensures
        line_step(ws, text, st, e).replies == st.replies,
        st.history.len() <= line_step(ws, text, st, e).history.len(),
{
    if ws.atoms.contains_key(e.id) && ws.atoms[e.id] is Container
        && ws.containers.contains_key(ws.atoms[e.id]->Container_0) {
        let c = ws.containers[ws.atoms[e.id]->Container_0];
        let st1 = EngineV { offsets: record_offsets(st.offsets, c.contents), ..st };
        lemma_tape_grows(ws, text, st1, c.contents, c.contents.len() as int);
    }
}

/// A line run with more replies behind those it reads does the same.
proof fn lemma_line_stable(ws: WorkspaceV, text: Seq<char>, st: EngineV, e: Entity, r2: Seq<Option<Seq<char>>>)
    requires
        replies_extend(st.replies, r2),
        line_step(ws, text, st, e).history.len() <= st.replies.len(),
    ensures
        line_step(ws, text, given(st, r2), e) == given(line_step(ws, text, st, e), r2),
{
    if ws.atoms.contains_key(e.id) && ws.atoms[e.id] is Container
        && ws.containers.contains_key(ws.atoms[e.id]->Container_0) {
        let c = ws.containers[ws.atoms[e.id]->Container_0];
        let st1 = EngineV { offsets: record_offsets(st.offsets, c.contents), ..st };
        assert(EngineV { offsets: record_offsets(st.offsets, c.contents), ..given(st, r2) } == given(st1, r2));
        if !(c.corrupted || line_poisoned(ws, c.contents)) {
            lemma_tape_stable(ws, text, st1, c.contents, c.contents.len() as int, r2);
        }
    }
}

/// The lines keep the replies and never shorten the evaluated texts.
proof fn lemma_lines_grows(ws: WorkspaceV, text: Seq<char>, st: EngineV, root: Seq<Entity>, n: int)
    ensures
        lines_run(ws, text, st, root, n).replies == st.replies,
        st.history.len() <= lines_run(ws, text, st, root, n).history.len(),
    decreases n,
{
    if 0 < n <= root.len() {
        lemma_lines_grows(ws, text, st, root, n - 1);
        lemma_line_grows(ws, text, lines_run(ws, text, st, root, n - 1), root[n - 1]);
    }
}

/// Running the lines with more replies behind those they read does the same.
proof fn lemma_lines_stable(ws: WorkspaceV, text: Seq<char>, st: EngineV, root: Seq<Entity>, n: int, r2: Seq<Option<Seq<char>>>)
    requires
        replies_extend(st.replies, r2),
        lines_run(ws, text, st, root, n).history.len() <= st.replies.len(),
    ensures
        lines_run(ws, text, given(st, r2), root, n) == given(lines_run(ws, text, st, root, n), r2),
    decreases n,
{
    if 0 < n <= root.len() {
        let p = lines_run(ws, text, st, root, n - 1);
        lemma_lines_grows(ws, text, st, root, n - 1);
        lemma_line_grows(ws, text, p, root[n - 1]);
        lemma_lines_stable(ws, text, st, root, n - 1, r2);
        lemma_line_stable(ws, text, p, root[n - 1], r2);
    }
}

// ---------------------------------------------------------------------------
// Poison stays where it belongs.
// ---------------------------------------------------------------------------

/// The tape of the line that root entity `e` stands for (nothing if it stands for none).
pub open spec fn line_tape(ws: WorkspaceV, e: Entity) -> Seq<Entity> {
    if ws.atoms.contains_key(e.id) && ws.atoms[e.id] is Container
        && ws.containers.contains_key(ws.atoms[e.id]->Container_0) {
        ws.containers[ws.atoms[e.id]->Container_0].contents
    } else {
        Seq::empty()
    }
}

/// Two sets of poison marks agree on every id that tape entity `e` refers to: the
/// entity itself and, for an instruction, its operands.
pub open spec fn marks_agree(ws: WorkspaceV, p1: Set<i32>, p2: Set<i32>, e: Entity) -> bool {
    &&& p1.contains(e.id) == p2.contains(e.id)
    &&& ws.atoms.contains_key(e.id) && ws.atoms[e.id] is Instruction ==> forall|k: int|
        0 <= k < ws.atoms[e.id]->args.len()
            ==> p1.contains(#[trigger] ws.atoms[e.id]->args[k]) == p2.contains(ws.atoms[e.id]->args[k])
}

/// Two offset tables agree at `x`.
pub open spec fn same_at(o1: Map<i32, u32>, o2: Map<i32, u32>, x: i32) -> bool {
    &&& o1.contains_key(x) == o2.contains_key(x)
    &&& o1.contains_key(x) ==> o1[x] == o2[x]
}

/// Two offset tables agree on the operands of tape entity `e`, if it is an instruction.
pub open spec fn offs_agree(ws: WorkspaceV, o1: Map<i32, u32>, o2: Map<i32, u32>, e: Entity) -> bool {
    ws.atoms.contains_key(e.id) && ws.atoms[e.id] is Instruction ==> forall|k: int|
        0 <= k < ws.atoms[e.id]->args.len() ==> same_at(o1, o2, #[trigger] ws.atoms[e.id]->args[k])
}

/// Offset tables that agree on the operands give the same span bounds.
proof fn lemma_span_agree(o1: Map<i32, u32>, o2: Map<i32, u32>, args: Seq<i32>, off: u32)
    requires
        forall|k: int| 0 <= k < args.len() ==> same_at(o1, o2, #[trigger] args[k]),
    ensures
        span_bounds(o1, args, off) == span_bounds(o2, args, off),
    decreases args.len(),
{
    if args.len() > 0 {
        assert forall|k: int| 0 <= k < args.drop_last().len() implies same_at(o1, o2, #[trigger] args.drop_last()[k]) by {
            assert(args.drop_last()[k] == args[k]);
        }
        lemma_span_agree(o1, o2, args.drop_last(), off);
        assert(same_at(o1, o2, args[args.len() - 1]));
    }
}

/// The `i`-th entity of a list is among its ids.
proof fn lemma_in_ids_of(es: Seq<Entity>, i: int)
    requires
        0 <= i < es.len(),
    ensures
        ids_of(es).contains(es[i].id),
{
    let f = |x: Entity| x.id;
    assert(es.map_values(f)[i] == es[i].id);
    assert(es.map_values(f).contains(es[i].id));
}

/// One tape step from two states that differ only in poison marks and offsets, and agree
/// on the marks and offsets of what the step refers to, does the same and marks the same
/// id, if any.
proof fn lemma_child_isolated(ws: WorkspaceV, text: Seq<char>, s1: EngineV, s2: EngineV, es: Seq<Entity>, i: int)
    requires
        0 <= i < es.len(),
        s1 == (EngineV { poison: s1.poison, offsets: s1.offsets, ..s2 }),
        marks_agree(ws, s1.poison, s2.poison, es[i]),
        offs_agree(ws, s1.offsets, s2.offsets, es[i]),
    ensures
        child_step(ws, text, s1, es, i) == (EngineV {
            poison: child_step(ws, text, s1, es, i).poison,
            offsets: child_step(ws, text, s1, es, i).offsets,
            ..child_step(ws, text, s2, es, i)
        }),
        child_step(ws, text, s1, es, i).offsets == s1.offsets,
        child_step(ws, text, s2, es, i).offsets == s2.offsets,
        child_step(ws, text, s1, es, i).poison.difference(s1.poison) == child_step(ws, text, s2, es, i).poison.difference(s2.poison),
        child_step(ws, text, s1, es, i).poison.difference(s1.poison).subset_of(set![es[i].id]),
        s1.poison.subset_of(child_step(ws, text, s1, es, i).poison),
        s2.poison.subset_of(child_step(ws, text, s2, es, i).poison),
{
    let child = es[i];
    let c1 = child_step(ws, text, s1, es, i);
    let c2 = child_step(ws, text, s2, es, i);
    if !s1.poison.contains(child.id) && ws.atoms.contains_key(child.id) {
        if let AtomV::Instruction { op, args } = ws.atoms[child.id] {
            lemma_span_agree(s1.offsets, s2.offsets, args, child.offset);
            assert(args_poisoned(s1, args) == args_poisoned(s2, args)) by {
                if args_poisoned(s1, args) {
                    let k = choose|k: int| 0 <= k < args.len() && s1.poison.contains(#[trigger] args[k]);
                    assert(s2.poison.contains(args[k]));
                }
                if args_poisoned(s2, args) {
                    let k = choose|k: int| 0 <= k < args.len() && s2.poison.contains(#[trigger] args[k]);
                    assert(s1.poison.contains(args[k]));
                }
            }
        }
    }
    assert(c1.poison.difference(s1.poison) =~= c2.poison.difference(s2.poison));
    assert(c1.poison.difference(s1.poison).subset_of(set![child.id]));
}

/// A run of a tape from two states that differ only in poison marks and offsets, and
/// agree on the marks and offsets of everything the tape refers to, does the same and
/// marks the same ids, all of them on the tape.
proof fn lemma_tape_isolated(ws: WorkspaceV, text: Seq<char>, st1: EngineV, st2: EngineV, es: Seq<Entity>, n: int)
    requires
        st1 == (EngineV { poison: st1.poison, offsets: st1.offsets, ..st2 }),
        forall|i: int| 0 <= i < es.len() ==> marks_agree(ws, st1.poison, st2.poison, #[trigger] es[i]),
        forall|i: int| 0 <= i < es.len() ==> offs_agree(ws, st1.offsets, st2.offsets, #[trigger] es[i]),
    ensures
        tape_run(ws, text, st1, es, n) == (EngineV {
            poison: tape_run(ws, text, st1, es, n).poison,
            offsets: tape_run(ws, text, st1, es, n).offsets,
            ..tape_run(ws, text, st2, es, n)
        }),
        tape_run(ws, text, st1, es, n).offsets == st1.offsets,
        tape_run(ws, text, st2, es, n).offsets == st2.offsets,
        tape_run(ws, text, st1, es, n).poison.difference(st1.poison) == tape_run(ws, text, st2, es, n).poison.difference(st2.poison),
        tape_run(ws, text, st1, es, n).poison.difference(st1.poison).subset_of(ids_of(es)),
        st1.poison.subset_of(tape_run(ws, text, st1, es, n).poison),
        st2.poison.subset_of(tape_run(ws, text, st2, es, n).poison),
    decreases n,
{
    if n > 0 && n <= es.len() {
        lemma_tape_isolated(ws, text, st1, st2, es, n - 1);
        let p1 = tape_run(ws, text, st1, es, n - 1);
        let p2 = tape_run(ws, text, st2, es, n - 1);
        let d = p1.poison.difference(st1.poison);
        let e = es[n - 1];
        assert(marks_agree(ws, st1.poison, st2.poison, e));
        assert forall|x: i32| st1.poison.contains(x) == st2.poison.contains(x)
            implies p1.poison.contains(x) == p2.poison.contains(x) by {
            assert(p1.poison.contains(x) == (st1.poison.contains(x) || d.contains(x)));
            assert(p2.poison.contains(x) == (st2.poison.contains(x) || d.contains(x)));
        }
        assert(marks_agree(ws, p1.poison, p2.poison, e));
        assert(offs_agree(ws, st1.offsets, st2.offsets, e));
        lemma_child_isolated(ws, text, p1, p2, es, n - 1);
        let c1 = tape_run(ws, text, st1, es, n);
        let c2 = tape_run(ws, text, st2, es, n);
        lemma_in_ids_of(es, n - 1);
        assert(c1.poison.difference(st1.poison) =~= d.union(c1.poison.difference(p1.poison)));
        assert(c2.poison.difference(st2.poison) =~= p2.poison.difference(st2.poison).union(c2.poison.difference(p2.poison)));
    }
}

/// A line marks poison only on its own tape and never clears a mark; and what it does
/// depends on no poison mark but those of the ids its tape refers to. So two states that
/// differ only in the marks of other ids (a poisoned line elsewhere, say) run the line
/// alike: the same results, diagnostics, fills and fend inputs, and the same new marks.
pub proof fn lemma_line_isolated(ws: WorkspaceV, text: Seq<char>, st1: EngineV, st2: EngineV, e: Entity)
    requires
        st1 == (EngineV { poison: st1.poison, ..st2 }),
        forall|i: int| 0 <= i < line_tape(ws, e).len() ==> marks_agree(ws, st1.poison, st2.poison, #[trigger] line_tape(ws, e)[i]),
    ensures
        line_step(ws, text, st1, e) == (EngineV { poison: line_step(ws, text, st1, e).poison, ..line_step(ws, text, st2, e) }),
        line_step(ws, text, st1, e).poison.difference(st1.poison) == line_step(ws, text, st2, e).poison.difference(st2.poison),
        line_step(ws, text, st1, e).poison.difference(st1.poison).subset_of(ids_of(line_tape(ws, e))),
        st1.poison.subset_of(line_step(ws, text, st1, e).poison),
{
    if ws.atoms.contains_key(e.id) && ws.atoms[e.id] is Container
        && ws.containers.contains_key(ws.atoms[e.id]->Container_0) {
        let c = ws.containers[ws.atoms[e.id]->Container_0];
        let es = c.contents;
        let t1 = EngineV { offsets: record_offsets(st1.offsets, es), ..st1 };
        let t2 = EngineV { offsets: record_offsets(st2.offsets, es), ..st2 };
        assert(line_tape(ws, e) == es);
        if c.corrupted || line_poisoned(ws, es) {
            let l1 = line_step(ws, text, st1, e);
            let l2 = line_step(ws, text, st2, e);
            assert forall|x: i32| #[trigger] ids_of(es).contains(x) implies st1.poison.contains(x) == st2.poison.contains(x) by {
                let f = |y: Entity| y.id;
                assert(es.map_values(f).contains(x));
                let j = es.map_values(f).index_of(x);
                assert(es.map_values(f)[j] == x);
                assert(es[j].id == x);
                assert(marks_agree(ws, st1.poison, st2.poison, es[j]));
            }
            assert(l1.poison.difference(st1.poison) =~= l2.poison.difference(st2.poison));
        } else {
            lemma_tape_isolated(ws, text, t1, t2, es, es.len() as int);
        }
    }
}

/// Whether tape entity `e` refers to `x`: it is `x`, or an instruction with `x` among
/// its operands.
pub open spec fn refers_to(ws: WorkspaceV, e: Entity, x: i32) -> bool {
    ||| e.id == x
    ||| ws.atoms.contains_key(e.id) && ws.atoms[e.id] is Instruction && ws.atoms[e.id]->args.contains(x)
}

/// No entity of the tape of line `a` refers to an id on the tape of line `b`.
pub open spec fn lines_apart(ws: WorkspaceV, a: Entity, b: Entity) -> bool {
    forall|i: int, x: i32|
        #![trigger line_tape(ws, a)[i], ids_of(line_tape(ws, b)).contains(x)]
        0 <= i < line_tape(ws, a).len() && ids_of(line_tape(ws, b)).contains(x) ==> !refers_to(ws, line_tape(ws, a)[i], x)
}

/// Root entity `e` stands for a line that is corrupted or holds poison.
pub open spec fn line_dead(ws: WorkspaceV, e: Entity) -> bool {
    &&& ws.atoms.contains_key(e.id)
    &&& ws.atoms[e.id] is Container
    &&& ws.containers.contains_key(ws.atoms[e.id]->Container_0)
    &&& ws.containers[ws.atoms[e.id]->Container_0].corrupted
        || line_poisoned(ws, ws.containers[ws.atoms[e.id]->Container_0].contents)
}

/// Two poison sets agree on `x`.
pub open spec fn same_mark(p1: Set<i32>, p2: Set<i32>, x: i32) -> bool {
    p1.contains(x) == p2.contains(x)
}

/// Two executioner states that differ at most in the poison marks and offsets of the ids
/// in `d`.
pub open spec fn runs_alike(a: EngineV, b: EngineV, d: Set<i32>) -> bool {
    &&& a == (EngineV { poison: a.poison, offsets: a.offsets, ..b })
    &&& forall|x: i32| !d.contains(x) ==> #[trigger] same_mark(a.poison, b.poison, x)
    &&& forall|x: i32| !d.contains(x) ==> #[trigger] same_at(a.offsets, b.offsets, x)
}

/// Recording the same entities over two tables keeps them agreeing where they agreed.
proof fn lemma_record_same(o1: Map<i32, u32>, o2: Map<i32, u32>, es: Seq<Entity>, x: i32)
    requires
        same_at(o1, o2, x),
    ensures
        same_at(record_offsets(o1, es), record_offsets(o2, es), x),
    decreases es.len(),
{
    if es.len() > 0 {
        lemma_record_same(o1, o2, es.drop_last(), x);
    }
}

/// Recording entities changes a table only at their ids.
proof fn lemma_record_outside(o: Map<i32, u32>, es: Seq<Entity>, x: i32)
    requires
        !ids_of(es).contains(x),
    ensures
        same_at(record_offsets(o, es), o, x),
    decreases es.len(),
{
    if es.len() > 0 {
        let f = |y: Entity| y.id;
        assert(!ids_of(es.drop_last()).contains(x)) by {
            if ids_of(es.drop_last()).contains(x) {
                let j = es.drop_last().map_values(f).index_of(x);
                assert(es.drop_last()[j] == es[j]);
                lemma_in_ids_of(es, j);
            }
        }
        lemma_in_ids_of(es, es.len() - 1);
        lemma_record_outside(o, es.drop_last(), x);
    }
}

/// A line run from two alike states, where the line refers to no id of `d`, leaves them
/// alike.
proof fn lemma_line_alike(ws: WorkspaceV, text: Seq<char>, a: EngineV, b: EngineV, d: Set<i32>, e: Entity)
    requires
        runs_alike(a, b, d),
        forall|i: int, x: i32|
            #![trigger line_tape(ws, e)[i], d.contains(x)]
            0 <= i < line_tape(ws, e).len() && d.contains(x) ==> !refers_to(ws, line_tape(ws, e)[i], x),
    ensures
        runs_alike(line_step(ws, text, a, e), line_step(ws, text, b, e), d),
{
    if ws.atoms.contains_key(e.id) && ws.atoms[e.id] is Container
        && ws.containers.contains_key(ws.atoms[e.id]->Container_0) {
        let c = ws.containers[ws.atoms[e.id]->Container_0];
        let es = c.contents;
        assert(line_tape(ws, e) == es);
        let t1 = EngineV { offsets: record_offsets(a.offsets, es), ..a };
        let t2 = EngineV { offsets: record_offsets(b.offsets, es), ..b };
        assert forall|x: i32| !d.contains(x) implies #[trigger] same_at(t1.offsets, t2.offsets, x) by {
            assert(same_at(a.offsets, b.offsets, x));
            lemma_record_same(a.offsets, b.offsets, es, x);
        }
        let l1 = line_step(ws, text, a, e);
        let l2 = line_step(ws, text, b, e);
        if c.corrupted || line_poisoned(ws, es) {
            assert forall|x: i32| !d.contains(x) implies #[trigger] same_mark(l1.poison, l2.poison, x) by {
                assert(same_mark(a.poison, b.poison, x));
            }
        } else {
            assert forall|i: int| 0 <= i < es.len() implies marks_agree(ws, t1.poison, t2.poison, #[trigger] es[i]) by {
                let en = es[i];
                assert(!d.contains(en.id)) by {
                    if d.contains(en.id) {
                        assert(!refers_to(ws, line_tape(ws, e)[i], en.id));
                    }
                }
                assert(same_mark(a.poison, b.poison, en.id));
                if ws.atoms.contains_key(en.id) && ws.atoms[en.id] is Instruction {
                    let args = ws.atoms[en.id]->args;
                    assert forall|k: int| 0 <= k < args.len() implies t1.poison.contains(#[trigger] args[k]) == t2.poison.contains(args[k]) by {
                        assert(args.contains(args[k]));
                        if d.contains(args[k]) {
                            assert(!refers_to(ws, line_tape(ws, e)[i], args[k]));
                        }
                        assert(same_mark(a.poison, b.poison, args[k]));
                    }
                }
            }
            assert forall|i: int| 0 <= i < es.len() implies offs_agree(ws, t1.offsets, t2.offsets, #[trigger] es[i]) by {
                let en = es[i];
                if ws.atoms.contains_key(en.id) && ws.atoms[en.id] is Instruction {
                    let args = ws.atoms[en.id]->args;
                    assert forall|k: int| 0 <= k < args.len() implies same_at(t1.offsets, t2.offsets, #[trigger] args[k]) by {
                        assert(args.contains(args[k]));
                        if d.contains(args[k]) {
                            assert(!refers_to(ws, line_tape(ws, e)[i], args[k]));
                        }
                    }
                }
            }
            lemma_tape_isolated(ws, text, t1, t2, es, es.len() as int);
            assert forall|x: i32| !d.contains(x) implies #[trigger] same_mark(l1.poison, l2.poison, x) by {
                assert(same_mark(a.poison, b.poison, x));
                assert(l1.poison.contains(x) == (t1.poison.contains(x) || l1.poison.difference(t1.poison).contains(x)));
                assert(l2.poison.contains(x) == (t2.poison.contains(x) || l2.poison.difference(t2.poison).contains(x)));
            }
        }
    }
}

/// The runs of `root` and of `root` without line `j` agree up to line `j`.
proof fn lemma_lines_prefix(ws: WorkspaceV, text: Seq<char>, st: EngineV, root: Seq<Entity>, j: int, n: int)
    requires
        0 <= j < root.len(),
        0 <= n <= j,
    ensures
        lines_run(ws, text, st, root, n) == lines_run(ws, text, st, root.remove(j), n),
    decreases n,
{
    if n > 0 {
        lemma_lines_prefix(ws, text, st, root, j, n - 1);
        assert(root.remove(j)[n - 1] == root[n - 1]);
    }
}

/// From line `j` on, the run of `root` and that of `root` without the dead line `j` stay
/// alike outside the ids of line `j`.
proof fn lemma_lines_after(ws: WorkspaceV, text: Seq<char>, st: EngineV, root: Seq<Entity>, j: int, n: int)
    requires
        0 <= j < n <= root.len(),
        line_dead(ws, root[j]),
        forall|i: int| 0 <= i < root.len() && i != j ==> lines_apart(ws, #[trigger] root[i], root[j]),
    ensures
        runs_alike(
            lines_run(ws, text, st, root, n),
            lines_run(ws, text, st, root.remove(j), n - 1),
            ids_of(line_tape(ws, root[j])),
        ),
    decreases n,
{
    let d = ids_of(line_tape(ws, root[j]));
    if n == j + 1 {
        lemma_lines_prefix(ws, text, st, root, j, j);
        let s = lines_run(ws, text, st, root, j);
        let r = lines_run(ws, text, st, root, n);
        let es = line_tape(ws, root[j]);
        assert(r == line_step(ws, text, s, root[j]));
        assert forall|x: i32| !d.contains(x) implies #[trigger] same_at(r.offsets, s.offsets, x) by {
            lemma_record_outside(s.offsets, es, x);
        }
        assert forall|x: i32| !d.contains(x) implies #[trigger] same_mark(r.poison, s.poison, x) by {}
    } else {
        lemma_lines_after(ws, text, st, root, j, n - 1);
        let rest = root.remove(j);
        assert(rest[n - 2] == root[n - 1]);
        assert(lines_apart(ws, root[n - 1], root[j]));
        lemma_line_alike(
            ws,
            text,
            lines_run(ws, text, st, root, n - 1),
            lines_run(ws, text, st, rest, n - 2),
            d,
            root[n - 1],
        );
    }
}

/// A bad line costs the other lines nothing: where no other line refers to an id on the
/// tape of a corrupted or poisoned line, running the root with that line and without it
/// gives the same results, diagnostics, fills, fend inputs and assignments; the poison
/// marks and offsets differ only on the ids of that line.
pub proof fn lemma_dead_line_removable(ws: WorkspaceV, text: Seq<char>, st: EngineV, root: Seq<Entity>, j: int)
    requires
        0 <= j < root.len(),
        line_dead(ws, root[j]),
        forall|i: int| 0 <= i < root.len() && i != j ==> lines_apart(ws, #[trigger] root[i], root[j]),
    ensures
        runs_alike(
            lines_run(ws, text, st, root, root.len() as int),
            lines_run(ws, text, st, root.remove(j), root.len() - 1),
            ids_of(line_tape(ws, root[j])),
        ),
{
    lemma_lines_after(ws, text, st, root, j, root.len() as int);
}

/// Running a line never clears a poison mark and sets new ones only on the line's own
/// tape.
pub proof fn lemma_line_marks_own(ws: WorkspaceV, text: Seq<char>, st: EngineV, e: Entity)
    ensures
        st.poison.subset_of(line_step(ws, text, st, e).poison),
        line_step(ws, text, st, e).poison.difference(st.poison).subset_of(ids_of(line_tape(ws, e))),
{
    lemma_line_isolated(ws, text, st, st, e);
}

} // verus!
