//! Stage 0: the structural sweep that turns text into containers of interned ids.

use vstd::prelude::*;
use crate::builtins::{
    punct_op_table, punct_ops, spec_get_operator, spec_is_illegal, is_illegal_char,
    operator_of_chars, string_from_chars, CONSTANTS_START_ID, FUNCTIONS_START_ID,
};
use crate::maps::StrMap;
use crate::model::{
    Atom, AtomV, Container, ContainerV, Diagnostic, DiagnosticCode, Entity, Position, Span,
    Workspace, WorkspaceV, spec_intern, atoms_below, child_of, nested_entity,
};
use crate::shape::{intern_injective, interned_plain, offsets_within, ops_interned, raw_fits, raw_interned, ws_shape};
use crate::text::{append_chars, byte_index, byte_len, char_utf8_len, chars_of, utf8_len, lemma_byte_index_mono};

verus! {

// ---------------------------------------------------------------------------
// The sweep as a mathematical state machine.
// ---------------------------------------------------------------------------

/// The state of the sweep between two characters.
pub struct SweepState {
    pub ws: WorkspaceV,
    /// Open containers; the root is at the bottom.
    pub stack: Seq<i32>,
    /// The symbol being accumulated.
    pub sym: Seq<char>,
    /// The byte offset at which the accumulated symbol starts.
    pub sym_start: u32,
    pub line: int,
    pub col: int,
    pub in_comment: bool,
    pub comment_start: Position,
    pub skip_next: bool,
    pub skip_bytes: int,
}

/// The meaning that the built-in symbol `k` with id `v` gets.
pub open spec fn builtin_atom(k: Seq<char>, v: i32) -> AtomV {
    if v <= CONSTANTS_START_ID {
        AtomV::Constant(k)
    } else if v <= FUNCTIONS_START_ID {
        AtomV::Function(k)
    } else if v <= -1 {
        match spec_get_operator(k) {
            Some(op) => AtomV::Operator(op),
            None => AtomV::Raw(k),
        }
    } else {
        AtomV::Raw(k)
    }
}

/// Seeds the workspace with the first `n` built-in symbols, in walking order.
pub open spec fn seed_builtins(ws: WorkspaceV, b: Seq<(Seq<char>, i32)>, n: int) -> WorkspaceV
    decreases n,
{
    if n <= 0 || n > b.len() {
        ws
    } else {
        let prev = seed_builtins(ws, b, n - 1);
        let (k, v) = b[n - 1];
        WorkspaceV {
            intern: prev.intern.insert(k, v),
            atoms: prev.atoms.insert(v, builtin_atom(k, v)),
            ..prev
        }
    }
}

/// Seeds the workspace with the first `n` configured constants; a name that is
/// already interned is left alone.
pub open spec fn seed_constants(ws: WorkspaceV, c: Seq<Seq<char>>, n: int) -> WorkspaceV
    decreases n,
{
    if n <= 0 || n > c.len() {
        ws
    } else {
        let prev = seed_constants(ws, c, n - 1);
        let k = c[n - 1];
        if prev.intern.contains_key(k) {
            prev
        } else {
            WorkspaceV {
                next_id: prev.next_id + 1,
                intern: prev.intern.insert(k, prev.next_id as i32),
                atoms: prev.atoms.insert(prev.next_id as i32, AtomV::Constant(k)),
                ..prev
            }
        }
    }
}

/// The empty root container.
pub open spec fn empty_container(start: Position) -> ContainerV {
    ContainerV { contents: Seq::empty(), corrupted: false, start_pos: start }
}

/// The workspace before the first character: built-ins, constants and the root.
pub open spec fn initial_workspace(b: Seq<(Seq<char>, i32)>, c: Seq<Seq<char>>) -> WorkspaceV {
    let empty = WorkspaceV {
        next_id: 1,
        atoms: Map::empty(),
        intern: Map::empty(),
        containers: Map::empty(),
        container_order: Seq::empty(),
        comments: Seq::empty(),
        diagnostics: Seq::empty(),
    };
    let seeded = seed_constants(seed_builtins(empty, b, b.len() as int), c, c.len() as int);
    WorkspaceV {
        containers: seeded.containers.insert(0, empty_container(Position { offset: 0, line: 0, col: 0 })),
        container_order: seeded.container_order.push(0),
        ..seeded
    }
}

/// The state before the first character.
pub open spec fn initial_state(b: Seq<(Seq<char>, i32)>, c: Seq<Seq<char>>) -> SweepState {
    SweepState {
        ws: initial_workspace(b, c),
        stack: seq![0i32],
        sym: Seq::empty(),
        sym_start: 0,
        line: 0,
        col: 0,
        in_comment: false,
        comment_start: Position { offset: 0, line: 0, col: 0 },
        skip_next: false,
        skip_bytes: 0,
    }
}

/// Appends `e` to the container on top of the stack.
pub open spec fn spec_push_entity(ws: WorkspaceV, stack: Seq<i32>, e: Entity) -> WorkspaceV {
    if stack.len() > 0 && ws.containers.contains_key(stack.last()) {
        let c = ws.containers[stack.last()];
        WorkspaceV {
            containers: ws.containers.insert(stack.last(), ContainerV { contents: c.contents.push(e), ..c }),
            ..ws
        }
    } else {
        ws
    }
}

/// Interns the accumulated symbol (if any) and appends it to the current container.
pub open spec fn spec_flush(st: SweepState) -> SweepState {
    if st.sym.len() == 0 {
        st
    } else {
        let (id, ws) = spec_intern(st.ws, st.sym);
        SweepState {
            ws: spec_push_entity(ws, st.stack, Entity { id, offset: st.sym_start }),
            sym: Seq::empty(),
            ..st
        }
    }
}

/// Mints a new empty container (and its atom) starting at `start`.
pub open spec fn spec_create_container(ws: WorkspaceV, start: Position) -> WorkspaceV {
    WorkspaceV {
        next_id: ws.next_id + 1,
        containers: ws.containers.insert(ws.next_id as i32, empty_container(start)),
        container_order: if ws.containers.contains_key(ws.next_id as i32) {
            ws.container_order
        } else {
            ws.container_order.push(ws.next_id as i32)
        },
        atoms: ws.atoms.insert(ws.next_id as i32, AtomV::Container(ws.next_id as i32)),
        ..ws
    }
}

/// Moves line and column past `c`.
pub open spec fn advance(st: SweepState, c: char) -> SweepState {
    if c == '\n' {
        SweepState { line: st.line + 1, col: 0, ..st }
    } else {
        SweepState { col: st.col + 1, ..st }
    }
}

/// Whether `op` is a prefix of `rest`.
pub open spec fn is_prefix(op: Seq<char>, rest: Seq<char>) -> bool {
    op.len() <= rest.len() && rest.take(op.len() as int) == op
}

/// The index of the first punctuation operator, from index `k` on, that `rest` starts with.
pub open spec fn first_punct_from(rest: Seq<char>, k: int) -> Option<int>
    decreases punct_ops().len() - k,
{
    if k < 0 || k >= punct_ops().len() {
        None
    } else if is_prefix(punct_ops()[k], rest) {
        Some(k)
    } else {
        first_punct_from(rest, k + 1)
    }
}

/// Whether `c` is an ASCII digit.
pub open spec fn is_digit(c: char) -> bool {
    48 <= (c as u32) <= 57
}

/// Whether a `+` or `-` after the symbol `sym` continues a number's exponent:
/// `sym` ends in `e`/`E` after digits, dots and underscores, with at least one digit.
pub open spec fn spec_exponent_sign(sym: Seq<char>) -> bool {
    sym.len() >= 1 && (sym.last() == 'e' || sym.last() == 'E') && {
        let p = sym.drop_last();
        &&& forall|j: int| 0 <= j < p.len() ==> is_digit(#[trigger] p[j]) || p[j] == '.' || p[j] == '_'
        &&& exists|j: int| 0 <= j < p.len() && is_digit(#[trigger] p[j])
    }
}

/// `first_punct_from` finds `target` when no operator before it matches.
proof fn lemma_punct_skip(rest: Seq<char>, k: int, target: int)
    requires
        0 <= k <= target < punct_ops().len(),
        forall|j: int| k <= j < target ==> !is_prefix(#[trigger] punct_ops()[j], rest),
        is_prefix(punct_ops()[target], rest),
    ensures
        first_punct_from(rest, k) == Some(target),
    decreases target - k,
{
    if k < target {
        lemma_punct_skip(rest, k + 1, target);
    }
}

/// A sign not followed by `=` is read as the one-character operator `+` or `-`.
proof fn lemma_sign_punct(rest: Seq<char>, c: char)
    requires
        rest.len() >= 1,
        rest[0] == c,
        c == '+' || c == '-',
        rest.len() < 2 || rest[1] != '=',
    ensures
        first_punct_from(rest, 0) matches Some(k) && punct_ops()[k] == seq![c],
{
    let ops = punct_ops();
    let target: int = if c == '+' { 10 } else { 11 };
    assert(ops[10] == seq!['+'] && ops[11] == seq!['-']);
    assert forall|j: int| 0 <= j < target implies !is_prefix(#[trigger] ops[j], rest) by {
        let op = ops[j];
        assert(op.len() >= 1);
        if op.len() <= rest.len() && rest.take(op.len() as int) == op {
            assert(rest.take(op.len() as int)[0] == rest[0]);
            if op.len() >= 2 {
                assert(rest.take(op.len() as int)[1] == rest[1]);
            }
            assert(false);
        }
    }
    assert(rest.take(1) =~= seq![c]);
    lemma_punct_skip(rest, 0, target);
}

/// A `+` or `-` right after a number's exponent marker belongs to the number: when the
/// symbol being read is digits (with dots and underscores) followed by `e` or `E`, a
/// following sign (not part of `+=` or `-=`) is appended to the symbol, and nothing
/// else changes. So `1e-5` stays one symbol, whichever case the `e` is in.
pub proof fn lemma_exponent_sign_joins(st: SweepState, text: Seq<char>, i: int, p: Seq<char>, x: char)
    requires
        0 <= i < text.len(),
        text[i] == '+' || text[i] == '-',
        i + 1 >= text.len() || text[i + 1] != '=',
        x == 'e' || x == 'E',
        st.sym == p.push(x),
        forall|j: int| 0 <= j < p.len() ==> is_digit(#[trigger] p[j]) || p[j] == '.' || p[j] == '_',
        exists|j: int| 0 <= j < p.len() && is_digit(#[trigger] p[j]),
    ensures
        structural(st, text, i) == (SweepState { sym: st.sym.push(text[i]), skip_bytes: 0, ..st }),
{
    let c = text[i];
    let rest = text.skip(i);
    assert(rest[0] == c);
    if rest.len() >= 2 {
        assert(rest[1] == text[i + 1]);
    }
    lemma_sign_punct(rest, c);
    assert(st.sym.drop_last() =~= p);
    assert(spec_exponent_sign(st.sym));
    let k = first_punct_from(rest, 0)->Some_0;
    assert(st.sym + punct_ops()[k] =~= st.sym.push(c));
}

/// The position of the `i`-th character.
pub open spec fn pos_at(st: SweepState, text: Seq<char>, i: int) -> Position {
    Position { offset: byte_index(text, i) as u32, line: st.line as u32, col: st.col as u32 }
}

/// The structural handling of character `i` (after comments), before line/column upkeep.
pub open spec fn structural(st: SweepState, text: Seq<char>, i: int) -> SweepState {
    let c = text[i];
    let cur = pos_at(st, text, i);
    if c == '(' {
        let f = spec_flush(st);
        let cid = f.ws.next_id as i32;
        let ws1 = spec_create_container(f.ws, cur);
        let ws2 = spec_push_entity(ws1, f.stack, Entity { id: cid, offset: cur.offset });
        SweepState { ws: ws2, stack: f.stack.push(cid), ..f }
    } else if c == ')' {
        let f = spec_flush(st);
        if f.stack.len() > 1 {
            SweepState { stack: f.stack.drop_last(), ..f }
        } else {
            SweepState {
                ws: WorkspaceV {
                    diagnostics: f.ws.diagnostics.push(
                        Diagnostic { code: DiagnosticCode::StrayCloser, span: Span { start: cur, end: cur } },
                    ),
                    ..f.ws
                },
                ..f
            }
        }
    } else if c == ' ' || c == '\t' {
        spec_flush(st)
    } else if spec_is_illegal(c) {
        let f = spec_flush(st);
        SweepState {
            ws: WorkspaceV {
                diagnostics: f.ws.diagnostics.push(
                    Diagnostic { code: DiagnosticCode::IllegalCharacter, span: Span { start: cur, end: cur } },
                ),
                ..f.ws
            },
            ..f
        }
    } else {
        match first_punct_from(text.skip(i), 0) {
            Some(k) => {
                let op = punct_ops()[k];
                if (op == seq!['+'] || op == seq!['-']) && spec_exponent_sign(st.sym) {
                    SweepState { sym: st.sym + op, skip_bytes: op.len() - 1, ..st }
                } else {
                    let f = spec_flush(st);
                    let (op_id, ws1) = spec_intern(f.ws, op);
                    SweepState {
                        ws: spec_push_entity(ws1, f.stack, Entity { id: op_id, offset: cur.offset }),
                        skip_bytes: op.len() - 1,
                        ..f
                    }
                }
            },
            None => {
                if st.sym.len() == 0 {
                    SweepState { sym: seq![c], sym_start: cur.offset, ..st }
                } else {
                    SweepState { sym: st.sym.push(c), ..st }
                }
            },
        }
    }
}

/// One step of the sweep: the handling of character `i` of `text`.
pub open spec fn sweep_step(st: SweepState, text: Seq<char>, i: int) -> SweepState {
    let c = text[i];
    let cur = pos_at(st, text, i);
    if st.skip_bytes > 0 {
        advance(
            SweepState {
                skip_bytes: if st.skip_bytes >= utf8_len(c) { st.skip_bytes - utf8_len(c) } else { 0 },
                ..st
            },
            c,
        )
    } else if st.skip_next {
        SweepState { skip_next: false, ..st }
    } else if st.in_comment && c != '\n' {
        SweepState { col: st.col + 1, ..st }
    } else {
        let st1 = if st.in_comment {
            SweepState {
                ws: WorkspaceV {
                    comments: st.ws.comments.push(Span { start: st.comment_start, end: cur }),
                    ..st.ws
                },
                in_comment: false,
                ..st
            }
        } else {
            st
        };
        let slash_slash = c == '/' && i + 1 < text.len() && text[i + 1] == '/';
        if c == '#' || slash_slash {
            let f = spec_flush(st1);
            SweepState {
                in_comment: true,
                comment_start: cur,
                skip_next: slash_slash,
                col: if slash_slash { f.col + 2 } else { f.col + 1 },
                ..f
            }
        } else {
            advance(structural(st1, text, i), c)
        }
    }
}

/// The state after the first `n` characters of `text`.
pub open spec fn sweep_prefix(init: SweepState, text: Seq<char>, n: int) -> SweepState
    decreases n,
{
    if n <= 0 || n > text.len() {
        init
    } else {
        sweep_step(sweep_prefix(init, text, n - 1), text, n - 1)
    }
}

/// Marks each container left open (above the root) as corrupted, innermost first,
/// reporting each as unclosed up to `eof`.
pub open spec fn close_open(ws: WorkspaceV, stack: Seq<i32>, eof: Position) -> WorkspaceV
    decreases stack.len(),
{
    if stack.len() <= 1 {
        ws
    } else {
        let cid = stack.last();
        let (ws1, start) = if ws.containers.contains_key(cid) {
            let c = ws.containers[cid];
            (
                WorkspaceV { containers: ws.containers.insert(cid, ContainerV { corrupted: true, ..c }), ..ws },
                c.start_pos,
            )
        } else {
            (ws, Position { offset: 0, line: 0, col: 0 })
        };
        let ws2 = WorkspaceV {
            diagnostics: ws1.diagnostics.push(
                Diagnostic { code: DiagnosticCode::UnclosedContainer, span: Span { start: start, end: eof } },
            ),
            ..ws1
        };
        close_open(ws2, stack.drop_last(), eof)
    }
}

/// The end of the sweep: flush, close a trailing comment, and close open containers.
pub open spec fn finish(st: SweepState, text: Seq<char>) -> WorkspaceV {
    let f = spec_flush(st);
    let eof = Position { offset: byte_len(text) as u32, line: f.line as u32, col: f.col as u32 };
    let ws = if f.in_comment {
        WorkspaceV { comments: f.ws.comments.push(Span { start: f.comment_start, end: eof }), ..f.ws }
    } else {
        f.ws
    };
    close_open(ws, f.stack, eof)
}

/// The workspace that the sweep builds from `text`, given the built-in symbols `b`
/// (in walking order) and the configured constants `c`.
pub open spec fn spec_sweep(text: Seq<char>, b: Seq<(Seq<char>, i32)>, c: Seq<Seq<char>>) -> WorkspaceV {
    finish(sweep_prefix(initial_state(b, c), text, text.len() as int), text)
}

// ---------------------------------------------------------------------------
// The executable sweep.
// ---------------------------------------------------------------------------

struct ParserState {
    workspace: Workspace,
    stack: Vec<i32>,
    active_sym: Vec<char>,
    sym_start: u32,
    line: u32,
    col: u32,
    in_comment: bool,
    comment_start_pos: Position,
    skip_next: bool,
    skip_bytes: usize,
}

impl ParserState {
    spec fn view(&self) -> SweepState {
        SweepState {
            ws: self.workspace@,
            stack: self.stack@,
            sym: self.active_sym@,
            sym_start: self.sym_start,
            line: self.line as int,
            col: self.col as int,
            in_comment: self.in_comment,
            comment_start: self.comment_start_pos,
            skip_next: self.skip_next,
            skip_bytes: self.skip_bytes as int,
        }
    }

    fn new(workspace: Workspace) -> (st: ParserState)
        ensures
            st.view() == (SweepState {
                ws: workspace@,
                stack: Seq::empty(),
                sym: Seq::empty(),
                sym_start: 0,
                line: 0,
                col: 0,
                in_comment: false,
                comment_start: Position { offset: 0, line: 0, col: 0 },
                skip_next: false,
                skip_bytes: 0,
            }),
            st.workspace == workspace,
    {
        let st = ParserState {
            workspace,
            stack: Vec::new(),
            active_sym: Vec::new(),
            sym_start: 0,
            line: 0,
            col: 0,
            in_comment: false,
            comment_start_pos: Position { offset: 0, line: 0, col: 0 },
            skip_next: false,
            skip_bytes: 0,
        };
        assert(st.view().stack =~= Seq::<i32>::empty());
        assert(st.view().sym =~= Seq::<char>::empty());
        st
    }

    /// Allocates a new container and returns its id.
    fn create_container(&mut self, start_pos: Position) -> (id: i32)
        requires
            old(self).workspace.wf(),
            old(self).workspace.next_id < i32::MAX,
        ensures
            final(self).workspace.wf(),
            id == old(self).workspace.next_id,
            final(self).view() == (SweepState {
                ws: spec_create_container(old(self).view().ws, start_pos),
                ..old(self).view()
            }),
    {
        let id = self.workspace.next_id;
        self.workspace.next_id = self.workspace.next_id + 1;
        let c = Container { contents: Vec::new(), corrupted: false, start_pos };
        assert(c@ == empty_container(start_pos));
        self.workspace.set_container(id, c);
        self.workspace.set_atom(id, Atom::Container(id));
        id
    }

    /// Appends an entity to the container on top of the stack.
    fn push_entity(&mut self, entity: Entity)
        requires
            old(self).workspace.wf(),
        ensures
            final(self).workspace.wf(),
            final(self).view() == (SweepState {
                ws: spec_push_entity(old(self).view().ws, old(self).view().stack, entity),
                ..old(self).view()
            }),
    {
        if self.stack.len() > 0 {
            let current_id = self.stack[self.stack.len() - 1];
            if let Some(container) = self.workspace.container(current_id) {
                let mut c = container;
                c.contents.push(entity);
                self.workspace.set_container(current_id, c);
            }
        }
    }

    /// Flushes the accumulated symbol into the current container.
    fn flush_sym(&mut self)
        requires
            old(self).workspace.wf(),
            old(self).workspace.next_id < i32::MAX,
        ensures
            final(self).workspace.wf(),
            final(self).view() == spec_flush(old(self).view()),
            final(self).workspace.next_id <= old(self).workspace.next_id + 1,
    {
        if self.active_sym.len() > 0 {
            let sym = string_from_chars(&self.active_sym);
            let id = self.workspace.get_or_intern_atom(sym.as_str());
            let offset = self.sym_start;
            self.push_entity(Entity { id, offset });
            self.active_sym = Vec::new();
            assert(self.active_sym@ =~= Seq::<char>::empty());
        }
    }

    /// Moves line and column past `c`.
    fn advance(&mut self, c: char)
        requires
            old(self).line < u32::MAX,
            old(self).col < u32::MAX,
        ensures
            final(self).view() == advance(old(self).view(), c),
            final(self).workspace == old(self).workspace,
            final(self).skip_next == old(self).skip_next,
            final(self).skip_bytes == old(self).skip_bytes,
    {
        if c == '\n' {
            self.line = self.line + 1;
            self.col = 0;
        } else {
            self.col = self.col + 1;
        }
    }

    /// Handles character `i` structurally (parentheses, separators, operators, symbols).
    fn structural(&mut self, chars: &Vec<char>, i: usize, off: u32)
        requires
            old(self).workspace.wf(),
            old(self).workspace.next_id < i32::MAX - 2,
            i < chars@.len(),
            off == byte_index(chars@, i as int),
            old(self).skip_bytes == 0,
        ensures
            final(self).workspace.wf(),
            final(self).view() == structural(old(self).view(), chars@, i as int),
            final(self).workspace.next_id <= old(self).workspace.next_id + 2,
            final(self).line == old(self).line,
            final(self).col == old(self).col,
            final(self).skip_bytes <= 1,
            final(self).skip_next == old(self).skip_next,
            final(self).in_comment == old(self).in_comment,
    {
        let ghost st = self.view();
        let ghost text = chars@;
        let c = chars[i];
        let cur = Position { offset: off, line: self.line, col: self.col };
        assert(cur == pos_at(st, text, i as int));
        if c == '(' {
            self.flush_sym();
            let new_cid = self.create_container(cur);
            self.push_entity(Entity { id: new_cid, offset: off });
            self.stack.push(new_cid);
        } else if c == ')' {
            self.flush_sym();
            if self.stack.len() > 1 {
                self.stack.pop();
                assert(self.stack@ =~= spec_flush(st).stack.drop_last());
            } else {
                self.workspace.diagnostics.push(
                    Diagnostic { code: DiagnosticCode::StrayCloser, span: Span { start: cur, end: cur } },
                );
            }
        } else if c == ' ' || c == '\t' {
            self.flush_sym();
        } else if is_illegal_char(c) {
            self.flush_sym();
            self.workspace.diagnostics.push(
                Diagnostic { code: DiagnosticCode::IllegalCharacter, span: Span { start: cur, end: cur } },
            );
        } else {
            let table = punct_op_table();
            match find_punct(chars, i, &table) {
                Some(k) => {
                    let op = &table[k];
                    let is_exponent_sign = op.len() == 1 && (op[0] == '+' || op[0] == '-')
                        && exponent_sign(&self.active_sym);
                    proof {
                        assert((op@ == seq!['+'] || op@ == seq!['-']) <==> (op@.len() == 1 && (op@[0] == '+' || op@[0] == '-')));
                    }
                    if is_exponent_sign {
                        append_chars(&mut self.active_sym, op);
                        self.skip_bytes = op.len() - 1;
                    } else {
                        self.flush_sym();
                        let op_str = string_from_chars(op);
                        let op_id = self.workspace.get_or_intern_atom(op_str.as_str());
                        self.push_entity(Entity { id: op_id, offset: off });
                        self.skip_bytes = op.len() - 1;
                    }
                },
                None => {
                    if self.active_sym.len() == 0 {
                        self.sym_start = off;
                        self.active_sym.push(c);
                        assert(self.active_sym@ =~= seq![c]);
                    } else {
                        self.active_sym.push(c);
                    }
                },
            }
        }
    }

    /// Handles character `i` of the text.
    fn step(&mut self, chars: &Vec<char>, i: usize, off: u32)
        requires
            old(self).workspace.wf(),
            old(self).workspace.next_id < i32::MAX - 2,
            i < chars@.len(),
            off == byte_index(chars@, i as int),
            old(self).line < u32::MAX,
            old(self).col < u32::MAX - 2,
            old(self).skip_bytes <= 1,
        ensures
            final(self).workspace.wf(),
            final(self).view() == sweep_step(old(self).view(), chars@, i as int),
            final(self).workspace.next_id <= old(self).workspace.next_id + 2,
            final(self).line <= old(self).line + 1,
            final(self).col + (if final(self).skip_next { 0int } else { 1int })
                <= old(self).col + (if old(self).skip_next { 0int } else { 1int }) + 1,
            final(self).skip_bytes <= 1,
    {
        let ghost st = self.view();
        let ghost text = chars@;
        let c = chars[i];
        if self.skip_bytes > 0 {
            let n = char_utf8_len(c) as usize;
            if self.skip_bytes >= n {
                self.skip_bytes = self.skip_bytes - n;
            } else {
                self.skip_bytes = 0;
            }
            self.advance(c);
            return;
        }
        if self.skip_next {
            self.skip_next = false;
            return;
        }
        let cur = Position { offset: off, line: self.line, col: self.col };
        assert(cur == pos_at(st, text, i as int));
        if self.in_comment {
            if c == '\n' {
                self.workspace.comments.push(Span { start: self.comment_start_pos, end: cur });
                self.in_comment = false;
            } else {
                self.col = self.col + 1;
                return;
            }
        }
        let slash_slash = c == '/' && i < chars.len() - 1 && chars[i + 1] == '/';
        if c == '#' || slash_slash {
            self.flush_sym();
            self.in_comment = true;
            self.comment_start_pos = cur;
            if slash_slash {
                self.skip_next = true;
                self.col = self.col + 2;
            } else {
                self.col = self.col + 1;
            }
            return;
        }
        self.structural(chars, i, off);
        self.advance(c);
    }
}

/// The index of the first punctuation operator that the text starts with at `i`.
fn find_punct(chars: &Vec<char>, i: usize, table: &Vec<Vec<char>>) -> (r: Option<usize>)
    requires
        i < chars@.len(),
        table@.len() == punct_ops().len(),
        forall|j: int| 0 <= j < table@.len() ==> #[trigger] table@[j]@ == punct_ops()[j],
    ensures
        match r {
            Some(k) => first_punct_from(chars@.skip(i as int), 0) == Some(k as int) && k < table@.len(),
            None => first_punct_from(chars@.skip(i as int), 0) is None,
        },
{
    let ghost rest = chars@.skip(i as int);
    let n = chars.len();
    let mut k: usize = 0;
    while k < table.len()
        invariant
            k <= table@.len(),
            table@.len() == punct_ops().len(),
            forall|j: int| 0 <= j < table@.len() ==> #[trigger] table@[j]@ == punct_ops()[j],
            first_punct_from(rest, 0) == first_punct_from(rest, k as int),
            rest == chars@.skip(i as int),
            i < chars@.len(),
            n == chars@.len(),
        decreases table@.len() - k,
    {
        let op = &table[k];
        let mut matches = op.len() <= chars.len() - i;
        let mut j: usize = 0;
        if matches {
            while j < op.len()
                invariant
                    op@.len() <= chars@.len() - i,
                    i + op@.len() <= chars@.len(),
                    n == chars@.len(),
                    j <= op@.len(),
                    matches ==> rest.take(j as int) == op@.take(j as int),
                    !matches ==> !is_prefix(op@, rest),
                    rest == chars@.skip(i as int),
                    i < chars@.len(),
                decreases op@.len() - j,
            {
                if chars[i + j] != op[j] {
                    matches = false;
                    assert(rest.take(op@.len() as int)[j as int] != op@[j as int]);
                }
                j = j + 1;
                if matches {
                    assert(rest.take(j as int) =~= rest.take(j - 1).push(rest[j - 1]));
                    assert(op@.take(j as int) =~= op@.take(j - 1).push(op@[j - 1]));
                }
            }
            if matches {
                assert(op@.take(op@.len() as int) =~= op@);
            }
        }
        assert(matches == is_prefix(punct_ops()[k as int], rest));
        if matches {
            return Some(k);
        }
        k = k + 1;
    }
    None
}

/// Whether a `+` or `-` after `sym` continues the exponent of a number.
fn exponent_sign(sym: &Vec<char>) -> (b: bool)
    ensures
        b == spec_exponent_sign(sym@),
{
    let n = sym.len();
    if n == 0 {
        return false;
    }
    let last = sym[n - 1];
    if last != 'e' && last != 'E' {
        return false;
    }
    let ghost p = sym@.drop_last();
    let mut all_ok = true;
    let mut any_digit = false;
    let mut j: usize = 0;
    while j < n - 1
        invariant
            n == sym@.len(),
            n >= 1,
            p == sym@.drop_last(),
            j <= n - 1,
            all_ok == (forall|q: int| 0 <= q < j ==> is_digit(#[trigger] p[q]) || p[q] == '.' || p[q] == '_'),
            any_digit == (exists|q: int| 0 <= q < j && is_digit(#[trigger] p[q])),
        decreases n - 1 - j,
    {
        let ch = sym[j];
        let v = ch as u32;
        let d = 48 <= v && v <= 57;
        assert(ch == p[j as int]);
        if !(d || ch == '.' || ch == '_') {
            all_ok = false;
        }
        if d {
            any_digit = true;
        }
        j = j + 1;
    }
    all_ok && any_digit
}

/// The meaning that a built-in symbol gets from its id.
fn builtin_atom_exec(k: &String, v: i32) -> (a: Atom)
    ensures
        a@ == builtin_atom(k@, v),
{
    if v <= CONSTANTS_START_ID {
        Atom::Constant(k.clone())
    } else if v <= FUNCTIONS_START_ID {
        Atom::Function(k.clone())
    } else if v <= -1 {
        let chars = chars_of(k.as_str());
        match operator_of_chars(&chars) {
            Some(op) => Atom::Operator(op),
            None => Atom::Raw(k.clone()),
        }
    } else {
        Atom::Raw(k.clone())
    }
}

/// Sweeps `text` once, building containers of interned ids.
///
/// `builtins` maps the built-in symbols to their reserved ids; `constants` names the
/// configured constants, which get fresh ids unless already interned.
pub fn sweep(text: &str, builtins: &StrMap, constants: &[&str]) -> (ws: Workspace)
    requires
        builtins.wf(),
        byte_len(text@) < u32::MAX,
        2 * text@.len() + constants@.len() + 8 < i32::MAX,
    ensures
        ws.wf(),
        ws@ == spec_sweep(text@, builtins.entries(), constants@.map_values(|c: &str| c@)),
{
    let ghost b = builtins.entries();
    let ghost cs = constants@.map_values(|c: &str| c@);
    let ghost empty_ws = WorkspaceV {
        next_id: 1,
        atoms: Map::empty(),
        intern: Map::empty(),
        containers: Map::empty(),
        container_order: Seq::empty(),
        comments: Seq::empty(),
        diagnostics: Seq::empty(),
    };
    let mut ws = Workspace::new();
    assert(ws@ == empty_ws);

    // 1. Initialization
    let mut bi: usize = 0;
    while bi < builtins.len()
        invariant
            ws.wf(),
            builtins.wf(),
            bi <= b.len(),
            b == builtins.entries(),
            ws@ == seed_builtins(empty_ws, b, bi as int),
        decreases b.len() - bi,
    {
        let (k, v) = builtins.entry_at(bi);
        ws.intern_map.insert(k.as_str(), v);
        let a = builtin_atom_exec(k, v);
        ws.set_atom(v, a);
        bi = bi + 1;
    }
    let ghost after_builtins = ws@;
    assert(after_builtins.next_id == 1) by {
        lemma_seed_builtins_frame(empty_ws, b, b.len() as int);
    }
    let mut ci: usize = 0;
    while ci < constants.len()
        invariant
            ws.wf(),
            ci <= constants@.len(),
            cs == constants@.map_values(|c: &str| c@),
            ws@ == seed_constants(after_builtins, cs, ci as int),
            1 <= ws.next_id <= 1 + ci,
            2 * text@.len() + constants@.len() + 8 < i32::MAX,
        decreases constants@.len() - ci,
    {
        let c = constants[ci];
        if !ws.intern_map.contains_key(c) {
            let id = ws.next_id;
            ws.next_id = ws.next_id + 1;
            ws.intern_map.insert(c, id);
            ws.set_atom(id, Atom::Constant(c.to_string()));
        }
        ci = ci + 1;
    }

    // 2. Bootstrapping the root
    proof {
        lemma_seed_constants_frame(after_builtins, cs, cs.len() as int);
        lemma_seed_builtins_frame(empty_ws, b, b.len() as int);
    }
    ws.set_container(0, Container::default());
    assert(ws@ == initial_workspace(b, cs));
    let mut state = ParserState::new(ws);
    state.stack.push(0);
    assert(state.stack@ =~= seq![0i32]);
    let ghost init = initial_state(b, cs);
    assert(state.view() == init);

    // 3. The sweep loop
    let chars = chars_of(text);
    let ghost t = text@;
    let mut i: usize = 0;
    let mut off: u64 = 0;
    let ghost base = state.workspace.next_id;
    while i < chars.len()
        invariant
            chars@ == t,
            t == text@,
            byte_len(t) < u32::MAX,
            2 * t.len() + constants@.len() + 8 < i32::MAX,
            base <= 1 + constants@.len(),
            i <= t.len(),
            off == byte_index(t, i as int),
            state.workspace.wf(),
            state.view() == sweep_prefix(init, t, i as int),
            state.workspace.next_id <= base + 2 * i,
            state.line <= i,
            state.col + (if state.skip_next { 0int } else { 1int }) <= i + 1,
            state.skip_bytes <= 1,
        decreases t.len() - i,
    {
        proof {
            lemma_byte_index_mono(t, i as int, t.len() as int);
        }
        state.step(&chars, i, off as u32);
        off = off + char_utf8_len(chars[i]) as u64;
        i = i + 1;
    }
    proof {
        lemma_byte_index_mono(t, i as int, t.len() as int);
    }

    // 4. Cleanup
    state.flush_sym();
    let eof = Position { offset: off as u32, line: state.line, col: state.col };
    if state.in_comment {
        state.workspace.comments.push(Span { start: state.comment_start_pos, end: eof });
    }
    let ghost closing = state.workspace@;
    let ghost open_stack = state.stack@;
    while state.stack.len() > 1
        invariant
            state.workspace.wf(),
            close_open(state.workspace@, state.stack@, eof) == close_open(closing, open_stack, eof),
        decreases state.stack@.len(),
    {
        let ghost before = state.workspace@;
        let ghost before_stack = state.stack@;
        let cid = state.stack.pop().unwrap();
        assert(state.stack@ =~= before_stack.drop_last());
        let start_pos = match state.workspace.container(cid) {
            Some(container) => {
                let mut c = container;
                c.corrupted = true;
                let sp = c.start_pos;
                state.workspace.set_container(cid, c);
                sp
            },
            None => Position { offset: 0, line: 0, col: 0 },
        };
        state.workspace.diagnostics.push(
            Diagnostic { code: DiagnosticCode::UnclosedContainer, span: Span { start: start_pos, end: eof } },
        );
    }
    state.workspace
}

/// Seeding built-ins changes neither the id counter nor the containers.
proof fn lemma_seed_builtins_frame(ws: WorkspaceV, b: Seq<(Seq<char>, i32)>, n: int)
    ensures
        seed_builtins(ws, b, n).next_id == ws.next_id,
        seed_builtins(ws, b, n).containers == ws.containers,
        seed_builtins(ws, b, n).container_order == ws.container_order,
        seed_builtins(ws, b, n).comments == ws.comments,
        seed_builtins(ws, b, n).diagnostics == ws.diagnostics,
    decreases n,
{
    if n > 0 && n <= b.len() {
        lemma_seed_builtins_frame(ws, b, n - 1);
    }
}

/// Seeding constants leaves containers, comments and diagnostics alone.
proof fn lemma_seed_constants_frame(ws: WorkspaceV, c: Seq<Seq<char>>, n: int)
    ensures
        seed_constants(ws, c, n).containers == ws.containers,
        seed_constants(ws, c, n).container_order == ws.container_order,
        seed_constants(ws, c, n).comments == ws.comments,
        seed_constants(ws, c, n).diagnostics == ws.diagnostics,
    decreases n,
{
    if n > 0 && n <= c.len() {
        lemma_seed_constants_frame(ws, c, n - 1);
    }
}


// ---------------------------------------------------------------------------
// The shape of what the sweep builds.
// ---------------------------------------------------------------------------

/// The facts about the built-in table that the sweep relies on: negative and distinct
/// ids, distinct names, and every punctuation operator present as an operator.
pub open spec fn builtins_ok(b: Seq<(Seq<char>, i32)>) -> bool {
    &&& forall|i: int| 0 <= i < b.len() ==> (#[trigger] b[i]).1 < 0
    &&& forall|i: int, j: int| 0 <= i < b.len() && 0 <= j < b.len() && i != j ==> (#[trigger] b[i]).1 != (#[trigger] b[j]).1
    &&& forall|i: int, j: int| 0 <= i < b.len() && 0 <= j < b.len() && i != j ==> (#[trigger] b[i]).0 != (#[trigger] b[j]).0
    &&& forall|k: int| 0 <= k < punct_ops().len() ==> exists|i: int|
        0 <= i < b.len() && b[i].0 == #[trigger] punct_ops()[k] && builtin_atom(b[i].0, b[i].1) is Operator
}

/// What seeding the built-ins into empty tables gives.
proof fn lemma_seed_builtins_facts(ws: WorkspaceV, b: Seq<(Seq<char>, i32)>, n: int)
    requires
        builtins_ok(b),
        0 <= n <= b.len(),
        ws.intern == Map::<Seq<char>, i32>::empty(),
        ws.atoms == Map::<i32, AtomV>::empty(),
    ensures
        forall|s: Seq<char>| #[trigger] seed_builtins(ws, b, n).intern.contains_key(s) <==> exists|i: int| 0 <= i < n && b[i].0 == s,
        forall|i: int| 0 <= i < n ==> #[trigger] seed_builtins(ws, b, n).intern[b[i].0] == b[i].1,
        forall|x: i32| #[trigger] seed_builtins(ws, b, n).atoms.contains_key(x) <==> exists|i: int| 0 <= i < n && b[i].1 == x,
        forall|i: int| 0 <= i < n ==> #[trigger] seed_builtins(ws, b, n).atoms[b[i].1] == builtin_atom(b[i].0, b[i].1),
    decreases n,
{
    if n > 0 {
        lemma_seed_builtins_facts(ws, b, n - 1);
        let prev = seed_builtins(ws, b, n - 1);
        let cur = seed_builtins(ws, b, n);
        assert forall|s: Seq<char>| #[trigger] cur.intern.contains_key(s) <==> exists|i: int| 0 <= i < n && b[i].0 == s by {
            if cur.intern.contains_key(s) && s != b[n - 1].0 {
                assert(prev.intern.contains_key(s));
            }
            if exists|i: int| 0 <= i < n && b[i].0 == s {
                let i = choose|i: int| 0 <= i < n && b[i].0 == s;
                if i < n - 1 {
                    assert(prev.intern.contains_key(s));
                }
            }
        }
        assert forall|i: int| 0 <= i < n implies #[trigger] cur.intern[b[i].0] == b[i].1 by {
            if i < n - 1 {
                assert(b[i].0 != b[n - 1].0);
            }
        }
        assert forall|x: i32| #[trigger] cur.atoms.contains_key(x) <==> exists|i: int| 0 <= i < n && b[i].1 == x by {
            if cur.atoms.contains_key(x) && x != b[n - 1].1 {
                assert(prev.atoms.contains_key(x));
            }
            if exists|i: int| 0 <= i < n && b[i].1 == x {
                let i = choose|i: int| 0 <= i < n && b[i].1 == x;
                if i < n - 1 {
                    assert(prev.atoms.contains_key(x));
                }
            }
        }
        assert forall|i: int| 0 <= i < n implies #[trigger] cur.atoms[b[i].1] == builtin_atom(b[i].0, b[i].1) by {
            if i < n - 1 {
                assert(b[i].1 != b[n - 1].1);
            }
        }
    }
}

/// What seeding constants adds: each new name a constant atom at a fresh positive id;
/// existing names and atoms are left alone.
proof fn lemma_seed_constants_facts(ws: WorkspaceV, c: Seq<Seq<char>>, n: int)
    requires
        0 <= n <= c.len(),
        1 <= ws.next_id,
        ws.next_id + n <= i32::MAX,
        atoms_below(ws),
    ensures
        ({
            let r = seed_constants(ws, c, n);
            &&& ws.next_id <= r.next_id <= ws.next_id + n
            &&& atoms_below(r)
            &&& forall|s: Seq<char>| #[trigger] ws.intern.contains_key(s) ==> r.intern.contains_key(s) && r.intern[s] == ws.intern[s]
            &&& forall|x: i32| #[trigger] ws.atoms.contains_key(x) ==> r.atoms.contains_key(x) && r.atoms[x] == ws.atoms[x]
            &&& forall|s: Seq<char>| #[trigger] r.intern.contains_key(s) && !ws.intern.contains_key(s)
                ==> ws.next_id <= r.intern[s] < r.next_id && r.atoms.contains_key(r.intern[s]) && r.atoms[r.intern[s]] == AtomV::Constant(s)
            &&& forall|x: i32| #[trigger] r.atoms.contains_key(x) && !ws.atoms.contains_key(x) ==> ws.next_id <= x < r.next_id && r.atoms[x] is Constant
            &&& (intern_injective(ws) && (forall|s: Seq<char>| #[trigger] ws.intern.contains_key(s) ==> ws.intern[s] < ws.next_id))
                ==> intern_injective(r)
        }),
    decreases n,
{
    if n > 0 {
        lemma_seed_constants_facts(ws, c, n - 1);
        let prev = seed_constants(ws, c, n - 1);
        let r = seed_constants(ws, c, n);
        let k = c[n - 1];
        if !prev.intern.contains_key(k) {
            let id = prev.next_id as i32;
            assert(!prev.atoms.contains_key(id));
            if intern_injective(ws) && (forall|s: Seq<char>| #[trigger] ws.intern.contains_key(s) ==> ws.intern[s] < ws.next_id) {
                assert(intern_injective(prev));
                assert forall|s: Seq<char>| #[trigger] prev.intern.contains_key(s) implies prev.intern[s] < prev.next_id by {
                    if !ws.intern.contains_key(s) {
                    }
                }
                assert(intern_injective(r));
            }
            assert forall|s: Seq<char>| #[trigger] ws.intern.contains_key(s) implies r.intern.contains_key(s) && r.intern[s] == ws.intern[s] by {
                assert(prev.intern.contains_key(s));
            }
            assert forall|x: i32| #[trigger] ws.atoms.contains_key(x) implies r.atoms.contains_key(x) && r.atoms[x] == ws.atoms[x] by {
                assert(prev.atoms.contains_key(x));
            }
            assert forall|s: Seq<char>| #[trigger] r.intern.contains_key(s) && !ws.intern.contains_key(s)
                implies ws.next_id <= r.intern[s] < r.next_id && r.atoms.contains_key(r.intern[s]) && r.atoms[r.intern[s]] == AtomV::Constant(s) by {
                if s != k {
                    assert(prev.intern.contains_key(s));
                    assert(prev.atoms.contains_key(prev.intern[s]));
                }
            }
            assert forall|x: i32| #[trigger] r.atoms.contains_key(x) && !ws.atoms.contains_key(x) implies ws.next_id <= x < r.next_id && r.atoms[x] is Constant by {
                if x != id {
                    assert(prev.atoms.contains_key(x));
                }
            }
        }
    }
}

/// The built-in table of the library meets what the sweep relies on.
pub proof fn lemma_symbol_entries_ok()
    ensures
        builtins_ok(crate::builtins::spec_symbol_entries()),
{
    let b = crate::builtins::spec_symbol_entries();
    let p = punct_ops().len();
    assert(p == 21);
    assert(b.len() == 27);
    assert forall|i: int| 0 <= i < b.len() implies (#[trigger] b[i]).1 < 0 by {
        if i < p {
            assert(b[i] == (punct_ops()[i], crate::builtins::punct_id(i)));
        } else if i == p {
            assert(b[i].1 == crate::builtins::punct_id(p as int));
        } else {
            assert(b[i].1 == (FUNCTIONS_START_ID - (i - p - 1)) as i32);
        }
    }
    assert forall|i: int, j: int| 0 <= i < b.len() && 0 <= j < b.len() && i != j implies (#[trigger] b[i]).1 != (#[trigger] b[j]).1 by {
        if i <= p && j <= p {
            assert(b[i].1 == -1 - i && b[j].1 == -1 - j);
        } else if i > p && j > p {
            assert(b[i].1 == FUNCTIONS_START_ID - (i - p - 1) && b[j].1 == FUNCTIONS_START_ID - (j - p - 1));
        } else if i <= p {
            assert(b[i].1 == -1 - i && b[j].1 <= FUNCTIONS_START_ID);
        } else {
            assert(b[j].1 == -1 - j && b[i].1 <= FUNCTIONS_START_ID);
        }
    }
    crate::builtins::lemma_punct_ops_distinct();
    crate::builtins::lemma_functions_distinct_from_ops();
    assert(!punct_ops().contains(seq!['t', 'o'])) by {
        if punct_ops().contains(seq!['t', 'o']) {
            let j = choose|j: int| 0 <= j < punct_ops().len() && #[trigger] punct_ops()[j] == seq!['t', 'o'];
            assert(punct_ops()[j][0] != 't');
        }
    }
    assert forall|i: int, j: int| 0 <= i < b.len() && 0 <= j < b.len() && i != j implies (#[trigger] b[i]).0 != (#[trigger] b[j]).0 by {
        let f = crate::builtins::builtin_functions();
        if i < p && j < p {
            assert(b[i].0 == punct_ops()[i] && b[j].0 == punct_ops()[j]);
        } else if i > p && j > p {
            assert(b[i].0 == f[i - p - 1] && b[j].0 == f[j - p - 1]);
        } else if i == p || j == p {
            let o = if i == p { j } else { i };
            if o < p {
                assert(b[o].0 == punct_ops()[o]);
                assert(punct_ops().contains(punct_ops()[o]));
            } else {
                assert(b[o].0 == f[o - p - 1]);
                assert(f[o - p - 1].len() >= 3);
            }
        } else {
            let (q, r) = if i < p { (i, j) } else { (j, i) };
            assert(b[q].0 == punct_ops()[q] && b[r].0 == f[r - p - 1]);
            assert(!punct_ops().contains(f[r - p - 1]));
            assert(punct_ops().contains(punct_ops()[q]));
        }
    }
    assert forall|k: int| 0 <= k < punct_ops().len() implies exists|i: int|
        0 <= i < b.len() && b[i].0 == #[trigger] punct_ops()[k] && builtin_atom(b[i].0, b[i].1) is Operator by {
        assert(b[k] == (punct_ops()[k], crate::builtins::punct_id(k)));
        assert(spec_get_operator(punct_ops()[k]) is Some);
    }
}


/// The stack holds the root at the bottom and open containers in opening order.
pub open spec fn stack_ok(ws: WorkspaceV, stack: Seq<i32>) -> bool {
    &&& stack.len() >= 1
    &&& stack[0] == 0
    &&& forall|i: int| 0 <= i < stack.len() ==> ws.containers.contains_key(#[trigger] stack[i])
    &&& forall|i: int, j: int| 0 <= i < j < stack.len() ==> #[trigger] stack[i] < #[trigger] stack[j]
}

/// What holds of the workspace while sweeping, with `end` the byte reached so far.
pub open spec fn ws_inv(ws: WorkspaceV, end: int) -> bool {
    &&& ws_shape(ws)
    &&& intern_injective(ws)
    &&& raw_interned(ws)
    &&& interned_plain(ws)
    &&& ops_interned(ws)
    &&& raw_fits(ws, end)
    &&& offsets_within(ws, end)
}

/// The root's length, counting the pending symbol when it will land in the root.
pub open spec fn root_count(st: SweepState) -> int {
    st.ws.containers[0].contents.len() + if st.stack.len() == 1 && st.sym.len() > 0 { 1int } else { 0int }
}

/// What holds between two characters of the sweep, after `n` of them.
pub open spec fn sweep_inv(st: SweepState, text: Seq<char>, n: int) -> bool {
    &&& 0 <= n <= text.len()
    &&& byte_len(text) < u32::MAX
    &&& st.skip_bytes >= 0
    &&& ws_inv(st.ws, byte_index(text, n) as int)
    &&& stack_ok(st.ws, st.stack)
    &&& st.sym.len() > 0 ==> {
        &&& st.sym_start + byte_len(st.sym) == byte_index(text, n)
        &&& !st.in_comment
        &&& !st.skip_next
        &&& st.skip_bytes == 0
    }
    &&& root_count(st) <= n
    &&& st.ws.next_id + 2 * (text.len() - n) + 1 <= i32::MAX
    &&& !st.ws.containers[0].corrupted
    &&& entities_known(st.ws)
    &&& forall|c: i32| #[trigger] st.ws.containers.contains_key(c) ==> !st.ws.containers[c].corrupted
    &&& forall|k: int| 0 <= k < st.ws.diagnostics.len() ==> (#[trigger] st.ws.diagnostics[k]).code != DiagnosticCode::UnclosedContainer
}

/// The ids of the containers marked corrupted.
pub open spec fn corrupted_ids(ws: WorkspaceV) -> Set<i32> {
    Set::new(|c: i32| ws.containers.contains_key(c) && ws.containers[c].corrupted)
}

/// How many of `ds` report an unclosed container.
pub open spec fn unclosed_count(ds: Seq<Diagnostic>) -> nat
    decreases ds.len(),
{
    if ds.len() == 0 {
        0
    } else {
        unclosed_count(ds.drop_last()) + if ds.last().code == DiagnosticCode::UnclosedContainer { 1nat } else { 0nat }
    }
}

/// Diagnostics none of which reports an unclosed container count none.
proof fn lemma_no_unclosed(ds: Seq<Diagnostic>)
    requires
        forall|k: int| 0 <= k < ds.len() ==> (#[trigger] ds[k]).code != DiagnosticCode::UnclosedContainer,
    ensures
        unclosed_count(ds) == 0,
    decreases ds.len(),
{
    if ds.len() > 0 {
        let d = ds.drop_last();
        assert forall|k: int| 0 <= k < d.len() implies (#[trigger] d[k]).code != DiagnosticCode::UnclosedContainer by {
            assert(d[k] == ds[k]);
        }
        lemma_no_unclosed(d);
        assert(ds.last() == ds[ds.len() - 1]);
    }
}

/// Closing the containers left open marks exactly those above the root corrupted and
/// reports each once.
proof fn lemma_close_open_counts(ws: WorkspaceV, stack: Seq<i32>, eof: Position)
    requires
        stack_ok(ws, stack),
    ensures
        corrupted_ids(close_open(ws, stack, eof)) == corrupted_ids(ws).union(stack.subrange(1, stack.len() as int).to_set()),
        unclosed_count(close_open(ws, stack, eof).diagnostics) == unclosed_count(ws.diagnostics) + stack.len() - 1,
    decreases stack.len(),
{
    if stack.len() <= 1 {
        assert(stack.subrange(1, stack.len() as int).to_set() =~= Set::<i32>::empty());
        assert(corrupted_ids(ws).union(Set::<i32>::empty()) =~= corrupted_ids(ws));
    } else {
        let cid = stack.last();
        assert(stack[stack.len() - 1] == cid);
        assert(ws.containers.contains_key(cid));
        let c = ws.containers[cid];
        let ws1 = WorkspaceV { containers: ws.containers.insert(cid, ContainerV { corrupted: true, ..c }), ..ws };
        let d = Diagnostic { code: DiagnosticCode::UnclosedContainer, span: Span { start: c.start_pos, end: eof } };
        let ws2 = WorkspaceV { diagnostics: ws1.diagnostics.push(d), ..ws1 };
        assert(close_open(ws, stack, eof) == close_open(ws2, stack.drop_last(), eof));
        let t = stack.drop_last();
        assert(stack_ok(ws2, t)) by {
            assert forall|i: int| 0 <= i < t.len() implies ws2.containers.contains_key(#[trigger] t[i]) by {
                assert(t[i] == stack[i]);
            }
            assert forall|i: int, j: int| 0 <= i < j < t.len() implies #[trigger] t[i] < #[trigger] t[j] by {
                assert(t[i] == stack[i] && t[j] == stack[j]);
            }
        }
        lemma_close_open_counts(ws2, t, eof);
        assert(corrupted_ids(ws2) =~= corrupted_ids(ws).insert(cid));
        assert(ws2.diagnostics.drop_last() =~= ws.diagnostics);
        assert(stack.subrange(1, stack.len() as int) =~= t.subrange(1, t.len() as int).push(cid));
        assert(stack.subrange(1, stack.len() as int).to_set() =~= t.subrange(1, t.len() as int).to_set().insert(cid)) by {
            t.subrange(1, t.len() as int).lemma_push_to_set_commute(cid);
        }
        assert(corrupted_ids(ws).insert(cid).union(t.subrange(1, t.len() as int).to_set())
            =~= corrupted_ids(ws).union(stack.subrange(1, stack.len() as int).to_set()));
    }
}

/// Every entity of every container refers to an atom; every container but the root is
/// the atom of its own id and is referred to by exactly one entity of all the
/// containers.
pub open spec fn entities_known(ws: WorkspaceV) -> bool {
    &&& forall|c: i32, i: int|
        #![trigger ws.containers[c].contents[i]]
        ws.containers.contains_key(c) && 0 <= i < ws.containers[c].contents.len()
            ==> ws.atoms.contains_key(ws.containers[c].contents[i].id)
    &&& forall|c: i32| #[trigger] ws.containers.contains_key(c) && c != 0
        ==> ws.atoms.contains_key(c) && ws.atoms[c] == AtomV::Container(c)
    &&& forall|p: i32, i: int, q: i32, j: int|
        #![trigger ws.containers[p].contents[i], ws.containers[q].contents[j]]
        ws.containers.contains_key(p) && 0 <= i < ws.containers[p].contents.len()
            && ws.containers.contains_key(q) && 0 <= j < ws.containers[q].contents.len()
            && ws.containers[p].contents[i].id == ws.containers[q].contents[j].id
            && ws.containers[p].contents[i].id != 0
            && ws.containers.contains_key(ws.containers[p].contents[i].id)
            ==> p == q && i == j
    &&& forall|c: i32| #[trigger] ws.containers.contains_key(c) && c != 0 ==> referenced(ws, c)
}

/// Containers that only grow at their ends keep every reference.
proof fn lemma_referenced_grows(a: WorkspaceV, b: WorkspaceV)
    requires
        forall|p: i32| #[trigger] a.containers.contains_key(p) ==> {
            &&& b.containers.contains_key(p)
            &&& a.containers[p].contents.len() <= b.containers[p].contents.len()
            &&& forall|i: int| 0 <= i < a.containers[p].contents.len()
                ==> #[trigger] b.containers[p].contents[i] == a.containers[p].contents[i]
        },
    ensures
        forall|c: i32| referenced(a, c) ==> #[trigger] referenced(b, c),
{
    assert forall|c: i32| referenced(a, c) implies #[trigger] referenced(b, c) by {
        let (p, i) = choose|p: i32, i: int|
            a.containers.contains_key(p) && 0 <= i < a.containers[p].contents.len()
                && #[trigger] a.containers[p].contents[i].id == c;
        assert(b.containers[p].contents[i] == a.containers[p].contents[i]);
    }
}

/// Some entity of some container refers to `c`.
pub open spec fn referenced(ws: WorkspaceV, c: i32) -> bool {
    exists|p: i32, i: int|
        ws.containers.contains_key(p) && 0 <= i < ws.containers[p].contents.len()
            && #[trigger] ws.containers[p].contents[i].id == c
}

/// Appending a character adds its UTF-8 length.
proof fn lemma_byte_len_push(s: Seq<char>, c: char)
    ensures
        byte_len(s.push(c)) == byte_len(s) + utf8_len(c),
{
    let t = s.push(c);
    assert(t.take(s.len() as int) =~= s.take(s.len() as int));
    crate::text::lemma_byte_index_prefix(t, s, s.len() as int);
}

/// The workspace invariant weakens as the end grows.
proof fn lemma_ws_inv_mono(ws: WorkspaceV, a: int, b: int)
    requires
        ws_inv(ws, a),
        a <= b,
    ensures
        ws_inv(ws, b),
{
}

/// Appending a plain entity (not a container, within the end) keeps the invariant.
proof fn lemma_push_plain(ws: WorkspaceV, stack: Seq<i32>, e: Entity, end: int)
    requires
        ws_inv(ws, end),
        stack_ok(ws, stack),
        e.id < ws.next_id,
        !(ws.atoms.contains_key(e.id) && ws.atoms[e.id] is Container),
        e.offset <= end,
        ws.atoms.contains_key(e.id) && ws.atoms[e.id] is Raw ==> e.offset + byte_len(ws.atoms[e.id]->Raw_0) <= end,
    ensures
        ws_inv(spec_push_entity(ws, stack, e), end),
        stack_ok(spec_push_entity(ws, stack, e), stack),
        spec_push_entity(ws, stack, e).next_id == ws.next_id,
        spec_push_entity(ws, stack, e).atoms == ws.atoms,
        spec_push_entity(ws, stack, e).intern == ws.intern,
        spec_push_entity(ws, stack, e).containers.dom() == ws.containers.dom(),
        spec_push_entity(ws, stack, e).containers[0].contents.len()
            == ws.containers[0].contents.len() + if stack.last() == 0 { 1int } else { 0int },
        entities_known(ws) && ws.atoms.contains_key(e.id) ==> entities_known(spec_push_entity(ws, stack, e)),
{
    let r = spec_push_entity(ws, stack, e);
    let top = stack.last();
    assert(ws.containers.contains_key(top));
    assert(r.containers.dom() =~= ws.containers.dom());
    assert forall|c: i32, i: int| r.containers.contains_key(c) && 0 <= i < r.containers[c].contents.len()
        implies #[trigger] r.containers[c].contents[i] == (if c == top && i == ws.containers[c].contents.len() { e } else { ws.containers[c].contents[i] }) by {
    }
    assert forall|x: Entity| child_of(r, x) == child_of(ws, x) by {
    }
    if entities_known(ws) && ws.atoms.contains_key(e.id) {
        if ws.containers.contains_key(e.id) && e.id != 0 {
            assert(ws.atoms[e.id] == AtomV::Container(e.id));
        }
        lemma_referenced_grows(ws, r);
    }
}

/// Interning a symbol keeps the invariant; the id names the symbol when it is raw.
proof fn lemma_intern_inv(ws: WorkspaceV, stack: Seq<i32>, sym: Seq<char>, end: int)
    requires
        ws_inv(ws, end),
        stack_ok(ws, stack),
        ws.next_id < i32::MAX,
    ensures
        ws_inv(spec_intern(ws, sym).1, end),
        stack_ok(spec_intern(ws, sym).1, stack),
        spec_intern(ws, sym).0 < spec_intern(ws, sym).1.next_id,
        spec_intern(ws, sym).1.atoms.contains_key(spec_intern(ws, sym).0),
        !(spec_intern(ws, sym).1.atoms[spec_intern(ws, sym).0] is Container),
        spec_intern(ws, sym).1.atoms[spec_intern(ws, sym).0] is Raw
            ==> spec_intern(ws, sym).1.atoms[spec_intern(ws, sym).0] == AtomV::Raw(sym),
        spec_intern(ws, sym).1.containers == ws.containers,
        spec_intern(ws, sym).1.next_id <= ws.next_id + 1,
        ws.intern.contains_key(sym) ==> spec_intern(ws, sym).1 == ws,
{
    let (id, r) = spec_intern(ws, sym);
    if !ws.intern.contains_key(sym) {
        let fresh = ws.next_id as i32;
        assert(!ws.atoms.contains_key(fresh));
        assert forall|x: Entity| child_of(ws, x) is Some implies child_of(r, x) == child_of(ws, x) by {
        }
        assert forall|c: i32, i: int|
            #![trigger r.containers[c].contents[i]]
            r.containers.contains_key(c) && 0 <= i < r.containers[c].contents.len()
                implies nested_entity(r, c as int, r.containers[c].contents[i], r.next_id) by {
            let e = ws.containers[c].contents[i];
            assert(nested_entity(ws, c as int, e, ws.next_id));
            assert(e.id != fresh);
        }
        assert forall|s: Seq<char>| #[trigger] r.intern.contains_key(s) implies {
            &&& r.atoms.contains_key(r.intern[s])
            &&& !(r.atoms[r.intern[s]] is Container)
            &&& r.atoms[r.intern[s]] is Raw ==> r.atoms[r.intern[s]] == AtomV::Raw(s)
        } by {
            if s != sym {
                assert(ws.intern.contains_key(s));
                assert(ws.intern[s] != fresh);
            }
        }
        assert forall|x: i32| #[trigger] r.atoms.contains_key(x) && r.atoms[x] is Raw
            implies r.intern.contains_key(r.atoms[x]->Raw_0) && r.intern[r.atoms[x]->Raw_0] == x by {
            if x != fresh {
                assert(ws.atoms.contains_key(x));
                assert(ws.intern.contains_key(ws.atoms[x]->Raw_0));
                assert(ws.atoms[x]->Raw_0 != sym);
            }
        }
        assert forall|s: Seq<char>, t: Seq<char>| #[trigger] r.intern.contains_key(s) && #[trigger] r.intern.contains_key(t) && s != t
            implies r.intern[s] != r.intern[t] by {
            if s != sym && t != sym {
                assert(ws.intern.contains_key(s) && ws.intern.contains_key(t));
            } else if s == sym {
                assert(ws.intern.contains_key(t));
            } else {
                assert(ws.intern.contains_key(s));
            }
        }
        assert forall|k: int| 0 <= k < punct_ops().len() implies {
            &&& #[trigger] r.intern.contains_key(punct_ops()[k])
            &&& r.atoms.contains_key(r.intern[punct_ops()[k]])
            &&& r.atoms[r.intern[punct_ops()[k]]] is Operator
        } by {
            assert(ws.intern.contains_key(punct_ops()[k]));
            assert(punct_ops()[k] != sym);
            assert(ws.intern[punct_ops()[k]] != fresh);
        }
        assert forall|c: i32, i: int|
            #![trigger r.containers[c].contents[i]]
            r.containers.contains_key(c) && 0 <= i < r.containers[c].contents.len()
                && r.atoms.contains_key(r.containers[c].contents[i].id)
                && r.atoms[r.containers[c].contents[i].id] is Raw
                implies r.containers[c].contents[i].offset + byte_len(r.atoms[r.containers[c].contents[i].id]->Raw_0) <= end by {
            let e = ws.containers[c].contents[i];
            assert(nested_entity(ws, c as int, e, ws.next_id));
        }
    }
}


/// Flushing the pending symbol keeps the invariant and empties the symbol.
proof fn lemma_flush_inv(st: SweepState, end: int)
    requires
        ws_inv(st.ws, end),
        stack_ok(st.ws, st.stack),
        st.sym.len() > 0 ==> st.sym_start + byte_len(st.sym) == end,
        st.ws.next_id < i32::MAX,
    ensures
        ws_inv(spec_flush(st).ws, end),
        stack_ok(spec_flush(st).ws, spec_flush(st).stack),
        spec_flush(st) == (SweepState { ws: spec_flush(st).ws, sym: spec_flush(st).sym, ..st }),
        spec_flush(st).sym.len() == 0,
        spec_flush(st).ws.next_id <= st.ws.next_id + 1,
        spec_flush(st).ws.containers[0].contents.len() <= root_count(st),
        spec_flush(st).ws.containers[0].corrupted == st.ws.containers[0].corrupted,
        entities_known(st.ws) ==> entities_known(spec_flush(st).ws),
{
    if st.sym.len() > 0 {
        lemma_intern_inv(st.ws, st.stack, st.sym, end);
        let (id, ws) = spec_intern(st.ws, st.sym);
        lemma_push_plain(ws, st.stack, Entity { id, offset: st.sym_start }, end);
    }
}

/// Opening a container keeps the invariant and pushes it on the stack.
proof fn lemma_open_inv(ws: WorkspaceV, stack: Seq<i32>, cur: Position, end: int)
    requires
        ws_inv(ws, end),
        stack_ok(ws, stack),
        ws.next_id < i32::MAX,
        cur.offset <= end,
    ensures
        ({
            let cid = ws.next_id as i32;
            let ws2 = spec_push_entity(spec_create_container(ws, cur), stack, Entity { id: cid, offset: cur.offset });
            &&& ws_inv(ws2, end)
            &&& stack_ok(ws2, stack.push(cid))
            &&& ws2.next_id == ws.next_id + 1
            &&& ws2.containers[0].contents.len() == ws.containers[0].contents.len() + if stack.last() == 0 { 1int } else { 0int }
            &&& entities_known(ws) ==> entities_known(ws2)
        }),
{
    let cid = ws.next_id as i32;
    let ws1 = spec_create_container(ws, cur);
    let e = Entity { id: cid, offset: cur.offset };
    let ws2 = spec_push_entity(ws1, stack, e);
    let top = stack.last();
    assert(!ws.containers.contains_key(cid));
    assert(!ws.atoms.contains_key(cid));
    assert(ws.containers.contains_key(top));
    assert forall|x: Entity| x.id != cid implies child_of(ws1, x) == child_of(ws, x) by {
        if ws.atoms.contains_key(x.id) && ws.atoms[x.id] is Container {
            assert(ws.atoms[x.id]->Container_0 < ws.next_id);
        }
    }
    assert(child_of(ws1, e) == Some(cid));
    assert forall|x: Entity| child_of(ws2, x) == child_of(ws1, x) by {
    }
    if entities_known(ws) {
        lemma_referenced_grows(ws, ws2);
        assert(ws2.containers[top].contents[ws.containers[top].contents.len() as int].id == cid);
        assert(referenced(ws2, cid));
        assert forall|p: i32, i: int|
            ws.containers.contains_key(p) && 0 <= i < ws.containers[p].contents.len()
                implies #[trigger] ws.containers[p].contents[i].id != cid by {
            assert(nested_entity(ws, p as int, ws.containers[p].contents[i], ws.next_id));
        }
    }
    assert forall|c: i32, i: int|
        #![trigger ws2.containers[c].contents[i]]
        ws2.containers.contains_key(c) && 0 <= i < ws2.containers[c].contents.len()
            implies nested_entity(ws2, c as int, ws2.containers[c].contents[i], ws2.next_id) by {
        if c == top && i == ws.containers[top].contents.len() {
            assert(ws2.containers[c].contents[i] == e);
        } else if c != cid {
            let x = ws.containers[c].contents[i];
            assert(ws2.containers[c].contents[i] == x);
            assert(nested_entity(ws, c as int, x, ws.next_id));
        }
    }
    assert forall|s: Seq<char>| #[trigger] ws2.intern.contains_key(s) implies {
        &&& ws2.atoms.contains_key(ws2.intern[s])
        &&& !(ws2.atoms[ws2.intern[s]] is Container)
        &&& ws2.atoms[ws2.intern[s]] is Raw ==> ws2.atoms[ws2.intern[s]] == AtomV::Raw(s)
    } by {
        assert(ws.intern[s] != cid);
    }
    assert forall|k: int| 0 <= k < punct_ops().len() implies {
        &&& #[trigger] ws2.intern.contains_key(punct_ops()[k])
        &&& ws2.atoms.contains_key(ws2.intern[punct_ops()[k]])
        &&& ws2.atoms[ws2.intern[punct_ops()[k]]] is Operator
    } by {
        assert(ws.intern.contains_key(punct_ops()[k]));
        assert(ws.intern[punct_ops()[k]] != cid);
    }
    assert forall|x: i32| #[trigger] ws2.atoms.contains_key(x) && ws2.atoms[x] is Raw
        implies ws2.intern.contains_key(ws2.atoms[x]->Raw_0) && ws2.intern[ws2.atoms[x]->Raw_0] == x by {
        assert(x != cid);
        assert(ws.atoms.contains_key(x));
    }
    assert forall|c: i32, i: int|
        #![trigger ws2.containers[c].contents[i]]
        ws2.containers.contains_key(c) && 0 <= i < ws2.containers[c].contents.len()
            && ws2.atoms.contains_key(ws2.containers[c].contents[i].id)
            && ws2.atoms[ws2.containers[c].contents[i].id] is Raw
            implies ws2.containers[c].contents[i].offset + byte_len(ws2.atoms[ws2.containers[c].contents[i].id]->Raw_0) <= end by {
        if c == top && i == ws.containers[top].contents.len() {
        } else if c != cid {
            let x = ws.containers[c].contents[i];
            assert(nested_entity(ws, c as int, x, ws.next_id));
        }
    }
    assert forall|c: i32, i: int|
        #![trigger ws2.containers[c].contents[i]]
        ws2.containers.contains_key(c) && 0 <= i < ws2.containers[c].contents.len()
            implies ws2.containers[c].contents[i].offset <= end by {
        if c == top && i == ws.containers[top].contents.len() {
        } else if c != cid {
        }
    }
    let ns = stack.push(cid);
    assert forall|i: int, j: int| 0 <= i < j < ns.len() implies #[trigger] ns[i] < #[trigger] ns[j] by {
        if j == ns.len() - 1 {
            assert(ws.containers.contains_key(ns[i]));
        }
    }
    assert forall|i: int| 0 <= i < ns.len() implies ws2.containers.contains_key(#[trigger] ns[i]) by {
        if i < stack.len() {
            assert(ws.containers.contains_key(stack[i]));
        }
    }
}

/// Closing the containers left open keeps the invariant.
proof fn lemma_close_open_inv(ws: WorkspaceV, stack: Seq<i32>, eof: Position, end: int)
    requires
        ws_inv(ws, end),
    ensures
        ws_inv(close_open(ws, stack, eof), end),
        close_open(ws, stack, eof).containers[0].contents == ws.containers[0].contents,
        close_open(ws, stack, eof).next_id == ws.next_id,
        (forall|i: int| 1 <= i < stack.len() ==> #[trigger] stack[i] != 0)
            ==> close_open(ws, stack, eof).containers[0].corrupted == ws.containers[0].corrupted,
        entities_known(ws) ==> entities_known(close_open(ws, stack, eof)),
    decreases stack.len(),
{
    if stack.len() > 1 {
        let cid = stack.last();
        assert forall|i: int| 1 <= i < stack.drop_last().len() && stack[i] != 0 implies #[trigger] stack.drop_last()[i] != 0 by {
            assert(stack.drop_last()[i] == stack[i]);
        }
        if ws.containers.contains_key(cid) {
            let c = ws.containers[cid];
            let ws1 = WorkspaceV { containers: ws.containers.insert(cid, ContainerV { corrupted: true, ..c }), ..ws };
            assert forall|x: Entity| child_of(ws1, x) == child_of(ws, x) by {
            }
            assert(ws1.containers.dom() =~= ws.containers.dom());
            let ws2 = WorkspaceV {
                diagnostics: ws1.diagnostics.push(
                    Diagnostic { code: DiagnosticCode::UnclosedContainer, span: Span { start: c.start_pos, end: eof } },
                ),
                ..ws1
            };
            assert(ws_inv(ws2, end));
            lemma_referenced_grows(ws, ws2);
            lemma_close_open_inv(ws2, stack.drop_last(), eof, end);
        } else {
            let ws2 = WorkspaceV {
                diagnostics: ws.diagnostics.push(
                    Diagnostic { code: DiagnosticCode::UnclosedContainer, span: Span { start: Position { offset: 0, line: 0, col: 0 }, end: eof } },
                ),
                ..ws
            };
            lemma_close_open_inv(ws2, stack.drop_last(), eof, end);
        }
    }
}

/// The punctuation operator found is a prefix of the rest of the text.
proof fn lemma_first_punct(rest: Seq<char>, k0: int)
    requires
        first_punct_from(rest, k0) is Some,
    ensures
        k0 <= first_punct_from(rest, k0)->Some_0 < punct_ops().len(),
        is_prefix(punct_ops()[first_punct_from(rest, k0)->Some_0], rest),
    decreases punct_ops().len() - k0,
{
    if !(k0 < 0 || k0 >= punct_ops().len()) && !is_prefix(punct_ops()[k0], rest) {
        lemma_first_punct(rest, k0 + 1);
    }
}


/// The structural handling of a character keeps the invariant.
#[verifier::spinoff_prover]
proof fn lemma_structural_inv(st: SweepState, text: Seq<char>, i: int)
    requires
        sweep_inv(st, text, i),
        i < text.len(),
        !st.in_comment,
        !st.skip_next,
        st.skip_bytes == 0,
    ensures
        sweep_inv(advance(structural(st, text, i), text[i]), text, i + 1),
{
    let c = text[i];
    let e0 = byte_index(text, i) as int;
    let e1 = byte_index(text, i + 1) as int;
    assert(e1 == e0 + utf8_len(c));
    let cur = pos_at(st, text, i);
    assert(cur.offset == e0) by {
        lemma_byte_index_mono(text, i, text.len() as int);
    }
    assert(e1 <= byte_len(text)) by {
        lemma_byte_index_mono(text, i + 1, text.len() as int);
    }
    let r = structural(st, text, i);
    if c == '(' {
        lemma_flush_inv(st, e0);
        let f = spec_flush(st);
        lemma_open_inv(f.ws, f.stack, cur, e0);
        lemma_ws_inv_mono(r.ws, e0, e1);
        assert(sweep_inv(advance(r, c), text, i + 1));
    } else if c == ')' {
        lemma_flush_inv(st, e0);
        let f = spec_flush(st);
        if f.stack.len() > 1 {
            let ns = f.stack.drop_last();
            assert forall|a: int| 0 <= a < ns.len() implies f.ws.containers.contains_key(#[trigger] ns[a]) by {
                assert(f.ws.containers.contains_key(f.stack[a]));
            }
            assert forall|a: int, b: int| 0 <= a < b < ns.len() implies #[trigger] ns[a] < #[trigger] ns[b] by {
                assert(f.stack[a] < f.stack[b]);
            }
        }
        assert(ws_inv(r.ws, e0)) by {
            assert(ws_inv(f.ws, e0));
            assert(r.ws == WorkspaceV { diagnostics: r.ws.diagnostics, ..f.ws });
        }
        lemma_referenced_grows(f.ws, r.ws);
        lemma_ws_inv_mono(r.ws, e0, e1);
        assert(sweep_inv(advance(r, c), text, i + 1));
    } else if c == ' ' || c == '\t' {
        lemma_flush_inv(st, e0);
        assert(r == spec_flush(st));
        lemma_ws_inv_mono(r.ws, e0, e1);
        assert(sweep_inv(advance(r, c), text, i + 1));
    } else if spec_is_illegal(c) {
        lemma_flush_inv(st, e0);
        let f = spec_flush(st);
        assert(r.ws == WorkspaceV {
            diagnostics: f.ws.diagnostics.push(
                Diagnostic { code: DiagnosticCode::IllegalCharacter, span: Span { start: cur, end: cur } },
            ),
            ..f.ws
        });
        assert(ws_inv(r.ws, e0)) by {
            assert(ws_inv(f.ws, e0));
            assert(r.ws == WorkspaceV { diagnostics: r.ws.diagnostics, ..f.ws });
        }
        lemma_referenced_grows(f.ws, r.ws);
        lemma_ws_inv_mono(r.ws, e0, e1);
        assert(sweep_inv(advance(r, c), text, i + 1));
    } else {
        match first_punct_from(text.skip(i), 0) {
            Some(k) => {
                lemma_first_punct(text.skip(i), 0);
                let op = punct_ops()[k];
                if (op == seq!['+'] || op == seq!['-']) && spec_exponent_sign(st.sym) {
                    assert(text.skip(i).take(1)[0] == text[i]);
                    assert(op =~= seq![c]);
                    assert(st.sym + op =~= st.sym.push(c));
                    lemma_byte_len_push(st.sym, c);
                    lemma_ws_inv_mono(r.ws, e0, e1);
        assert(sweep_inv(advance(r, c), text, i + 1));
                } else {
                    lemma_flush_inv(st, e0);
                    let f = spec_flush(st);
                    assert(f.ws.intern.contains_key(punct_ops()[k]));
                    lemma_intern_inv(f.ws, f.stack, op, e0);
                    let (op_id, ws1) = spec_intern(f.ws, op);
                    assert(ws1 == f.ws);
                    lemma_push_plain(ws1, f.stack, Entity { id: op_id, offset: cur.offset }, e0);
                    lemma_ws_inv_mono(r.ws, e0, e1);
        assert(sweep_inv(advance(r, c), text, i + 1));
                }
            },
            None => {
                if st.sym.len() == 0 {
                    lemma_byte_len_push(Seq::<char>::empty(), c);
                    assert(Seq::<char>::empty().push(c) =~= seq![c]);
                    assert(byte_len(Seq::<char>::empty()) == 0);
                } else {
                    lemma_byte_len_push(st.sym, c);
                }
                lemma_ws_inv_mono(r.ws, e0, e1);
                let a = advance(r, c);
                assert(r.ws == st.ws);
                assert(r.stack == st.stack);
                assert(a.sym.len() > 0);
                assert(a.sym_start + byte_len(a.sym) == e1);
                assert(root_count(a) <= i + 1);
                assert(ws_inv(a.ws, e1));
                assert(stack_ok(a.ws, a.stack));
        assert(sweep_inv(advance(r, c), text, i + 1));
            },
        }
    }
}

/// One step of the sweep keeps the invariant.
proof fn lemma_step_inv(st: SweepState, text: Seq<char>, i: int)
    requires
        sweep_inv(st, text, i),
        i < text.len(),
    ensures
        sweep_inv(sweep_step(st, text, i), text, i + 1),
{
    let c = text[i];
    let e0 = byte_index(text, i) as int;
    let e1 = byte_index(text, i + 1) as int;
    assert(e1 == e0 + utf8_len(c));
    let cur = pos_at(st, text, i);
    assert(cur.offset == e0) by {
        lemma_byte_index_mono(text, i, text.len() as int);
    }
    if st.skip_bytes > 0 || st.skip_next || (st.in_comment && c != '\n') {
        lemma_ws_inv_mono(st.ws, e0, e1);
    } else {
        let st1 = if st.in_comment {
            SweepState {
                ws: WorkspaceV { comments: st.ws.comments.push(Span { start: st.comment_start, end: cur }), ..st.ws },
                in_comment: false,
                ..st
            }
        } else {
            st
        };
        assert(sweep_inv(st1, text, i));
        let slash_slash = c == '/' && i + 1 < text.len() && text[i + 1] == '/';
        if c == '#' || slash_slash {
            lemma_flush_inv(st1, e0);
            lemma_ws_inv_mono(spec_flush(st1).ws, e0, e1);
        } else {
            lemma_structural_inv(st1, text, i);
        }
    }
}

/// The sweep's state after any number of characters meets the invariant.
proof fn lemma_prefix_inv(init: SweepState, text: Seq<char>, n: int)
    requires
        sweep_inv(init, text, 0),
        0 <= n <= text.len(),
    ensures
        sweep_inv(sweep_prefix(init, text, n), text, n),
    decreases n,
{
    if n > 0 {
        lemma_prefix_inv(init, text, n - 1);
        lemma_step_inv(sweep_prefix(init, text, n - 1), text, n - 1);
    }
}


/// The state before the first character meets the invariant.
proof fn lemma_initial_inv(text: Seq<char>, b: Seq<(Seq<char>, i32)>, c: Seq<Seq<char>>)
    requires
        builtins_ok(b),
        byte_len(text) < u32::MAX,
        2 * text.len() + c.len() + 8 < i32::MAX,
    ensures
        sweep_inv(initial_state(b, c), text, 0),
{
    let empty = WorkspaceV {
        next_id: 1,
        atoms: Map::empty(),
        intern: Map::empty(),
        containers: Map::empty(),
        container_order: Seq::empty(),
        comments: Seq::empty(),
        diagnostics: Seq::empty(),
    };
    let sb = seed_builtins(empty, b, b.len() as int);
    lemma_seed_builtins_facts(empty, b, b.len() as int);
    lemma_seed_builtins_frame(empty, b, b.len() as int);
    assert forall|x: i32| #[trigger] sb.atoms.contains_key(x) implies x < sb.next_id by {
        let i = choose|i: int| 0 <= i < b.len() && b[i].1 == x;
    }
    let sc = seed_constants(sb, c, c.len() as int);
    lemma_seed_constants_facts(sb, c, c.len() as int);
    lemma_seed_constants_frame(sb, c, c.len() as int);
    let ws = initial_workspace(b, c);
    let st = initial_state(b, c);
    assert(ws.containers[0].contents.len() == 0);
    assert forall|x: i32| #[trigger] ws.atoms.contains_key(x) && ws.atoms[x] is Container implies false by {
        if sb.atoms.contains_key(x) {
            let i = choose|i: int| 0 <= i < b.len() && b[i].1 == x;
            assert(sb.atoms[b[i].1] == builtin_atom(b[i].0, b[i].1));
        }
    }
    assert forall|s: Seq<char>| #[trigger] ws.intern.contains_key(s) implies ws.intern[s] < ws.next_id by {
        if sb.intern.contains_key(s) {
            let i = choose|i: int| 0 <= i < b.len() && b[i].0 == s;
            assert(sb.intern[b[i].0] == b[i].1);
        }
    }
    assert forall|s: Seq<char>| #[trigger] ws.intern.contains_key(s) implies {
        &&& ws.atoms.contains_key(ws.intern[s])
        &&& !(ws.atoms[ws.intern[s]] is Container)
        &&& ws.atoms[ws.intern[s]] is Raw ==> ws.atoms[ws.intern[s]] == AtomV::Raw(s)
    } by {
        if sb.intern.contains_key(s) {
            let i = choose|i: int| 0 <= i < b.len() && b[i].0 == s;
            assert(sb.intern[b[i].0] == b[i].1);
            assert(sb.atoms.contains_key(b[i].1));
            assert(sb.atoms[b[i].1] == builtin_atom(b[i].0, b[i].1));
        }
    }
    assert forall|k: int| 0 <= k < punct_ops().len() implies {
        &&& #[trigger] ws.intern.contains_key(punct_ops()[k])
        &&& ws.atoms.contains_key(ws.intern[punct_ops()[k]])
        &&& ws.atoms[ws.intern[punct_ops()[k]]] is Operator
    } by {
        let i = choose|i: int| 0 <= i < b.len() && b[i].0 == #[trigger] punct_ops()[k] && builtin_atom(b[i].0, b[i].1) is Operator;
        assert(sb.intern.contains_key(b[i].0));
        assert(sb.intern[b[i].0] == b[i].1);
        assert(sb.atoms.contains_key(b[i].1));
        assert(sb.atoms[b[i].1] == builtin_atom(b[i].0, b[i].1));
    }
    assert forall|s: Seq<char>, t: Seq<char>| #[trigger] sb.intern.contains_key(s) && #[trigger] sb.intern.contains_key(t) && s != t
        implies sb.intern[s] != sb.intern[t] by {
        let i = choose|i: int| 0 <= i < b.len() && b[i].0 == s;
        let j = choose|j: int| 0 <= j < b.len() && b[j].0 == t;
        assert(sb.intern[b[i].0] == b[i].1);
        assert(sb.intern[b[j].0] == b[j].1);
    }
    assert forall|s: Seq<char>| #[trigger] sb.intern.contains_key(s) implies sb.intern[s] < sb.next_id by {
        let i = choose|i: int| 0 <= i < b.len() && b[i].0 == s;
        assert(sb.intern[b[i].0] == b[i].1);
    }
    assert(intern_injective(sc));
    assert forall|x: i32| #[trigger] ws.atoms.contains_key(x) && ws.atoms[x] is Raw
        implies ws.intern.contains_key(ws.atoms[x]->Raw_0) && ws.intern[ws.atoms[x]->Raw_0] == x by {
        if sb.atoms.contains_key(x) {
            let i = choose|i: int| 0 <= i < b.len() && b[i].1 == x;
            assert(sb.atoms[b[i].1] == builtin_atom(b[i].0, b[i].1));
            assert(sb.intern.contains_key(b[i].0));
            assert(sb.intern[b[i].0] == b[i].1);
        }
    }
    assert(ws_shape(ws));
    assert(ws_inv(ws, byte_index(text, 0) as int));
    assert(stack_ok(ws, st.stack));
}

/// The end of the sweep from its last state `f`: the comment left open is closed, then
/// the containers left open.
proof fn lemma_sweep_end(f: SweepState, eof: Position, end: int)
    requires
        ws_inv(f.ws, end),
        stack_ok(f.ws, f.stack),
        !f.ws.containers[0].corrupted,
        entities_known(f.ws),
        forall|c: i32| #[trigger] f.ws.containers.contains_key(c) ==> !f.ws.containers[c].corrupted,
        forall|k: int| 0 <= k < f.ws.diagnostics.len() ==> (#[trigger] f.ws.diagnostics[k]).code != DiagnosticCode::UnclosedContainer,
    ensures
        ({
            let ws = if f.in_comment {
                WorkspaceV { comments: f.ws.comments.push(Span { start: f.comment_start, end: eof }), ..f.ws }
            } else {
                f.ws
            };
            let w = close_open(ws, f.stack, eof);
            &&& ws_inv(w, end)
            &&& w.containers[0].contents == f.ws.containers[0].contents
            &&& !w.containers[0].corrupted
            &&& entities_known(w)
            &&& corrupted_ids(w).finite()
            &&& corrupted_ids(w).len() == unclosed_count(w.diagnostics)
        }),
{
    let ws = if f.in_comment {
        WorkspaceV { comments: f.ws.comments.push(Span { start: f.comment_start, end: eof }), ..f.ws }
    } else {
        f.ws
    };
    assert(ws == WorkspaceV { comments: ws.comments, ..f.ws });
    lemma_sweep_end_counts(ws, f.stack, eof, end);
}

/// Closing the containers left open at the end of the sweep keeps the shape and leaves
/// as many corrupted containers as unclosed reports.
proof fn lemma_sweep_end_counts(ws: WorkspaceV, stack: Seq<i32>, eof: Position, end: int)
    requires
        ws_inv(ws, end),
        stack_ok(ws, stack),
        !ws.containers[0].corrupted,
        entities_known(ws),
        forall|c: i32| #[trigger] ws.containers.contains_key(c) ==> !ws.containers[c].corrupted,
        forall|k: int| 0 <= k < ws.diagnostics.len() ==> (#[trigger] ws.diagnostics[k]).code != DiagnosticCode::UnclosedContainer,
    ensures
        ws_inv(close_open(ws, stack, eof), end),
        close_open(ws, stack, eof).containers[0].contents == ws.containers[0].contents,
        !close_open(ws, stack, eof).containers[0].corrupted,
        entities_known(close_open(ws, stack, eof)),
        corrupted_ids(close_open(ws, stack, eof)).finite(),
        corrupted_ids(close_open(ws, stack, eof)).len() == unclosed_count(close_open(ws, stack, eof).diagnostics),
{
    assert forall|i: int| 1 <= i < stack.len() implies #[trigger] stack[i] != 0 by {
        assert(stack[0] < stack[i]);
    }
    lemma_close_open_inv(ws, stack, eof, end);
    lemma_close_open_counts(ws, stack, eof);
    assert(corrupted_ids(ws) =~= Set::<i32>::empty());
    lemma_no_unclosed(ws.diagnostics);
    let above = stack.subrange(1, stack.len() as int);
    assert(above.no_duplicates()) by {
        assert forall|i: int, j: int| 0 <= i < above.len() && 0 <= j < above.len() && i != j implies above[i] != above[j] by {
            assert(above[i] == stack[i + 1] && above[j] == stack[j + 1]);
            if i < j {
                assert(stack[i + 1] < stack[j + 1]);
            } else {
                assert(stack[j + 1] < stack[i + 1]);
            }
        }
    }
    above.unique_seq_to_set();
    assert(Set::<i32>::empty().union(above.to_set()) =~= above.to_set());
}

/// What the sweep builds has the shape every later stage relies on: ids below the
/// counter, nesting in opening order, interned ids that name no container, every
/// operator interned, entity offsets and raw symbols inside the buffer, and a root no
/// longer than the buffer has characters, which is never marked corrupted (only the
/// containers left open are). Every entity refers to an atom, every container but the
/// root is the atom of its own id and is referred to by exactly one entity, and the
/// containers marked corrupted are as many as the unclosed containers reported.
pub proof fn lemma_sweep_shape(text: Seq<char>, b: Seq<(Seq<char>, i32)>, c: Seq<Seq<char>>)
    requires
        builtins_ok(b),
        byte_len(text) < u32::MAX,
        2 * text.len() + c.len() + 8 < i32::MAX,
    ensures
        ws_inv(spec_sweep(text, b, c), byte_len(text) as int),
        spec_sweep(text, b, c).containers[0].contents.len() <= text.len(),
        !spec_sweep(text, b, c).containers[0].corrupted,
        entities_known(spec_sweep(text, b, c)),
        corrupted_ids(spec_sweep(text, b, c)).finite(),
        corrupted_ids(spec_sweep(text, b, c)).len() == unclosed_count(spec_sweep(text, b, c).diagnostics),
{
    lemma_initial_inv(text, b, c);
    let n = text.len() as int;
    lemma_prefix_inv(initial_state(b, c), text, n);
    let st = sweep_prefix(initial_state(b, c), text, n);
    let end = byte_len(text) as int;
    lemma_flush_inv(st, end);
    let f = spec_flush(st);
    let eof = Position { offset: byte_len(text) as u32, line: f.line as u32, col: f.col as u32 };
    lemma_sweep_end(f, eof, end);
}

/// Symbolic identity: in what the sweep builds, a name has one id, so every occurrence
/// of it refers to that id: two raw atoms with the same name are the same atom.
pub proof fn lemma_symbolic_identity(
    text: Seq<char>,
    b: Seq<(Seq<char>, i32)>,
    c: Seq<Seq<char>>,
    x1: i32,
    x2: i32,
)
    requires
        builtins_ok(b),
        byte_len(text) < u32::MAX,
        2 * text.len() + c.len() + 8 < i32::MAX,
        spec_sweep(text, b, c).atoms.contains_key(x1),
        spec_sweep(text, b, c).atoms.contains_key(x2),
        spec_sweep(text, b, c).atoms[x1] is Raw,
        spec_sweep(text, b, c).atoms[x1] == spec_sweep(text, b, c).atoms[x2],
    ensures
        x1 == x2,
{
    lemma_sweep_shape(text, b, c);
    let w = spec_sweep(text, b, c);
    assert(w.intern[w.atoms[x1]->Raw_0] == x1);
    assert(w.intern[w.atoms[x2]->Raw_0] == x2);
}

/// Distinct symbols get distinct ids: in what the sweep builds, two different interned
/// names never share an id.
pub proof fn lemma_distinct_symbols(text: Seq<char>, b: Seq<(Seq<char>, i32)>, c: Seq<Seq<char>>, s: Seq<char>, t: Seq<char>)
    requires
        builtins_ok(b),
        byte_len(text) < u32::MAX,
        2 * text.len() + c.len() + 8 < i32::MAX,
        spec_sweep(text, b, c).intern.contains_key(s),
        spec_sweep(text, b, c).intern.contains_key(t),
        s != t,
    ensures
        spec_sweep(text, b, c).intern[s] != spec_sweep(text, b, c).intern[t],
{
    lemma_sweep_shape(text, b, c);
}

} // verus!
