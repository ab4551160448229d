//! Stage 3: the unroller flattens each line into a tape of instructions
//! (shunting-yard to reverse Polish notation, then instruction minting).

use vstd::prelude::*;
use crate::model::{
    atoms_below, child_of, container_atoms_below, keys_below, nested_below, nested_entity,
    spec_intern_typed, Atom, AtomV, Container, ContainerV, Diagnostic, DiagnosticCode, Entity,
    FendOp, OpCode, Position, Span, Workspace, WorkspaceV,
};
use crate::shape::{lemma_offs_push, offs_le, offsets_within};

verus! {

/// The role an entity plays when building reverse Polish notation.
#[derive(Debug, Clone, Copy, PartialEq, Eq, Structural)]
pub enum EntityKind {
    Quantity,
    Container,
    Variable,
    Constant,
    Function,
    Operator(OpCode),
    Other,
}

/// The role of an entity, read from its atom.
pub open spec fn kind_of(ws: WorkspaceV, e: Entity) -> EntityKind {
    if !ws.atoms.contains_key(e.id) {
        EntityKind::Other
    } else {
        match ws.atoms[e.id] {
            AtomV::Value(_) => EntityKind::Quantity,
            AtomV::Variable(_) => EntityKind::Variable,
            AtomV::Constant(_) => EntityKind::Constant,
            AtomV::Function(_) => EntityKind::Function,
            AtomV::Operator(op) => EntityKind::Operator(op),
            AtomV::Container(_) => EntityKind::Container,
            _ => EntityKind::Other,
        }
    }
}

/// Whether two adjacent entities imply a multiplication between them.
pub open spec fn spec_inject_mul(left: EntityKind, right: EntityKind) -> bool {
    match (left, right) {
        (EntityKind::Quantity, EntityKind::Container) => true,
        (EntityKind::Quantity, EntityKind::Variable) => true,
        (EntityKind::Quantity, EntityKind::Constant) => true,
        (EntityKind::Container, EntityKind::Container) => true,
        (EntityKind::Container, EntityKind::Variable) => true,
        (EntityKind::Container, EntityKind::Constant) => true,
        (EntityKind::Variable, EntityKind::Container) => true,
        (EntityKind::Constant, EntityKind::Container) => true,
        _ => false,
    }
}

/// Whether two adjacent entities imply a multiplication between them.
pub fn should_inject_mul(left: EntityKind, right: EntityKind) -> (b: bool)
    ensures
        b == spec_inject_mul(left, right),
{
    match (left, right) {
        (EntityKind::Quantity, EntityKind::Container) => true,
        (EntityKind::Quantity, EntityKind::Variable) => true,
        (EntityKind::Quantity, EntityKind::Constant) => true,
        (EntityKind::Container, EntityKind::Container) => true,
        (EntityKind::Container, EntityKind::Variable) => true,
        (EntityKind::Container, EntityKind::Constant) => true,
        (EntityKind::Variable, EntityKind::Container) => true,
        (EntityKind::Constant, EntityKind::Container) => true,
        _ => false,
    }
}

/// How tightly an operator binds (0: not an operator for precedence purposes).
pub open spec fn spec_precedence(op: OpCode) -> u8 {
    match op {
        OpCode::Call => 11,
        OpCode::Fend(FendOp::Pow) => 10,
        OpCode::Fend(FendOp::Mul) | OpCode::Fend(FendOp::Div) | OpCode::Fend(FendOp::Mod) => 9,
        OpCode::Fend(FendOp::Add) | OpCode::Fend(FendOp::Sub) => 8,
        OpCode::Fend(FendOp::To) => 7,
        OpCode::Fend(FendOp::Equals) | OpCode::Fend(FendOp::DoubleEquals) | OpCode::Fend(FendOp::NotEquals)
        | OpCode::Greater | OpCode::Less | OpCode::GreaterEqual | OpCode::LessEqual | OpCode::AddAssign
        | OpCode::SubAssign | OpCode::MulAssign | OpCode::DivAssign => 6,
        OpCode::Sequence | OpCode::Fend(FendOp::Semicolon) => 5,
        OpCode::Comma => 4,
        _ => 0,
    }
}

/// How tightly an operator binds (0: not an operator for precedence purposes).
pub fn get_precedence(op: OpCode) -> (p: u8)
    ensures
        p == spec_precedence(op),
{
    match op {
        OpCode::Call => 11,
        OpCode::Fend(FendOp::Pow) => 10,
        OpCode::Fend(FendOp::Mul) | OpCode::Fend(FendOp::Div) | OpCode::Fend(FendOp::Mod) => 9,
        OpCode::Fend(FendOp::Add) | OpCode::Fend(FendOp::Sub) => 8,
        OpCode::Fend(FendOp::To) => 7,
        OpCode::Fend(FendOp::Equals) | OpCode::Fend(FendOp::DoubleEquals) | OpCode::Fend(FendOp::NotEquals)
        | OpCode::Greater | OpCode::Less | OpCode::GreaterEqual | OpCode::LessEqual | OpCode::AddAssign
        | OpCode::SubAssign | OpCode::MulAssign | OpCode::DivAssign => 6,
        OpCode::Sequence | OpCode::Fend(FendOp::Semicolon) => 5,
        OpCode::Comma => 4,
        _ => 0,
    }
}

/// How operators rank: `+` and `-` alike, below `*`, `/` and `mod` (alike), below `^`,
/// below a call; a conversion `to` below `+` and `-`, and `=` below that.
pub proof fn lemma_precedence_ranks()
    ensures
        spec_precedence(OpCode::Fend(FendOp::Add)) == spec_precedence(OpCode::Fend(FendOp::Sub)),
        spec_precedence(OpCode::Fend(FendOp::Mul)) == spec_precedence(OpCode::Fend(FendOp::Div)),
        spec_precedence(OpCode::Fend(FendOp::Mul)) == spec_precedence(OpCode::Fend(FendOp::Mod)),
        0 < spec_precedence(OpCode::Fend(FendOp::Equals)) < spec_precedence(OpCode::Fend(FendOp::To)),
        spec_precedence(OpCode::Fend(FendOp::To)) < spec_precedence(OpCode::Fend(FendOp::Add)),
        spec_precedence(OpCode::Fend(FendOp::Sub)) < spec_precedence(OpCode::Fend(FendOp::Mul)),
        spec_precedence(OpCode::Fend(FendOp::Mul)) < spec_precedence(OpCode::Fend(FendOp::Pow)),
        spec_precedence(OpCode::Fend(FendOp::Pow)) < spec_precedence(OpCode::Call),
{
}

/// Whether `f` is `+` or `-`.
pub open spec fn additive(f: FendOp) -> bool {
    f == FendOp::Add || f == FendOp::Sub
}

/// Whether `f` is `*`, `/` or `mod`.
pub open spec fn multiplicative(f: FendOp) -> bool {
    f == FendOp::Mul || f == FendOp::Div || f == FendOp::Mod
}

/// Whether `e` is a value (a number) of `ws`, at an offset of its own.
pub open spec fn value_at(ws: WorkspaceV, e: Entity) -> bool {
    &&& ws.atoms.contains_key(e.id)
    &&& ws.atoms[e.id] is Value
    &&& e.id < ws.next_id
    &&& e.offset != u32::MAX
}

/// Whether `e` is the operator `f` of `ws`, at an offset of its own.
pub open spec fn operator_at(ws: WorkspaceV, e: Entity, f: FendOp) -> bool {
    &&& ws.atoms.contains_key(e.id)
    &&& ws.atoms[e.id] == AtomV::Operator(OpCode::Fend(f))
    &&& e.id < ws.next_id
    &&& e.offset != u32::MAX
}

/// Multiplication binds tighter than addition and subtraction: the reverse Polish order
/// of `a o1 b o2 c`, with `o1` additive and `o2` multiplicative, is `a b c o2 o1`, so
/// that `b o2 c` is computed first; with the two the other way round, `a o2 b o1 c`
/// gives `a b o2 c o1`.
pub proof fn lemma_rpn_binds_tighter(
    ws: WorkspaceV,
    cid: i32,
    parent_offset: u32,
    lower: int,
    bound: int,
    a: Entity,
    o1: Entity,
    b: Entity,
    o2: Entity,
    c: Entity,
    f1: FendOp,
    f2: FendOp,
)
    requires
        0 <= ws.next_id < i32::MAX,
        value_at(ws, a),
        value_at(ws, b),
        value_at(ws, c),
        additive(f1),
        multiplicative(f2),
    ensures
        operator_at(ws, o1, f1) && operator_at(ws, o2, f2) && contents_of(ws, cid) == seq![a, o1, b, o2, c]
            ==> rpn(ws, cid, parent_offset, lower, bound).1 == seq![a, b, c, o2, o1],
        operator_at(ws, o1, f2) && operator_at(ws, o2, f1) && contents_of(ws, cid) == seq![a, o1, b, o2, c]
            ==> rpn(ws, cid, parent_offset, lower, bound).1 == seq![a, b, o1, c, o2],
{
    let es = contents_of(ws, cid);
    let (mul_id, ws1) = spec_intern_typed(ws, AtomV::Operator(OpCode::Fend(FendOp::Mul)));
    if es == seq![a, o1, b, o2, c] && ws.atoms.contains_key(o1.id) && ws.atoms.contains_key(o2.id)
        && o1.id < ws.next_id && o2.id < ws.next_id && o1.offset != u32::MAX && o2.offset != u32::MAX
        && ws.atoms[o1.id] is Operator && ws.atoms[o2.id] is Operator {
        assert(ws1.atoms[a.id] == ws.atoms[a.id]);
        assert(ws1.atoms[b.id] == ws.atoms[b.id]);
        assert(ws1.atoms[c.id] == ws.atoms[c.id]);
        assert(ws1.atoms[o1.id] == ws.atoms[o1.id]);
        assert(ws1.atoms[o2.id] == ws.atoms[o2.id]);
        assert(es[0] == a && es[1] == o1 && es[2] == b && es[3] == o2 && es[4] == c);
        let s0 = rpn_fold(ws1, es, parent_offset, mul_id, lower, bound, 0);
        assert(s0.out == Seq::<Entity>::empty() && s0.ops == Seq::<Entity>::empty() && s0.last is None && s0.ws == ws1);
        let s1 = rpn_fold(ws1, es, parent_offset, mul_id, lower, bound, 1);
        assert(s1.out == seq![a] && s1.ops == Seq::<Entity>::empty() && s1.last == Some(EntityKind::Quantity) && s1.ws == ws1);
        let s2 = rpn_fold(ws1, es, parent_offset, mul_id, lower, bound, 2);
        assert(s2.out == seq![a] && s2.ops == seq![o1] && s2.ws == ws1);
        let s3 = rpn_fold(ws1, es, parent_offset, mul_id, lower, bound, 3);
        assert(s3.out == seq![a, b] && s3.ops == seq![o1] && s3.last == Some(EntityKind::Quantity) && s3.ws == ws1);
        let s4 = rpn_fold(ws1, es, parent_offset, mul_id, lower, bound, 4);
        let s5 = rpn_fold(ws1, es, parent_offset, mul_id, lower, bound, 5);
        if ws.atoms[o1.id] == AtomV::Operator(OpCode::Fend(f1)) && ws.atoms[o2.id] == AtomV::Operator(OpCode::Fend(f2)) {
            assert(prec_of(ws1, o1.id) == 8);
            assert(prec_of(ws1, o2.id) == 9);
            assert(pop_ops(ws1, 9, seq![o1], seq![a, b]) == (seq![o1], seq![a, b]));
            assert(s4.out == seq![a, b] && s4.ops == seq![o1, o2] && s4.ws == ws1);
            assert(s5.out == seq![a, b, c] && s5.ops == seq![o1, o2]);
            assert(s5.out + s5.ops.reverse() =~= seq![a, b, c, o2, o1]);
        }
        if ws.atoms[o1.id] == AtomV::Operator(OpCode::Fend(f2)) && ws.atoms[o2.id] == AtomV::Operator(OpCode::Fend(f1)) {
            assert(prec_of(ws1, o1.id) == 9);
            assert(prec_of(ws1, o2.id) == 8);
            assert(seq![o1].drop_last() =~= Seq::<Entity>::empty());
            assert(seq![a, b].push(o1) =~= seq![a, b, o1]);
            assert(pop_ops(ws1, 8, Seq::<Entity>::empty(), seq![a, b, o1]) == (Seq::<Entity>::empty(), seq![a, b, o1]));
            assert(pop_ops(ws1, 8, seq![o1], seq![a, b]) == (Seq::<Entity>::empty(), seq![a, b, o1]));
            assert(s4.out == seq![a, b, o1] && s4.ops == seq![o2] && s4.ws == ws1);
            assert(s5.out == seq![a, b, o1, c] && s5.ops == seq![o2]);
            assert(s5.out + s5.ops.reverse() =~= seq![a, b, o1, c, o2]);
        }
    }
}

/// The tape of `a b c o2 o1` computes `b o2 c` first and feeds it to `o1`: its first
/// instruction is `o2` on `b` and `c`, its second `o1` on `a` and the first.
pub proof fn lemma_tape_operand_order(ws: WorkspaceV, a: Entity, b: Entity, c: Entity, o1: Entity, o2: Entity, f1: FendOp, f2: FendOp)
    requires
        0 <= ws.next_id,
        ws.next_id + 2 <= i32::MAX,
        value_at(ws, a),
        value_at(ws, b),
        value_at(ws, c),
        operator_at(ws, o1, f1),
        operator_at(ws, o2, f2),
    ensures
        ({
            let st = tape_fold(ws, seq![a, b, c, o2, o1], 5);
            &&& st.err is None
            &&& st.tape.len() == 2
            &&& st.ws.atoms[st.tape[0].id] == AtomV::Instruction { op: OpCode::Fend(f2), args: seq![b.id, c.id] }
            &&& st.ws.atoms[st.tape[1].id] == AtomV::Instruction { op: OpCode::Fend(f1), args: seq![a.id, st.tape[0].id] }
            &&& st.stack == seq![st.tape[1].id]
        }),
{
    let r = seq![a, b, c, o2, o1];
    assert(r[0] == a && r[1] == b && r[2] == c && r[3] == o2 && r[4] == o1);
    let t0 = tape_fold(ws, r, 0);
    assert(t0.stack == Seq::<i32>::empty() && t0.ws == ws && t0.tape.len() == 0 && t0.err is None);
    let t1 = tape_fold(ws, r, 1);
    assert(t1.stack == seq![a.id] && t1.ws == ws && t1.tape.len() == 0 && t1.err is None);
    let t2 = tape_fold(ws, r, 2);
    assert(t2.stack == seq![a.id, b.id] && t2.ws == ws && t2.tape.len() == 0 && t2.err is None);
    let t3 = tape_fold(ws, r, 3);
    assert(t3.stack == seq![a.id, b.id, c.id] && t3.ws == ws && t3.tape.len() == 0 && t3.err is None);
    let t4 = tape_fold(ws, r, 4);
    let n0 = ws.next_id as i32;
    assert(t3.stack.drop_last().drop_last() =~= seq![a.id]);
    assert(t4.stack =~= seq![a.id, n0]);
    assert(t4.tape =~= seq![Entity { id: n0, offset: o2.offset }]);
    assert(t4.ws.atoms[n0] == AtomV::Instruction { op: OpCode::Fend(f2), args: seq![b.id, c.id] });
    assert(t4.ws.atoms[o1.id] == ws.atoms[o1.id]);
    let t5 = tape_fold(ws, r, 5);
    assert(t4.stack.drop_last().drop_last() =~= Seq::<i32>::empty());
    assert(t5.tape[0] == t4.tape[0]);
    assert(t5.ws.atoms[n0] == t4.ws.atoms[n0]);
}

/// The precedence of the atom `id`: an operator's own, a function's that of a call.
pub open spec fn prec_of(ws: WorkspaceV, id: i32) -> u8 {
    if ws.atoms.contains_key(id) {
        match ws.atoms[id] {
            AtomV::Operator(op) => spec_precedence(op),
            AtomV::Function(_) => spec_precedence(OpCode::Call),
            _ => 0,
        }
    } else {
        0
    }
}

/// Moves operators that bind at least as tightly as `prec` from the stack to the output.
pub open spec fn pop_ops(ws: WorkspaceV, prec: u8, ops: Seq<Entity>, out: Seq<Entity>) -> (Seq<Entity>, Seq<Entity>)
    decreases ops.len(),
{
    if ops.len() > 0 && prec_of(ws, ops.last().id) >= prec && prec_of(ws, ops.last().id) != 0 {
        pop_ops(ws, prec, ops.drop_last(), out.push(ops.last()))
    } else {
        (ops, out)
    }
}

/// The shunting-yard handling of operator `op_id` at `offset`.
pub open spec fn push_op(ws: WorkspaceV, op_id: i32, ops: Seq<Entity>, out: Seq<Entity>, offset: u32) -> (Seq<Entity>, Seq<Entity>) {
    let (ops1, out1) = pop_ops(ws, prec_of(ws, op_id), ops, out);
    (ops1.push(Entity { id: op_id, offset: offset }), out1)
}

/// The state of the shunting-yard pass over a container.
pub struct RpnState {
    pub ws: WorkspaceV,
    pub out: Seq<Entity>,
    pub ops: Seq<Entity>,
    pub last: Option<EntityKind>,
}

/// An entity whose offset is the "inherit" marker takes its parent's offset.
pub open spec fn inherit(e: Entity, parent_offset: u32) -> Entity {
    if e.offset == u32::MAX { Entity { id: e.id, offset: parent_offset } } else { e }
}

/// The reverse Polish notation of a container's contents, after the first `n` entities.
pub open spec fn rpn_fold(
    ws: WorkspaceV,
    es: Seq<Entity>,
    parent_offset: u32,
    mul_id: i32,
    lower: int,
    bound: int,
    n: int,
) -> RpnState
    decreases bound - lower, n, 0int,
{
    if n <= 0 || n > es.len() {
        RpnState { ws: ws, out: Seq::empty(), ops: Seq::empty(), last: None }
    } else {
        let prev = rpn_fold(ws, es, parent_offset, mul_id, lower, bound, n - 1);
        let e = inherit(es[n - 1], parent_offset);
        let kind = kind_of(prev.ws, e);
        let (ops1, out1) = if prev.last is Some && spec_inject_mul(prev.last->Some_0, kind) {
            push_op(prev.ws, mul_id, prev.ops, prev.out, e.offset)
        } else {
            (prev.ops, prev.out)
        };
        match kind {
            EntityKind::Quantity | EntityKind::Variable | EntityKind::Constant | EntityKind::Other => {
                RpnState { ws: prev.ws, out: out1.push(e), ops: ops1, last: Some(kind) }
            },
            EntityKind::Container => {
                let cid = prev.ws.atoms[e.id]->Container_0;
                if !prev.ws.containers.contains_key(cid) {
                    RpnState {
                        ws: spec_intern_typed(prev.ws, AtomV::Operator(OpCode::Fend(FendOp::Mul))).1,
                        out: out1,
                        ops: ops1,
                        last: Some(kind),
                    }
                } else if lower < cid < bound {
                    let (ws2, nested) = rpn(prev.ws, cid, e.offset, cid as int, bound);
                    RpnState { ws: ws2, out: out1 + nested, ops: ops1, last: Some(kind) }
                } else {
                    RpnState { ws: prev.ws, out: out1, ops: ops1, last: Some(kind) }
                }
            },
            EntityKind::Operator(_) => {
                let (ops2, out2) = push_op(prev.ws, e.id, ops1, out1, e.offset);
                RpnState { ws: prev.ws, out: out2, ops: ops2, last: Some(kind) }
            },
            EntityKind::Function => {
                RpnState { ws: prev.ws, out: out1, ops: ops1.push(e), last: Some(kind) }
            },
        }
    }
}

/// The contents of container `cid`, or nothing.
pub open spec fn contents_of(ws: WorkspaceV, cid: i32) -> Seq<Entity> {
    if ws.containers.contains_key(cid) { ws.containers[cid].contents } else { Seq::empty() }
}

/// The reverse Polish notation of container `cid` (nested containers spliced in);
/// mints a multiplication atom for implied products on every call.
pub open spec fn rpn(ws: WorkspaceV, cid: i32, parent_offset: u32, lower: int, bound: int) -> (WorkspaceV, Seq<Entity>)
    decreases bound - lower, contents_of(ws, cid).len(), 1int,
{
    let es = contents_of(ws, cid);
    let (mul_id, ws1) = spec_intern_typed(ws, AtomV::Operator(OpCode::Fend(FendOp::Mul)));
    let st = rpn_fold(ws1, es, parent_offset, mul_id, lower, bound, es.len() as int);
    (st.ws, st.out + st.ops.reverse())
}

/// The state of tape generation.
pub struct TapeState {
    pub ws: WorkspaceV,
    pub stack: Seq<i32>,
    /// The minted instructions, each at the offset of the operator or function it
    /// comes from.
    pub tape: Seq<Entity>,
    pub err: Option<u32>,
}

/// Mints an instruction, records it on the tape at `off` and pushes it on the value stack.
pub open spec fn instr(st: TapeState, stack: Seq<i32>, op: OpCode, args: Seq<i32>, off: u32) -> TapeState {
    let id = st.ws.next_id as i32;
    TapeState {
        ws: WorkspaceV {
            next_id: st.ws.next_id + 1,
            atoms: st.ws.atoms.insert(id, AtomV::Instruction { op: op, args: args }),
            ..st.ws
        },
        stack: stack.push(id),
        tape: st.tape.push(Entity { id: id, offset: off }),
        err: None,
    }
}

/// Whether an operator assigns (or queries): `=` and the compound assignments.
pub open spec fn is_assign_like(op: OpCode) -> bool {
    op == OpCode::Fend(FendOp::Equals) || op == OpCode::AddAssign || op == OpCode::SubAssign
        || op == OpCode::MulAssign || op == OpCode::DivAssign
}

/// Tape generation over the first `n` entities of `rpn`; stops at the first error.
pub open spec fn tape_fold(ws: WorkspaceV, rpn: Seq<Entity>, n: int) -> TapeState
    decreases n,
{
    if n <= 0 || n > rpn.len() {
        TapeState { ws: ws, stack: Seq::empty(), tape: Seq::empty(), err: None }
    } else {
        let st = tape_fold(ws, rpn, n - 1);
        let e = rpn[n - 1];
        if st.err is Some {
            st
        } else if st.ws.atoms.contains_key(e.id) && st.ws.atoms[e.id] is Operator {
            let op = st.ws.atoms[e.id]->Operator_0;
            let s = st.stack;
            if s.len() >= 2 {
                instr(st, s.drop_last().drop_last(), op, seq![s[s.len() - 2], s.last()], e.offset)
            } else if s.len() == 1 && is_assign_like(op) {
                instr(st, s.drop_last(), op, seq![s.last()], e.offset)
            } else {
                TapeState { err: Some(e.offset), ..st }
            }
        } else if st.ws.atoms.contains_key(e.id) && st.ws.atoms[e.id] is Function {
            let s = st.stack;
            if s.len() >= 1 {
                instr(st, s.drop_last(), OpCode::Call, seq![e.id, s.last()], e.offset)
            } else {
                TapeState { err: Some(e.offset), ..st }
            }
        } else {
            TapeState { stack: st.stack.push(e.id), ..st }
        }
    }
}

/// The outcome of tape generation: an error offset, or the final value's id (if any).
pub open spec fn tape_outcome(st: TapeState) -> Result<Option<i32>, u32> {
    if st.err is Some {
        Err(st.err->Some_0)
    } else if st.stack.len() > 1 {
        Err(0)
    } else if st.stack.len() == 1 {
        Ok(Some(st.stack[0]))
    } else {
        Ok(None)
    }
}


/// The start of container `cid`, or the origin.
pub open spec fn start_of(ws: WorkspaceV, cid: i32) -> Position {
    if ws.containers.contains_key(cid) {
        ws.containers[cid].start_pos
    } else {
        Position { offset: 0, line: 0, col: 0 }
    }
}

/// Whether container `cid` exists and is marked corrupted.
pub open spec fn corrupted_of(ws: WorkspaceV, cid: i32) -> bool {
    ws.containers.contains_key(cid) && ws.containers[cid].corrupted
}

/// Stores a new tape container and points `line_id` at it.
pub open spec fn commit_tape(ws: WorkspaceV, line_id: i32, contents: Seq<Entity>, corrupted: bool, start: Position) -> WorkspaceV {
    let tape_id = ws.next_id as i32;
    WorkspaceV {
        next_id: ws.next_id + 1,
        containers: ws.containers.insert(tape_id, ContainerV { contents: contents, corrupted: corrupted, start_pos: start }),
        container_order: if ws.containers.contains_key(tape_id) { ws.container_order } else { ws.container_order.push(tape_id) },
        atoms: ws.atoms.insert(line_id, AtomV::Container(tape_id)),
        ..ws
    }
}

/// A `MalformedExpression` diagnostic at `offset`.
pub open spec fn malformed(offset: u32) -> Diagnostic {
    Diagnostic {
        code: DiagnosticCode::MalformedExpression,
        span: Span {
            start: Position { offset: offset, line: 0, col: 0 },
            end: Position { offset: offset, line: 0, col: 0 },
        },
    }
}

/// Unrolls one line: the root entity `e`. The tape keeps the line's corrupted mark.
pub open spec fn unroll_line(ws: WorkspaceV, e: Entity, bound: int) -> WorkspaceV {
    if ws.atoms.contains_key(e.id) && ws.atoms[e.id] is Container {
        let cid = ws.atoms[e.id]->Container_0;
        let (ws1, rpn_es) = rpn(ws, cid, e.offset, 0, bound);
        let st = tape_fold(ws1, rpn_es, rpn_es.len() as int);
        let start = start_of(st.ws, cid);
        match tape_outcome(st) {
            Ok(Some(final_id)) => {
                let contents = if st.tape.len() == 0 {
                    seq![Entity { id: final_id, offset: e.offset }]
                } else {
                    st.tape
                };
                commit_tape(st.ws, e.id, contents, corrupted_of(st.ws, cid), start)
            },
            Ok(None) => st.ws,
            Err(err_offset) => {
                let (poison_id, ws3) = spec_intern_typed(st.ws, AtomV::Poison);
                let ws4 = commit_tape(ws3, e.id, seq![Entity { id: poison_id, offset: err_offset }], true, start);
                WorkspaceV { diagnostics: ws4.diagnostics.push(malformed(err_offset)), ..ws4 }
            },
        }
    } else {
        ws
    }
}

/// Unrolls the first `n` lines.
pub open spec fn unroll_fold(ws: WorkspaceV, root: Seq<Entity>, bound: int, n: int) -> WorkspaceV
    decreases n,
{
    if n <= 0 || n > root.len() {
        ws
    } else {
        unroll_line(unroll_fold(ws, root, bound, n - 1), root[n - 1], bound)
    }
}

/// The workspace after the unroller.
pub open spec fn spec_unroll(ws: WorkspaceV) -> WorkspaceV {
    if ws.containers.contains_key(0) {
        let root = ws.containers[0].contents;
        unroll_fold(ws, root, ws.next_id, root.len() as int)
    } else {
        ws
    }
}

// ---------------------------------------------------------------------------
// The executable unroller.
// ---------------------------------------------------------------------------

/// What the shunting-yard and tape passes keep of a workspace: everything but new
/// atoms minted at fresh ids (none of them a container).
pub open spec fn unroll_frame(a: WorkspaceV, b: WorkspaceV) -> bool {
    &&& b.next_id >= a.next_id
    &&& b.containers == a.containers
    &&& b.container_order == a.container_order
    &&& b.intern == a.intern
    &&& b.comments == a.comments
    &&& b.diagnostics == a.diagnostics
    &&& forall|x: i32| x < a.next_id ==> (#[trigger] b.atoms.contains_key(x) == a.atoms.contains_key(x)
        && (b.atoms.contains_key(x) ==> b.atoms[x] == a.atoms[x]))
    &&& forall|x: i32| #[trigger] b.atoms.contains_key(x) && b.atoms[x] is Container
        ==> a.atoms.contains_key(x) && b.atoms[x] == a.atoms[x]
}

/// The frame is transitive.
pub proof fn lemma_unroll_frame_trans(a: WorkspaceV, b: WorkspaceV, c: WorkspaceV)
    requires
        unroll_frame(a, b),
        unroll_frame(b, c),
    ensures
        unroll_frame(a, c),
{
}

/// Under the frame, small entity ids keep what they refer to and nesting is kept.
#[verifier::spinoff_prover]
pub proof fn lemma_unroll_frame_nested(a: WorkspaceV, b: WorkspaceV, lim: int)
    requires
        unroll_frame(a, b),
        lim <= a.next_id,
        nested_below(a, lim),
    ensures
        nested_below(b, lim),
        forall|e: Entity| e.id < lim ==> #[trigger] child_of(b, e) == child_of(a, e),
{
}

/// The role of an entity, read from its atom.
pub fn get_entity_kind(ws: &Workspace, entity: &Entity) -> (k: EntityKind)
    requires
        ws.wf(),
    ensures
        k == kind_of(ws@, *entity),
{
    match ws.atoms.get(entity.id) {
        Some(Atom::Value(_)) => EntityKind::Quantity,
        Some(Atom::Variable(_)) => EntityKind::Variable,
        Some(Atom::Constant(_)) => EntityKind::Constant,
        Some(Atom::Function(_)) => EntityKind::Function,
        Some(Atom::Operator(op)) => EntityKind::Operator(*op),
        Some(Atom::Container(_)) => EntityKind::Container,
        _ => EntityKind::Other,
    }
}

/// The precedence of the atom `id`.
fn prec_of_exec(ws: &Workspace, id: i32) -> (p: u8)
    requires
        ws.wf(),
    ensures
        p == prec_of(ws@, id),
{
    match ws.atoms.get(id) {
        Some(Atom::Operator(op)) => get_precedence(*op),
        Some(Atom::Function(_)) => get_precedence(OpCode::Call),
        _ => 0,
    }
}

/// The shunting-yard handling of operator `op_id`: pops operators that bind at least
/// as tightly to the output, then pushes `op_id`.
fn process_operator(ws: &Workspace, op_id: i32, operator_stack: &mut Vec<Entity>, output_queue: &mut Vec<Entity>, offset: u32)
    requires
        ws.wf(),
    ensures
        (final(operator_stack)@, final(output_queue)@) == push_op(ws@, op_id, old(operator_stack)@, old(output_queue)@, offset),
{
    let current_prec = prec_of_exec(ws, op_id);
    let ghost target = pop_ops(ws@, current_prec, operator_stack@, output_queue@);
    loop
        invariant_except_break
            ws.wf(),
            current_prec == prec_of(ws@, op_id),
            pop_ops(ws@, current_prec, operator_stack@, output_queue@) == target,
        ensures
            (operator_stack@, output_queue@) == target,
        decreases operator_stack@.len(),
    {
        if operator_stack.len() == 0 {
            break;
        }
        let top = operator_stack[operator_stack.len() - 1];
        let top_prec = prec_of_exec(ws, top.id);
        if top_prec >= current_prec && top_prec != 0 {
            let t = operator_stack.pop().unwrap();
            output_queue.push(t);
        } else {
            break;
        }
    }
    operator_stack.push(Entity { id: op_id, offset });
}

/// The reverse Polish notation of container `container_id`, nested containers spliced in.
fn get_rpn(
    ws: &mut Workspace,
    container_id: i32,
    parent_offset: u32,
    Ghost(lower): Ghost<int>,
    Ghost(lim): Ghost<int>,
    Ghost(bound): Ghost<int>,
) -> (r: Vec<Entity>)
    requires
        old(ws).wf(),
        atoms_below(old(ws)@),
        nested_below(old(ws)@, lim),
        0 <= lower,
        lim <= bound,
        lim <= old(ws)@.next_id,
        forall|i: int| 0 <= i < contents_of(old(ws)@, container_id).len()
            ==> nested_entity(old(ws)@, lower, #[trigger] contents_of(old(ws)@, container_id)[i], lim),
        rpn(old(ws)@, container_id, parent_offset, lower, bound).0.next_id < i32::MAX,
    ensures
        final(ws).wf(),
        (final(ws)@, r@) == rpn(old(ws)@, container_id, parent_offset, lower, bound),
        unroll_frame(old(ws)@, final(ws)@),
        atoms_below(final(ws)@),
    decreases bound - lower,
{
    let ghost ws0 = ws@;
    let contents = match ws.container(container_id) {
        Some(c) => c.contents,
        None => Vec::new(),
    };
    assert(contents@ == contents_of(ws0, container_id));
    let ghost es = contents@;
    let ghost fin = rpn(ws0, container_id, parent_offset, lower, bound);
    proof {
        lemma_rpn_mono(ws0, container_id, parent_offset, lower, bound);
        let (mul_id, ws1) = spec_intern_typed(ws0, AtomV::Operator(OpCode::Fend(FendOp::Mul)));
        lemma_rpn_fold_mono(ws1, es, parent_offset, mul_id, lower, bound, es.len() as int);
    }
    let mul_op_id = ws.get_or_intern_atom_typed(Atom::Operator(OpCode::Fend(FendOp::Mul)));
    let ghost ws1 = ws@;
    assert(unroll_frame(ws0, ws1));
    let mut output_queue: Vec<Entity> = Vec::new();
    let mut operator_stack: Vec<Entity> = Vec::new();
    let mut last_kind: Option<EntityKind> = None;
    let mut i: usize = 0;
    while i < contents.len()
        invariant
            ws.wf(),
            es == contents@,
            i <= es.len(),
            (RpnState { ws: ws@, out: output_queue@, ops: operator_stack@, last: last_kind })
                == rpn_fold(ws1, es, parent_offset, mul_op_id, lower, bound, i as int),
            fin.0 == rpn_fold(ws1, es, parent_offset, mul_op_id, lower, bound, es.len() as int).ws,
            fin.0.next_id < i32::MAX,
            forall|m: int| 0 <= m <= es.len() ==> #[trigger] rpn_fold(ws1, es, parent_offset, mul_op_id, lower, bound, m).ws.next_id
                <= rpn_fold(ws1, es, parent_offset, mul_op_id, lower, bound, es.len() as int).ws.next_id,
            unroll_frame(ws0, ws@),
            atoms_below(ws@),
            nested_below(ws0, lim),
            0 <= lower,
            lim <= bound,
            lim <= ws0.next_id,
            forall|q: int| 0 <= q < es.len() ==> nested_entity(ws0, lower, #[trigger] es[q], lim),
        decreases es.len() - i,
    {
        let ghost prev_ws = ws@;
        let mut entity = contents[i];
        if entity.offset == u32::MAX {
            entity.offset = parent_offset;
        }
        assert(entity == inherit(es[i as int], parent_offset));
        let kind = get_entity_kind(ws, &entity);
        match last_kind {
            Some(lk) => {
                if should_inject_mul(lk, kind) {
                    process_operator(ws, mul_op_id, &mut operator_stack, &mut output_queue, entity.offset);
                }
            },
            None => {},
        }
        proof {
            assert(rpn_fold(ws1, es, parent_offset, mul_op_id, lower, bound, i + 1).ws.next_id <= fin.0.next_id);
        }
        match kind {
            EntityKind::Container => {
                let cid = match ws.atoms.get(entity.id) {
                    Some(Atom::Container(c)) => *c,
                    _ => 0,
                };
                if !ws.containers.contains_key(cid) {
                    let _unused = ws.get_or_intern_atom_typed(Atom::Operator(OpCode::Fend(FendOp::Mul)));
                } else {
                    proof {
                        lemma_unroll_frame_nested(ws0, prev_ws, lim);
                        assert(nested_entity(ws0, lower, es[i as int], lim));
                        assert(child_of(ws0, entity) == child_of(prev_ws, entity));
                        assert forall|q: int| 0 <= q < contents_of(prev_ws, cid).len()
                            implies nested_entity(prev_ws, cid as int, #[trigger] contents_of(prev_ws, cid)[q], lim) by {
                            assert(contents_of(prev_ws, cid)[q] == prev_ws.containers[cid].contents[q]);
                        }
                    }
                    let nested = get_rpn(ws, cid, entity.offset, Ghost(cid as int), Ghost(lim), Ghost(bound));
                    let mut k: usize = 0;
                    let ghost out0 = output_queue@;
                    while k < nested.len()
                        invariant
                            k <= nested@.len(),
                            output_queue@ == out0 + nested@.take(k as int),
                        decreases nested@.len() - k,
                    {
                        output_queue.push(nested[k]);
                        k = k + 1;
                        assert(output_queue@ =~= out0 + nested@.take(k as int));
                    }
                    assert(nested@.take(nested@.len() as int) =~= nested@);
                }
                last_kind = Some(kind);
            },
            EntityKind::Operator(_) => {
                process_operator(ws, entity.id, &mut operator_stack, &mut output_queue, entity.offset);
                last_kind = Some(kind);
            },
            EntityKind::Function => {
                operator_stack.push(entity);
                last_kind = Some(kind);
            },
            _ => {
                output_queue.push(entity);
                last_kind = Some(kind);
            },
        }
        proof {
            lemma_unroll_frame_trans(ws0, prev_ws, ws@);
        }
        i = i + 1;
    }
    let ghost out_before = output_queue@;
    let ghost ops_before = operator_stack@;
    while operator_stack.len() > 0
        invariant
            output_queue@ + operator_stack@.reverse() == out_before + ops_before.reverse(),
        decreases operator_stack@.len(),
    {
        let ghost o = operator_stack@;
        let op = operator_stack.pop().unwrap();
        output_queue.push(op);
        assert(o.reverse() =~= seq![o.last()] + o.drop_last().reverse());
        assert(output_queue@ + operator_stack@.reverse() =~= out_before + ops_before.reverse());
    }
    assert(operator_stack@.reverse() =~= Seq::<Entity>::empty());
    assert(output_queue@ =~= out_before + ops_before.reverse());
    output_queue
}

/// Mints an instruction atom.
fn mint_instruction(ws: &mut Workspace, op: OpCode, args: Vec<i32>) -> (id: i32)
    requires
        old(ws).wf(),
        old(ws).next_id < i32::MAX,
    ensures
        final(ws).wf(),
        id == old(ws).next_id,
        final(ws)@ == (WorkspaceV {
            next_id: old(ws)@.next_id + 1,
            atoms: old(ws)@.atoms.insert(id, AtomV::Instruction { op: op, args: args@ }),
            ..old(ws)@
        }),
{
    let id = ws.next_id;
    ws.next_id = ws.next_id + 1;
    ws.set_atom(id, Atom::Instruction { op, args });
    id
}

/// Mints the instructions of a reverse Polish sequence onto `tape`, using a value
/// stack; fails with the offset of an operator that lacks operands, or 0 when more
/// than one value is left over.
fn generate_tape(ws: &mut Workspace, rpn: Vec<Entity>, tape: &mut Vec<Entity>) -> (r: Result<Option<i32>, u32>)
    requires
        old(ws).wf(),
        atoms_below(old(ws)@),
        tape_fold(old(ws)@, rpn@, rpn@.len() as int).ws.next_id < i32::MAX,
    ensures
        final(ws).wf(),
        final(ws)@ == tape_fold(old(ws)@, rpn@, rpn@.len() as int).ws,
        final(tape)@ == old(tape)@ + tape_fold(old(ws)@, rpn@, rpn@.len() as int).tape,
        r == tape_outcome(tape_fold(old(ws)@, rpn@, rpn@.len() as int)),
        unroll_frame(old(ws)@, final(ws)@),
        atoms_below(final(ws)@),
{
    let ghost ws0 = ws@;
    let ghost fin = tape_fold(ws0, rpn@, rpn@.len() as int);
    proof {
        lemma_tape_mono(ws0, rpn@, rpn@.len() as int);
    }
    let ghost t0 = tape@;
    let mut value_stack: Vec<i32> = Vec::new();
    let mut i: usize = 0;
    assert(tape@ =~= t0 + Seq::<Entity>::empty());
    while i < rpn.len()
        invariant
            ws.wf(),
            i <= rpn@.len(),
            t0 == old(tape)@,
            tape_fold(ws0, rpn@, i as int).err is None,
            ws@ == tape_fold(ws0, rpn@, i as int).ws,
            value_stack@ == tape_fold(ws0, rpn@, i as int).stack,
            tape@ == t0 + tape_fold(ws0, rpn@, i as int).tape,
            fin == tape_fold(ws0, rpn@, rpn@.len() as int),
            ws0 == old(ws)@,
            fin.ws.next_id < i32::MAX,
            forall|m: int| 0 <= m <= rpn@.len() ==> #[trigger] tape_fold(ws0, rpn@, m).ws.next_id <= fin.ws.next_id,
            unroll_frame(ws0, ws@),
            atoms_below(ws@),
        decreases rpn@.len() - i,
    {
        let entity = rpn[i];
        let ghost prev = ws@;
        assert(tape_fold(ws0, rpn@, i + 1).ws.next_id <= fin.ws.next_id);
        let sym = ws.atom(entity.id);
        match sym {
            Some(Atom::Operator(op)) => {
                let n = value_stack.len();
                if n >= 2 {
                    let ghost s0 = value_stack@;
                    let right = value_stack.pop().unwrap();
                    let left = value_stack.pop().unwrap();
                    let args = vec![left, right];
                    assert(args@ =~= seq![s0[s0.len() - 2], s0.last()]);
                    let id = mint_instruction(ws, op, args);
                    let ghost tb = tape@;
                    tape.push(Entity { id, offset: entity.offset });
                    assert(tape@ =~= tb.push(Entity { id, offset: entity.offset }));
                    value_stack.push(id);
                    assert(value_stack@ =~= s0.drop_last().drop_last().push(id));
                } else if n == 1
                    && (op == OpCode::Fend(FendOp::Equals) || op == OpCode::AddAssign || op == OpCode::SubAssign
                        || op == OpCode::MulAssign || op == OpCode::DivAssign) {
                    let ghost s0 = value_stack@;
                    let right = value_stack.pop().unwrap();
                    let args = vec![right];
                    assert(args@ =~= seq![s0.last()]);
                    let id = mint_instruction(ws, op, args);
                    let ghost tb = tape@;
                    tape.push(Entity { id, offset: entity.offset });
                    assert(tape@ =~= tb.push(Entity { id, offset: entity.offset }));
                    value_stack.push(id);
                    assert(value_stack@ =~= s0.drop_last().push(id));
                } else {
                    proof {
                        lemma_tape_stuck(ws0, rpn@, i as int);
                    }
                    return Err(entity.offset);
                }
            },
            Some(Atom::Function(_)) => {
                if value_stack.len() >= 1 {
                    let ghost s0 = value_stack@;
                    let a = value_stack.pop().unwrap();
                    let args = vec![entity.id, a];
                    assert(args@ =~= seq![entity.id, s0.last()]);
                    let id = mint_instruction(ws, OpCode::Call, args);
                    let ghost tb = tape@;
                    tape.push(Entity { id, offset: entity.offset });
                    assert(tape@ =~= tb.push(Entity { id, offset: entity.offset }));
                    value_stack.push(id);
                } else {
                    proof {
                        lemma_tape_stuck(ws0, rpn@, i as int);
                    }
                    return Err(entity.offset);
                }
            },
            _ => {
                value_stack.push(entity.id);
            },
        }
        i = i + 1;
    }
    if value_stack.len() > 1 {
        return Err(0);
    }
    Ok(value_stack.pop())
}

/// Once tape generation fails, later entities change nothing.
proof fn lemma_tape_stuck(ws: WorkspaceV, r: Seq<Entity>, i: int)
    requires
        0 <= i < r.len(),
        tape_fold(ws, r, i + 1).err is Some,
    ensures
        forall|m: int| i + 1 <= m <= r.len() ==> #[trigger] tape_fold(ws, r, m) == tape_fold(ws, r, i + 1),
{
    assert forall|m: int| i + 1 <= m <= r.len() implies #[trigger] tape_fold(ws, r, m) == tape_fold(ws, r, i + 1) by {
        lemma_tape_stuck_to(ws, r, i, m);
    }
}

proof fn lemma_tape_stuck_to(ws: WorkspaceV, r: Seq<Entity>, i: int, m: int)
    requires
        0 <= i < r.len(),
        i + 1 <= m <= r.len(),
        tape_fold(ws, r, i + 1).err is Some,
    ensures
        tape_fold(ws, r, m) == tape_fold(ws, r, i + 1),
    decreases m,
{
    if m > i + 1 {
        lemma_tape_stuck_to(ws, r, i, m - 1);
    }
}

/// The line that `e` refers to (if any) only holds entities nested below `lim`.
pub open spec fn line_ok(ws: WorkspaceV, e: Entity, lim: int) -> bool {
    child_of(ws, e) is Some ==> forall|q: int| 0 <= q < contents_of(ws, child_of(ws, e)->Some_0).len()
        ==> nested_entity(ws, 0, #[trigger] contents_of(ws, child_of(ws, e)->Some_0)[q], lim)
}

/// The unroller's input is ready with nesting bound `lim`: nesting holds below `lim`,
/// ids are below the counter, and the root's entities are distinct ids at or above
/// `lim` whose lines only hold entities nested below `lim`.
pub open spec fn ready_with(ws: WorkspaceV, lim: int) -> bool {
    &&& 0 < lim <= ws.next_id
    &&& nested_below(ws, lim)
    &&& atoms_below(ws)
    &&& container_atoms_below(ws)
    &&& keys_below(ws)
    &&& ws.containers.contains_key(0) ==> {
        let root = ws.containers[0].contents;
        &&& forall|i: int, j: int| 0 <= i < root.len() && 0 <= j < root.len() && i != j ==> #[trigger] root[i].id != #[trigger] root[j].id
        &&& forall|i: int| 0 <= i < root.len() ==> #[trigger] root[i].id >= lim
        &&& forall|i: int| 0 <= i < root.len() ==> line_ok(ws, #[trigger] root[i], lim)
    }
}

/// The unroller's input is ready for some nesting bound.
pub open spec fn unroll_ready(ws: WorkspaceV) -> bool {
    exists|lim: int| ready_with(ws, lim)
}

/// What holds of the workspace between lines while unrolling.
pub open spec fn unroll_inv(ws0: WorkspaceV, ws: WorkspaceV, lim: int) -> bool {
    &&& atoms_below(ws)
    &&& container_atoms_below(ws)
    &&& ws.next_id >= ws0.next_id
    &&& forall|x: i32| x < ws0.next_id ==> (#[trigger] ws.containers.contains_key(x) == ws0.containers.contains_key(x)
        && (ws.containers.contains_key(x) ==> ws.containers[x] == ws0.containers[x]))
    &&& forall|x: i32| x < lim ==> (#[trigger] ws.atoms.contains_key(x) == ws0.atoms.contains_key(x)
        && (ws.atoms.contains_key(x) ==> ws.atoms[x] == ws0.atoms[x]))
    &&& ws.intern == ws0.intern
}

/// Unrolls one line: builds its reverse Polish notation and tape, and points the line
/// at a new tape container (or at a poisoned one, with a diagnostic).
fn unroll_line_exec(ws: &mut Workspace, entity: Entity, Ghost(ws0): Ghost<WorkspaceV>, Ghost(lim): Ghost<int>, Ghost(bound): Ghost<int>)
    requires
        old(ws).wf(),
        ready_with(ws0, lim),
        bound == ws0.next_id,
        unroll_inv(ws0, old(ws)@, lim),
        nested_below(old(ws)@, lim),
        entity.id >= lim,
        line_ok(ws0, entity, lim),
        (old(ws)@.atoms.contains_key(entity.id) && old(ws)@.atoms[entity.id] is Container) ==> (ws0.atoms.contains_key(entity.id)
            && old(ws)@.atoms[entity.id] == ws0.atoms[entity.id]),
        unroll_line(old(ws)@, entity, bound).next_id < i32::MAX,
    ensures
        final(ws).wf(),
        final(ws)@ == unroll_line(old(ws)@, entity, bound),
        unroll_inv(ws0, final(ws)@, lim),
        nested_below(final(ws)@, lim),
        forall|x: i32| x != entity.id && #[trigger] final(ws)@.atoms.contains_key(x) && final(ws)@.atoms[x] is Container
            ==> old(ws)@.atoms.contains_key(x) && final(ws)@.atoms[x] == old(ws)@.atoms[x],
{
    let ghost w0 = ws@;
    let a = ws.atom(entity.id);
    let is_container = match &a {
        Some(Atom::Container(_)) => true,
        _ => false,
    };
    if !is_container {
        return;
    }
    let cid = match a {
        Some(Atom::Container(c)) => c,
        _ => 0,
    };
    proof {
        lemma_rpn_mono(w0, cid, entity.offset, 0, bound);
        let (ws1, rpn_es) = rpn(w0, cid, entity.offset, 0, bound);
        lemma_tape_mono(ws1, rpn_es, rpn_es.len() as int);
        assert(cid < ws0.next_id);
        if w0.containers.contains_key(cid) {
            assert(child_of(ws0, entity) == Some(cid));
            assert forall|q: int| 0 <= q < contents_of(w0, cid).len() implies nested_entity(w0, 0, #[trigger] contents_of(w0, cid)[q], lim) by {
                let f = contents_of(w0, cid)[q];
                assert(f == contents_of(ws0, cid)[q]);
                assert(nested_entity(ws0, 0, contents_of(ws0, child_of(ws0, entity)->Some_0)[q], lim));
                if ws0.atoms.contains_key(f.id) && ws0.atoms[f.id] is Container {
                    assert(ws0.atoms[f.id]->Container_0 < ws0.next_id);
                }
            }
        }
    }
    let rpn_es = get_rpn(ws, cid, entity.offset, Ghost(0), Ghost(lim), Ghost(bound));
    let ghost w1 = ws@;
    let mut tape: Vec<Entity> = Vec::new();
    let result = generate_tape(ws, rpn_es, &mut tape);
    assert(tape@ =~= Seq::<Entity>::empty() + tape@);
    let ghost w2 = ws@;
    proof {
        lemma_unroll_frame_trans(w0, w1, w2);
        lemma_unroll_frame_nested(w0, w2, lim);
    }
    let (start_pos, line_corrupted) = match ws.containers.get(cid) {
        Some(c) => (c.start_pos, c.corrupted),
        None => (Position { offset: 0, line: 0, col: 0 }, false),
    };
    match result {
        Ok(Some(final_id)) => {
            let tape_es: Vec<Entity> = if tape.len() == 0 {
                let v = vec![Entity { id: final_id, offset: entity.offset }];
                assert(v@ =~= seq![Entity { id: final_id, offset: entity.offset }]);
                v
            } else {
                tape
            };
            let tape_id = ws.next_id;
            ws.next_id = ws.next_id + 1;
            ws.set_container(tape_id, Container { contents: tape_es, corrupted: line_corrupted, start_pos });
            ws.set_atom(entity.id, Atom::Container(tape_id));
        },
        Ok(None) => {},
        Err(err_offset) => {
            let poison_id = ws.get_or_intern_atom_typed(Atom::Poison);
            let tape_id = ws.next_id;
            ws.next_id = ws.next_id + 1;
            let mut contents: Vec<Entity> = Vec::new();
            contents.push(Entity { id: poison_id, offset: err_offset });
            assert(contents@ =~= seq![Entity { id: poison_id, offset: err_offset }]);
            ws.set_container(tape_id, Container { contents, corrupted: true, start_pos });
            ws.set_atom(entity.id, Atom::Container(tape_id));
            ws.diagnostics.push(Diagnostic {
                code: DiagnosticCode::MalformedExpression,
                span: Span {
                    start: Position { offset: err_offset, line: 0, col: 0 },
                    end: Position { offset: err_offset, line: 0, col: 0 },
                },
            });
        },
    }
}

/// The unroller: flattens every line of the root into a tape of instructions.
pub fn unroll(ws: &mut Workspace)
    requires
        old(ws).wf(),
        unroll_ready(old(ws)@),
        spec_unroll(old(ws)@).next_id < i32::MAX,
    ensures
        final(ws).wf(),
        final(ws)@ == spec_unroll(old(ws)@),
{
    let ghost ws0 = ws@;
    let ghost lim = choose|lim: int| ready_with(ws0, lim);
    let root = match ws.container(0) {
        Some(r) => r,
        None => {
            return;
        },
    };
    let root_contents = root.contents;
    let ghost rc = root_contents@;
    let ghost bound = ws0.next_id;
    proof {
        lemma_unroll_mono(ws0, rc, bound, rc.len() as int);
    }
    let mut i: usize = 0;
    while i < root_contents.len()
        invariant
            ws.wf(),
            rc == root_contents@,
            rc == ws0.containers[0].contents,
            ws0.containers.contains_key(0),
            ready_with(ws0, lim),
            bound == ws0.next_id,
            i <= rc.len(),
            ws@ == unroll_fold(ws0, rc, bound, i as int),
            unroll_fold(ws0, rc, bound, rc.len() as int).next_id < i32::MAX,
            forall|m: int| 0 <= m <= rc.len() ==> #[trigger] unroll_fold(ws0, rc, bound, m).next_id
                <= unroll_fold(ws0, rc, bound, rc.len() as int).next_id,
            unroll_inv(ws0, ws@, lim),
            nested_below(ws@, lim),
            forall|j: int| i <= j < rc.len() ==> ((ws@.atoms.contains_key(#[trigger] rc[j].id) && ws@.atoms[rc[j].id] is Container)
                ==> (ws0.atoms.contains_key(rc[j].id) && ws@.atoms[rc[j].id] == ws0.atoms[rc[j].id])),
        decreases rc.len() - i,
    {
        let entity = root_contents[i];
        assert(entity == rc[i as int]);
        assert(entity.id >= lim);
        assert(line_ok(ws0, rc[i as int], lim));
        assert(unroll_fold(ws0, rc, bound, i + 1).next_id <= unroll_fold(ws0, rc, bound, rc.len() as int).next_id);
        unroll_line_exec(ws, entity, Ghost(ws0), Ghost(lim), Ghost(bound));
        i = i + 1;
    }
}

// ---------------------------------------------------------------------------
// The id counter only grows.
// ---------------------------------------------------------------------------

/// Reverse Polish notation mints at least one id, and its prefix states only grow.
pub proof fn lemma_rpn_mono(ws: WorkspaceV, cid: i32, po: u32, lower: int, bound: int)
    ensures
        rpn(ws, cid, po, lower, bound).0.next_id >= ws.next_id + 1,
    decreases bound - lower, contents_of(ws, cid).len(), 1int,
{
    let es = contents_of(ws, cid);
    let (mul_id, ws1) = spec_intern_typed(ws, AtomV::Operator(OpCode::Fend(FendOp::Mul)));
    lemma_rpn_fold_mono(ws1, es, po, mul_id, lower, bound, es.len() as int);
}

/// Along the shunting-yard pass the id counter only grows.
pub proof fn lemma_rpn_fold_mono(ws: WorkspaceV, es: Seq<Entity>, po: u32, mul_id: i32, lower: int, bound: int, n: int)
    requires
        0 <= n <= es.len(),
    ensures
        forall|m: int| 0 <= m <= n ==> #[trigger] rpn_fold(ws, es, po, mul_id, lower, bound, m).ws.next_id
            <= rpn_fold(ws, es, po, mul_id, lower, bound, n).ws.next_id,
        rpn_fold(ws, es, po, mul_id, lower, bound, 0).ws == ws,
        rpn_fold(ws, es, po, mul_id, lower, bound, n).ws.next_id >= ws.next_id,
    decreases bound - lower, n, 0int,
{
    if n > 0 {
        lemma_rpn_fold_mono(ws, es, po, mul_id, lower, bound, n - 1);
        let prev = rpn_fold(ws, es, po, mul_id, lower, bound, n - 1);
        let e = inherit(es[n - 1], po);
        if kind_of(prev.ws, e) == EntityKind::Container {
            let cid = prev.ws.atoms[e.id]->Container_0;
            if prev.ws.containers.contains_key(cid) && lower < cid < bound {
                lemma_rpn_mono(prev.ws, cid, e.offset, cid as int, bound);
            }
        }
    }
}

/// Along tape generation the id counter only grows.
pub proof fn lemma_tape_mono(ws: WorkspaceV, r: Seq<Entity>, n: int)
    requires
        0 <= n <= r.len(),
    ensures
        forall|m: int| 0 <= m <= n ==> #[trigger] tape_fold(ws, r, m).ws.next_id <= tape_fold(ws, r, n).ws.next_id,
        tape_fold(ws, r, n).ws.next_id >= ws.next_id,
    decreases n,
{
    if n > 0 {
        lemma_tape_mono(ws, r, n - 1);
    }
}

/// Unrolling a line only grows the id counter.
pub proof fn lemma_line_mono(ws: WorkspaceV, e: Entity, bound: int)
    ensures
        unroll_line(ws, e, bound).next_id >= ws.next_id,
{
    if ws.atoms.contains_key(e.id) && ws.atoms[e.id] is Container {
        let cid = ws.atoms[e.id]->Container_0;
        lemma_rpn_mono(ws, cid, e.offset, 0, bound);
        let (ws1, rpn_es) = rpn(ws, cid, e.offset, 0, bound);
        lemma_tape_mono(ws1, rpn_es, rpn_es.len() as int);
    }
}

/// Along the lines the id counter only grows.
pub proof fn lemma_unroll_mono(ws: WorkspaceV, root: Seq<Entity>, bound: int, n: int)
    requires
        0 <= n <= root.len(),
    ensures
        forall|m: int| 0 <= m <= n ==> #[trigger] unroll_fold(ws, root, bound, m).next_id <= unroll_fold(ws, root, bound, n).next_id,
        unroll_fold(ws, root, bound, n).next_id >= ws.next_id,
    decreases n,
{
    if n > 0 {
        lemma_unroll_mono(ws, root, bound, n - 1);
        lemma_line_mono(unroll_fold(ws, root, bound, n - 1), root[n - 1], bound);
    }
}


// ---------------------------------------------------------------------------
// Offsets stay inside the buffer.
// ---------------------------------------------------------------------------

/// Moving operators to the output keeps every offset within `end`.
proof fn lemma_pop_ops_offs(ws: WorkspaceV, prec: u8, ops: Seq<Entity>, out: Seq<Entity>, end: int)
    requires
        offs_le(ops, end),
        offs_le(out, end),
    ensures
        offs_le(pop_ops(ws, prec, ops, out).0, end),
        offs_le(pop_ops(ws, prec, ops, out).1, end),
    decreases ops.len(),
{
    if ops.len() > 0 && prec_of(ws, ops.last().id) >= prec && prec_of(ws, ops.last().id) != 0 {
        let out2 = out.push(ops.last());
        assert forall|i: int| 0 <= i < out2.len() implies #[trigger] out2[i].offset <= end by {
            if i < out.len() {
                assert(out2[i] == out[i]);
            }
        }
        lemma_pop_ops_offs(ws, prec, ops.drop_last(), out2, end);
    }
}

/// Pushing an operator at an offset within `end` keeps every offset within `end`.
proof fn lemma_push_op_offs(ws: WorkspaceV, op_id: i32, ops: Seq<Entity>, out: Seq<Entity>, offset: u32, end: int)
    requires
        offs_le(ops, end),
        offs_le(out, end),
        offset <= end,
    ensures
        offs_le(push_op(ws, op_id, ops, out, offset).0, end),
        offs_le(push_op(ws, op_id, ops, out, offset).1, end),
{
    lemma_pop_ops_offs(ws, prec_of(ws, op_id), ops, out, end);
    let (ops1, out1) = pop_ops(ws, prec_of(ws, op_id), ops, out);
    let ops2 = ops1.push(Entity { id: op_id, offset: offset });
    assert forall|i: int| 0 <= i < ops2.len() implies #[trigger] ops2[i].offset <= end by {
        if i < ops1.len() {
            assert(ops2[i] == ops1[i]);
        }
    }
}

/// The reverse Polish notation of a container keeps the containers and only holds
/// offsets within `end`.
proof fn lemma_rpn_offs(ws: WorkspaceV, cid: i32, po: u32, lower: int, bound: int, end: int)
    requires
        offsets_within(ws, end),
        po <= end,
    ensures
        rpn(ws, cid, po, lower, bound).0.containers == ws.containers,
        offs_le(rpn(ws, cid, po, lower, bound).1, end),
    decreases bound - lower, contents_of(ws, cid).len(), 1int,
{
    let es = contents_of(ws, cid);
    let (mul_id, ws1) = spec_intern_typed(ws, AtomV::Operator(OpCode::Fend(FendOp::Mul)));
    assert forall|i: int| 0 <= i < es.len() implies #[trigger] es[i].offset <= end by {
        assert(ws.containers[cid].contents[i] == es[i]);
    }
    lemma_rpn_fold_offs(ws1, es, po, mul_id, lower, bound, es.len() as int, end);
    let st = rpn_fold(ws1, es, po, mul_id, lower, bound, es.len() as int);
    let r = st.out + st.ops.reverse();
    assert forall|i: int| 0 <= i < r.len() implies #[trigger] r[i].offset <= end by {
        if i < st.out.len() {
            assert(r[i] == st.out[i]);
        } else {
            assert(r[i] == st.ops[st.ops.len() - 1 - (i - st.out.len())]);
        }
    }
}

/// Along the shunting-yard pass the containers stay and every offset is within `end`.
proof fn lemma_rpn_fold_offs(
    ws: WorkspaceV,
    es: Seq<Entity>,
    po: u32,
    mul_id: i32,
    lower: int,
    bound: int,
    n: int,
    end: int,
)
    requires
        offsets_within(ws, end),
        offs_le(es, end),
        po <= end,
    ensures
        rpn_fold(ws, es, po, mul_id, lower, bound, n).ws.containers == ws.containers,
        offs_le(rpn_fold(ws, es, po, mul_id, lower, bound, n).out, end),
        offs_le(rpn_fold(ws, es, po, mul_id, lower, bound, n).ops, end),
    decreases bound - lower, n, 0int,
{
    if n > 0 && n <= es.len() {
        lemma_rpn_fold_offs(ws, es, po, mul_id, lower, bound, n - 1, end);
        let prev = rpn_fold(ws, es, po, mul_id, lower, bound, n - 1);
        let e = inherit(es[n - 1], po);
        assert(e.offset <= end);
        let kind = kind_of(prev.ws, e);
        let (ops1, out1) = if prev.last is Some && spec_inject_mul(prev.last->Some_0, kind) {
            push_op(prev.ws, mul_id, prev.ops, prev.out, e.offset)
        } else {
            (prev.ops, prev.out)
        };
        if prev.last is Some && spec_inject_mul(prev.last->Some_0, kind) {
            lemma_push_op_offs(prev.ws, mul_id, prev.ops, prev.out, e.offset, end);
        }
        match kind {
            EntityKind::Quantity | EntityKind::Variable | EntityKind::Constant | EntityKind::Other => {
                let o = out1.push(e);
                assert forall|i: int| 0 <= i < o.len() implies #[trigger] o[i].offset <= end by {
                    if i < out1.len() {
                        assert(o[i] == out1[i]);
                    }
                }
            },
            EntityKind::Container => {
                let cid = prev.ws.atoms[e.id]->Container_0;
                if prev.ws.containers.contains_key(cid) && lower < cid < bound {
                    lemma_rpn_offs(prev.ws, cid, e.offset, cid as int, bound, end);
                    let (ws2, nested) = rpn(prev.ws, cid, e.offset, cid as int, bound);
                    let o = out1 + nested;
                    assert forall|i: int| 0 <= i < o.len() implies #[trigger] o[i].offset <= end by {
                        if i < out1.len() {
                            assert(o[i] == out1[i]);
                        } else {
                            assert(o[i] == nested[i - out1.len()]);
                        }
                    }
                }
            },
            EntityKind::Operator(_) => {
                lemma_push_op_offs(prev.ws, e.id, ops1, out1, e.offset, end);
            },
            EntityKind::Function => {
                let o = ops1.push(e);
                assert forall|i: int| 0 <= i < o.len() implies #[trigger] o[i].offset <= end by {
                    if i < ops1.len() {
                        assert(o[i] == ops1[i]);
                    }
                }
            },
        }
    }
}

/// Tape generation keeps the containers, and an error it stops at lies within `end`.
proof fn lemma_tape_offs(ws: WorkspaceV, r: Seq<Entity>, n: int, end: int)
    requires
        offs_le(r, end),
    ensures
        tape_fold(ws, r, n).ws.containers == ws.containers,
        tape_fold(ws, r, n).err is Some ==> tape_fold(ws, r, n).err->Some_0 <= end,
        offs_le(tape_fold(ws, r, n).tape, end),
    decreases n,
{
    if n > 0 && n <= r.len() {
        lemma_tape_offs(ws, r, n - 1, end);
        let st = tape_fold(ws, r, n - 1);
        assert(r[n - 1].offset <= end);
        lemma_offs_push(st.tape, Entity { id: st.ws.next_id as i32, offset: r[n - 1].offset }, end);
    }
}

/// Storing a tape whose offsets are within `end` keeps every offset within `end`.
proof fn lemma_commit_offs(ws: WorkspaceV, line_id: i32, contents: Seq<Entity>, corrupted: bool, start: Position, end: int)
    requires
        offsets_within(ws, end),
        offs_le(contents, end),
    ensures
        offsets_within(commit_tape(ws, line_id, contents, corrupted, start), end),
{
    let w = commit_tape(ws, line_id, contents, corrupted, start);
    assert forall|c: i32, i: int|
        #![trigger w.containers[c].contents[i]]
        w.containers.contains_key(c) && 0 <= i < w.containers[c].contents.len()
            implies w.containers[c].contents[i].offset <= end by {
        if c != ws.next_id as i32 {
            assert(w.containers[c] == ws.containers[c]);
        }
    }
}

/// Unrolling a line at an offset within `end` keeps every offset within `end`.
proof fn lemma_line_offs(ws: WorkspaceV, e: Entity, bound: int, end: int)
    requires
        offsets_within(ws, end),
        e.offset <= end,
        0 <= end,
    ensures
        offsets_within(unroll_line(ws, e, bound), end),
{
    if ws.atoms.contains_key(e.id) && ws.atoms[e.id] is Container {
        let cid = ws.atoms[e.id]->Container_0;
        lemma_rpn_offs(ws, cid, e.offset, 0, bound, end);
        let (ws1, rpn_es) = rpn(ws, cid, e.offset, 0, bound);
        lemma_tape_offs(ws1, rpn_es, rpn_es.len() as int, end);
        let st = tape_fold(ws1, rpn_es, rpn_es.len() as int);
        assert(offsets_within(st.ws, end));
        let start = start_of(st.ws, cid);
        match tape_outcome(st) {
            Ok(Some(final_id)) => {
                let contents = if st.tape.len() == 0 {
                    seq![Entity { id: final_id, offset: e.offset }]
                } else {
                    st.tape
                };
                assert(offs_le(contents, end));
                lemma_commit_offs(st.ws, e.id, contents, false, start, end);
            },
            Ok(None) => {},
            Err(err_offset) => {
                let (poison_id, ws3) = spec_intern_typed(st.ws, AtomV::Poison);
                assert(ws3.containers == st.ws.containers);
                assert(offsets_within(ws3, end));
                let contents = seq![Entity { id: poison_id, offset: err_offset }];
                assert(offs_le(contents, end));
                lemma_commit_offs(ws3, e.id, contents, true, start, end);
            },
        }
    }
}

/// Along the lines every offset stays within `end`.
proof fn lemma_unroll_fold_offs(ws: WorkspaceV, root: Seq<Entity>, bound: int, n: int, end: int)
    requires
        offsets_within(ws, end),
        offs_le(root, end),
        0 <= end,
    ensures
        offsets_within(unroll_fold(ws, root, bound, n), end),
    decreases n,
{
    if n > 0 && n <= root.len() {
        lemma_unroll_fold_offs(ws, root, bound, n - 1, end);
        lemma_line_offs(unroll_fold(ws, root, bound, n - 1), root[n - 1], bound, end);
    }
}

/// The unroller keeps every entity offset within `end`.
pub proof fn lemma_unroll_offsets(ws: WorkspaceV, end: int)
    requires
        offsets_within(ws, end),
        0 <= end,
    ensures
        offsets_within(spec_unroll(ws), end),
{
    if ws.containers.contains_key(0) {
        let root = ws.containers[0].contents;
        assert forall|i: int| 0 <= i < root.len() implies #[trigger] root[i].offset <= end by {
            assert(ws.containers[0].contents[i] == root[i]);
        }
        lemma_unroll_fold_offs(ws, root, ws.next_id as int, root.len() as int, end);
    }
}

// ---------------------------------------------------------------------------
// Registers are defined before they are used.
// ---------------------------------------------------------------------------

/// Whether `a` is an id of one of the entities `r`.
pub open spec fn in_rpn(r: Seq<Entity>, a: i32) -> bool {
    exists|i: int| 0 <= i < r.len() && #[trigger] r[i].id == a
}

/// What tape generation from `ws` over `r` keeps at every step: the tape holds the ids
/// minted so far, in order from the old counter; each is an instruction whose operands
/// are entities of `r` or instructions minted before it; and every value on the stack is
/// an entity of `r` or a minted instruction.
pub open spec fn registers_ok(ws: WorkspaceV, r: Seq<Entity>, st: TapeState) -> bool {
    &&& st.ws.next_id == ws.next_id + st.tape.len()
    &&& forall|j: int| 0 <= j < st.tape.len() ==> #[trigger] st.tape[j].id == ws.next_id + j
    &&& forall|j: int| 0 <= j < st.tape.len() ==> {
        &&& st.ws.atoms.contains_key(#[trigger] st.tape[j].id)
        &&& st.ws.atoms[st.tape[j].id] is Instruction
        &&& forall|k: int| 0 <= k < st.ws.atoms[st.tape[j].id]->args.len() ==> {
            let a = #[trigger] st.ws.atoms[st.tape[j].id]->args[k];
            in_rpn(r, a) || ws.next_id <= a < st.tape[j].id
        }
    }
    &&& forall|q: int| 0 <= q < st.stack.len() ==> {
        let a = #[trigger] st.stack[q];
        in_rpn(r, a) || ws.next_id <= a < st.ws.next_id
    }
}

/// Tape generation defines every register before it is used: the tape lists the minted
/// instructions in order, and each instruction's operands are entities of the reverse
/// Polish notation or instructions that come before it on the tape. So one pass over
/// the tape, front to back, meets every operand before the instruction that needs it.
pub proof fn lemma_tape_registers(ws: WorkspaceV, r: Seq<Entity>, n: int)
    requires
        0 <= n <= r.len(),
        0 <= ws.next_id,
        tape_fold(ws, r, n).ws.next_id <= i32::MAX,
    ensures
        registers_ok(ws, r, tape_fold(ws, r, n)),
    decreases n,
{
    if n > 0 {
        lemma_tape_mono(ws, r, n);
        lemma_tape_registers(ws, r, n - 1);
        let st = tape_fold(ws, r, n - 1);
        let e = r[n - 1];
        assert(in_rpn(r, e.id)) by {
            assert(r[n - 1].id == e.id);
        }
        if st.err is None {
            let s = st.stack;
            let nst = tape_fold(ws, r, n);
            if st.ws.atoms.contains_key(e.id) && st.ws.atoms[e.id] is Operator {
                let op = st.ws.atoms[e.id]->Operator_0;
                if s.len() >= 2 {
                    let args = seq![s[s.len() - 2], s.last()];
                    assert(in_rpn(r, args[0]) || ws.next_id <= args[0] < st.ws.next_id);
                    assert(in_rpn(r, args[1]) || ws.next_id <= args[1] < st.ws.next_id);
                    lemma_instr_registers(ws, r, st, s.drop_last().drop_last(), op, args, e.offset);
                } else if s.len() == 1 && is_assign_like(op) {
                    let args = seq![s.last()];
                    assert(in_rpn(r, args[0]) || ws.next_id <= args[0] < st.ws.next_id);
                    lemma_instr_registers(ws, r, st, s.drop_last(), op, args, e.offset);
                }
            } else if st.ws.atoms.contains_key(e.id) && st.ws.atoms[e.id] is Function {
                if s.len() >= 1 {
                    let args = seq![e.id, s.last()];
                    assert(in_rpn(r, args[1]) || ws.next_id <= args[1] < st.ws.next_id);
                    lemma_instr_registers(ws, r, st, s.drop_last(), OpCode::Call, args, e.offset);
                }
            } else {
                assert forall|q: int| 0 <= q < nst.stack.len() implies {
                    let a = #[trigger] nst.stack[q];
                    in_rpn(r, a) || ws.next_id <= a < nst.ws.next_id
                } by {
                    if q < s.len() {
                        assert(nst.stack[q] == s[q]);
                    }
                }
            }
        }
    }
}

/// Operands come before their users: on the tape built from the RPN order `r`, every
/// operand of an instruction is an entity of `r` or an instruction earlier on the tape.
pub proof fn lemma_operands_first(ws: WorkspaceV, r: Seq<Entity>, j: int, k: int)
    requires
        0 <= ws.next_id,
        tape_fold(ws, r, r.len() as int).ws.next_id <= i32::MAX,
        0 <= j < tape_fold(ws, r, r.len() as int).tape.len(),
        0 <= k < tape_fold(ws, r, r.len() as int).ws.atoms[tape_fold(ws, r, r.len() as int).tape[j].id]->args.len(),
    ensures
        ({
            let st = tape_fold(ws, r, r.len() as int);
            let a = st.ws.atoms[st.tape[j].id]->args[k];
            in_rpn(r, a) || exists|i: int| 0 <= i < j && #[trigger] st.tape[i].id == a
        }),
{
    lemma_tape_registers(ws, r, r.len() as int);
    let st = tape_fold(ws, r, r.len() as int);
    let a = st.ws.atoms[st.tape[j].id]->args[k];
    assert(st.tape[j].id == ws.next_id + j);
    if !in_rpn(r, a) {
        let i = a - ws.next_id;
        assert(st.tape[i].id == ws.next_id + i);
    }
}

/// Minting an instruction from operands at hand keeps the registers in order.
proof fn lemma_instr_registers(ws: WorkspaceV, r: Seq<Entity>, st: TapeState, stack: Seq<i32>, op: OpCode, args: Seq<i32>, off: u32)
    requires
        registers_ok(ws, r, st),
        0 <= ws.next_id,
        st.ws.next_id < i32::MAX,
        forall|q: int| 0 <= q < stack.len() ==> {
            let a = #[trigger] stack[q];
            in_rpn(r, a) || ws.next_id <= a < st.ws.next_id
        },
        forall|k: int| 0 <= k < args.len() ==> {
            let a = #[trigger] args[k];
            in_rpn(r, a) || ws.next_id <= a < st.ws.next_id
        },
    ensures
        registers_ok(ws, r, instr(st, stack, op, args, off)),
{
    let nst = instr(st, stack, op, args, off);
    let id = st.ws.next_id as i32;
    assert forall|j: int| 0 <= j < nst.tape.len() implies #[trigger] nst.tape[j].id == ws.next_id + j by {
        if j < st.tape.len() {
            assert(nst.tape[j].id == st.tape[j].id);
        }
    }
    assert forall|j: int| 0 <= j < nst.tape.len() implies {
        &&& nst.ws.atoms.contains_key(#[trigger] nst.tape[j].id)
        &&& nst.ws.atoms[nst.tape[j].id] is Instruction
        &&& forall|k: int| 0 <= k < nst.ws.atoms[nst.tape[j].id]->args.len() ==> {
            let a = #[trigger] nst.ws.atoms[nst.tape[j].id]->args[k];
            in_rpn(r, a) || ws.next_id <= a < nst.tape[j].id
        }
    } by {
        if j < st.tape.len() {
            assert(nst.tape[j].id == st.tape[j].id);
            assert(st.tape[j].id != id);
            assert(nst.ws.atoms[nst.tape[j].id] == st.ws.atoms[st.tape[j].id]);
        } else {
            assert(nst.tape[j].id == id);
        }
    }
    assert forall|q: int| 0 <= q < nst.stack.len() implies {
        let a = #[trigger] nst.stack[q];
        in_rpn(r, a) || ws.next_id <= a < nst.ws.next_id
    } by {
        if q < stack.len() {
            assert(nst.stack[q] == stack[q]);
        }
    }
}

// ---------------------------------------------------------------------------
// How many ids the unroller mints.
// ---------------------------------------------------------------------------

/// An upper bound on what the reverse Polish notation of container `cid` mints and
/// outputs together: one id for the call, and for each entity three (an implied
/// product, the entity itself, a fresh operator) plus the cost of a nested container.
pub open spec fn rpn_cost(ws: WorkspaceV, cid: i32, lower: int, bound: int) -> nat
    decreases bound - lower, contents_of(ws, cid).len(), 1int,
{
    1 + cost_fold(ws, contents_of(ws, cid), lower, bound, contents_of(ws, cid).len() as int)
}

/// The cost of the first `n` entities of `es`.
pub open spec fn cost_fold(ws: WorkspaceV, es: Seq<Entity>, lower: int, bound: int, n: int) -> nat
    decreases bound - lower, n, 0int,
{
    if n <= 0 || n > es.len() {
        0
    } else {
        let e = es[n - 1];
        let nested = if ws.atoms.contains_key(e.id) && ws.atoms[e.id] is Container
            && ws.containers.contains_key(ws.atoms[e.id]->Container_0)
            && lower < ws.atoms[e.id]->Container_0 < bound {
            rpn_cost(ws, ws.atoms[e.id]->Container_0, ws.atoms[e.id]->Container_0 as int, bound)
        } else {
            0
        };
        cost_fold(ws, es, lower, bound, n - 1) + 3 + nested
    }
}

/// An upper bound on the ids that unrolling the line of root entity `e` mints.
pub open spec fn line_cost(ws: WorkspaceV, e: Entity, bound: int) -> nat {
    if ws.atoms.contains_key(e.id) && ws.atoms[e.id] is Container {
        rpn_cost(ws, ws.atoms[e.id]->Container_0, 0, bound) + 2
    } else {
        0
    }
}

/// The costs of the first `n` lines.
pub open spec fn lines_cost(ws: WorkspaceV, root: Seq<Entity>, bound: int, n: int) -> nat
    decreases n,
{
    if n <= 0 || n > root.len() {
        0
    } else {
        lines_cost(ws, root, bound, n - 1) + line_cost(ws, root[n - 1], bound)
    }
}

/// An upper bound on the ids that the unroller mints.
pub open spec fn unroll_cost(ws: WorkspaceV) -> nat {
    if ws.containers.contains_key(0) {
        lines_cost(ws, ws.containers[0].contents, ws.next_id, ws.containers[0].contents.len() as int)
    } else {
        0
    }
}

/// The atoms of ids below `n` are the same in `a` and `b`.
pub open spec fn atoms_agree_below(a: WorkspaceV, b: WorkspaceV, n: int) -> bool {
    forall|x: i32| x < n ==> (#[trigger] b.atoms.contains_key(x) == a.atoms.contains_key(x)
        && (b.atoms.contains_key(x) ==> b.atoms[x] == a.atoms[x]))
}

/// The containers with ids below `n` are the same in `a` and `b`.
pub open spec fn containers_agree_below(a: WorkspaceV, b: WorkspaceV, n: int) -> bool {
    forall|c: i32| c < n ==> (#[trigger] b.containers.contains_key(c) == a.containers.contains_key(c)
        && (b.containers.contains_key(c) ==> b.containers[c] == a.containers[c]))
}

/// `b` has no container atom that `a` does not have.
pub open spec fn no_new_containers(a: WorkspaceV, b: WorkspaceV) -> bool {
    forall|x: i32| #[trigger] b.atoms.contains_key(x) && b.atoms[x] is Container
        ==> a.atoms.contains_key(x) && b.atoms[x] == a.atoms[x]
}

/// Moving operators to the output keeps their total number.
proof fn lemma_pop_ops_len(ws: WorkspaceV, prec: u8, ops: Seq<Entity>, out: Seq<Entity>)
    ensures
        pop_ops(ws, prec, ops, out).0.len() + pop_ops(ws, prec, ops, out).1.len() == ops.len() + out.len(),
    decreases ops.len(),
{
    if ops.len() > 0 && prec_of(ws, ops.last().id) >= prec && prec_of(ws, ops.last().id) != 0 {
        lemma_pop_ops_len(ws, prec, ops.drop_last(), out.push(ops.last()));
    }
}

/// Nesting below `lim` only depends on the containers and atoms below `lim`.
proof fn lemma_nested_congruent(a: WorkspaceV, b: WorkspaceV, lim: int)
    requires
        nested_below(a, lim),
        container_atoms_below(a),
        lim <= a.next_id,
        containers_agree_below(a, b, a.next_id),
        atoms_agree_below(a, b, lim),
    ensures
        nested_below(b, lim),
{
    assert forall|cid: i32, i: int|
        #![trigger b.containers[cid].contents[i]]
        b.containers.contains_key(cid) && 0 < cid < lim && 0 <= i < b.containers[cid].contents.len()
            implies nested_entity(b, cid as int, b.containers[cid].contents[i], lim) by {
        let e = b.containers[cid].contents[i];
        assert(a.containers[cid].contents[i] == e);
        assert(nested_entity(a, cid as int, e, lim));
        if a.atoms.contains_key(e.id) && a.atoms[e.id] is Container {
            let c = a.atoms[e.id]->Container_0;
            if a.containers.contains_key(c) {
                assert(c < lim);
            }
        }
        if b.atoms.contains_key(e.id) && b.atoms[e.id] is Container {
            let c = b.atoms[e.id]->Container_0;
            assert(c < a.next_id);
            if b.containers.contains_key(c) {
                assert(a.containers.contains_key(c));
            }
        }
    }
}

/// The cost of a container depends only on the containers and atoms its nesting reaches.
proof fn lemma_cost_congruent(a: WorkspaceV, b: WorkspaceV, cid: i32, lower: int, lim: int, bound: int)
    requires
        nested_below(a, lim),
        container_atoms_below(a),
        lim <= a.next_id,
        containers_agree_below(a, b, a.next_id),
        atoms_agree_below(a, b, lim),
        cid < a.next_id,
        0 <= lower,
        forall|i: int| 0 <= i < contents_of(a, cid).len() ==> nested_entity(a, lower, #[trigger] contents_of(a, cid)[i], lim),
    ensures
        rpn_cost(a, cid, lower, bound) == rpn_cost(b, cid, lower, bound),
    decreases bound - lower, contents_of(a, cid).len(), 1int,
{
    let es = contents_of(a, cid);
    assert(contents_of(b, cid) == es);
    lemma_cost_fold_congruent(a, b, es, lower, lim, bound, es.len() as int);
}

/// The cost of a list of entities depends only on the containers and atoms it reaches.
proof fn lemma_cost_fold_congruent(a: WorkspaceV, b: WorkspaceV, es: Seq<Entity>, lower: int, lim: int, bound: int, n: int)
    requires
        nested_below(a, lim),
        container_atoms_below(a),
        lim <= a.next_id,
        containers_agree_below(a, b, a.next_id),
        atoms_agree_below(a, b, lim),
        0 <= lower,
        forall|i: int| 0 <= i < es.len() ==> nested_entity(a, lower, #[trigger] es[i], lim),
    ensures
        cost_fold(a, es, lower, bound, n) == cost_fold(b, es, lower, bound, n),
    decreases bound - lower, n, 0int,
{
    if n > 0 && n <= es.len() {
        lemma_cost_fold_congruent(a, b, es, lower, lim, bound, n - 1);
        let e = es[n - 1];
        assert(nested_entity(a, lower, e, lim));
        assert(b.atoms.contains_key(e.id) == a.atoms.contains_key(e.id));
        if a.atoms.contains_key(e.id) && a.atoms[e.id] is Container {
            let c = a.atoms[e.id]->Container_0;
            assert(c < a.next_id);
            assert(b.atoms[e.id] == a.atoms[e.id]);
            assert(b.containers.contains_key(c) == a.containers.contains_key(c));
            if a.containers.contains_key(c) && lower < c < bound {
                assert(child_of(a, e) == Some(c));
                assert forall|i: int| 0 <= i < contents_of(a, c).len()
                    implies nested_entity(a, c as int, #[trigger] contents_of(a, c)[i], lim) by {
                    assert(contents_of(a, c)[i] == a.containers[c].contents[i]);
                }
                lemma_cost_congruent(a, b, c, c as int, lim, bound);
            }
        }
    }
}

/// The reverse Polish notation of a container mints and outputs no more than its cost,
/// keeps the containers, mints no container atom and leaves the atoms below the counter.
proof fn lemma_rpn_cost(ws: WorkspaceV, cid: i32, po: u32, lower: int, lim: int, bound: int)
    requires
        nested_below(ws, lim),
        container_atoms_below(ws),
        lim <= ws.next_id,
        0 <= lower,
        cid < ws.next_id,
        forall|i: int| 0 <= i < contents_of(ws, cid).len() ==> nested_entity(ws, lower, #[trigger] contents_of(ws, cid)[i], lim),
        ws.next_id + rpn_cost(ws, cid, lower, bound) <= i32::MAX,
    ensures
        rpn(ws, cid, po, lower, bound).0.containers == ws.containers,
        atoms_agree_below(ws, rpn(ws, cid, po, lower, bound).0, ws.next_id),
        ws.next_id <= rpn(ws, cid, po, lower, bound).0.next_id,
        container_atoms_below(rpn(ws, cid, po, lower, bound).0),
        no_new_containers(ws, rpn(ws, cid, po, lower, bound).0),
        rpn(ws, cid, po, lower, bound).0.next_id - ws.next_id + rpn(ws, cid, po, lower, bound).1.len()
            <= rpn_cost(ws, cid, lower, bound),
    decreases bound - lower, contents_of(ws, cid).len(), 1int,
{
    let es = contents_of(ws, cid);
    let (mul_id, ws1) = spec_intern_typed(ws, AtomV::Operator(OpCode::Fend(FendOp::Mul)));
    assert(ws1.next_id == ws.next_id + 1);
    lemma_rpn_fold_cost(ws, ws1, es, po, mul_id, lower, lim, bound, es.len() as int);
}

/// Along the shunting-yard pass, what is minted and held stays within the cost.
proof fn lemma_rpn_fold_cost(
    base: WorkspaceV,
    w: WorkspaceV,
    es: Seq<Entity>,
    po: u32,
    mul_id: i32,
    lower: int,
    lim: int,
    bound: int,
    n: int,
)
    requires
        nested_below(base, lim),
        container_atoms_below(base),
        lim <= base.next_id,
        0 <= lower,
        forall|i: int| 0 <= i < es.len() ==> nested_entity(base, lower, #[trigger] es[i], lim),
        w.containers == base.containers,
        atoms_agree_below(base, w, base.next_id),
        base.next_id <= w.next_id,
        container_atoms_below(w),
        w.next_id + cost_fold(base, es, lower, bound, n) <= i32::MAX,
    ensures
        rpn_fold(w, es, po, mul_id, lower, bound, n).ws.containers == base.containers,
        atoms_agree_below(base, rpn_fold(w, es, po, mul_id, lower, bound, n).ws, base.next_id),
        w.next_id <= rpn_fold(w, es, po, mul_id, lower, bound, n).ws.next_id,
        container_atoms_below(rpn_fold(w, es, po, mul_id, lower, bound, n).ws),
        no_new_containers(w, rpn_fold(w, es, po, mul_id, lower, bound, n).ws),
        rpn_fold(w, es, po, mul_id, lower, bound, n).ws.next_id - w.next_id
            + rpn_fold(w, es, po, mul_id, lower, bound, n).out.len()
            + rpn_fold(w, es, po, mul_id, lower, bound, n).ops.len() <= cost_fold(base, es, lower, bound, n),
    decreases bound - lower, n, 0int,
{
    if n > 0 && n <= es.len() {
        lemma_rpn_fold_cost(base, w, es, po, mul_id, lower, lim, bound, n - 1);
        let prev = rpn_fold(w, es, po, mul_id, lower, bound, n - 1);
        let e = inherit(es[n - 1], po);
        assert(e.id == es[n - 1].id);
        assert(nested_entity(base, lower, es[n - 1], lim));
        assert(prev.ws.atoms.contains_key(e.id) == base.atoms.contains_key(e.id));
        let kind = kind_of(prev.ws, e);
        let inject = prev.last is Some && spec_inject_mul(prev.last->Some_0, kind);
        let (ops1, out1) = if inject {
            push_op(prev.ws, mul_id, prev.ops, prev.out, e.offset)
        } else {
            (prev.ops, prev.out)
        };
        if inject {
            lemma_pop_ops_len(prev.ws, prec_of(prev.ws, mul_id), prev.ops, prev.out);
        }
        assert(ops1.len() + out1.len() <= prev.ops.len() + prev.out.len() + 1);
        match kind {
            EntityKind::Container => {
                assert(base.atoms[e.id] == prev.ws.atoms[e.id]);
                let cid = prev.ws.atoms[e.id]->Container_0;
                assert(cid < base.next_id);
                if prev.ws.containers.contains_key(cid) && lower < cid < bound {
                    assert(child_of(base, es[n - 1]) == Some(cid));
                    lemma_nested_congruent(base, prev.ws, lim);
                    assert forall|i: int| 0 <= i < contents_of(prev.ws, cid).len()
                        implies nested_entity(prev.ws, cid as int, #[trigger] contents_of(prev.ws, cid)[i], lim) by {
                        assert(contents_of(prev.ws, cid)[i] == prev.ws.containers[cid].contents[i]);
                    }
                    assert forall|i: int| 0 <= i < contents_of(base, cid).len()
                        implies nested_entity(base, cid as int, #[trigger] contents_of(base, cid)[i], lim) by {
                        assert(contents_of(base, cid)[i] == base.containers[cid].contents[i]);
                    }
                    lemma_cost_congruent(base, prev.ws, cid, cid as int, lim, bound);
                    assert(prev.ws.next_id + rpn_cost(prev.ws, cid, cid as int, bound) <= i32::MAX);
                    lemma_rpn_cost(prev.ws, cid, e.offset, cid as int, lim, bound);
                }
            },
            EntityKind::Operator(_) => {
                lemma_pop_ops_len(prev.ws, prec_of(prev.ws, e.id), ops1, out1);
            },
            _ => {},
        }
    }
}

/// Tape generation mints at most one id per entity, keeps the containers and the atoms
/// below the counter, and mints no container atom.
proof fn lemma_tape_count(ws: WorkspaceV, r: Seq<Entity>, n: int)
    requires
        0 <= n <= r.len(),
        ws.next_id + n <= i32::MAX,
    ensures
        tape_fold(ws, r, n).ws.containers == ws.containers,
        atoms_agree_below(ws, tape_fold(ws, r, n).ws, ws.next_id),
        ws.next_id <= tape_fold(ws, r, n).ws.next_id <= ws.next_id + n,
        container_atoms_below(ws) ==> container_atoms_below(tape_fold(ws, r, n).ws),
        no_new_containers(ws, tape_fold(ws, r, n).ws),
    decreases n,
{
    if n > 0 {
        lemma_tape_count(ws, r, n - 1);
    }
}

/// Unrolling a line mints no more ids than its cost; it keeps the containers below the
/// counter and the atoms below it but the line's own, and mints no container atom that
/// points past the counter.
proof fn lemma_line_count(ws: WorkspaceV, e: Entity, lim: int, bound: int)
    requires
        nested_below(ws, lim),
        container_atoms_below(ws),
        lim <= ws.next_id,
        line_ok(ws, e, lim),
        ws.next_id + line_cost(ws, e, bound) <= i32::MAX,
    ensures
        ws.next_id <= unroll_line(ws, e, bound).next_id <= ws.next_id + line_cost(ws, e, bound),
        containers_agree_below(ws, unroll_line(ws, e, bound), ws.next_id),
        forall|x: i32| x < ws.next_id && x != e.id ==> (#[trigger] unroll_line(ws, e, bound).atoms.contains_key(x)
            == ws.atoms.contains_key(x) && (ws.atoms.contains_key(x) ==> unroll_line(ws, e, bound).atoms[x] == ws.atoms[x])),
        container_atoms_below(unroll_line(ws, e, bound)),
        forall|x: i32| x != e.id && #[trigger] unroll_line(ws, e, bound).atoms.contains_key(x)
            && unroll_line(ws, e, bound).atoms[x] is Container
            ==> ws.atoms.contains_key(x) && unroll_line(ws, e, bound).atoms[x] == ws.atoms[x],
{
    if ws.atoms.contains_key(e.id) && ws.atoms[e.id] is Container {
        let cid = ws.atoms[e.id]->Container_0;
        assert(cid < ws.next_id);
        assert forall|i: int| 0 <= i < contents_of(ws, cid).len()
            implies nested_entity(ws, 0, #[trigger] contents_of(ws, cid)[i], lim) by {
            assert(ws.containers.contains_key(cid));
            assert(child_of(ws, e) == Some(cid));
            assert(line_ok(ws, e, lim));
            assert(nested_entity(ws, 0, contents_of(ws, child_of(ws, e)->Some_0)[i], lim));
        }
        lemma_rpn_cost(ws, cid, e.offset, 0, lim, bound);
        let (ws1, rpn_es) = rpn(ws, cid, e.offset, 0, bound);
        lemma_tape_count(ws1, rpn_es, rpn_es.len() as int);
        let st = tape_fold(ws1, rpn_es, rpn_es.len() as int);
        let w = unroll_line(ws, e, bound);
        assert(st.ws.next_id + 2 <= i32::MAX);
        assert forall|x: i32| x < ws.next_id implies (#[trigger] st.ws.atoms.contains_key(x) == ws.atoms.contains_key(x)
            && (ws.atoms.contains_key(x) ==> st.ws.atoms[x] == ws.atoms[x])) by {
            assert(st.ws.atoms.contains_key(x) == ws1.atoms.contains_key(x));
            assert(ws1.atoms.contains_key(x) == ws.atoms.contains_key(x));
        }
        match tape_outcome(st) {
            Ok(Some(final_id)) => {
                assert forall|c: i32| c < ws.next_id implies (#[trigger] w.containers.contains_key(c) == ws.containers.contains_key(c)
                    && (w.containers.contains_key(c) ==> w.containers[c] == ws.containers[c])) by {
                    assert(c != st.ws.next_id as i32);
                }
            },
            Ok(None) => {},
            Err(err_offset) => {
                let (poison_id, ws3) = spec_intern_typed(st.ws, AtomV::Poison);
                assert(ws3.next_id == st.ws.next_id + 1);
                assert forall|c: i32| c < ws.next_id implies (#[trigger] w.containers.contains_key(c) == ws.containers.contains_key(c)
                    && (w.containers.contains_key(c) ==> w.containers[c] == ws.containers[c])) by {
                    assert(c != ws3.next_id as i32);
                }
            },
        }
    }
}

/// Unrolling the first `n` lines mints no more ids than their costs; the containers
/// below the counter stay, and so do the atoms below `lim` and those of the lines still
/// to come.
proof fn lemma_unroll_count(ws0: WorkspaceV, rc: Seq<Entity>, lim: int, n: int)
    requires
        ready_with(ws0, lim),
        ws0.containers.contains_key(0),
        rc == ws0.containers[0].contents,
        0 <= n <= rc.len(),
        ws0.next_id + lines_cost(ws0, rc, ws0.next_id, n) <= i32::MAX,
    ensures
        ws0.next_id <= unroll_fold(ws0, rc, ws0.next_id, n).next_id <= ws0.next_id + lines_cost(ws0, rc, ws0.next_id, n),
        containers_agree_below(ws0, unroll_fold(ws0, rc, ws0.next_id, n), ws0.next_id),
        atoms_agree_below(ws0, unroll_fold(ws0, rc, ws0.next_id, n), lim),
        forall|j: int| n <= j < rc.len() ==> {
            let x = #[trigger] rc[j].id;
            &&& ws0.atoms.contains_key(x) ==> unroll_fold(ws0, rc, ws0.next_id, n).atoms.contains_key(x)
                && unroll_fold(ws0, rc, ws0.next_id, n).atoms[x] == ws0.atoms[x]
            &&& unroll_fold(ws0, rc, ws0.next_id, n).atoms.contains_key(x)
                && unroll_fold(ws0, rc, ws0.next_id, n).atoms[x] is Container
                ==> ws0.atoms.contains_key(x) && unroll_fold(ws0, rc, ws0.next_id, n).atoms[x] == ws0.atoms[x]
        },
        container_atoms_below(unroll_fold(ws0, rc, ws0.next_id, n)),
    decreases n,
{
    let bound = ws0.next_id;
    if n > 0 {
        lemma_unroll_count(ws0, rc, lim, n - 1);
        let w = unroll_fold(ws0, rc, bound, n - 1);
        let e = rc[n - 1];
        assert(e.id >= lim);
        assert(line_ok(ws0, e, lim));
        lemma_nested_congruent(ws0, w, lim);
        if ws0.atoms.contains_key(e.id) && ws0.atoms[e.id] is Container {
            let cid = ws0.atoms[e.id]->Container_0;
            assert(w.atoms.contains_key(e.id) && w.atoms[e.id] == ws0.atoms[e.id]);
            assert(cid < ws0.next_id);
            assert(w.containers.contains_key(cid) == ws0.containers.contains_key(cid));
            assert forall|i: int| 0 <= i < contents_of(ws0, cid).len()
                implies nested_entity(ws0, 0, #[trigger] contents_of(ws0, cid)[i], lim) by {
                assert(ws0.containers.contains_key(cid));
                assert(child_of(ws0, e) == Some(cid));
                assert(nested_entity(ws0, 0, contents_of(ws0, child_of(ws0, e)->Some_0)[i], lim));
            }
            lemma_cost_congruent(ws0, w, cid, 0, lim, bound);
            assert(line_cost(w, e, bound) == line_cost(ws0, e, bound));
            assert forall|q: int| 0 <= q < contents_of(w, cid).len()
                implies nested_entity(w, 0, #[trigger] contents_of(w, cid)[q], lim) by {
                assert(contents_of(w, cid) == contents_of(ws0, cid));
                let x = contents_of(w, cid)[q];
                assert(nested_entity(ws0, 0, x, lim));
                assert(w.atoms.contains_key(x.id) == ws0.atoms.contains_key(x.id));
                if ws0.atoms.contains_key(x.id) && ws0.atoms[x.id] is Container {
                    assert(ws0.atoms[x.id]->Container_0 < ws0.next_id);
                    assert(w.containers.contains_key(ws0.atoms[x.id]->Container_0)
                        == ws0.containers.contains_key(ws0.atoms[x.id]->Container_0));
                }
            }
            assert(child_of(w, e) is Some ==> child_of(w, e)->Some_0 == cid);
            assert(line_ok(w, e, lim));
        } else {
            assert(!(w.atoms.contains_key(e.id) && w.atoms[e.id] is Container));
            assert(line_cost(w, e, bound) == 0);
            assert(child_of(w, e) is None);
            assert(line_ok(w, e, lim));
        }
        lemma_line_count(w, e, lim, bound);
        let w2 = unroll_fold(ws0, rc, bound, n);
        assert forall|j: int| n <= j < rc.len() implies {
            let x = #[trigger] rc[j].id;
            &&& ws0.atoms.contains_key(x) ==> w2.atoms.contains_key(x) && w2.atoms[x] == ws0.atoms[x]
            &&& w2.atoms.contains_key(x) && w2.atoms[x] is Container
                ==> ws0.atoms.contains_key(x) && w2.atoms[x] == ws0.atoms[x]
        } by {
            let x = rc[j].id;
            assert(x != e.id);
            if ws0.atoms.contains_key(x) {
                assert(x < ws0.next_id);
            }
        }
        assert forall|x: i32| x < lim implies (#[trigger] w2.atoms.contains_key(x) == ws0.atoms.contains_key(x)
            && (w2.atoms.contains_key(x) ==> w2.atoms[x] == ws0.atoms[x])) by {
            assert(x != e.id);
            assert(w.atoms.contains_key(x) == ws0.atoms.contains_key(x));
        }
        assert forall|c: i32| c < ws0.next_id implies (#[trigger] w2.containers.contains_key(c) == ws0.containers.contains_key(c)
            && (w2.containers.contains_key(c) ==> w2.containers[c] == ws0.containers[c])) by {
            assert(w.containers.contains_key(c) == ws0.containers.contains_key(c));
        }
    }
}

/// The unroller mints no more ids than its cost.
pub proof fn lemma_unroll_within(ws: WorkspaceV, lim: int)
    requires
        ready_with(ws, lim),
        ws.next_id + unroll_cost(ws) <= i32::MAX,
    ensures
        spec_unroll(ws).next_id <= ws.next_id + unroll_cost(ws),
{
    if ws.containers.contains_key(0) {
        let rc = ws.containers[0].contents;
        lemma_unroll_count(ws, rc, lim, rc.len() as int);
    }
}

/// `x`, or `i32::MAX` when it is larger.
pub open spec fn capped(x: nat) -> nat {
    if x < i32::MAX { x } else { i32::MAX as nat }
}

/// `a + b + c`, or `i32::MAX` when that is larger.
fn add_capped(a: u64, b: u64, c: u64) -> (r: u64)
    requires
        a <= i32::MAX,
        b <= i32::MAX,
        c <= i32::MAX,
    ensures
        r == capped((a + b + c) as nat),
{
    let t = a + b + c;
    if t < 0x7fff_ffff { t } else { 0x7fff_ffff }
}

/// The cost of the reverse Polish notation of container `cid`, capped at `i32::MAX`.
fn rpn_cost_exec(ws: &Workspace, cid: i32, lower: i64, bound: i64) -> (r: u64)
    requires
        ws.wf(),
    ensures
        r == capped(rpn_cost(ws@, cid, lower as int, bound as int)),
    decreases bound - lower, contents_of(ws@, cid).len(), 1int,
{
    let ghost es = contents_of(ws@, cid);
    let c = match ws.containers.get(cid) {
        Some(c) => c,
        None => {
            assert(es.len() == 0);
            return 1;
        },
    };
    assert(c.contents@ == es);
    let mut total: u64 = 0;
    let mut k: usize = 0;
    while k < c.contents.len()
        invariant
            ws.wf(),
            k <= es.len(),
            c.contents@ == es,
            es == contents_of(ws@, cid),
            total == capped(cost_fold(ws@, es, lower as int, bound as int, k as int)),
        decreases es.len() - k,
    {
        let e = c.contents[k];
        let mut nested: u64 = 0;
        match ws.atoms.get(e.id) {
            Some(Atom::Container(child)) => {
                let child = *child;
                if ws.containers.contains_key(child) && lower < child as i64 && (child as i64) < bound {
                    nested = rpn_cost_exec(ws, child, child as i64, bound);
                }
            },
            _ => {},
        }
        assert(es[k as int] == e);
        total = add_capped(total, 3, nested);
        k = k + 1;
    }
    add_capped(1, total, 0)
}

/// The cost of the line of root entity `e`, capped at `i32::MAX`.
fn line_cost_exec(ws: &Workspace, e: Entity, bound: i64) -> (r: u64)
    requires
        ws.wf(),
    ensures
        r == capped(line_cost(ws@, e, bound as int)),
{
    match ws.atoms.get(e.id) {
        Some(Atom::Container(c)) => {
            let k = rpn_cost_exec(ws, *c, 0, bound);
            add_capped(k, 2, 0)
        },
        _ => 0,
    }
}

/// An upper bound on the ids that the unroller mints, capped at `i32::MAX`.
pub fn unroll_cost_exec(ws: &Workspace) -> (r: u64)
    requires
        ws.wf(),
    ensures
        r == capped(unroll_cost(ws@)),
{
    let root = match ws.containers.get(0) {
        Some(r) => r,
        None => {
            return 0;
        },
    };
    let ghost rc = root.contents@;
    let bound = ws.next_id as i64;
    let mut total: u64 = 0;
    let mut k: usize = 0;
    while k < root.contents.len()
        invariant
            ws.wf(),
            k <= rc.len(),
            root.contents@ == rc,
            rc == ws@.containers[0].contents,
            ws@.containers.contains_key(0),
            bound == ws@.next_id,
            total == capped(lines_cost(ws@, rc, bound as int, k as int)),
        decreases rc.len() - k,
    {
        let l = line_cost_exec(ws, root.contents[k], bound);
        assert(rc[k as int] == root.contents[k as int]);
        total = add_capped(total, l, 0);
        k = k + 1;
    }
    total
}

} // verus!
