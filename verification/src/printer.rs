//! A human-readable rendering of a workspace: its diagnostics, then each line of the
//! root with the containers, instructions and atoms below it, indented by depth.

use vstd::prelude::*;
use crate::fend::evaluate_fresh;
use crate::maps::IdMap;
use crate::model::{Atom, AtomV, Diagnostic, DiagnosticCode, Entity, FendOp, OpCode, Workspace, WorkspaceV};
use crate::builtins::string_from_chars;
use crate::text::{append_chars, chars_of};

verus! {

// ---------------------------------------------------------------------------
// Names and numbers.
// ---------------------------------------------------------------------------

/// The name of a diagnostic code.
pub open spec fn code_name(c: DiagnosticCode) -> Seq<char> {
    match c {
        DiagnosticCode::StrayCloser => "StrayCloser"@,
        DiagnosticCode::UnclosedContainer => "UnclosedContainer"@,
        DiagnosticCode::IllegalCharacter => "IllegalCharacter"@,
        DiagnosticCode::StraySequence => "StraySequence"@,
        DiagnosticCode::MalformedSymbol => "MalformedSymbol"@,
        DiagnosticCode::MalformedExpression => "MalformedExpression"@,
        DiagnosticCode::Reassignment => "Reassignment"@,
        DiagnosticCode::ConstantReassignment => "ConstantReassignment"@,
    }
}

fn code_name_exec(c: DiagnosticCode) -> (r: &'static str)
    ensures
        r@ == code_name(c),
{
    match c {
        DiagnosticCode::StrayCloser => "StrayCloser",
        DiagnosticCode::UnclosedContainer => "UnclosedContainer",
        DiagnosticCode::IllegalCharacter => "IllegalCharacter",
        DiagnosticCode::StraySequence => "StraySequence",
        DiagnosticCode::MalformedSymbol => "MalformedSymbol",
        DiagnosticCode::MalformedExpression => "MalformedExpression",
        DiagnosticCode::Reassignment => "Reassignment",
        DiagnosticCode::ConstantReassignment => "ConstantReassignment",
    }
}

/// The name of a fend operator.
pub open spec fn fend_op_name(f: FendOp) -> Seq<char> {
    match f {
        FendOp::Add => "Add"@,
        FendOp::Sub => "Sub"@,
        FendOp::Mul => "Mul"@,
        FendOp::Div => "Div"@,
        FendOp::Mod => "Mod"@,
        FendOp::Pow => "Pow"@,
        FendOp::BitwiseAnd => "BitwiseAnd"@,
        FendOp::BitwiseOr => "BitwiseOr"@,
        FendOp::BitwiseXor => "BitwiseXor"@,
        FendOp::To => "To"@,
        FendOp::Factorial => "Factorial"@,
        FendOp::Of => "Of"@,
        FendOp::ShiftLeft => "ShiftLeft"@,
        FendOp::ShiftRight => "ShiftRight"@,
        FendOp::Equals => "Equals"@,
        FendOp::DoubleEquals => "DoubleEquals"@,
        FendOp::NotEquals => "NotEquals"@,
        FendOp::Fn => "Fn"@,
        FendOp::Backslash => "Backslash"@,
        FendOp::Dot => "Dot"@,
        FendOp::Semicolon => "Semicolon"@,
        FendOp::Combination => "Combination"@,
        FendOp::Permutation => "Permutation"@,
        FendOp::OpenParens => "OpenParens"@,
        FendOp::CloseParens => "CloseParens"@,
    }
}

fn fend_op_name_exec(f: FendOp) -> (r: &'static str)
    ensures
        r@ == fend_op_name(f),
{
    match f {
        FendOp::Add => "Add",
        FendOp::Sub => "Sub",
        FendOp::Mul => "Mul",
        FendOp::Div => "Div",
        FendOp::Mod => "Mod",
        FendOp::Pow => "Pow",
        FendOp::BitwiseAnd => "BitwiseAnd",
        FendOp::BitwiseOr => "BitwiseOr",
        FendOp::BitwiseXor => "BitwiseXor",
        FendOp::To => "To",
        FendOp::Factorial => "Factorial",
        FendOp::Of => "Of",
        FendOp::ShiftLeft => "ShiftLeft",
        FendOp::ShiftRight => "ShiftRight",
        FendOp::Equals => "Equals",
        FendOp::DoubleEquals => "DoubleEquals",
        FendOp::NotEquals => "NotEquals",
        FendOp::Fn => "Fn",
        FendOp::Backslash => "Backslash",
        FendOp::Dot => "Dot",
        FendOp::Semicolon => "Semicolon",
        FendOp::Combination => "Combination",
        FendOp::Permutation => "Permutation",
        FendOp::OpenParens => "OpenParens",
        FendOp::CloseParens => "CloseParens",
    }
}

/// The name of an operator, as `Fend(Add)`, `Comma` and so on.
pub open spec fn op_name(op: OpCode) -> Seq<char> {
    match op {
        OpCode::Fend(f) => "Fend("@ + fend_op_name(f) + ")"@,
        OpCode::Greater => "Greater"@,
        OpCode::Less => "Less"@,
        OpCode::GreaterEqual => "GreaterEqual"@,
        OpCode::LessEqual => "LessEqual"@,
        OpCode::AddAssign => "AddAssign"@,
        OpCode::SubAssign => "SubAssign"@,
        OpCode::MulAssign => "MulAssign"@,
        OpCode::DivAssign => "DivAssign"@,
        OpCode::Comma => "Comma"@,
        OpCode::Sequence => "Sequence"@,
        OpCode::Call => "Call"@,
    }
}

/// Appends the name of an operator.
fn push_op_name(out: &mut Vec<char>, op: OpCode)
    ensures
        final(out)@ == old(out)@ + op_name(op),
{
    let s: &str = match op {
        OpCode::Fend(f) => {
            append_chars(out, &chars_of("Fend("));
            append_chars(out, &chars_of(fend_op_name_exec(f)));
            ")"
        },
        OpCode::Greater => "Greater",
        OpCode::Less => "Less",
        OpCode::GreaterEqual => "GreaterEqual",
        OpCode::LessEqual => "LessEqual",
        OpCode::AddAssign => "AddAssign",
        OpCode::SubAssign => "SubAssign",
        OpCode::MulAssign => "MulAssign",
        OpCode::DivAssign => "DivAssign",
        OpCode::Comma => "Comma",
        OpCode::Sequence => "Sequence",
        OpCode::Call => "Call",
    };
    append_chars(out, &chars_of(s));
    assert(out@ =~= old(out)@ + op_name(op));
}

/// The character of a decimal digit.
pub open spec fn digit(d: nat) -> char {
    if d == 0 { '0' } else if d == 1 { '1' } else if d == 2 { '2' } else if d == 3 { '3' }
    else if d == 4 { '4' } else if d == 5 { '5' } else if d == 6 { '6' } else if d == 7 { '7' }
    else if d == 8 { '8' } else { '9' }
}

/// The decimal digits of `n`.
pub open spec fn dec(n: nat) -> Seq<char>
    decreases n,
{
    if n < 10 {
        seq![digit(n)]
    } else {
        dec(n / 10).push(digit(n % 10))
    }
}

/// The decimal text of an integer, with a `-` when it is negative.
pub open spec fn int_text(i: int) -> Seq<char> {
    if i < 0 {
        seq!['-'] + dec((-i) as nat)
    } else {
        dec(i as nat)
    }
}

/// Appends the decimal digits of `n`.
fn push_dec(out: &mut Vec<char>, n: u64)
    ensures
        final(out)@ == old(out)@ + dec(n as nat),
    decreases n,
{
    if n >= 10 {
        push_dec(out, n / 10);
    }
    let d = n % 10;
    let c = if d == 0 { '0' } else if d == 1 { '1' } else if d == 2 { '2' } else if d == 3 { '3' }
        else if d == 4 { '4' } else if d == 5 { '5' } else if d == 6 { '6' } else if d == 7 { '7' }
        else if d == 8 { '8' } else { '9' };
    out.push(c);
    assert(out@ =~= old(out)@ + dec(n as nat));
}

/// Appends the decimal text of `i`.
fn push_int(out: &mut Vec<char>, i: i32)
    ensures
        final(out)@ == old(out)@ + int_text(i as int),
{
    if i < 0 {
        out.push('-');
        let m: i64 = -(i as i64);
        push_dec(out, m as u64);
        assert(out@ =~= old(out)@ + int_text(i as int));
    } else {
        push_dec(out, i as u64);
    }
}

// ---------------------------------------------------------------------------
// The rendering.
// ---------------------------------------------------------------------------

/// `s` followed by a line break.
pub open spec fn line(s: Seq<char>) -> Seq<char> {
    s.push('\n')
}

/// The rendering of `id` at indentation `prefix`, a value shown as `rd` gives it for its
/// id (as fend printed it), or as its own text where `rd` has none. `fuel` bounds how
/// many containers and instructions deep the rendering goes; past it, a container or
/// instruction shows nothing.
pub open spec fn render(ws: WorkspaceV, rd: Map<i32, Seq<char>>, id: i32, prefix: Seq<char>, fuel: nat) -> Seq<char>
    decreases fuel, 0nat,
{
    let unknown = line(prefix + "[Unknown ID] "@ + int_text(id as int));
    if ws.atoms.contains_key(id) {
        match ws.atoms[id] {
            AtomV::Container(cid) => {
                if fuel > 0 && ws.containers.contains_key(cid) {
                    let c = ws.containers[cid];
                    line(prefix + "[Container "@ + int_text(cid as int) + "] "@
                        + (if c.corrupted { "(CORRUPTED) "@ } else { Seq::empty() })
                        + (if c.contents.len() == 0 { "(empty)"@ } else { Seq::empty() }))
                        + render_list(ws, rd, c.contents.map_values(|e: Entity| e.id), prefix + "  "@, (fuel - 1) as nat)
                } else {
                    Seq::empty()
                }
            },
            AtomV::Instruction { op, args } => {
                if fuel > 0 {
                    line(prefix + "[Instr] "@ + op_name(op)) + render_list(ws, rd, args, prefix + "  "@, (fuel - 1) as nat)
                } else {
                    Seq::empty()
                }
            },
            AtomV::Value(v) => line(prefix + "[Value] "@ + (if rd.contains_key(id) { rd[id] } else { v })),
            AtomV::Variable(v) => line(prefix + "[Var] "@ + v),
            AtomV::Operator(op) => line(prefix + "[Op] "@ + op_name(op)),
            AtomV::Constant(c) => line(prefix + "[Const] "@ + c),
            AtomV::Function(f) => line(prefix + "[Func] "@ + f),
            AtomV::Poison => line(prefix + "[POISON]"@),
            AtomV::Raw(s) => line(prefix + "[Raw] '"@ + s + "'"@),
            AtomV::VectorRef(_) => unknown,
        }
    } else {
        unknown
    }
}

/// The renderings of `ids`, one after the other.
pub open spec fn render_list(ws: WorkspaceV, rd: Map<i32, Seq<char>>, ids: Seq<i32>, prefix: Seq<char>, fuel: nat) -> Seq<char>
    decreases fuel, ids.len(),
{
    if ids.len() == 0 {
        Seq::empty()
    } else {
        render_list(ws, rd, ids.drop_last(), prefix, fuel) + render(ws, rd, ids.last(), prefix, fuel)
    }
}

/// The diagnostics block.
pub open spec fn diag_lines(ds: Seq<Diagnostic>) -> Seq<char>
    decreases ds.len(),
{
    if ds.len() == 0 {
        Seq::empty()
    } else {
        let d = ds.last();
        diag_lines(ds.drop_last()) + line("    - "@ + code_name(d.code) + " at offset "@ + dec(d.span.start.offset as nat))
    }
}

/// The first `n` lines of the root.
pub open spec fn line_blocks(ws: WorkspaceV, rd: Map<i32, Seq<char>>, root: Seq<Entity>, n: nat, fuel: nat) -> Seq<char>
    decreases n,
{
    if n == 0 || n > root.len() {
        Seq::empty()
    } else {
        line_blocks(ws, rd, root, (n - 1) as nat, fuel) + line("    Line "@ + dec(n) + ":"@)
            + render(ws, rd, root[n - 1].id, "      "@, fuel)
    }
}

/// The rendering of a workspace, containers and instructions at most `fuel` deep, values
/// shown as `rd` gives them.
pub open spec fn spec_print(ws: WorkspaceV, rd: Map<i32, Seq<char>>, fuel: nat) -> Seq<char> {
    line("Workspace {"@)
        + (if ws.diagnostics.len() > 0 { line("  Diagnostics:"@) + diag_lines(ws.diagnostics) } else { Seq::empty() })
        + line("  Lines:"@)
        + (if ws.containers.contains_key(0) {
            let root = ws.containers[0].contents;
            line_blocks(ws, rd, root, root.len(), fuel)
        } else {
            line("    (No root container)"@)
        })
        + line("}"@)
}

/// Appends `s` and a line break.
fn push_line(out: &mut Vec<char>, s: &str)
    ensures
        final(out)@ == old(out)@ + line(s@),
{
    append_chars(out, &chars_of(s));
    out.push('\n');
    assert(out@ =~= old(out)@ + line(s@));
}

/// Appends the rendering of `id`.
#[verifier::rlimit(40)]
fn print_entity(ws: &Workspace, rd: &IdMap<String>, id: i32, prefix: &Vec<char>, fuel: u64, out: &mut Vec<char>)
    requires
        ws.wf(),
        rd.wf(),
    ensures
        final(out)@ == old(out)@ + render(ws@, shown(rd), id, prefix@, fuel as nat),
    decreases fuel, 0nat,
{
    let mut deeper = prefix.clone();
    deeper.push(' ');
    deeper.push(' ');
    assert(deeper@ =~= prefix@ + "  "@) by {
        reveal_strlit("  ");
    }
    match ws.atoms.get(id) {
        Some(Atom::Container(cid)) => {
            if fuel > 0 {
                if let Some(c) = ws.containers.get(*cid) {
                    append_chars(out, prefix);
                    append_chars(out, &chars_of("[Container "));
                    push_int(out, *cid);
                    append_chars(out, &chars_of("] "));
                    if c.corrupted {
                        append_chars(out, &chars_of("(CORRUPTED) "));
                    }
                    if c.contents.len() == 0 {
                        append_chars(out, &chars_of("(empty)"));
                    }
                    out.push('\n');
                    let ghost head = out@;
                    let mut ids: Vec<i32> = Vec::new();
                    let mut k: usize = 0;
                    while k < c.contents.len()
                        invariant
                            k <= c.contents@.len(),
                            ids@ == c.contents@.take(k as int).map_values(|e: Entity| e.id),
                        decreases c.contents@.len() - k,
                    {
                        ids.push(c.contents[k].id);
                        k = k + 1;
                        assert(ids@ =~= c.contents@.take(k as int).map_values(|e: Entity| e.id));
                    }
                    assert(c.contents@.take(k as int) =~= c.contents@);
                    print_list(ws, rd, &ids, &deeper, fuel - 1, out);
                    assert(out@ =~= old(out)@ + render(ws@, shown(rd), id, prefix@, fuel as nat));
                }
            }
        },
        Some(Atom::Instruction { op, args }) => {
            if fuel > 0 {
                append_chars(out, prefix);
                append_chars(out, &chars_of("[Instr] "));
                push_op_name(out, *op);
                out.push('\n');
                print_list(ws, rd, args, &deeper, fuel - 1, out);
                assert(out@ =~= old(out)@ + render(ws@, shown(rd), id, prefix@, fuel as nat));
            }
        },
        Some(Atom::Value(v)) => {
            append_chars(out, prefix);
            append_chars(out, &chars_of("[Value] "));
            match rd.get(id) {
                Some(t) => {
                    assert(shown(rd).contains_key(id) && shown(rd)[id] == t@);
                    append_chars(out, &chars_of(t.as_str()));
                },
                None => {
                    assert(!shown(rd).contains_key(id));
                    append_chars(out, &chars_of(v.as_str()));
                },
            }
            out.push('\n');
            assert(out@ =~= old(out)@ + render(ws@, shown(rd), id, prefix@, fuel as nat));
        },
        Some(Atom::Variable(v)) => {
            append_chars(out, prefix);
            append_chars(out, &chars_of("[Var] "));
            append_chars(out, &chars_of(v.as_str()));
            out.push('\n');
            assert(out@ =~= old(out)@ + render(ws@, shown(rd), id, prefix@, fuel as nat));
        },
        Some(Atom::Operator(op)) => {
            append_chars(out, prefix);
            append_chars(out, &chars_of("[Op] "));
            push_op_name(out, *op);
            out.push('\n');
            assert(out@ =~= old(out)@ + render(ws@, shown(rd), id, prefix@, fuel as nat));
        },
        Some(Atom::Constant(c)) => {
            append_chars(out, prefix);
            append_chars(out, &chars_of("[Const] "));
            append_chars(out, &chars_of(c.as_str()));
            out.push('\n');
            assert(out@ =~= old(out)@ + render(ws@, shown(rd), id, prefix@, fuel as nat));
        },
        Some(Atom::Function(f)) => {
            append_chars(out, prefix);
            append_chars(out, &chars_of("[Func] "));
            append_chars(out, &chars_of(f.as_str()));
            out.push('\n');
            assert(out@ =~= old(out)@ + render(ws@, shown(rd), id, prefix@, fuel as nat));
        },
        Some(Atom::Poison) => {
            append_chars(out, prefix);
            append_chars(out, &chars_of("[POISON]"));
            out.push('\n');
            assert(out@ =~= old(out)@ + render(ws@, shown(rd), id, prefix@, fuel as nat));
        },
        Some(Atom::Raw(s)) => {
            append_chars(out, prefix);
            append_chars(out, &chars_of("[Raw] '"));
            append_chars(out, &chars_of(s.as_str()));
            append_chars(out, &chars_of("'"));
            out.push('\n');
            assert(out@ =~= old(out)@ + render(ws@, shown(rd), id, prefix@, fuel as nat));
        },
        _ => {
            append_chars(out, prefix);
            append_chars(out, &chars_of("[Unknown ID] "));
            push_int(out, id);
            out.push('\n');
            assert(out@ =~= old(out)@ + render(ws@, shown(rd), id, prefix@, fuel as nat));
        },
    }
}

/// Appends the renderings of `ids`.
fn print_list(ws: &Workspace, rd: &IdMap<String>, ids: &Vec<i32>, prefix: &Vec<char>, fuel: u64, out: &mut Vec<char>)
    requires
        ws.wf(),
        rd.wf(),
    ensures
        final(out)@ == old(out)@ + render_list(ws@, shown(rd), ids@, prefix@, fuel as nat),
    decreases fuel, 1nat,
{
    let mut k: usize = 0;
    while k < ids.len()
        invariant
            ws.wf(),
            rd.wf(),
            k <= ids@.len(),
            out@ == old(out)@ + render_list(ws@, shown(rd), ids@.take(k as int), prefix@, fuel as nat),
        decreases ids@.len() - k,
    {
        proof {
            assert(ids@.take(k + 1).drop_last() =~= ids@.take(k as int));
            assert(ids@.take(k + 1).last() == ids@[k as int]);
        }
        print_entity(ws, rd, ids[k], prefix, fuel, out);
        k = k + 1;
        assert(out@ =~= old(out)@ + render_list(ws@, shown(rd), ids@.take(k as int), prefix@, fuel as nat));
    }
    assert(ids@.take(k as int) =~= ids@);
}

/// The values shown, by id, as plain text.
pub open spec fn shown(rd: &IdMap<String>) -> Map<i32, Seq<char>> {
    rd.map().map_values(|t: String| t@)
}

/// How each value of the workspace is shown: as fend prints it, or as its own text when
/// fend does not evaluate it. Every value's id gets an entry.
fn value_renderings(workspace: &Workspace) -> (rd: IdMap<String>)
    requires
        workspace.wf(),
    ensures
        rd.wf(),
{
    let mut rd: IdMap<String> = IdMap::new();
    let mut i: usize = 0;
    while i < workspace.atoms.len()
        invariant
            workspace.wf(),
            rd.wf(),
            i <= workspace.atoms.entries().len(),
        decreases workspace.atoms.entries().len() - i,
    {
        let (id, a) = workspace.atoms.entry_at(i);
        if let Atom::Value(v) = a {
            match evaluate_fresh(v.as_str()) {
                Some(t) => rd.insert(id, t),
                None => rd.insert(id, v.clone()),
            }
        }
        i = i + 1;
    }
    rd
}

/// Renders the workspace's topology in a human-readable form: its diagnostics, then
/// each line of the root with everything below it. Containers and instructions nest at
/// most as deep as the workspace has atoms (only a cycle would go deeper). A value is
/// shown as fend prints it (which is not claimed here), or as its own text when fend
/// does not evaluate it; everything else is fixed by `spec_print`.
pub fn print_workspace(workspace: &Workspace) -> (r: String)
    requires
        workspace.wf(),
    ensures
        exists|rd: Map<i32, Seq<char>>| r@ == spec_print(workspace@, rd, workspace.atoms.key_seq().len()),
{
    proof {
        workspace.atoms.lemma_wf();
    }
    let rd = value_renderings(workspace);
    let fuel = workspace.atoms.len() as u64;
    let mut out: Vec<char> = Vec::new();
    push_line(&mut out, "Workspace {");
    if workspace.diagnostics.len() > 0 {
        push_line(&mut out, "  Diagnostics:");
        let ghost base = out@;
        let mut i: usize = 0;
        while i < workspace.diagnostics.len()
            invariant
                i <= workspace.diagnostics@.len(),
                out@ == base + diag_lines(workspace.diagnostics@.take(i as int)),
            decreases workspace.diagnostics@.len() - i,
        {
            let d = workspace.diagnostics[i];
            proof {
                assert(workspace.diagnostics@.take(i + 1).drop_last() =~= workspace.diagnostics@.take(i as int));
                assert(workspace.diagnostics@.take(i + 1).last() == d);
            }
            append_chars(&mut out, &chars_of("    - "));
            append_chars(&mut out, &chars_of(code_name_exec(d.code)));
            append_chars(&mut out, &chars_of(" at offset "));
            push_dec(&mut out, d.span.start.offset as u64);
            out.push('\n');
            i = i + 1;
            assert(out@ =~= base + diag_lines(workspace.diagnostics@.take(i as int)));
        }
        assert(workspace.diagnostics@.take(i as int) =~= workspace.diagnostics@);
    }
    push_line(&mut out, "  Lines:");
    let ghost mid = out@;
    match workspace.containers.get(0) {
        Some(root) => {
            let prefix = chars_of("      ");
            let mut i: usize = 0;
            while i < root.contents.len()
                invariant
                    workspace.wf(),
                    rd.wf(),
                    workspace@.containers.contains_key(0),
                    workspace@.containers[0].contents == root.contents@,
                    prefix@ == "      "@,
                    i <= root.contents@.len(),
                    out@ == mid + line_blocks(workspace@, shown(&rd), root.contents@, i as nat, fuel as nat),
                decreases root.contents@.len() - i,
            {
                append_chars(&mut out, &chars_of("    Line "));
                push_dec(&mut out, i as u64 + 1);
                append_chars(&mut out, &chars_of(":"));
                out.push('\n');
                print_entity(workspace, &rd, root.contents[i].id, &prefix, fuel, &mut out);
                i = i + 1;
                assert(out@ =~= mid + line_blocks(workspace@, shown(&rd), root.contents@, i as nat, fuel as nat));
            }
        },
        None => {
            push_line(&mut out, "    (No root container)");
        },
    }
    push_line(&mut out, "}");
    assert(out@ =~= spec_print(workspace@, shown(&rd), workspace.atoms.key_seq().len()));
    string_from_chars(&out)
}

} // verus!
