//! A small language for everyday arithmetic in a text buffer.

pub mod maps;
pub mod fend;
pub mod text;
pub mod model;
pub mod builtins;
pub mod parser;
pub mod janitor;
pub mod unroller;
pub mod muncher;
pub mod distiller;
pub mod edits;
pub mod config;
pub mod engine;
pub mod printer;
pub mod ident;
pub mod shape;

use vstd::prelude::*;
use crate::maps::StrMap;
use crate::model::{Diagnostic, EngineResult, TextEdit, Workspace, WorkspaceV};
use crate::config::{Config, ReassignmentBehavior};
use crate::engine::{edit_out, engine_start, given, offsets_fit, spec_execute, EditOut, EngineV, Executioner};
use crate::edits::{spec_apply_edits, EditV};
use crate::builtins::{generate_symbol_map, spec_symbol_entries};
use crate::text::{byte_len_capped, chars_of};
use crate::shape::{intern_injective, offsets_within, raw_fits, raw_interned, ws_shape};
use crate::parser::{lemma_sweep_shape, lemma_symbol_entries_ok};
use crate::distiller::lemma_distill_shape;
use crate::unroller::ready_with;
use crate::text::byte_len;
use crate::parser::spec_sweep;
use crate::distiller::{all_entities, distill_fits, distill_ready, spec_distill};
use crate::janitor::{janitor_ready, lines_flat, spec_scrub};
use crate::unroller::{unroll_cost, unroll_ready, spec_unroll};
pub use crate::edits::apply_edits;

verus! {

/// Stage 0: the structural sweep. Returns the buffer's containers, interned symbols
/// and structural diagnostics.
pub fn parse(text: &str, builtins: &StrMap, constants: &[&str]) -> (ws: Workspace)
    requires
        builtins.wf(),
        byte_len(text@) < u32::MAX,
        2 * text@.len() + constants@.len() + 8 < i32::MAX,
    ensures
        ws.wf(),
        ws@ == spec_sweep(text@, builtins.entries(), constants@.map_values(|c: &str| c@)),
{
    parser::sweep(text, builtins, constants)
}

/// Stage 1: assigns roles to atoms and marries values to their units.
pub fn distiller(workspace: &mut Workspace)
    requires
        old(workspace).wf(),
        distill_ready(old(workspace)@),
    ensures
        final(workspace).wf(),
        exists|u: Set<Seq<char>>| final(workspace)@ == spec_distill(old(workspace)@, u),
{
    distiller::distill(workspace);
}

/// Stage 1 where the ids it mints are sure to fit (five per entity): returns whether it
/// ran; when it did not, the workspace is left as it was.
pub fn try_distiller(workspace: &mut Workspace) -> (ran: bool)
    requires
        old(workspace).wf(),
        distill_fits(old(workspace)@),
    ensures
        final(workspace).wf(),
        ran <==> old(workspace)@.next_id + 5 * all_entities(old(workspace)@).len() < i32::MAX,
        ran ==> exists|u: Set<Seq<char>>| final(workspace)@ == spec_distill(old(workspace)@, u),
        !ran ==> final(workspace)@ == old(workspace)@,
{
    let count = crate::distiller::entity_count(workspace);
    if (workspace.next_id as i64) + 5 * (count as i64) >= 0x7fff_ffff {
        return false;
    }
    distiller(workspace);
    true
}

/// Stage 2: scrubs the structural soup for mathematical sanity.
pub fn janitor(workspace: &mut Workspace)
    requires
        old(workspace).wf(),
        janitor_ready(old(workspace)@),
    ensures
        final(workspace).wf(),
        final(workspace)@ == spec_scrub(old(workspace)@),
        ready_with(final(workspace)@, old(workspace)@.next_id as int),
        lines_flat(final(workspace)@),
{
    janitor::scrub(workspace);
}

/// Stage 3: flattens the nested hierarchy into a linear tape of instructions per line.
pub fn unroller(workspace: &mut Workspace)
    requires
        old(workspace).wf(),
        unroll_ready(old(workspace)@),
        spec_unroll(old(workspace)@).next_id < i32::MAX,
    ensures
        final(workspace).wf(),
        final(workspace)@ == spec_unroll(old(workspace)@),
{
    unroller::unroll(workspace);
}

/// Stage 3 where the ids it mints are sure to fit (see `unroll_cost`): returns whether it
/// ran; when it did not, the workspace is left as it was.
pub fn try_unroller(workspace: &mut Workspace) -> (ran: bool)
    requires
        old(workspace).wf(),
        unroll_ready(old(workspace)@),
    ensures
        final(workspace).wf(),
        ran <==> old(workspace)@.next_id + unroll_cost(old(workspace)@) < i32::MAX,
        ran ==> final(workspace)@ == spec_unroll(old(workspace)@),
        !ran ==> final(workspace)@ == old(workspace)@,
{
    let cost = crate::unroller::unroll_cost_exec(workspace);
    proof {
        let lim = choose|lim: int| ready_with(workspace@, lim);
        assert(ready_with(workspace@, lim));
    }
    if (workspace.next_id as i64) + (cost as i64) >= 0x7fff_ffff {
        return false;
    }
    proof {
        let lim = choose|lim: int| ready_with(workspace@, lim);
        crate::unroller::lemma_unroll_within(workspace@, lim);
    }
    unroller(workspace);
    true
}

/// The workspace after the distiller, the janitor and the unroller, with `u` the names
/// beyond the workspace's own that fend was found to know.
pub open spec fn spec_stages(ws: WorkspaceV, u: Set<Seq<char>>) -> WorkspaceV {
    spec_unroll(spec_scrub(spec_distill(ws, u)))
}

/// What the stages need of a workspace handed to them: the shape the parser gives (ids
/// below the counter, nesting in opening order, interned ids that name no container,
/// raw atoms interned under their names, the comma an operator) with entity offsets and
/// raw symbols inside a buffer of `end` bytes that offsets and indices can hold.
pub open spec fn pipeline_ready(ws: WorkspaceV, end: int) -> bool {
    &&& ws_shape(ws)
    &&& intern_injective(ws)
    &&& raw_interned(ws)
    &&& offsets_within(ws, end)
    &&& raw_fits(ws, end)
    &&& ws.intern.contains_key(seq![','])
    &&& ws.atoms.contains_key(ws.intern[seq![',']])
    &&& ws.atoms[ws.intern[seq![',']]] is Operator
    &&& 0 <= end < u32::MAX
    &&& 4 * end <= usize::MAX
}

/// The ids that the stages mint fit in `i32`, whatever names fend knows: the
/// distiller's (at most five per entity) with one line per root entity to spare, and
/// the unroller's.
pub open spec fn ids_fit(ws: WorkspaceV) -> bool {
    &&& ws.next_id + 5 * all_entities(ws).len() + ws.containers[0].contents.len() < i32::MAX
    &&& forall|u: Set<Seq<char>>| #[trigger] spec_stages(ws, u).next_id < i32::MAX
}

/// A character takes at least one byte.
proof fn lemma_len_le_bytes(s: Seq<char>)
    ensures
        s.len() <= byte_len(s),
{
    crate::text::lemma_byte_index_mono(s, 0, s.len() as int);
}

/// A workspace ready for the pipeline is ready for the distiller, and what the
/// distiller makes of it is ready for the janitor.
pub proof fn lemma_distilled_ready(ws: WorkspaceV, u: Set<Seq<char>>, end: int)
    requires
        pipeline_ready(ws, end),
        ws.next_id + 5 * all_entities(ws).len() + ws.containers[0].contents.len() < i32::MAX,
    ensures
        distill_ready(ws),
        janitor_ready(spec_distill(ws, u)),
        offsets_within(spec_distill(ws, u), end),
{
    crate::distiller::lemma_distill_count(ws, u);
    assert forall|c: i32, i: int|
        #![trigger ws.containers[c].contents[i]]
        ws.containers.contains_key(c) && 0 <= i < ws.containers[c].contents.len()
            && ws.atoms.contains_key(ws.containers[c].contents[i].id)
            && ws.atoms[ws.containers[c].contents[i].id] is Raw
            implies ws.containers[c].contents[i].offset + byte_len(ws.atoms[ws.containers[c].contents[i].id]->Raw_0) <= u32::MAX
                && 4 * (ws.atoms[ws.containers[c].contents[i].id]->Raw_0).len() <= usize::MAX by {
        lemma_len_le_bytes(ws.atoms[ws.containers[c].contents[i].id]->Raw_0);
    }
    let comma = ws.intern[seq![',']];
    lemma_distill_shape(ws, u, end, comma);
    let d = spec_distill(ws, u);
    assert(d.containers[0] == ws.containers[0]);
    assert(crate::janitor::spec_seq_ids(d).comma == comma);
}

/// The stages keep every entity offset inside the buffer, so each leaves room for the
/// byte after it.
pub proof fn lemma_stages_offsets(ws: WorkspaceV, u: Set<Seq<char>>, end: int)
    requires
        pipeline_ready(ws, end),
        ws.next_id + 5 * all_entities(ws).len() + ws.containers[0].contents.len() < i32::MAX,
        spec_stages(ws, u).next_id < i32::MAX,
    ensures
        offsets_fit(spec_stages(ws, u)),
{
    lemma_distilled_ready(ws, u, end);
    crate::janitor::lemma_scrub_offsets(spec_distill(ws, u), end);
    crate::unroller::lemma_unroll_offsets(spec_scrub(spec_distill(ws, u)), end);
    let w = spec_stages(ws, u);
    assert forall|c: i32, i: int|
        #![trigger w.containers[c].contents[i]]
        w.containers.contains_key(c) && 0 <= i < w.containers[c].contents.len()
            implies w.containers[c].contents[i].offset < u32::MAX by {
    }
}

/// The executioner's state after running the workspace from a fresh start, with
/// reassignments treated as `rb` says and fend's replies taken to be `replies`.
pub open spec fn spec_run(ws: WorkspaceV, text: Seq<char>, rb: ReassignmentBehavior, replies: Seq<Option<Seq<char>>>) -> EngineV {
    spec_execute(ws, text, engine_start(rb, replies))
}

/// The plain views of a list of edits.
pub open spec fn edits_out(es: Seq<TextEdit>) -> Seq<EditOut> {
    es.map_values(|e: TextEdit| edit_out(e))
}

/// The diagnostics `ds` and edits `es` are those of the run of `ws` in which fend gave
/// the replies `replies`, one to each text the run asked it to evaluate.
pub open spec fn run_gives(
    ws: WorkspaceV,
    text: Seq<char>,
    rb: ReassignmentBehavior,
    replies: Seq<Option<Seq<char>>>,
    ds: Seq<Diagnostic>,
    es: Seq<EditOut>,
) -> bool {
    let run = spec_run(ws, text, rb, replies);
    &&& replies.len() == run.history.len()
    &&& ds == run.diagnostics
    &&& es == run.edits
}

/// Stage 4: runs every line's tape through fend.
pub fn executioner(workspace: &mut Workspace, config: &Config, text: &str) -> (r: EngineResult)
    requires
        old(workspace).wf(),
        text@.len() <= u32::MAX,
        offsets_fit(old(workspace)@),
    ensures
        final(workspace)@ == old(workspace)@,
        final(workspace).wf(),
        exists|replies: Seq<Option<Seq<char>>>|
            #[trigger] run_gives(old(workspace)@, text@, config.reassignment, replies, r.diagnostics@, edits_out(r.edits@)),
{
    let mut exec = Executioner::new(&*workspace, config, text);
    let r = exec.execute();
    proof {
        let rs = exec.engine().replies;
        assert(given(engine_start(config.reassignment, Seq::empty()), rs) == engine_start(config.reassignment, rs));
        if !workspace@.containers.contains_key(0) {
            assert(r.diagnostics@ =~= Seq::<Diagnostic>::empty());
            assert(r.edits@.map_values(|e: TextEdit| edit_out(e)) =~= Seq::<EditOut>::empty());
        }
        assert(run_gives(workspace@, text@, config.reassignment, rs, r.diagnostics@, edits_out(r.edits@)));
    }
    r
}

/// Semantic analysis and evaluation: the distiller, the janitor, the unroller and the
/// executioner, in turn.
pub fn evaluate(text: &str, workspace: &mut Workspace, config: &Config) -> (r: EngineResult)
    requires
        old(workspace).wf(),
        pipeline_ready(old(workspace)@, byte_len(text@) as int),
        ids_fit(old(workspace)@),
    ensures
        final(workspace).wf(),
        exists|u: Set<Seq<char>>, replies: Seq<Option<Seq<char>>>| {
            &&& final(workspace)@ == spec_stages(old(workspace)@, u)
            &&& #[trigger] run_gives(spec_stages(old(workspace)@, u), text@, config.reassignment, replies, r.diagnostics@, edits_out(r.edits@))
        },
{
    let ghost w0 = workspace@;
    proof {
        lemma_distilled_ready(w0, Set::empty(), byte_len(text@) as int);
    }
    distiller(workspace);
    let ghost u = choose|u: Set<Seq<char>>| workspace@ == spec_distill(w0, u);
    proof {
        lemma_distilled_ready(w0, u, byte_len(text@) as int);
        lemma_stages_offsets(w0, u, byte_len(text@) as int);
        lemma_len_le_bytes(text@);
        assert(spec_stages(w0, u).next_id < i32::MAX);
    }
    let ghost w1 = workspace@;
    janitor(workspace);
    proof {
        assert(ready_with(workspace@, w1.next_id as int));
    }
    unroller(workspace);
    let r = executioner(workspace, config, text);
    proof {
        let rs = choose|rs: Seq<Option<Seq<char>>>| run_gives(workspace@, text@, config.reassignment, rs, r.diagnostics@, edits_out(r.edits@));
        assert(workspace@ == spec_stages(w0, u));
        assert(run_gives(spec_stages(w0, u), text@, config.reassignment, rs, r.diagnostics@, edits_out(r.edits@)));
    }
    r
}

/// What `try_evaluate` gives, with `u` the names fend was found to know: a result
/// exactly when the id budget holds, and then the stages' workspace `w1` and a run of
/// the executioner on it.
pub open spec fn tried(
    w0: WorkspaceV,
    w1: WorkspaceV,
    text: Seq<char>,
    rb: ReassignmentBehavior,
    u: Set<Seq<char>>,
    r: Option<EngineResult>,
) -> bool {
    &&& (r is Some <==> ids_budget(w0, u))
    &&& r matches Some(res) ==> {
        &&& w1 == spec_stages(w0, u)
        &&& exists|replies: Seq<Option<Seq<char>>>|
            #[trigger] run_gives(w1, text, rb, replies, res.diagnostics@, edits_out(res.edits@))
    }
}

/// The id budget that `try_evaluate` checks, with `u` the names fend was found to know:
/// the distiller mints at most five ids per entity and the janitor one per root entity,
/// and the unroller at most its cost on what the janitor makes.
pub open spec fn ids_budget(ws: WorkspaceV, u: Set<Seq<char>>) -> bool {
    let s = spec_scrub(spec_distill(ws, u));
    &&& ws.next_id + 5 * all_entities(ws).len() + ws.containers[0].contents.len() < i32::MAX
    &&& s.next_id + unroll_cost(s) < i32::MAX
}

/// Semantic analysis and evaluation as in `evaluate`, where the ids the stages mint are
/// sure to fit: returns `None` (having run at most the distiller and the janitor) when
/// the budget of `ids_budget` does not hold.
pub fn try_evaluate(text: &str, workspace: &mut Workspace, config: &Config) -> (r: Option<EngineResult>)
    requires
        old(workspace).wf(),
        pipeline_ready(old(workspace)@, byte_len(text@) as int),
    ensures
        final(workspace).wf(),
        exists|u: Set<Seq<char>>| #[trigger] tried(old(workspace)@, final(workspace)@, text@, config.reassignment, u, r),
{
    let ghost w0 = workspace@;
    let ghost end = byte_len(text@) as int;
    let count = crate::distiller::entity_count(workspace);
    let root_len: u64 = match workspace.containers.get(0) {
        Some(r) => r.contents.len() as u64,
        None => 0,
    };
    proof {
        assert(w0.containers.contains_key(0));
    }
    if root_len >= 0x7fff_ffff || (workspace.next_id as u64) + 5 * count + root_len >= 0x7fff_ffff {
        proof {
            assert(tried(w0, workspace@, text@, config.reassignment, Set::empty(), None));
        }
        return None;
    }
    proof {
        lemma_len_le_bytes(text@);
        lemma_distilled_ready(w0, Set::empty(), end);
    }
    distiller(workspace);
    let ghost u = choose|u: Set<Seq<char>>| workspace@ == spec_distill(w0, u);
    proof {
        lemma_distilled_ready(w0, u, end);
    }
    let ghost w1 = workspace@;
    janitor(workspace);
    let ghost w2 = workspace@;
    let cost = crate::unroller::unroll_cost_exec(workspace);
    if (workspace.next_id as u64) + cost >= 0x7fff_ffff {
        proof {
            assert(tried(w0, workspace@, text@, config.reassignment, u, None));
        }
        return None;
    }
    proof {
        assert(ready_with(w2, w1.next_id as int));
        crate::unroller::lemma_unroll_within(w2, w1.next_id as int);
        lemma_stages_offsets(w0, u, end);
    }
    unroller(workspace);
    let res = executioner(workspace, config, text);
    proof {
        let rs = choose|rs: Seq<Option<Seq<char>>>| run_gives(workspace@, text@, config.reassignment, rs, res.diagnostics@, edits_out(res.edits@));
        assert(workspace@ == spec_stages(w0, u));
        assert(run_gives(spec_stages(w0, u), text@, config.reassignment, rs, res.diagnostics@, edits_out(res.edits@)));
        assert(ids_budget(w0, u));
        let r = Some(res);
        assert(r->0 == res);
        assert(run_gives(workspace@, text@, config.reassignment, rs, r->0.diagnostics@, edits_out(r->0.edits@)));
        assert(tried(w0, workspace@, text@, config.reassignment, u, r));
    }
    Some(res)
}

/// The plain edits of the executioner's fills.
pub open spec fn fills_plain(es: Seq<EditOut>) -> Seq<EditV> {
    es.map_values(|e: EditOut| (e.span.start.offset, e.span.end.offset, e.new_text))
}

/// The workspace the parser builds from `text` with the built-in symbols and `constants`.
pub open spec fn spec_parse_buffer(text: Seq<char>, constants: Seq<Seq<char>>) -> WorkspaceV {
    spec_sweep(text, spec_symbol_entries(), constants)
}

/// A buffer whose offsets, indices and parser ids the library's integers can hold.
pub open spec fn sizes_ok(text: Seq<char>, constants: Seq<Seq<char>>) -> bool {
    &&& byte_len(text) < u32::MAX
    &&& 4 * byte_len(text) <= usize::MAX
    &&& 2 * text.len() + constants.len() + 8 < i32::MAX
}

/// What running the stages on a buffer needs: sizes that the ids and offsets can hold,
/// whatever names fend knows.
pub open spec fn stages_ready(text: Seq<char>, constants: Seq<Seq<char>>) -> bool {
    let ws = spec_parse_buffer(text, constants);
    &&& sizes_ok(text, constants)
    &&& ids_fit(ws)
}

/// What the parser builds from a buffer is ready for the pipeline, and its root holds at
/// most one entity per character.
pub proof fn lemma_parsed_ready(text: Seq<char>, constants: Seq<Seq<char>>)
    requires
        byte_len(text) < u32::MAX,
        4 * byte_len(text) <= usize::MAX,
        2 * text.len() + constants.len() + 8 < i32::MAX,
    ensures
        pipeline_ready(spec_parse_buffer(text, constants), byte_len(text) as int),
        spec_parse_buffer(text, constants).containers[0].contents.len() <= text.len(),
{
    lemma_symbol_entries_ok();
    lemma_sweep_shape(text, spec_symbol_entries(), constants);
    let w = spec_parse_buffer(text, constants);
    let e = byte_len(text) as int;
    assert(crate::parser::ws_inv(w, e));
    lemma_comma_operator(w, e);
}

/// In a parsed workspace the comma is interned as an operator.
proof fn lemma_comma_operator(w: WorkspaceV, e: int)
    requires
        crate::parser::ws_inv(w, e),
    ensures
        w.intern.contains_key(seq![',']),
        w.atoms.contains_key(w.intern[seq![',']]),
        w.atoms[w.intern[seq![',']]] is Operator,
{
    assert(crate::builtins::punct_ops()[16] == seq![',']);
    assert(w.intern.contains_key(crate::builtins::punct_ops()[16]));
}

/// The buffer with the fills `es` applied when `fills` asks for them (and they land on
/// character boundaries), else the buffer as it is.
pub open spec fn filled(text: Seq<char>, fills: bool, es: Seq<EditOut>) -> Seq<char> {
    if fills && es.len() > 0 && spec_apply_edits(text, fills_plain(es)) is Some {
        spec_apply_edits(text, fills_plain(es))->Some_0
    } else {
        text
    }
}

/// `out` and `ds` are what `process_buffer` gives for the buffer `text` when fend knew
/// the further names `u` and gave the replies `replies`: the buffer with the fills
/// applied (when asked for), and the diagnostics of every stage.
pub open spec fn process_gives(
    text: Seq<char>,
    constants: Seq<Seq<char>>,
    fills: bool,
    rb: ReassignmentBehavior,
    u: Set<Seq<char>>,
    replies: Seq<Option<Seq<char>>>,
    out: Seq<char>,
    ds: Seq<Diagnostic>,
) -> bool {
    let ws = spec_stages(spec_parse_buffer(text, constants), u);
    let run = spec_run(ws, text, rb, replies);
    &&& replies.len() == run.history.len()
    &&& out == filled(text, fills, run.edits)
    &&& ds == ws.diagnostics + run.diagnostics
}

/// The configured constant names, borrowed.
fn constant_refs(config: &Config) -> (r: Vec<&str>)
    ensures
        r@.map_values(|c: &str| c@) == config.constant_names(),
{
    let mut constants: Vec<&str> = Vec::new();
    let mut i: usize = 0;
    while i < config.constants.len()
        invariant
            i <= config.constants@.len(),
            constants@.map_values(|c: &str| c@) == config.constant_names().take(i as int),
        decreases config.constants@.len() - i,
    {
        let ghost before = constants@;
        constants.push(config.constants[i].as_str());
        i = i + 1;
        proof {
            let f = |c: &str| c@;
            before.lemma_push_map_commute(f, constants@.last());
            assert(constants@ == before.push(constants@.last()));
            assert(constants@.map_values(f) =~= config.constant_names().take(i as int));
        }
    }
    proof {
        assert(config.constant_names().take(i as int) =~= config.constant_names());
    }
    constants
}

/// The diagnostics `a` followed by `b`.
fn concat_diagnostics(a: &Vec<Diagnostic>, b: &Vec<Diagnostic>) -> (r: Vec<Diagnostic>)
    ensures
        r@ == a@ + b@,
{
    let mut r: Vec<Diagnostic> = Vec::new();
    let mut d: usize = 0;
    while d < a.len()
        invariant
            d <= a@.len(),
            r@ == a@.take(d as int),
        decreases a@.len() - d,
    {
        r.push(a[d]);
        d = d + 1;
        assert(r@ =~= a@.take(d as int));
    }
    assert(a@.take(a@.len() as int) =~= a@);
    let mut e: usize = 0;
    while e < b.len()
        invariant
            e <= b@.len(),
            r@ == a@ + b@.take(e as int),
        decreases b@.len() - e,
    {
        r.push(b[e]);
        e = e + 1;
        assert(r@ =~= a@ + b@.take(e as int));
    }
    assert(b@.take(b@.len() as int) =~= b@);
    r
}

/// Applies the executioner's fills to the buffer when `fills` asks for them; a set of
/// fills that does not land on character boundaries leaves the buffer as it is.
fn apply_fills(text: &str, fills: bool, edits: &Vec<TextEdit>) -> (r: String)
    ensures
        r@ == filled(text@, fills, edits_out(edits@)),
{
    proof {
        let f = |e: TextEdit| edit_out(e);
        assert(crate::edits::edits_view(edits@) =~= fills_plain(edits@.map_values(f)));
    }
    if fills && edits.len() > 0 {
        match crate::edits::try_apply_edits(text, edits.as_slice()) {
            Some(t) => t,
            None => crate::builtins::string_from_chars(&chars_of(text)),
        }
    } else {
        crate::builtins::string_from_chars(&chars_of(text))
    }
}

/// Fills change only the text: for the same names and replies of fend, a run without
/// fills gives the buffer as it was and the very diagnostics of a run with them.
pub proof fn lemma_fills_change_only_text(
    text: Seq<char>,
    constants: Seq<Seq<char>>,
    rb: ReassignmentBehavior,
    u: Set<Seq<char>>,
    replies: Seq<Option<Seq<char>>>,
    out: Seq<char>,
    ds: Seq<Diagnostic>,
)
    requires
        process_gives(text, constants, true, rb, u, replies, out, ds),
    ensures
        process_gives(text, constants, false, rb, u, replies, text, ds),
{
}

/// Runs the whole pipeline on a buffer: returns the buffer with the fills applied (when
/// the configuration asks for them) and the diagnostics of every stage. fend's answers
/// are not claimed: the result is the pipeline's for the names fend knew and the
/// replies it gave.
pub fn process_buffer(text: &str, config: &Config) -> (r: (String, Vec<Diagnostic>))
    requires
        stages_ready(text@, config.constant_names()),
    ensures
        exists|u: Set<Seq<char>>, replies: Seq<Option<Seq<char>>>|
            #[trigger] process_gives(text@, config.constant_names(), config.generate_fills, config.reassignment, u, replies, r.0@, r.1@),
{
    let builtins = generate_symbol_map();
    let constants = constant_refs(config);
    let mut workspace = parse(text, &builtins, constants.as_slice());
    proof {
        lemma_parsed_ready(text@, config.constant_names());
    }
    let ghost w0 = workspace@;
    let result = evaluate(text, &mut workspace, config);
    let diagnostics = concat_diagnostics(&workspace.diagnostics, &result.diagnostics);
    let final_text = apply_fills(text, config.generate_fills, &result.edits);
    let ghost ur = choose|ur: (Set<Seq<char>>, Seq<Option<Seq<char>>>)| {
        &&& workspace@ == spec_stages(w0, ur.0)
        &&& #[trigger] run_gives(spec_stages(w0, ur.0), text@, config.reassignment, ur.1, result.diagnostics@, edits_out(result.edits@))
    };
    proof {
        let (u, rs) = choose|u: Set<Seq<char>>, rs: Seq<Option<Seq<char>>>| {
            &&& workspace@ == spec_stages(w0, u)
            &&& #[trigger] run_gives(spec_stages(w0, u), text@, config.reassignment, rs, result.diagnostics@, edits_out(result.edits@))
        };
        assert(run_gives(spec_stages(w0, (u, rs).0), text@, config.reassignment, (u, rs).1, result.diagnostics@, edits_out(result.edits@)));
    }
    let r = (final_text, diagnostics);
    assert(process_gives(text@, config.constant_names(), config.generate_fills, config.reassignment, ur.0, ur.1, r.0@, r.1@));
    r
}

/// What `try_process_buffer` gives for a buffer of sizes the library holds, with `u` the
/// names fend was found to know: a result exactly when the id budget holds, and then
/// what `process_buffer` gives for some replies of fend.
pub open spec fn buffer_tried(
    text: Seq<char>,
    constants: Seq<Seq<char>>,
    fills: bool,
    rb: ReassignmentBehavior,
    u: Set<Seq<char>>,
    r: Option<(String, Vec<Diagnostic>)>,
) -> bool {
    &&& (r is Some <==> ids_budget(spec_parse_buffer(text, constants), u))
    &&& r matches Some(p) ==> exists|replies: Seq<Option<Seq<char>>>|
        #[trigger] process_gives(text, constants, fills, rb, u, replies, p.0@, p.1@)
}

/// Runs the whole pipeline on any buffer, where it can: returns `None` when the buffer is
/// too large for the offsets and ids, or when the ids the stages mint might not fit (see
/// `ids_budget`); otherwise what `process_buffer` returns.
pub fn try_process_buffer(text: &str, config: &Config) -> (r: Option<(String, Vec<Diagnostic>)>)
    ensures
        !sizes_ok(text@, config.constant_names()) ==> r is None,
        sizes_ok(text@, config.constant_names()) ==> exists|u: Set<Seq<char>>|
            #[trigger] buffer_tried(text@, config.constant_names(), config.generate_fills, config.reassignment, u, r),
{
    let chars = chars_of(text);
    let bytes = byte_len_capped(&chars);
    let n_consts = config.constants.len();
    if bytes >= 0xffff_ffff || bytes > (usize::MAX / 4) as u64 || chars.len() >= 0x7fff_ffff
        || n_consts >= 0x7fff_ffff || 2 * (chars.len() as u64) + (n_consts as u64) + 8 >= 0x7fff_ffff {
        proof {
            assert(!sizes_ok(text@, config.constant_names()));
        }
        return None;
    }
    assert(sizes_ok(text@, config.constant_names()));
    let builtins = generate_symbol_map();
    let constants = constant_refs(config);
    let mut workspace = parse(text, &builtins, constants.as_slice());
    proof {
        lemma_parsed_ready(text@, config.constant_names());
    }
    let ghost w0 = workspace@;
    let attempt = try_evaluate(text, &mut workspace, config);
    let ghost u = choose|u: Set<Seq<char>>| #[trigger] tried(w0, workspace@, text@, config.reassignment, u, attempt);
    let result = match attempt {
        Some(res) => res,
        None => {
            proof {
                assert(buffer_tried(text@, config.constant_names(), config.generate_fills, config.reassignment, u, None));
            }
            return None;
        },
    };
    let diagnostics = concat_diagnostics(&workspace.diagnostics, &result.diagnostics);
    let final_text = apply_fills(text, config.generate_fills, &result.edits);
    let ghost rs = choose|rs: Seq<Option<Seq<char>>>|
        #[trigger] run_gives(spec_stages(w0, u), text@, config.reassignment, rs, result.diagnostics@, edits_out(result.edits@));
    proof {
        assert(tried(w0, workspace@, text@, config.reassignment, u, Some(result)));
        assert(process_gives(text@, config.constant_names(), config.generate_fills, config.reassignment, u, rs, final_text@, diagnostics@));
    }
    let r = Some((final_text, diagnostics));
    proof {
        let pr = r->0;
        assert(pr.0@ == final_text@ && pr.1@ == diagnostics@);
        assert(process_gives(text@, config.constant_names(), config.generate_fills, config.reassignment, u, rs, pr.0@, pr.1@));
        assert(buffer_tried(text@, config.constant_names(), config.generate_fills, config.reassignment, u, r));
    }
    r
}

} // verus!
