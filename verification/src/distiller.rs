//! Stage 1: the distiller turns raw symbols into typed atoms (values, variables,
//! expansions such as `5kg` → `5` `kg`), poisoning what cannot be typed.

use vstd::prelude::*;
use crate::maps::IdMap;
use crate::model::{
    child_of, nested_entity, named, spec_intern_typed, Atom, AtomV, Container, ContainerV, Diagnostic, DiagnosticCode, Entity,
    Position, Span, Workspace, WorkspaceV,
};
use crate::muncher::{add_fend_names, munch_known, name_set, parts_view, spec_munch, unit_candidates};
use crate::text::byte_len;
use crate::shape::{intern_injective, offsets_within, raw_fits, raw_interned, ws_shape};
use crate::builtins::string_from_chars;
use crate::text::chars_of;

verus! {

/// The name of a variable, constant or function atom.
pub open spec fn ident_name(a: AtomV) -> Option<Seq<char>> {
    match a {
        AtomV::Variable(s) => Some(s),
        AtomV::Constant(s) => Some(s),
        AtomV::Function(s) => Some(s),
        _ => None,
    }
}

/// The names of all variables, constants and functions of the workspace.
pub open spec fn known_names(ws: WorkspaceV) -> Set<Seq<char>> {
    Set::new(|s: Seq<char>| exists|id: i32| #[trigger] ws.atoms.contains_key(id) && ident_name(ws.atoms[id]) == Some(s))
}

/// All entities of the first `k` containers, in walking order.
pub open spec fn entities_upto(ws: WorkspaceV, k: int) -> Seq<Entity>
    decreases k,
{
    if k <= 0 || k > ws.container_order.len() {
        Seq::empty()
    } else {
        let c = ws.container_order[k - 1];
        entities_upto(ws, k - 1) + if ws.containers.contains_key(c) { ws.containers[c].contents } else { Seq::empty() }
    }
}

/// All entities of the workspace, container by container in walking order.
pub open spec fn all_entities(ws: WorkspaceV) -> Seq<Entity> {
    entities_upto(ws, ws.container_order.len() as int)
}

/// The raw ids met in `es`, each once in order of first occurrence, with the offset of
/// that occurrence.
pub open spec fn scan(ws: WorkspaceV, es: Seq<Entity>) -> (Seq<i32>, Map<i32, u32>)
    decreases es.len(),
{
    if es.len() == 0 {
        (Seq::empty(), Map::empty())
    } else {
        let (ids, pos) = scan(ws, es.drop_last());
        let e = es.last();
        if ws.atoms.contains_key(e.id) && ws.atoms[e.id] is Raw && !pos.contains_key(e.id) {
            (ids.push(e.id), pos.insert(e.id, e.offset))
        } else {
            (ids, pos)
        }
    }
}

/// The state of the first pass.
pub struct Pass1 {
    pub ws: WorkspaceV,
    pub known: Set<Seq<char>>,
    pub remaining: Seq<(i32, Seq<char>)>,
}

/// The first pass over `ids`: symbols that resolve to one non-poison part are typed at
/// once (new variables become known); the others wait for the second pass.
pub open spec fn pass1(ws: WorkspaceV, known: Set<Seq<char>>, ids: Seq<i32>) -> Pass1
    decreases ids.len(),
{
    if ids.len() == 0 {
        Pass1 { ws: ws, known: known, remaining: Seq::empty() }
    } else {
        let st = pass1(ws, known, ids.drop_last());
        let id = ids.last();
        if st.ws.atoms.contains_key(id) && st.ws.atoms[id] is Raw {
            let text = st.ws.atoms[id]->Raw_0;
            let results = spec_munch(text, st.known);
            if results.len() == 1 && !(results[0].0 is Poison) {
                let atom = results[0].0;
                Pass1 {
                    ws: WorkspaceV { atoms: st.ws.atoms.insert(id, atom), ..st.ws },
                    known: if atom is Variable { st.known.insert(atom->Variable_0) } else { st.known },
                    remaining: st.remaining,
                }
            } else {
                Pass1 { remaining: st.remaining.push((id, text)), ..st }
            }
        } else {
            st
        }
    }
}

/// Interns the parts of an expansion; every part keeps the offset `parent` of the symbol it came from.
pub open spec fn expand(ws: WorkspaceV, parts: Seq<(AtomV, nat)>, parent: u32) -> (WorkspaceV, Seq<Entity>)
    decreases parts.len(),
{
    if parts.len() == 0 {
        (ws, Seq::empty())
    } else {
        let (ws1, es) = expand(ws, parts.drop_last(), parent);
        let (id, ws2) = spec_intern_typed(ws1, parts.last().0);
        (ws2, es.push(Entity { id: id, offset: parent }))
    }
}

/// Whether some part is poison.
pub open spec fn any_poison(parts: Seq<(AtomV, nat)>) -> bool {
    exists|k: int| 0 <= k < parts.len() && (#[trigger] parts[k]).0 is Poison
}

/// The second pass over the symbols that waited: poison, a single part, or an
/// expansion container.
pub open spec fn pass2(ws: WorkspaceV, known: Set<Seq<char>>, pos: Map<i32, u32>, rem: Seq<(i32, Seq<char>)>) -> WorkspaceV
    decreases rem.len(),
{
    if rem.len() == 0 {
        ws
    } else {
        let w = pass2(ws, known, pos, rem.drop_last());
        let (id, text) = rem.last();
        let results = spec_munch(text, known);
        let parent = if pos.contains_key(id) { pos[id] } else { 0u32 };
        let ppos = Position { offset: parent, line: 0, col: 0 };
        if poisons(results) {
            WorkspaceV { atoms: w.atoms.insert(id, AtomV::Poison), ..w }
        } else if results.len() == 1 {
            WorkspaceV { atoms: w.atoms.insert(id, results[0].0), ..w }
        } else {
            let (w1, es) = expand(w, results, parent);
            let cid = w1.next_id as i32;
            WorkspaceV {
                next_id: w1.next_id + 1,
                containers: w1.containers.insert(cid, ContainerV { contents: es, corrupted: false, start_pos: ppos }),
                container_order: if w1.containers.contains_key(cid) { w1.container_order } else { w1.container_order.push(cid) },
                atoms: w1.atoms.insert(id, AtomV::Container(cid)),
                ..w1
            }
        }
    }
}

/// Whether munching failed: no part, or a poisoned one.
pub open spec fn poisons(results: Seq<(AtomV, nat)>) -> bool {
    results.len() == 0 || any_poison(results)
}

/// The ids of the waiting symbols that the second pass poisons.
pub open spec fn poisoned_ids(known: Set<Seq<char>>, rem: Seq<(i32, Seq<char>)>) -> Set<i32>
    decreases rem.len(),
{
    if rem.len() == 0 {
        Set::empty()
    } else {
        let prev = poisoned_ids(known, rem.drop_last());
        if poisons(spec_munch(rem.last().1, known)) { prev.insert(rem.last().0) } else { prev }
    }
}

/// A `MalformedSymbol` diagnostic at `offset`.
pub open spec fn malformed_symbol(offset: u32) -> Diagnostic {
    Diagnostic {
        code: DiagnosticCode::MalformedSymbol,
        span: Span { start: Position { offset: offset, line: 0, col: 0 }, end: Position { offset: offset, line: 0, col: 0 } },
    }
}

/// A `MalformedSymbol` report for every occurrence, among `es`, of a poisoned id.
pub open spec fn poison_reports(es: Seq<Entity>, poisoned: Set<i32>) -> Seq<Diagnostic>
    decreases es.len(),
{
    if es.len() == 0 {
        Seq::empty()
    } else {
        let prev = poison_reports(es.drop_last(), poisoned);
        if poisoned.contains(es.last().id) { prev.push(malformed_symbol(es.last().offset)) } else { prev }
    }
}

/// The workspace after the two passes, before the error scan, with `u` the further
/// names (units, constants, functions) that fend was found to know.
pub open spec fn spec_passes(ws: WorkspaceV, u: Set<Seq<char>>) -> WorkspaceV {
    let (ids, pos) = scan(ws, all_entities(ws));
    let p1 = pass1(ws, known_names(ws).union(u), ids);
    pass2(p1.ws, p1.known, pos, p1.remaining)
}

/// The ids that the distiller poisons, with `u` the further names fend was found to know.
pub open spec fn distill_poisoned(ws: WorkspaceV, u: Set<Seq<char>>) -> Set<i32> {
    let (ids, pos) = scan(ws, all_entities(ws));
    let p1 = pass1(ws, known_names(ws).union(u), ids);
    poisoned_ids(p1.known, p1.remaining)
}

/// The workspace after the distiller, with `u` the further names (units, constants,
/// functions) that fend was found to know: the two passes, then a report of every
/// occurrence of a poisoned symbol, in every container, in walking order.
pub open spec fn spec_distill(ws: WorkspaceV, u: Set<Seq<char>>) -> WorkspaceV {
    let w = spec_passes(ws, u);
    WorkspaceV { diagnostics: w.diagnostics + poison_reports(all_entities(w), distill_poisoned(ws, u)), ..w }
}

/// What the distiller needs: raw symbols that fit (`distill_fits`), and room for the ids
/// it mints.
pub open spec fn distill_ready(ws: WorkspaceV) -> bool {
    &&& distill_fits(ws)
    &&& ws.next_id + 5 * all_entities(ws).len() < i32::MAX
}

/// Every occurrence of a raw symbol fits in the buffer's offsets, and every raw symbol
/// in the muncher's indices.
pub open spec fn distill_fits(ws: WorkspaceV) -> bool {
    forall|c: i32, i: int|
        #![trigger ws.containers[c].contents[i]]
        ws.containers.contains_key(c) && 0 <= i < ws.containers[c].contents.len()
            && ws.atoms.contains_key(ws.containers[c].contents[i].id)
            && ws.atoms[ws.containers[c].contents[i].id] is Raw
            ==> ws.containers[c].contents[i].offset + byte_len(ws.atoms[ws.containers[c].contents[i].id]->Raw_0) <= u32::MAX
                && 4 * (ws.atoms[ws.containers[c].contents[i].id]->Raw_0).len() <= usize::MAX
}

// ---------------------------------------------------------------------------
// Lemmas.
// ---------------------------------------------------------------------------

/// The muncher's offsets lie within the symbol.
pub proof fn lemma_munch_offsets(s: Seq<char>, known: Set<Seq<char>>)
    ensures
        forall|k: int| 0 <= k < spec_munch(s, known).len() ==> (#[trigger] spec_munch(s, known)[k]).1 <= byte_len(s),
{
    let end = crate::muncher::number_end(s);
    if s.len() > 0 && end > 0 {
        assert(end <= s.len()) by {
            lemma_number_end_bound(s);
        }
        crate::text::lemma_byte_index_mono(s, end, s.len() as int);
        crate::text::lemma_byte_index_mono(s, s.len() - 1, s.len() as int);
    }
}

/// A run of number characters stays within the symbol.
proof fn lemma_span_bound(s: Seq<char>, i: int, radix: int)
    requires
        0 <= i <= s.len(),
    ensures
        i <= crate::muncher::span_from(s, i, radix) <= s.len(),
    decreases s.len() - i,
{
    if i < s.len() && crate::muncher::continues(s, i, radix) {
        lemma_span_bound(s, i + 1, radix);
    }
}

/// The number at the start of a symbol lies within it.
proof fn lemma_number_end_bound(s: Seq<char>)
    ensures
        0 <= crate::muncher::number_end(s) <= s.len(),
{
    if crate::muncher::numeric_start(s) {
        if crate::muncher::radix_of(s) == 10 {
            lemma_span_bound(s, 0, 10);
        } else {
            lemma_span_bound(s, 2, crate::muncher::radix_of(s));
        }
    }
}

/// Expansion only grows the id counter.
pub proof fn lemma_expand_mono(ws: WorkspaceV, parts: Seq<(AtomV, nat)>, parent: u32)
    ensures
        forall|m: int| 0 <= m <= parts.len() ==> #[trigger] expand(ws, parts.take(m), parent).0.next_id <= expand(ws, parts, parent).0.next_id,
        expand(ws, parts, parent).0.next_id >= ws.next_id,
    decreases parts.len(),
{
    if parts.len() > 0 {
        lemma_expand_mono(ws, parts.drop_last(), parent);
        assert forall|m: int| 0 <= m <= parts.len() implies #[trigger] expand(ws, parts.take(m), parent).0.next_id <= expand(ws, parts, parent).0.next_id by {
            if m < parts.len() {
                assert(parts.take(m) =~= parts.drop_last().take(m));
            } else {
                assert(parts.take(m) =~= parts);
            }
        }
    } else {
        assert(parts.take(0) =~= parts);
    }
}

/// The second pass only grows the id counter.
pub proof fn lemma_pass2_mono(ws: WorkspaceV, known: Set<Seq<char>>, pos: Map<i32, u32>, rem: Seq<(i32, Seq<char>)>)
    ensures
        forall|m: int| 0 <= m <= rem.len() ==> #[trigger] pass2(ws, known, pos, rem.take(m)).next_id <= pass2(ws, known, pos, rem).next_id,
        pass2(ws, known, pos, rem).next_id >= ws.next_id,
    decreases rem.len(),
{
    if rem.len() > 0 {
        lemma_pass2_mono(ws, known, pos, rem.drop_last());
        let w = pass2(ws, known, pos, rem.drop_last());
        let (id, text) = rem.last();
        let results = spec_munch(text, known);
        let parent = if pos.contains_key(id) { pos[id] } else { 0u32 };
        lemma_expand_mono(w, results, parent);
        assert forall|m: int| 0 <= m <= rem.len() implies #[trigger] pass2(ws, known, pos, rem.take(m)).next_id <= pass2(ws, known, pos, rem).next_id by {
            if m < rem.len() {
                assert(rem.take(m) =~= rem.drop_last().take(m));
            } else {
                assert(rem.take(m) =~= rem);
            }
        }
    } else {
        assert(rem.take(0) =~= rem);
    }
}

// ---------------------------------------------------------------------------
// The executable distiller.
// ---------------------------------------------------------------------------

/// The names of all variables, constants and functions of the workspace.
fn collect_known_identifiers(ws: &Workspace) -> (idents: Vec<String>)
    requires
        ws.wf(),
    ensures
        name_set(idents@) == known_names(ws@),
{
    let mut idents: Vec<String> = Vec::new();
    let n = ws.atoms.len();
    let ghost ents = ws.atoms.entries();
    proof {
        ws.atoms.lemma_wf();
    }
    let mut i: usize = 0;
    while i < n
        invariant
            ws.wf(),
            n == ents.len(),
            ents == ws.atoms.entries(),
            i <= n,
            forall|s: Seq<char>| #[trigger] name_set(idents@).contains(s) <==> exists|j: int| 0 <= j < i && ident_name(ents[j].1@) == Some(s),
        decreases n - i,
    {
        let (id, a) = ws.atoms.entry_at(i);
        let ghost before = idents@;
        match a {
            Atom::Variable(s) | Atom::Constant(s) | Atom::Function(s) => {
                idents.push(s.clone());
            },
            _ => {},
        }
        proof {
            let nv = idents@.map_values(|x: String| x@);
            let bv = before.map_values(|x: String| x@);
            assert forall|s: Seq<char>| #[trigger] name_set(idents@).contains(s) <==> exists|j: int| 0 <= j < i + 1 && ident_name(ents[j].1@) == Some(s) by {
                if name_set(idents@).contains(s) {
                    let q = choose|q: int| 0 <= q < nv.len() && #[trigger] nv[q] == s;
                    if q < bv.len() {
                        assert(bv[q] == s);
                        assert(name_set(before).contains(s));
                    } else {
                        assert(ident_name(ents[i as int].1@) == Some(s));
                    }
                }
                if exists|j: int| 0 <= j < i + 1 && ident_name(ents[j].1@) == Some(s) {
                    let j = choose|j: int| 0 <= j < i + 1 && ident_name(ents[j].1@) == Some(s);
                    if j < i {
                        assert(name_set(before).contains(s));
                        let q = choose|q: int| 0 <= q < bv.len() && #[trigger] bv[q] == s;
                        assert(nv[q] == s);
                    } else {
                        assert(nv[bv.len() as int] == s);
                    }
                }
            }
        }
        i = i + 1;
    }
    proof {
        assert forall|s: Seq<char>| #[trigger] name_set(idents@).contains(s) <==> known_names(ws@).contains(s) by {
            if name_set(idents@).contains(s) {
                let j = choose|j: int| 0 <= j < n && ident_name(ents[j].1@) == Some(s);
                let id = ents[j].0;
                assert(ws@.atoms.contains_key(id));
                assert(ws@.atoms[id] == ents[j].1@);
            }
            if known_names(ws@).contains(s) {
                let id = choose|id: i32| #[trigger] ws@.atoms.contains_key(id) && ident_name(ws@.atoms[id]) == Some(s);
                assert(ws.atoms.key_seq().contains(id));
                let j = choose|j: int| 0 <= j < ws.atoms.key_seq().len() && ws.atoms.key_seq()[j] == id;
                assert(ents[j].0 == id);
            }
        }
        assert(name_set(idents@) =~= known_names(ws@));
    }
    idents
}

/// What the scan records of a raw id: its symbol, the offset of its first occurrence,
/// and that the symbol fits after that offset.
pub open spec fn raw_ok(ws: WorkspaceV, pos: Map<i32, u32>, id: i32) -> bool {
    &&& ws.atoms.contains_key(id)
    &&& ws.atoms[id] is Raw
    &&& pos.contains_key(id)
    &&& pos[id] + byte_len(ws.atoms[id]->Raw_0) <= u32::MAX
    &&& 4 * (ws.atoms[id]->Raw_0).len() <= usize::MAX
}

/// Collects the raw ids in order of first occurrence, with that occurrence's offset.
fn scan_raw(ws: &Workspace) -> (r: (Vec<i32>, IdMap<u32>))
    requires
        ws.wf(),
        distill_ready(ws@),
    ensures
        r.1.wf(),
        (r.0@, r.1.map()) == scan(ws@, all_entities(ws@)),
        r.0@.no_duplicates(),
        forall|k: int| 0 <= k < r.0@.len() ==> raw_ok(ws@, r.1.map(), #[trigger] r.0@[k]),
{
    let mut raw_ids: Vec<i32> = Vec::new();
    let mut id_to_pos: IdMap<u32> = IdMap::new();
    let nc = ws.containers.len();
    proof {
        ws.containers.lemma_wf();
    }
    let mut ci: usize = 0;
    while ci < nc
        invariant
            ws.wf(),
            distill_ready(ws@),
            nc == ws.containers.entries().len(),
            nc == ws@.container_order.len(),
            ci <= nc,
            id_to_pos.wf(),
            (raw_ids@, id_to_pos.map()) == scan(ws@, entities_upto(ws@, ci as int)),
            raw_ids@.no_duplicates(),
            forall|k: int| 0 <= k < raw_ids@.len() ==> raw_ok(ws@, id_to_pos.map(), #[trigger] raw_ids@[k]),
            forall|x: i32| #[trigger] id_to_pos.map().contains_key(x) <==> raw_ids@.contains(x),
        decreases nc - ci,
    {
        let (cid, c) = ws.containers.entry_at(ci);
        proof {
            ws.containers.lemma_wf();
            assert(ws@.container_order[ci as int] == cid);
            assert(ws@.containers[cid] == c@);
        }
        let ghost base = entities_upto(ws@, ci as int);
        let mut j: usize = 0;
        while j < c.contents.len()
            invariant
                ws.wf(),
                distill_ready(ws@),
                ws@.containers.contains_key(cid),
                ws@.containers[cid] == c@,
                j <= c.contents@.len(),
                id_to_pos.wf(),
                (raw_ids@, id_to_pos.map()) == scan(ws@, base + c.contents@.take(j as int)),
                raw_ids@.no_duplicates(),
                forall|k: int| 0 <= k < raw_ids@.len() ==> raw_ok(ws@, id_to_pos.map(), #[trigger] raw_ids@[k]),
                forall|x: i32| #[trigger] id_to_pos.map().contains_key(x) <==> raw_ids@.contains(x),
            decreases c.contents@.len() - j,
        {
            let e = c.contents[j];
            proof {
                assert((base + c.contents@.take(j + 1)).drop_last() =~= base + c.contents@.take(j as int));
                assert((base + c.contents@.take(j + 1)).last() == e);
                assert(ws@.containers[cid].contents[j as int] == e);
            }
            let is_raw = match ws.atoms.get(e.id) {
                Some(Atom::Raw(_)) => true,
                _ => false,
            };
            if is_raw && !id_to_pos.contains_key(e.id) {
                let ghost before = raw_ids@;
                raw_ids.push(e.id);
                id_to_pos.insert(e.id, e.offset);
                proof {
                    assert forall|k: int| 0 <= k < raw_ids@.len() implies raw_ok(ws@, id_to_pos.map(), #[trigger] raw_ids@[k]) by {
                        if k < before.len() {
                            assert(raw_ids@[k] == before[k]);
                            assert(before[k] != e.id);
                        }
                    }
                    assert forall|x: i32| #[trigger] id_to_pos.map().contains_key(x) <==> raw_ids@.contains(x) by {
                        if x == e.id {
                            assert(raw_ids@[before.len() as int] == x);
                        } else if raw_ids@.contains(x) {
                            let q = choose|q: int| 0 <= q < raw_ids@.len() && raw_ids@[q] == x;
                            assert(before[q] == x);
                        } else if before.contains(x) {
                            let q = choose|q: int| 0 <= q < before.len() && before[q] == x;
                            assert(raw_ids@[q] == x);
                        }
                    }
                }
            }
            j = j + 1;
        }
        proof {
            assert(c.contents@.take(c.contents@.len() as int) =~= c.contents@);
            assert(entities_upto(ws@, ci + 1) == base + c.contents@);
        }
        ci = ci + 1;
    }
    (raw_ids, id_to_pos)
}


/// The symbols left for the second pass, as plain values.
pub open spec fn rem_view(r: Seq<(i32, String)>) -> Seq<(i32, Seq<char>)> {
    r.map_values(|p: (i32, String)| (p.0, p.1@))
}

/// A symbol left for the second pass fits after the offset of its first occurrence.
pub open spec fn fits(pos: Map<i32, u32>, id: i32, text: Seq<char>) -> bool {
    &&& pos.contains_key(id)
    &&& pos[id] + byte_len(text) <= u32::MAX
    &&& 4 * text.len() <= usize::MAX
}

/// Adding a name to a list adds it to the list's set of names.
proof fn lemma_name_set_push(v: Seq<String>, s: String)
    ensures
        name_set(v.push(s)) == name_set(v).insert(s@),
{
    let f = |x: String| x@;
    v.lemma_push_map_commute(f, s);
    v.map_values(f).lemma_push_to_set_commute(s@);
}

/// Whether some munch result is poison.
fn has_poison(r: &Vec<(Atom, usize)>) -> (b: bool)
    ensures
        b == any_poison(parts_view(r@)),
{
    let mut i: usize = 0;
    while i < r.len()
        invariant
            i <= r@.len(),
            forall|k: int| 0 <= k < i ==> !((#[trigger] parts_view(r@)[k]).0 is Poison),
        decreases r@.len() - i,
    {
        if let Atom::Poison = &r[i].0 {
            assert(parts_view(r@)[i as int].0 is Poison);
            return true;
        }
        i = i + 1;
    }
    false
}

/// The first pass over the raw ids; returns the symbols left for the second pass.
fn first_pass(ws: &mut Workspace, known: &mut Vec<String>, raw_ids: &Vec<i32>, Ghost(pos): Ghost<Map<i32, u32>>)
    -> (remaining: Vec<(i32, String)>)
    requires
        old(ws).wf(),
        raw_ids@.no_duplicates(),
        forall|k: int| 0 <= k < raw_ids@.len() ==> raw_ok(old(ws)@, pos, #[trigger] raw_ids@[k]),
    ensures
        final(ws).wf(),
        final(ws)@ == pass1(old(ws)@, name_set(old(known)@), raw_ids@).ws,
        name_set(final(known)@) == pass1(old(ws)@, name_set(old(known)@), raw_ids@).known,
        rem_view(remaining@) == pass1(old(ws)@, name_set(old(known)@), raw_ids@).remaining,
        forall|k: int| 0 <= k < remaining@.len() ==> fits(pos, (#[trigger] remaining@[k]).0, remaining@[k].1@),
{
    let ghost ws0 = ws@;
    let ghost k0 = name_set(known@);
    let mut remaining: Vec<(i32, String)> = Vec::new();
    let mut i: usize = 0;
    while i < raw_ids.len()
        invariant
            ws.wf(),
            i <= raw_ids@.len(),
            raw_ids@.no_duplicates(),
            forall|k: int| 0 <= k < raw_ids@.len() ==> raw_ok(ws0, pos, #[trigger] raw_ids@[k]),
            ws@ == pass1(ws0, k0, raw_ids@.take(i as int)).ws,
            name_set(known@) == pass1(ws0, k0, raw_ids@.take(i as int)).known,
            rem_view(remaining@) == pass1(ws0, k0, raw_ids@.take(i as int)).remaining,
            forall|k: int| i <= k < raw_ids@.len() ==> ws@.atoms.contains_key(#[trigger] raw_ids@[k])
                && ws@.atoms[raw_ids@[k]] == ws0.atoms[raw_ids@[k]],
            forall|k: int| 0 <= k < remaining@.len() ==> fits(pos, (#[trigger] remaining@[k]).0, remaining@[k].1@),
        decreases raw_ids@.len() - i,
    {
        let id = raw_ids[i];
        proof {
            assert(raw_ids@.take(i + 1).drop_last() =~= raw_ids@.take(i as int));
            assert(raw_ids@.take(i + 1).last() == id);
            assert(raw_ok(ws0, pos, raw_ids@[i as int]));
        }
        let ghost st = pass1(ws0, k0, raw_ids@.take(i as int));
        let ghost before = remaining@;
        let text_opt: Option<String> = match ws.atoms.get(id) {
            Some(Atom::Raw(s)) => Some(s.clone()),
            _ => None,
        };
        if let Some(text) = text_opt {
            let chars = chars_of(text.as_str());
            let results = munch_known(&chars, known);
            let single = results.len() == 1 && match &results[0].0 {
                Atom::Poison => false,
                _ => true,
            };
            if single {
                let atom = results[0].0.duplicate();
                let ghost kb = known@;
                if let Atom::Variable(name) = &atom {
                    known.push(name.clone());
                    proof {
                        lemma_name_set_push(kb, known@.last());
                        assert(known@ == kb.push(known@.last()));
                    }
                }
                ws.set_atom(id, atom);
            } else {
                remaining.push((id, text));
                proof {
                    assert(rem_view(remaining@) =~= rem_view(before).push((id, ws0.atoms[id]->Raw_0)));
                }
            }
        }
        proof {
            assert forall|k: int| i + 1 <= k < raw_ids@.len() implies ws@.atoms.contains_key(#[trigger] raw_ids@[k])
                && ws@.atoms[raw_ids@[k]] == ws0.atoms[raw_ids@[k]] by {
                assert(raw_ids@[k] != raw_ids@[i as int]);
            }
        }
        i = i + 1;
    }
    proof {
        assert(raw_ids@.take(raw_ids@.len() as int) =~= raw_ids@);
    }
    remaining
}

/// Interns the parts of an expansion and returns their entities.
fn expand_parts(ws: &mut Workspace, results: &Vec<(Atom, usize)>, parent: u32) -> (es: Vec<Entity>)
    requires
        old(ws).wf(),
        expand(old(ws)@, parts_view(results@), parent).0.next_id < i32::MAX,
        forall|k: int| 0 <= k < results@.len() ==> parent + (#[trigger] results@[k]).1 <= u32::MAX,
    ensures
        final(ws).wf(),
        (final(ws)@, es@) == expand(old(ws)@, parts_view(results@), parent),
{
    let ghost w0 = ws@;
    let ghost pv = parts_view(results@);
    let mut es: Vec<Entity> = Vec::new();
    let mut q: usize = 0;
    while q < results.len()
        invariant
            ws.wf(),
            q <= results@.len(),
            pv == parts_view(results@),
            (ws@, es@) == expand(w0, pv.take(q as int), parent),
            expand(w0, pv, parent).0.next_id < i32::MAX,
            forall|k: int| 0 <= k < results@.len() ==> parent + (#[trigger] results@[k]).1 <= u32::MAX,
        decreases results@.len() - q,
    {
        proof {
            lemma_expand_mono(w0, pv, parent);
            assert(pv.take(q + 1).drop_last() =~= pv.take(q as int));
            assert(pv.take(q + 1).last() == pv[q as int]);
            assert(expand(w0, pv.take(q as int), parent).0.next_id <= expand(w0, pv, parent).0.next_id);
        }
        let part = results[q].0.duplicate();
        let part_id = ws.get_or_intern_atom_typed(part);
        es.push(Entity { id: part_id, offset: parent });
        q = q + 1;
    }
    proof {
        assert(pv.take(pv.len() as int) =~= pv);
    }
    es
}

/// The second pass over the symbols that waited.
fn second_pass(ws: &mut Workspace, known: &Vec<String>, remaining: &Vec<(i32, String)>, pos_map: &IdMap<u32>) -> (poisoned: IdMap<bool>)
    requires
        old(ws).wf(),
        pos_map.wf(),
        forall|k: int| 0 <= k < remaining@.len() ==> fits(pos_map.map(), (#[trigger] remaining@[k]).0, remaining@[k].1@),
        pass2(old(ws)@, name_set(known@), pos_map.map(), rem_view(remaining@)).next_id < i32::MAX,
    ensures
        final(ws).wf(),
        final(ws)@ == pass2(old(ws)@, name_set(known@), pos_map.map(), rem_view(remaining@)),
        poisoned.wf(),
        poisoned.map().dom() == poisoned_ids(name_set(known@), rem_view(remaining@)),
{
    let ghost w0 = ws@;
    let ghost kn = name_set(known@);
    let ghost pm = pos_map.map();
    let ghost rv = rem_view(remaining@);
    let mut poisoned: IdMap<bool> = IdMap::new();
    let mut j: usize = 0;
    assert(poisoned.map().dom() =~= poisoned_ids(kn, rv.take(0)));
    while j < remaining.len()
        invariant
            ws.wf(),
            pos_map.wf(),
            poisoned.wf(),
            j <= remaining@.len(),
            kn == name_set(known@),
            pm == pos_map.map(),
            rv == rem_view(remaining@),
            ws@ == pass2(w0, kn, pm, rv.take(j as int)),
            poisoned.map().dom() == poisoned_ids(kn, rv.take(j as int)),
            pass2(w0, kn, pm, rv).next_id < i32::MAX,
            forall|k: int| 0 <= k < remaining@.len() ==> fits(pm, (#[trigger] remaining@[k]).0, remaining@[k].1@),
        decreases remaining@.len() - j,
    {
        proof {
            lemma_pass2_mono(w0, kn, pm, rv);
            assert(rv.take(j + 1).drop_last() =~= rv.take(j as int));
            assert(rv.take(j + 1).last() == rv[j as int]);
            assert(pass2(w0, kn, pm, rv.take(j + 1)).next_id <= pass2(w0, kn, pm, rv).next_id);
        }
        let id = remaining[j].0;
        let chars = chars_of(remaining[j].1.as_str());
        let ghost text = remaining@[j as int].1@;
        proof {
            assert(fits(pm, remaining@[j as int].0, text));
        }
        let results = munch_known(&chars, known);
        let parent: u32 = match pos_map.get(id) {
            Some(p) => *p,
            None => 0,
        };
        let ppos = Position { offset: parent, line: 0, col: 0 };
        let ghost w = ws@;
        if results.len() == 0 || has_poison(&results) {
            ws.set_atom(id, Atom::Poison);
            poisoned.insert(id, true);
        } else if results.len() == 1 {
            ws.set_atom(id, results[0].0.duplicate());
        } else {
            proof {
                lemma_munch_offsets(text, kn);
                assert forall|k: int| 0 <= k < results@.len() implies parent + (#[trigger] results@[k]).1 <= u32::MAX by {
                    assert(parts_view(results@)[k].1 == results@[k].1 as nat);
                }
            }
            let entities = expand_parts(ws, &results, parent);
            let cid = ws.mint_id();
            ws.set_container(cid, Container { contents: entities, corrupted: false, start_pos: ppos });
            ws.set_atom(id, Atom::Container(cid));
        }
        j = j + 1;
    }
    proof {
        assert(rv.take(rv.len() as int) =~= rv);
    }
    poisoned
}

/// A `MalformedSymbol` report for every occurrence of a poisoned id, container by
/// container in walking order.
fn poison_scan(ws: &Workspace, poisoned: &IdMap<bool>) -> (r: Vec<Diagnostic>)
    requires
        ws.wf(),
        poisoned.wf(),
    ensures
        r@ == poison_reports(all_entities(ws@), poisoned.map().dom()),
{
    let ghost pd = poisoned.map().dom();
    let mut r: Vec<Diagnostic> = Vec::new();
    let nc = ws.containers.len();
    proof {
        ws.containers.lemma_wf();
    }
    let mut ci: usize = 0;
    while ci < nc
        invariant
            ws.wf(),
            poisoned.wf(),
            pd == poisoned.map().dom(),
            nc == ws.containers.entries().len(),
            nc == ws@.container_order.len(),
            ci <= nc,
            r@ == poison_reports(entities_upto(ws@, ci as int), pd),
        decreases nc - ci,
    {
        let (cid, c) = ws.containers.entry_at(ci);
        proof {
            ws.containers.lemma_wf();
            assert(ws@.container_order[ci as int] == cid);
            assert(ws@.containers[cid] == c@);
            assert(entities_upto(ws@, ci + 1) == entities_upto(ws@, ci as int) + c.contents@);
        }
        let ghost base = entities_upto(ws@, ci as int);
        let mut j: usize = 0;
        assert(base + c.contents@.take(0) =~= base);
        while j < c.contents.len()
            invariant
                poisoned.wf(),
                pd == poisoned.map().dom(),
                j <= c.contents@.len(),
                r@ == poison_reports(base + c.contents@.take(j as int), pd),
            decreases c.contents@.len() - j,
        {
            let e = c.contents[j];
            proof {
                assert((base + c.contents@.take(j + 1)).drop_last() =~= base + c.contents@.take(j as int));
                assert((base + c.contents@.take(j + 1)).last() == e);
            }
            if poisoned.contains_key(e.id) {
                r.push(Diagnostic {
                    code: DiagnosticCode::MalformedSymbol,
                    span: Span {
                        start: Position { offset: e.offset, line: 0, col: 0 },
                        end: Position { offset: e.offset, line: 0, col: 0 },
                    },
                });
            }
            j = j + 1;
        }
        assert(c.contents@.take(c.contents@.len() as int) =~= c.contents@);
        ci = ci + 1;
    }
    r
}

/// Stage 1: types every raw symbol of the workspace. A symbol is a number, a
/// variable, a number with a unit (expanded into a container of its parts), or
/// poison, with a `MalformedSymbol` diagnostic at every occurrence.
pub fn distill(ws: &mut Workspace)
    requires
        old(ws).wf(),
        distill_ready(old(ws)@),
    ensures
        final(ws).wf(),
        exists|u: Set<Seq<char>>| final(ws)@ == spec_distill(old(ws)@, u),
{
    let ghost ws0 = ws@;
    let mut known = collect_known_identifiers(ws);
    let (raw_ids, id_to_pos) = scan_raw(ws);
    add_known_units(ws, &raw_ids, &mut known);
    let ghost u = name_set(known@);
    proof {
        assert(known_names(ws0).union(u) =~= u);
        lemma_distill_count(ws0, u);
    }
    let remaining = first_pass(ws, &mut known, &raw_ids, Ghost(id_to_pos.map()));
    let poisoned = second_pass(ws, &known, &remaining, &id_to_pos);
    let reports = poison_scan(ws, &poisoned);
    let ghost w = ws@;
    let mut k: usize = 0;
    while k < reports.len()
        invariant
            ws.wf(),
            k <= reports@.len(),
            ws@ == (WorkspaceV { diagnostics: w.diagnostics + reports@.take(k as int), ..w }),
        decreases reports@.len() - k,
    {
        ws.diagnostics.push(reports[k]);
        k = k + 1;
        assert(w.diagnostics + reports@.take(k as int) =~= (w.diagnostics + reports@.take(k - 1)).push(reports@[k - 1]));
    }
    assert(reports@.take(reports@.len() as int) =~= reports@);
    assert(ws@ == spec_distill(ws0, u));
}

/// Adds to `known` the candidate unit names of the raw symbols among `raw_ids` that fend
/// evaluates on its own (see `add_fend_names`).
fn add_known_units(ws: &Workspace, raw_ids: &Vec<i32>, known: &mut Vec<String>)
    requires
        ws.wf(),
    ensures
        name_set(old(known)@).subset_of(name_set(final(known)@)),
{
    let mut i: usize = 0;
    while i < raw_ids.len()
        invariant
            ws.wf(),
            i <= raw_ids@.len(),
            name_set(old(known)@).subset_of(name_set(known@)),
        decreases raw_ids@.len() - i,
    {
        if let Some(Atom::Raw(t)) = ws.atoms.get(raw_ids[i]) {
            let chars = chars_of(t.as_str());
            let names = unit_candidates(&chars);
            add_fend_names(&names, known);
        }
        i = i + 1;
    }
}


// ---------------------------------------------------------------------------
// What the distiller keeps of a workspace's shape.
// ---------------------------------------------------------------------------

/// The muncher's parts are never containers, raw atoms or instructions; there are at
/// most four; and when a symbol splits, every name among its parts is shorter than it.
pub proof fn lemma_munch_parts(s: Seq<char>, known: Set<Seq<char>>)
    ensures
        spec_munch(s, known).len() <= 4,
        forall|k: int| 0 <= k < spec_munch(s, known).len() ==> {
            let a = (#[trigger] spec_munch(s, known)[k]).0;
            &&& !(a is Container)
            &&& !(a is Raw)
            &&& (spec_munch(s, known).len() > 1 && named(a) is Some ==> named(a)->Some_0.len() < s.len())
        },
{
    lemma_number_end_bound(s);
}

/// Whether `e` is an entity of some container.
pub open spec fn in_some_container(ws: WorkspaceV, e: Entity) -> bool {
    exists|c: i32, i: int|
        ws.containers.contains_key(c) && 0 <= i < ws.containers[c].contents.len()
            && #[trigger] ws.containers[c].contents[i] == e
}

/// Every entity walked is an entity of some container.
proof fn lemma_entities_in(ws: WorkspaceV, k: int)
    ensures
        forall|j: int| 0 <= j < entities_upto(ws, k).len() ==> in_some_container(ws, #[trigger] entities_upto(ws, k)[j]),
    decreases k,
{
    if k > 0 && k <= ws.container_order.len() {
        lemma_entities_in(ws, k - 1);
        let prev = entities_upto(ws, k - 1);
        let c = ws.container_order[k - 1];
        assert forall|j: int| 0 <= j < entities_upto(ws, k).len() implies in_some_container(ws, #[trigger] entities_upto(ws, k)[j]) by {
            if ws.containers.contains_key(c) {
                assert(entities_upto(ws, k) == prev + ws.containers[c].contents);
            } else {
                assert(entities_upto(ws, k) == prev + Seq::<Entity>::empty());
            }
            if j < prev.len() {
                assert(entities_upto(ws, k)[j] == prev[j]);
            } else {
                let i = j - prev.len();
                assert(entities_upto(ws, k)[j] == ws.containers[c].contents[i]);
            }
        }
    }
}

/// The scan's ids are distinct raw ids, each recorded at the offset of an occurrence.
proof fn lemma_scan_facts(ws: WorkspaceV, es: Seq<Entity>)
    ensures
        scan(ws, es).0.no_duplicates(),
        forall|k: int| 0 <= k < scan(ws, es).0.len() ==> ws.atoms.contains_key(#[trigger] scan(ws, es).0[k])
            && ws.atoms[scan(ws, es).0[k]] is Raw,
        forall|x: i32| #[trigger] scan(ws, es).1.contains_key(x) <==> scan(ws, es).0.contains(x),
        forall|x: i32| #[trigger] scan(ws, es).1.contains_key(x) ==> exists|j: int|
            0 <= j < es.len() && es[j].id == x && #[trigger] es[j].offset == scan(ws, es).1[x],
    decreases es.len(),
{
    if es.len() > 0 {
        lemma_scan_facts(ws, es.drop_last());
        let (ids, pos) = scan(ws, es.drop_last());
        let e = es.last();
        let (ids2, pos2) = scan(ws, es);
        assert forall|x: i32| #[trigger] pos2.contains_key(x) implies exists|j: int|
            0 <= j < es.len() && es[j].id == x && #[trigger] es[j].offset == pos2[x] by {
            if pos.contains_key(x) {
                let j = choose|j: int| 0 <= j < es.drop_last().len() && es.drop_last()[j].id == x
                    && #[trigger] es.drop_last()[j].offset == pos[x];
                assert(es[j] == es.drop_last()[j]);
            } else {
                assert(es[es.len() - 1] == e);
            }
        }
        if ws.atoms.contains_key(e.id) && ws.atoms[e.id] is Raw && !pos.contains_key(e.id) {
            assert forall|x: i32| #[trigger] pos2.contains_key(x) <==> ids2.contains(x) by {
                if ids2.contains(x) && x != e.id {
                    let q = choose|q: int| 0 <= q < ids2.len() && ids2[q] == x;
                    assert(ids[q] == x);
                }
                if ids.contains(x) {
                    let q = choose|q: int| 0 <= q < ids.len() && ids[q] == x;
                    assert(ids2[q] == x);
                }
                if x == e.id {
                    assert(ids2[ids.len() as int] == x);
                }
            }
        }
    }
}

/// The first pass only retypes raw ids (never into containers), and leaves for the
/// second pass raw ids with their symbols.
proof fn lemma_pass1_frame(ws: WorkspaceV, known: Set<Seq<char>>, ids: Seq<i32>)
    requires
        ids.no_duplicates(),
        forall|k: int| 0 <= k < ids.len() ==> ws.atoms.contains_key(#[trigger] ids[k]) && ws.atoms[ids[k]] is Raw,
    ensures
        ({
            let st = pass1(ws, known, ids);
            &&& st.ws == (WorkspaceV { atoms: st.ws.atoms, ..ws })
            &&& st.ws.atoms.dom() == ws.atoms.dom()
            &&& forall|x: i32| #[trigger] st.ws.atoms.contains_key(x) && !ids.contains(x) ==> st.ws.atoms[x] == ws.atoms[x]
            &&& forall|x: i32| #[trigger] st.ws.atoms.contains_key(x) && ids.contains(x) ==> !(st.ws.atoms[x] is Container)
            &&& forall|j: int| 0 <= j < st.remaining.len() ==> ids.contains((#[trigger] st.remaining[j]).0)
                && st.remaining[j].1 == ws.atoms[st.remaining[j].0]->Raw_0
        }),
    decreases ids.len(),
{
    if ids.len() > 0 {
        let pre = ids.drop_last();
        assert forall|k: int| 0 <= k < pre.len() implies ws.atoms.contains_key(#[trigger] pre[k]) && ws.atoms[pre[k]] is Raw by {
            assert(pre[k] == ids[k]);
        }
        assert(pre.no_duplicates()) by {
            assert forall|a: int, b: int| 0 <= a < pre.len() && 0 <= b < pre.len() && a != b implies pre[a] != pre[b] by {
                assert(pre[a] == ids[a] && pre[b] == ids[b]);
            }
        }
        lemma_pass1_frame(ws, known, pre);
        let st = pass1(ws, known, pre);
        let id = ids.last();
        assert(!pre.contains(id)) by {
            if pre.contains(id) {
                let q = choose|q: int| 0 <= q < pre.len() && pre[q] == id;
                assert(ids[q] == ids[ids.len() - 1]);
            }
        }
        assert(ws.atoms.contains_key(id) && ws.atoms[id] is Raw) by {
            assert(ids[ids.len() - 1] == id);
        }
        assert(st.ws.atoms[id] == ws.atoms[id]);
        lemma_munch_parts(ws.atoms[id]->Raw_0, st.known);
        let r = pass1(ws, known, ids);
        assert forall|x: i32| #[trigger] ids.contains(x) <==> (pre.contains(x) || x == id) by {
            if ids.contains(x) {
                let q = choose|q: int| 0 <= q < ids.len() && ids[q] == x;
                if q < ids.len() - 1 {
                    assert(pre[q] == x);
                }
            }
            if pre.contains(x) {
                let q = choose|q: int| 0 <= q < pre.len() && pre[q] == x;
                assert(ids[q] == x);
            }
            if x == id {
                assert(ids[ids.len() - 1] == x);
            }
        }
        assert(r.ws.atoms.dom() =~= ws.atoms.dom());
    }
}


/// Interning a part (never a container) keeps the shape; the id is fresh, or the id
/// its name already had.
proof fn lemma_intern_typed_shape(w: WorkspaceV, a: AtomV)
    requires
        ws_shape(w),
        intern_injective(w),
        !(a is Container),
        w.next_id < i32::MAX,
    ensures
        ({
            let (id, w2) = spec_intern_typed(w, a);
            &&& ws_shape(w2)
            &&& intern_injective(w2)
            &&& id < w2.next_id
            &&& w2 == (WorkspaceV { next_id: w2.next_id, atoms: w.atoms.insert(id, a), intern: w2.intern, ..w })
            &&& w.next_id <= w2.next_id <= w.next_id + 1
            &&& forall|s: Seq<char>| #[trigger] w.intern.contains_key(s) ==> w2.intern.contains_key(s) && w2.intern[s] == w.intern[s]
            &&& (id == w.next_id || (named(a) is Some && w.intern.contains_key(named(a)->Some_0)
                && id == w.intern[named(a)->Some_0]))
        }),
{
    let (id, w2) = spec_intern_typed(w, a);
    if id == w.next_id {
        assert(!w.atoms.contains_key(id));
    }
    assert forall|x: Entity| #[trigger] child_of(w2, x) is Some implies child_of(w2, x) == child_of(w, x) by {
    }
    assert forall|c: i32, i: int|
        #![trigger w2.containers[c].contents[i]]
        w2.containers.contains_key(c) && 0 <= i < w2.containers[c].contents.len()
            implies nested_entity(w2, c as int, w2.containers[c].contents[i], w2.next_id) by {
        assert(nested_entity(w, c as int, w.containers[c].contents[i], w.next_id));
    }
    assert forall|s: Seq<char>, t: Seq<char>| #[trigger] w2.intern.contains_key(s) && #[trigger] w2.intern.contains_key(t) && s != t
        implies w2.intern[s] != w2.intern[t] by {
        if w.intern.contains_key(s) && w.intern.contains_key(t) {
        } else if w.intern.contains_key(s) {
            assert(w.intern[s] < w.next_id);
        } else if w.intern.contains_key(t) {
            assert(w.intern[t] < w.next_id);
        }
    }
}

/// Expanding a symbol's parts keeps the shape, adds no container atom, and gives
/// entities whose ids are fresh or the ids their names already had.
proof fn lemma_expand_shape(w: WorkspaceV, parts: Seq<(AtomV, nat)>, parent: u32, end: int)
    requires
        ws_shape(w),
        intern_injective(w),
        forall|k: int| 0 <= k < parts.len() ==> !((#[trigger] parts[k]).0 is Container),
        forall|k: int| 0 <= k < parts.len() ==> parent + (#[trigger] parts[k]).1 <= end,
        expand(w, parts, parent).0.next_id < i32::MAX,
    ensures
        ({
            let (w1, es) = expand(w, parts, parent);
            &&& ws_shape(w1)
            &&& intern_injective(w1)
            &&& w1 == (WorkspaceV { next_id: w1.next_id, atoms: w1.atoms, intern: w1.intern, ..w })
            &&& w1.next_id >= w.next_id
            &&& es.len() == parts.len()
            &&& forall|s: Seq<char>| #[trigger] w.intern.contains_key(s) ==> w1.intern.contains_key(s) && w1.intern[s] == w.intern[s]
            &&& forall|s: Seq<char>| #[trigger] w1.intern.contains_key(s) && !w.intern.contains_key(s) ==> w1.intern[s] >= w.next_id
            &&& forall|x: i32| #[trigger] w1.atoms.contains_key(x) && w1.atoms[x] is Container
                ==> w.atoms.contains_key(x) && w.atoms[x] == w1.atoms[x]
            &&& forall|x: i32| #[trigger] w.atoms.contains_key(x) ==> w1.atoms.contains_key(x)
            &&& forall|j: int| 0 <= j < es.len() ==> {
                &&& (#[trigger] es[j]).id < w1.next_id
                &&& es[j].offset <= end
                &&& w1.atoms.contains_key(es[j].id)
                &&& !(w1.atoms[es[j].id] is Container)
                &&& (es[j].id >= w.next_id || (named(parts[j].0) is Some && w.intern.contains_key(named(parts[j].0)->Some_0)
                    && es[j].id == w.intern[named(parts[j].0)->Some_0]))
            }
        }),
    decreases parts.len(),
{
    if parts.len() > 0 {
        let pre = parts.drop_last();
        assert forall|k: int| 0 <= k < pre.len() implies !((#[trigger] pre[k]).0 is Container) by {
            assert(pre[k] == parts[k]);
        }
        assert forall|k: int| 0 <= k < pre.len() implies parent + (#[trigger] pre[k]).1 <= end by {
            assert(pre[k] == parts[k]);
        }
        lemma_expand_mono(w, parts, parent);
        assert(pre =~= parts.take(parts.len() - 1));
        lemma_expand_shape(w, pre, parent, end);
        let (w1, es) = expand(w, pre, parent);
        let last = parts.last();
        assert(!(last.0 is Container)) by {
            assert(parts[parts.len() - 1] == last);
        }
        assert(parent + last.1 <= end) by {
            assert(parts[parts.len() - 1] == last);
        }
        lemma_intern_typed_shape(w1, last.0);
        let (id, w2) = spec_intern_typed(w1, last.0);
        let es2 = es.push(Entity { id: id, offset: (parent + last.1) as u32 });
        assert forall|j: int| 0 <= j < es2.len() implies {
            &&& (#[trigger] es2[j]).id < w2.next_id
            &&& es2[j].offset <= end
            &&& w2.atoms.contains_key(es2[j].id)
            &&& !(w2.atoms[es2[j].id] is Container)
            &&& (es2[j].id >= w.next_id || (named(parts[j].0) is Some && w.intern.contains_key(named(parts[j].0)->Some_0)
                && es2[j].id == w.intern[named(parts[j].0)->Some_0]))
        } by {
            if j < es.len() {
                assert(es2[j] == es[j]);
                assert(pre[j] == parts[j]);
            } else {
                assert(parts[j] == last);
                if id != w1.next_id {
                    assert(w1.intern.contains_key(named(last.0)->Some_0));
                    if !w.intern.contains_key(named(last.0)->Some_0) {
                        assert(id >= w.next_id);
                    }
                }
            }
        }
    }
}

/// What the second pass keeps of the workspace `w0` it starts from.
pub open spec fn pass2_inv(w0: WorkspaceV, w: WorkspaceV, end: int, comma: i32) -> bool {
    &&& ws_shape(w)
    &&& intern_injective(w)
    &&& offsets_within(w, end)
    &&& w.next_id >= w0.next_id
    &&& forall|c: i32| #[trigger] w0.containers.contains_key(c) ==> w.containers.contains_key(c) && w.containers[c] == w0.containers[c]
    &&& forall|s: Seq<char>| #[trigger] w0.intern.contains_key(s) ==> w.intern.contains_key(s) && w.intern[s] == w0.intern[s]
    &&& w0.atoms.contains_key(comma) ==> w.atoms.contains_key(comma) && !(w.atoms[comma] is Container)
}

/// A symbol waiting for the second pass: its offset leaves room for it, it is an old
/// id interned under the symbol, and it is not the comma.
pub open spec fn waiting_ok(w0: WorkspaceV, pos: Map<i32, u32>, r: (i32, Seq<char>), end: int, comma: i32) -> bool {
    &&& pos.contains_key(r.0)
    &&& pos[r.0] + byte_len(r.1) <= end
    &&& r.0 < w0.next_id
    &&& w0.intern.contains_key(r.1)
    &&& w0.intern[r.1] == r.0
    &&& r.0 != comma
}

/// The second pass keeps the shape.
proof fn lemma_pass2_shape(w0: WorkspaceV, known: Set<Seq<char>>, pos: Map<i32, u32>, rem: Seq<(i32, Seq<char>)>, end: int, comma: i32)
    requires
        pass2_inv(w0, w0, end, comma),
        forall|j: int| 0 <= j < rem.len() ==> waiting_ok(w0, pos, #[trigger] rem[j], end, comma),
        pass2(w0, known, pos, rem).next_id < i32::MAX,
    ensures
        pass2_inv(w0, pass2(w0, known, pos, rem), end, comma),
    decreases rem.len(),
{
    if rem.len() > 0 {
        let pre = rem.drop_last();
        assert forall|j: int| 0 <= j < pre.len() implies waiting_ok(w0, pos, #[trigger] pre[j], end, comma) by {
            assert(pre[j] == rem[j]);
        }
        lemma_pass2_mono(w0, known, pos, rem);
        assert(pre =~= rem.take(rem.len() - 1));
        lemma_pass2_shape(w0, known, pos, pre, end, comma);
        let w = pass2(w0, known, pos, pre);
        let (id, text) = rem.last();
        assert(waiting_ok(w0, pos, rem.last(), end, comma)) by {
            assert(rem[rem.len() - 1] == rem.last());
        }
        let results = spec_munch(text, known);
        let parent = pos[id];
        lemma_munch_parts(text, known);
        lemma_munch_offsets(text, known);
        let r = pass2(w0, known, pos, rem);
        if results.len() == 0 || any_poison(results) {
            assert forall|x: Entity| #[trigger] child_of(r, x) is Some implies child_of(r, x) == child_of(w, x) by {
            }
            assert forall|c: i32, i: int|
                #![trigger r.containers[c].contents[i]]
                r.containers.contains_key(c) && 0 <= i < r.containers[c].contents.len()
                    implies nested_entity(r, c as int, r.containers[c].contents[i], r.next_id) by {
                assert(nested_entity(w, c as int, w.containers[c].contents[i], w.next_id));
            }
        } else if results.len() == 1 {
            assert(!(results[0].0 is Container));
            assert forall|x: Entity| #[trigger] child_of(r, x) is Some implies child_of(r, x) == child_of(w, x) by {
            }
            assert forall|c: i32, i: int|
                #![trigger r.containers[c].contents[i]]
                r.containers.contains_key(c) && 0 <= i < r.containers[c].contents.len()
                    implies nested_entity(r, c as int, r.containers[c].contents[i], r.next_id) by {
                assert(nested_entity(w, c as int, w.containers[c].contents[i], w.next_id));
            }
        } else {
            assert forall|k: int| 0 <= k < results.len() implies parent + (#[trigger] results[k]).1 <= end by {
            }
            lemma_expand_shape(w, results, parent, end);
            let (w1, es) = expand(w, results, parent);
            let cid = w1.next_id as i32;
            assert(!w1.containers.contains_key(cid));
            assert(id < w.next_id);
            assert forall|j: int| 0 <= j < es.len() implies (#[trigger] es[j]).id != id by {
                if es[j].id < w.next_id {
                    let nm = named(results[j].0)->Some_0;
                    assert(w.intern.contains_key(nm));
                    assert(w.intern.contains_key(text));
                    assert(w.intern[text] == id);
                    assert(nm.len() < text.len());
                }
            }
            assert(r.atoms == w1.atoms.insert(id, AtomV::Container(cid)));
            assert(r.containers == w1.containers.insert(cid, ContainerV { contents: es, corrupted: false, start_pos: Position { offset: parent, line: 0, col: 0 } }));
            assert forall|x: Entity| #[trigger] child_of(r, x) is Some && x.id != id implies child_of(r, x) == child_of(w1, x) by {
                assert(w1.atoms.contains_key(x.id));
                assert(w1.atoms[x.id] == r.atoms[x.id]);
                assert(w1.atoms[x.id]->Container_0 < w1.next_id);
            }
            assert forall|c: i32, i: int|
                #![trigger r.containers[c].contents[i]]
                r.containers.contains_key(c) && 0 <= i < r.containers[c].contents.len()
                    implies nested_entity(r, c as int, r.containers[c].contents[i], r.next_id) by {
                if c == cid {
                    let e = es[i];
                    assert(r.containers[c].contents[i] == e);
                    assert(e.id != id);
                } else {
                    let e = w1.containers[c].contents[i];
                    assert(nested_entity(w1, c as int, e, w1.next_id));
                    if e.id == id {
                        assert(c < cid);
                    }
                }
            }
            assert forall|s: Seq<char>, t: Seq<char>| #[trigger] r.intern.contains_key(s) && #[trigger] r.intern.contains_key(t) && s != t
                implies r.intern[s] != r.intern[t] by {
                assert(w1.intern.contains_key(s) && w1.intern.contains_key(t));
            }
            assert forall|c: i32, i: int|
                #![trigger r.containers[c].contents[i]]
                r.containers.contains_key(c) && 0 <= i < r.containers[c].contents.len()
                    implies r.containers[c].contents[i].offset <= end by {
                if c == cid {
                    assert(r.containers[c].contents[i] == es[i]);
                } else {
                    assert(w.containers.contains_key(c));
                }
            }
            assert forall|c: i32| #[trigger] w0.containers.contains_key(c) implies r.containers.contains_key(c) && r.containers[c] == w0.containers[c] by {
                assert(w.containers.contains_key(c));
            }
            if w0.atoms.contains_key(comma) {
                assert(w.atoms.contains_key(comma));
                assert(w1.atoms.contains_key(comma));
                if w1.atoms[comma] is Container {
                    assert(w.atoms[comma] == w1.atoms[comma]);
                }
            }
        }
    }
}


/// The distiller keeps the shape of a parsed workspace: ids below the counter, nesting
/// in opening order, offsets inside the buffer; it leaves the containers it finds as
/// they are (it only types atoms and adds expansion containers), and the comma stays
/// an atom that names no container.
pub proof fn lemma_distill_shape(ws: WorkspaceV, u: Set<Seq<char>>, end: int, comma: i32)
    requires
        ws_shape(ws),
        intern_injective(ws),
        raw_interned(ws),
        offsets_within(ws, end),
        raw_fits(ws, end),
        ws.atoms.contains_key(comma),
        !(ws.atoms[comma] is Container),
        !(ws.atoms[comma] is Raw),
        spec_distill(ws, u).next_id < i32::MAX,
    ensures
        pass2_inv(ws, spec_distill(ws, u), end, comma),
{
    let es = all_entities(ws);
    lemma_entities_in(ws, ws.container_order.len() as int);
    lemma_scan_facts(ws, es);
    let (ids, pos) = scan(ws, es);
    let p1 = pass1(ws, known_names(ws).union(u), ids);
    lemma_pass1_frame(ws, known_names(ws).union(u), ids);
    let w = p1.ws;
    assert forall|x: Entity| #[trigger] child_of(w, x) is Some implies child_of(w, x) == child_of(ws, x) by {
        if w.atoms.contains_key(x.id) && w.atoms[x.id] is Container {
            assert(!ids.contains(x.id));
        }
    }
    assert forall|c: i32, i: int|
        #![trigger w.containers[c].contents[i]]
        w.containers.contains_key(c) && 0 <= i < w.containers[c].contents.len()
            implies nested_entity(w, c as int, w.containers[c].contents[i], w.next_id) by {
        assert(nested_entity(ws, c as int, ws.containers[c].contents[i], ws.next_id));
    }
    assert forall|x: i32| #[trigger] w.atoms.contains_key(x) && w.atoms[x] is Container
        implies 0 < w.atoms[x]->Container_0 < w.next_id by {
        assert(!ids.contains(x));
    }
    assert(!ids.contains(comma)) by {
        if ids.contains(comma) {
            let q = choose|q: int| 0 <= q < ids.len() && ids[q] == comma;
            assert(ws.atoms[ids[q]] is Raw);
        }
    }
    assert(pass2_inv(w, w, end, comma));
    let rem = p1.remaining;
    assert forall|j: int| 0 <= j < rem.len() implies waiting_ok(w, pos, #[trigger] rem[j], end, comma) by {
        let id = rem[j].0;
        assert(ids.contains(id));
        let q = choose|q: int| 0 <= q < ids.len() && ids[q] == id;
        assert(ws.atoms.contains_key(ids[q]) && ws.atoms[ids[q]] is Raw);
        assert(pos.contains_key(id));
        let k = choose|k: int| 0 <= k < es.len() && es[k].id == id && #[trigger] es[k].offset == pos[id];
        assert(in_some_container(ws, es[k]));
        let (c, i) = choose|c: i32, i: int| ws.containers.contains_key(c) && 0 <= i < ws.containers[c].contents.len()
            && #[trigger] ws.containers[c].contents[i] == es[k];
        assert(ws.containers[c].contents[i].offset + byte_len(ws.atoms[ws.containers[c].contents[i].id]->Raw_0) <= end);
    }
    lemma_pass2_shape(w, p1.known, pos, rem, end, comma);
}


/// Every id that occurs with a raw atom is among the ids the scan finds.
proof fn lemma_scan_covers(ws: WorkspaceV, es: Seq<Entity>)
    ensures
        forall|j: int| 0 <= j < es.len() && ws.atoms.contains_key(es[j].id) && ws.atoms[es[j].id] is Raw
            ==> scan(ws, es).0.contains(#[trigger] es[j].id),
    decreases es.len(),
{
    if es.len() > 0 {
        lemma_scan_covers(ws, es.drop_last());
        lemma_scan_facts(ws, es.drop_last());
        let (ids, pos) = scan(ws, es.drop_last());
        let (ids2, pos2) = scan(ws, es);
        assert forall|j: int| 0 <= j < es.len() && ws.atoms.contains_key(es[j].id) && ws.atoms[es[j].id] is Raw
            implies ids2.contains(#[trigger] es[j].id) by {
            if j < es.len() - 1 {
                assert(es.drop_last()[j] == es[j]);
                assert(ids.contains(es[j].id));
                let q = choose|q: int| 0 <= q < ids.len() && ids[q] == es[j].id;
                assert(ids2[q] == es[j].id);
            } else if pos.contains_key(es[j].id) {
                assert(ids.contains(es[j].id));
                let q = choose|q: int| 0 <= q < ids.len() && ids[q] == es[j].id;
                assert(ids2[q] == es[j].id);
            } else {
                assert(ids2[ids.len() as int] == es[j].id);
            }
        }
    }
}

/// Every entity of a container in walking order is walked.
proof fn lemma_entities_cover(ws: WorkspaceV, k: int, c: i32, i: int)
    requires
        0 <= k <= ws.container_order.len(),
        exists|q: int| 0 <= q < k && ws.container_order[q] == c,
        ws.containers.contains_key(c),
        0 <= i < ws.containers[c].contents.len(),
    ensures
        entities_upto(ws, k).contains(ws.containers[c].contents[i]),
    decreases k,
{
    let prev = entities_upto(ws, k - 1);
    let last = ws.container_order[k - 1];
    if ws.containers.contains_key(last) {
        assert(entities_upto(ws, k) == prev + ws.containers[last].contents);
    } else {
        assert(entities_upto(ws, k) == prev + Seq::<Entity>::empty());
    }
    if last == c {
        assert(entities_upto(ws, k)[prev.len() + i] == ws.containers[c].contents[i]);
    } else {
        let q = choose|q: int| 0 <= q < k && ws.container_order[q] == c;
        assert(q < k - 1);
        lemma_entities_cover(ws, k - 1, c, i);
        let j = choose|j: int| 0 <= j < prev.len() && prev[j] == ws.containers[c].contents[i];
        assert(entities_upto(ws, k)[j] == prev[j]);
    }
}

/// The second pass leaves no raw atom on the ids it handles, and turns no atom raw.
proof fn lemma_pass2_types(w0: WorkspaceV, known: Set<Seq<char>>, pos: Map<i32, u32>, rem: Seq<(i32, Seq<char>)>)
    ensures
        forall|x: i32| #[trigger] pass2(w0, known, pos, rem).atoms.contains_key(x) && pass2(w0, known, pos, rem).atoms[x] is Raw
            ==> w0.atoms.contains_key(x) && w0.atoms[x] is Raw
                && forall|j: int| 0 <= j < rem.len() ==> (#[trigger] rem[j]).0 != x,
    decreases rem.len(),
{
    if rem.len() > 0 {
        let pre = rem.drop_last();
        lemma_pass2_types(w0, known, pos, pre);
        let w = pass2(w0, known, pos, pre);
        let (id, text) = rem.last();
        let results = spec_munch(text, known);
        let parent = if pos.contains_key(id) { pos[id] } else { 0u32 };
        lemma_munch_parts(text, known);
        let r = pass2(w0, known, pos, rem);
        if results.len() > 1 && !any_poison(results) {
            lemma_expand_types(w, results, parent);
        }
        assert forall|x: i32| #[trigger] r.atoms.contains_key(x) && r.atoms[x] is Raw
            implies w0.atoms.contains_key(x) && w0.atoms[x] is Raw && forall|j: int| 0 <= j < rem.len() ==> (#[trigger] rem[j]).0 != x by {
            assert(x != id);
            assert(w.atoms.contains_key(x) && w.atoms[x] is Raw);
            assert forall|j: int| 0 <= j < rem.len() implies (#[trigger] rem[j]).0 != x by {
                if j < pre.len() {
                    assert(rem[j] == pre[j]);
                }
            }
        }
    }
}

/// Expansion turns no atom raw.
proof fn lemma_expand_types(w: WorkspaceV, parts: Seq<(AtomV, nat)>, parent: u32)
    requires
        forall|k: int| 0 <= k < parts.len() ==> !((#[trigger] parts[k]).0 is Raw),
    ensures
        forall|x: i32| #[trigger] expand(w, parts, parent).0.atoms.contains_key(x) && expand(w, parts, parent).0.atoms[x] is Raw
            ==> w.atoms.contains_key(x) && w.atoms[x] is Raw,
        expand(w, parts, parent).0.containers == w.containers,
    decreases parts.len(),
{
    if parts.len() > 0 {
        let pre = parts.drop_last();
        assert forall|k: int| 0 <= k < pre.len() implies !((#[trigger] pre[k]).0 is Raw) by {
            assert(pre[k] == parts[k]);
        }
        lemma_expand_types(w, pre, parent);
        assert(!(parts.last().0 is Raw)) by {
            assert(parts[parts.len() - 1] == parts.last());
        }
    }
}

/// A raw id that the first pass leaves raw waits for the second pass.
proof fn lemma_pass1_remaining_raw(ws: WorkspaceV, known: Set<Seq<char>>, ids: Seq<i32>, x: i32)
    requires
        ids.contains(x),
        pass1(ws, known, ids).ws.atoms.contains_key(x),
        pass1(ws, known, ids).ws.atoms[x] is Raw,
        ids.no_duplicates(),
    ensures
        exists|j: int| 0 <= j < pass1(ws, known, ids).remaining.len() && (#[trigger] pass1(ws, known, ids).remaining[j]).0 == x,
    decreases ids.len(),
{
    let pre = ids.drop_last();
    let st = pass1(ws, known, pre);
    let id = ids.last();
    let r = pass1(ws, known, ids);
    if x == id {
        if st.ws.atoms.contains_key(id) && st.ws.atoms[id] is Raw {
            let text = st.ws.atoms[id]->Raw_0;
            lemma_munch_parts(text, st.known);
            let results = spec_munch(text, st.known);
            if results.len() == 1 && !(results[0].0 is Poison) {
                assert(!(results[0].0 is Raw));
            } else {
                assert(r.remaining[st.remaining.len() as int].0 == x);
            }
        }
    } else {
        let q = choose|q: int| 0 <= q < ids.len() && ids[q] == x;
        assert(q < ids.len() - 1);
        assert(pre[q] == x);
        assert(pre.no_duplicates()) by {
            assert forall|a: int, b: int| 0 <= a < pre.len() && 0 <= b < pre.len() && a != b implies pre[a] != pre[b] by {
                assert(pre[a] == ids[a] && pre[b] == ids[b]);
            }
        }
        assert(st.ws.atoms.contains_key(x) && st.ws.atoms[x] is Raw);
        lemma_pass1_remaining_raw(ws, known, pre, x);
        let j = choose|j: int| 0 <= j < st.remaining.len() && (#[trigger] st.remaining[j]).0 == x;
        assert(r.remaining[j] == st.remaining[j]);
    }
}

/// The second pass keeps the containers it starts with when their ids are below the
/// counter.
proof fn lemma_pass2_keeps(w0: WorkspaceV, known: Set<Seq<char>>, pos: Map<i32, u32>, rem: Seq<(i32, Seq<char>)>)
    requires
        forall|c: i32| #[trigger] w0.containers.contains_key(c) ==> c < w0.next_id,
        pass2(w0, known, pos, rem).next_id < i32::MAX,
    ensures
        forall|c: i32| #[trigger] w0.containers.contains_key(c) ==> pass2(w0, known, pos, rem).containers.contains_key(c)
            && pass2(w0, known, pos, rem).containers[c] == w0.containers[c],
        pass2(w0, known, pos, rem).next_id >= w0.next_id,
    decreases rem.len(),
{
    if rem.len() > 0 {
        let pre = rem.drop_last();
        lemma_pass2_mono(w0, known, pos, rem);
        assert(pre =~= rem.take(rem.len() - 1));
        lemma_pass2_keeps(w0, known, pos, pre);
        let w = pass2(w0, known, pos, pre);
        let (id, text) = rem.last();
        let results = spec_munch(text, known);
        let parent = if pos.contains_key(id) { pos[id] } else { 0u32 };
        lemma_munch_parts(text, known);
        if results.len() > 1 && !any_poison(results) {
            lemma_expand_types(w, results, parent);
            lemma_expand_mono(w, results, parent);
        }
    }
}

/// The distiller types every symbol it is given: afterwards, no entity of a container
/// it was handed refers to a raw atom (each symbol became a value, a variable, an
/// expansion container or poison).
pub proof fn lemma_distill_types_all(ws: WorkspaceV, u: Set<Seq<char>>)
    requires
        forall|c: i32| #[trigger] ws.containers.contains_key(c) ==> ws.container_order.contains(c),
        forall|c: i32| #[trigger] ws.containers.contains_key(c) ==> c < ws.next_id,
        spec_distill(ws, u).next_id < i32::MAX,
    ensures
        forall|c: i32, i: int|
            #![trigger ws.containers[c].contents[i]]
            ws.containers.contains_key(c) && 0 <= i < ws.containers[c].contents.len()
                ==> spec_distill(ws, u).containers.contains_key(c)
                    && spec_distill(ws, u).containers[c] == ws.containers[c]
                    && !(spec_distill(ws, u).atoms.contains_key(ws.containers[c].contents[i].id)
                        && spec_distill(ws, u).atoms[ws.containers[c].contents[i].id] is Raw),
{
    let es = all_entities(ws);
    lemma_scan_facts(ws, es);
    lemma_scan_covers(ws, es);
    let (ids, pos) = scan(ws, es);
    lemma_pass1_frame(ws, known_names(ws).union(u), ids);
    let p1 = pass1(ws, known_names(ws).union(u), ids);
    lemma_pass2_types(p1.ws, p1.known, pos, p1.remaining);
    lemma_pass2_keeps(p1.ws, p1.known, pos, p1.remaining);
    let d = spec_distill(ws, u);
    assert forall|c: i32, i: int|
        #![trigger ws.containers[c].contents[i]]
        ws.containers.contains_key(c) && 0 <= i < ws.containers[c].contents.len()
            implies d.containers.contains_key(c) && d.containers[c] == ws.containers[c]
                && !(d.atoms.contains_key(ws.containers[c].contents[i].id) && d.atoms[ws.containers[c].contents[i].id] is Raw) by {
        let e = ws.containers[c].contents[i];
        assert(p1.ws.containers == ws.containers);
        assert(p1.ws.next_id == ws.next_id);
        assert(p1.ws.containers.contains_key(c));
        assert(d.containers.contains_key(c) && d.containers[c] == ws.containers[c]);
        if d.atoms.contains_key(e.id) && d.atoms[e.id] is Raw {
            assert(p1.ws.atoms.contains_key(e.id) && p1.ws.atoms[e.id] is Raw);
            if ids.contains(e.id) {
                lemma_pass1_remaining_raw(ws, known_names(ws).union(u), ids, e.id);
                let j = choose|j: int| 0 <= j < p1.remaining.len() && (#[trigger] p1.remaining[j]).0 == e.id;
                assert(p1.remaining[j].0 != e.id);
            } else {
                assert(ws.atoms.contains_key(e.id) && ws.atoms[e.id] is Raw);
                lemma_entities_cover(ws, ws.container_order.len() as int, c, i);
                let j = choose|j: int| 0 <= j < es.len() && es[j] == e;
                assert(ids.contains(es[j].id));
            }
        }
    }
}

// ---------------------------------------------------------------------------
// How many ids the distiller mints.
// ---------------------------------------------------------------------------

/// The scan finds at most one raw id per entity.
proof fn lemma_scan_len(ws: WorkspaceV, es: Seq<Entity>)
    ensures
        scan(ws, es).0.len() <= es.len(),
    decreases es.len(),
{
    if es.len() > 0 {
        lemma_scan_len(ws, es.drop_last());
    }
}

/// The first pass mints no id and leaves at most one symbol per id for the second.
proof fn lemma_pass1_count(ws: WorkspaceV, known: Set<Seq<char>>, ids: Seq<i32>)
    ensures
        pass1(ws, known, ids).ws.next_id == ws.next_id,
        pass1(ws, known, ids).remaining.len() <= ids.len(),
    decreases ids.len(),
{
    if ids.len() > 0 {
        lemma_pass1_count(ws, known, ids.drop_last());
    }
}

/// Interning the parts of an expansion mints at most one id per part.
proof fn lemma_expand_count(ws: WorkspaceV, parts: Seq<(AtomV, nat)>, parent: u32)
    ensures
        ws.next_id <= expand(ws, parts, parent).0.next_id <= ws.next_id + parts.len(),
    decreases parts.len(),
{
    if parts.len() > 0 {
        lemma_expand_count(ws, parts.drop_last(), parent);
    }
}

/// The second pass mints at most five ids per waiting symbol: four parts and their
/// container.
proof fn lemma_pass2_count(ws: WorkspaceV, known: Set<Seq<char>>, pos: Map<i32, u32>, rem: Seq<(i32, Seq<char>)>)
    ensures
        ws.next_id <= pass2(ws, known, pos, rem).next_id <= ws.next_id + 5 * rem.len(),
    decreases rem.len(),
{
    if rem.len() > 0 {
        lemma_pass2_count(ws, known, pos, rem.drop_last());
        let w = pass2(ws, known, pos, rem.drop_last());
        let (id, text) = rem.last();
        let results = spec_munch(text, known);
        lemma_munch_parts(text, known);
        let parent = if pos.contains_key(id) { pos[id] } else { 0u32 };
        lemma_expand_count(w, results, parent);
    }
}

/// The distiller mints at most five ids per entity of the workspace.
pub proof fn lemma_distill_count(ws: WorkspaceV, u: Set<Seq<char>>)
    ensures
        ws.next_id <= spec_distill(ws, u).next_id <= ws.next_id + 5 * all_entities(ws).len(),
{
    let es = all_entities(ws);
    lemma_scan_len(ws, es);
    let (ids, pos) = scan(ws, es);
    lemma_pass1_count(ws, known_names(ws).union(u), ids);
    let p1 = pass1(ws, known_names(ws).union(u), ids);
    lemma_pass2_count(p1.ws, p1.known, pos, p1.remaining);
}

/// The number of entities of the workspace, or `u32::MAX` when there are at least as
/// many.
pub fn entity_count(ws: &Workspace) -> (n: u64)
    requires
        ws.wf(),
    ensures
        n == if all_entities(ws@).len() < u32::MAX { all_entities(ws@).len() as int } else { u32::MAX as int },
{
    let nc = ws.containers.len();
    proof {
        ws.containers.lemma_wf();
    }
    let cap: u64 = 0xffff_ffff;
    let mut n: u64 = 0;
    let mut ci: usize = 0;
    while ci < nc
        invariant
            ws.wf(),
            nc == ws.containers.entries().len(),
            nc == ws@.container_order.len(),
            ci <= nc,
            cap == u32::MAX,
            n == if entities_upto(ws@, ci as int).len() < cap { entities_upto(ws@, ci as int).len() as int } else { cap as int },
        decreases nc - ci,
    {
        let (cid, c) = ws.containers.entry_at(ci);
        proof {
            ws.containers.lemma_wf();
            assert(ws@.container_order[ci as int] == cid);
            assert(ws@.containers[cid] == c@);
            assert(entities_upto(ws@, ci + 1) == entities_upto(ws@, ci as int) + c.contents@);
        }
        let add = c.contents.len() as u64;
        if n >= cap || add >= cap - n {
            n = cap;
        } else {
            n = n + add;
        }
        ci = ci + 1;
    }
    n
}

} // verus!
