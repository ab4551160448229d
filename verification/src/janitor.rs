//! Stage 2: the janitor splits the root into lines, coerces sequence markers into commas,
//! trims stray commas and collapses containers that only wrap another container.

use vstd::prelude::*;
use crate::builtins::string_from_chars;
use crate::unroller::{contents_of, line_ok, ready_with};
use crate::model::{
    atoms_below, child_of, container_atoms_below, keys_below, nested_below, nested_entity, root_nested, same_frame, Atom, AtomV, Container, ContainerV,
    Diagnostic, DiagnosticCode, Entity, Position, Span, Workspace, WorkspaceV,
};
use crate::shape::{lemma_offs_push, offs_le, offsets_within};

verus! {

/// The ids of the comma, line break and semicolon atoms.
#[derive(Clone, Copy, PartialEq, Eq, Structural)]
pub struct SeqIds {
    pub comma: i32,
    pub newline: i32,
    pub semicolon: i32,
}

/// Whether `e` is a line break or semicolon.
pub open spec fn is_break(e: Entity, k: SeqIds) -> bool {
    e.id == k.newline || e.id == k.semicolon
}

/// A `StraySequence` diagnostic for a comma at `offset` (its end wraps at the maximum offset).
pub open spec fn stray(offset: u32) -> Diagnostic {
    Diagnostic {
        code: DiagnosticCode::StraySequence,
        span: Span {
            start: Position { offset: offset, line: 0, col: 0 },
            end: Position { offset: if offset < u32::MAX { (offset + 1) as u32 } else { 0 }, line: 0, col: 0 },
        },
    }
}

/// Appends a diagnostic.
pub open spec fn with_diag(ws: WorkspaceV, d: Diagnostic) -> WorkspaceV {
    WorkspaceV { diagnostics: ws.diagnostics.push(d), ..ws }
}

/// Replaces the contents of container `cid` (if it exists).
pub open spec fn set_contents(ws: WorkspaceV, cid: i32, es: Seq<Entity>) -> WorkspaceV {
    if ws.containers.contains_key(cid) {
        WorkspaceV {
            containers: ws.containers.insert(cid, ContainerV { contents: es, ..ws.containers[cid] }),
            ..ws
        }
    } else {
        ws
    }
}

/// ORs `flag` into the corrupted flag of container `cid` (if it exists).
pub open spec fn or_corrupted(ws: WorkspaceV, cid: i32, flag: bool) -> WorkspaceV {
    if ws.containers.contains_key(cid) {
        WorkspaceV {
            containers: ws.containers.insert(
                cid,
                ContainerV { corrupted: ws.containers[cid].corrupted || flag, ..ws.containers[cid] },
            ),
            ..ws
        }
    } else {
        ws
    }
}

/// Drops leading and repeated commas from the first `n` entities of `es`; returns the
/// workspace with a diagnostic per dropped comma, the kept entities, and whether the
/// last entity seen was a comma (true at the start).
pub open spec fn stutter(ws: WorkspaceV, es: Seq<Entity>, comma: i32, n: int) -> (WorkspaceV, Seq<Entity>, bool)
    decreases n,
{
    if n <= 0 || n > es.len() {
        (ws, Seq::empty(), true)
    } else {
        let (ws1, kept, last_seq) = stutter(ws, es, comma, n - 1);
        let e = es[n - 1];
        if e.id == comma {
            if !last_seq {
                (ws1, kept.push(e), true)
            } else {
                (with_diag(ws1, stray(e.offset)), kept, true)
            }
        } else {
            (ws1, kept.push(e), false)
        }
    }
}

/// Drops leading, repeated and trailing commas, reporting each as a stray sequence.
pub open spec fn trim(ws: WorkspaceV, es: Seq<Entity>, comma: i32) -> (WorkspaceV, Seq<Entity>) {
    let (ws1, kept, _) = stutter(ws, es, comma, es.len() as int);
    if kept.len() > 0 && kept.last().id == comma {
        (with_diag(ws1, stray(kept.last().offset)), kept.drop_last())
    } else {
        (ws1, kept)
    }
}

/// Collapses `cur` (the cleaned contents of `cid`) while it holds a single container,
/// taking that container's contents and OR-ing its corrupted flag into `cid`.
pub open spec fn unwrap(ws: WorkspaceV, cid: i32, cur: Seq<Entity>, lower: int, bound: int) -> (WorkspaceV, Seq<Entity>)
    decreases bound - lower,
{
    if cur.len() == 1 && child_of(ws, cur[0]) is Some {
        let icid = child_of(ws, cur[0])->Some_0;
        if lower < icid < bound {
            let ic = ws.containers[icid];
            unwrap(or_corrupted(ws, cid, ic.corrupted), cid, ic.contents, icid as int, bound)
        } else {
            (ws, cur)
        }
    } else {
        (ws, cur)
    }
}

/// Processes the first `n` entities of a sequence: scrubs nested containers and
/// coerces line breaks and semicolons into commas.
pub open spec fn rebuild(ws: WorkspaceV, es: Seq<Entity>, k: SeqIds, lower: int, bound: int, n: int) -> (WorkspaceV, Seq<Entity>)
    decreases bound - lower, n, 0int,
{
    if n <= 0 || n > es.len() {
        (ws, Seq::empty())
    } else {
        let (ws1, acc) = rebuild(ws, es, k, lower, bound, n - 1);
        let e = es[n - 1];
        if ws1.atoms.contains_key(e.id) && ws1.atoms[e.id] is Container {
            let cid = ws1.atoms[e.id]->Container_0;
            if ws1.containers.contains_key(cid) {
                if lower < cid < bound {
                    let inner = ws1.containers[cid].contents;
                    let (ws2, cleaned) = process(ws1, inner, k, cid as int, bound);
                    let (ws3, fin) = unwrap(ws2, cid, cleaned, cid as int, bound);
                    (set_contents(ws3, cid, fin), acc.push(e))
                } else {
                    (ws1, acc.push(e))
                }
            } else {
                (ws1, acc.push(e))
            }
        } else if is_break(e, k) {
            (ws1, acc.push(Entity { id: k.comma, offset: e.offset }))
        } else {
            (ws1, acc.push(e))
        }
    }
}

/// Scrubs a sequence of entities: nested containers first, then coercion and trimming.
pub open spec fn process(ws: WorkspaceV, es: Seq<Entity>, k: SeqIds, lower: int, bound: int) -> (WorkspaceV, Seq<Entity>)
    decreases bound - lower, es.len(), 1int,
{
    let (ws1, rebuilt) = rebuild(ws, es, k, lower, bound, es.len() as int);
    trim(ws1, rebuilt, k.comma)
}

/// Makes a line container from `cur`, first collapsing it while it holds a single
/// container; returns the new line's id.
pub open spec fn promote(ws: WorkspaceV, cur: Seq<Entity>, corrupted: bool, lower: int, bound: int) -> (WorkspaceV, i32)
    decreases bound - lower,
{
    if cur.len() == 1 && child_of(ws, cur[0]) is Some && lower < child_of(ws, cur[0])->Some_0 < bound {
        let ic = ws.containers[child_of(ws, cur[0])->Some_0];
        promote(ws, ic.contents, corrupted || ic.corrupted, child_of(ws, cur[0])->Some_0 as int, bound)
    } else {
        let id = ws.next_id as i32;
        (WorkspaceV {
            next_id: ws.next_id + 1,
            containers: ws.containers.insert(
                id,
                ContainerV { contents: cur, corrupted: corrupted, start_pos: Position { offset: 0, line: 0, col: 0 } },
            ),
            container_order: if ws.containers.contains_key(id) { ws.container_order } else { ws.container_order.push(id) },
            atoms: ws.atoms.insert(id, AtomV::Container(id)),
            ..ws
        }, id)
    }
}

/// Turns a finished segment of the root into a line (if anything survives scrubbing).
pub open spec fn close_line(ws: WorkspaceV, lines: Seq<Entity>, seg: Seq<Entity>, k: SeqIds, bound: int) -> (WorkspaceV, Seq<Entity>) {
    if seg.len() == 0 {
        (ws, lines)
    } else {
        let (ws1, cleaned) = process(ws, seg, k, 0, bound);
        if cleaned.len() == 0 {
            (ws1, lines)
        } else {
            let (ws2, line_id) = promote(ws1, cleaned, false, 0, bound);
            (ws2, lines.push(Entity { id: line_id, offset: 0 }))
        }
    }
}

/// Splits the first `n` root entities at line breaks and semicolons; returns the
/// workspace, the lines made so far, and the open segment.
pub open spec fn split(ws: WorkspaceV, root: Seq<Entity>, k: SeqIds, bound: int, n: int) -> (WorkspaceV, Seq<Entity>, Seq<Entity>)
    decreases n,
{
    if n <= 0 || n > root.len() {
        (ws, Seq::empty(), Seq::empty())
    } else {
        let (ws1, lines, seg) = split(ws, root, k, bound, n - 1);
        let e = root[n - 1];
        if is_break(e, k) {
            let (ws2, lines2) = close_line(ws1, lines, seg, k, bound);
            (ws2, lines2, Seq::empty())
        } else {
            (ws1, lines, seg.push(e))
        }
    }
}

/// The id of `s` in the intern map, or -1.
pub open spec fn id_or_none(ws: WorkspaceV, s: Seq<char>) -> i32 {
    if ws.intern.contains_key(s) { ws.intern[s] } else { -1i32 }
}

/// The sequence ids that the janitor uses.
pub open spec fn spec_seq_ids(ws: WorkspaceV) -> SeqIds {
    SeqIds {
        comma: id_or_none(ws, seq![',']),
        newline: id_or_none(ws, seq!['\n']),
        semicolon: id_or_none(ws, seq![';']),
    }
}

/// The workspace after the janitor.
pub open spec fn spec_scrub(ws: WorkspaceV) -> WorkspaceV {
    if !ws.containers.contains_key(0) {
        ws
    } else {
        let k = spec_seq_ids(ws);
        let root = ws.containers[0].contents;
        let bound = ws.next_id as int;
        let (ws1, lines, seg) = split(ws, root, k, bound, root.len() as int);
        let (ws2, lines2) = close_line(ws1, lines, seg, k, bound);
        set_contents(ws2, 0, lines2)
    }
}

/// What the janitor needs of its input: nesting follows container ids, every
/// container id is below the counter, the comma does not name a container, and the
/// counter leaves room for one line per root entity.
pub open spec fn janitor_ready(ws: WorkspaceV) -> bool {
    &&& 0 < ws.next_id
    &&& atoms_below(ws)
    &&& nested_below(ws, ws.next_id as int)
    &&& root_nested(ws, ws.next_id as int)
    &&& keys_below(ws)
    &&& container_atoms_below(ws)
    &&& spec_seq_ids(ws).comma < ws.next_id
    &&& !(ws.atoms.contains_key(spec_seq_ids(ws).comma) && ws.atoms[spec_seq_ids(ws).comma] is Container)
    &&& ws.containers.contains_key(0) ==> ws.next_id + ws.containers[0].contents.len() < i32::MAX
}

/// The comma does not name a container.
pub open spec fn comma_plain(ws: WorkspaceV, k: SeqIds) -> bool {
    !(ws.atoms.contains_key(k.comma) && ws.atoms[k.comma] is Container)
}

/// Drops leading, repeated and trailing commas, reporting each one dropped.
fn trim_exec(ws: &mut Workspace, rebuilt: Vec<Entity>, comma: i32) -> (r: Vec<Entity>)
    ensures
        final(ws).wf() == old(ws).wf(),
        (final(ws)@, r@) == trim(old(ws)@, rebuilt@, comma),
        final(ws).atoms == old(ws).atoms,
        final(ws).containers == old(ws).containers,
        final(ws).intern_map == old(ws).intern_map,
        final(ws).next_id == old(ws).next_id,
        final(ws).comments == old(ws).comments,
        forall|j: int| 0 <= j < r@.len() ==> exists|i: int| 0 <= i < rebuilt@.len() && #[trigger] r@[j] == rebuilt@[i],
{
    let mut kept: Vec<Entity> = Vec::new();
    let mut last_was_seq = true;
    let mut i: usize = 0;
    while i < rebuilt.len()
        invariant
            i <= rebuilt@.len(),
            (ws@, kept@, last_was_seq) == stutter(old(ws)@, rebuilt@, comma, i as int),
            ws.wf() == old(ws).wf(),
            ws.atoms == old(ws).atoms,
            ws.containers == old(ws).containers,
            ws.intern_map == old(ws).intern_map,
            ws.next_id == old(ws).next_id,
            ws.comments == old(ws).comments,
            forall|j: int| 0 <= j < kept@.len() ==> exists|q: int| 0 <= q < rebuilt@.len() && #[trigger] kept@[j] == rebuilt@[q],
        decreases rebuilt@.len() - i,
    {
        let e = rebuilt[i];
        if e.id == comma {
            if !last_was_seq {
                kept.push(e);
            } else {
                ws.diagnostics.push(stray_exec(e.offset));
            }
            last_was_seq = true;
        } else {
            kept.push(e);
            last_was_seq = false;
        }
        proof {
            assert forall|j: int| 0 <= j < kept@.len() implies exists|q: int| 0 <= q < rebuilt@.len() && #[trigger] kept@[j] == rebuilt@[q] by {
                if kept@[j] == e {
                    assert(rebuilt@[i as int] == e);
                }
            }
        }
        i = i + 1;
    }
    if kept.len() > 0 && kept[kept.len() - 1].id == comma {
        let off = kept[kept.len() - 1].offset;
        let ghost before = kept@;
        kept.pop();
        ws.diagnostics.push(stray_exec(off));
        proof {
            assert forall|j: int| 0 <= j < kept@.len() implies exists|q: int| 0 <= q < rebuilt@.len() && #[trigger] kept@[j] == rebuilt@[q] by {
                assert(kept@[j] == before[j]);
            }
        }
    }
    kept
}

/// Keeping the frame keeps what each entity refers to.
pub proof fn lemma_frame_child(a: WorkspaceV, b: WorkspaceV, e: Entity)
    requires
        same_frame(a, b),
    ensures
        child_of(a, e) == child_of(b, e),
{
    assert(a.containers.contains_key(a.atoms[e.id]->Container_0) == b.containers.contains_key(a.atoms[e.id]->Container_0));
}

/// Keeping the frame is transitive.
pub proof fn lemma_frame_trans(a: WorkspaceV, b: WorkspaceV, c: WorkspaceV)
    requires
        same_frame(a, b),
        same_frame(b, c),
    ensures
        same_frame(a, c),
{
    assert forall|x: i32| #[trigger] c.containers.contains_key(x) implies c.containers[x].start_pos == a.containers[x].start_pos by {
        assert(b.containers.contains_key(x));
    }
}

/// The container that `e` refers to, if its atom is a container that exists.
fn child_exec(ws: &Workspace, e: Entity) -> (r: Option<i32>)
    requires
        ws.wf(),
    ensures
        r == child_of(ws@, e),
{
    match ws.atoms.get(e.id) {
        Some(Atom::Container(cid)) => {
            if ws.containers.contains_key(*cid) {
                Some(*cid)
            } else {
                None
            }
        },
        _ => None,
    }
}

/// Scrubs a sequence of entities: recursively scrubs nested containers (collapsing
/// those that only wrap another container), coerces line breaks and semicolons into
/// commas, then trims stray commas.
fn process_sequence(
    ws: &mut Workspace,
    entities: Vec<Entity>,
    k: SeqIds,
    Ghost(lower): Ghost<int>,
    Ghost(bound): Ghost<int>,
) -> (r: Vec<Entity>)
    requires
        old(ws).wf(),
        nested_below(old(ws)@, bound),
        bound <= old(ws)@.next_id,
        0 <= lower < bound,
        comma_plain(old(ws)@, k),
        k.comma < bound,
        forall|i: int| 0 <= i < entities@.len() ==> nested_entity(old(ws)@, lower, #[trigger] entities@[i], bound),
    ensures
        final(ws).wf(),
        (final(ws)@, r@) == process(old(ws)@, entities@, k, lower, bound),
        same_frame(old(ws)@, final(ws)@),
        nested_below(final(ws)@, bound),
        forall|i: int| 0 <= i < r@.len() ==> nested_entity(final(ws)@, lower, #[trigger] r@[i], bound),
        forall|c: i32| #[trigger] old(ws)@.containers.contains_key(c) && c >= bound ==> final(ws)@.containers[c] == old(ws)@.containers[c],
    decreases bound - lower,
{
    let ghost ws0 = ws@;
    let mut rebuilt: Vec<Entity> = Vec::new();
    let mut i: usize = 0;
    while i < entities.len()
        invariant
            ws.wf(),
            i <= entities@.len(),
            (ws@, rebuilt@) == rebuild(ws0, entities@, k, lower, bound, i as int),
            same_frame(ws0, ws@),
            nested_below(ws@, bound),
            bound <= ws0.next_id,
            0 <= lower < bound,
            comma_plain(ws0, k),
            k.comma < bound,
            forall|q: int| 0 <= q < entities@.len() ==> nested_entity(ws0, lower, #[trigger] entities@[q], bound),
            forall|q: int| 0 <= q < rebuilt@.len() ==> nested_entity(ws@, lower, #[trigger] rebuilt@[q], bound),
            forall|c: i32| #[trigger] ws0.containers.contains_key(c) && c >= bound ==> ws@.containers[c] == ws0.containers[c],
        decreases entities@.len() - i,
    {
        let entity = entities[i];
        let ghost ws1 = ws@;
        let ghost rebuilt1 = rebuilt@;
        assert(nested_entity(ws0, lower, entity, bound));
        proof {
            lemma_frame_child(ws0, ws1, entity);
        }
        let a = ws.atoms.get(entity.id);
        let is_container = match a {
            Some(Atom::Container(_)) => true,
            _ => false,
        };
        if is_container {
            let cid = match a {
                Some(Atom::Container(c)) => *c,
                _ => 0,
            };
            if ws.containers.contains_key(cid) {
                let inner = ws.container(cid).unwrap();
                proof {
                    assert forall|q: int| 0 <= q < inner.contents@.len() implies nested_entity(ws@, cid as int, #[trigger] inner.contents@[q], bound) by {
                        assert(ws@.containers[cid].contents[q] == inner.contents@[q]);
                    }
                }
                let cleaned = process_sequence(ws, inner.contents, k, Ghost(cid as int), Ghost(bound));
                let ghost ws2 = ws@;
                let fin = unwrap_exec(ws, cid, cleaned, Ghost(bound));
                let ghost ws3 = ws@;
                proof {
                    lemma_frame_trans(ws1, ws2, ws3);
                    lemma_frame_trans(ws0, ws1, ws3);
                }
                let c = ws.container(cid).unwrap();
                let mut c2 = c;
                c2.contents = fin;
                ws.set_container(cid, c2);
                proof {
                    assert(ws@ == set_contents(ws3, cid, fin@));
                    assert(ws@.containers.dom() =~= ws3.containers.dom());
                    assert(same_frame(ws3, ws@));
                    lemma_frame_trans(ws0, ws3, ws@);
                    assert forall|c3: i32, q: int|
                        ws@.containers.contains_key(c3) && 0 < c3 < bound && 0 <= q < ws@.containers[c3].contents.len()
                        implies nested_entity(ws@, c3 as int, #[trigger] ws@.containers[c3].contents[q], bound) by {
                        lemma_frame_child(ws3, ws@, ws@.containers[c3].contents[q]);
                        if c3 != cid {
                            assert(ws@.containers[c3].contents[q] == ws3.containers[c3].contents[q]);
                        } else {
                            assert(ws@.containers[c3].contents[q] == fin@[q]);
                        }
                    }
                }
                rebuilt.push(entity);
            } else {
                rebuilt.push(entity);
            }
        } else if entity.id == k.newline || entity.id == k.semicolon {
            rebuilt.push(Entity { id: k.comma, offset: entity.offset });
        } else {
            rebuilt.push(entity);
        }
        proof {
            lemma_frame_child(ws0, ws@, entity);
            lemma_frame_child(ws0, ws@, Entity { id: k.comma, offset: entity.offset });
            assert forall|q: int| 0 <= q < rebuilt@.len() implies nested_entity(ws@, lower, #[trigger] rebuilt@[q], bound) by {
                if q < rebuilt1.len() {
                    assert(rebuilt@[q] == rebuilt1[q]);
                    assert(nested_entity(ws1, lower, rebuilt1[q], bound));
                    lemma_frame_child(ws0, ws1, rebuilt1[q]);
                    lemma_frame_child(ws0, ws@, rebuilt1[q]);
                }
            }
        }
        i = i + 1;
    }
    trim_exec(ws, rebuilt, k.comma)
}

/// Collapses `cur` (the cleaned contents of `cid`) while it holds a single container.
fn unwrap_exec(ws: &mut Workspace, cid: i32, cur: Vec<Entity>, Ghost(bound): Ghost<int>) -> (r: Vec<Entity>)
    requires
        old(ws).wf(),
        nested_below(old(ws)@, bound),
        0 < cid < bound,
        old(ws)@.containers.contains_key(cid),
        forall|i: int| 0 <= i < cur@.len() ==> nested_entity(old(ws)@, cid as int, #[trigger] cur@[i], bound),
    ensures
        final(ws).wf(),
        (final(ws)@, r@) == unwrap(old(ws)@, cid, cur@, cid as int, bound),
        same_frame(old(ws)@, final(ws)@),
        nested_below(final(ws)@, bound),
        forall|i: int| 0 <= i < r@.len() ==> nested_entity(final(ws)@, cid as int, #[trigger] r@[i], bound),
        final(ws)@.containers[cid].contents == old(ws)@.containers[cid].contents,
        forall|c: i32| #[trigger] old(ws)@.containers.contains_key(c) && c >= bound ==> final(ws)@.containers[c] == old(ws)@.containers[c],
{
    let ghost ws0 = ws@;
    let ghost target = unwrap(ws0, cid, cur@, cid as int, bound);
    let mut cleaned = cur;
    let ghost mut cur_lower: int = cid as int;
    loop
        invariant_except_break
            ws.wf(),
            0 < cid < bound,
            cid <= cur_lower < bound,
            ws@.containers.contains_key(cid),
            unwrap(ws@, cid, cleaned@, cur_lower, bound) == target,
            same_frame(ws0, ws@),
            nested_below(ws@, bound),
            forall|i: int| 0 <= i < cleaned@.len() ==> nested_entity(ws@, cur_lower, #[trigger] cleaned@[i], bound),
            ws@.containers[cid].contents == ws0.containers[cid].contents,
            forall|c: i32| #[trigger] ws0.containers.contains_key(c) && c >= bound ==> ws@.containers[c] == ws0.containers[c],
        ensures
            ws.wf(),
            (ws@, cleaned@) == target,
            forall|c: i32| #[trigger] ws0.containers.contains_key(c) && c >= bound ==> ws@.containers[c] == ws0.containers[c],
            same_frame(ws0, ws@),
            nested_below(ws@, bound),
            forall|i: int| 0 <= i < cleaned@.len() ==> nested_entity(ws@, cid as int, #[trigger] cleaned@[i], bound),
            ws@.containers[cid].contents == ws0.containers[cid].contents,
        decreases bound - cur_lower,
    {
        if cleaned.len() != 1 {
            proof {
                assert forall|i: int| 0 <= i < cleaned@.len() implies nested_entity(ws@, cid as int, #[trigger] cleaned@[i], bound) by {
                    assert(nested_entity(ws@, cur_lower, cleaned@[i], bound));
                }
            }
            break;
        }
        let next = child_exec(ws, cleaned[0]);
        if next.is_none() {
            proof {
                assert(nested_entity(ws@, cur_lower, cleaned@[0], bound));
            }
            break;
        }
        let icid = next.unwrap();
        assert(nested_entity(ws@, cur_lower, cleaned@[0], bound));
        let ic = ws.container(icid).unwrap();
        let inner_corrupted = ic.corrupted;
        let ghost before = ws@;
        let c = ws.container(cid).unwrap();
        let mut c2 = c;
        c2.corrupted = c2.corrupted || inner_corrupted;
        ws.set_container(cid, c2);
        proof {
            assert(ws@ == or_corrupted(before, cid, inner_corrupted));
            assert(ws@.containers.dom() =~= before.containers.dom());
            assert forall|i: int| 0 <= i < ic.contents@.len() implies nested_entity(ws@, icid as int, #[trigger] ic.contents@[i], bound) by {
                assert(before.containers[icid].contents[i] == ic.contents@[i]);
                assert(nested_entity(before, icid as int, ic.contents@[i], bound));
            }
            assert forall|c3: i32, q: int|
                ws@.containers.contains_key(c3) && 0 < c3 < bound && 0 <= q < ws@.containers[c3].contents.len()
                implies nested_entity(ws@, c3 as int, #[trigger] ws@.containers[c3].contents[q], bound) by {
                assert(ws@.containers[c3].contents[q] == before.containers[c3].contents[q]);
            }
        }
        cleaned = ic.contents;
        proof {
            cur_lower = icid as int;
        }
    }
    cleaned
}

/// Makes a line container from `contents`, first collapsing it while it holds a
/// single container; returns the new line's id.
fn maybe_promote_line(ws: &mut Workspace, contents: Vec<Entity>, Ghost(bound): Ghost<int>) -> (id: i32)
    requires
        old(ws).wf(),
        nested_below(old(ws)@, bound),
        0 < bound <= old(ws)@.next_id,
        old(ws)@.next_id < i32::MAX,
        forall|i: int| 0 <= i < contents@.len() ==> nested_entity(old(ws)@, 0, #[trigger] contents@[i], bound),
    ensures
        final(ws).wf(),
        (final(ws)@, id) == promote(old(ws)@, contents@, false, 0, bound),
        id == old(ws)@.next_id,
        final(ws)@.next_id == old(ws)@.next_id + 1,
        final(ws)@.atoms == old(ws)@.atoms.insert(id, AtomV::Container(id)),
        final(ws)@.containers.dom() == old(ws)@.containers.dom().insert(id),
        forall|c: i32| c != id && #[trigger] old(ws)@.containers.contains_key(c) ==> final(ws)@.containers[c] == old(ws)@.containers[c],
        final(ws)@.intern == old(ws)@.intern,
        final(ws)@.containers.contains_key(id),
        container_atoms_below(old(ws)@) ==> forall|q: int| 0 <= q < final(ws)@.containers[id].contents.len()
            ==> nested_entity(final(ws)@, 0, #[trigger] final(ws)@.containers[id].contents[q], bound),
        container_atoms_below(old(ws)@) ==> contents_flat(final(ws)@, final(ws)@.containers[id].contents),
{
    let ghost ws0 = ws@;
    let mut current = contents;
    let mut corrupted = false;
    let ghost mut cur_lower: int = 0;
    loop
        invariant_except_break
            ws.wf(),
            ws@ == ws0,
            0 <= cur_lower < bound,
            nested_below(ws0, bound),
            promote(ws0, current@, corrupted, cur_lower, bound) == promote(ws0, contents@, false, 0, bound),
            forall|i: int| 0 <= i < current@.len() ==> nested_entity(ws0, cur_lower, #[trigger] current@[i], bound),
        ensures
            ws@ == ws0,
            0 <= cur_lower < bound,
            forall|i: int| 0 <= i < current@.len() ==> nested_entity(ws0, cur_lower, #[trigger] current@[i], bound),
            promote(ws0, current@, corrupted, cur_lower, bound) == promote(ws0, contents@, false, 0, bound),
            !(current@.len() == 1 && child_of(ws0, current@[0]) is Some
                && cur_lower < child_of(ws0, current@[0])->Some_0 < bound),
        decreases bound - cur_lower,
    {
        if current.len() != 1 {
            break;
        }
        let next = child_exec(ws, current[0]);
        if next.is_none() {
            break;
        }
        let icid = next.unwrap();
        assert(nested_entity(ws0, cur_lower, current@[0], bound));
        let inner = ws.container(icid).unwrap();
        proof {
            assert forall|i: int| 0 <= i < inner.contents@.len() implies nested_entity(ws0, icid as int, #[trigger] inner.contents@[i], bound) by {
                assert(ws0.containers[icid].contents[i] == inner.contents@[i]);
            }
        }
        corrupted = corrupted || inner.corrupted;
        current = inner.contents;
        proof {
            cur_lower = icid as int;
        }
    }
    let id = ws.next_id;
    let ghost cur = current@;
    ws.next_id = ws.next_id + 1;
    ws.set_container(id, Container { contents: current, corrupted, start_pos: Position { offset: 0, line: 0, col: 0 } });
    ws.set_atom(id, Atom::Container(id));
    assert(ws@.containers.dom() =~= ws0.containers.dom().insert(id));
    proof {
        if container_atoms_below(ws0) {
            assert forall|q: int| 0 <= q < ws@.containers[id].contents.len()
                implies nested_entity(ws@, 0, #[trigger] ws@.containers[id].contents[q], bound) by {
                let e = cur[q];
                assert(ws@.containers[id].contents[q] == e);
                assert(nested_entity(ws0, cur_lower, e, bound));
                if ws0.atoms.contains_key(e.id) && ws0.atoms[e.id] is Container {
                    assert(ws0.atoms[e.id]->Container_0 < ws0.next_id);
                }
            }
            if cur.len() == 1 {
                let e = cur[0];
                assert(ws@.containers[id].contents == cur);
                assert(nested_entity(ws0, cur_lower, e, bound));
                assert(child_of(ws0, e) is None);
                if ws0.atoms.contains_key(e.id) && ws0.atoms[e.id] is Container {
                    assert(ws0.atoms[e.id]->Container_0 < ws0.next_id);
                }
                assert(child_of(ws@, e) is None);
            }
        }
    }
    id
}

/// How the workspace may change while the root is split: ids below `bound` keep
/// their atoms and containers (contents aside), and nesting below `bound` holds.
pub open spec fn scrub_inv(ws0: WorkspaceV, ws: WorkspaceV, bound: int) -> bool {
    &&& forall|x: i32| x < bound ==> (#[trigger] ws.atoms.contains_key(x) == ws0.atoms.contains_key(x)
        && (ws.atoms.contains_key(x) ==> ws.atoms[x] == ws0.atoms[x]))
    &&& forall|x: i32| x < bound ==> #[trigger] ws.containers.contains_key(x) == ws0.containers.contains_key(x)
    &&& nested_below(ws, bound)
    &&& container_atoms_below(ws)
    &&& container_atoms_below(ws0)
    &&& ws0.next_id == bound
    &&& bound <= ws.next_id
    &&& ws.intern == ws0.intern
}

/// While the root is split, entities with small ids keep what they refer to.
pub proof fn lemma_child_stable(ws0: WorkspaceV, ws: WorkspaceV, bound: int, e: Entity)
    requires
        scrub_inv(ws0, ws, bound),
        e.id < bound,
    ensures
        child_of(ws, e) == child_of(ws0, e),
{
    if ws0.atoms.contains_key(e.id) && ws0.atoms[e.id] is Container {
        let x = ws0.atoms[e.id]->Container_0;
        assert(x < bound);
        assert(ws.containers.contains_key(x) == ws0.containers.contains_key(x));
    }
}

/// The lines made so far: fresh containers in increasing order, each holding entities
/// nested below `bound`.
pub open spec fn lines_ok(ws: WorkspaceV, lines: Seq<Entity>, bound: int) -> bool {
    &&& forall|k: int| 0 <= k < lines.len() ==> {
        &&& bound <= (#[trigger] lines[k]).id < ws.next_id
        &&& ws.atoms.contains_key(lines[k].id)
        &&& ws.atoms[lines[k].id] == AtomV::Container(lines[k].id)
        &&& ws.containers.contains_key(lines[k].id)
        &&& forall|q: int| 0 <= q < ws.containers[lines[k].id].contents.len()
            ==> nested_entity(ws, 0, #[trigger] ws.containers[lines[k].id].contents[q], bound)
        &&& contents_flat(ws, ws.containers[lines[k].id].contents)
    }
    &&& forall|a: int, b: int| 0 <= a < b < lines.len() ==> #[trigger] lines[a].id < #[trigger] lines[b].id
}

/// The contents are not a single reference to a container.
pub open spec fn contents_flat(ws: WorkspaceV, es: Seq<Entity>) -> bool {
    !(es.len() == 1 && child_of(ws, es[0]) is Some)
}

/// Every line of the root is flat: none is a single reference to a container (the
/// janitor unwraps such a line down to the contents of the innermost container).
pub open spec fn lines_flat(ws: WorkspaceV) -> bool {
    ws.containers.contains_key(0) ==> forall|i: int| 0 <= i < ws.containers[0].contents.len()
        ==> (child_of(ws, #[trigger] ws.containers[0].contents[i]) matches Some(lid)
            ==> contents_flat(ws, contents_of(ws, lid)))
}

/// Turns a finished segment of the root into a line (if anything survives scrubbing).
fn close_line_exec(
    ws: &mut Workspace,
    lines: &mut Vec<Entity>,
    seg: Vec<Entity>,
    k: SeqIds,
    Ghost(ws0): Ghost<WorkspaceV>,
    Ghost(bound): Ghost<int>,
)
    requires
        old(ws).wf(),
        scrub_inv(ws0, old(ws)@, bound),
        0 < bound,
        old(ws)@.next_id < i32::MAX,
        comma_plain(old(ws)@, k),
        k.comma < bound,
        forall|i: int| 0 <= i < seg@.len() ==> nested_entity(old(ws)@, 0, #[trigger] seg@[i], bound),
        lines_ok(old(ws)@, old(lines)@, bound),
        keys_below(old(ws)@),
        atoms_below(old(ws)@),
    ensures
        final(ws).wf(),
        (final(ws)@, final(lines)@) == close_line(old(ws)@, old(lines)@, seg@, k, bound),
        scrub_inv(ws0, final(ws)@, bound),
        final(ws)@.next_id + old(lines)@.len() == old(ws)@.next_id + final(lines)@.len(),
        lines_ok(final(ws)@, final(lines)@, bound),
        keys_below(final(ws)@),
        atoms_below(final(ws)@),
{
    if seg.len() == 0 {
        return;
    }
    let ghost w0 = ws@;
    let cleaned = process_sequence(ws, seg, k, Ghost(0), Ghost(bound));
    let ghost w1 = ws@;
    assert(scrub_inv(ws0, w1, bound));
    proof {
        assert(keys_below(w1)) by {
            assert forall|c: i32| #[trigger] w1.containers.contains_key(c) implies c < w1.next_id by {
                assert(w0.containers.contains_key(c));
            }
        }
        assert forall|k2: int| 0 <= k2 < lines@.len() implies {
            &&& bound <= (#[trigger] lines@[k2]).id < w1.next_id
            &&& w1.atoms.contains_key(lines@[k2].id)
            &&& w1.atoms[lines@[k2].id] == AtomV::Container(lines@[k2].id)
            &&& w1.containers.contains_key(lines@[k2].id)
            &&& forall|q: int| 0 <= q < w1.containers[lines@[k2].id].contents.len()
                ==> nested_entity(w1, 0, #[trigger] w1.containers[lines@[k2].id].contents[q], bound)
        } by {
            let lid = lines@[k2].id;
            assert(w0.containers.contains_key(lid));
            assert(w1.containers[lid] == w0.containers[lid]);
            assert forall|q: int| 0 <= q < w1.containers[lid].contents.len()
                implies nested_entity(w1, 0, #[trigger] w1.containers[lid].contents[q], bound) by {
                let e = w1.containers[lid].contents[q];
                assert(e == w0.containers[lid].contents[q]);
                assert(nested_entity(w0, 0, e, bound));
                lemma_frame_child(w0, w1, e);
            }
        }
    }
    if cleaned.len() == 0 {
        return;
    }
    let ghost lines0 = lines@;
    let line_id = maybe_promote_line(ws, cleaned, Ghost(bound));
    let line_entity = Entity { id: line_id, offset: 0 };
    lines.push(line_entity);
    proof {
        let w2 = ws@;
        assert forall|k2: int| 0 <= k2 < lines@.len() implies {
            &&& bound <= (#[trigger] lines@[k2]).id < w2.next_id
            &&& w2.atoms.contains_key(lines@[k2].id)
            &&& w2.atoms[lines@[k2].id] == AtomV::Container(lines@[k2].id)
            &&& w2.containers.contains_key(lines@[k2].id)
            &&& forall|q: int| 0 <= q < w2.containers[lines@[k2].id].contents.len()
                ==> nested_entity(w2, 0, #[trigger] w2.containers[lines@[k2].id].contents[q], bound)
        } by {
            let lid = lines@[k2].id;
            if k2 < lines0.len() {
                assert(lines@[k2] == lines0[k2]);
                assert(lid != line_id);
                assert(w2.containers[lid] == w1.containers[lid]);
                assert forall|q: int| 0 <= q < w2.containers[lid].contents.len()
                    implies nested_entity(w2, 0, #[trigger] w2.containers[lid].contents[q], bound) by {
                    let e = w2.containers[lid].contents[q];
                    assert(e == w1.containers[lid].contents[q]);
                    assert(nested_entity(w1, 0, e, bound));
                    if w1.atoms.contains_key(e.id) && w1.atoms[e.id] is Container {
                        assert(w1.atoms[e.id]->Container_0 < w1.next_id);
                    }
                }
            }
        }
        assert forall|a: int, b: int| 0 <= a < b < lines@.len() implies #[trigger] lines@[a].id < #[trigger] lines@[b].id by {
            if b == lines@.len() - 1 {
                assert(lines@[a] == lines0[a]);
            } else {
                assert(lines@[a] == lines0[a] && lines@[b] == lines0[b]);
            }
        }
        assert forall|c: i32| #[trigger] w2.containers.contains_key(c) implies c < w2.next_id by {
            if c != line_id {
                assert(w1.containers.contains_key(c));
            }
        }
        assert forall|x: i32| #[trigger] w2.atoms.contains_key(x) implies x < w2.next_id by {
            if x != line_id {
                assert(w1.atoms.contains_key(x));
            }
        }
        assert forall|c3: i32, q: int|
            w2.containers.contains_key(c3) && 0 < c3 < bound && 0 <= q < w2.containers[c3].contents.len()
            implies nested_entity(w2, c3 as int, #[trigger] w2.containers[c3].contents[q], bound) by {
            let e = w2.containers[c3].contents[q];
            assert(w1.containers.contains_key(c3));
            assert(w2.containers[c3] == w1.containers[c3]);
            assert(nested_entity(w1, c3 as int, e, bound));
            if w1.atoms.contains_key(e.id) && w1.atoms[e.id] is Container {
                assert(w1.atoms[e.id]->Container_0 < w1.next_id);
            }
        }
        assert forall|x: i32| #[trigger] w2.atoms.contains_key(x) && w2.atoms[x] is Container implies w2.atoms[x]->Container_0 < w2.next_id by {
            if x != line_id {
                assert(w1.atoms.contains_key(x));
            }
        }
    }
}

/// The janitor: splits the root into lines at line breaks and semicolons, scrubs each
/// line (coercing inner breaks to commas, trimming stray commas, collapsing containers
/// that only wrap another container) and replaces the root's contents by the lines.
pub fn scrub(ws: &mut Workspace)
    requires
        old(ws).wf(),
        janitor_ready(old(ws)@),
    ensures
        final(ws).wf(),
        final(ws)@ == spec_scrub(old(ws)@),
        final(ws)@.next_id >= old(ws)@.next_id,
        ready_with(final(ws)@, old(ws)@.next_id as int),
        lines_flat(final(ws)@),
{
    let ghost ws0 = ws@;
    let nl = string_from_chars(&vec!['\n']);
    let semi = string_from_chars(&vec![';']);
    let comma = string_from_chars(&vec![',']);
    let newline_id = match ws.intern_map.get(nl.as_str()) { Some(v) => v, None => -1 };
    let semicolon_id = match ws.intern_map.get(semi.as_str()) { Some(v) => v, None => -1 };
    let comma_id = match ws.intern_map.get(comma.as_str()) { Some(v) => v, None => -1 };
    let k = SeqIds { comma: comma_id, newline: newline_id, semicolon: semicolon_id };
    assert(nl@ =~= seq!['\n']);
    assert(semi@ =~= seq![';']);
    assert(comma@ =~= seq![',']);
    assert(k == spec_seq_ids(ws0));
    let root = match ws.container(0) {
        Some(r) => r,
        None => {
            proof {
                assert(ready_with(ws@, ws0.next_id as int));
            }
            return;
        },
    };
    let root_contents = root.contents;
    let ghost bound = ws0.next_id as int;
    let ghost rc = root_contents@;
    let mut lines: Vec<Entity> = Vec::new();
    let mut seg: Vec<Entity> = Vec::new();
    let mut i: usize = 0;
    while i < root_contents.len()
        invariant
            ws.wf(),
            rc == root_contents@,
            rc == ws0.containers[0].contents,
            ws0.containers.contains_key(0),
            i <= rc.len(),
            (ws@, lines@, seg@) == split(ws0, rc, k, bound, i as int),
            scrub_inv(ws0, ws@, bound),
            bound == ws0.next_id,
            0 < bound,
            ws@.next_id <= bound + lines@.len(),
            lines@.len() <= i,
            bound + rc.len() < i32::MAX,
            comma_plain(ws0, k),
            k.comma < bound,
            root_nested(ws0, bound),
            forall|q: int| 0 <= q < seg@.len() ==> nested_entity(ws@, 0, #[trigger] seg@[q], bound),
            lines_ok(ws@, lines@, bound),
            keys_below(ws@),
            atoms_below(ws@),
        decreases rc.len() - i,
    {
        let e = root_contents[i];
        if e.id == k.newline || e.id == k.semicolon {
            let s = seg;
            seg = Vec::new();
            close_line_exec(ws, &mut lines, s, k, Ghost(ws0), Ghost(bound));
            assert(seg@ =~= Seq::<Entity>::empty());
        } else {
            proof {
                assert(nested_entity(ws0, 0, rc[i as int], bound));
                lemma_child_stable(ws0, ws@, bound, e);
            }
            seg.push(e);
        }
        i = i + 1;
    }
    close_line_exec(ws, &mut lines, seg, k, Ghost(ws0), Ghost(bound));
    let ghost w1 = ws@;
    let ghost ls = lines@;
    let r = ws.container(0).unwrap();
    let mut r2 = r;
    r2.contents = lines;
    ws.set_container(0, r2);
    proof {
        let w2 = ws@;
        assert(w2.containers.dom() =~= w1.containers.dom());
        assert forall|x: Entity| child_of(w2, x) == child_of(w1, x) by {
        }
        assert forall|cid: i32, q: int|
            #![trigger w2.containers[cid].contents[q]]
            w2.containers.contains_key(cid) && 0 < cid < bound && 0 <= q < w2.containers[cid].contents.len()
                implies nested_entity(w2, cid as int, w2.containers[cid].contents[q], bound) by {
            assert(w2.containers[cid] == w1.containers[cid]);
            assert(nested_entity(w1, cid as int, w1.containers[cid].contents[q], bound));
        }
        assert(w2.containers[0].contents == ls);
        assert forall|a: int| 0 <= a < ls.len() implies line_ok(w2, #[trigger] ls[a], bound) by {
            let lid = ls[a].id;
            assert(lid != 0);
            assert(w2.containers[lid] == w1.containers[lid]);
            assert(child_of(w2, ls[a]) == Some(lid));
            assert forall|q: int| 0 <= q < contents_of(w2, lid).len()
                implies nested_entity(w2, 0, #[trigger] contents_of(w2, lid)[q], bound) by {
                assert(contents_of(w2, lid)[q] == w1.containers[lid].contents[q]);
                assert(nested_entity(w1, 0, w1.containers[lid].contents[q], bound));
            }
        }
        assert forall|a: int| 0 <= a < w2.containers[0].contents.len()
            implies (child_of(w2, #[trigger] w2.containers[0].contents[a]) matches Some(lid)
                ==> contents_flat(w2, contents_of(w2, lid))) by {
            let lid = ls[a].id;
            assert(w2.containers[0].contents[a] == ls[a]);
            assert(w2.containers[lid] == w1.containers[lid]);
            assert(child_of(w2, ls[a]) == Some(lid));
            assert(contents_flat(w1, w1.containers[lid].contents));
            if w1.containers[lid].contents.len() == 1 {
                assert(child_of(w2, w1.containers[lid].contents[0]) == child_of(w1, w1.containers[lid].contents[0]));
            }
        }
        assert forall|a: int, b: int| 0 <= a < ls.len() && 0 <= b < ls.len() && a != b implies #[trigger] ls[a].id != #[trigger] ls[b].id by {
            if a < b {
                assert(ls[a].id < ls[b].id);
            } else {
                assert(ls[b].id < ls[a].id);
            }
        }
        assert forall|c: i32| #[trigger] w2.containers.contains_key(c) implies c < w2.next_id by {
            assert(w1.containers.contains_key(c));
        }
    }
}

/// A `StraySequence` diagnostic for a comma at `offset`.
fn stray_exec(offset: u32) -> (d: Diagnostic)
    ensures
        d == stray(offset),
{
    let end = if offset < u32::MAX { offset + 1 } else { 0 };
    Diagnostic {
        code: DiagnosticCode::StraySequence,
        span: Span {
            start: Position { offset: offset, line: 0, col: 0 },
            end: Position { offset: end, line: 0, col: 0 },
        },
    }
}


// ---------------------------------------------------------------------------
// What scrubbing makes of a sequence.
// ---------------------------------------------------------------------------

/// A scrubbed sequence: no line break or semicolon, no comma at either end, and no two
/// commas in a row.
pub open spec fn clean_seq(r: Seq<Entity>, k: SeqIds) -> bool {
    &&& forall|i: int| 0 <= i < r.len() ==> !is_break(#[trigger] r[i], k)
    &&& r.len() > 0 ==> r[0].id != k.comma && r.last().id != k.comma
    &&& forall|i: int| 0 <= i < r.len() - 1 ==> !((#[trigger] r[i]).id == k.comma && r[i + 1].id == k.comma)
}

/// Stuttering removal keeps only entities it was given, never starts with a comma,
/// never keeps two commas in a row, and remembers whether it ended on a comma.
proof fn lemma_stutter(ws: WorkspaceV, es: Seq<Entity>, k: SeqIds, n: int)
    requires
        0 <= n <= es.len(),
        forall|i: int| 0 <= i < es.len() ==> !is_break(#[trigger] es[i], k),
    ensures
        ({
            let (w, kept, last_seq) = stutter(ws, es, k.comma, n);
            &&& w.atoms == ws.atoms
            &&& forall|i: int| 0 <= i < kept.len() ==> !is_break(#[trigger] kept[i], k)
            &&& kept.len() > 0 ==> kept[0].id != k.comma
            &&& forall|i: int| 0 <= i < kept.len() - 1 ==> !((#[trigger] kept[i]).id == k.comma && kept[i + 1].id == k.comma)
            &&& last_seq == (kept.len() == 0 || kept.last().id == k.comma)
        }),
    decreases n,
{
    if n > 0 {
        lemma_stutter(ws, es, k, n - 1);
        let (w1, kept, last_seq) = stutter(ws, es, k.comma, n - 1);
        let e = es[n - 1];
        let (w2, kept2, l2) = stutter(ws, es, k.comma, n);
        assert forall|i: int| 0 <= i < kept2.len() - 1 implies !((#[trigger] kept2[i]).id == k.comma && kept2[i + 1].id == k.comma) by {
            if i < kept.len() - 1 {
                assert(kept2[i] == kept[i] && kept2[i + 1] == kept[i + 1]);
            } else if kept2.len() > kept.len() {
                assert(kept2[i] == kept[i]);
            }
        }
        assert forall|i: int| 0 <= i < kept2.len() implies !is_break(#[trigger] kept2[i], k) by {
            if i < kept.len() {
                assert(kept2[i] == kept[i]);
            }
        }
    }
}

/// Trimming after stuttering removal leaves a clean sequence.
proof fn lemma_trim_clean(ws: WorkspaceV, es: Seq<Entity>, k: SeqIds)
    requires
        forall|i: int| 0 <= i < es.len() ==> !is_break(#[trigger] es[i], k),
    ensures
        clean_seq(trim(ws, es, k.comma).1, k),
        trim(ws, es, k.comma).0.atoms == ws.atoms,
{
    lemma_stutter(ws, es, k, es.len() as int);
    let (w1, kept, _) = stutter(ws, es, k.comma, es.len() as int);
    if kept.len() > 0 && kept.last().id == k.comma {
        let r = kept.drop_last();
        if r.len() > 0 {
            assert(!(kept[r.len() - 1].id == k.comma && kept[r.len() as int].id == k.comma));
            assert(r.last() == kept[r.len() - 1]);
        }
        assert forall|i: int| 0 <= i < r.len() - 1 implies !((#[trigger] r[i]).id == k.comma && r[i + 1].id == k.comma) by {
            assert(r[i] == kept[i] && r[i + 1] == kept[i + 1]);
        }
        assert forall|i: int| 0 <= i < r.len() implies !is_break(#[trigger] r[i], k) by {
            assert(r[i] == kept[i]);
        }
    }
}

/// Rebuilding keeps the atoms, and what it produces holds no line break or semicolon
/// except entities that name containers.
proof fn lemma_rebuild_breaks(ws: WorkspaceV, es: Seq<Entity>, k: SeqIds, lower: int, bound: int, n: int)
    requires
        k.comma != k.newline,
        k.comma != k.semicolon,
    ensures
        rebuild(ws, es, k, lower, bound, n).0.atoms == ws.atoms,
        forall|i: int| 0 <= i < rebuild(ws, es, k, lower, bound, n).1.len()
            ==> is_break(#[trigger] rebuild(ws, es, k, lower, bound, n).1[i], k)
            ==> ws.atoms.contains_key(rebuild(ws, es, k, lower, bound, n).1[i].id)
                && ws.atoms[rebuild(ws, es, k, lower, bound, n).1[i].id] is Container,
    decreases bound - lower, n, 0int,
{
    if n > 0 && n <= es.len() {
        lemma_rebuild_breaks(ws, es, k, lower, bound, n - 1);
        let (ws1, acc) = rebuild(ws, es, k, lower, bound, n - 1);
        let e = es[n - 1];
        let (ws_n, acc_n) = rebuild(ws, es, k, lower, bound, n);
        if ws1.atoms.contains_key(e.id) && ws1.atoms[e.id] is Container {
            let cid = ws1.atoms[e.id]->Container_0;
            if ws1.containers.contains_key(cid) && lower < cid < bound {
                let inner = ws1.containers[cid].contents;
                lemma_process_atoms(ws1, inner, k, cid as int, bound);
                let (ws2, cleaned) = process(ws1, inner, k, cid as int, bound);
                lemma_unwrap_atoms(ws2, cid, cleaned, cid as int, bound);
            }
        }
        assert forall|i: int| 0 <= i < acc_n.len() && is_break(#[trigger] acc_n[i], k)
            implies ws.atoms.contains_key(acc_n[i].id) && ws.atoms[acc_n[i].id] is Container by {
            if i < acc.len() {
                assert(acc_n[i] == acc[i]);
            }
        }
    }
}

/// Scrubbing a sequence keeps the atoms.
proof fn lemma_process_atoms(ws: WorkspaceV, es: Seq<Entity>, k: SeqIds, lower: int, bound: int)
    ensures
        process(ws, es, k, lower, bound).0.atoms == ws.atoms,
    decreases bound - lower, es.len(), 1int,
{
    lemma_rebuild_atoms(ws, es, k, lower, bound, es.len() as int);
    let (ws1, rebuilt) = rebuild(ws, es, k, lower, bound, es.len() as int);
    lemma_stutter_atoms(ws1, rebuilt, k.comma, rebuilt.len() as int);
}

/// Rebuilding keeps the atoms.
proof fn lemma_rebuild_atoms(ws: WorkspaceV, es: Seq<Entity>, k: SeqIds, lower: int, bound: int, n: int)
    ensures
        rebuild(ws, es, k, lower, bound, n).0.atoms == ws.atoms,
    decreases bound - lower, n, 0int,
{
    if n > 0 && n <= es.len() {
        lemma_rebuild_atoms(ws, es, k, lower, bound, n - 1);
        let (ws1, acc) = rebuild(ws, es, k, lower, bound, n - 1);
        let e = es[n - 1];
        if ws1.atoms.contains_key(e.id) && ws1.atoms[e.id] is Container {
            let cid = ws1.atoms[e.id]->Container_0;
            if ws1.containers.contains_key(cid) && lower < cid < bound {
                let inner = ws1.containers[cid].contents;
                lemma_process_atoms(ws1, inner, k, cid as int, bound);
                let (ws2, cleaned) = process(ws1, inner, k, cid as int, bound);
                lemma_unwrap_atoms(ws2, cid, cleaned, cid as int, bound);
            }
        }
    }
}

/// Collapsing keeps the atoms.
proof fn lemma_unwrap_atoms(ws: WorkspaceV, cid: i32, cur: Seq<Entity>, lower: int, bound: int)
    ensures
        unwrap(ws, cid, cur, lower, bound).0.atoms == ws.atoms,
    decreases bound - lower,
{
    if cur.len() == 1 && child_of(ws, cur[0]) is Some {
        let icid = child_of(ws, cur[0])->Some_0;
        if lower < icid < bound {
            let ic = ws.containers[icid];
            lemma_unwrap_atoms(or_corrupted(ws, cid, ic.corrupted), cid, ic.contents, icid as int, bound);
        }
    }
}

/// Stuttering removal keeps the atoms.
proof fn lemma_stutter_atoms(ws: WorkspaceV, es: Seq<Entity>, comma: i32, n: int)
    ensures
        stutter(ws, es, comma, n).0.atoms == ws.atoms,
    decreases n,
{
    if n > 0 && n <= es.len() {
        lemma_stutter_atoms(ws, es, comma, n - 1);
    }
}

/// What the janitor makes of a sequence holds no line break or semicolon (inside a
/// line they become commas), no comma at either end, and no two commas in a row; the
/// comma, line break and semicolon being distinct operators, not containers.
pub proof fn lemma_process_clean(ws: WorkspaceV, es: Seq<Entity>, k: SeqIds, lower: int, bound: int)
    requires
        k.comma != k.newline,
        k.comma != k.semicolon,
        !(ws.atoms.contains_key(k.newline) && ws.atoms[k.newline] is Container),
        !(ws.atoms.contains_key(k.semicolon) && ws.atoms[k.semicolon] is Container),
    ensures
        clean_seq(process(ws, es, k, lower, bound).1, k),
{
    lemma_rebuild_breaks(ws, es, k, lower, bound, es.len() as int);
    let (ws1, rebuilt) = rebuild(ws, es, k, lower, bound, es.len() as int);
    assert forall|i: int| 0 <= i < rebuilt.len() implies !is_break(#[trigger] rebuilt[i], k) by {
        if is_break(rebuilt[i], k) {
            assert(ws.atoms.contains_key(rebuilt[i].id) && ws.atoms[rebuilt[i].id] is Container);
        }
    }
    lemma_trim_clean(ws1, rebuilt, k);
}

// ---------------------------------------------------------------------------
// Offsets stay inside the buffer.
// ---------------------------------------------------------------------------

/// Dropping stutters keeps the containers and only keeps offsets within `end`.
proof fn lemma_stutter_offs(ws: WorkspaceV, es: Seq<Entity>, comma: i32, n: int, end: int)
    requires
        offs_le(es, end),
    ensures
        stutter(ws, es, comma, n).0.containers == ws.containers,
        offs_le(stutter(ws, es, comma, n).1, end),
    decreases n,
{
    if n > 0 && n <= es.len() {
        lemma_stutter_offs(ws, es, comma, n - 1, end);
        let (ws1, kept, last_seq) = stutter(ws, es, comma, n - 1);
        lemma_offs_push(kept, es[n - 1], end);
    }
}

/// Trimming keeps the containers and only keeps offsets within `end`.
proof fn lemma_trim_offs(ws: WorkspaceV, es: Seq<Entity>, comma: i32, end: int)
    requires
        offs_le(es, end),
    ensures
        trim(ws, es, comma).0.containers == ws.containers,
        offs_le(trim(ws, es, comma).1, end),
{
    lemma_stutter_offs(ws, es, comma, es.len() as int, end);
    let (ws1, kept, _) = stutter(ws, es, comma, es.len() as int);
    if kept.len() > 0 {
        assert forall|i: int| 0 <= i < kept.drop_last().len() implies #[trigger] kept.drop_last()[i].offset <= end by {
            assert(kept.drop_last()[i] == kept[i]);
        }
    }
}

/// Replacing a container's contents with offsets within `end` keeps every offset within `end`.
proof fn lemma_set_contents_offs(ws: WorkspaceV, cid: i32, es: Seq<Entity>, end: int)
    requires
        offsets_within(ws, end),
        offs_le(es, end),
    ensures
        offsets_within(set_contents(ws, cid, es), end),
{
    let w = set_contents(ws, cid, es);
    assert forall|c: i32, i: int|
        #![trigger w.containers[c].contents[i]]
        w.containers.contains_key(c) && 0 <= i < w.containers[c].contents.len()
            implies w.containers[c].contents[i].offset <= end by {
        if c != cid {
            assert(w.containers[c] == ws.containers[c]);
        }
    }
}

/// The contents of a container lie within `end`.
proof fn lemma_contents_offs(ws: WorkspaceV, cid: i32, end: int)
    requires
        offsets_within(ws, end),
        ws.containers.contains_key(cid),
    ensures
        offs_le(ws.containers[cid].contents, end),
{
    assert forall|i: int| 0 <= i < ws.containers[cid].contents.len()
        implies #[trigger] ws.containers[cid].contents[i].offset <= end by {
    }
}

/// Collapsing keeps every offset within `end`.
proof fn lemma_unwrap_offs(ws: WorkspaceV, cid: i32, cur: Seq<Entity>, lower: int, bound: int, end: int)
    requires
        offsets_within(ws, end),
        offs_le(cur, end),
    ensures
        offsets_within(unwrap(ws, cid, cur, lower, bound).0, end),
        offs_le(unwrap(ws, cid, cur, lower, bound).1, end),
    decreases bound - lower,
{
    if cur.len() == 1 && child_of(ws, cur[0]) is Some {
        let icid = child_of(ws, cur[0])->Some_0;
        if lower < icid < bound {
            let ic = ws.containers[icid];
            let w = or_corrupted(ws, cid, ic.corrupted);
            assert forall|c: i32, i: int|
                #![trigger w.containers[c].contents[i]]
                w.containers.contains_key(c) && 0 <= i < w.containers[c].contents.len()
                    implies w.containers[c].contents[i].offset <= end by {
                assert(w.containers[c].contents == ws.containers[c].contents);
            }
            lemma_contents_offs(ws, icid, end);
            lemma_unwrap_offs(w, cid, ic.contents, icid as int, bound, end);
        }
    }
}

/// Rebuilding keeps every offset within `end`.
proof fn lemma_rebuild_offs(ws: WorkspaceV, es: Seq<Entity>, k: SeqIds, lower: int, bound: int, n: int, end: int)
    requires
        offsets_within(ws, end),
        offs_le(es, end),
    ensures
        offsets_within(rebuild(ws, es, k, lower, bound, n).0, end),
        offs_le(rebuild(ws, es, k, lower, bound, n).1, end),
    decreases bound - lower, n, 0int,
{
    if n > 0 && n <= es.len() {
        lemma_rebuild_offs(ws, es, k, lower, bound, n - 1, end);
        let (ws1, acc) = rebuild(ws, es, k, lower, bound, n - 1);
        let e = es[n - 1];
        assert(e.offset <= end);
        lemma_offs_push(acc, e, end);
        lemma_offs_push(acc, Entity { id: k.comma, offset: e.offset }, end);
        if ws1.atoms.contains_key(e.id) && ws1.atoms[e.id] is Container {
            let cid = ws1.atoms[e.id]->Container_0;
            if ws1.containers.contains_key(cid) && lower < cid < bound {
                let inner = ws1.containers[cid].contents;
                lemma_contents_offs(ws1, cid, end);
                lemma_process_offs(ws1, inner, k, cid as int, bound, end);
                let (ws2, cleaned) = process(ws1, inner, k, cid as int, bound);
                lemma_unwrap_offs(ws2, cid, cleaned, cid as int, bound, end);
                let (ws3, fin) = unwrap(ws2, cid, cleaned, cid as int, bound);
                lemma_set_contents_offs(ws3, cid, fin, end);
            }
        }
    }
}

/// Scrubbing a sequence keeps every offset within `end`.
proof fn lemma_process_offs(ws: WorkspaceV, es: Seq<Entity>, k: SeqIds, lower: int, bound: int, end: int)
    requires
        offsets_within(ws, end),
        offs_le(es, end),
    ensures
        offsets_within(process(ws, es, k, lower, bound).0, end),
        offs_le(process(ws, es, k, lower, bound).1, end),
    decreases bound - lower, es.len(), 1int,
{
    lemma_rebuild_offs(ws, es, k, lower, bound, es.len() as int, end);
    let (ws1, rebuilt) = rebuild(ws, es, k, lower, bound, es.len() as int);
    lemma_trim_offs(ws1, rebuilt, k.comma, end);
}

/// Making a line keeps every offset within `end`.
proof fn lemma_promote_offs(ws: WorkspaceV, cur: Seq<Entity>, corrupted: bool, lower: int, bound: int, end: int)
    requires
        offsets_within(ws, end),
        offs_le(cur, end),
    ensures
        offsets_within(promote(ws, cur, corrupted, lower, bound).0, end),
    decreases bound - lower,
{
    if cur.len() == 1 && child_of(ws, cur[0]) is Some && lower < child_of(ws, cur[0])->Some_0 < bound {
        let icid = child_of(ws, cur[0])->Some_0;
        let ic = ws.containers[icid];
        lemma_contents_offs(ws, icid, end);
        lemma_promote_offs(ws, ic.contents, corrupted || ic.corrupted, icid as int, bound, end);
    } else {
        let w = promote(ws, cur, corrupted, lower, bound).0;
        let id = ws.next_id as i32;
        assert forall|c: i32, i: int|
            #![trigger w.containers[c].contents[i]]
            w.containers.contains_key(c) && 0 <= i < w.containers[c].contents.len()
                implies w.containers[c].contents[i].offset <= end by {
            if c != id {
                assert(w.containers[c] == ws.containers[c]);
            }
        }
    }
}

/// Closing a line keeps every offset within `end`.
proof fn lemma_close_line_offs(ws: WorkspaceV, lines: Seq<Entity>, seg: Seq<Entity>, k: SeqIds, bound: int, end: int)
    requires
        offsets_within(ws, end),
        offs_le(lines, end),
        offs_le(seg, end),
        0 <= end,
    ensures
        offsets_within(close_line(ws, lines, seg, k, bound).0, end),
        offs_le(close_line(ws, lines, seg, k, bound).1, end),
{
    if seg.len() > 0 {
        lemma_process_offs(ws, seg, k, 0, bound, end);
        let (ws1, cleaned) = process(ws, seg, k, 0, bound);
        if cleaned.len() > 0 {
            lemma_promote_offs(ws1, cleaned, false, 0, bound, end);
            let (ws2, line_id) = promote(ws1, cleaned, false, 0, bound);
            lemma_offs_push(lines, Entity { id: line_id, offset: 0 }, end);
        }
    }
}

/// Splitting the root keeps every offset within `end`.
proof fn lemma_split_offs(ws: WorkspaceV, root: Seq<Entity>, k: SeqIds, bound: int, n: int, end: int)
    requires
        offsets_within(ws, end),
        offs_le(root, end),
        0 <= end,
    ensures
        offsets_within(split(ws, root, k, bound, n).0, end),
        offs_le(split(ws, root, k, bound, n).1, end),
        offs_le(split(ws, root, k, bound, n).2, end),
    decreases n,
{
    if n > 0 && n <= root.len() {
        lemma_split_offs(ws, root, k, bound, n - 1, end);
        let (ws1, lines, seg) = split(ws, root, k, bound, n - 1);
        let e = root[n - 1];
        assert(e.offset <= end);
        if is_break(e, k) {
            lemma_close_line_offs(ws1, lines, seg, k, bound, end);
        } else {
            lemma_offs_push(seg, e, end);
        }
    }
}

/// The janitor keeps every entity offset within `end`.
pub proof fn lemma_scrub_offsets(ws: WorkspaceV, end: int)
    requires
        offsets_within(ws, end),
        0 <= end,
    ensures
        offsets_within(spec_scrub(ws), end),
{
    if ws.containers.contains_key(0) {
        let k = spec_seq_ids(ws);
        let root = ws.containers[0].contents;
        let bound = ws.next_id as int;
        lemma_contents_offs(ws, 0, end);
        lemma_split_offs(ws, root, k, bound, root.len() as int, end);
        let (ws1, lines, seg) = split(ws, root, k, bound, root.len() as int);
        lemma_close_line_offs(ws1, lines, seg, k, bound, end);
        let (ws2, lines2) = close_line(ws1, lines, seg, k, bound);
        lemma_set_contents_offs(ws2, 0, lines2, end);
    }
}

} // verus!
