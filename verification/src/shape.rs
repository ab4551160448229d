//! The shape of a workspace that every stage of the pipeline keeps: ids below the
//! counter, containers that only refer to containers opened after them, and entity
//! offsets inside the buffer.

use vstd::prelude::*;
use crate::builtins::punct_ops;
use crate::model::{atoms_below, nested_entity, AtomV, Entity, WorkspaceV};
use crate::text::byte_len;

verus! {

/// Ids and nesting: the root exists, container ids and atom ids are below the counter,
/// a container atom names a positive id below the counter, interned ids are below the
/// counter, and every container only refers to containers with larger ids.
pub open spec fn ws_shape(ws: WorkspaceV) -> bool {
    &&& ws.containers.contains_key(0)
    &&& 1 <= ws.next_id
    &&& forall|c: i32| #[trigger] ws.containers.contains_key(c) ==> 0 <= c < ws.next_id
    &&& atoms_below(ws)
    &&& forall|x: i32| #[trigger] ws.atoms.contains_key(x) && ws.atoms[x] is Container
        ==> 0 < ws.atoms[x]->Container_0 < ws.next_id
    &&& forall|s: Seq<char>| #[trigger] ws.intern.contains_key(s) ==> ws.intern[s] < ws.next_id
    &&& forall|c: i32, i: int|
        #![trigger ws.containers[c].contents[i]]
        ws.containers.contains_key(c) && 0 <= i < ws.containers[c].contents.len()
            ==> nested_entity(ws, c as int, ws.containers[c].contents[i], ws.next_id)
}

/// Every entity's offset is at most `end`.
pub open spec fn offsets_within(ws: WorkspaceV, end: int) -> bool {
    forall|c: i32, i: int|
        #![trigger ws.containers[c].contents[i]]
        ws.containers.contains_key(c) && 0 <= i < ws.containers[c].contents.len()
            ==> ws.containers[c].contents[i].offset <= end
}

/// Every entity of `es` has an offset of at most `end`.
pub open spec fn offs_le(es: Seq<Entity>, end: int) -> bool {
    forall|i: int| 0 <= i < es.len() ==> #[trigger] es[i].offset <= end
}

/// Every occurrence of a raw symbol ends at or before byte `end`.
pub open spec fn raw_fits(ws: WorkspaceV, end: int) -> bool {
    forall|c: i32, i: int|
        #![trigger ws.containers[c].contents[i]]
        ws.containers.contains_key(c) && 0 <= i < ws.containers[c].contents.len()
            && ws.atoms.contains_key(ws.containers[c].contents[i].id)
            && ws.atoms[ws.containers[c].contents[i].id] is Raw
            ==> ws.containers[c].contents[i].offset + byte_len(ws.atoms[ws.containers[c].contents[i].id]->Raw_0) <= end
}

/// Interned ids name atoms that are not containers; a raw one is its own name.
pub open spec fn interned_plain(ws: WorkspaceV) -> bool {
    forall|s: Seq<char>| #[trigger] ws.intern.contains_key(s) ==> {
        &&& ws.atoms.contains_key(ws.intern[s])
        &&& !(ws.atoms[ws.intern[s]] is Container)
        &&& ws.atoms[ws.intern[s]] is Raw ==> ws.atoms[ws.intern[s]] == AtomV::Raw(s)
    }
}

/// Distinct names are interned at distinct ids.
pub open spec fn intern_injective(ws: WorkspaceV) -> bool {
    forall|s: Seq<char>, t: Seq<char>| #[trigger] ws.intern.contains_key(s) && #[trigger] ws.intern.contains_key(t) && s != t
        ==> ws.intern[s] != ws.intern[t]
}

/// Every raw atom is interned under its own name.
pub open spec fn raw_interned(ws: WorkspaceV) -> bool {
    forall|x: i32| #[trigger] ws.atoms.contains_key(x) && ws.atoms[x] is Raw
        ==> ws.intern.contains_key(ws.atoms[x]->Raw_0) && ws.intern[ws.atoms[x]->Raw_0] == x
}

/// Every punctuation operator is interned as an operator atom.
pub open spec fn ops_interned(ws: WorkspaceV) -> bool {
    forall|k: int| 0 <= k < punct_ops().len() ==> {
        &&& #[trigger] ws.intern.contains_key(punct_ops()[k])
        &&& ws.atoms.contains_key(ws.intern[punct_ops()[k]])
        &&& ws.atoms[ws.intern[punct_ops()[k]]] is Operator
    }
}

/// Appending an entity within `end` keeps every offset within `end`.
pub proof fn lemma_offs_push(es: Seq<Entity>, e: Entity, end: int)
    requires
        offs_le(es, end),
        e.offset <= end,
    ensures
        offs_le(es.push(e), end),
{
    assert forall|i: int| 0 <= i < es.push(e).len() implies #[trigger] es.push(e)[i].offset <= end by {
        if i < es.len() {
            assert(es.push(e)[i] == es[i]);
        }
    }
}

} // verus!
