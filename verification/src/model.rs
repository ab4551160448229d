//! The unified workspace: atoms, containers, interning, positions and diagnostics.

use vstd::prelude::*;
use crate::maps::{IdMap, StrMap};
use crate::engine::{edit_out, edits_match, fend_values_equal};
use vstd::std_specs::cmp::PartialEqSpecImpl;
use crate::text::{byte_index, chars_before, chars_of, char_utf8_len, line_col, utf8_len, lemma_chars_before_exact,
    lemma_byte_index_mono, lemma_line_col_bound};

verus! {

/// A place in the text buffer: byte offset, line and column (both from 0).
#[derive(Debug, Clone, Copy, PartialEq, Eq, Structural)]
pub struct Position {
    pub offset: u32,
    pub line: u32,
    pub col: u32,
}

impl Default for Position {
    fn default() -> (p: Self)
        ensures
            p == (Position { offset: 0, line: 0, col: 0 }),
    {
        Position { offset: 0, line: 0, col: 0 }
    }
}

/// A stretch of the text buffer.
#[derive(Debug, Clone, Copy, PartialEq, Eq, Structural)]
pub struct Span {
    pub start: Position,
    pub end: Position,
}

/// What a diagnostic reports.
#[derive(Debug, Clone, Copy, PartialEq, Eq, Structural)]
pub enum DiagnosticCode {
    StrayCloser,
    UnclosedContainer,
    IllegalCharacter,
    StraySequence,
    MalformedSymbol,
    MalformedExpression,
    /// A variable assigned again (reported under `ReassignmentBehavior::Warn` and `Error`).
    Reassignment,
    /// An assignment to one of the pre-seeded constants.
    ConstantReassignment,
}

/// An error or warning attached to a span of the buffer.
#[derive(Debug, Clone, Copy, PartialEq, Eq, Structural)]
pub struct Diagnostic {
    pub code: DiagnosticCode,
    pub span: Span,
}

/// A replacement of a span of the buffer by new text.
/// `value` holds the computed result behind a fill, as fend printed it.
#[derive(Debug)]
pub struct TextEdit {
    pub span: Span,
    pub new_text: String,
    pub value: Option<String>,
}

impl PartialEq for TextEdit {
    /// The same span and text, and either no values or values that fend reads as equal.
    fn eq(&self, other: &Self) -> (r: bool) {
        if self.span != other.span || self.new_text != other.new_text {
            return false;
        }
        match (&self.value, &other.value) {
            (Some(a), Some(b)) => fend_values_equal(a, b),
            (None, None) => true,
            _ => false,
        }
    }
}

impl PartialEqSpecImpl for TextEdit {
    /// Two values are compared by fend, whose reply is not claimed, so `==` on edits is
    /// not claimed to follow `eq_spec`.
    open spec fn obeys_eq_spec() -> bool {
        false
    }

    open spec fn eq_spec(&self, other: &TextEdit) -> bool {
        edits_match(edit_out(*self), edit_out(*other))
    }
}

impl TextEdit {
    /// A copy of this edit.
    pub fn duplicate(&self) -> (r: TextEdit)
        ensures
            r.span == self.span,
            r.new_text@ == self.new_text@,
            r.value == self.value,
    {
        TextEdit { span: self.span, new_text: self.new_text.clone(), value: self.value.clone() }
    }
}

/// Diagnostics and edits produced by evaluating a workspace.
#[derive(Debug)]
pub struct EngineResult {
    pub diagnostics: Vec<Diagnostic>,
    pub edits: Vec<TextEdit>,
}

impl Default for EngineResult {
    fn default() -> (r: Self)
        ensures
            r.diagnostics@.len() == 0,
            r.edits@.len() == 0,
    {
        EngineResult { diagnostics: Vec::new(), edits: Vec::new() }
    }
}

/// Operators that map directly to fend's lexer symbols.
#[derive(Debug, Clone, Copy, PartialEq, Eq, Structural)]
pub enum FendOp {
    Add,
    Sub,
    Mul,
    Div,
    Mod,
    Pow,
    BitwiseAnd,
    BitwiseOr,
    BitwiseXor,
    To,
    Factorial,
    Of,
    ShiftLeft,
    ShiftRight,
    Equals,
    DoubleEquals,
    NotEquals,
    Fn,
    Backslash,
    Dot,
    Semicolon,
    Combination,
    Permutation,
    OpenParens,
    CloseParens,
}

/// Every operator the engine knows.
#[derive(Debug, Clone, Copy, PartialEq, Eq, Structural)]
pub enum OpCode {
    /// Direct mapping to fend's lexer symbols.
    Fend(FendOp),
    Greater,
    Less,
    GreaterEqual,
    LessEqual,
    AddAssign,
    SubAssign,
    MulAssign,
    DivAssign,
    /// Argument separator.
    Comma,
    /// Newline or explicit line break.
    Sequence,
    /// Internal instruction calling.
    Call,
}

impl OpCode {
    /// Whether the operator separates statements: a line break or `;`.
    pub fn is_sequence(&self) -> (b: bool)
        ensures
            b == (*self == OpCode::Sequence || *self == OpCode::Fend(FendOp::Semicolon)),
    {
        match self {
            OpCode::Sequence => true,
            OpCode::Fend(FendOp::Semicolon) => true,
            _ => false,
        }
    }
}

/// One occurrence of an id inside a container, with the byte offset it came from.
#[derive(Debug, Clone, Copy, PartialEq, Eq, Structural)]
pub struct Entity {
    /// The key into the workspace's atoms.
    pub id: i32,
    /// Where the entity originated in the text buffer.
    pub offset: u32,
}

/// The meaning of an id.
#[derive(Debug)]
pub enum Atom {
    /// An unclassified alphanumeric monolith (e.g. "5kg", "x").
    Raw(String),
    /// Points to a key of the workspace's containers.
    Container(i32),
    Operator(OpCode),
    Function(String),
    Constant(String),
    /// A numeric literal, held as the text fend reads it from.
    Value(String),
    /// A named variable binding.
    Variable(String),
    /// Marks a symbol whose typization failed.
    Poison,
    VectorRef(i32),
    /// An instruction of an unrolled tape.
    Instruction { op: OpCode, args: Vec<i32> },
}

/// The mathematical meaning of an atom.
pub enum AtomV {
    Raw(Seq<char>),
    Container(i32),
    Operator(OpCode),
    Function(Seq<char>),
    Constant(Seq<char>),
    Value(Seq<char>),
    Variable(Seq<char>),
    Poison,
    VectorRef(i32),
    Instruction { op: OpCode, args: Seq<i32> },
}

/// Whether two atoms, not both values, are the same. (Two values are the same when fend
/// reads them as equal; see `Atom::same_as`.)
pub open spec fn atoms_match(a: AtomV, b: AtomV) -> bool {
    a == b
}

impl View for Atom {
    type V = AtomV;

    open spec fn view(&self) -> AtomV {
        match self {
            Atom::Raw(s) => AtomV::Raw(s@),
            Atom::Container(c) => AtomV::Container(*c),
            Atom::Operator(o) => AtomV::Operator(*o),
            Atom::Function(s) => AtomV::Function(s@),
            Atom::Constant(s) => AtomV::Constant(s@),
            Atom::Value(s) => AtomV::Value(s@),
            Atom::Variable(s) => AtomV::Variable(s@),
            Atom::Poison => AtomV::Poison,
            Atom::VectorRef(v) => AtomV::VectorRef(*v),
            Atom::Instruction { op, args } => AtomV::Instruction { op: *op, args: args@ },
        }
    }
}

impl Atom {
    /// A copy of this atom.
    pub fn duplicate(&self) -> (r: Atom)
        ensures
            r@ == self@,
    {
        match self {
            Atom::Raw(s) => Atom::Raw(s.clone()),
            Atom::Container(c) => Atom::Container(*c),
            Atom::Operator(o) => Atom::Operator(*o),
            Atom::Function(s) => Atom::Function(s.clone()),
            Atom::Constant(s) => Atom::Constant(s.clone()),
            Atom::Value(s) => Atom::Value(s.clone()),
            Atom::Variable(s) => Atom::Variable(s.clone()),
            Atom::Poison => Atom::Poison,
            Atom::VectorRef(v) => Atom::VectorRef(*v),
            Atom::Instruction { op, args } => {
                let mut a: Vec<i32> = Vec::new();
                let mut i: usize = 0;
                while i < args.len()
                    invariant
                        i <= args@.len(),
                        a@ == args@.take(i as int),
                    decreases args@.len() - i,
                {
                    a.push(args[i]);
                    i = i + 1;
                    assert(a@ =~= args@.take(i as int));
                }
                assert(a@ =~= args@);
                Atom::Instruction { op: *op, args: a }
            },
        }
    }

    /// Whether two atoms mean the same thing: values are compared by fend (whose reply is
    /// not claimed), everything else by its fields.
    pub fn same_as(&self, other: &Atom) -> (b: bool)
        ensures
            !(self@ is Value && other@ is Value) ==> b == atoms_match(self@, other@),
    {
        match (self, other) {
            (Atom::Raw(a), Atom::Raw(b)) => *a == *b,
            (Atom::Container(a), Atom::Container(b)) => *a == *b,
            (Atom::Operator(a), Atom::Operator(b)) => *a == *b,
            (Atom::Function(a), Atom::Function(b)) => *a == *b,
            (Atom::Constant(a), Atom::Constant(b)) => *a == *b,
            (Atom::Value(a), Atom::Value(b)) => fend_values_equal(a, b),
            (Atom::Variable(a), Atom::Variable(b)) => *a == *b,
            (Atom::Poison, Atom::Poison) => true,
            (Atom::VectorRef(a), Atom::VectorRef(b)) => *a == *b,
            (Atom::Instruction { op: o1, args: a1 }, Atom::Instruction { op: o2, args: a2 }) => {
                if *o1 != *o2 {
                    assert(self@->op != other@->op);
                    return false;
                }
                if a1.len() != a2.len() {
                    assert(self@->args.len() != other@->args.len());
                    return false;
                }
                let mut i: usize = 0;
                while i < a1.len()
                    invariant
                        i <= a1@.len(),
                        a1@.len() == a2@.len(),
                        a1@.take(i as int) == a2@.take(i as int),
                        self@ == (AtomV::Instruction { op: *o1, args: a1@ }),
                        other@ == (AtomV::Instruction { op: *o2, args: a2@ }),
                    decreases a1@.len() - i,
                {
                    if a1[i] != a2[i] {
                        assert(self@->args[i as int] != other@->args[i as int]);
                        return false;
                    }
                    i = i + 1;
                    assert(a1@.take(i as int) =~= a1@.take(i - 1).push(a1@[i - 1]));
                    assert(a2@.take(i as int) =~= a2@.take(i - 1).push(a2@[i - 1]));
                }
                assert(a1@ =~= a1@.take(i as int));
                assert(a2@ =~= a2@.take(i as int));
                true
            },
            _ => false,
        }
    }
}

/// A flat list of entities: a parenthesised group, a line, or a tape.
#[derive(Debug)]
pub struct Container {
    pub contents: Vec<Entity>,
    /// Whether this container was unclosed or fatally malformed.
    pub corrupted: bool,
    /// Where the container starts (e.g. its `(`).
    pub start_pos: Position,
}

/// The mathematical meaning of a container.
pub struct ContainerV {
    pub contents: Seq<Entity>,
    pub corrupted: bool,
    pub start_pos: Position,
}

impl View for Container {
    type V = ContainerV;

    open spec fn view(&self) -> ContainerV {
        ContainerV { contents: self.contents@, corrupted: self.corrupted, start_pos: self.start_pos }
    }
}

impl Default for Container {
    fn default() -> (c: Self)
        ensures
            c@ == (ContainerV {
                contents: Seq::empty(),
                corrupted: false,
                start_pos: Position { offset: 0, line: 0, col: 0 },
            }),
    {
        let c = Container {
            contents: Vec::new(),
            corrupted: false,
            start_pos: Position { offset: 0, line: 0, col: 0 },
        };
        assert(c@.contents =~= Seq::<Entity>::empty());
        c
    }
}

/// A copy of a list of entities.
pub fn copy_entities(v: &Vec<Entity>) -> (r: Vec<Entity>)
    ensures
        r@ == v@,
{
    let mut r: Vec<Entity> = Vec::new();
    let mut i: usize = 0;
    while i < v.len()
        invariant
            i <= v@.len(),
            r@ == v@.take(i as int),
        decreases v@.len() - i,
    {
        r.push(v[i]);
        i = i + 1;
        assert(r@ =~= v@.take(i as int));
    }
    assert(r@ =~= v@);
    r
}

impl Container {
    /// A copy of this container.
    pub fn duplicate(&self) -> (r: Container)
        ensures
            r@ == self@,
    {
        Container {
            contents: copy_entities(&self.contents),
            corrupted: self.corrupted,
            start_pos: self.start_pos,
        }
    }
}

/// The mathematical meaning of a workspace.
pub struct WorkspaceV {
    pub next_id: int,
    pub atoms: Map<i32, AtomV>,
    pub intern: Map<Seq<char>, i32>,
    pub containers: Map<i32, ContainerV>,
    /// The container ids in the order in which they are walked.
    pub container_order: Seq<i32>,
    pub comments: Seq<Span>,
    pub diagnostics: Seq<Diagnostic>,
}

/// The whole state of the pipeline: ids, their meanings, and the buffer's topology.
pub struct Workspace {
    /// The counter for minting new ids.
    pub next_id: i32,
    /// What each id means.
    pub atoms: IdMap<Atom>,
    /// Which id each interned string has.
    pub intern_map: StrMap,
    /// The topology of the buffer.
    pub containers: IdMap<Container>,
    pub comments: Vec<Span>,
    pub diagnostics: Vec<Diagnostic>,
}

impl Default for Workspace {
    /// A workspace with no atoms, no containers and ids starting at 1.
    fn default() -> (ws: Self)
        ensures
            ws.wf(),
            ws@.next_id == 1,
            ws@.atoms == Map::<i32, AtomV>::empty(),
            ws@.intern == Map::<Seq<char>, i32>::empty(),
            ws@.containers == Map::<i32, ContainerV>::empty(),
            ws@.container_order == Seq::<i32>::empty(),
            ws@.comments == Seq::<Span>::empty(),
            ws@.diagnostics == Seq::<Diagnostic>::empty(),
    {
        Workspace::new()
    }
}

impl View for Workspace {
    type V = WorkspaceV;

    open spec fn view(&self) -> WorkspaceV {
        WorkspaceV {
            next_id: self.next_id as int,
            atoms: self.atoms.map().map_values(|a: Atom| a@),
            intern: self.intern_map.map(),
            containers: self.containers.map().map_values(|c: Container| c@),
            container_order: self.containers.key_seq(),
            comments: self.comments@,
            diagnostics: self.diagnostics@,
        }
    }
}

/// The result of interning `sym` as a raw atom into `ws`: the id and the new workspace.
pub open spec fn spec_intern(ws: WorkspaceV, sym: Seq<char>) -> (i32, WorkspaceV) {
    if ws.intern.contains_key(sym) {
        (ws.intern[sym], ws)
    } else {
        (ws.next_id as i32, WorkspaceV {
            next_id: ws.next_id + 1,
            intern: ws.intern.insert(sym, ws.next_id as i32),
            atoms: ws.atoms.insert(ws.next_id as i32, AtomV::Raw(sym)),
            ..ws
        })
    }
}


/// Interning is idempotent: interning a symbol a second time gives the same id and
/// leaves the workspace as the first time left it; the id means the symbol (as a raw
/// atom) when the symbol was new.
pub proof fn lemma_intern_idempotent(ws: WorkspaceV, sym: Seq<char>)
    ensures
        spec_intern(spec_intern(ws, sym).1, sym) == spec_intern(ws, sym),
        !ws.intern.contains_key(sym) ==> spec_intern(ws, sym).1.atoms[spec_intern(ws, sym).0] == AtomV::Raw(sym),
        spec_intern(ws, sym).1.intern[sym] == spec_intern(ws, sym).0,
{
}

/// Interning two symbols in turn gives the same id exactly when they are the same
/// symbol, where the interned ids are distinct and below the counter; and interning
/// keeps that so.
pub proof fn lemma_intern_distinct(ws: WorkspaceV, s1: Seq<char>, s2: Seq<char>)
    requires
        forall|a: Seq<char>, b: Seq<char>| #[trigger] ws.intern.contains_key(a) && #[trigger] ws.intern.contains_key(b) && a != b
            ==> ws.intern[a] != ws.intern[b],
        forall|a: Seq<char>| #[trigger] ws.intern.contains_key(a) ==> ws.intern[a] < ws.next_id,
        0 <= ws.next_id,
        ws.next_id + 1 < i32::MAX,
    ensures
        ({
            let (r1, w1) = spec_intern(ws, s1);
            let (r2, w2) = spec_intern(w1, s2);
            &&& (r1 == r2) == (s1 == s2)
            &&& s1 == s2 ==> w2 == w1
            &&& forall|a: Seq<char>, b: Seq<char>| #[trigger] w2.intern.contains_key(a) && #[trigger] w2.intern.contains_key(b) && a != b
                ==> w2.intern[a] != w2.intern[b]
        }),
{
    let w1 = spec_intern(ws, s1).1;
    let w2 = spec_intern(w1, s2).1;
    assert forall|a: Seq<char>| #[trigger] w1.intern.contains_key(a) implies w1.intern[a] < w1.next_id by {
        if a != s1 || ws.intern.contains_key(s1) {
            if ws.intern.contains_key(a) {
                assert(ws.intern[a] < ws.next_id);
            }
        }
    }
    assert forall|a: Seq<char>, b: Seq<char>| #[trigger] w1.intern.contains_key(a) && #[trigger] w1.intern.contains_key(b) && a != b
        implies w1.intern[a] != w1.intern[b] by {
        if !ws.intern.contains_key(s1) {
            if a == s1 && ws.intern.contains_key(b) {
                assert(ws.intern[b] < ws.next_id);
            }
            if b == s1 && ws.intern.contains_key(a) {
                assert(ws.intern[a] < ws.next_id);
            }
        }
    }
    assert forall|a: Seq<char>, b: Seq<char>| #[trigger] w2.intern.contains_key(a) && #[trigger] w2.intern.contains_key(b) && a != b
        implies w2.intern[a] != w2.intern[b] by {
        if !w1.intern.contains_key(s2) {
            if a == s2 && w1.intern.contains_key(b) {
                assert(w1.intern[b] < w1.next_id);
            }
            if b == s2 && w1.intern.contains_key(a) {
                assert(w1.intern[a] < w1.next_id);
            }
        }
    }
    if ws.intern.contains_key(s1) && !ws.intern.contains_key(s2) {
        assert(ws.intern[s1] < ws.next_id);
    }
    if !ws.intern.contains_key(s1) && s1 != s2 && ws.intern.contains_key(s2) {
        assert(ws.intern[s2] < ws.next_id);
    }
    lemma_intern_idempotent(ws, s1);
}

/// An atom that carries no name always gets a fresh id: the counter, which then moves
/// on; the names interned stay as they were. So two such atoms interned in turn get
/// different ids.
pub proof fn lemma_intern_typed_fresh(ws: WorkspaceV, a: AtomV, b: AtomV)
    requires
        named(a) is None,
        named(b) is None,
        0 <= ws.next_id,
        ws.next_id + 1 < i32::MAX,
    ensures
        spec_intern_typed(ws, a).0 == ws.next_id,
        spec_intern_typed(ws, a).1 == (WorkspaceV { next_id: ws.next_id + 1, atoms: ws.atoms.insert(ws.next_id as i32, a), ..ws }),
        spec_intern_typed(spec_intern_typed(ws, a).1, b).0 == ws.next_id + 1,
{
}

/// The name an atom carries when it is a raw symbol, variable, constant or function.
pub open spec fn named(a: AtomV) -> Option<Seq<char>> {
    match a {
        AtomV::Raw(s) => Some(s),
        AtomV::Variable(s) => Some(s),
        AtomV::Constant(s) => Some(s),
        AtomV::Function(s) => Some(s),
        _ => None,
    }
}

/// The result of interning a typed atom into `ws`: named atoms reuse (and retype) the id
/// of their name, other atoms always get a fresh id.
pub open spec fn spec_intern_typed(ws: WorkspaceV, a: AtomV) -> (i32, WorkspaceV) {
    match named(a) {
        Some(s) => if ws.intern.contains_key(s) {
            (ws.intern[s], WorkspaceV { atoms: ws.atoms.insert(ws.intern[s], a), ..ws })
        } else {
            (ws.next_id as i32, WorkspaceV {
                next_id: ws.next_id + 1,
                intern: ws.intern.insert(s, ws.next_id as i32),
                atoms: ws.atoms.insert(ws.next_id as i32, a),
                ..ws
            })
        },
        None => (ws.next_id as i32, WorkspaceV {
            next_id: ws.next_id + 1,
            atoms: ws.atoms.insert(ws.next_id as i32, a),
            ..ws
        }),
    }
}

/// The container that entity `e` refers to, when its atom is a container that exists.
pub open spec fn child_of(ws: WorkspaceV, e: Entity) -> Option<i32> {
    if ws.atoms.contains_key(e.id) && ws.atoms[e.id] is Container
        && ws.containers.contains_key(ws.atoms[e.id]->Container_0) {
        Some(ws.atoms[e.id]->Container_0)
    } else {
        None
    }
}

/// Entity `e`, found inside container `parent`, respects the nesting order below `lim`:
/// its id is below `lim`, and a container it refers to has an id between `parent` and `lim`.
pub open spec fn nested_entity(ws: WorkspaceV, parent: int, e: Entity, lim: int) -> bool {
    &&& e.id < lim
    &&& child_of(ws, e) matches Some(c) ==> parent < c < lim
}

/// Every container with an id in `1..lim` only refers to containers with larger ids
/// (still below `lim`): nesting follows the order in which containers were opened.
pub open spec fn nested_below(ws: WorkspaceV, lim: int) -> bool {
    forall|cid: i32, i: int|
        #![trigger ws.containers[cid].contents[i]]
        ws.containers.contains_key(cid) && 0 < cid < lim && 0 <= i < ws.containers[cid].contents.len()
            ==> nested_entity(ws, cid as int, ws.containers[cid].contents[i], lim)
}

/// The root's entities respect the nesting order below `lim`.
pub open spec fn root_nested(ws: WorkspaceV, lim: int) -> bool {
    ws.containers.contains_key(0) ==> forall|i: int|
        0 <= i < ws.containers[0].contents.len() ==> nested_entity(ws, 0, #[trigger] ws.containers[0].contents[i], lim)
}

/// What the janitor keeps of a workspace: everything but container contents,
/// corrupted flags and (appended) diagnostics.
pub open spec fn same_frame(a: WorkspaceV, b: WorkspaceV) -> bool {
    &&& b.next_id == a.next_id
    &&& b.atoms == a.atoms
    &&& b.intern == a.intern
    &&& b.containers.dom() == a.containers.dom()
    &&& b.container_order == a.container_order
    &&& b.comments == a.comments
    &&& forall|c: i32| #[trigger] b.containers.contains_key(c) ==> b.containers[c].start_pos == a.containers[c].start_pos
}

/// Every container atom refers to an id below the id counter.
pub open spec fn container_atoms_below(ws: WorkspaceV) -> bool {
    forall|x: i32| #[trigger] ws.atoms.contains_key(x) && ws.atoms[x] is Container ==> ws.atoms[x]->Container_0 < ws.next_id
}

/// Every atom's id is below the id counter.
pub open spec fn atoms_below(ws: WorkspaceV) -> bool {
    forall|x: i32| #[trigger] ws.atoms.contains_key(x) ==> x < ws.next_id
}

/// Every container id is below the id counter.
pub open spec fn keys_below(ws: WorkspaceV) -> bool {
    forall|cid: i32| #[trigger] ws.containers.contains_key(cid) ==> cid < ws.next_id
}

/// The position of byte `offset` in `text`: line and column after the characters
/// that start before it.
pub open spec fn spec_position(text: Seq<char>, offset: u32) -> Position {
    let lc = line_col(text.take(chars_before(text, offset as int) as int));
    Position { offset, line: lc.0 as u32, col: lc.1 as u32 }
}

impl Workspace {
    /// Well-formedness of the tables.
    pub open spec fn wf(&self) -> bool {
        &&& self.atoms.wf()
        &&& self.intern_map.wf()
        &&& self.containers.wf()
    }

    /// A workspace with no atoms, no containers and ids starting at 1.
    pub fn new() -> (ws: Workspace)
        ensures
            ws.wf(),
            ws@.next_id == 1,
            ws@.atoms == Map::<i32, AtomV>::empty(),
            ws@.intern == Map::<Seq<char>, i32>::empty(),
            ws@.containers == Map::<i32, ContainerV>::empty(),
            ws@.container_order == Seq::<i32>::empty(),
            ws@.comments == Seq::<Span>::empty(),
            ws@.diagnostics == Seq::<Diagnostic>::empty(),
    {
        let ws = Workspace {
            next_id: 1,
            atoms: IdMap::new(),
            intern_map: StrMap::new(),
            containers: IdMap::new(),
            comments: Vec::new(),
            diagnostics: Vec::new(),
        };
        assert(ws@.atoms =~= Map::<i32, AtomV>::empty());
        assert(ws@.containers =~= Map::<i32, ContainerV>::empty());
        assert(ws@.container_order =~= Seq::<i32>::empty());
        ws
    }

    /// Stores `a` under `id`.
    pub fn set_atom(&mut self, id: i32, a: Atom)
        requires
            old(self).wf(),
        ensures
            final(self).wf(),
            final(self)@ == (WorkspaceV { atoms: old(self)@.atoms.insert(id, a@), ..old(self)@ }),
    {
        self.atoms.insert(id, a);
        proof {
            assert(self@.atoms =~= old(self)@.atoms.insert(id, a@));
        }
    }

    /// Stores `c` under `id`.
    pub fn set_container(&mut self, id: i32, c: Container)
        requires
            old(self).wf(),
        ensures
            final(self).wf(),
            final(self)@ == (WorkspaceV {
                containers: old(self)@.containers.insert(id, c@),
                container_order: if old(self)@.containers.contains_key(id) {
                    old(self)@.container_order
                } else {
                    old(self)@.container_order.push(id)
                },
                ..old(self)@
            }),
    {
        self.containers.insert(id, c);
        proof {
            assert(self@.containers =~= old(self)@.containers.insert(id, c@));
        }
    }

    /// A copy of the meaning of `id`, if it has one.
    pub fn atom(&self, id: i32) -> (r: Option<Atom>)
        requires
            self.wf(),
        ensures
            match r {
                Some(a) => self@.atoms.contains_key(id) && a@ == self@.atoms[id],
                None => !self@.atoms.contains_key(id),
            },
    {
        match self.atoms.get(id) {
            Some(a) => Some(a.duplicate()),
            None => None,
        }
    }

    /// A copy of the container `id`, if it exists.
    pub fn container(&self, id: i32) -> (r: Option<Container>)
        requires
            self.wf(),
        ensures
            match r {
                Some(c) => self@.containers.contains_key(id) && c@ == self@.containers[id],
                None => !self@.containers.contains_key(id),
            },
    {
        match self.containers.get(id) {
            Some(c) => Some(c.duplicate()),
            None => None,
        }
    }

    /// Mints a fresh id.
    pub fn mint_id(&mut self) -> (id: i32)
        requires
            old(self).next_id < i32::MAX,
        ensures
            id == old(self).next_id,
            final(self)@ == (WorkspaceV { next_id: old(self).next_id + 1, ..old(self)@ }),
            final(self).atoms == old(self).atoms,
            final(self).containers == old(self).containers,
            final(self).intern_map == old(self).intern_map,
    {
        let id = self.next_id;
        self.next_id = self.next_id + 1;
        id
    }

    /// The id of `sym`, interning it as a raw atom when it is new.
    pub fn get_or_intern_atom(&mut self, sym: &str) -> (id: i32)
        requires
            old(self).wf(),
            old(self).next_id < i32::MAX,
        ensures
            final(self).wf(),
            (id, final(self)@) == spec_intern(old(self)@, sym@),
    {
        if let Some(id) = self.intern_map.get(sym) {
            return id;
        }
        let id = self.next_id;
        self.next_id = self.next_id + 1;
        self.intern_map.insert(sym, id);
        self.set_atom(id, Atom::Raw(sym.to_string()));
        id
    }

    /// The id of a typed atom: a named atom takes (and retypes) its name's id,
    /// minting one when the name is new; any other atom gets a fresh id.
    pub fn get_or_intern_atom_typed(&mut self, sym: Atom) -> (id: i32)
        requires
            old(self).wf(),
            old(self).next_id < i32::MAX,
        ensures
            final(self).wf(),
            (id, final(self)@) == spec_intern_typed(old(self)@, sym@),
    {
        let name: Option<String> = match &sym {
            Atom::Raw(s) => Some(s.clone()),
            Atom::Variable(s) => Some(s.clone()),
            Atom::Constant(s) => Some(s.clone()),
            Atom::Function(s) => Some(s.clone()),
            _ => None,
        };
        match name {
            Some(s) => {
                if let Some(id) = self.intern_map.get(s.as_str()) {
                    self.set_atom(id, sym);
                    return id;
                }
                let id = self.next_id;
                self.next_id = self.next_id + 1;
                self.intern_map.insert(s.as_str(), id);
                self.set_atom(id, sym);
                id
            },
            None => {
                let id = self.next_id;
                self.next_id = self.next_id + 1;
                self.set_atom(id, sym);
                id
            },
        }
    }

    /// The line and column of byte `offset` in `text`.
    pub fn get_position(&self, offset: u32, text: &str) -> (p: Position)
        requires
            text@.len() <= u32::MAX,
        ensures
            p == spec_position(text@, offset),
    {
        let chars = chars_of(text);
        let ghost s = text@;
        let mut line: u32 = 0;
        let mut col: u32 = 0;
        let mut i: usize = 0;
        let mut byte: u64 = 0;
        while i < chars.len() && byte < offset as u64
            invariant
                i <= s.len(),
                chars@ == s,
                s.len() <= u32::MAX,
                byte == byte_index(s, i as int),
                byte <= 4 * i,
                (line as int, col as int) == line_col(s.take(i as int)),
                forall|j: int| 0 <= j < i ==> byte_index(s, j) < offset,
            decreases s.len() - i,
        {
            let c = chars[i];
            proof {
                lemma_line_col_bound(s.take(i as int));
                assert(s.take(i + 1).drop_last() =~= s.take(i as int));
            }
            if c == '\n' {
                line = line + 1;
                col = 0;
            } else {
                col = col + 1;
            }
            byte = byte + char_utf8_len(c) as u64;
            i = i + 1;
        }
        proof {
            lemma_chars_before_exact(s, offset as int, i as int);
        }
        Position { offset, line, col }
    }
}

} // verus!
