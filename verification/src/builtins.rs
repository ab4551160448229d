//! Built-in operators, functions and the reserved id ranges.

use vstd::prelude::*;
use crate::maps::StrMap;
use crate::model::{FendOp, OpCode};
use crate::text::chars_of;

verus! {

/// Built-in functions take ids from here downwards.
pub const FUNCTIONS_START_ID: i32 = -10_000;
/// Built-in constants take ids from here downwards.
pub const CONSTANTS_START_ID: i32 = -20_000;

/// The operators made of punctuation, longest first where one is a prefix of another.
pub open spec fn punct_ops() -> Seq<Seq<char>> {
    seq![
        seq!['+', '='], seq!['-', '='], seq!['*', '='], seq!['/', '='], seq!['>', '='],
        seq!['<', '='], seq!['=', '='], seq!['!', '='], seq!['>', '>'], seq!['<', '<'],
        seq!['+'], seq!['-'], seq!['*'], seq!['/'], seq!['='], seq!['^'], seq![','],
        seq![';'], seq!['\n'], seq!['>'], seq!['<'],
    ]
}

/// The operators made of letters.
pub open spec fn alnum_ops() -> Seq<Seq<char>> {
    seq![seq!['t', 'o']]
}

/// The built-in functions.
pub open spec fn builtin_functions() -> Seq<Seq<char>> {
    seq![
        seq!['s', 'i', 'n'], seq!['c', 'o', 's'], seq!['t', 'a', 'n'], seq!['l', 'o', 'g'],
        seq!['s', 'q', 'r', 't'],
    ]
}

/// Characters that may not appear in the buffer outside comments.
pub open spec fn spec_is_illegal(c: char) -> bool {
    c == '~' || c == '`' || c == '@' || c == '[' || c == ']' || c == '{' || c == '}' || c
        == '\\' || c == '|'
}

/// Whether `c` is an illegal character.
pub fn is_illegal_char(c: char) -> (b: bool)
    ensures
        b == spec_is_illegal(c),
{
    c == '~' || c == '`' || c == '@' || c == '[' || c == ']' || c == '{' || c == '}' || c == '\\'
        || c == '|'
}

/// The operator that the string `s` denotes, if any.
pub open spec fn spec_get_operator(s: Seq<char>) -> Option<OpCode> {
    if s == seq!['+'] {
        Some(OpCode::Fend(FendOp::Add))
    } else if s == seq!['-'] {
        Some(OpCode::Fend(FendOp::Sub))
    } else if s == seq!['*'] {
        Some(OpCode::Fend(FendOp::Mul))
    } else if s == seq!['/'] {
        Some(OpCode::Fend(FendOp::Div))
    } else if s == seq!['^'] {
        Some(OpCode::Fend(FendOp::Pow))
    } else if s == seq!['='] {
        Some(OpCode::Fend(FendOp::Equals))
    } else if s == seq!['=', '='] {
        Some(OpCode::Fend(FendOp::DoubleEquals))
    } else if s == seq!['!', '='] {
        Some(OpCode::Fend(FendOp::NotEquals))
    } else if s == seq!['>', '>'] {
        Some(OpCode::Fend(FendOp::ShiftRight))
    } else if s == seq!['<', '<'] {
        Some(OpCode::Fend(FendOp::ShiftLeft))
    } else if s == seq!['t', 'o'] {
        Some(OpCode::Fend(FendOp::To))
    } else if s == seq![';'] {
        Some(OpCode::Fend(FendOp::Semicolon))
    } else if s == seq!['\n'] {
        Some(OpCode::Sequence)
    } else if s == seq![','] {
        Some(OpCode::Comma)
    } else if s == seq!['>'] {
        Some(OpCode::Greater)
    } else if s == seq!['<'] {
        Some(OpCode::Less)
    } else if s == seq!['>', '='] {
        Some(OpCode::GreaterEqual)
    } else if s == seq!['<', '='] {
        Some(OpCode::LessEqual)
    } else if s == seq!['+', '='] {
        Some(OpCode::AddAssign)
    } else if s == seq!['-', '='] {
        Some(OpCode::SubAssign)
    } else if s == seq!['*', '='] {
        Some(OpCode::MulAssign)
    } else if s == seq!['/', '='] {
        Some(OpCode::DivAssign)
    } else {
        None
    }
}

/// The operator that the characters `s` denote, if any.
pub fn operator_of_chars(s: &Vec<char>) -> (r: Option<OpCode>)
    ensures
        r == spec_get_operator(s@),
{
    if s.len() == 1 {
        let c = s[0];
        assert(s@ =~= seq![c]);
        if c == '+' {
            Some(OpCode::Fend(FendOp::Add))
        } else if c == '-' {
            Some(OpCode::Fend(FendOp::Sub))
        } else if c == '*' {
            Some(OpCode::Fend(FendOp::Mul))
        } else if c == '/' {
            Some(OpCode::Fend(FendOp::Div))
        } else if c == '^' {
            Some(OpCode::Fend(FendOp::Pow))
        } else if c == '=' {
            Some(OpCode::Fend(FendOp::Equals))
        } else if c == ';' {
            Some(OpCode::Fend(FendOp::Semicolon))
        } else if c == '\n' {
            Some(OpCode::Sequence)
        } else if c == ',' {
            Some(OpCode::Comma)
        } else if c == '>' {
            Some(OpCode::Greater)
        } else if c == '<' {
            Some(OpCode::Less)
        } else {
            None
        }
    } else if s.len() == 2 {
        let a = s[0];
        let b = s[1];
        assert(s@ =~= seq![a, b]);
        if a == '=' && b == '=' {
            Some(OpCode::Fend(FendOp::DoubleEquals))
        } else if a == '!' && b == '=' {
            Some(OpCode::Fend(FendOp::NotEquals))
        } else if a == '>' && b == '>' {
            Some(OpCode::Fend(FendOp::ShiftRight))
        } else if a == '<' && b == '<' {
            Some(OpCode::Fend(FendOp::ShiftLeft))
        } else if a == 't' && b == 'o' {
            Some(OpCode::Fend(FendOp::To))
        } else if a == '>' && b == '=' {
            Some(OpCode::GreaterEqual)
        } else if a == '<' && b == '=' {
            Some(OpCode::LessEqual)
        } else if a == '+' && b == '=' {
            Some(OpCode::AddAssign)
        } else if a == '-' && b == '=' {
            Some(OpCode::SubAssign)
        } else if a == '*' && b == '=' {
            Some(OpCode::MulAssign)
        } else if a == '/' && b == '=' {
            Some(OpCode::DivAssign)
        } else {
            None
        }
    } else {
        None
    }
}

/// The operator that `s` denotes, if any.
pub fn get_operator(s: &str) -> (r: Option<OpCode>)
    ensures
        r == spec_get_operator(s@),
{
    let chars = chars_of(s);
    operator_of_chars(&chars)
}

/// Appends `c` to `s` with `String::push`; the contract claims what its documentation
/// says: the string afterwards is the old one followed by `c`.
#[verifier::external_body]
pub(crate) fn string_push(s: &mut String, c: char)
    ensures
        final(s)@ == old(s)@.push(c),
{
    s.push(c);
}

/// The string made of the characters `v`.
pub fn string_from_chars(v: &Vec<char>) -> (s: String)
    ensures
        s@ == v@,
{
    let mut s = String::new();
    let mut i: usize = 0;
    while i < v.len()
        invariant
            i <= v@.len(),
            s@ == v@.take(i as int),
        decreases v@.len() - i,
    {
        string_push(&mut s, v[i]);
        i = i + 1;
        assert(s@ =~= v@.take(i as int));
    }
    assert(v@ =~= v@.take(i as int));
    s
}

/// The punctuation operators, as character vectors in table order.
pub fn punct_op_table() -> (t: Vec<Vec<char>>)
    ensures
        t@.len() == punct_ops().len(),
        forall|i: int| 0 <= i < t@.len() ==> #[trigger] t@[i]@ == punct_ops()[i],
{
    let t = vec![
        vec!['+', '='], vec!['-', '='], vec!['*', '='], vec!['/', '='], vec!['>', '='],
        vec!['<', '='], vec!['=', '='], vec!['!', '='], vec!['>', '>'], vec!['<', '<'],
        vec!['+'], vec!['-'], vec!['*'], vec!['/'], vec!['='], vec!['^'], vec![','],
        vec![';'], vec!['\n'], vec!['>'], vec!['<'],
    ];
    assert forall|i: int| 0 <= i < t@.len() implies #[trigger] t@[i]@ == punct_ops()[i] by {
        assert(t@[i]@ =~= punct_ops()[i]);
    }
    t
}

/// The id that the symbol map gives the `i`-th punctuation operator.
pub open spec fn punct_id(i: int) -> i32 {
    (-1 - i) as i32
}

/// The symbol map: each punctuation operator from -1 downwards, then the
/// letter operators, and the built-in functions from `FUNCTIONS_START_ID` downwards.
pub open spec fn spec_symbol_map() -> Map<Seq<char>, i32> {
    Map::new(
        |s: Seq<char>| punct_ops().contains(s) || alnum_ops().contains(s) || builtin_functions().contains(s),
        |s: Seq<char>|
            if punct_ops().contains(s) {
                punct_id(punct_ops().index_of(s))
            } else if alnum_ops().contains(s) {
                punct_id(punct_ops().len() + alnum_ops().index_of(s))
            } else {
                (FUNCTIONS_START_ID - builtin_functions().index_of(s)) as i32
            },
    )
}

/// The built-in symbols with their ids, in the order in which the map is built:
/// punctuation operators, letter operators, functions.
pub open spec fn spec_symbol_entries() -> Seq<(Seq<char>, i32)> {
    Seq::new(punct_ops().len(), |j: int| (punct_ops()[j], punct_id(j)))
        + seq![(seq!['t', 'o'], punct_id(punct_ops().len() as int))]
        + Seq::new(builtin_functions().len(), |j: int| (builtin_functions()[j], (FUNCTIONS_START_ID - j) as i32))
}

/// Builds the symbol map of the built-in operators and functions.
pub fn generate_symbol_map() -> (m: StrMap)
    ensures
        m.wf(),
        m.map() == spec_symbol_map(),
        m.entries() == spec_symbol_entries(),
{
    let mut m = StrMap::new();
    let table = punct_op_table();
    let mut i: usize = 0;
    while i < table.len()
        invariant
            m.wf(),
            i <= table@.len(),
            table@.len() == punct_ops().len(),
            forall|j: int| 0 <= j < table@.len() ==> #[trigger] table@[j]@ == punct_ops()[j],
            m.map() == Map::new(
                |s: Seq<char>| punct_ops().take(i as int).contains(s),
                |s: Seq<char>| punct_id(punct_ops().index_of(s)),
            ),
            m.entries() == Seq::new(i as nat, |j: int| (punct_ops()[j], punct_id(j))),
        decreases table@.len() - i,
    {
        proof {
            lemma_punct_ops_distinct();
            if punct_ops().take(i as int).contains(punct_ops()[i as int]) {
                let j = choose|j: int| 0 <= j < i && #[trigger] punct_ops().take(i as int)[j] == punct_ops()[i as int];
                assert(punct_ops()[j] == punct_ops()[i as int]);
            }
        }
        let s = string_from_chars(&table[i]);
        m.insert(s.as_str(), -1 - i as i32);
        assert(m.entries() =~= Seq::new((i + 1) as nat, |j: int| (punct_ops()[j], punct_id(j))));
        proof {
            lemma_punct_ops_distinct();
            lemma_index_of_unique(punct_ops(), i as int);
            assert(m.map() =~= Map::new(
                |s: Seq<char>| punct_ops().take(i + 1).contains(s),
                |s: Seq<char>| punct_id(punct_ops().index_of(s)),
            )) by {
                let pre = punct_ops().take(i as int);
                let post = punct_ops().take(i + 1);
                assert forall|s: Seq<char>| post.contains(s) <==> (pre.contains(s) || s == punct_ops()[i as int]) by {
                    if post.contains(s) {
                        let k = choose|k: int| 0 <= k < post.len() && #[trigger] post[k] == s;
                        if k < i {
                            assert(pre[k] == s);
                        }
                    }
                    if pre.contains(s) {
                        let k = choose|k: int| 0 <= k < pre.len() && #[trigger] pre[k] == s;
                        assert(post[k] == s);
                    }
                    if s == punct_ops()[i as int] {
                        assert(post[i as int] == s);
                    }
                }
            }
        }
        i = i + 1;
    }
    assert(punct_ops().take(punct_ops().len() as int) =~= punct_ops());
    let to = vec!['t', 'o'];
    let to_s = string_from_chars(&to);
    let ghost e1 = m.entries();
    proof {
        assert(!m.map().contains_key(seq!['t', 'o'])) by {
            if punct_ops().contains(seq!['t', 'o']) {
                let j = choose|j: int| 0 <= j < punct_ops().len() && #[trigger] punct_ops()[j] == seq!['t', 'o'];
                assert(punct_ops()[j][0] != 't');
            }
            if punct_ops().take(punct_ops().len() as int).contains(seq!['t', 'o']) {
                let j = choose|j: int| 0 <= j < punct_ops().len() && #[trigger] punct_ops().take(punct_ops().len() as int)[j] == seq!['t', 'o'];
                assert(punct_ops()[j][0] != 't');
            }
        }
        assert(to_s@ =~= seq!['t', 'o']);
    }
    m.insert(to_s.as_str(), -22);
    proof {
        lemma_punct_ops_distinct();
        lemma_index_of_unique(alnum_ops(), 0);
        assert(!punct_ops().contains(seq!['t', 'o'])) by {
            if punct_ops().contains(seq!['t', 'o']) {
                let j = choose|j: int| 0 <= j < punct_ops().len() && #[trigger] punct_ops()[j] == seq!['t', 'o'];
                assert(punct_ops()[j][0] != 't');
            }
        }
        assert(builtin_functions().take(0) =~= Seq::<Seq<char>>::empty());
        assert forall|s: Seq<char>| alnum_ops().contains(s) <==> s == seq!['t', 'o'] by {
            if alnum_ops().contains(s) {
                let j = choose|j: int| 0 <= j < alnum_ops().len() && #[trigger] alnum_ops()[j] == s;
            }
            if s == seq!['t', 'o'] {
                assert(alnum_ops()[0] == s);
            }
        }
        assert(m.map() =~= Map::new(
            |s: Seq<char>| punct_ops().contains(s) || alnum_ops().contains(s) || builtin_functions().take(0).contains(s),
            |s: Seq<char>|
                if punct_ops().contains(s) {
                    punct_id(punct_ops().index_of(s))
                } else if alnum_ops().contains(s) {
                    punct_id(punct_ops().len() + alnum_ops().index_of(s))
                } else {
                    (FUNCTIONS_START_ID - builtin_functions().index_of(s)) as i32
                },
        ));
    }
    let fns = vec![vec!['s', 'i', 'n'], vec!['c', 'o', 's'], vec!['t', 'a', 'n'], vec!['l', 'o', 'g'],
        vec!['s', 'q', 'r', 't']];
    let mut k: usize = 0;
    while k < fns.len()
        invariant
            m.wf(),
            k <= 5,
            fns@.len() == 5,
            forall|j: int| 0 <= j < 5 ==> #[trigger] fns@[j]@ == builtin_functions()[j],
            m.entries() == e1 + seq![(seq!['t', 'o'], punct_id(punct_ops().len() as int))]
                + Seq::new(k as nat, |j: int| (builtin_functions()[j], (FUNCTIONS_START_ID - j) as i32)),
            m.map() == Map::new(
                |s: Seq<char>| punct_ops().contains(s) || alnum_ops().contains(s) || builtin_functions().take(k as int).contains(s),
                |s: Seq<char>|
                    if punct_ops().contains(s) {
                        punct_id(punct_ops().index_of(s))
                    } else if alnum_ops().contains(s) {
                        punct_id(punct_ops().len() + alnum_ops().index_of(s))
                    } else {
                        (FUNCTIONS_START_ID - builtin_functions().index_of(s)) as i32
                    },
            ),
        decreases 5 - k,
    {
        let s = string_from_chars(&fns[k]);
        proof {
            lemma_functions_distinct_from_ops();
            if builtin_functions().take(k as int).contains(builtin_functions()[k as int]) {
                let j = choose|j: int| 0 <= j < k && #[trigger] builtin_functions().take(k as int)[j] == builtin_functions()[k as int];
                assert(builtin_functions()[j] == builtin_functions()[k as int]);
            }
            assert(!m.map().contains_key(s@));
        }
        m.insert(s.as_str(), FUNCTIONS_START_ID - k as i32);
        assert(m.entries() =~= e1 + seq![(seq!['t', 'o'], punct_id(punct_ops().len() as int))]
            + Seq::new((k + 1) as nat, |j: int| (builtin_functions()[j], (FUNCTIONS_START_ID - j) as i32)));
        proof {
            lemma_functions_distinct_from_ops();
            let f = builtin_functions()[k as int];
            lemma_index_of_unique(builtin_functions(), k as int);
            let pre = builtin_functions().take(k as int);
            let post = builtin_functions().take(k + 1);
            assert forall|s: Seq<char>| post.contains(s) <==> (pre.contains(s) || s == f) by {
                if post.contains(s) {
                    let j = choose|j: int| 0 <= j < post.len() && #[trigger] post[j] == s;
                    if j < k {
                        assert(pre[j] == s);
                    }
                }
                if pre.contains(s) {
                    let j = choose|j: int| 0 <= j < pre.len() && #[trigger] pre[j] == s;
                    assert(post[j] == s);
                }
                if s == f {
                    assert(post[k as int] == s);
                }
            }
        }
        k = k + 1;
        proof {
            let mm = Map::new(
                |s: Seq<char>| punct_ops().contains(s) || alnum_ops().contains(s) || builtin_functions().take(k as int).contains(s),
                |s: Seq<char>|
                    if punct_ops().contains(s) {
                        punct_id(punct_ops().index_of(s))
                    } else if alnum_ops().contains(s) {
                        punct_id(punct_ops().len() + alnum_ops().index_of(s))
                    } else {
                        (FUNCTIONS_START_ID - builtin_functions().index_of(s)) as i32
                    },
            );
            assert(m.map() =~= mm);
        }
    }
    assert(builtin_functions().take(5) =~= builtin_functions());
    assert(m.map() =~= spec_symbol_map());
    assert(m.entries() =~= spec_symbol_entries());
    m
}

/// In a sequence without duplicates, an element's index is its position.
proof fn lemma_index_of_unique(s: Seq<Seq<char>>, i: int)
    requires
        s.no_duplicates(),
        0 <= i < s.len(),
    ensures
        s.index_of(s[i]) == i,
{
    assert(s[i] == s[i]);
    let j = s.index_of(s[i]);
    assert(0 <= j < s.len() && s[j] == s[i]);
}

/// No punctuation operator occurs twice.
pub proof fn lemma_punct_ops_distinct()
    ensures
        punct_ops().no_duplicates(),
{
    let p = punct_ops();
    assert forall|i: int, j: int| 0 <= i < p.len() && 0 <= j < p.len() && i != j implies p[i] != p[j] by {
        if p[i].len() == p[j].len() {
            assert(p[i][0] != p[j][0] || p[i][p[i].len() - 1] != p[j][p[j].len() - 1]);
        }
    }
}

/// The built-in functions are distinct and none is an operator.
pub proof fn lemma_functions_distinct_from_ops()
    ensures
        builtin_functions().no_duplicates(),
        forall|i: int| 0 <= i < 5 ==> !punct_ops().contains(#[trigger] builtin_functions()[i]),
        forall|i: int| 0 <= i < 5 ==> !alnum_ops().contains(#[trigger] builtin_functions()[i]),
{
    let f = builtin_functions();
    let p = punct_ops();
    assert forall|i: int| 0 <= i < 5 implies !p.contains(#[trigger] f[i]) by {
        if p.contains(f[i]) {
            let j = choose|j: int| 0 <= j < p.len() && p[j] == f[i];
            assert(p[j].len() <= 2);
            assert(f[i].len() >= 3);
        }
    }
    assert forall|i: int| 0 <= i < 5 implies !alnum_ops().contains(#[trigger] f[i]) by {
        if alnum_ops().contains(f[i]) {
            let j = choose|j: int| 0 <= j < alnum_ops().len() && alnum_ops()[j] == f[i];
            assert(alnum_ops()[j].len() == 2);
        }
    }
    assert forall|i: int, j: int| 0 <= i < 5 && 0 <= j < 5 && i != j implies f[i] != f[j] by {
        if f[i].len() == f[j].len() {
            assert(f[i][0] != f[j][0] || f[i][1] != f[j][1]);
        }
    }
}

} // verus!
