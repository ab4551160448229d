use crunchie_core::config::{Config, ReassignmentBehavior};
use crunchie_core::fend::{evaluate_fresh, FendSession};
use crunchie_core::ident::Ident;
use crunchie_core::engine::{reply_holds, Executioner};
use crunchie_core::model::{Atom, Diagnostic, DiagnosticCode, FendOp, OpCode, Position, Span, TextEdit, Workspace};
use crunchie_core::muncher::{munch, munch_known};
use crunchie_core::printer::print_workspace;
use crunchie_core::apply_edits;
use crunchie_core::edits::try_apply_edits;
use crunchie_core::builtins::get_operator;

fn edit(start: u32, end: u32, text: &str) -> TextEdit {
    TextEdit {
        span: Span {
            start: Position { offset: start, line: 0, col: 0 },
            end: Position { offset: end, line: 0, col: 0 },
        },
        new_text: text.to_string(),
        value: None,
    }
}

#[test]
fn ident_serializes_as_cbor_text() {
    let mut buf = Vec::new();
    Ident::new_str("hello world").serialize(&mut buf);
    assert_eq!(buf, vec![0x6b, 0x68, 0x65, 0x6c, 0x6c, 0x6f, 0x20, 0x77, 0x6f, 0x72, 0x6c, 0x64]);
}

#[test]
fn ident_round_trips() {
    for name in ["", "x", "kg", "\u{a3}", "a much longer name that needs a two byte header", &"y".repeat(300)] {
        let id = Ident::new_string(name.to_string());
        let mut buf = Vec::new();
        id.serialize(&mut buf);
        buf.extend_from_slice(&[0xff, 0x00]);
        let (back, n) = Ident::deserialize(&buf).unwrap();
        assert_eq!(back, id);
        assert_eq!(back.as_str(), name);
        assert_eq!(n, buf.len() - 2);
    }
}

#[test]
fn ident_headers_grow_with_length() {
    let mut buf = Vec::new();
    Ident::new_string("y".repeat(24)).serialize(&mut buf);
    assert_eq!(&buf[..2], &[0x78, 24]);
    let mut buf = Vec::new();
    Ident::new_string("y".repeat(300)).serialize(&mut buf);
    assert_eq!(&buf[..3], &[0x79, 0x01, 0x2c]);
}

#[test]
fn ident_rejects_what_is_not_a_text_string() {
    assert!(Ident::deserialize(&[]).is_err());
    assert!(Ident::deserialize(&[0x01]).is_err());
    assert!(Ident::deserialize(&[0x41, 0x61]).is_err());
    assert!(Ident::deserialize(&[0x7c]).is_err());
    assert!(Ident::deserialize(&[0x78]).is_err());
    assert!(Ident::deserialize(&[0x63, 0x61]).is_err());
    assert!(Ident::deserialize(&[0x62, 0xff, 0xfe]).is_err());
    assert_eq!(Ident::deserialize(&[0x61, 0x78]).unwrap().1, 2);
}

#[test]
fn ident_prefix_units() {
    assert!(Ident::new_str("$").is_prefix_unit());
    assert!(Ident::new_str("\u{a3}").is_prefix_unit());
    assert!(Ident::new_str("\u{a5}").is_prefix_unit());
    assert!(!Ident::new_str("kg").is_prefix_unit());
    assert!(!Ident::new_str("$$").is_prefix_unit());
}

#[test]
fn edits_apply_latest_first() {
    let edits = vec![edit(1, 1, "X"), edit(2, 2, "Y")];
    assert_eq!(apply_edits("abc", &edits), "aXbYc");
    let edits = vec![edit(2, 2, "Y"), edit(1, 1, "X")];
    assert_eq!(apply_edits("abc", &edits), "aXbYc");
}

#[test]
fn edits_replace_ranges_and_skip_bad_ones() {
    assert_eq!(apply_edits("hello world", &[edit(0, 5, "bye")]), "bye world");
    assert_eq!(apply_edits("abc", &[edit(2, 1, "Z")]), "abc");
    assert_eq!(apply_edits("abc", &[edit(1, 9, "Z")]), "abc");
    assert_eq!(apply_edits("abc", &[]), "abc");
    assert_eq!(apply_edits("\u{a3}5", &[edit(2, 2, "+")]), "\u{a3}+5");
}

#[test]
fn edits_with_same_start_keep_their_order() {
    let edits = vec![edit(1, 1, "X"), edit(1, 1, "Y")];
    assert_eq!(apply_edits("ab", &edits), "aYXb");
}

#[test]
fn interning_twice_gives_the_same_id() {
    let mut ws = Workspace::new();
    let a = ws.get_or_intern_atom("x");
    let next = ws.next_id;
    let b = ws.get_or_intern_atom("x");
    assert_eq!(a, b);
    assert_eq!(ws.next_id, next);
    let c = ws.get_or_intern_atom("y");
    assert_ne!(a, c);
}

#[test]
fn typed_interning_retypes_a_name() {
    let mut ws = Workspace::new();
    let a = ws.get_or_intern_atom("kg");
    let b = ws.get_or_intern_atom_typed(Atom::Variable("kg".to_string()));
    assert_eq!(a, b);
    assert!(matches!(ws.atom(a), Some(Atom::Variable(s)) if s == "kg"));
    let p1 = ws.get_or_intern_atom_typed(Atom::Poison);
    let p2 = ws.get_or_intern_atom_typed(Atom::Poison);
    assert_ne!(p1, p2);
}

#[test]
fn positions_count_lines_and_columns() {
    let ws = Workspace::new();
    assert_eq!(ws.get_position(4, "ab\ncd"), Position { offset: 4, line: 1, col: 1 });
    assert_eq!(ws.get_position(0, "ab\ncd"), Position { offset: 0, line: 0, col: 0 });
    assert_eq!(ws.get_position(3, "\u{a3}x"), Position { offset: 3, line: 0, col: 2 });
}

#[test]
fn fend_evaluates_and_remembers() {
    assert_eq!(evaluate_fresh("1 + 1"), Some("2".to_string()));
    assert_eq!(evaluate_fresh("1 +"), None);
    let mut s = FendSession::new();
    assert!(s.eval("zq = 5").is_some());
    assert_eq!(s.eval("zq * 2"), Some("10".to_string()));
    assert_eq!(evaluate_fresh("zq * 2"), None);
}

#[test]
fn muncher_splits_units_and_scales() {
    let parts = munch(&"5kg".chars().collect(), &vec![]);
    assert_eq!(parts.len(), 2);
    assert!(matches!(&parts[0], (Atom::Value(v), 0) if v == "5"));
    assert!(matches!(&parts[1], (Atom::Variable(v), 1) if v == "kg"));
    let parts = munch(&"5k".chars().collect(), &vec![]);
    assert!(matches!(&parts[0], (Atom::Value(v), 0) if v == "(5 * 1000)"));
    let parts = munch(&"1_000".chars().collect(), &vec![]);
    assert!(matches!(&parts[0], (Atom::Value(v), 0) if v == "1000"));
    let parts = munch(&"1.2.3".chars().collect(), &vec![]);
    assert!(matches!(&parts[0], (Atom::Poison, 0)));
    let parts = munch(&"5zz".chars().collect(), &vec!["zz".to_string()]);
    assert!(matches!(&parts[1], (Atom::Variable(v), 1) if v == "zz"));
    let parts = munch(&"foo".chars().collect(), &vec![]);
    assert!(matches!(&parts[0], (Atom::Variable(v), 0) if v == "foo"));
    assert!(munch(&vec![], &vec![]).is_empty());
}

#[test]
fn defaults() {
    assert_eq!(ReassignmentBehavior::default(), ReassignmentBehavior::Warn);
    let c = Config::default();
    assert!(c.generate_fills);
    assert_eq!(c.constants, vec!["PI".to_string(), "TAU".to_string(), "E".to_string()]);
    assert_eq!(c.reassignment, ReassignmentBehavior::Warn);
}

#[test]
fn sequence_operators() {
    assert!(OpCode::Sequence.is_sequence());
    assert!(OpCode::Fend(FendOp::Semicolon).is_sequence());
    assert!(!OpCode::Comma.is_sequence());
}

#[test]
fn default_workspace_is_empty() {
    let ws = Workspace::default();
    assert_eq!(ws.next_id, 1);
    assert!(ws.container(0).is_none());
    assert!(ws.diagnostics.is_empty());
    assert!(ws.comments.is_empty());
}

#[test]
fn printing_an_empty_workspace() {
    let ws = Workspace::new();
    assert_eq!(print_workspace(&ws), "Workspace {\n  Lines:\n    (No root container)\n}\n".to_string());
}

#[test]
fn atoms_compare_values_through_fend() {
    let v = |s: &str| Atom::Value(s.to_string());
    assert!(v("1").same_as(&v("1.0")));
    assert!(v("1 m").same_as(&v("100 cm")));
    assert!(!v("1 m").same_as(&v("2 m")));
    assert!(!v("1 m").same_as(&v("1 kg")));
    assert!(Atom::Raw("x".to_string()).same_as(&Atom::Raw("x".to_string())));
    assert!(!Atom::Raw("x".to_string()).same_as(&Atom::Variable("x".to_string())));
    assert!(Atom::Poison.same_as(&Atom::Poison));
    let i = |a: Vec<i32>| Atom::Instruction { op: OpCode::Call, args: a };
    assert!(i(vec![1, 2]).same_as(&i(vec![1, 2])));
    assert!(!i(vec![1, 2]).same_as(&i(vec![1, 3])));
    assert!(!i(vec![1, 2]).same_as(&i(vec![1])));
}

#[test]
fn edits_compare_values_through_fend() {
    let with_value = |v: Option<&str>| TextEdit { value: v.map(|s| s.to_string()), ..edit(1, 1, " 2") };
    assert!(with_value(None) == with_value(None));
    assert!(with_value(Some("2")) == with_value(Some("2.0")));
    assert!(with_value(Some("2")) != with_value(Some("3")));
    assert!(with_value(Some("2")) != with_value(None));
    assert!(edit(1, 1, "a") != edit(1, 1, "b"));
    assert!(edit(1, 1, "a") != edit(1, 2, "a"));
}

#[test]
fn operators_by_symbol() {
    assert_eq!(get_operator("+"), Some(OpCode::Fend(FendOp::Add)));
    assert_eq!(get_operator("to"), Some(OpCode::Fend(FendOp::To)));
    assert_eq!(get_operator(","), Some(OpCode::Comma));
    assert_eq!(get_operator("\n"), Some(OpCode::Sequence));
    assert_eq!(get_operator("+="), Some(OpCode::AddAssign));
    assert_eq!(get_operator("x"), None);
}

#[test]
fn settling_fend_answers() {
    let ws = Workspace::new();
    let config = Config::default();
    let text = "ab\ncd =";
    let mut ex = Executioner::new(&ws, &config, text);

    ex.settle_query(7, 5, Some("42".to_string()));
    assert_eq!(ex.edits.len(), 1);
    assert_eq!(ex.edits[0].new_text, " 42");
    assert_eq!(ex.edits[0].value, Some("42".to_string()));
    assert_eq!(ex.edits[0].span.start, Position { offset: 6, line: 1, col: 3 });
    assert_eq!(ex.edits[0].span.end, ex.edits[0].span.start);
    assert!(!ex.poison_set.contains_key(7));
    ex.settle_query(8, 5, None);
    assert!(ex.poison_set.contains_key(8));
    assert_eq!(ex.edits.len(), 1);

    ex.settle_assignment(9, "y", None);
    assert!(ex.poison_set.contains_key(9));
    assert!(!ex.assigned.contains_key("y"));
    ex.settle_assignment(10, "x", Some("5".to_string()));
    assert!(!ex.poison_set.contains_key(10));
    assert!(ex.assigned.contains_key("x"));

    let span = Span { start: Position { offset: 1, line: 0, col: 1 }, end: Position { offset: 4, line: 1, col: 1 } };
    ex.settle_assertion(11, span, Some("true".to_string()));
    assert!(!ex.poison_set.contains_key(11));
    assert!(ex.diagnostics.is_empty());
    ex.settle_assertion(12, span, Some("false".to_string()));
    assert!(ex.poison_set.contains_key(12));
    assert_eq!(ex.diagnostics, vec![Diagnostic { code: DiagnosticCode::MalformedExpression, span }]);

    ex.settle_instruction(13, "(1) + (2)".to_string(), span, Some("3".to_string()));
    assert_eq!(ex.state_map.get(13), Some(&"(1) + (2)".to_string()));
    ex.settle_instruction(14, "(1) + (x)".to_string(), span, None);
    assert!(ex.poison_set.contains_key(14));
    assert_eq!(ex.state_map.get(14), None);
    assert_eq!(ex.diagnostics.len(), 2);
}

#[test]
fn every_occurrence_of_a_name_shares_its_id() {
    let builtins = crunchie_core::builtins::generate_symbol_map();
    let ws = crunchie_core::parse("x + x * y", &builtins, &[]);
    let root = ws.container(0).unwrap();
    assert_eq!(root.contents.len(), 5);
    assert_eq!(root.contents[0].id, root.contents[2].id);
    assert_ne!(root.contents[0].id, root.contents[4].id);
    assert_eq!(root.contents[2].offset, 4);
}

#[test]
fn muncher_documented_cases() {
    let m = |s: &str| munch(&s.chars().collect(), &vec![]);
    // fend reads `cm3` as a unit of its own, so it is not expanded.
    let parts = m("10cm3");
    assert_eq!(parts.len(), 2);
    assert!(matches!(&parts[0], (Atom::Value(v), 0) if v == "10"));
    assert!(matches!(&parts[1], (Atom::Variable(v), 2) if v == "cm3"));
    // A power suffix on a known name that is not a unit on its own is expanded.
    let parts = munch(&"10zq3".chars().collect(), &vec!["zq".to_string()]);
    assert_eq!(parts.len(), 4);
    assert!(matches!(&parts[0], (Atom::Value(v), 0) if v == "10"));
    assert!(matches!(&parts[1], (Atom::Variable(v), 2) if v == "zq"));
    assert!(matches!(&parts[2], (Atom::Operator(OpCode::Fend(FendOp::Pow)), 4)));
    assert!(matches!(&parts[3], (Atom::Value(v), 4) if v == "3"));
    let parts = m("65kg123");
    assert_eq!(parts.len(), 1);
    assert!(matches!(&parts[0], (Atom::Poison, 0)));
    let parts = m("5M");
    assert_eq!(parts.len(), 1);
    assert!(matches!(&parts[0], (Atom::Value(v), 0) if v == "(5 * 1000000)"));
    let parts = m("x");
    assert!(matches!(&parts[0], (Atom::Variable(v), 0) if v == "x"));
    let parts = m("1e-5");
    assert!(matches!(&parts[0], (Atom::Value(v), 0) if v == "1e-5"));
    let parts = m("0xFF");
    assert!(matches!(&parts[0], (Atom::Value(v), 0) if v == "0xFF"));
}

#[test]
fn idents_from_names() {
    let a = Ident::from("kg");
    assert_eq!(a.as_str(), "kg");
    assert_eq!(a, Ident::new_str("kg"));
    let b = Ident::from("m".to_string());
    assert_eq!(b.as_str(), "m");
    assert_eq!(b, Ident::new_string("m".to_string()));
}

#[test]
fn edits_inside_a_character_cannot_be_applied() {
    assert_eq!(try_apply_edits("\u{e9}", &[edit(1, 1, "x")]), None);
    assert_eq!(try_apply_edits("\u{e9}x", &[edit(2, 3, "y"), edit(0, 1, "z")]), None);
    assert_eq!(try_apply_edits("ab", &[edit(1, 1, "x")]), Some("axb".to_string()));
    assert_eq!(try_apply_edits("\u{e9}", &[edit(2, 2, "x"), edit(5, 5, "y")]), Some("\u{e9}x".to_string()));
}

#[test]
fn atoms_without_a_name_always_get_fresh_ids() {
    let mut ws = Workspace::new();
    let a = ws.get_or_intern_atom_typed(Atom::Poison);
    let b = ws.get_or_intern_atom_typed(Atom::Poison);
    assert_ne!(a, b);
    assert_eq!(b, a + 1);
    let x = ws.get_or_intern_atom("x");
    let y = ws.get_or_intern_atom("y");
    assert_ne!(x, y);
    assert_eq!(ws.get_or_intern_atom("x"), x);
}

#[test]
fn a_reply_holds_only_when_it_is_true() {
    assert!(reply_holds(&Some("true".to_string())));
    assert!(!reply_holds(&Some("false".to_string())));
    assert!(!reply_holds(&None));
}

#[test]
fn munch_takes_known_names_without_asking_fend() {
    let parts = munch_known(&"5zz".chars().collect(), &vec!["zz".to_string()]);
    assert_eq!(parts.len(), 2);
    let parts = munch_known(&"5kg".chars().collect(), &vec![]);
    assert_eq!(parts.len(), 1);
    assert!(matches!(parts[0].0, Atom::Poison));
    let names = crunchie_core::muncher::unit_candidates(&"5kg2".chars().collect());
    assert_eq!(names, vec!["kg2".to_string(), "kg".to_string()]);
}

#[test]
fn apart_edits_splice_in_place_in_any_order() {
    let edits = vec![edit(0, 5, "bye"), edit(6, 11, "all"), edit(11, 11, "!")];
    assert_eq!(apply_edits("hello world", &edits), "bye all!");
    let edits = vec![edit(11, 11, "!"), edit(0, 5, "bye"), edit(6, 11, "all")];
    assert_eq!(apply_edits("hello world", &edits), "bye all!");
}
