use crunchie_core::builtins::generate_symbol_map;
use crunchie_core::config::{Config, ReassignmentBehavior};
use crunchie_core::model::Atom;
use crunchie_core::printer::print_workspace;
use crunchie_core::{evaluate, parse, process_buffer, try_evaluate, try_process_buffer};

fn run_pipeline(input: &str) -> String {
    let builtins = generate_symbol_map();
    let config = Config::default();
    let constants: Vec<&str> = config.constants.iter().map(|s| s.as_str()).collect();

    let mut workspace = parse(input, &builtins, &constants);
    let mut engine_result = evaluate(input, &mut workspace, &config);

    // Merge engine diagnostics back into the workspace for the printer.
    workspace.diagnostics.append(&mut engine_result.diagnostics);

    let mut out = print_workspace(&workspace);

    if !engine_result.edits.is_empty() {
        out.push_str("\n  Edits:\n");
        for edit in engine_result.edits {
            out.push_str(&format!("    - Insert '{}' at offset {}\n", edit.new_text, edit.span.start.offset));
        }
    }

    out
}

fn run_all(cases: &[&str]) -> Vec<String> {
    cases.iter().map(|c| run_pipeline(c)).collect()
}

#[test]
fn test_distiller_basics() {
    let cases = ["5", "x = 5kg", "10cm3", "0xFF", "5M", "5 + 2", "sin(PI)", "cos(TAU)", "sqrt(E)"];
    let out = run_all(&cases);
    for o in &out {
        assert!(!o.contains("[Raw]"), "{}", o);
        assert!(!o.contains("[POISON]"), "{}", o);
        assert!(!o.contains("Diagnostics"), "{}", o);
    }
    assert!(out[0].contains("[Value] 5\n"));
    assert!(out[1].contains("[Var] x\n"));
    assert!(out[1].contains("[Value] 5\n"));
    assert!(out[1].contains("[Var] kg\n"));
    assert!(out[2].contains("[Value] 10\n"));
    assert!(out[3].contains("[Value] 0xff\n"));
    assert!(out[4].contains("[Value] 5000000\n"));
    assert!(out[5].contains("[Instr] Fend(Add)\n"));
    assert!(out[6].contains("[Instr] Call\n"));
    assert!(out[6].contains("[Func] sin\n"));
    assert!(out[6].contains("[Const] PI\n"));
    assert!(out[7].contains("[Func] cos\n"));
    assert!(out[7].contains("[Const] TAU\n"));
    assert!(out[8].contains("[Func] sqrt\n"));
    assert!(out[8].contains("[Const] E\n"));
}

#[test]
fn test_distiller_poison() {
    let output = format!("Input: 1.2.3\n{}", run_pipeline("1.2.3"));
    assert!(output.contains("    - MalformedSymbol at offset 0\n"), "{}", output);
    assert!(output.contains("[POISON]\n"), "{}", output);
}

#[test]
fn test_distiller_smart_splitting_garbage() {
    let output = format!("Input: 65kg123\n{}", run_pipeline("65kg123"));
    assert!(output.contains("    - MalformedSymbol at offset 0\n"), "{}", output);
    assert!(output.contains("[POISON]\n"), "{}", output);
}

#[test]
fn test_janitor_cases() {
    let cases = [
        "(5)",
        "((5))",
        "3 + (1 + 2)",
        "x = 1; y = 2",
        "x = 1\ny = 2",
        "(1; 2)",
        "(1, \n 2)",
        "(,1,)",
        "()",
    ];
    let out = run_all(&cases);
    // Inert containers collapse into their single child.
    for o in &out[0..2] {
        assert!(o.contains("    Line 1:\n"), "{}", o);
        assert!(o.contains("[Value] 5\n"), "{}", o);
        assert_eq!(o.matches("[Container").count(), 1, "{}", o);
    }
    assert!(out[2].contains("[Instr] Fend(Add)\n"));
    // `;` and line breaks split the root into lines.
    for o in &out[3..5] {
        assert!(o.contains("    Line 1:\n"), "{}", o);
        assert!(o.contains("    Line 2:\n"), "{}", o);
        assert!(!o.contains("Diagnostics"), "{}", o);
    }
    // Inside parentheses they become commas.
    assert!(out[5].contains("[Instr] Comma\n"));
    assert!(!out[5].contains("Diagnostics"));
    assert!(out[6].contains("[Instr] Comma\n"));
    assert!(out[6].contains("    - StraySequence at offset 4\n"));
    // Leading and trailing commas are trimmed and reported.
    assert!(out[7].contains("    - StraySequence at offset 1\n"));
    assert!(out[7].contains("    - StraySequence at offset 3\n"));
    assert!(out[7].contains("[Value] 1\n"));
    assert!(!out[7].contains("Comma"));
    // An empty group survives as an empty container.
    assert!(out[8].contains("(empty)\n"));
}

#[test]
fn test_unroller_basics() {
    let cases = [
        "1 + 2 * 3",
        "5 cm",
        "5 PI",
        "x = 10; 5x",
        "3(1+2)",
        "x = 5",
        "x = ",
        "x = 10; x = ",
        "sin(PI)",
    ];
    let out = run_all(&cases);
    for o in &out {
        assert!(!o.contains("[POISON]"), "{}", o);
    }
    assert!(out[0].contains("[Instr] Fend(Mul)\n"));
    assert!(out[0].contains("[Instr] Fend(Add)\n"));
    assert!(out[1].contains("[Instr] Fend(Mul)\n"));
    assert!(out[2].contains("[Instr] Fend(Mul)\n"));
    assert!(out[3].contains("    Line 2:\n"));
    assert!(out[4].contains("[Instr] Fend(Mul)\n"));
    assert!(out[5].contains("[Instr] Fend(Equals)\n"));
    assert!(out[6].contains("[Instr] Fend(Equals)\n"));
    assert!(out[7].contains("  Edits:\n    - Insert ' 10' at offset 11\n"), "{}", out[7]);
    assert!(out[8].contains("[Instr] Call\n"));
}

#[test]
fn test_stray_closer() {
    let output = format!("Input: 5)\n{}", run_pipeline("5)"));
    assert!(output.contains("    - StrayCloser at offset 1\n"), "{}", output);
    assert!(output.contains("[Value] 5\n"), "{}", output);
}

#[test]
fn test_unclosed_container() {
    let output = format!("Input: x = (5\n{}", run_pipeline("x = (5"));
    assert!(output.contains("    - UnclosedContainer at offset 4\n"), "{}", output);
}

#[test]
fn test_illegal_math_pipeline() {
    let cases = [
        "5 + + 3",
        "* 5",
        "10 /",
        "1 to",
        "to cm",
        "()()",
        "5 5 5",
        "x = = 5",
        "x = y = 5",
        "1.5.5",
        "10e-",
        "0b102",
        "0xG",
        "(5",
        "1m + 2s to",
    ];
    let out = run_all(&cases);
    for i in [0usize, 1, 2, 3, 4, 5, 6, 14] {
        assert!(out[i].contains("MalformedExpression"), "{}: {}", cases[i], out[i]);
        assert!(out[i].contains("(CORRUPTED)"), "{}: {}", cases[i], out[i]);
    }
    for i in [9usize, 10, 12] {
        assert!(out[i].contains("MalformedSymbol at offset 0"), "{}: {}", cases[i], out[i]);
        assert!(out[i].contains("[POISON]"), "{}: {}", cases[i], out[i]);
    }
    assert!(out[13].contains("UnclosedContainer at offset 0"));
}

#[test]
fn process_buffer_fills_queries() {
    let config = Config::default();
    let (text, diags) = process_buffer("x = 10; x = ", &config);
    assert_eq!(text, "x = 10; x = 10 ");
    assert!(diags.is_empty());
}

#[test]
fn process_buffer_without_fills_keeps_text() {
    let mut config = Config::default();
    config.generate_fills = false;
    let (text, diags) = process_buffer("x = 10; x = ", &config);
    assert_eq!(text, "x = 10; x = ");
    assert!(diags.is_empty());
}

#[test]
fn process_buffer_reports_every_stage() {
    let config = Config::default();
    let (text, diags) = process_buffer("(1.2.3", &config);
    assert_eq!(text, "(1.2.3");
    let codes: Vec<String> = diags.iter().map(|d| format!("{:?}", d.code)).collect();
    assert!(codes.contains(&"UnclosedContainer".to_string()), "{:?}", codes);
    assert!(codes.contains(&"MalformedSymbol".to_string()), "{:?}", codes);
}

#[test]
fn failing_assertion_is_reported() {
    let config = Config::default();
    let (_, diags) = process_buffer("1 + 1 = 3", &config);
    assert_eq!(diags.len(), 1);
    assert_eq!(format!("{:?}", diags[0].code), "MalformedExpression");
    let (_, diags) = process_buffer("1 + 1 = 2", &config);
    assert!(diags.is_empty());
}

#[test]
fn query_of_an_expression_is_filled() {
    let config = Config::default();
    let (text, _) = process_buffer("1 + 2 =", &config);
    assert_eq!(text, "1 + 2 = 3");
}

#[test]
fn empty_buffer_has_no_lines() {
    let out = run_pipeline("");
    assert_eq!(out, "Workspace {\n  Lines:\n}\n");
}

#[test]
fn a_poisoned_line_leaves_independent_lines_alive() {
    let out = run_pipeline("5 + + 3\ny = 2\ny + 1 =");
    assert!(out.contains("MalformedExpression"), "{}", out);
    assert!(out.contains("(CORRUPTED)"), "{}", out);
    assert!(out.contains("Insert ' 3'"), "{}", out);
    let out = run_pipeline("1 m + 1 kg\n2 + 2 =");
    assert!(out.contains("MalformedExpression"), "{}", out);
    assert!(out.contains("Insert ' 4'"), "{}", out);
}

#[test]
fn tape_lists_operands_before_their_users() {
    let out = run_pipeline("1 + 2 * 3");
    let mul = out.find("[Instr] Fend(Mul)").unwrap();
    let add = out.find("[Instr] Fend(Add)").unwrap();
    assert!(mul < add, "{}", out);
    let out = run_pipeline("(1 + 2) * 3");
    let mul = out.find("[Instr] Fend(Mul)").unwrap();
    let add = out.find("[Instr] Fend(Add)").unwrap();
    assert!(add < mul, "{}", out);
}

#[test]
fn try_process_buffer_agrees_where_fills_land() {
    let config = Config::default();
    for text in ["x = 10; x = ", "1 + 1 = 3", "(1.2.3", ""] {
        assert_eq!(try_process_buffer(text, &config), Some(process_buffer(text, &config)));
    }
}

#[test]
fn try_process_buffer_fills_after_the_equals_sign() {
    let config = Config::default();
    // The fill goes right after the query's `=`, past the two bytes of `é`.
    assert_eq!(try_process_buffer("\u{e9}\n1 + 1 =", &config), Some(("\u{e9}\n1 + 1 = 2".to_string(), vec![])));
    assert_eq!(try_process_buffer("x = 5\nx =", &config), Some(("x = 5\nx = 5".to_string(), vec![])));
    let mut quiet = Config::default();
    quiet.generate_fills = false;
    let (text, diags) = try_process_buffer("\u{e9}\n1 + 1 =", &quiet).unwrap();
    assert_eq!(text, "\u{e9}\n1 + 1 =");
    assert!(diags.is_empty());
}

#[test]
fn try_evaluate_agrees_with_evaluate() {
    let builtins = generate_symbol_map();
    let config = Config::default();
    let constants: Vec<&str> = config.constants.iter().map(|s| s.as_str()).collect();
    for text in ["x = 10; x = ", "1 + 2 * 3 =", "(1, 2)", "5 + + 3\ny = 2\ny + 1 ="] {
        let mut a = parse(text, &builtins, &constants);
        let mut b = parse(text, &builtins, &constants);
        let ra = evaluate(text, &mut a, &config);
        let rb = try_evaluate(text, &mut b, &config).unwrap();
        assert_eq!(ra.diagnostics, rb.diagnostics);
        assert!(ra.edits == rb.edits);
        assert_eq!(print_workspace(&a), print_workspace(&b));
    }
}

#[test]
fn try_distiller_runs_the_distiller() {
    let builtins = generate_symbol_map();
    let config = Config::default();
    let constants: Vec<&str> = config.constants.iter().map(|s| s.as_str()).collect();
    let mut a = parse("x = 5kg", &builtins, &constants);
    let mut b = parse("x = 5kg", &builtins, &constants);
    crunchie_core::distiller(&mut a);
    assert!(crunchie_core::try_distiller(&mut b));
    assert_eq!(print_workspace(&a), print_workspace(&b));
}

#[test]
fn try_unroller_runs_the_unroller() {
    let builtins = generate_symbol_map();
    let config = Config::default();
    let constants: Vec<&str> = config.constants.iter().map(|s| s.as_str()).collect();
    let text = "x = 2 * (3 + 4); x =";
    let mut a = parse(text, &builtins, &constants);
    crunchie_core::distiller(&mut a);
    crunchie_core::janitor(&mut a);
    let mut b = parse(text, &builtins, &constants);
    crunchie_core::distiller(&mut b);
    crunchie_core::janitor(&mut b);
    crunchie_core::unroller(&mut a);
    assert!(crunchie_core::try_unroller(&mut b));
    assert_eq!(print_workspace(&a), print_workspace(&b));
}

#[test]
fn every_occurrence_of_a_poisoned_symbol_is_reported() {
    let out = run_pipeline("1.2.3 + 1.2.3");
    assert!(out.contains("    - MalformedSymbol at offset 0\n"), "{}", out);
    assert!(out.contains("    - MalformedSymbol at offset 8\n"), "{}", out);
    assert_eq!(out.matches("MalformedSymbol").count(), 2, "{}", out);
}

#[test]
fn split_parts_keep_the_offset_of_their_monolith() {
    let builtins = generate_symbol_map();
    let config = Config::default();
    let constants: Vec<&str> = config.constants.iter().map(|s| s.as_str()).collect();
    let mut ws = parse("x = 10; 5x", &builtins, &constants);
    crunchie_core::distiller(&mut ws);
    let mono = ws.intern_map.get("5x").unwrap();
    let x = ws.intern_map.get("x").unwrap();
    let c = match ws.atoms.get(mono) {
        Some(Atom::Container(c)) => *c,
        _ => panic!("the monolith was not split"),
    };
    let parts = &ws.containers.get(c).unwrap().contents;
    assert_eq!(parts.len(), 2);
    assert_eq!(parts[1].id, x);
    assert_eq!(parts[0].offset, 8);
    assert_eq!(parts[1].offset, 8);
}

#[test]
fn an_unclosed_line_is_neither_run_nor_filled() {
    let out = run_pipeline("(2 + 3 =");
    assert!(out.contains("(CORRUPTED)"), "{}", out);
    assert!(out.contains("UnclosedContainer at offset 0"), "{}", out);
    assert!(!out.contains("Edits"), "{}", out);
    let config = Config::default();
    let (text, _) = process_buffer("(2 + 3 =", &config);
    assert_eq!(text, "(2 + 3 =");
}

#[test]
fn reassignment_is_reported_under_warn() {
    let config = Config::default();
    let (text, diags) = process_buffer("x = 5\nx = 10\nx =", &config);
    assert_eq!(text, "x = 5\nx = 10\nx = 10");
    assert_eq!(diags.len(), 1);
    assert_eq!(format!("{:?}", diags[0].code), "Reassignment");
    assert_eq!(diags[0].span.start.line, 1);
}

#[test]
fn reassignment_is_accepted_under_allow() {
    let mut config = Config::default();
    config.reassignment = ReassignmentBehavior::Allow;
    let (text, diags) = process_buffer("x = 5\nx = 10\nx =", &config);
    assert_eq!(text, "x = 5\nx = 10\nx = 10");
    assert!(diags.is_empty());
}

#[test]
fn reassignment_is_refused_under_error() {
    let mut config = Config::default();
    config.reassignment = ReassignmentBehavior::Error;
    let (text, diags) = process_buffer("x = 5\nx = 10\nx =", &config);
    assert_eq!(text, "x = 5\nx = 10\nx = 5");
    assert_eq!(diags.len(), 1);
    assert_eq!(format!("{:?}", diags[0].code), "Reassignment");
}

#[test]
fn assigning_to_a_constant_is_reported() {
    let config = Config::default();
    let (text, diags) = process_buffer("PI = 3", &config);
    assert_eq!(text, "PI = 3");
    assert_eq!(diags.len(), 1);
    assert_eq!(format!("{:?}", diags[0].code), "ConstantReassignment");
}

#[test]
fn removing_a_bad_line_changes_nothing_else() {
    let config = Config::default();
    let (with_bad, diags) = process_buffer("y = 2\n1.2.3 + 1\ny + 1 =", &config);
    let (without, clean) = process_buffer("y = 2\ny + 1 =", &config);
    assert!(with_bad.ends_with("y + 1 = 3"), "{}", with_bad);
    assert!(without.ends_with("y + 1 = 3"), "{}", without);
    assert!(clean.is_empty());
    assert_eq!(diags.len(), 1);
    assert_eq!(format!("{:?}", diags[0].code), "MalformedSymbol");
}

#[test]
fn only_containers_left_open_are_corrupted() {
    let builtins = generate_symbol_map();
    let ws = parse("(1 + (2", &builtins, &[]);
    assert!(!ws.container(0).unwrap().corrupted);
    let unclosed = ws.diagnostics.iter().filter(|d| format!("{:?}", d.code) == "UnclosedContainer").count();
    assert_eq!(unclosed, 2);
    let mut corrupted = 0;
    for id in 1..ws.next_id {
        if let Some(c) = ws.container(id) {
            if c.corrupted {
                corrupted += 1;
            }
        }
    }
    assert_eq!(corrupted, 2);
}
