use near_python::json::{JsonNumber, JsonValue};
use near_python::parser::Parser;
use near_python::script::{input_is_document, script_text};
use near_python::text::chars_of;

fn program(source: &str) -> String {
    match Parser::try_parse(source) {
        Some(ops) => format!("{:?}", ops),
        None => String::from("<none>"),
    }
}

#[test]
fn assignment_and_print() {
    assert_eq!(
        program("x = 5\nprint(x)"),
        "[Assign(\"x\", Lit(Int(5))), Print(Var(\"x\"))]"
    );
}

#[test]
fn augmented_assignment() {
    assert_eq!(
        program("total += amount\nn -= 1\nk *= 2\nq /= 4"),
        "[Assign(\"total\", BinOp(Var(\"total\"), Add, Var(\"amount\"))), \
         Assign(\"n\", BinOp(Var(\"n\"), Sub, Lit(Int(1)))), \
         Assign(\"k\", BinOp(Var(\"k\"), Mul, Lit(Int(2)))), \
         Assign(\"q\", BinOp(Var(\"q\"), Div, Lit(Int(4))))]"
    );
}

#[test]
fn comparison_line_is_an_expression_statement() {
    assert_eq!(
        program("a == b"),
        "[ExprStmt(BinOp(Var(\"a\"), Eq, Var(\"b\")))]"
    );
    assert_eq!(
        program("a != b"),
        "[ExprStmt(BinOp(Var(\"a\"), Ne, Var(\"b\")))]"
    );
    assert_eq!(
        program("x = a == b"),
        "[Assign(\"x\", BinOp(Var(\"a\"), Eq, Var(\"b\")))]"
    );
}

#[test]
fn names_beginning_with_return_are_variables() {
    assert_eq!(
        program("return_value = 5\nreturned(1)"),
        "[Assign(\"return_value\", Lit(Int(5))), ExprStmt(FuncCall(\"returned\", [Lit(Int(1))]))]"
    );
}

#[test]
fn assignment_to_index_is_an_expression_statement() {
    assert_eq!(
        program("d[\"k\"] = 1"),
        "[ExprStmt(Lit(Str(\"d[\\\"k\\\"] = 1\")))]"
    );
}

#[test]
fn comments_and_blank_lines_are_skipped() {
    assert_eq!(
        program("# header\n\n   \nx = 1  \n# done"),
        "[Assign(\"x\", Lit(Int(1)))]"
    );
}

#[test]
fn if_elif_else() {
    let src = "if a > 1:\n    x = 1\nelif a > 0:\n    x = 2\nelse:\n    x = 3\ny = x";
    assert_eq!(
        program(src),
        "[If(BinOp(Var(\"a\"), Gt, Lit(Int(1))), [Assign(\"x\", Lit(Int(1)))], \
         [If(BinOp(Var(\"a\"), Gt, Lit(Int(0))), [Assign(\"x\", Lit(Int(2)))], \
         [Assign(\"x\", Lit(Int(3)))])]), Assign(\"y\", Var(\"x\"))]"
    );
}

#[test]
fn for_loop_over_range() {
    assert_eq!(
        program("for i in range(10):\n    total += i"),
        "[For(\"i\", Range([Lit(Int(10))]), [Assign(\"total\", BinOp(Var(\"total\"), Add, Var(\"i\")))])]"
    );
}

#[test]
fn while_with_break_and_continue() {
    let src = "while retries > 0:\n    retries -= 1\n    if retries == 2:\n        continue\n    break";
    assert_eq!(
        program(src),
        "[While(BinOp(Var(\"retries\"), Gt, Lit(Int(0))), [Assign(\"retries\", BinOp(Var(\"retries\"), Sub, Lit(Int(1)))), \
         If(BinOp(Var(\"retries\"), Eq, Lit(Int(2))), [Continue], []), Break])]"
    );
}

#[test]
fn function_definition_and_return() {
    let src = "def add(a, b):\n    return a + b\nr = add(1, 2)";
    assert_eq!(
        program(src),
        "[Def(\"add\", [\"a\", \"b\"], [Return(Some(BinOp(Var(\"a\"), Add, Var(\"b\"))))]), \
         Assign(\"r\", FuncCall(\"add\", [Lit(Int(1)), Lit(Int(2))]))]"
    );
}

#[test]
fn bare_return_and_parameterless_def() {
    assert_eq!(
        program("def f():\n    return\ndef g:\n    pass"),
        "[Def(\"f\", [], [Return(None)]), Def(\"g\", [], [ExprStmt(Var(\"pass\"))])]"
    );
}

#[test]
fn try_except() {
    let src = "try:\n    x = int(s)\nexcept:\n    x = 0\nprint(x)";
    assert_eq!(
        program(src),
        "[TryExcept([Assign(\"x\", Int_(Var(\"s\")))], [Assign(\"x\", Lit(Int(0)))]), Print(Var(\"x\"))]"
    );
}

#[test]
fn try_without_except() {
    assert_eq!(
        program("try:\n    x = 1\ny = 2"),
        "[TryExcept([Assign(\"x\", Lit(Int(1)))], []), Assign(\"y\", Lit(Int(2)))]"
    );
}

#[test]
fn method_call_statement() {
    assert_eq!(
        program("items.append(3)"),
        "[ExprStmt(MethodCall { object: Var(\"items\"), method: \"append\", args: [Lit(Int(3))] })]"
    );
}

#[test]
fn storage_round_trip_script() {
    let src = "near.storage.put(\"key\", json.dumps({\"data\": 42}))\nvalue = near.storage.get(\"key\")";
    assert_eq!(
        program(src),
        "[ExprStmt(StoragePut(Lit(Str(\"key\")), JsonDumps(Lit(Json(\"{\\\"data\\\": 42}\"))))), \
         Assign(\"value\", StorageGet(Lit(Str(\"key\"))))]"
    );
}

#[test]
fn dedent_ends_block() {
    let src = "if a:\n    x = 1\n    y = 2\nz = 3";
    assert_eq!(
        program(src),
        "[If(Var(\"a\"), [Assign(\"x\", Lit(Int(1))), Assign(\"y\", Lit(Int(2)))], []), Assign(\"z\", Lit(Int(3)))]"
    );
}

#[test]
fn script_with_bare_fstring_prefix_has_no_parse() {
    assert_eq!(program("x = f'"), "<none>");
}

#[test]
fn parse_gives_the_statements() {
    let ops = Parser::parse("x = 1");
    assert_eq!(format!("{:?}", ops), "[Assign(\"x\", Lit(Int(1)))]");
}

#[test]
fn empty_script() {
    assert_eq!(program(""), "[]");
}

#[test]
fn indent_counts_groups_of_four_spaces() {
    assert_eq!(Parser::indent_level(&chars_of("        x")), 2);
    assert_eq!(Parser::indent_level(&chars_of("       x")), 1);
    assert_eq!(Parser::indent_level(&chars_of("x")), 0);
}

#[test]
fn assignment_position() {
    assert_eq!(Parser::find_assignment(&chars_of("x = 1")), Some(2));
    assert_eq!(Parser::find_assignment(&chars_of("a == b")), None);
    assert_eq!(Parser::find_assignment(&chars_of("x = a == b")), Some(2));
    assert_eq!(Parser::find_assignment(&chars_of("a <= b")), None);
    assert_eq!(Parser::find_assignment(&chars_of("a += b")), None);
    assert_eq!(Parser::find_assignment(&chars_of("f(a=1)")), None);
    assert_eq!(Parser::find_assignment(&chars_of("s = \"=\"")), Some(2));
}

#[test]
fn augmented_assignment_position() {
    assert_eq!(Parser::find_augmented_assign(&chars_of("x += 1")), Some(2));
    assert_eq!(Parser::find_augmented_assign(&chars_of("x = 1")), None);
    assert_eq!(Parser::find_augmented_assign(&chars_of("s = \"+=\"")), None);
    assert_eq!(Parser::find_augmented_assign(&chars_of("+")), None);
}

#[test]
fn block_end_skips_blank_lines() {
    let lines: Vec<Vec<char>> = vec![
        chars_of("if a:"),
        chars_of("    x = 1"),
        chars_of(""),
        chars_of("    y = 2"),
        chars_of("z = 3"),
    ];
    assert_eq!(Parser::find_block_end(&lines, 1, 5, 1), 4);
    assert_eq!(Parser::find_block_end(&lines, 4, 5, 1), 4);
}

#[test]
fn plain_input_is_the_script() {
    assert!(!input_is_document("x = 1"));
    assert_eq!(script_text("x = 1\n", None), "x = 1\n");
}

#[test]
fn empty_input_prints_a_notice() {
    assert!(!input_is_document("  \n"));
    assert_eq!(script_text("  \n", None), "print(\"No script provided.\")");
}

#[test]
fn document_input_gives_its_script_member() {
    let input = "  {\"script\": \"print(1)\"}";
    assert!(input_is_document(input));
    let doc = JsonValue::Object(vec![(
        "script".to_string(),
        JsonValue::Str("print(1)".to_string()),
    )]);
    assert_eq!(script_text(input, Some(&doc)), "print(1)");
}

#[test]
fn unreadable_document_prints_a_notice() {
    let input = "{not json";
    assert!(input_is_document(input));
    assert_eq!(script_text(input, None), "print(\"Invalid JSON input.\")");
    let doc = JsonValue::Object(vec![(
        "script".to_string(),
        JsonValue::Number(JsonNumber::PosInt(3)),
    )]);
    assert_eq!(script_text("{\"script\": 3}", Some(&doc)), "print(\"Invalid JSON input.\")");
}
