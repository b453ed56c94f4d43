use near_python::parser::Parser;
use near_python::text::chars_of;

fn expr(text: &str) -> String {
    let cs = chars_of(text);
    match Parser::parse_expr(&cs) {
        Some(e) => format!("{:?}", e),
        None => String::from("<none>"),
    }
}

#[test]
fn integer_literal() {
    assert_eq!(expr("42"), "Lit(Int(42))");
    assert_eq!(expr("  7  "), "Lit(Int(7))");
}

#[test]
fn negative_number_is_negation() {
    assert_eq!(expr("-5"), "UnaryOp(Neg, Lit(Int(5)))");
}

#[test]
fn float_literal_keeps_its_text() {
    assert_eq!(expr("3.14"), "Lit(Float(\"3.14\"))");
    assert_eq!(expr("1e3"), "Lit(Float(\"1e3\"))");
}

#[test]
fn keywords_and_none() {
    assert_eq!(expr("True"), "Lit(Bool(true))");
    assert_eq!(expr("False"), "Lit(Bool(false))");
    assert_eq!(expr("None"), "Lit(PyNone)");
}

#[test]
fn string_literals() {
    assert_eq!(expr("\"NEAR\""), "Lit(Str(\"NEAR\"))");
    assert_eq!(expr("'a b'"), "Lit(Str(\"a b\"))");
}

#[test]
fn identifier_and_fallback_text() {
    assert_eq!(expr("total_1"), "Var(\"total_1\")");
    assert_eq!(expr("$x"), "Lit(Str(\"$x\"))");
}

#[test]
fn arithmetic_is_left_associative() {
    assert_eq!(
        expr("a - b - c"),
        "BinOp(BinOp(Var(\"a\"), Sub, Var(\"b\")), Sub, Var(\"c\"))"
    );
    assert_eq!(
        expr("price * amount + 1"),
        "BinOp(BinOp(Var(\"price\"), Mul, Var(\"amount\")), Add, Lit(Int(1)))"
    );
    assert_eq!(expr("7 % 3"), "BinOp(Lit(Int(7)), Mod, Lit(Int(3)))");
}

#[test]
fn parentheses_group() {
    assert_eq!(
        expr("(a + b) * c"),
        "BinOp(Lit(Str(\"(a + b)\")), Mul, Var(\"c\"))"
    );
}

#[test]
fn comparisons() {
    assert_eq!(expr("balance > 10"), "BinOp(Var(\"balance\"), Gt, Lit(Int(10)))");
    assert_eq!(expr("a == b"), "BinOp(Var(\"a\"), Eq, Var(\"b\"))");
    assert_eq!(expr("a != b"), "BinOp(Var(\"a\"), Ne, Var(\"b\"))");
    assert_eq!(expr("a >= 1"), "BinOp(Var(\"a\"), Ge, Lit(Int(1)))");
    assert_eq!(expr("a <= 1"), "BinOp(Var(\"a\"), Le, Lit(Int(1)))");
    assert_eq!(expr("a < 1"), "BinOp(Var(\"a\"), Lt, Lit(Int(1)))");
}

#[test]
fn boolean_operators() {
    assert_eq!(
        expr("active and not paused"),
        "BinOp(Var(\"active\"), And, UnaryOp(Not, Var(\"paused\")))"
    );
    assert_eq!(
        expr("a or b and c"),
        "BinOp(Var(\"a\"), Or, BinOp(Var(\"b\"), And, Var(\"c\")))"
    );
}

#[test]
fn operators_inside_strings_are_ignored() {
    assert_eq!(expr("\"a + b\""), "Lit(Str(\"a + b\"))");
    assert_eq!(
        expr("x == \"a or b\""),
        "BinOp(Var(\"x\"), Eq, Lit(Str(\"a or b\")))"
    );
}

#[test]
fn list_literal() {
    assert_eq!(
        expr("[1, 2, 3]"),
        "ListLiteral([Lit(Int(1)), Lit(Int(2)), Lit(Int(3))])"
    );
    assert_eq!(expr("[]"), "ListLiteral([])");
}

#[test]
fn dict_literals() {
    assert_eq!(expr("{}"), "Lit(EmptyDict)");
    assert_eq!(
        expr("{\"key\": \"val\"}"),
        "Lit(Json(\"{\\\"key\\\": \\\"val\\\"}\"))"
    );
    assert_eq!(
        expr("{\"amount\": total}"),
        "DictLiteralExpr([Lit(Str(\"amount\"))], [Var(\"total\")])"
    );
}

#[test]
fn brace_text_without_pairs_is_a_string() {
    assert_eq!(expr("{abc}"), "Lit(Str(\"{abc}\"))");
}

#[test]
fn indexing() {
    assert_eq!(
        expr("data[\"key\"]"),
        "Index(Var(\"data\"), Lit(Str(\"key\")))"
    );
    assert_eq!(
        expr("xs[-1]"),
        "Index(Var(\"xs\"), UnaryOp(Neg, Lit(Int(1))))"
    );
}

#[test]
fn method_calls() {
    assert_eq!(
        expr("lst.append(1)"),
        "MethodCall { object: Var(\"lst\"), method: \"append\", args: [Lit(Int(1))] }"
    );
    assert_eq!(
        expr("d.get(\"k\", 0)"),
        "MethodCall { object: Var(\"d\"), method: \"get\", args: [Lit(Str(\"k\")), Lit(Int(0))] }"
    );
    assert_eq!(
        expr("s.strip()"),
        "MethodCall { object: Var(\"s\"), method: \"strip\", args: [] }"
    );
}

#[test]
fn attribute_access() {
    assert_eq!(expr("block.header"), "GetAttr(Var(\"block\"), \"header\")");
}

#[test]
fn builtin_functions() {
    assert_eq!(expr("len(xs)"), "Len(Var(\"xs\"))");
    assert_eq!(expr("range(2, 5)"), "Range([Lit(Int(2)), Lit(Int(5))])");
    assert_eq!(expr("int(s)"), "Int_(Var(\"s\"))");
    assert_eq!(expr("str(n)"), "Str_(Var(\"n\"))");
    assert_eq!(expr("type(n)"), "TypeOf(Var(\"n\"))");
    assert_eq!(expr("json.dumps(x)"), "JsonDumps(Var(\"x\"))");
    assert_eq!(expr("json.loads(s)"), "JsonLoads(Var(\"s\"))");
}

#[test]
fn builtin_with_too_few_arguments_is_a_user_call() {
    assert_eq!(expr("len()"), "FuncCall(\"len\", [])");
    assert_eq!(expr("my_func(1)"), "FuncCall(\"my_func\", [Lit(Int(1))])");
}

#[test]
fn near_builtins() {
    assert_eq!(
        expr("near.view(\"c.near\", \"m\", {})"),
        "NearView(Lit(Str(\"c.near\")), Lit(Str(\"m\")), Lit(EmptyDict))"
    );
    assert_eq!(expr("near.block_height()"), "NearBlockHeight");
    assert_eq!(expr("near.block(\"final\")"), "NearBlock(Lit(Str(\"final\")))");
    assert_eq!(
        expr("near.view_account(acct)"),
        "NearViewAccount(Var(\"acct\"))"
    );
    assert_eq!(
        expr("near.call(a, b)"),
        "NearCall([Var(\"a\"), Var(\"b\")])"
    );
    assert_eq!(
        expr("near.storage.put(\"k\", v)"),
        "StoragePut(Lit(Str(\"k\")), Var(\"v\"))"
    );
    assert_eq!(expr("near.storage.get(\"k\")"), "StorageGet(Lit(Str(\"k\")))");
    assert_eq!(expr("http.get(url)"), "HttpGet(Var(\"url\"))");
    assert_eq!(expr("http.post(url, body)"), "HttpPost(Var(\"url\"), Var(\"body\"))");
}

#[test]
fn fstrings() {
    assert_eq!(
        expr("f\"value: {x}\""),
        "Concat([Lit(Str(\"value: \")), Var(\"x\")])"
    );
    assert_eq!(expr("f'{x}'"), "Var(\"x\")");
    assert_eq!(
        expr("f\"{a} and {b}!\""),
        "Concat([Var(\"a\"), Lit(Str(\" and \")), Var(\"b\"), Lit(Str(\"!\"))])"
    );
}

#[test]
fn bare_fstring_prefix_has_no_parse() {
    assert_eq!(expr("f\""), "<none>");
}

#[test]
fn word_operators_need_word_boundaries() {
    assert_eq!(expr("orange"), "Var(\"orange\")");
    assert_eq!(expr("notice"), "Var(\"notice\")");
}

#[test]
fn minus_after_an_operator_is_unary() {
    assert_eq!(
        expr("2 * -3"),
        "BinOp(Lit(Int(2)), Mul, UnaryOp(Neg, Lit(Int(3))))"
    );
    assert_eq!(
        expr("5 - -1"),
        "BinOp(Lit(Int(5)), Sub, UnaryOp(Neg, Lit(Int(1))))"
    );
    assert_eq!(
        expr("-2 + -3"),
        "BinOp(UnaryOp(Neg, Lit(Int(2))), Add, UnaryOp(Neg, Lit(Int(3))))"
    );
    assert_eq!(
        expr("6 / -2 - 1"),
        "BinOp(BinOp(Lit(Int(6)), Div, UnaryOp(Neg, Lit(Int(2)))), Sub, Lit(Int(1)))"
    );
}
