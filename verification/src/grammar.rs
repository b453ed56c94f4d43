//! What the parser makes of a script: the statements of each line-based block
//! and the expression that each piece of text denotes.
//!
//! Each function gives `None` exactly where parsing that text cannot complete
//! (an f-string literal made of its prefix and opening quote alone).
use vstd::prelude::*;
use crate::ast::{BinOp, SExpr, SLiteral, SOp, UnaryOp};
use crate::json::serde_json_accepts;
use crate::scan::{colon_from, depth0_hit, matching_opener, scan_start, split_args_spec, ScanState, scan_step, is_quote, is_plain};
use crate::text::{
    first_index_of,
    float_syntax,
    has_prefix,
    has_suffix,
    i64_parse,
    last_index_of,
    occurs_at,
    trimmed,
    unicode_alphabetic,
    unicode_alphanumeric,
};

verus! {

// ------------------------------------------------------------------
// Words of the language
// ------------------------------------------------------------------

pub open spec fn kw_or() -> Seq<char> {
    seq![' ', 'o', 'r', ' ']
}

pub open spec fn kw_and() -> Seq<char> {
    seq![' ', 'a', 'n', 'd', ' ']
}

pub open spec fn kw_not() -> Seq<char> {
    seq!['n', 'o', 't', ' ']
}

/// The comparison operators, in the order the parser tries them.
pub open spec fn comparison_text(j: int) -> Seq<char> {
    if j == 0 {
        seq!['=', '=']
    } else if j == 1 {
        seq!['!', '=']
    } else if j == 2 {
        seq!['>', '=']
    } else if j == 3 {
        seq!['<', '=']
    } else if j == 4 {
        seq!['>']
    } else {
        seq!['<']
    }
}

pub open spec fn comparison_op(j: int) -> BinOp {
    if j == 0 {
        BinOp::Eq
    } else if j == 1 {
        BinOp::Ne
    } else if j == 2 {
        BinOp::Ge
    } else if j == 3 {
        BinOp::Le
    } else if j == 4 {
        BinOp::Gt
    } else {
        BinOp::Lt
    }
}

pub open spec fn additive_ops() -> Seq<Seq<char>> {
    seq![seq!['+'], seq!['-']]
}

pub open spec fn multiplicative_ops() -> Seq<Seq<char>> {
    seq![seq!['*'], seq!['/'], seq!['%']]
}

/// A character of an identifier.
pub open spec fn ident_char(c: char) -> bool {
    unicode_alphanumeric(c) || c == '_'
}

/// Whether every character of `s` belongs to an identifier.
pub open spec fn all_ident(s: Seq<char>) -> bool {
    forall|i: int| 0 <= i < s.len() ==> ident_char(#[trigger] s[i])
}

/// Whether every character of `s` belongs to an identifier or is a dot.
pub open spec fn all_ident_or_dot(s: Seq<char>) -> bool {
    forall|i: int| 0 <= i < s.len() ==> ident_char(#[trigger] s[i]) || s[i] == '.'
}

/// The names that `module.function(...)` calls recognise before method calls.
pub open spec fn known_builtin(name: Seq<char>) -> bool {
    ||| name == seq!['n', 'e', 'a', 'r', '.', 'v', 'i', 'e', 'w']
    ||| name == seq!['n', 'e', 'a', 'r', '.', 'c', 'a', 'l', 'l']
    ||| name == seq!['n', 'e', 'a', 'r', '.', 'b', 'l', 'o', 'c', 'k']
    ||| name == seq![
        'n', 'e', 'a', 'r', '.', 'b', 'l', 'o', 'c', 'k', '_', 'h', 'e', 'i', 'g', 'h', 't'
    ]
    ||| name == seq![
        'n', 'e', 'a', 'r', '.', 'v', 'i', 'e', 'w', '_', 'a', 'c', 'c', 'o', 'u', 'n', 't'
    ]
    ||| name == seq![
        'n', 'e', 'a', 'r', '.', 'v', 'i', 'e', 'w', '_', 'a', 'c', 'c', 'e', 's', 's', '_', 'k', 'e', 'y'
    ]
    ||| name == seq![
        'n', 'e', 'a', 'r', '.', 's', 't', 'o', 'r', 'a', 'g', 'e', '.', 'g', 'e', 't'
    ]
    ||| name == seq![
        'n', 'e', 'a', 'r', '.', 's', 't', 'o', 'r', 'a', 'g', 'e', '.', 'p', 'u', 't'
    ]
    ||| name == seq!['j', 's', 'o', 'n', '.', 'd', 'u', 'm', 'p', 's']
    ||| name == seq!['j', 's', 'o', 'n', '.', 'l', 'o', 'a', 'd', 's']
    ||| name == seq!['h', 't', 't', 'p', '.', 'g', 'e', 't']
    ||| name == seq!['h', 't', 't', 'p', '.', 'p', 'o', 's', 't']
}

/// The expression that a call of `name` with `args` denotes: a builtin where the
/// name and the number of arguments select one, a user function call otherwise.
pub open spec fn builtin_call(name: Seq<char>, args: Seq<SExpr>) -> SExpr {
    let n = args.len();
    if name == seq!['n', 'e', 'a', 'r', '.', 'v', 'i', 'e', 'w'] && n >= 3 {
        SExpr::NearView(Box::new(args[0]), Box::new(args[1]), Box::new(args[2]))
    } else if name == seq!['n', 'e', 'a', 'r', '.', 'c', 'a', 'l', 'l'] {
        SExpr::NearCall(args)
    } else if name == seq!['n', 'e', 'a', 'r', '.', 'b', 'l', 'o', 'c', 'k'] && n >= 1 {
        SExpr::NearBlock(Box::new(args[0]))
    } else if name == seq![
        'n', 'e', 'a', 'r', '.', 'b', 'l', 'o', 'c', 'k', '_', 'h', 'e', 'i', 'g', 'h', 't'
    ] {
        SExpr::NearBlockHeight
    } else if name == seq![
        'n', 'e', 'a', 'r', '.', 'v', 'i', 'e', 'w', '_', 'a', 'c', 'c', 'o', 'u', 'n', 't'
    ] && n >= 1 {
        SExpr::NearViewAccount(Box::new(args[0]))
    } else if name == seq![
        'n', 'e', 'a', 'r', '.', 's', 't', 'o', 'r', 'a', 'g', 'e', '.', 'g', 'e', 't'
    ] && n >= 1 {
        SExpr::StorageGet(Box::new(args[0]))
    } else if name == seq![
        'n', 'e', 'a', 'r', '.', 's', 't', 'o', 'r', 'a', 'g', 'e', '.', 'p', 'u', 't'
    ] && n >= 2 {
        SExpr::StoragePut(Box::new(args[0]), Box::new(args[1]))
    } else if name == seq!['j', 's', 'o', 'n', '.', 'd', 'u', 'm', 'p', 's'] && n >= 1 {
        SExpr::JsonDumps(Box::new(args[0]))
    } else if name == seq!['j', 's', 'o', 'n', '.', 'l', 'o', 'a', 'd', 's'] && n >= 1 {
        SExpr::JsonLoads(Box::new(args[0]))
    } else if name == seq!['l', 'e', 'n'] && n >= 1 {
        SExpr::Len(Box::new(args[0]))
    } else if name == seq!['r', 'a', 'n', 'g', 'e'] {
        SExpr::Range(args)
    } else if name == seq!['i', 'n', 't'] && n >= 1 {
        SExpr::IntOf(Box::new(args[0]))
    } else if name == seq!['s', 't', 'r'] && n >= 1 {
        SExpr::StrOf(Box::new(args[0]))
    } else if name == seq!['t', 'y', 'p', 'e'] && n >= 1 {
        SExpr::TypeOf(Box::new(args[0]))
    } else if name == seq!['h', 't', 't', 'p', '.', 'g', 'e', 't'] && n >= 1 {
        SExpr::HttpGet(Box::new(args[0]))
    } else if name == seq!['h', 't', 't', 'p', '.', 'p', 'o', 's', 't'] && n >= 2 {
        SExpr::HttpPost(Box::new(args[0]), Box::new(args[1]))
    } else {
        SExpr::FuncCall(name, args)
    }
}

/// The position of the first `}` of `s` at or after `from`, or the length of `s`.
pub open spec fn brace_end(s: Seq<char>, from: int) -> int
    decreases s.len() - from,
{
    if from < 0 || from >= s.len() {
        s.len() as int
    } else if s[from] == '}' {
        from
    } else {
        brace_end(s, from + 1)
    }
}

/// The literal text of an f-string collected so far, as a part (if any).
pub open spec fn with_literal(parts: Seq<SExpr>, literal: Seq<char>) -> Seq<SExpr> {
    if literal.len() > 0 {
        parts.push(SExpr::Lit(SLiteral::Str(literal)))
    } else {
        parts
    }
}

/// The expression that the collected parts of an f-string make.
pub open spec fn join_parts(parts: Seq<SExpr>) -> SExpr {
    if parts.len() == 1 {
        parts[0]
    } else {
        SExpr::Concat(parts)
    }
}

// ------------------------------------------------------------------
// Expressions
// ------------------------------------------------------------------

/// An expression: `s` trimmed, then parsed from its weakest operator `or`.
#[verifier::opaque]
pub open spec fn expr_of(s: Seq<char>) -> Option<SExpr>
    decreases s.len(), 9int, 0int,
{
    proof {
        crate::text::lemma_trimmed_len(s);
    }
    or_of(trimmed(s))
}

/// `a or b`, split at the last top-level ` or `.
#[verifier::opaque]
pub open spec fn or_of(s: Seq<char>) -> Option<SExpr>
    decreases s.len(), 8int, 0int,
{
    match depth0_hit(s, seq![kw_or()], true) {
        Some((pos, len)) => {
            proof {
                crate::scan::lemma_depth0_hit_bounds(s, seq![kw_or()], true);
            }
            match (or_of(s.take(pos)), and_of(s.skip(pos + len))) {
                (Some(a), Some(b)) => Some(SExpr::BinOp(Box::new(a), BinOp::Or, Box::new(b))),
                _ => None,
            }
        },
        None => and_of(s),
    }
}

/// `a and b`, split at the last top-level ` and `.
#[verifier::opaque]
pub open spec fn and_of(s: Seq<char>) -> Option<SExpr>
    decreases s.len(), 7int, 0int,
{
    match depth0_hit(s, seq![kw_and()], true) {
        Some((pos, len)) => {
            proof {
                crate::scan::lemma_depth0_hit_bounds(s, seq![kw_and()], true);
            }
            match (and_of(s.take(pos)), not_of(s.skip(pos + len))) {
                (Some(a), Some(b)) => Some(SExpr::BinOp(Box::new(a), BinOp::And, Box::new(b))),
                _ => None,
            }
        },
        None => not_of(s),
    }
}

/// `not a`.
#[verifier::opaque]
pub open spec fn not_of(s: Seq<char>) -> Option<SExpr>
    decreases s.len(), 6int, 0int,
{
    proof {
        crate::text::lemma_trimmed_len(s);
    }
    let t = trimmed(s);
    if has_prefix(t, kw_not()) {
        match not_of(t.skip(4)) {
            Some(a) => Some(SExpr::UnaryOp(UnaryOp::Not, Box::new(a))),
            None => None,
        }
    } else {
        comparison_from(t, 0)
    }
}

/// A comparison, trying the operators from the `j`-th on: the first top-level
/// occurrence of an operator with text on both sides splits `s`.
#[verifier::opaque]
pub open spec fn comparison_from(s: Seq<char>, j: int) -> Option<SExpr>
    decreases s.len(), 5int, 6 - j,
{
    if j < 0 || j >= 6 {
        additive_of(s)
    } else {
        match depth0_hit(s, seq![comparison_text(j)], false) {
            Some((pos, len)) => {
                proof {
                    crate::scan::lemma_depth0_hit_bounds(s, seq![comparison_text(j)], false);
                    crate::text::lemma_trimmed_len(s.take(pos));
                    crate::text::lemma_trimmed_len(s.skip(pos + len));
                }
                let left = trimmed(s.take(pos));
                let right = trimmed(s.skip(pos + len));
                if left.len() == 0 || right.len() == 0 {
                    comparison_from(s, j + 1)
                } else {
                    match (additive_of(left), additive_of(right)) {
                        (Some(a), Some(b)) => Some(
                            SExpr::BinOp(Box::new(a), comparison_op(j), Box::new(b)),
                        ),
                        _ => None,
                    }
                }
            },
            None => comparison_from(s, j + 1),
        }
    }
}

/// Whether `c` is an operator character; a sign right after one is unary.
pub open spec fn is_operator_char(c: char) -> bool {
    c == '+' || c == '-' || c == '*' || c == '/' || c == '%' || c == '<' || c == '>' || c == '='
        || c == '!'
}

/// The last top-level `+` or `-` among the first `end` characters of `s` that
/// stands between two operands: text comes before it, and that text does not
/// end with an operator (a sign after an operator, or at the start, is unary).
pub open spec fn binary_sign_at(s: Seq<char>, end: int) -> Option<(int, int)>
    decreases end,
{
    if end <= 0 || end > s.len() {
        None
    } else {
        match depth0_hit(s.take(end), additive_ops(), true) {
            Some((pos, len)) => if 0 <= pos < end {
                let left = trimmed(s.take(pos));
                if left.len() > 0 && !is_operator_char(left.last()) {
                    Some((pos, len))
                } else {
                    binary_sign_at(s, pos)
                }
            } else {
                None
            },
            None => None,
        }
    }
}

/// A binary sign found lies inside the text and is one character long.
pub proof fn lemma_binary_sign_bounds(s: Seq<char>, end: int)
    ensures
        binary_sign_at(s, end) matches Some((pos, len)) ==> 0 <= pos && len == 1 && pos + len
            <= end <= s.len(),
    decreases end,
{
    if 0 < end <= s.len() {
        crate::scan::lemma_depth0_hit_bounds(s.take(end), additive_ops(), true);
        match depth0_hit(s.take(end), additive_ops(), true) {
            Some((pos, len)) => if 0 <= pos < end {
                lemma_binary_sign_bounds(s, pos);
            },
            None => {},
        }
    }
}

/// `a + b` or `a - b`, split at the last top-level binary `+` or `-` (see
/// `binary_sign_at`).
#[verifier::opaque]
pub open spec fn additive_of(s: Seq<char>) -> Option<SExpr>
    decreases s.len(), 4int, 0int,
{
    match binary_sign_at(s, s.len() as int) {
        Some((pos, len)) => {
            proof {
                lemma_binary_sign_bounds(s, s.len() as int);
                crate::text::lemma_trimmed_len(s.take(pos));
                crate::text::lemma_trimmed_len(s.skip(pos + len));
            }
            let left = trimmed(s.take(pos));
            let right = trimmed(s.skip(pos + len));
            let op = if s[pos] == '+' {
                BinOp::Add
            } else {
                BinOp::Sub
            };
            match (additive_of(left), multiplicative_of(right)) {
                (Some(a), Some(b)) => Some(SExpr::BinOp(Box::new(a), op, Box::new(b))),
                _ => None,
            }
        },
        None => multiplicative_of(s),
    }
}

/// `a * b`, `a / b` or `a % b`, split at the last top-level operator that has text before it.
#[verifier::opaque]
pub open spec fn multiplicative_of(s: Seq<char>) -> Option<SExpr>
    decreases s.len(), 3int, 0int,
{
    match depth0_hit(s, multiplicative_ops(), true) {
        Some((pos, len)) => {
            proof {
                crate::scan::lemma_depth0_hit_bounds(s, multiplicative_ops(), true);
                crate::text::lemma_trimmed_len(s.take(pos));
                crate::text::lemma_trimmed_len(s.skip(pos + len));
            }
            let left = trimmed(s.take(pos));
            let right = trimmed(s.skip(pos + len));
            if left.len() == 0 {
                unary_of(s)
            } else {
                let op = if s[pos] == '*' {
                    BinOp::Mul
                } else if s[pos] == '/' {
                    BinOp::Div
                } else {
                    BinOp::Mod
                };
                match (multiplicative_of(left), unary_of(right)) {
                    (Some(a), Some(b)) => Some(SExpr::BinOp(Box::new(a), op, Box::new(b))),
                    _ => None,
                }
            }
        },
        None => unary_of(s),
    }
}

/// `-a`.
#[verifier::opaque]
pub open spec fn unary_of(s: Seq<char>) -> Option<SExpr>
    decreases s.len(), 2int, 0int,
{
    proof {
        crate::text::lemma_trimmed_len(s);
    }
    let t = trimmed(s);
    if t.len() > 1 && t[0] == '-' {
        match unary_of(t.skip(1)) {
            Some(a) => Some(SExpr::UnaryOp(UnaryOp::Neg, Box::new(a))),
            None => None,
        }
    } else {
        postfix_of(t)
    }
}

/// Indexing `a[k]`, calls `f(args)` and `a.m(args)`, attributes `a.x`, or an atom.
#[verifier::opaque]
pub open spec fn postfix_of(s: Seq<char>) -> Option<SExpr>
    decreases s.len(), 1int, 2int,
{
    proof {
        crate::text::lemma_trimmed_len(s);
    }
    let t = trimmed(s);
    let n = t.len() as int;
    let index_open = if n > 0 && t.last() == ']' {
        matching_opener(t, ']', '[')
    } else {
        None
    };
    let call_open = if n > 0 && t.last() == ')' {
        matching_opener(t, ')', '(')
    } else {
        None
    };
    if index_open is Some && index_open->0 > 0 {
        let pos = index_open->0;
        proof {
            crate::scan::lemma_matching_opener_bounds(t, ']', '[');
        }
        match (postfix_of(t.take(pos)), expr_of(t.subrange(pos + 1, n - 1))) {
            (Some(a), Some(k)) => Some(SExpr::Index(Box::new(a), Box::new(k))),
            _ => None,
        }
    } else if call_open is Some && call_open->0 > 0 && call_form(t, call_open->0) {
        call_of(t, call_open->0)
    } else if attribute_form(t) {
        let dot = last_index_of(t, '.')->0;
        match postfix_of(t.take(dot)) {
            Some(a) => Some(SExpr::GetAttr(Box::new(a), t.skip(dot + 1))),
            None => None,
        }
    } else {
        atom_of(t)
    }
}

/// Whether the text before the call parentheses at `pp` ends with `.method`, the
/// method being a non-empty identifier.
pub open spec fn method_form(t: Seq<char>, pp: int) -> bool {
    let before = t.take(pp);
    last_index_of(before, '.') matches Some(dot) && before.skip(dot + 1).len() > 0 && all_ident(
        before.skip(dot + 1),
    )
}

/// Whether the text before the call parentheses at `pp`, trimmed, is a
/// non-empty name of identifier characters and dots.
pub open spec fn function_form(t: Seq<char>, pp: int) -> bool {
    let name = trimmed(t.take(pp));
    name.len() > 0 && all_ident_or_dot(name)
}

/// Whether `t`, which ends with the call parentheses opened at `pp`, is a call.
pub open spec fn call_form(t: Seq<char>, pp: int) -> bool {
    method_form(t, pp) || function_form(t, pp)
}

/// Whether `t` is `object.attribute`: after its last dot a non-empty identifier,
/// before it text that does not begin with a quote and is not a number.
pub open spec fn attribute_form(t: Seq<char>) -> bool {
    last_index_of(t, '.') matches Some(dot) && t.skip(dot + 1).len() > 0 && all_ident(
        t.skip(dot + 1),
    ) && !(t.take(dot).len() > 0 && is_quote(t.take(dot)[0])) && !float_syntax(t.take(dot))
}

/// The call `t`, its parentheses opened at `pp`.
#[verifier::opaque]
pub open spec fn call_of(t: Seq<char>, pp: int) -> Option<SExpr>
    decreases t.len(), 1int, 1int,
{
    if pp <= 0 || pp >= t.len() - 1 {
        None
    } else {
        let n = t.len() as int;
        let args_text = t.subrange(pp + 1, n - 1);
        if method_form(t, pp) {
            let before = t.take(pp);
            let dot = last_index_of(before, '.')->0;
            let object = before.take(dot);
            let method = before.skip(dot + 1);
            let full = object + seq!['.'] + method;
            if known_builtin(full) {
                function_call_of(full, args_text)
            } else {
                match (postfix_of(object), args_of(args_text)) {
                    (Some(o), Some(args)) => Some(
                        SExpr::MethodCall { object: Box::new(o), method, args },
                    ),
                    _ => None,
                }
            }
        } else {
            function_call_of(trimmed(t.take(pp)), args_text)
        }
    }
}

/// The arguments written in `text`, separated by top-level commas.
#[verifier::opaque]
pub open spec fn args_of(text: Seq<char>) -> Option<Seq<SExpr>>
    decreases text.len(), 11int, 0int,
{
    if trimmed(text).len() == 0 {
        Some(Seq::empty())
    } else {
        exprs_of(split_args_spec(text), text.len() as int)
    }
}

/// A call of `name` with the arguments written in `args_text`.
#[verifier::opaque]
pub open spec fn function_call_of(name: Seq<char>, args_text: Seq<char>) -> Option<SExpr>
    decreases args_text.len(), 12int, 0int,
{
    match args_of(args_text) {
        Some(args) => Some(builtin_call(name, args)),
        None => None,
    }
}

/// The expressions of `pieces`, each no longer than `bound`.
#[verifier::opaque]
pub open spec fn exprs_of(pieces: Seq<Seq<char>>, bound: int) -> Option<Seq<SExpr>>
    decreases bound, 10int, pieces.len(),
{
    if pieces.len() == 0 {
        Some(Seq::empty())
    } else if pieces[0].len() > bound {
        None
    } else {
        match (expr_of(pieces[0]), exprs_of(pieces.drop_first(), bound)) {
            (Some(e), Some(rest)) => Some(seq![e] + rest),
            _ => None,
        }
    }
}

/// The key and value expressions of the `key: value` pieces of a dictionary display
/// (pieces without a top-level colon are skipped), each piece no longer than `bound`.
#[verifier::opaque]
pub open spec fn pairs_of(pieces: Seq<Seq<char>>, bound: int) -> Option<(Seq<SExpr>, Seq<SExpr>)>
    decreases bound, 10int, pieces.len(),
{
    if pieces.len() == 0 {
        Some((Seq::empty(), Seq::empty()))
    } else if pieces[0].len() > bound {
        None
    } else {
        let p = pieces[0];
        match colon_from(p, 0, scan_start()) {
            Some(cp) => {
                proof {
                    crate::scan::lemma_colon_bounds(p, 0, scan_start());
                }
                match (expr_of(p.take(cp)), expr_of(p.skip(cp + 1)), pairs_of(pieces.drop_first(), bound)) {
                    (Some(k), Some(v), Some((ks, vs))) => Some((seq![k] + ks, seq![v] + vs)),
                    _ => None,
                }
            },
            None => pairs_of(pieces.drop_first(), bound),
        }
    }
}

/// The parts of the f-string `content` from position `i` on, with the literal
/// text collected so far and the parts made so far.
#[verifier::opaque]
pub open spec fn fstring_from(content: Seq<char>, i: int, literal: Seq<char>, parts: Seq<SExpr>) -> Option<SExpr>
    decreases content.len(), 10int, content.len() + 1 - i,
{
    let n = content.len() as int;
    if i < 0 || i >= n {
        Some(join_parts(with_literal(parts, literal)))
    } else if content[i] == '{' && i + 1 < n {
        let end = brace_end(content, i + 1);
        proof {
            lemma_brace_end_bounds(content, i + 1);
            crate::text::lemma_trimmed_len(content.subrange(i + 1, end));
        }
        match expr_of(trimmed(content.subrange(i + 1, end))) {
            Some(e) => fstring_from(content, end + 1, Seq::empty(), with_literal(parts, literal).push(e)),
            None => None,
        }
    } else {
        fstring_from(content, i + 1, literal.push(content[i]), parts)
    }
}

/// Whether `t` begins with `f` and a quote and ends with that quote.
pub open spec fn fstring_form(t: Seq<char>) -> bool {
    t.len() >= 2 && t[0] == 'f' && is_quote(t[1]) && t.last() == t[1]
}

/// Whether `t` is a quoted string literal.
pub open spec fn string_form(t: Seq<char>) -> bool {
    t.len() >= 2 && is_quote(t[0]) && t.last() == t[0]
}

/// Whether `t` is an identifier: a letter or underscore, then identifier characters.
pub open spec fn identifier_form(t: Seq<char>) -> bool {
    t.len() > 0 && (unicode_alphabetic(t[0]) || t[0] == '_') && all_ident(t)
}

/// Literals, displays, f-strings, numbers and names.
#[verifier::opaque]
pub open spec fn atom_of(s: Seq<char>) -> Option<SExpr>
    decreases s.len(), 0int, 2int,
{
    proof {
        crate::text::lemma_trimmed_len(s);
    }
    let t = trimmed(s);
    let n = t.len() as int;
    if t == seq!['n', 'e', 'a', 'r', '.', 'b', 'l', 'o', 'c', 'k', '_', 'h', 'e', 'i', 'g', 'h', 't', '(', ')'] {
        Some(SExpr::NearBlockHeight)
    } else if t == seq!['T', 'r', 'u', 'e'] {
        Some(SExpr::Lit(SLiteral::Bool(true)))
    } else if t == seq!['F', 'a', 'l', 's', 'e'] {
        Some(SExpr::Lit(SLiteral::Bool(false)))
    } else if t == seq!['N', 'o', 'n', 'e'] {
        Some(SExpr::Lit(SLiteral::PyNone))
    } else if n >= 2 && t[0] == '[' && t.last() == ']' {
        match args_of(t.subrange(1, n - 1)) {
            Some(items) => Some(SExpr::ListLiteral(items)),
            None => None,
        }
    } else if n >= 2 && t[0] == '{' && t.last() == '}' && t == seq!['{', '}'] {
        Some(SExpr::Lit(SLiteral::EmptyDict))
    } else if n >= 2 && t[0] == '{' && t.last() == '}' && serde_json_accepts(t) {
        Some(SExpr::Lit(SLiteral::Json(t)))
    } else if n >= 2 && t[0] == '{' && t.last() == '}' && dict_display_of(t.subrange(1, n - 1)) != Some((Seq::<SExpr>::empty(), Seq::<SExpr>::empty())) {
        match dict_display_of(t.subrange(1, n - 1)) {
            Some((keys, values)) => Some(SExpr::DictLiteralExpr(keys, values)),
            None => None,
        }
    } else {
        scalar_of(t)
    }
}

/// The `key: value` pairs written in `inner`.
#[verifier::opaque]
pub open spec fn dict_display_of(inner: Seq<char>) -> Option<(Seq<SExpr>, Seq<SExpr>)>
    decreases inner.len(), 11int, 0int,
{
    if trimmed(inner).len() == 0 {
        Some((Seq::empty(), Seq::empty()))
    } else {
        pairs_of(split_args_spec(inner), inner.len() as int)
    }
}

/// f-strings, string literals, numbers, names, and otherwise the text itself.
#[verifier::opaque]
pub open spec fn scalar_of(t: Seq<char>) -> Option<SExpr>
    decreases t.len(), 0int, 1int,
{
    let n = t.len() as int;
    if fstring_form(t) {
        if n < 3 {
            None
        } else {
            fstring_from(t.subrange(2, n - 1), 0, Seq::empty(), Seq::empty())
        }
    } else if string_form(t) {
        Some(SExpr::Lit(SLiteral::Str(t.subrange(1, n - 1))))
    } else if i64_parse(t) is Some {
        Some(SExpr::Lit(SLiteral::Int(i64_parse(t)->0)))
    } else if float_syntax(t) {
        Some(SExpr::Lit(SLiteral::Float(t)))
    } else if identifier_form(t) {
        Some(SExpr::Var(t))
    } else {
        Some(SExpr::Lit(SLiteral::Str(t)))
    }
}

pub proof fn lemma_brace_end_bounds(s: Seq<char>, from: int)
    requires
        0 <= from <= s.len(),
    ensures
        from <= brace_end(s, from) <= s.len(),
        brace_end(s, from) < s.len() ==> s[brace_end(s, from)] == '}',
        forall|j: int| from <= j < brace_end(s, from) ==> s[j] != '}',
    decreases s.len() - from,
{
    if from < s.len() && s[from] != '}' {
        lemma_brace_end_bounds(s, from + 1);
    }
}


// ------------------------------------------------------------------
// Statements
// ------------------------------------------------------------------

pub open spec fn kw_def() -> Seq<char> {
    seq!['d', 'e', 'f', ' ']
}

pub open spec fn kw_while() -> Seq<char> {
    seq!['w', 'h', 'i', 'l', 'e', ' ']
}

pub open spec fn kw_if() -> Seq<char> {
    seq!['i', 'f', ' ']
}

pub open spec fn kw_for() -> Seq<char> {
    seq!['f', 'o', 'r', ' ']
}

pub open spec fn kw_in() -> Seq<char> {
    seq![' ', 'i', 'n', ' ']
}

pub open spec fn kw_try() -> Seq<char> {
    seq!['t', 'r', 'y', ':']
}

pub open spec fn kw_except() -> Seq<char> {
    seq!['e', 'x', 'c', 'e', 'p', 't']
}

pub open spec fn kw_return() -> Seq<char> {
    seq!['r', 'e', 't', 'u', 'r', 'n']
}

pub open spec fn kw_break() -> Seq<char> {
    seq!['b', 'r', 'e', 'a', 'k']
}

pub open spec fn kw_continue() -> Seq<char> {
    seq!['c', 'o', 'n', 't', 'i', 'n', 'u', 'e']
}

pub open spec fn kw_print() -> Seq<char> {
    seq!['p', 'r', 'i', 'n', 't', '(']
}

pub open spec fn kw_elif() -> Seq<char> {
    seq!['e', 'l', 'i', 'f', ' ']
}

pub open spec fn kw_else() -> Seq<char> {
    seq!['e', 'l', 's', 'e']
}

/// The number of spaces that begin `s`.
pub open spec fn leading_spaces(s: Seq<char>) -> nat
    decreases s.len(),
{
    if s.len() > 0 && s[0] == ' ' {
        1 + leading_spaces(s.drop_first())
    } else {
        0
    }
}

/// The indentation level of a line: its leading spaces in fours.
pub open spec fn indent_of(line: Seq<char>) -> nat {
    leading_spaces(line) / 4
}

/// Whether a line holds nothing but white space.
pub open spec fn blank(line: Seq<char>) -> bool {
    trimmed(line).len() == 0
}

/// The end of the block that starts at line `i`: the first line before `end`
/// that is not blank and is indented less than `target`, or `end`.
pub open spec fn block_end_from(lines: Seq<Seq<char>>, i: int, end: int, target: int) -> int
    decreases end - i,
{
    if i >= end {
        i
    } else if blank(lines[i]) {
        block_end_from(lines, i + 1, end, target)
    } else if indent_of(lines[i]) < target {
        i
    } else {
        block_end_from(lines, i + 1, end, target)
    }
}

/// The end of a `try` body from line `j` on: the first line that is not blank and
/// is indented less than the body, and, where that line is an `except` clause at
/// the `try`'s own indentation, its position.
pub open spec fn try_scan(lines: Seq<Seq<char>>, j: int, end: int, base: int) -> (int, Option<int>)
    decreases end - j,
{
    if j >= end {
        (j, None)
    } else if blank(lines[j]) {
        try_scan(lines, j + 1, end, base)
    } else if indent_of(lines[j]) == base && has_prefix(trimmed(lines[j]), kw_except()) {
        (j, Some(j))
    } else if indent_of(lines[j]) < base + 1 {
        (j, None)
    } else {
        try_scan(lines, j + 1, end, base)
    }
}

/// The first position at or after `k` where `p` occurs in `s`.
pub open spec fn occurrence_from(s: Seq<char>, p: Seq<char>, k: int) -> Option<int>
    decreases s.len() + 1 - k,
{
    if k < 0 || k + p.len() > s.len() {
        None
    } else if occurs_at(s, p, k) {
        Some(k)
    } else {
        occurrence_from(s, p, k + 1)
    }
}

/// The pieces of `s` between its commas (`str::split(',')`).
pub open spec fn split_commas(s: Seq<char>) -> Seq<Seq<char>>
    decreases s.len(),
{
    match first_index_of(s, ',') {
        Some(k) => if 0 <= k < s.len() {
            seq![s.take(k)] + split_commas(s.skip(k + 1))
        } else {
            seq![s]
        },
        None => seq![s],
    }
}

/// Each text of `v`, trimmed.
pub open spec fn trim_all(v: Seq<Seq<char>>) -> Seq<Seq<char>> {
    v.map_values(|x: Seq<char>| trimmed(x))
}

/// The name and parameters of the `def name(params):` line `t`.
pub open spec fn def_parts(t: Seq<char>) -> (Seq<char>, Seq<Seq<char>>) {
    let d = t.subrange(4, t.len() - 1);
    match first_index_of(d, '(') {
        Some(p) => {
            let params = if d.len() > 0 && d.last() == ')' {
                let inner = d.subrange(p + 1, d.len() - 1);
                if trimmed(inner).len() == 0 {
                    Seq::empty()
                } else {
                    trim_all(split_commas(inner))
                }
            } else {
                Seq::empty()
            };
            (trimmed(d.take(p)), params)
        },
        None => (trimmed(d), Seq::empty()),
    }
}

/// The first `=` outside strings and brackets, from position `k` on, that is not
/// part of `==`, `!=`, `<=`, `>=`, `+=`, `-=`, `*=` or `/=` (neither `=` of `==`).
pub open spec fn assign_from(s: Seq<char>, k: int, st: ScanState) -> Option<int>
    decreases s.len() - k,
{
    if k < 0 || k >= s.len() {
        None
    } else if !st.in_string && s[k] == '=' && st.depth == 0 {
        if (k + 1 < s.len() && s[k + 1] == '=') || (k > 0 && (s[k - 1] == '!' || s[k - 1] == '<'
            || s[k - 1] == '>' || s[k - 1] == '=')) || (k > 0 && (s[k - 1] == '+' || s[k - 1] == '-' || s[k - 1]
            == '*' || s[k - 1] == '/')) {
            assign_from(s, k + 1, st)
        } else {
            Some(k)
        }
    } else {
        assign_from(s, k + 1, scan_step(s, k, st, true))
    }
}

/// The first `+=`, `-=`, `*=` or `/=` outside strings and brackets, from position `k` on.
pub open spec fn augmented_from(s: Seq<char>, k: int, st: ScanState) -> Option<int>
    decreases s.len() - k,
{
    if k < 0 || k + 1 >= s.len() {
        None
    } else if !st.in_string && is_plain(s[k]) && st.depth == 0 && (s[k] == '+' || s[k] == '-'
        || s[k] == '*' || s[k] == '/') && s[k + 1] == '=' {
        Some(k)
    } else {
        augmented_from(s, k + 1, scan_step(s, k, st, true))
    }
}

/// Whether an assignment target is a plain name (no call, index or attribute).
pub open spec fn plain_target(var: Seq<char>) -> bool {
    !var.contains('(') && !var.contains('[') && !var.contains('.')
}

/// The target and the value text of the assignment `t`, if it is one.
pub open spec fn assignment_parts(t: Seq<char>) -> Option<(Seq<char>, Seq<char>)> {
    match assign_from(t, 0, scan_start()) {
        Some(eq) => {
            let var = trimmed(t.take(eq));
            let rest = t.skip(eq + 1);
            if rest.len() > 0 && rest[0] == '=' {
                None
            } else if !plain_target(var) {
                None
            } else {
                Some((var, trimmed(rest)))
            }
        },
        None => None,
    }
}

/// The operator of an augmented assignment.
pub open spec fn augmented_op(c: char) -> BinOp {
    if c == '+' {
        BinOp::Add
    } else if c == '-' {
        BinOp::Sub
    } else if c == '*' {
        BinOp::Mul
    } else if c == '/' {
        BinOp::Div
    } else {
        BinOp::Add
    }
}

/// The target, operator and value text of the augmented assignment `t`, if it is one.
pub open spec fn augmented_parts(t: Seq<char>) -> Option<(Seq<char>, BinOp, Seq<char>)> {
    match augmented_from(t, 0, scan_start()) {
        Some(pos) => {
            let var = trimmed(t.take(pos));
            if plain_target(var) {
                Some((var, augmented_op(t[pos]), trimmed(t.skip(pos + 2))))
            } else {
                None
            }
        },
        None => None,
    }
}

/// The text between `for ` and the final colon, trimmed.
pub open spec fn for_text(t: Seq<char>) -> Seq<char> {
    trimmed(t.subrange(4, t.len() - 1))
}

/// `op` followed by `rest`, when both are there.
pub open spec fn then_ops(op: Option<SOp>, rest: Option<Seq<SOp>>) -> Option<Seq<SOp>> {
    match (op, rest) {
        (Some(o), Some(r)) => Some(seq![o] + r),
        _ => None,
    }
}

/// The statements of lines `i` to `end` of a block indented at `base`: blank and
/// comment lines are skipped, and the block ends at a line indented less.
#[verifier::opaque]
pub open spec fn block_from(lines: Seq<Seq<char>>, i: int, end: int, base: int) -> Option<Seq<SOp>>
    decreases end - i, 2int,
{
    if i < 0 || i >= end {
        Some(Seq::empty())
    } else if blank(lines[i]) || trimmed(lines[i])[0] == '#' {
        block_from(lines, i + 1, end, base)
    } else if indent_of(lines[i]) < base {
        Some(Seq::empty())
    } else {
        statement_at(lines, i, end, base)
    }
}

/// The statements from line `i` on, line `i` holding a statement of the block.
#[verifier::rlimit(60)]
#[verifier::spinoff_prover]
#[verifier::opaque]
pub open spec fn statement_at(lines: Seq<Seq<char>>, i: int, end: int, base: int) -> Option<Seq<SOp>>
    decreases end - i, 1int,
{
    if i < 0 || i >= end {
        Some(Seq::empty())
    } else {
        let t = trimmed(lines[i]);
        let n = t.len() as int;
        let colon_end = has_suffix(t, seq![':']);
        if has_prefix(t, kw_def()) && colon_end {
            let be = block_end_from(lines, i + 1, end, base + 1);
            proof {
                lemma_block_end_bounds(lines, i + 1, end, base + 1);
            }
            let body = block_from(lines, i + 1, be, base + 1);
            then_ops(
                match body {
                    Some(b) => Some(SOp::Def(def_parts(t).0, def_parts(t).1, b)),
                    None => None,
                },
                block_from(lines, be, end, base),
            )
        } else if has_prefix(t, kw_while()) && colon_end {
            let be = block_end_from(lines, i + 1, end, base + 1);
            proof {
                lemma_block_end_bounds(lines, i + 1, end, base + 1);
            }
            then_ops(
                match (expr_of(trimmed(t.subrange(6, n - 1))), block_from(lines, i + 1, be, base + 1)) {
                    (Some(c), Some(b)) => Some(SOp::While(c, b)),
                    _ => None,
                },
                block_from(lines, be, end, base),
            )
        } else if has_prefix(t, kw_if()) && colon_end {
            match (expr_of(trimmed(t.subrange(3, n - 1))), if_block_of(lines, i + 1, end, base)) {
                (Some(c), Some((a, b, next))) => if i < next <= end {
                    then_ops(Some(SOp::If(c, a, b)), block_from(lines, next, end, base))
                } else {
                    None
                },
                _ => None,
            }
        } else if has_prefix(t, kw_for()) && colon_end && occurrence_from(for_text(t), kw_in(), 0) is Some {
            let f = for_text(t);
            let k = occurrence_from(f, kw_in(), 0)->0;
            let be = block_end_from(lines, i + 1, end, base + 1);
            proof {
                lemma_block_end_bounds(lines, i + 1, end, base + 1);
            }
            then_ops(
                match (expr_of(trimmed(f.skip(k + 4))), block_from(lines, i + 1, be, base + 1)) {
                    (Some(e), Some(b)) => Some(SOp::For(trimmed(f.take(k)), e, b)),
                    _ => None,
                },
                block_from(lines, be, end, base),
            )
        } else if t == kw_try() {
            let (be, except_line) = try_scan(lines, i + 1, end, base);
            proof {
                lemma_try_scan_bounds(lines, i + 1, end, base);
            }
            match except_line {
                Some(e) => {
                    let ebe = block_end_from(lines, e + 1, end, base + 1);
                    proof {
                        lemma_block_end_bounds(lines, e + 1, end, base + 1);
                    }
                    then_ops(
                        match (block_from(lines, i + 1, be, base + 1), block_from(lines, e + 1, ebe, base + 1)) {
                            (Some(a), Some(b)) => Some(SOp::TryExcept(a, b)),
                            _ => None,
                        },
                        block_from(lines, ebe, end, base),
                    )
                },
                None => then_ops(
                    match block_from(lines, i + 1, be, base + 1) {
                        Some(a) => Some(SOp::TryExcept(a, Seq::empty())),
                        None => None,
                    },
                    block_from(lines, be, end, base),
                ),
            }
        } else if has_prefix(t, kw_return()) && (n == 6 || t[6] == ' ') {
            then_ops(
                if n > 6 && t[6] == ' ' {
                    match expr_of(t.skip(7)) {
                        Some(e) => Some(SOp::Return(Some(e))),
                        None => None,
                    }
                } else {
                    Some(SOp::Return(None))
                },
                block_from(lines, i + 1, end, base),
            )
        } else if t == kw_break() {
            then_ops(Some(SOp::Break), block_from(lines, i + 1, end, base))
        } else if t == kw_continue() {
            then_ops(Some(SOp::Continue), block_from(lines, i + 1, end, base))
        } else if has_prefix(t, kw_print()) && has_suffix(t, seq![')']) {
            then_ops(
                match expr_of(t.subrange(6, n - 1)) {
                    Some(e) => Some(SOp::Print(e)),
                    None => None,
                },
                block_from(lines, i + 1, end, base),
            )
        } else if assignment_parts(t) is Some {
            let (var, text) = assignment_parts(t)->0;
            then_ops(
                match expr_of(text) {
                    Some(e) => Some(SOp::Assign(var, e)),
                    None => None,
                },
                block_from(lines, i + 1, end, base),
            )
        } else if augmented_parts(t) is Some {
            let (var, op, text) = augmented_parts(t)->0;
            then_ops(
                match expr_of(text) {
                    Some(e) => Some(
                        SOp::Assign(var, SExpr::BinOp(Box::new(SExpr::Var(var)), op, Box::new(e))),
                    ),
                    None => None,
                },
                block_from(lines, i + 1, end, base),
            )
        } else {
            then_ops(
                match expr_of(t) {
                    Some(e) => Some(SOp::ExprStmt(e)),
                    None => None,
                },
                block_from(lines, i + 1, end, base),
            )
        }
    }
}

/// The body of an `if` whose first body line is `bs`, its `elif`/`else` part,
/// and the line after them.
#[verifier::opaque]
pub open spec fn if_block_of(lines: Seq<Seq<char>>, bs: int, end: int, base: int) -> Option<
    (Seq<SOp>, Seq<SOp>, int),
>
    decreases end - bs, 3int,
{
    if bs < 0 || bs > end {
        None
    } else {
        let be = block_end_from(lines, bs, end, base + 1);
        proof {
            lemma_block_end_bounds(lines, bs, end, base + 1);
        }
        match block_from(lines, bs, be, base + 1) {
            None => None,
            Some(body) => if be < end && indent_of(lines[be]) == base {
                let l = trimmed(lines[be]);
                if has_prefix(l, kw_elif()) && has_suffix(l, seq![':']) {
                    match (expr_of(trimmed(l.subrange(5, l.len() - 1))), if_block_of(lines, be + 1, end, base)) {
                        (Some(c), Some((eb, ee, en))) => Some((body, seq![SOp::If(c, eb, ee)], en)),
                        _ => None,
                    }
                } else if has_prefix(l, kw_else()) && has_suffix(l, seq![':']) {
                    let ebe = block_end_from(lines, be + 1, end, base + 1);
                    proof {
                        lemma_block_end_bounds(lines, be + 1, end, base + 1);
                    }
                    match block_from(lines, be + 1, ebe, base + 1) {
                        Some(eb) => Some((body, eb, ebe)),
                        None => None,
                    }
                } else {
                    Some((body, Seq::empty(), be))
                }
            } else {
                Some((body, Seq::empty(), be))
            },
        }
    }
}

/// The statements of a script.
pub open spec fn program_of(source: Seq<char>) -> Option<Seq<SOp>> {
    let lines = crate::text::lines_of(source);
    block_from(lines, 0, lines.len() as int, 0)
}

pub proof fn lemma_block_end_bounds(lines: Seq<Seq<char>>, i: int, end: int, target: int)
    requires
        i <= end,
    ensures
        i <= block_end_from(lines, i, end, target) <= end,
    decreases end - i,
{
    if i < end {
        lemma_block_end_bounds(lines, i + 1, end, target);
    }
}

pub proof fn lemma_try_scan_bounds(lines: Seq<Seq<char>>, j: int, end: int, base: int)
    requires
        j <= end,
    ensures
        j <= try_scan(lines, j, end, base).0 <= end,
        try_scan(lines, j, end, base).1 matches Some(e) ==> j <= e < end,
    decreases end - j,
{
    if j < end {
        lemma_try_scan_bounds(lines, j + 1, end, base);
    }
}


/// Surrounding white space does not change what an expression means.
pub proof fn law_expression_ignores_surrounding_space(s: Seq<char>)
    ensures
        expr_of(s) == expr_of(trimmed(s)),
{
    reveal(expr_of);
    crate::text::law_trim_idempotent(s);
}

/// Blank lines and comment lines (`# ...`) add no statement to a block.
pub proof fn law_blank_and_comment_lines_ignored(lines: Seq<Seq<char>>, i: int, end: int, base: int)
    requires
        0 <= i < end,
        blank(lines[i]) || trimmed(lines[i])[0] == '#',
    ensures
        block_from(lines, i, end, base) == block_from(lines, i + 1, end, base),
{
    reveal(block_from);
}

/// A line indented less than the block ends the block: nothing from it on belongs to it.
pub proof fn law_dedent_ends_block(lines: Seq<Seq<char>>, i: int, end: int, base: int)
    requires
        0 <= i < end,
        !blank(lines[i]),
        trimmed(lines[i])[0] != '#',
        indent_of(lines[i]) < base,
    ensures
        block_from(lines, i, end, base) == Some(Seq::<SOp>::empty()),
{
    reveal(block_from);
}

/// A line that begins with `return` followed by more of a word (such as
/// `return_value = 5`) is not a `return` statement.
#[verifier::spinoff_prover]
#[verifier::rlimit(60)]
pub proof fn law_return_needs_a_word_boundary(lines: Seq<Seq<char>>, i: int, end: int, base: int)
    requires
        0 <= i < end,
        has_prefix(trimmed(lines[i]), kw_return()),
        trimmed(lines[i]).len() > 6,
        trimmed(lines[i])[6] != ' ',
    ensures
        statement_at(lines, i, end, base) matches Some(ops) ==> ops.len() > 0 && !(ops[0] is Return),
{
    reveal(statement_at);
    let t = trimmed(lines[i]);
    assert(t[0] == t.subrange(0, 6)[0]);
    assert(t[0] == 'r');
    assert(!has_prefix(t, kw_def())) by {
        if has_prefix(t, kw_def()) {
            assert(t[0] == t.subrange(0, 4)[0]);
        }
    }
    assert(!has_prefix(t, kw_while())) by {
        if has_prefix(t, kw_while()) {
            assert(t[0] == t.subrange(0, 6)[0]);
        }
    }
    assert(!has_prefix(t, kw_if())) by {
        if has_prefix(t, kw_if()) {
            assert(t[0] == t.subrange(0, 3)[0]);
        }
    }
    assert(!has_prefix(t, kw_for())) by {
        if has_prefix(t, kw_for()) {
            assert(t[0] == t.subrange(0, 4)[0]);
        }
    }
    assert(!has_prefix(t, kw_print())) by {
        if has_prefix(t, kw_print()) {
            assert(t[0] == t.subrange(0, 6)[0]);
        }
    }
    assert(t != kw_try()) by {
        if t == kw_try() {
            assert(t[0] == 't');
        }
    }
    assert(t != kw_break()) by {
        if t == kw_break() {
            assert(t[0] == 'b');
        }
    }
    assert(t != kw_continue()) by {
        if t == kw_continue() {
            assert(t[0] == 'c');
        }
    }
}

} // verus!
