//! The parser's postfix forms: indexing, calls and attributes.
//!
//! Every function here computes exactly what the `grammar` module says of its
//! text. Where a text has no parse (an f-string made of its prefix and
//! opening quote alone), these functions answer `None`.
use vstd::prelude::*;
use crate::ast::{
    exprs_view,
    expr_view,
    lemma_exprs_view_len,
    lemma_exprs_view_push,
    BinOp,
    Expr,
    Literal,
    SExpr,
    UnaryOp,
};
use crate::parser::{
    after_exprs,
    all_ident_chars,
    all_ident_or_dot_chars,
    is_known_builtin,
    opt_expr_view,
    opt_exprs_view,
    Parser,
};
use crate::grammar::{
    additive_of,
    additive_ops,
    all_ident,
    all_ident_or_dot,
    and_of,
    args_of,
    atom_of,
    attribute_form,
    brace_end,
    builtin_call,
    call_of,
    comparison_from,
    comparison_op,
    comparison_text,
    dict_display_of,
    expr_of,
    exprs_of,
    fstring_from,
    function_call_of,
    function_form,
    ident_char,
    known_builtin,
    kw_and,
    kw_not,
    kw_or,
    lemma_brace_end_bounds,
    method_form,
    multiplicative_of,
    multiplicative_ops,
    not_of,
    or_of,
    pairs_of,
    postfix_of,
    scalar_of,
    unary_of,
    with_literal,
};
use crate::json::json_text_accepted;
use crate::scan::{
    find_at_depth0,
    find_colon,
    find_matching_bracket,
    find_matching_paren,
    lemma_colon_bounds,
    lemma_depth0_hit_bounds,
    lemma_matching_opener_bounds,
    lemma_split_args_bounds,
    needle_texts,
    scan_start,
    slice_texts,
    split_args,
    split_args_spec,
};
use crate::text::{
    chars_equal,
    is_alphabetic,
    is_alphanumeric,
    is_float_literal,
    lemma_trimmed_len,
    parse_i64,
    rfind_char,
    string_of,
    trim,
    trimmed,
};

verus! {

impl Parser {
    /// Whether `t`, which ends with parentheses opened at `pp`, is `object.method(...)`.
    #[verifier::spinoff_prover]
    pub(crate) fn method_form(t: &[char], pp: usize) -> (r: bool)
        requires
            pp <= t@.len(),
        ensures
            r == method_form(t@, pp as int),
    {
        let before = &t[0..pp];
        proof {
            assert(before@ =~= t@.take(pp as int));
        }
        match rfind_char(before, '.') {
            Some(dot) => {
                let m = &before[dot + 1..pp];
                proof {
                    assert(m@ =~= before@.skip(dot + 1));
                }
                m.len() > 0 && all_ident_chars(m)
            },
            None => false,
        }
    }

    /// Whether `t`, which ends with parentheses opened at `pp`, is `name(...)`.
    #[verifier::spinoff_prover]
    pub(crate) fn function_form(t: &[char], pp: usize) -> (r: bool)
        requires
            pp <= t@.len(),
        ensures
            r == function_form(t@, pp as int),
    {
        let name = trim(&t[0..pp]);
        proof {
            assert(t@.subrange(0, pp as int) =~= t@.take(pp as int));
        }
        name.len() > 0 && all_ident_or_dot_chars(name)
    }

    /// Whether `t` is `object.attribute`.
    #[verifier::spinoff_prover]
    pub(crate) fn attribute_form(t: &[char]) -> (r: bool)
        ensures
            r == attribute_form(t@),
    {
        match rfind_char(t, '.') {
            Some(dot) => {
                let attr = &t[dot + 1..t.len()];
                let object = &t[0..dot];
                proof {
                    assert(attr@ =~= t@.skip(dot + 1));
                    assert(object@ =~= t@.take(dot as int));
                }
                attr.len() > 0 && all_ident_chars(attr) && !(object.len() > 0 && (object[0] == '"'
                    || object[0] == '\'')) && !is_float_literal(object)
            },
            None => false,
        }
    }

    #[verifier::spinoff_prover]
    pub(crate) fn parse_postfix(s: &[char]) -> (r: Option<Expr>)
        requires
            s@.len() < i32::MAX,
        ensures
            opt_expr_view(r) == postfix_of(s@),
        decreases s@.len(), 1int, 2int,
    {
        reveal(postfix_of);
        proof {
            lemma_trimmed_len(s@);
        }
        let t = trim(s);
        let n = t.len();
        let index_open = if n > 0 && t[n - 1] == ']' {
            find_matching_bracket(t)
        } else {
            None
        };
        let call_open = if n > 0 && t[n - 1] == ')' {
            find_matching_paren(t)
        } else {
            None
        };
        proof {
            lemma_matching_opener_bounds(t@, ']', '[');
            lemma_matching_opener_bounds(t@, ')', '(');
        }
        if index_open.is_some() && index_open.unwrap() > 0 {
            let pos = index_open.unwrap();
            match Self::parse_postfix(&t[0..pos]) {
                Some(a) => match Self::parse_expr(&t[pos + 1..n - 1]) {
                    Some(k) => Some(Expr::Index(Box::new(a), Box::new(k))),
                    None => None,
                },
                None => None,
            }
        } else if call_open.is_some() && call_open.unwrap() > 0 && (Self::method_form(
            t,
            call_open.unwrap(),
        ) || Self::function_form(t, call_open.unwrap())) {
            Self::parse_call(t, call_open.unwrap())
        } else if Self::attribute_form(t) {
            let dot = rfind_char(t, '.').unwrap();
            let attr = &t[dot + 1..n];
            proof {
                assert(attr@ =~= t@.skip(dot + 1));
            }
            match Self::parse_postfix(&t[0..dot]) {
                Some(a) => Some(Expr::GetAttr(Box::new(a), string_of(attr))),
                None => None,
            }
        } else {
            Self::parse_atom(t)
        }
    }

    /// The call `t`, its parentheses opened at `pp`.
    #[verifier::spinoff_prover]
    pub(crate) fn parse_call(t: &[char], pp: usize) -> (r: Option<Expr>)
        requires
            t@.len() < i32::MAX,
            0 < pp < t@.len() - 1,
        ensures
            opt_expr_view(r) == call_of(t@, pp as int),
        decreases t@.len(), 1int, 1int,
    {
        reveal(call_of);
        let n = t.len();
        let args_text = &t[pp + 1..n - 1];
        if Self::method_form(t, pp) {
            let before = &t[0..pp];
            let dot = rfind_char(before, '.').unwrap();
            let object = &before[0..dot];
            let method = &before[dot + 1..pp];
            let mut full: Vec<char> = Vec::new();
            let mut i: usize = 0;
            while i < dot
                invariant
                    i <= dot <= object@.len(),
                    dot == object@.len(),
                    full@ == object@.take(i as int),
                decreases dot - i,
            {
                full.push(object[i]);
                i = i + 1;
                assert(full@ =~= object@.take(i as int));
            }
            full.push('.');
            let mut j: usize = 0;
            while j < method.len()
                invariant
                    j <= method@.len(),
                    full@ == object@ + seq!['.'] + method@.take(j as int),
                decreases method@.len() - j,
            {
                full.push(method[j]);
                j = j + 1;
                assert(full@ =~= object@ + seq!['.'] + method@.take(j as int));
            }
            proof {
                assert(object@ =~= t@.take(pp as int).take(dot as int));
                assert(method@ =~= t@.take(pp as int).skip(dot + 1));
                assert(method@.take(method@.len() as int) =~= method@);
                assert(object@.take(dot as int) =~= object@);
            }
            if is_known_builtin(full.as_slice()) {
                Self::parse_function_call(full.as_slice(), args_text)
            } else {
                match Self::parse_postfix(object) {
                    Some(o) => match Self::parse_args(args_text) {
                        Some(args) => Some(
                            Expr::MethodCall { object: Box::new(o), method: string_of(method), args },
                        ),
                        None => None,
                    },
                    None => None,
                }
            }
        } else {
            let name = trim(&t[0..pp]);
            proof {
                assert(t@.subrange(0, pp as int) =~= t@.take(pp as int));
            }
            Self::parse_function_call(name, args_text)
        }
    }

    /// The arguments written in `text`, separated by top-level commas.
    #[verifier::spinoff_prover]
    pub(crate) fn parse_args(text: &[char]) -> (r: Option<Vec<Expr>>)
        requires
            text@.len() < i32::MAX,
        ensures
            opt_exprs_view(r) == args_of(text@),
        decreases text@.len(), 11int, 0int,
    {
        reveal(args_of);
        if trim(text).len() == 0 {
            assert(exprs_view(Seq::<Expr>::empty()) =~= Seq::<SExpr>::empty());
            return Some(Vec::new());
        }
        let pieces = split_args(text);
        proof {
            lemma_split_args_bounds(text@);
        }
        Self::parse_exprs(&pieces, text.len())
    }

    /// The expressions of `pieces`, each no longer than `bound`.
    #[verifier::spinoff_prover]
    pub(crate) fn parse_exprs(pieces: &Vec<&[char]>, bound: usize) -> (r: Option<Vec<Expr>>)
        requires
            bound < i32::MAX,
            forall|j: int| 0 <= j < slice_texts(pieces@).len() ==> #[trigger] slice_texts(pieces@)[j].len() <= bound,
        ensures
            opt_exprs_view(r) == exprs_of(slice_texts(pieces@), bound as int),
        decreases bound, 10int, pieces@.len(),
    {
        reveal(exprs_of);
        let ghost pv = slice_texts(pieces@);
        let mut out: Vec<Expr> = Vec::new();
        let mut i: usize = 0;
        assert(pv.skip(0) =~= pv);
        while i < pieces.len()
            invariant
                i <= pieces@.len(),
                pv == slice_texts(pieces@),
                pv.len() == pieces@.len(),
                bound < i32::MAX,
                forall|j: int| 0 <= j < pv.len() ==> #[trigger] pv[j].len() <= bound,
                exprs_of(pv, bound as int) == after_exprs(exprs_view(out@), exprs_of(pv.skip(i as int), bound as int)),
            decreases pieces@.len() - i,
        {
            reveal(exprs_of);
            let ghost rest = pv.skip(i as int);
            assert(rest.len() > 0);
            assert(rest[0] == pieces@[i as int]@);
            assert(rest.drop_first() =~= pv.skip(i + 1));
            assert(pv[i as int].len() <= bound);
            assert(exprs_of(rest, bound as int) == (match (
                expr_of(rest[0]),
                exprs_of(pv.skip(i + 1), bound as int),
            ) {
                (Some(e), Some(r)) => Some(seq![e] + r),
                _ => None,
            }));
            match Self::parse_expr(pieces[i]) {
                Some(e) => {
                    let ghost prev = out@;
                    out.push(e);
                    proof {
                        lemma_exprs_view_push(prev, e);
                        match exprs_of(pv.skip(i + 1), bound as int) {
                            Some(r) => {
                                assert(exprs_view(prev) + (seq![e@] + r) =~= exprs_view(out@) + r);
                            },
                            None => {},
                        }
                    }
                },
                None => {
                    return None;
                },
            }
            i = i + 1;
        }
        proof {
            assert(pv.skip(i as int).len() == 0);
            assert(exprs_view(out@) + Seq::<SExpr>::empty() =~= exprs_view(out@));
        }
        Some(out)
    }

    /// A call of `name` with the arguments written in `args_text`.
    #[verifier::spinoff_prover]
    pub(crate) fn parse_function_call(name: &[char], args_text: &[char]) -> (r: Option<Expr>)
        requires
            args_text@.len() < i32::MAX,
        ensures
            opt_expr_view(r) == function_call_of(name@, args_text@),
        decreases args_text@.len(), 12int, 0int,
    {
        reveal(function_call_of);
        match Self::parse_args(args_text) {
            Some(args) => Some(Self::builtin_call(name, args)),
            None => None,
        }
    }

}

} // verus!
