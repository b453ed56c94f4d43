//! The parser's atoms: literals, displays, f-strings and names.
//!
//! Every function here computes exactly what the `grammar` module says of its
//! text. Where a text has no parse (an f-string made of its prefix and
//! opening quote alone), these functions answer `None`.
use vstd::prelude::*;
use crate::ast::{
    exprs_view,
    expr_view,
    lemma_exprs_view_len,
    lemma_exprs_view_push,
    BinOp,
    Expr,
    Literal,
    SExpr,
    UnaryOp,
};
use crate::parser::{
    after_pairs,
    all_ident_chars,
    opt_expr_view,
    opt_exprs_view,
    Parser,
};
use crate::grammar::{
    additive_of,
    additive_ops,
    all_ident,
    all_ident_or_dot,
    and_of,
    args_of,
    atom_of,
    attribute_form,
    brace_end,
    builtin_call,
    call_of,
    comparison_from,
    comparison_op,
    comparison_text,
    dict_display_of,
    expr_of,
    exprs_of,
    fstring_from,
    function_call_of,
    function_form,
    ident_char,
    known_builtin,
    kw_and,
    kw_not,
    kw_or,
    lemma_brace_end_bounds,
    method_form,
    multiplicative_of,
    multiplicative_ops,
    not_of,
    or_of,
    pairs_of,
    postfix_of,
    scalar_of,
    unary_of,
    with_literal,
};
use crate::json::json_text_accepted;
use crate::scan::{
    find_at_depth0,
    find_colon,
    find_matching_bracket,
    find_matching_paren,
    lemma_colon_bounds,
    lemma_depth0_hit_bounds,
    lemma_matching_opener_bounds,
    lemma_split_args_bounds,
    needle_texts,
    scan_start,
    slice_texts,
    split_args,
    split_args_spec,
};
use crate::text::{
    chars_equal,
    is_alphabetic,
    is_alphanumeric,
    is_float_literal,
    lemma_trimmed_len,
    parse_i64,
    rfind_char,
    string_of,
    trim,
    trimmed,
};

verus! {

impl Parser {
    /// The `key: value` pairs of the dictionary display `inner`.
    #[verifier::spinoff_prover]
    pub(crate) fn parse_dict_contents(inner: &[char]) -> (r: Option<(Vec<Expr>, Vec<Expr>)>)
        requires
            inner@.len() < i32::MAX,
        ensures
            match r {
                Some((ks, vs)) => dict_display_of(inner@) == Some((exprs_view(ks@), exprs_view(vs@))),
                None => dict_display_of(inner@) is None,
            },
        decreases inner@.len(), 11int, 0int,
    {
        reveal(dict_display_of);
        if trim(inner).len() == 0 {
            assert(exprs_view(Seq::<Expr>::empty()) =~= Seq::<SExpr>::empty());
            return Some((Vec::new(), Vec::new()));
        }
        let pieces = split_args(inner);
        proof {
            lemma_split_args_bounds(inner@);
        }
        Self::parse_pairs(&pieces, inner.len())
    }

    /// The keys and values of the `key: value` pieces.
    #[verifier::spinoff_prover]
    pub(crate) fn parse_pairs(pieces: &Vec<&[char]>, bound: usize) -> (r: Option<(Vec<Expr>, Vec<Expr>)>)
        requires
            bound < i32::MAX,
            forall|j: int| 0 <= j < slice_texts(pieces@).len() ==> #[trigger] slice_texts(pieces@)[j].len() <= bound,
        ensures
            match r {
                Some((ks, vs)) => pairs_of(slice_texts(pieces@), bound as int) == Some((exprs_view(ks@), exprs_view(vs@))),
                None => pairs_of(slice_texts(pieces@), bound as int) is None,
            },
        decreases bound, 10int, pieces@.len(),
    {
        reveal(pairs_of);
        let ghost pv = slice_texts(pieces@);
        let mut keys: Vec<Expr> = Vec::new();
        let mut values: Vec<Expr> = Vec::new();
        let mut i: usize = 0;
        assert(pv.skip(0) =~= pv);
        while i < pieces.len()
            invariant
                i <= pieces@.len(),
                pv == slice_texts(pieces@),
                pv.len() == pieces@.len(),
                bound < i32::MAX,
                forall|j: int| 0 <= j < pv.len() ==> #[trigger] pv[j].len() <= bound,
                pairs_of(pv, bound as int) == after_pairs(exprs_view(keys@), exprs_view(values@), pairs_of(pv.skip(i as int), bound as int)),
            decreases pieces@.len() - i,
        {
            reveal(pairs_of);
            let ghost rest = pv.skip(i as int);
            assert(rest.len() > 0);
            assert(rest[0] == pieces@[i as int]@);
            assert(rest.drop_first() =~= pv.skip(i + 1));
            assert(pv[i as int].len() <= bound);
            let p = pieces[i];
            match find_colon(p) {
                Some(cp) => {
                    proof {
                        lemma_colon_bounds(p@, 0, scan_start());
                        assert(pairs_of(rest, bound as int) == (match (
                            expr_of(p@.take(cp as int)),
                            expr_of(p@.skip(cp + 1)),
                            pairs_of(pv.skip(i + 1), bound as int),
                        ) {
                            (Some(k), Some(v), Some((ks, vs))) => Some((seq![k] + ks, seq![v] + vs)),
                            _ => None,
                        }));
                    }
                    match Self::parse_expr(&p[0..cp]) {
                        Some(k) => match Self::parse_expr(&p[cp + 1..p.len()]) {
                            Some(v) => {
                                let ghost kb = keys@;
                                let ghost vb = values@;
                                keys.push(k);
                                values.push(v);
                                proof {
                                    lemma_exprs_view_push(kb, k);
                                    lemma_exprs_view_push(vb, v);
                                    assert(exprs_view(keys@) =~= exprs_view(kb) + seq![k@]);
                                    assert(exprs_view(values@) =~= exprs_view(vb) + seq![v@]);
                                    match pairs_of(pv.skip(i + 1), bound as int) {
                                        Some((ks, vs)) => {
                                            assert(exprs_view(kb) + (seq![k@] + ks) =~= exprs_view(keys@) + ks);
                                            assert(exprs_view(vb) + (seq![v@] + vs) =~= exprs_view(values@) + vs);
                                        },
                                        None => {},
                                    }
                                }
                            },
                            None => {
                                return None;
                            },
                        },
                        None => {
                            return None;
                        },
                    }
                },
                None => {
                    assert(pairs_of(rest, bound as int) == pairs_of(pv.skip(i + 1), bound as int));
                },
            }
            i = i + 1;
        }
        proof {
            assert(pv.skip(i as int).len() == 0);
            assert(exprs_view(keys@) + Seq::<SExpr>::empty() =~= exprs_view(keys@));
            assert(exprs_view(values@) + Seq::<SExpr>::empty() =~= exprs_view(values@));
        }
        Some((keys, values))
    }

    /// The parts of the f-string `content`.
    #[verifier::spinoff_prover]
    pub(crate) fn parse_fstring(content: &[char]) -> (r: Option<Expr>)
        requires
            content@.len() < i32::MAX,
        ensures
            opt_expr_view(r) == fstring_from(content@, 0, Seq::empty(), Seq::empty()),
        decreases content@.len(), 10int, content@.len() + 2,
    {
        reveal(fstring_from);
        let n = content.len();
        let mut parts: Vec<Expr> = Vec::new();
        let mut literal: Vec<char> = Vec::new();
        let mut i: usize = 0;
        proof {
            assert(exprs_view(parts@) =~= Seq::<SExpr>::empty());
            assert(literal@ =~= Seq::<char>::empty());
        }
        while i < n
            invariant
                n == content@.len() < i32::MAX,
                i <= n + 1,
                fstring_from(content@, 0, Seq::empty(), Seq::empty()) == fstring_from(
                    content@,
                    i as int,
                    literal@,
                    exprs_view(parts@),
                ),
            decreases n + 1 - i,
        {
            reveal(fstring_from);
            if content[i] == '{' && i + 1 < n {
                let ghost prev = parts@;
                let ghost lit_before = literal@;
                if literal.len() > 0 {
                    let lit = Expr::Lit(Literal::Str(string_of(literal.as_slice())));
                    parts.push(lit);
                    proof {
                        lemma_exprs_view_push(prev, lit);
                    }
                    literal = Vec::new();
                }
                assert(exprs_view(parts@) == with_literal(exprs_view(prev), lit_before));
                assert(literal@ =~= Seq::<char>::empty());
                let mut end: usize = i + 1;
                while end < n && content[end] != '}'
                    invariant
                        n == content@.len(),
                        i + 1 <= end <= n,
                        brace_end(content@, i + 1) == brace_end(content@, end as int),
                    decreases n - end,
                {
                    end = end + 1;
                }
                proof {
                    lemma_brace_end_bounds(content@, i + 1);
                    lemma_trimmed_len(content@.subrange(i + 1, end as int));
                }
                match Self::parse_expr(trim(&content[i + 1..end])) {
                    Some(e) => {
                        let ghost mid = parts@;
                        parts.push(e);
                        proof {
                            lemma_exprs_view_push(mid, e);
                        }
                    },
                    None => {
                        return None;
                    },
                }
                i = end + 1;
            } else {
                literal.push(content[i]);
                i = i + 1;
            }
        }
        let ghost prev = parts@;
        if literal.len() > 0 {
            let lit = Expr::Lit(Literal::Str(string_of(literal.as_slice())));
            parts.push(lit);
            proof {
                lemma_exprs_view_push(prev, lit);
            }
        }
        assert(exprs_view(parts@) == with_literal(exprs_view(prev), literal@));
        proof {
            lemma_exprs_view_len(parts@);
        }
        if parts.len() == 1 {
            parts.pop()
        } else {
            Some(Expr::Concat(parts))
        }
    }

    #[verifier::spinoff_prover]
    pub(crate) fn parse_atom(s: &[char]) -> (r: Option<Expr>)
        requires
            s@.len() < i32::MAX,
        ensures
            opt_expr_view(r) == atom_of(s@),
        decreases s@.len(), 0int, 2int,
    {
        reveal(atom_of);
        proof {
            lemma_trimmed_len(s@);
        }
        let t = trim(s);
        let n = t.len();
        let block_height = [
            'n', 'e', 'a', 'r', '.', 'b', 'l', 'o', 'c', 'k', '_', 'h', 'e', 'i', 'g', 'h', 't', '(', ')',
        ];
        let true_kw = ['T', 'r', 'u', 'e'];
        let false_kw = ['F', 'a', 'l', 's', 'e'];
        let none_kw = ['N', 'o', 'n', 'e'];
        let empty_dict = ['{', '}'];
        proof {
            assert(block_height@ =~= seq![
                'n', 'e', 'a', 'r', '.', 'b', 'l', 'o', 'c', 'k', '_', 'h', 'e', 'i', 'g', 'h', 't', '(', ')'
            ]);
            assert(true_kw@ =~= seq!['T', 'r', 'u', 'e']);
            assert(false_kw@ =~= seq!['F', 'a', 'l', 's', 'e']);
            assert(none_kw@ =~= seq!['N', 'o', 'n', 'e']);
            assert(empty_dict@ =~= seq!['{', '}']);
        }
        if chars_equal(t, &block_height) {
            return Some(Expr::NearBlockHeight);
        }
        if chars_equal(t, &true_kw) {
            return Some(Expr::Lit(Literal::Bool(true)));
        }
        if chars_equal(t, &false_kw) {
            return Some(Expr::Lit(Literal::Bool(false)));
        }
        if chars_equal(t, &none_kw) {
            return Some(Expr::Lit(Literal::PyNone));
        }
        if n >= 2 && t[0] == '[' && t[n - 1] == ']' {
            return match Self::parse_args(&t[1..n - 1]) {
                Some(items) => Some(Expr::ListLiteral(items)),
                None => None,
            };
        }
        if n >= 2 && t[0] == '{' && t[n - 1] == '}' {
            if chars_equal(t, &empty_dict) {
                return Some(Expr::Lit(Literal::EmptyDict));
            }
            if json_text_accepted(t) {
                return Some(Expr::Lit(Literal::Json(string_of(t))));
            }
            match Self::parse_dict_contents(&t[1..n - 1]) {
                Some((keys, values)) => {
                    proof {
                        lemma_exprs_view_len(keys@);
                        lemma_exprs_view_len(values@);
                    }
                    if keys.len() > 0 || values.len() > 0 {
                        return Some(Expr::DictLiteralExpr(keys, values));
                    }
                    proof {
                        assert(exprs_view(keys@) =~= Seq::<SExpr>::empty());
                        assert(exprs_view(values@) =~= Seq::<SExpr>::empty());
                    }
                },
                None => {
                    return None;
                },
            }
        }
        Self::parse_scalar(t)
    }

    /// f-strings, string literals, numbers, names, and otherwise the text itself.
    #[verifier::spinoff_prover]
    pub(crate) fn parse_scalar(t: &[char]) -> (r: Option<Expr>)
        requires
            t@.len() < i32::MAX,
        ensures
            opt_expr_view(r) == scalar_of(t@),
        decreases t@.len(), 0int, 1int,
    {
        reveal(scalar_of);
        let n = t.len();
        if n >= 2 && t[0] == 'f' && (t[1] == '"' || t[1] == '\'') && t[n - 1] == t[1] {
            if n < 3 {
                return None;
            }
            return Self::parse_fstring(&t[2..n - 1]);
        }
        if n >= 2 && (t[0] == '"' || t[0] == '\'') && t[n - 1] == t[0] {
            return Some(Expr::Lit(Literal::Str(string_of(&t[1..n - 1]))));
        }
        match parse_i64(t) {
            Some(v) => {
                return Some(Expr::Lit(Literal::Int(v)));
            },
            None => {},
        }
        if is_float_literal(t) {
            return Some(Expr::Lit(Literal::Float(string_of(t))));
        }
        if n > 0 && (is_alphabetic(t[0]) || t[0] == '_') && all_ident_chars(t) {
            return Some(Expr::Var(string_of(t)));
        }
        Some(Expr::Lit(Literal::Str(string_of(t))))
    }
}

} // verus!
