//! The line-based script parser.
//!
//! Every function here computes exactly what the `grammar` module says of its
//! text. Where a text has no parse (an f-string made of its prefix and
//! opening quote alone), these functions answer `None`.
use vstd::prelude::*;
use crate::ast::{
    exprs_view,
    expr_view,
    lemma_exprs_view_len,
    lemma_exprs_view_push,
    BinOp,
    Expr,
    Literal,
    SExpr,
    UnaryOp,
};
use crate::grammar::{
    additive_of,
    additive_ops,
    binary_sign_at,
    is_operator_char,
    lemma_binary_sign_bounds,
    all_ident,
    all_ident_or_dot,
    and_of,
    args_of,
    atom_of,
    attribute_form,
    brace_end,
    builtin_call,
    call_of,
    comparison_from,
    comparison_op,
    comparison_text,
    dict_display_of,
    expr_of,
    exprs_of,
    fstring_from,
    function_call_of,
    function_form,
    ident_char,
    known_builtin,
    kw_and,
    kw_not,
    kw_or,
    lemma_brace_end_bounds,
    method_form,
    multiplicative_of,
    multiplicative_ops,
    not_of,
    or_of,
    pairs_of,
    postfix_of,
    scalar_of,
    unary_of,
    with_literal,
};
use crate::json::json_text_accepted;
use crate::scan::{
    find_at_depth0,
    find_colon,
    find_matching_bracket,
    find_matching_paren,
    lemma_colon_bounds,
    lemma_depth0_hit_bounds,
    lemma_matching_opener_bounds,
    lemma_split_args_bounds,
    needle_texts,
    pair_view,
    scan_start,
    slice_texts,
    split_args,
    split_args_spec,
};
use crate::text::{
    chars_equal,
    is_alphabetic,
    is_alphanumeric,
    is_float_literal,
    lemma_trimmed_len,
    parse_i64,
    rfind_char,
    string_of,
    trim,
    trimmed,
};

verus! {

/// An optional expression, by its model.
pub open spec fn opt_expr_view(r: Option<Expr>) -> Option<SExpr> {
    match r {
        Some(e) => Some(e@),
        None => None,
    }
}

/// An optional list of expressions, by its model.
pub open spec fn opt_exprs_view(r: Option<Vec<Expr>>) -> Option<Seq<SExpr>> {
    match r {
        Some(v) => Some(exprs_view(v@)),
        None => None,
    }
}

/// `done` followed by the expressions `rest`, when these are there.
pub open spec fn after_exprs(done: Seq<SExpr>, rest: Option<Seq<SExpr>>) -> Option<Seq<SExpr>> {
    match rest {
        Some(r) => Some(done + r),
        None => None,
    }
}

/// `keys` and `values` followed by the pairs `rest`, when these are there.
pub open spec fn after_pairs(
    keys: Seq<SExpr>,
    values: Seq<SExpr>,
    rest: Option<(Seq<SExpr>, Seq<SExpr>)>,
) -> Option<(Seq<SExpr>, Seq<SExpr>)> {
    match rest {
        Some((ks, vs)) => Some((keys + ks, values + vs)),
        None => None,
    }
}

/// Whether every character of `s` belongs to an identifier.
#[verifier::spinoff_prover]
pub(crate) fn all_ident_chars(s: &[char]) -> (r: bool)
    ensures
        r == all_ident(s@),
{
    let mut i: usize = 0;
    while i < s.len()
        invariant
            i <= s@.len(),
            forall|j: int| 0 <= j < i ==> ident_char(#[trigger] s@[j]),
        decreases s@.len() - i,
    {
        if !(is_alphanumeric(s[i]) || s[i] == '_') {
            return false;
        }
        i = i + 1;
    }
    true
}

/// Whether every character of `s` belongs to an identifier or is a dot.
#[verifier::spinoff_prover]
pub(crate) fn all_ident_or_dot_chars(s: &[char]) -> (r: bool)
    ensures
        r == all_ident_or_dot(s@),
{
    let mut i: usize = 0;
    while i < s.len()
        invariant
            i <= s@.len(),
            forall|j: int| 0 <= j < i ==> ident_char(#[trigger] s@[j]) || s@[j] == '.',
        decreases s@.len() - i,
    {
        if !(is_alphanumeric(s[i]) || s[i] == '_' || s[i] == '.') {
            return false;
        }
        i = i + 1;
    }
    true
}

/// Whether `c` is an operator character (see `is_operator_char`).
pub(crate) fn is_operator(c: char) -> (r: bool)
    ensures
        r == is_operator_char(c),
{
    c == '+' || c == '-' || c == '*' || c == '/' || c == '%' || c == '<' || c == '>' || c == '='
        || c == '!'
}

/// The text of the `j`-th comparison operator.
#[verifier::spinoff_prover]
pub(crate) fn comparison_needle(j: usize) -> (r: &'static [char])
    requires
        j < 6,
    ensures
        r@ == comparison_text(j as int),
{
    if j == 0 {
        let a: &'static [char] = &['=', '='];
        assert(a@ =~= comparison_text(0));
        a
    } else if j == 1 {
        let a: &'static [char] = &['!', '='];
        assert(a@ =~= comparison_text(1));
        a
    } else if j == 2 {
        let a: &'static [char] = &['>', '='];
        assert(a@ =~= comparison_text(2));
        a
    } else if j == 3 {
        let a: &'static [char] = &['<', '='];
        assert(a@ =~= comparison_text(3));
        a
    } else if j == 4 {
        let a: &'static [char] = &['>'];
        assert(a@ =~= comparison_text(4));
        a
    } else {
        let a: &'static [char] = &['<'];
        assert(a@ =~= comparison_text(5));
        a
    }
}

/// The operator of the `j`-th comparison.
#[verifier::spinoff_prover]
pub(crate) fn comparison_binop(j: usize) -> (r: BinOp)
    ensures
        r == comparison_op(j as int),
{
    if j == 0 {
        BinOp::Eq
    } else if j == 1 {
        BinOp::Ne
    } else if j == 2 {
        BinOp::Ge
    } else if j == 3 {
        BinOp::Le
    } else if j == 4 {
        BinOp::Gt
    } else {
        BinOp::Lt
    }
}

/// Whether `name` is one of the module functions recognised before method calls.
#[verifier::spinoff_prover]
pub(crate) fn is_known_builtin(name: &[char]) -> (r: bool)
    ensures
        r == known_builtin(name@),
{
    let near_view = ['n', 'e', 'a', 'r', '.', 'v', 'i', 'e', 'w'];
    let near_call = ['n', 'e', 'a', 'r', '.', 'c', 'a', 'l', 'l'];
    let near_block = ['n', 'e', 'a', 'r', '.', 'b', 'l', 'o', 'c', 'k'];
    let near_block_height = [
        'n', 'e', 'a', 'r', '.', 'b', 'l', 'o', 'c', 'k', '_', 'h', 'e', 'i', 'g', 'h', 't',
    ];
    let near_view_account = [
        'n', 'e', 'a', 'r', '.', 'v', 'i', 'e', 'w', '_', 'a', 'c', 'c', 'o', 'u', 'n', 't',
    ];
    let near_view_access_key = [
        'n', 'e', 'a', 'r', '.', 'v', 'i', 'e', 'w', '_', 'a', 'c', 'c', 'e', 's', 's', '_', 'k', 'e', 'y',
    ];
    let storage_get = ['n', 'e', 'a', 'r', '.', 's', 't', 'o', 'r', 'a', 'g', 'e', '.', 'g', 'e', 't'];
    let storage_put = ['n', 'e', 'a', 'r', '.', 's', 't', 'o', 'r', 'a', 'g', 'e', '.', 'p', 'u', 't'];
    let json_dumps = ['j', 's', 'o', 'n', '.', 'd', 'u', 'm', 'p', 's'];
    let json_loads = ['j', 's', 'o', 'n', '.', 'l', 'o', 'a', 'd', 's'];
    let http_get = ['h', 't', 't', 'p', '.', 'g', 'e', 't'];
    let http_post = ['h', 't', 't', 'p', '.', 'p', 'o', 's', 't'];
    proof {
        assert(near_view@ =~= seq!['n', 'e', 'a', 'r', '.', 'v', 'i', 'e', 'w']);
        assert(near_call@ =~= seq!['n', 'e', 'a', 'r', '.', 'c', 'a', 'l', 'l']);
        assert(near_block@ =~= seq!['n', 'e', 'a', 'r', '.', 'b', 'l', 'o', 'c', 'k']);
        assert(near_block_height@ =~= seq![
            'n', 'e', 'a', 'r', '.', 'b', 'l', 'o', 'c', 'k', '_', 'h', 'e', 'i', 'g', 'h', 't'
        ]);
        assert(near_view_account@ =~= seq![
            'n', 'e', 'a', 'r', '.', 'v', 'i', 'e', 'w', '_', 'a', 'c', 'c', 'o', 'u', 'n', 't'
        ]);
        assert(near_view_access_key@ =~= seq![
            'n', 'e', 'a', 'r', '.', 'v', 'i', 'e', 'w', '_', 'a', 'c', 'c', 'e', 's', 's', '_', 'k', 'e', 'y'
        ]);
        assert(storage_get@ =~= seq![
            'n', 'e', 'a', 'r', '.', 's', 't', 'o', 'r', 'a', 'g', 'e', '.', 'g', 'e', 't'
        ]);
        assert(storage_put@ =~= seq![
            'n', 'e', 'a', 'r', '.', 's', 't', 'o', 'r', 'a', 'g', 'e', '.', 'p', 'u', 't'
        ]);
        assert(json_dumps@ =~= seq!['j', 's', 'o', 'n', '.', 'd', 'u', 'm', 'p', 's']);
        assert(json_loads@ =~= seq!['j', 's', 'o', 'n', '.', 'l', 'o', 'a', 'd', 's']);
        assert(http_get@ =~= seq!['h', 't', 't', 'p', '.', 'g', 'e', 't']);
        assert(http_post@ =~= seq!['h', 't', 't', 'p', '.', 'p', 'o', 's', 't']);
    }
    chars_equal(name, &near_view) || chars_equal(name, &near_call) || chars_equal(name, &near_block)
        || chars_equal(name, &near_block_height) || chars_equal(name, &near_view_account)
        || chars_equal(name, &near_view_access_key) || chars_equal(name, &storage_get)
        || chars_equal(name, &storage_put) || chars_equal(name, &json_dumps) || chars_equal(
        name,
        &json_loads,
    ) || chars_equal(name, &http_get) || chars_equal(name, &http_post)
}

/// Take the first expression out of `v`.
#[verifier::spinoff_prover]
pub(crate) fn take_first(v: &mut Vec<Expr>) -> (r: Box<Expr>)
    requires
        old(v)@.len() > 0,
    ensures
        r@ == exprs_view(old(v)@)[0],
        exprs_view(final(v)@) == exprs_view(old(v)@).drop_first(),
        final(v)@.len() == old(v)@.len() - 1,
{
    proof {
        lemma_exprs_view_len(v@);
    }
    let e = v.remove(0);
    proof {
        lemma_exprs_view_len(v@);
        lemma_exprs_view_len(old(v)@);
        assert(exprs_view(v@) =~= exprs_view(old(v)@).drop_first());
    }
    Box::new(e)
}

pub struct Parser;

impl Parser {
    /// The expression that a call of `name` with `args` denotes.
    #[verifier::spinoff_prover]
    pub(crate) fn builtin_call(name: &[char], args: Vec<Expr>) -> (r: Expr)
        ensures
            r@ == builtin_call(name@, exprs_view(args@)),
    {
        proof {
            lemma_exprs_view_len(args@);
        }
        let n = args.len();
        let near_view = ['n', 'e', 'a', 'r', '.', 'v', 'i', 'e', 'w'];
        let near_call = ['n', 'e', 'a', 'r', '.', 'c', 'a', 'l', 'l'];
        let near_block = ['n', 'e', 'a', 'r', '.', 'b', 'l', 'o', 'c', 'k'];
        let near_block_height = [
            'n', 'e', 'a', 'r', '.', 'b', 'l', 'o', 'c', 'k', '_', 'h', 'e', 'i', 'g', 'h', 't',
        ];
        let near_view_account = [
            'n', 'e', 'a', 'r', '.', 'v', 'i', 'e', 'w', '_', 'a', 'c', 'c', 'o', 'u', 'n', 't',
        ];
        let storage_get = ['n', 'e', 'a', 'r', '.', 's', 't', 'o', 'r', 'a', 'g', 'e', '.', 'g', 'e', 't'];
        let storage_put = ['n', 'e', 'a', 'r', '.', 's', 't', 'o', 'r', 'a', 'g', 'e', '.', 'p', 'u', 't'];
        let json_dumps = ['j', 's', 'o', 'n', '.', 'd', 'u', 'm', 'p', 's'];
        let json_loads = ['j', 's', 'o', 'n', '.', 'l', 'o', 'a', 'd', 's'];
        let len_kw = ['l', 'e', 'n'];
        let range_kw = ['r', 'a', 'n', 'g', 'e'];
        let int_kw = ['i', 'n', 't'];
        let str_kw = ['s', 't', 'r'];
        let type_kw = ['t', 'y', 'p', 'e'];
        let http_get = ['h', 't', 't', 'p', '.', 'g', 'e', 't'];
        let http_post = ['h', 't', 't', 'p', '.', 'p', 'o', 's', 't'];
        proof {
            assert(near_view@ =~= seq!['n', 'e', 'a', 'r', '.', 'v', 'i', 'e', 'w']);
            assert(near_call@ =~= seq!['n', 'e', 'a', 'r', '.', 'c', 'a', 'l', 'l']);
            assert(near_block@ =~= seq!['n', 'e', 'a', 'r', '.', 'b', 'l', 'o', 'c', 'k']);
            assert(near_block_height@ =~= seq![
                'n', 'e', 'a', 'r', '.', 'b', 'l', 'o', 'c', 'k', '_', 'h', 'e', 'i', 'g', 'h', 't'
            ]);
            assert(near_view_account@ =~= seq![
                'n', 'e', 'a', 'r', '.', 'v', 'i', 'e', 'w', '_', 'a', 'c', 'c', 'o', 'u', 'n', 't'
            ]);
            assert(storage_get@ =~= seq![
                'n', 'e', 'a', 'r', '.', 's', 't', 'o', 'r', 'a', 'g', 'e', '.', 'g', 'e', 't'
            ]);
            assert(storage_put@ =~= seq![
                'n', 'e', 'a', 'r', '.', 's', 't', 'o', 'r', 'a', 'g', 'e', '.', 'p', 'u', 't'
            ]);
            assert(json_dumps@ =~= seq!['j', 's', 'o', 'n', '.', 'd', 'u', 'm', 'p', 's']);
            assert(json_loads@ =~= seq!['j', 's', 'o', 'n', '.', 'l', 'o', 'a', 'd', 's']);
            assert(len_kw@ =~= seq!['l', 'e', 'n']);
            assert(range_kw@ =~= seq!['r', 'a', 'n', 'g', 'e']);
            assert(int_kw@ =~= seq!['i', 'n', 't']);
            assert(str_kw@ =~= seq!['s', 't', 'r']);
            assert(type_kw@ =~= seq!['t', 'y', 'p', 'e']);
            assert(http_get@ =~= seq!['h', 't', 't', 'p', '.', 'g', 'e', 't']);
            assert(http_post@ =~= seq!['h', 't', 't', 'p', '.', 'p', 'o', 's', 't']);
        }
        let mut a = args;
        if chars_equal(name, &near_view) && n >= 3 {
            let x0 = take_first(&mut a);
            let x1 = take_first(&mut a);
            let x2 = take_first(&mut a);
            Expr::NearView(x0, x1, x2)
        } else if chars_equal(name, &near_call) {
            Expr::NearCall(a)
        } else if chars_equal(name, &near_block) && n >= 1 {
            Expr::NearBlock(take_first(&mut a))
        } else if chars_equal(name, &near_block_height) {
            Expr::NearBlockHeight
        } else if chars_equal(name, &near_view_account) && n >= 1 {
            Expr::NearViewAccount(take_first(&mut a))
        } else if chars_equal(name, &storage_get) && n >= 1 {
            Expr::StorageGet(take_first(&mut a))
        } else if chars_equal(name, &storage_put) && n >= 2 {
            let x0 = take_first(&mut a);
            let x1 = take_first(&mut a);
            Expr::StoragePut(x0, x1)
        } else if chars_equal(name, &json_dumps) && n >= 1 {
            Expr::JsonDumps(take_first(&mut a))
        } else if chars_equal(name, &json_loads) && n >= 1 {
            Expr::JsonLoads(take_first(&mut a))
        } else if chars_equal(name, &len_kw) && n >= 1 {
            Expr::Len(take_first(&mut a))
        } else if chars_equal(name, &range_kw) {
            Expr::Range(a)
        } else if chars_equal(name, &int_kw) && n >= 1 {
            Expr::Int_(take_first(&mut a))
        } else if chars_equal(name, &str_kw) && n >= 1 {
            Expr::Str_(take_first(&mut a))
        } else if chars_equal(name, &type_kw) && n >= 1 {
            Expr::TypeOf(take_first(&mut a))
        } else if chars_equal(name, &http_get) && n >= 1 {
            Expr::HttpGet(take_first(&mut a))
        } else if chars_equal(name, &http_post) && n >= 2 {
            let x0 = take_first(&mut a);
            let x1 = take_first(&mut a);
            Expr::HttpPost(x0, x1)
        } else {
            Expr::FuncCall(string_of(name), a)
        }
    }

    /// Parse an expression.
    #[verifier::spinoff_prover]
    pub fn parse_expr(s: &[char]) -> (r: Option<Expr>)
        requires
            s@.len() < i32::MAX,
        ensures
            opt_expr_view(r) == expr_of(s@),
        decreases s@.len(), 9int, 0int,
    {
        reveal(expr_of);
        proof {
            lemma_trimmed_len(s@);
        }
        Self::parse_or(trim(s))
    }

    #[verifier::spinoff_prover]
    pub(crate) fn parse_or(s: &[char]) -> (r: Option<Expr>)
        requires
            s@.len() < i32::MAX,
        ensures
            opt_expr_view(r) == or_of(s@),
        decreases s@.len(), 8int, 0int,
    {
        reveal(or_of);
        let kw = [' ', 'o', 'r', ' '];
        let needles: [&[char]; 1] = [&kw];
        proof {
            assert(kw@ =~= kw_or());
            assert(needle_texts(needles@) =~= seq![kw_or()]);
        }
        match find_at_depth0(s, &needles, true) {
            Some((pos, len)) => {
                proof {
                    lemma_depth0_hit_bounds(s@, seq![kw_or()], true);
                }
                match Self::parse_or(&s[0..pos]) {
                    Some(a) => match Self::parse_and(&s[pos + len..s.len()]) {
                        Some(b) => Some(Expr::BinOp(Box::new(a), BinOp::Or, Box::new(b))),
                        None => None,
                    },
                    None => None,
                }
            },
            None => Self::parse_and(s),
        }
    }

    #[verifier::spinoff_prover]
    pub(crate) fn parse_and(s: &[char]) -> (r: Option<Expr>)
        requires
            s@.len() < i32::MAX,
        ensures
            opt_expr_view(r) == and_of(s@),
        decreases s@.len(), 7int, 0int,
    {
        reveal(and_of);
        let kw = [' ', 'a', 'n', 'd', ' '];
        let needles: [&[char]; 1] = [&kw];
        proof {
            assert(kw@ =~= kw_and());
            assert(needle_texts(needles@) =~= seq![kw_and()]);
        }
        match find_at_depth0(s, &needles, true) {
            Some((pos, len)) => {
                proof {
                    lemma_depth0_hit_bounds(s@, seq![kw_and()], true);
                }
                match Self::parse_and(&s[0..pos]) {
                    Some(a) => match Self::parse_not(&s[pos + len..s.len()]) {
                        Some(b) => Some(Expr::BinOp(Box::new(a), BinOp::And, Box::new(b))),
                        None => None,
                    },
                    None => None,
                }
            },
            None => Self::parse_not(s),
        }
    }

    #[verifier::spinoff_prover]
    pub(crate) fn parse_not(s: &[char]) -> (r: Option<Expr>)
        requires
            s@.len() < i32::MAX,
        ensures
            opt_expr_view(r) == not_of(s@),
        decreases s@.len(), 6int, 0int,
    {
        reveal(not_of);
        proof {
            lemma_trimmed_len(s@);
        }
        let t = trim(s);
        let kw = ['n', 'o', 't', ' '];
        proof {
            assert(kw@ =~= kw_not());
        }
        if crate::text::starts_with(t, &kw) {
            match Self::parse_not(&t[4..t.len()]) {
                Some(a) => Some(Expr::UnaryOp(UnaryOp::Not, Box::new(a))),
                None => None,
            }
        } else {
            Self::parse_comparison(t)
        }
    }

    #[verifier::spinoff_prover]
    pub(crate) fn parse_comparison(s: &[char]) -> (r: Option<Expr>)
        requires
            s@.len() < i32::MAX,
        ensures
            opt_expr_view(r) == comparison_from(s@, 0),
        decreases s@.len(), 5int, 7int,
    {
        reveal(comparison_from);
        let mut j: usize = 0;
        while j < 6
            invariant
                s@.len() < i32::MAX,
                j <= 6,
                comparison_from(s@, 0) == comparison_from(s@, j as int),
            decreases 6 - j,
        {
            reveal(comparison_from);
            let needle = comparison_needle(j);
            let needles: [&[char]; 1] = [needle];
            proof {
                assert(needle_texts(needles@) =~= seq![comparison_text(j as int)]);
            }
            match find_at_depth0(s, &needles, false) {
                Some((pos, len)) => {
                    proof {
                        lemma_depth0_hit_bounds(s@, seq![comparison_text(j as int)], false);
                        lemma_trimmed_len(s@.take(pos as int));
                        lemma_trimmed_len(s@.skip(pos + len));
                    }
                    let left = trim(&s[0..pos]);
                    let right = trim(&s[pos + len..s.len()]);
                    if left.len() > 0 && right.len() > 0 {
                        let op = comparison_binop(j);
                        return match Self::parse_addition(left) {
                            Some(a) => match Self::parse_addition(right) {
                                Some(b) => Some(Expr::BinOp(Box::new(a), op, Box::new(b))),
                                None => None,
                            },
                            None => None,
                        };
                    }
                },
                None => {},
            }
            j = j + 1;
        }
        Self::parse_addition(s)
    }

    /// The last top-level binary `+` or `-` of `s` (see `binary_sign_at`).
    #[verifier::spinoff_prover]
    pub(crate) fn binary_sign(s: &[char]) -> (r: Option<(usize, usize)>)
        requires
            s@.len() < i32::MAX,
        ensures
            pair_view(r) == binary_sign_at(s@, s@.len() as int),
    {
        let plus = ['+'];
        let minus = ['-'];
        let needles: [&[char]; 2] = [&plus, &minus];
        proof {
            assert(plus@ =~= seq!['+']);
            assert(minus@ =~= seq!['-']);
            assert(needle_texts(needles@) =~= additive_ops());
        }
        let mut end: usize = s.len();
        loop
            invariant
                end <= s@.len() < i32::MAX,
                needle_texts(needles@) == additive_ops(),
                binary_sign_at(s@, s@.len() as int) == binary_sign_at(s@, end as int),
            decreases end,
        {
            if end == 0 {
                return None;
            }
            let head = &s[0..end];
            assert(head@ =~= s@.take(end as int));
            match find_at_depth0(head, &needles, true) {
                Some((pos, len)) => {
                    proof {
                        lemma_depth0_hit_bounds(head@, additive_ops(), true);
                    }
                    let left = trim(&s[0..pos]);
                    assert(s@.subrange(0, pos as int) =~= s@.take(pos as int));
                    if left.len() > 0 && !is_operator(left[left.len() - 1]) {
                        return Some((pos, len));
                    }
                    end = pos;
                },
                None => {
                    return None;
                },
            }
        }
    }

    #[verifier::spinoff_prover]
    pub(crate) fn parse_addition(s: &[char]) -> (r: Option<Expr>)
        requires
            s@.len() < i32::MAX,
        ensures
            opt_expr_view(r) == additive_of(s@),
        decreases s@.len(), 4int, 0int,
    {
        reveal(additive_of);
        match Self::binary_sign(s) {
            Some((pos, len)) => {
                proof {
                    lemma_binary_sign_bounds(s@, s@.len() as int);
                    lemma_trimmed_len(s@.take(pos as int));
                    lemma_trimmed_len(s@.skip(pos + len));
                }
                let left = trim(&s[0..pos]);
                let right = trim(&s[pos + len..s.len()]);
                assert(s@.subrange(0, pos as int) =~= s@.take(pos as int));
                assert(s@.subrange(pos + len, s@.len() as int) =~= s@.skip(pos + len));
                let op = if s[pos] == '+' {
                    BinOp::Add
                } else {
                    BinOp::Sub
                };
                match Self::parse_addition(left) {
                    Some(a) => match Self::parse_multiplication(right) {
                        Some(b) => Some(Expr::BinOp(Box::new(a), op, Box::new(b))),
                        None => None,
                    },
                    None => None,
                }
            },
            None => Self::parse_multiplication(s),
        }
    }

    #[verifier::spinoff_prover]
    pub(crate) fn parse_multiplication(s: &[char]) -> (r: Option<Expr>)
        requires
            s@.len() < i32::MAX,
        ensures
            opt_expr_view(r) == multiplicative_of(s@),
        decreases s@.len(), 3int, 0int,
    {
        reveal(multiplicative_of);
        let times = ['*'];
        let divide = ['/'];
        let modulo = ['%'];
        let needles: [&[char]; 3] = [&times, &divide, &modulo];
        proof {
            assert(times@ =~= seq!['*']);
            assert(divide@ =~= seq!['/']);
            assert(modulo@ =~= seq!['%']);
            assert(needle_texts(needles@) =~= multiplicative_ops());
        }
        match find_at_depth0(s, &needles, true) {
            Some((pos, len)) => {
                proof {
                    lemma_depth0_hit_bounds(s@, multiplicative_ops(), true);
                    lemma_trimmed_len(s@.take(pos as int));
                    lemma_trimmed_len(s@.skip(pos + len));
                }
                let left = trim(&s[0..pos]);
                let right = trim(&s[pos + len..s.len()]);
                if left.len() == 0 {
                    return Self::parse_unary(s);
                }
                let op = if s[pos] == '*' {
                    BinOp::Mul
                } else if s[pos] == '/' {
                    BinOp::Div
                } else {
                    BinOp::Mod
                };
                match Self::parse_multiplication(left) {
                    Some(a) => match Self::parse_unary(right) {
                        Some(b) => Some(Expr::BinOp(Box::new(a), op, Box::new(b))),
                        None => None,
                    },
                    None => None,
                }
            },
            None => Self::parse_unary(s),
        }
    }

    #[verifier::spinoff_prover]
    pub(crate) fn parse_unary(s: &[char]) -> (r: Option<Expr>)
        requires
            s@.len() < i32::MAX,
        ensures
            opt_expr_view(r) == unary_of(s@),
        decreases s@.len(), 2int, 0int,
    {
        reveal(unary_of);
        proof {
            lemma_trimmed_len(s@);
        }
        let t = trim(s);
        if t.len() > 1 && t[0] == '-' {
            match Self::parse_unary(&t[1..t.len()]) {
                Some(a) => Some(Expr::UnaryOp(UnaryOp::Neg, Box::new(a))),
                None => None,
            }
        } else {
            Self::parse_postfix(t)
        }
    }

}

} // verus!
