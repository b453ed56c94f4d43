//! Laws of the expression grammar: how chains of binary operators group.
use vstd::prelude::*;
use crate::ast::{BinOp, SExpr, UnaryOp};
use crate::grammar::{
    additive_of,
    additive_ops,
    binary_sign_at,
    is_operator_char,
    multiplicative_of,
    multiplicative_ops,
    unary_of,
};
use crate::scan::{depth0_hit, depth0_hit_from, is_plain, needle_hit, needle_matches, scan_start, ScanState};
use crate::text::{
    ascii_digit,
    ascii_letter,
    trim_end,
    trim_start,
    trimmed,
    unicode_alphabetic,
    unicode_whitespace,
};

verus! {

/// Whether `c` can stand in a plain operand: an ASCII letter, digit or underscore.
pub open spec fn word_char(c: char) -> bool {
    ascii_letter(c) || ascii_digit(c) || c == '_'
}

/// A plain operand: a non-empty run of ASCII letters, digits and underscores.
pub open spec fn is_word(t: Seq<char>) -> bool {
    t.len() > 0 && forall|k: int| 0 <= k < t.len() ==> word_char(#[trigger] t[k])
}

/// `x o y`, with a space on each side of the operator character `o`.
pub open spec fn spaced(x: Seq<char>, o: char, y: Seq<char>) -> Seq<char> {
    x + seq![' ', o, ' '] + y
}

/// The operator that `*`, `/` or `%` writes.
pub open spec fn multiplicative_op(o: char) -> BinOp {
    if o == '*' {
        BinOp::Mul
    } else if o == '/' {
        BinOp::Div
    } else {
        BinOp::Mod
    }
}

/// The operator that `+` or `-` writes.
pub open spec fn additive_op(o: char) -> BinOp {
    if o == '+' {
        BinOp::Add
    } else {
        BinOp::Sub
    }
}

/// Needles of one operator character each, none of them a letter, digit,
/// underscore or space.
pub open spec fn operator_needles(needles: Seq<Seq<char>>) -> bool {
    forall|t: int|
        0 <= t < needles.len() ==> (#[trigger] needles[t]).len() == 1 && !word_char(needles[t][0])
            && needles[t][0] != ' ' && !unicode_alphabetic(needles[t][0]) && is_plain(needles[t][0])
}

/// An operator needle matches at `i` exactly where its character stands.
#[verifier::spinoff_prover]
proof fn lemma_needle_hit_char(s: Seq<char>, i: int, needles: Seq<Seq<char>>)
    requires
        0 <= i < s.len(),
        operator_needles(needles),
    ensures
        (forall|t: int| 0 <= t < needles.len() ==> (#[trigger] needles[t])[0] != s[i]) ==> needle_hit(
            s,
            i,
            needles,
        ) is None,
        (exists|t: int| 0 <= t < needles.len() && (#[trigger] needles[t])[0] == s[i]) ==> needle_hit(
            s,
            i,
            needles,
        ) == Some(1int),
    decreases needles.len(),
{
    if needles.len() > 0 {
        let n0 = needles[0];
        assert(n0.len() == 1 && !unicode_alphabetic(n0[0]));
        assert(!(forall|j: int| 0 <= j < n0.len() ==> unicode_alphabetic(#[trigger] n0[j])));
        assert(needle_matches(s, i, n0) <==> s.subrange(i, i + 1) == n0);
        assert(s.subrange(i, i + 1) == n0 <==> s[i] == n0[0]) by {
            if s[i] == n0[0] {
                assert(s.subrange(i, i + 1) =~= n0);
            }
            if s.subrange(i, i + 1) == n0 {
                assert(s.subrange(i, i + 1)[0] == s[i]);
            }
        }
        let d = needles.drop_first();
        assert forall|t: int| 0 <= t < d.len() implies (#[trigger] d[t]).len() == 1 && !word_char(
            d[t][0],
        ) && d[t][0] != ' ' && !unicode_alphabetic(d[t][0]) && is_plain(d[t][0]) by {
            assert(d[t] == needles[t + 1]);
        }
        lemma_needle_hit_char(s, i, d);
        if exists|t: int| 0 <= t < needles.len() && (#[trigger] needles[t])[0] == s[i] {
            let t = choose|t: int| 0 <= t < needles.len() && (#[trigger] needles[t])[0] == s[i];
            if t > 0 {
                assert(d[t - 1] == needles[t]);
            }
        }
        assert forall|t: int| 0 <= t < d.len() && (forall|u: int| 0 <= u < needles.len() ==> (#[trigger] needles[u])[0] != s[i]) implies (#[trigger] d[t])[0] != s[i] by {
            assert(d[t] == needles[t + 1]);
        }
    }
}

/// Whether the scan passes over `c` unchanged and without finding a needle there.
pub open spec fn skippable(c: char, needles: Seq<Seq<char>>) -> bool {
    is_plain(c) && forall|t: int| 0 <= t < needles.len() ==> (#[trigger] needles[t])[0] != c
}

/// Letters, digits, underscores and spaces are passed over when looking for
/// operators.
#[verifier::spinoff_prover]
proof fn lemma_word_char_skippable(c: char, needles: Seq<Seq<char>>)
    requires
        operator_needles(needles),
        word_char(c) || c == ' ',
    ensures
        skippable(c, needles),
{
    assert forall|t: int| 0 <= t < needles.len() implies (#[trigger] needles[t])[0] != c by {
        assert(!word_char(needles[t][0]) && needles[t][0] != ' ');
    }
}

/// Scanning from the right over skippable characters at the top level finds
/// nothing and changes nothing.
#[verifier::spinoff_prover]
proof fn lemma_scan_skips(s: Seq<char>, needles: Seq<Seq<char>>, k: int, m: int, st: ScanState)
    requires
        0 <= k <= m <= s.len(),
        !st.in_string,
        st.depth == 0,
        operator_needles(needles),
        forall|j: int| k <= j < m ==> skippable(#[trigger] s[s.len() - 1 - j], needles),
    ensures
        depth0_hit_from(s, needles, true, k, st) == depth0_hit_from(s, needles, true, m, st),
    decreases m - k,
{
    if k < m {
        let i = s.len() - 1 - k;
        assert(skippable(s[s.len() - 1 - k], needles));
        lemma_needle_hit_char(s, i, needles);
        lemma_scan_skips(s, needles, k + 1, m, st);
    }
}

/// A text of skippable characters holds no top-level operator.
#[verifier::spinoff_prover]
proof fn lemma_no_operator(a: Seq<char>, needles: Seq<Seq<char>>)
    requires
        operator_needles(needles),
        forall|k: int| 0 <= k < a.len() ==> skippable(#[trigger] a[k], needles),
    ensures
        depth0_hit(a, needles, true) is None,
{
    reveal(depth0_hit);
    assert forall|j: int| 0 <= j < a.len() implies skippable(#[trigger] a[a.len() - 1 - j], needles) by {
        assert(skippable(a[a.len() - 1 - j], needles));
    }
    lemma_scan_skips(a, needles, 0, a.len() as int, scan_start());
}

/// A plain operand holds no top-level operator.
#[verifier::spinoff_prover]
proof fn lemma_word_has_no_operator(a: Seq<char>, needles: Seq<Seq<char>>)
    requires
        is_word(a),
        operator_needles(needles),
    ensures
        depth0_hit(a, needles, true) is None,
{
    assert forall|k: int| 0 <= k < a.len() implies skippable(#[trigger] a[k], needles) by {
        lemma_word_char_skippable(a[k], needles);
    }
    lemma_no_operator(a, needles);
}

/// In `x o y` with `y` made of skippable characters, the last top-level
/// operator is `o`.
#[verifier::spinoff_prover]
proof fn lemma_last_operator_before(x: Seq<char>, o: char, y: Seq<char>, needles: Seq<Seq<char>>)
    requires
        operator_needles(needles),
        forall|k: int| 0 <= k < y.len() ==> skippable(#[trigger] y[k], needles),
        exists|t: int| 0 <= t < needles.len() && (#[trigger] needles[t])[0] == o,
    ensures
        depth0_hit(spaced(x, o, y), needles, true) == Some((x.len() + 1int, 1int)),
{
    reveal(depth0_hit);
    let s = spaced(x, o, y);
    let n = s.len();
    let m = y.len() + 1int;
    lemma_word_char_skippable(' ', needles);
    assert forall|j: int| 0 <= j < m implies skippable(#[trigger] s[n - 1 - j], needles) by {
        if j < y.len() {
            assert(s[n - 1 - j] == y[y.len() - 1 - j]);
        } else {
            assert(s[n - 1 - j] == ' ');
        }
    }
    lemma_scan_skips(s, needles, 0, m, scan_start());
    let i = x.len() + 1int;
    assert(s[i] == o);
    lemma_needle_hit_char(s, i, needles);
    let t = choose|t: int| 0 <= t < needles.len() && (#[trigger] needles[t])[0] == o;
    assert(is_plain(needles[t][0]));
    assert(crate::scan::visit_order(n as int, true, m) == i);
    assert(depth0_hit_from(s, needles, true, m, scan_start()) == Some((i, 1int)));
}

/// In `x o y` with a plain operand `y`, the last top-level operator is `o`.
#[verifier::spinoff_prover]
proof fn lemma_last_operator(x: Seq<char>, o: char, y: Seq<char>, needles: Seq<Seq<char>>)
    requires
        is_word(y),
        operator_needles(needles),
        exists|t: int| 0 <= t < needles.len() && (#[trigger] needles[t])[0] == o,
    ensures
        depth0_hit(spaced(x, o, y), needles, true) == Some((x.len() + 1int, 1int)),
{
    assert forall|k: int| 0 <= k < y.len() implies skippable(#[trigger] y[k], needles) by {
        lemma_word_char_skippable(y[k], needles);
    }
    lemma_last_operator_before(x, o, y, needles);
}

/// Trimming leaves a text whose ends are not white space, with one space added.
#[verifier::spinoff_prover]
proof fn lemma_trim_spaced_ends(x: Seq<char>, y: Seq<char>)
    requires
        is_word(y),
        x.len() > 0,
        word_char(x[0]),
        word_char(x.last()),
    ensures
        trimmed(x + seq![' ']) == x,
        trimmed(seq![' '] + y) == y,
{
    reveal(trimmed);
    let xs = x + seq![' '];
    assert(xs[0] == x[0]);
    assert(trim_start(xs) == xs);
    assert(xs.drop_last() =~= x);
    assert(trim_end(x) == x);
    let sy = seq![' '] + y;
    assert(sy.drop_first() =~= y);
    assert(word_char(y[0]));
    assert(trim_start(y) == y);
    assert(word_char(y[y.len() - 1]));
    assert(trim_end(y) == y);
}

/// The pieces of `x o y` around the operator.
#[verifier::spinoff_prover]
proof fn lemma_spaced_pieces(x: Seq<char>, o: char, y: Seq<char>)
    ensures
        spaced(x, o, y).take(x.len() + 1int) == x + seq![' '],
        spaced(x, o, y).skip(x.len() + 2int) == seq![' '] + y,
        spaced(x, o, y)[x.len() + 1int] == o,
{
    assert(spaced(x, o, y).take(x.len() + 1int) =~= x + seq![' ']);
    assert(spaced(x, o, y).skip(x.len() + 2int) =~= seq![' '] + y);
}

/// `x o y`, with `o` one of `*`, `/`, `%` and `y` a plain operand, groups as
/// `(x) o (y)`: the left side is everything before the last operator.
#[verifier::spinoff_prover]
proof fn lemma_multiplicative_split(x: Seq<char>, o: char, y: Seq<char>)
    requires
        is_word(y),
        x.len() > 0,
        word_char(x[0]),
        word_char(x.last()),
        o == '*' || o == '/' || o == '%',
    ensures
        multiplicative_of(spaced(x, o, y)) == match (multiplicative_of(x), unary_of(y)) {
            (Some(a), Some(b)) => Some(SExpr::BinOp(Box::new(a), multiplicative_op(o), Box::new(b))),
            _ => None,
        },
{
    reveal(multiplicative_of);
    let ops = multiplicative_ops();
    assert(operator_needles(ops));
    if o == '*' {
        assert(ops[0][0] == o);
    } else if o == '/' {
        assert(ops[1][0] == o);
    } else {
        assert(ops[2][0] == o);
    }
    lemma_last_operator(x, o, y, ops);
    lemma_spaced_pieces(x, o, y);
    lemma_trim_spaced_ends(x, y);
}

/// A plain operand is its own product.
#[verifier::spinoff_prover]
proof fn lemma_word_multiplicative(a: Seq<char>)
    requires
        is_word(a),
    ensures
        multiplicative_of(a) == unary_of(a),
{
    reveal(multiplicative_of);
    assert(operator_needles(multiplicative_ops()));
    lemma_word_has_no_operator(a, multiplicative_ops());
}

/// `*`, `/` and `%` group to the left: `a o1 b o2 c` is `(a o1 b) o2 c`.
#[verifier::spinoff_prover]
pub proof fn law_multiplication_is_left_associative(
    a: Seq<char>,
    o1: char,
    b: Seq<char>,
    o2: char,
    c: Seq<char>,
)
    requires
        is_word(a),
        is_word(b),
        is_word(c),
        o1 == '*' || o1 == '/' || o1 == '%',
        o2 == '*' || o2 == '/' || o2 == '%',
    ensures
        multiplicative_of(spaced(spaced(a, o1, b), o2, c)) == match (
            unary_of(a),
            unary_of(b),
            unary_of(c),
        ) {
            (Some(x), Some(y), Some(z)) => Some(
                SExpr::BinOp(
                    Box::new(SExpr::BinOp(Box::new(x), multiplicative_op(o1), Box::new(y))),
                    multiplicative_op(o2),
                    Box::new(z),
                ),
            ),
            _ => None,
        },
{
    let left = spaced(a, o1, b);
    assert(left[0] == a[0]);
    assert(word_char(a[0]));
    assert(left.last() == b[b.len() - 1]);
    assert(word_char(b[b.len() - 1]));
    assert(word_char(a[a.len() - 1]));
    lemma_multiplicative_split(left, o2, c);
    lemma_multiplicative_split(a, o1, b);
    lemma_word_multiplicative(a);
}

/// `x o y`, with `o` one of `+`, `-` and `y` a plain operand, groups as
/// `(x) o (y)` when `x` ends with an operand.
#[verifier::spinoff_prover]
proof fn lemma_additive_split(x: Seq<char>, o: char, y: Seq<char>)
    requires
        is_word(y),
        x.len() > 0,
        word_char(x[0]),
        word_char(x.last()),
        o == '+' || o == '-',
    ensures
        additive_of(spaced(x, o, y)) == match (additive_of(x), unary_of(y)) {
            (Some(a), Some(b)) => Some(SExpr::BinOp(Box::new(a), additive_op(o), Box::new(b))),
            _ => None,
        },
{
    reveal(additive_of);
    let s = spaced(x, o, y);
    let ops = additive_ops();
    assert(operator_needles(ops));
    if o == '+' {
        assert(ops[0][0] == o);
    } else {
        assert(ops[1][0] == o);
    }
    assert(s.take(s.len() as int) =~= s);
    lemma_last_operator(x, o, y, ops);
    lemma_spaced_pieces(x, o, y);
    lemma_trim_spaced_ends(x, y);
    assert(!is_operator_char(x.last()));
    assert(binary_sign_at(s, s.len() as int) == Some((x.len() + 1int, 1int)));
    lemma_word_multiplicative(y);
}

/// A plain operand is its own sum.
#[verifier::spinoff_prover]
proof fn lemma_word_additive(a: Seq<char>)
    requires
        is_word(a),
    ensures
        additive_of(a) == unary_of(a),
{
    reveal(additive_of);
    assert(operator_needles(additive_ops()));
    assert(a.take(a.len() as int) =~= a);
    lemma_word_has_no_operator(a, additive_ops());
    assert(depth0_hit(a.take(a.len() as int), additive_ops(), true) is None);
    assert(binary_sign_at(a, a.len() as int) is None);
    assert(additive_of(a) == multiplicative_of(a));
    lemma_word_multiplicative(a);
}

/// `+` and `-` group to the left: `a o1 b o2 c` is `(a o1 b) o2 c`.
#[verifier::spinoff_prover]
pub proof fn law_addition_is_left_associative(
    a: Seq<char>,
    o1: char,
    b: Seq<char>,
    o2: char,
    c: Seq<char>,
)
    requires
        is_word(a),
        is_word(b),
        is_word(c),
        o1 == '+' || o1 == '-',
        o2 == '+' || o2 == '-',
    ensures
        additive_of(spaced(spaced(a, o1, b), o2, c)) == match (unary_of(a), unary_of(b), unary_of(c)) {
            (Some(x), Some(y), Some(z)) => Some(
                SExpr::BinOp(
                    Box::new(SExpr::BinOp(Box::new(x), additive_op(o1), Box::new(y))),
                    additive_op(o2),
                    Box::new(z),
                ),
            ),
            _ => None,
        },
{
    let left = spaced(a, o1, b);
    assert(left[0] == a[0]);
    assert(word_char(a[0]));
    assert(left.last() == b[b.len() - 1]);
    assert(word_char(b[b.len() - 1]));
    assert(word_char(a[a.len() - 1]));
    lemma_additive_split(left, o2, c);
    lemma_additive_split(a, o1, b);
    lemma_word_additive(a);
}

/// In `x o y` (no spaces added) with `y` made of skippable characters, the last
/// top-level operator is the `o` at position `x.len()`.
#[verifier::spinoff_prover]
proof fn lemma_hit_at(x: Seq<char>, o: char, y: Seq<char>, needles: Seq<Seq<char>>)
    requires
        operator_needles(needles),
        forall|k: int| 0 <= k < y.len() ==> skippable(#[trigger] y[k], needles),
        exists|t: int| 0 <= t < needles.len() && (#[trigger] needles[t])[0] == o,
    ensures
        depth0_hit(x + seq![o] + y, needles, true) == Some((x.len() as int, 1int)),
{
    reveal(depth0_hit);
    let s = x + seq![o] + y;
    let n = s.len();
    let m = y.len() as int;
    assert forall|j: int| 0 <= j < m implies skippable(#[trigger] s[n - 1 - j], needles) by {
        assert(s[n - 1 - j] == y[y.len() - 1 - j]);
    }
    lemma_scan_skips(s, needles, 0, m, scan_start());
    let i = x.len() as int;
    assert(s[i] == o);
    lemma_needle_hit_char(s, i, needles);
    let t = choose|t: int| 0 <= t < needles.len() && (#[trigger] needles[t])[0] == o;
    assert(is_plain(needles[t][0]));
    assert(crate::scan::visit_order(n as int, true, m) == i);
    assert(depth0_hit_from(s, needles, true, m, scan_start()) == Some((i, 1int)));
}

/// Trimming a text that neither begins nor ends with white space, with or
/// without a space on one side, gives the text.
#[verifier::spinoff_prover]
proof fn lemma_trim_ends(x: Seq<char>)
    requires
        x.len() > 0,
        !unicode_whitespace(x[0]),
        !unicode_whitespace(x.last()),
    ensures
        trimmed(x) == x,
        trimmed(x + seq![' ']) == x,
        trimmed(seq![' '] + x) == x,
{
    reveal(trimmed);
    let xs = x + seq![' '];
    assert(xs[0] == x[0]);
    assert(trim_start(xs) == xs);
    assert(xs.drop_last() =~= x);
    assert(trim_start(x) == x);
    assert(trim_end(x) == x);
    let sx = seq![' '] + x;
    assert(sx.drop_first() =~= x);
}

/// `-b`, for a plain operand `b`, is the negation of `b`.
#[verifier::spinoff_prover]
proof fn lemma_negated_word(b: Seq<char>)
    requires
        is_word(b),
    ensures
        unary_of(seq!['-'] + b) == match unary_of(b) {
            Some(y) => Some(SExpr::UnaryOp(UnaryOp::Neg, Box::new(y))),
            None => None,
        },
        multiplicative_of(seq!['-'] + b) == unary_of(seq!['-'] + b),
        forall|k: int| 0 <= k < (seq!['-'] + b).len() ==> skippable(#[trigger] (seq!['-'] + b)[k], multiplicative_ops()),
{
    let nb = seq!['-'] + b;
    assert(word_char(b[b.len() - 1]));
    assert(nb.last() == b[b.len() - 1]);
    lemma_trim_ends(nb);
    assert(nb.skip(1) =~= b);
    reveal(unary_of);
    let ops = multiplicative_ops();
    assert(operator_needles(ops));
    assert forall|k: int| 0 <= k < nb.len() implies skippable(#[trigger] nb[k], ops) by {
        if k == 0 {
            assert(nb[0] == '-');
        } else {
            assert(nb[k] == b[k - 1]);
            lemma_word_char_skippable(b[k - 1], ops);
        }
    }
    lemma_no_operator(nb, ops);
    reveal(multiplicative_of);
}

/// A minus sign right after `*`, `/` or `%` is unary: `a o -b` is `a o (-b)`.
#[verifier::spinoff_prover]
pub proof fn law_minus_after_a_product_operator_is_unary(a: Seq<char>, o: char, b: Seq<char>)
    requires
        is_word(a),
        is_word(b),
        o == '*' || o == '/' || o == '%',
    ensures
        additive_of(spaced(a, o, seq!['-'] + b)) == match (unary_of(a), unary_of(b)) {
            (Some(x), Some(y)) => Some(
                SExpr::BinOp(
                    Box::new(x),
                    multiplicative_op(o),
                    Box::new(SExpr::UnaryOp(UnaryOp::Neg, Box::new(y))),
                ),
            ),
            _ => None,
        },
{
    let nb = seq!['-'] + b;
    let s = spaced(a, o, nb);
    let adds = additive_ops();
    let mults = multiplicative_ops();
    assert(operator_needles(adds));
    assert(operator_needles(mults));
    lemma_negated_word(b);
    // The only sign is the one before `b`, and an operator stands before it.
    let head = a + seq![' ', o, ' '];
    assert(s =~= head + seq!['-'] + b);
    assert(adds[1][0] == '-');
    assert forall|k: int| 0 <= k < b.len() implies skippable(#[trigger] b[k], adds) by {
        lemma_word_char_skippable(b[k], adds);
    }
    lemma_hit_at(head, '-', b, adds);
    let p = head.len() as int;
    assert(s.take(s.len() as int) =~= s);
    assert(s.take(p) =~= head);
    let ao = a + seq![' ', o];
    assert(ao[0] == a[0] && word_char(a[0]));
    assert(ao.last() == o);
    lemma_trim_ends(ao);
    assert(head =~= ao + seq![' ']);
    assert(is_operator_char(trimmed(s.take(p)).last()));
    assert forall|k: int| 0 <= k < head.len() implies skippable(#[trigger] head[k], adds) by {
        if k < a.len() {
            assert(head[k] == a[k]);
            lemma_word_char_skippable(a[k], adds);
        } else if k == a.len() + 1 {
            assert(head[k] == o);
        } else {
            assert(head[k] == ' ');
            lemma_word_char_skippable(' ', adds);
        }
    }
    lemma_no_operator(head, adds);
    assert(s.take(p) == head);
    assert(binary_sign_at(s, p) is None);
    assert(binary_sign_at(s, s.len() as int) is None);
    lemma_additive_without_sign(s);
    // The product splits at `o`.
    if o == '*' {
        assert(mults[0][0] == o);
    } else if o == '/' {
        assert(mults[1][0] == o);
    } else {
        assert(mults[2][0] == o);
    }
    lemma_last_operator_before(a, o, nb, mults);
    lemma_spaced_pieces(a, o, nb);
    assert(word_char(a[a.len() - 1]));
    lemma_trim_ends(a);
    assert(word_char(b[b.len() - 1]));
    assert(nb.last() == b[b.len() - 1]);
    lemma_trim_ends(nb);
    reveal(multiplicative_of);
    lemma_word_multiplicative(a);
}

/// A minus sign right after `+` or `-` is unary: `a o -b` is `a o (-b)`.
#[verifier::spinoff_prover]
pub proof fn law_minus_after_a_sign_is_unary(a: Seq<char>, o: char, b: Seq<char>)
    requires
        is_word(a),
        is_word(b),
        o == '+' || o == '-',
    ensures
        additive_of(spaced(a, o, seq!['-'] + b)) == match (unary_of(a), unary_of(b)) {
            (Some(x), Some(y)) => Some(
                SExpr::BinOp(
                    Box::new(x),
                    additive_op(o),
                    Box::new(SExpr::UnaryOp(UnaryOp::Neg, Box::new(y))),
                ),
            ),
            _ => None,
        },
{
    let nb = seq!['-'] + b;
    let s = spaced(a, o, nb);
    let adds = additive_ops();
    assert(operator_needles(adds));
    lemma_negated_word(b);
    let head = a + seq![' ', o, ' '];
    assert(s =~= head + seq!['-'] + b);
    assert(adds[1][0] == '-');
    if o == '+' {
        assert(adds[0][0] == o);
    }
    assert forall|k: int| 0 <= k < b.len() implies skippable(#[trigger] b[k], adds) by {
        lemma_word_char_skippable(b[k], adds);
    }
    lemma_hit_at(head, '-', b, adds);
    let p = head.len() as int;
    assert(s.take(s.len() as int) =~= s);
    assert(s.take(p) =~= head);
    let ao = a + seq![' ', o];
    assert(ao[0] == a[0] && word_char(a[0]));
    assert(ao.last() == o);
    lemma_trim_ends(ao);
    assert(head =~= ao + seq![' ']);
    assert(is_operator_char(trimmed(s.take(p)).last()));
    // Before that sign, the sign `o` stands after the operand `a`.
    assert(head =~= spaced(a, o, Seq::<char>::empty()));
    lemma_last_operator_before(a, o, Seq::<char>::empty(), adds);
    let q = a.len() + 1int;
    assert(s.take(p).take(q) =~= s.take(q));
    assert(s.take(q) =~= a + seq![' ']);
    assert(word_char(a[a.len() - 1]));
    lemma_trim_ends(a);
    assert(!is_operator_char(a.last()));
    assert(binary_sign_at(s, p) == Some((q, 1int)));
    assert(binary_sign_at(s, s.len() as int) == Some((q, 1int)));
    assert(s[q] == o);
    assert(s.skip(q + 1) =~= seq![' '] + nb);
    assert(nb.last() == b[b.len() - 1]);
    assert(word_char(b[b.len() - 1]));
    lemma_trim_ends(nb);
    reveal(additive_of);
    lemma_word_additive(a);
}

/// Without a binary sign, a text is a product.
#[verifier::spinoff_prover]
proof fn lemma_additive_without_sign(s: Seq<char>)
    requires
        binary_sign_at(s, s.len() as int) is None,
    ensures
        additive_of(s) == multiplicative_of(s),
{
    reveal(additive_of);
}

} // verus!
