//! The parser's statements: line-based blocks by indentation.
use vstd::prelude::*;
use crate::ast::{
    lemma_ops_view_len,
    lemma_ops_view_push,
    ops_view,
    strings_view,
    BinOp,
    Expr,
    Op,
    SOp,
};
use crate::grammar::{
    assign_from,
    assignment_parts,
    augmented_from,
    augmented_op,
    augmented_parts,
    blank,
    block_end_from,
    block_from,
    def_parts,
    for_text,
    if_block_of,
    indent_of,
    kw_break,
    kw_continue,
    kw_def,
    kw_elif,
    kw_else,
    kw_except,
    kw_for,
    kw_if,
    kw_in,
    kw_print,
    kw_return,
    kw_try,
    kw_while,
    leading_spaces,
    occurrence_from,
    plain_target,
    program_of,
    split_commas,
    statement_at,
    then_ops,
    trim_all,
    try_scan,
};
use crate::parser::{opt_expr_view, Parser};
use crate::scan::{is_plain, scan_start, scan_step, slice_texts, Scanner, pos_view};
use crate::text::{
    chars_equal,
    chars_of,
    contains_char,
    ends_with_char,
    find_char,
    first_index_of,
    has_prefix,
    has_suffix,
    lemma_trimmed_len,
    lines_of,
    matches_at,
    occurs_at,
    starts_with,
    string_of,
    strip_line_end,
    trim,
    trimmed,
};

verus! {

/// The texts of a list of lines.
pub open spec fn lines_view(v: Seq<Vec<char>>) -> Seq<Seq<char>> {
    v.map_values(|l: Vec<char>| l@)
}

/// Whether every line is shorter than the scanners' limit.
pub open spec fn lines_short(v: Seq<Vec<char>>) -> bool {
    forall|k: int| 0 <= k < v.len() ==> (#[trigger] v[k])@.len() < i32::MAX
}

/// An optional list of statements, by its model.
pub open spec fn opt_ops_view(r: Option<Vec<Op>>) -> Option<Seq<SOp>> {
    match r {
        Some(v) => Some(ops_view(v@)),
        None => None,
    }
}

/// `done` followed by the statements `rest`, when these are there.
pub open spec fn after_ops(done: Seq<SOp>, rest: Option<Seq<SOp>>) -> Option<Seq<SOp>> {
    match rest {
        Some(r) => Some(done + r),
        None => None,
    }
}

pub proof fn lemma_suffix_char(s: Seq<char>, c: char)
    ensures
        has_suffix(s, seq![c]) == (s.len() > 0 && s.last() == c),
{
    if s.len() > 0 && s.last() == c {
        assert(s.subrange(s.len() - 1, s.len() as int) =~= seq![c]);
    }
    if has_suffix(s, seq![c]) {
        assert(s.subrange(s.len() - 1, s.len() as int)[0] == s.last());
    }
}

pub proof fn lemma_lines_of_bounds(s: Seq<char>)
    ensures
        forall|k: int| 0 <= k < lines_of(s).len() ==> #[trigger] lines_of(s)[k].len() <= s.len(),
        lines_of(s).len() <= s.len(),
    decreases s.len(),
{
    if s.len() > 0 {
        match first_index_of(s, '\n') {
            Some(k) => if 0 <= k < s.len() {
                lemma_lines_of_bounds(s.skip(k + 1));
                let r = seq![strip_line_end(s.take(k))] + lines_of(s.skip(k + 1));
                assert forall|j: int| 0 <= j < r.len() implies #[trigger] r[j].len() <= s.len() by {
                    if j > 0 {
                        assert(r[j] == lines_of(s.skip(k + 1))[j - 1]);
                    }
                }
            },
            None => {},
        }
    }
}

/// The lines of `s` (`str::lines`).
pub fn split_lines(s: &[char]) -> (r: Vec<Vec<char>>)
    ensures
        lines_view(r@) == lines_of(s@),
{
    let n = s.len();
    let mut out: Vec<Vec<char>> = Vec::new();
    let mut start: usize = 0;
    assert(s@.skip(0) =~= s@);
    while start < n
        invariant
            start <= n == s@.len(),
            lines_of(s@) == lines_view(out@) + lines_of(s@.skip(start as int)),
        decreases n - start,
    {
        let rest = &s[start..n];
        assert(rest@ =~= s@.skip(start as int));
        match find_char(rest, '\n') {
            Some(k) => {
                let mut line: Vec<char> = Vec::new();
                let mut j: usize = 0;
                while j < k
                    invariant
                        j <= k < rest@.len(),
                        line@ == rest@.take(j as int),
                    decreases k - j,
                {
                    line.push(rest[j]);
                    j = j + 1;
                    assert(line@ =~= rest@.take(j as int));
                }
                if k > 0 && rest[k - 1] == '\r' {
                    line.pop();
                    assert(line@ =~= rest@.take(k as int).drop_last());
                }
                let ghost prev = out@;
                out.push(line);
                proof {
                    assert(lines_view(out@) =~= lines_view(prev).push(line@));
                    assert(rest@.skip(k + 1) =~= s@.skip(start + k + 1));
                    assert(lines_view(out@) + lines_of(s@.skip(start + k + 1)) =~= lines_view(prev) + (
                    seq![strip_line_end(rest@.take(k as int))] + lines_of(rest@.skip(k + 1))));
                }
                start = start + k + 1;
            },
            None => {
                let mut line: Vec<char> = Vec::new();
                let mut j: usize = 0;
                while j < rest.len()
                    invariant
                        j <= rest@.len(),
                        line@ == rest@.take(j as int),
                    decreases rest@.len() - j,
                {
                    line.push(rest[j]);
                    j = j + 1;
                    assert(line@ =~= rest@.take(j as int));
                }
                assert(line@ =~= rest@);
                let ghost prev = out@;
                out.push(line);
                proof {
                    assert(lines_view(out@) =~= lines_view(prev).push(line@));
                    assert(s@.skip(n as int) =~= Seq::<char>::empty());
                    assert(lines_view(out@) + lines_of(s@.skip(n as int)) =~= lines_view(prev) + seq![
                        rest@,
                    ]);
                }
                start = n;
            },
        }
    }
    assert(s@.skip(start as int) =~= Seq::<char>::empty());
    assert(lines_view(out@) + Seq::<Seq<char>>::empty() =~= lines_view(out@));
    out
}

/// The pieces of `s` between its commas (`str::split(',')`).
fn split_commas_exec(s: &[char]) -> (r: Vec<&[char]>)
    ensures
        slice_texts(r@) == split_commas(s@),
{
    let n = s.len();
    let mut out: Vec<&[char]> = Vec::new();
    let mut start: usize = 0;
    assert(s@.skip(0) =~= s@);
    assert(slice_texts(out@) =~= Seq::<Seq<char>>::empty());
    loop
        invariant
            start <= n == s@.len(),
            split_commas(s@) == slice_texts(out@) + split_commas(s@.skip(start as int)),
        decreases n - start,
    {
        let rest = &s[start..n];
        assert(rest@ =~= s@.skip(start as int));
        match find_char(rest, ',') {
            Some(k) => {
                let piece = &rest[0..k];
                let ghost prev = out@;
                out.push(piece);
                proof {
                    assert(slice_texts(out@) =~= slice_texts(prev).push(piece@));
                    assert(piece@ =~= rest@.take(k as int));
                    assert(rest@.skip(k + 1) =~= s@.skip(start + k + 1));
                    assert(slice_texts(out@) + split_commas(s@.skip(start + k + 1)) =~= slice_texts(prev) + (
                    seq![rest@.take(k as int)] + split_commas(rest@.skip(k + 1))));
                }
                start = start + k + 1;
            },
            None => {
                let ghost prev = out@;
                out.push(rest);
                proof {
                    assert(slice_texts(out@) =~= slice_texts(prev).push(rest@));
                    assert(slice_texts(out@) =~= slice_texts(prev) + seq![rest@]);
                }
                return out;
            },
        }
    }
}

/// The first position where `p` occurs in `s`.
pub(crate) fn find_occurrence(s: &[char], p: &[char]) -> (r: Option<usize>)
    requires
        s@.len() < usize::MAX,
    ensures
        pos_view(r) == occurrence_from(s@, p@, 0),
{
    let mut k: usize = 0;
    while k <= s.len() && p.len() <= s.len() - k
        invariant
            s@.len() < usize::MAX,
            occurrence_from(s@, p@, 0) == occurrence_from(s@, p@, k as int),
        decreases s@.len() + 1 - k,
    {
        if matches_at(s, p, k) {
            return Some(k);
        }
        k = k + 1;
    }
    None
}

/// The `=` that the assignment search finds stands alone: it is an `=` with no
/// `=` on either side, and no `!`, `<`, `>`, `+`, `-`, `*` or `/` before it, so
/// that `==`, `!=`, `<=`, `>=` and augmented assignments are never taken for one.
pub proof fn law_assignment_sign_stands_alone(s: Seq<char>, k: int, st: crate::scan::ScanState)
    requires
        0 <= k,
    ensures
        assign_from(s, k, st) matches Some(i) ==> k <= i < s.len() && s[i] == '=' && (i + 1
            >= s.len() || s[i + 1] != '=') && (i == 0 || (s[i - 1] != '=' && s[i - 1] != '!'
            && s[i - 1] != '<' && s[i - 1] != '>' && s[i - 1] != '+' && s[i - 1] != '-' && s[i
            - 1] != '*' && s[i - 1] != '/')),
    decreases s.len() - k,
{
    if k < s.len() {
        if !st.in_string && s[k] == '=' && st.depth == 0 {
            law_assignment_sign_stands_alone(s, k + 1, st);
        } else {
            law_assignment_sign_stands_alone(s, k + 1, scan_step(s, k, st, true));
        }
    }
}

/// The search finds the first occurrence: the pattern occurs where it is
/// found and nowhere before, and when nothing is found it occurs nowhere.
pub proof fn law_occurrence_is_the_first(s: Seq<char>, p: Seq<char>, k: int)
    requires
        0 <= k,
    ensures
        occurrence_from(s, p, k) matches Some(i) ==> occurs_at(s, p, i) && forall|j: int|
            k <= j < i ==> !occurs_at(s, p, j),
        occurrence_from(s, p, k) is None ==> forall|j: int| k <= j ==> !occurs_at(s, p, j),
    decreases s.len() + 1 - k,
{
    if k + p.len() <= s.len() && !occurs_at(s, p, k) {
        law_occurrence_is_the_first(s, p, k + 1);
    }
}

impl Parser {
    /// The indentation level of a line: its leading spaces in fours.
    #[verifier::spinoff_prover]
    pub fn indent_level(line: &[char]) -> (r: usize)
        ensures
            r == indent_of(line@),
    {
        let mut k: usize = 0;
        assert(line@.skip(0) =~= line@);
        while k < line.len() && line[k] == ' '
            invariant
                k <= line.len(),
                k <= line@.len(),
                leading_spaces(line@) == k + leading_spaces(line@.skip(k as int)),
            decreases line@.len() - k,
        {
            assert(line@.skip(k as int).drop_first() =~= line@.skip(k + 1));
            k = k + 1;
        }
        k / 4
    }

    /// The end of the block that starts at line `start`: the first line before
    /// `end` that is not blank and is indented less than `target`, or `end`.
    #[verifier::spinoff_prover]
    pub fn find_block_end(lines: &[Vec<char>], start: usize, end: usize, target: usize) -> (r: usize)
        requires
            start <= end <= lines@.len(),
        ensures
            r as int == block_end_from(lines_view(lines@), start as int, end as int, target as int),
            start <= r <= end,
    {
        let ghost lv = lines_view(lines@);
        let mut i: usize = start;
        while i < end
            invariant
                start <= i <= end <= lines@.len(),
                lv == lines_view(lines@),
                block_end_from(lv, start as int, end as int, target as int) == block_end_from(
                    lv,
                    i as int,
                    end as int,
                    target as int,
                ),
            decreases end - i,
        {
            assert(lv[i as int] == lines@[i as int]@);
            if trim(lines[i].as_slice()).len() == 0 {
                i = i + 1;
            } else if Self::indent_level(lines[i].as_slice()) < target {
                return i;
            } else {
                i = i + 1;
            }
        }
        i
    }

    /// The end of a `try` body from line `start` on, and its `except` line if one is found.
    #[verifier::spinoff_prover]
    fn try_block_end(lines: &[Vec<char>], start: usize, end: usize, base: usize) -> (r: (
        usize,
        Option<usize>,
    ))
        requires
            start <= end <= lines@.len(),
            base < usize::MAX,
        ensures
            (r.0 as int, pos_view(r.1)) == try_scan(lines_view(lines@), start as int, end as int, base as int),
            start <= r.0 <= end,
            r.1 matches Some(e) ==> start <= e < end,
    {
        let ghost lv = lines_view(lines@);
        let except_kw = ['e', 'x', 'c', 'e', 'p', 't'];
        assert(except_kw@ =~= kw_except());
        let mut j: usize = start;
        while j < end
            invariant
                start <= j <= end <= lines@.len(),
                lv == lines_view(lines@),
                base < usize::MAX,
                except_kw@ == kw_except(),
                try_scan(lv, start as int, end as int, base as int) == try_scan(lv, j as int, end as int, base as int),
            decreases end - j,
        {
            assert(lv[j as int] == lines@[j as int]@);
            let l = trim(lines[j].as_slice());
            if l.len() == 0 {
                j = j + 1;
            } else {
                let ind = Self::indent_level(lines[j].as_slice());
                if ind == base && starts_with(l, &except_kw) {
                    return (j, Some(j));
                }
                if ind < base + 1 {
                    return (j, None);
                }
                j = j + 1;
            }
        }
        (j, None)
    }

    /// The first `=` of an assignment in `s` (not part of a comparison or of an
    /// augmented assignment), outside strings and brackets.
    #[verifier::spinoff_prover]
    pub fn find_assignment(s: &[char]) -> (r: Option<usize>)
        requires
            s@.len() < i32::MAX,
        ensures
            pos_view(r) == assign_from(s@, 0, scan_start()),
    {
        let n = s.len();
        let mut st = Scanner::new();
        let mut k: usize = 0;
        while k < n
            invariant
                n == s@.len() < i32::MAX,
                k <= n,
                -(k as int) <= st.depth <= k,
                assign_from(s@, 0, scan_start()) == assign_from(s@, k as int, st.state()),
            decreases n - k,
        {
            if !st.in_string && s[k] == '=' && st.depth == 0 {
                let skip = (k + 1 < n && s[k + 1] == '=') || (k > 0 && (s[k - 1] == '!' || s[k - 1]
                    == '<' || s[k - 1] == '>' || s[k - 1] == '=')) || (k > 0 && (s[k - 1] == '+' || s[k - 1] == '-'
                    || s[k - 1] == '*' || s[k - 1] == '/'));
                if !skip {
                    return Some(k);
                }
            } else {
                st.step(s, k, true);
            }
            k = k + 1;
        }
        None
    }

    /// The first `+=`, `-=`, `*=` or `/=` of `s` outside strings and brackets.
    #[verifier::spinoff_prover]
    pub fn find_augmented_assign(s: &[char]) -> (r: Option<usize>)
        requires
            s@.len() < i32::MAX,
        ensures
            pos_view(r) == augmented_from(s@, 0, scan_start()),
    {
        let n = s.len();
        let mut st = Scanner::new();
        let mut k: usize = 0;
        while k + 1 < n
            invariant
                n == s@.len() < i32::MAX,
                k <= n,
                -(k as int) <= st.depth <= k,
                augmented_from(s@, 0, scan_start()) == augmented_from(s@, k as int, st.state()),
            decreases n - k,
        {
            let c = s[k];
            if !st.in_string && !(c == '"' || c == '\'' || c == '(' || c == '[' || c == '{' || c
                == ')' || c == ']' || c == '}') && st.depth == 0 && (c == '+' || c == '-' || c
                == '*' || c == '/') && s[k + 1] == '=' {
                return Some(k);
            }
            st.step(s, k, true);
            k = k + 1;
        }
        None
    }

    /// The name and parameters of the `def name(params):` line `t`.
    #[verifier::spinoff_prover]
    fn def_parts(t: &[char]) -> (r: (String, Vec<String>))
        requires
            t@.len() >= 5,
        ensures
            (r.0@, strings_view(r.1@)) == def_parts(t@),
    {
        let n = t.len();
        let d = &t[4..n - 1];
        match find_char(d, '(') {
            Some(p) => {
                let name = string_of(trim(&d[0..p]));
                let mut params: Vec<String> = Vec::new();
                let dn = d.len();
                if dn > 0 && d[dn - 1] == ')' {
                    let inner = &d[p + 1..dn - 1];
                    if trim(inner).len() > 0 {
                        let pieces = split_commas_exec(inner);
                        let mut i: usize = 0;
                        while i < pieces.len()
                            invariant
                                i <= pieces@.len(),
                                strings_view(params@) == trim_all(slice_texts(pieces@)).take(i as int),
                            decreases pieces@.len() - i,
                        {
                            let ghost prev = params@;
                            let piece = string_of(trim(pieces[i]));
                            params.push(piece);
                            assert(slice_texts(pieces@)[i as int] == pieces@[i as int]@);
                            assert(trim_all(slice_texts(pieces@))[i as int] == trimmed(pieces@[i as int]@));
                            assert(strings_view(params@) =~= strings_view(prev).push(piece@));
                            assert(strings_view(params@) =~= trim_all(slice_texts(pieces@)).take(i + 1));
                            i = i + 1;
                        }
                        assert(trim_all(slice_texts(pieces@)).take(i as int) =~= trim_all(slice_texts(pieces@)));
                    } else {
                        assert(strings_view(params@) =~= Seq::<Seq<char>>::empty());
                    }
                } else {
                    assert(strings_view(params@) =~= Seq::<Seq<char>>::empty());
                }
                proof {
                    assert(d@ =~= t@.subrange(4, t@.len() - 1));
                    assert(d@.take(p as int) =~= d@.subrange(0, p as int));
                }
                (name, params)
            },
            None => {
                let params: Vec<String> = Vec::new();
                assert(strings_view(params@) =~= Seq::<Seq<char>>::empty());
                assert(d@ =~= t@.subrange(4, t@.len() - 1));
                (string_of(trim(d)), params)
            },
        }
    }

    /// Whether an assignment target is a plain name.
    fn plain_target(var: &[char]) -> (r: bool)
        ensures
            r == plain_target(var@),
    {
        !contains_char(var, '(') && !contains_char(var, '[') && !contains_char(var, '.')
    }

    /// The target and the value text of the assignment `t`, if it is one.
    #[verifier::spinoff_prover]
    fn split_assignment(t: &[char]) -> (r: Option<(&[char], &[char])>)
        requires
            t@.len() < i32::MAX,
        ensures
            match r {
                Some((v, e)) => assignment_parts(t@) == Some((v@, e@)) && e@.len() <= t@.len(),
                None => assignment_parts(t@) is None,
            },
    {
        match Self::find_assignment(t) {
            Some(eq) => {
                proof {
                    lemma_assign_bounds(t@, 0, scan_start());
                }
                let n = t.len();
                let var = trim(&t[0..eq]);
                let rest = &t[eq + 1..n];
                assert(rest@ =~= t@.skip(eq + 1));
                if rest.len() > 0 && rest[0] == '=' {
                    None
                } else if !Self::plain_target(var) {
                    None
                } else {
                    Some((var, trim(rest)))
                }
            },
            None => None,
        }
    }

    /// The target, operator and value text of the augmented assignment `t`, if it is one.
    #[verifier::spinoff_prover]
    fn split_augmented(t: &[char]) -> (r: Option<(&[char], BinOp, &[char])>)
        requires
            t@.len() < i32::MAX,
        ensures
            match r {
                Some((v, op, e)) => augmented_parts(t@) == Some((v@, op, e@)) && e@.len() <= t@.len(),
                None => augmented_parts(t@) is None,
            },
    {
        match Self::find_augmented_assign(t) {
            Some(pos) => {
                proof {
                    lemma_augmented_bounds(t@, 0, scan_start());
                }
                let n = t.len();
                let var = trim(&t[0..pos]);
                if !Self::plain_target(var) {
                    return None;
                }
                let c = t[pos];
                let op = if c == '+' {
                    BinOp::Add
                } else if c == '-' {
                    BinOp::Sub
                } else if c == '*' {
                    BinOp::Mul
                } else if c == '/' {
                    BinOp::Div
                } else {
                    BinOp::Add
                };
                let rest = &t[pos + 2..n];
                assert(rest@ =~= t@.skip(pos + 2));
                Some((var, op, trim(rest)))
            },
            None => None,
        }
    }
}

/// An assignment's `=` lies inside the text.
pub proof fn lemma_assign_bounds(s: Seq<char>, k: int, st: crate::scan::ScanState)
    requires
        0 <= k,
    ensures
        assign_from(s, k, st) matches Some(i) ==> k <= i < s.len(),
    decreases s.len() - k,
{
    if 0 <= k < s.len() {
        if !st.in_string && s[k] == '=' && st.depth == 0 {
            lemma_assign_bounds(s, k + 1, st);
        } else {
            lemma_assign_bounds(s, k + 1, scan_step(s, k, st, true));
        }
    }
}

/// An augmented assignment's operator and `=` lie inside the text.
pub proof fn lemma_augmented_bounds(s: Seq<char>, k: int, st: crate::scan::ScanState)
    requires
        0 <= k,
    ensures
        augmented_from(s, k, st) matches Some(i) ==> k <= i && i + 1 < s.len(),
    decreases s.len() - k,
{
    if 0 <= k && k + 1 < s.len() {
        lemma_augmented_bounds(s, k + 1, scan_step(s, k, st, true));
    }
}


/// A found occurrence lies inside the text.
pub proof fn lemma_occurrence_bounds(s: Seq<char>, p: Seq<char>, k: int)
    requires
        0 <= k,
    ensures
        occurrence_from(s, p, k) matches Some(i) ==> k <= i && i + p.len() <= s.len() && occurs_at(
            s,
            p,
            i,
        ),
    decreases s.len() + 1 - k,
{
    if k + p.len() <= s.len() && !occurs_at(s, p, k) {
        lemma_occurrence_bounds(s, p, k + 1);
    }
}

impl Parser {
    /// The statements of lines `start` to `end` of a block indented at `base`.
    #[verifier::spinoff_prover]
    pub fn parse_block(lines: &[Vec<char>], start: usize, end: usize, base: usize) -> (r: Option<
        Vec<Op>,
    >)
        requires
            start <= end <= lines@.len(),
            base + (end - start) < usize::MAX,
            lines_short(lines@),
        ensures
            opt_ops_view(r) == block_from(lines_view(lines@), start as int, end as int, base as int),
        decreases end - start, 2int,
    {
        let ghost lv = lines_view(lines@);
        let mut ops: Vec<Op> = Vec::new();
        let mut i: usize = start;
        proof {
            reveal(block_from);
            assert(ops_view(ops@) =~= Seq::<SOp>::empty());
            assert(Seq::<SOp>::empty() + block_from(lv, start as int, end as int, base as int)->0 =~= block_from(lv, start as int, end as int, base as int)->0);
        }
        while i < end
            invariant
                start <= i <= end <= lines@.len(),
                base + (end - start) < usize::MAX,
                lines_short(lines@),
                lv == lines_view(lines@),
                block_from(lv, start as int, end as int, base as int) == after_ops(
                    ops_view(ops@),
                    block_from(lv, i as int, end as int, base as int),
                ),
            decreases end - i,
        {
            reveal(block_from);
            assert(lv[i as int] == lines@[i as int]@);
            let line = lines[i].as_slice();
            let t = trim(line);
            if t.len() == 0 || t[0] == '#' {
                i = i + 1;
            } else if Self::indent_level(line) < base {
                assert(ops_view(ops@) + Seq::<SOp>::empty() =~= ops_view(ops@));
                return Some(ops);
            } else {
                match Self::parse_statement(lines, i, end, base) {
                    Some((op, next)) => {
                        let ghost prev = ops@;
                        ops.push(op);
                        proof {
                            lemma_ops_view_push(prev, op);
                            match block_from(lv, next as int, end as int, base as int) {
                                Some(rest) => {
                                    assert(ops_view(prev) + (seq![op@] + rest) =~= ops_view(ops@)
                                        + rest);
                                },
                                None => {},
                            }
                        }
                        i = next;
                    },
                    None => {
                        return None;
                    },
                }
            }
        }
        proof {
            reveal(block_from);
            assert(ops_view(ops@) + Seq::<SOp>::empty() =~= ops_view(ops@));
        }
        Some(ops)
    }

    /// The statement on line `i` (which holds one), and the line after it.
    #[verifier::spinoff_prover]
    #[verifier::rlimit(40)]
    fn parse_statement(lines: &[Vec<char>], i: usize, end: usize, base: usize) -> (r: Option<
        (Op, usize),
    >)
        requires
            i < end <= lines@.len(),
            base + (end - i) < usize::MAX,
            lines_short(lines@),
        ensures
            match r {
                Some((op, next)) => i < next <= end && statement_at(
                    lines_view(lines@),
                    i as int,
                    end as int,
                    base as int,
                ) == then_ops(Some(op@), block_from(lines_view(lines@), next as int, end as int, base as int)),
                None => statement_at(lines_view(lines@), i as int, end as int, base as int) is None,
            },
        decreases end - i, 1int,
    {
        reveal(statement_at);
        let ghost lv = lines_view(lines@);
        assert(lv[i as int] == lines@[i as int]@);
        let line = lines[i].as_slice();
        let t = trim(line);
        proof {
            lemma_trimmed_len(line@);
            lemma_suffix_char(t@, ':');
            lemma_suffix_char(t@, ')');
        }
        let n = t.len();
        let colon_end = ends_with_char(t, ':');
        let def_kw = ['d', 'e', 'f', ' '];
        let while_kw = ['w', 'h', 'i', 'l', 'e', ' '];
        let if_kw = ['i', 'f', ' '];
        let for_kw = ['f', 'o', 'r', ' '];
        let in_kw = [' ', 'i', 'n', ' '];
        let try_kw = ['t', 'r', 'y', ':'];
        let return_kw = ['r', 'e', 't', 'u', 'r', 'n'];
        let break_kw = ['b', 'r', 'e', 'a', 'k'];
        let continue_kw = ['c', 'o', 'n', 't', 'i', 'n', 'u', 'e'];
        let print_kw = ['p', 'r', 'i', 'n', 't', '('];
        proof {
            assert(def_kw@ =~= kw_def());
            assert(while_kw@ =~= kw_while());
            assert(if_kw@ =~= kw_if());
            assert(for_kw@ =~= kw_for());
            assert(in_kw@ =~= kw_in());
            assert(try_kw@ =~= kw_try());
            assert(return_kw@ =~= kw_return());
            assert(break_kw@ =~= kw_break());
            assert(continue_kw@ =~= kw_continue());
            assert(print_kw@ =~= kw_print());
        }
        if starts_with(t, &def_kw) && colon_end {
            assert(t@[3] == t@.subrange(0, 4)[3]);
            let be = Self::find_block_end(lines, i + 1, end, base + 1);
            return match Self::parse_block(lines, i + 1, be, base + 1) {
                Some(body) => {
                    let (name, params) = Self::def_parts(t);
                    Some((Op::Def(name, params, body), be))
                },
                None => None,
            };
        }
        if starts_with(t, &while_kw) && colon_end {
            assert(t@[5] == t@.subrange(0, 6)[5]);
            return match Self::parse_expr(trim(&t[6..n - 1])) {
                Some(c) => {
                    let be = Self::find_block_end(lines, i + 1, end, base + 1);
                    match Self::parse_block(lines, i + 1, be, base + 1) {
                        Some(body) => Some((Op::While(c, body), be)),
                        None => None,
                    }
                },
                None => None,
            };
        }
        if starts_with(t, &if_kw) && colon_end {
            assert(t@[2] == t@.subrange(0, 3)[2]);
            return match Self::parse_expr(trim(&t[3..n - 1])) {
                Some(c) => match Self::parse_if_block(lines, i + 1, end, base) {
                    Some((a, b, next)) => Some((Op::If(c, a, b), next)),
                    None => None,
                },
                None => None,
            };
        }
        if starts_with(t, &for_kw) && colon_end {
            assert(t@[3] == t@.subrange(0, 4)[3]);
            let f = trim(&t[4..n - 1]);
            proof {
                lemma_trimmed_len(t@.subrange(4, n - 1));
            }
            match find_occurrence(f, &in_kw) {
                Some(k) => {
                    proof {
                        lemma_occurrence_bounds(f@, kw_in(), 0);
                        assert(f@.take(k as int) =~= f@.subrange(0, k as int));
                        assert(f@.skip(k + 4) =~= f@.subrange(k + 4, f@.len() as int));
                    }
                    let var = string_of(trim(&f[0..k]));
                    return match Self::parse_expr(trim(&f[k + 4..f.len()])) {
                        Some(e) => {
                            let be = Self::find_block_end(lines, i + 1, end, base + 1);
                            match Self::parse_block(lines, i + 1, be, base + 1) {
                                Some(body) => Some((Op::For(var, e, body), be)),
                                None => None,
                            }
                        },
                        None => None,
                    };
                },
                None => {},
            }
        }
        if chars_equal(t, &try_kw) {
            let (be, except_line) = Self::try_block_end(lines, i + 1, end, base);
            return match except_line {
                Some(e) => {
                    let ebe = Self::find_block_end(lines, e + 1, end, base + 1);
                    match Self::parse_block(lines, i + 1, be, base + 1) {
                        Some(a) => match Self::parse_block(lines, e + 1, ebe, base + 1) {
                            Some(b) => Some((Op::TryExcept(a, b), ebe)),
                            None => None,
                        },
                        None => None,
                    }
                },
                None => match Self::parse_block(lines, i + 1, be, base + 1) {
                    Some(a) => {
                        let none: Vec<Op> = Vec::new();
                        assert(ops_view(none@) =~= Seq::<SOp>::empty());
                        Some((Op::TryExcept(a, none), be))
                    },
                    None => None,
                },
            };
        }
        if starts_with(t, &return_kw) && (n == 6 || t[6] == ' ') {
            if n > 6 {
                assert(t@.skip(7) =~= t@.subrange(7, n as int));
                return match Self::parse_expr(&t[7..n]) {
                    Some(e) => Some((Op::Return(Some(e)), i + 1)),
                    None => None,
                };
            }
            return Some((Op::Return(None), i + 1));
        }
        if chars_equal(t, &break_kw) {
            return Some((Op::Break, i + 1));
        }
        if chars_equal(t, &continue_kw) {
            return Some((Op::Continue, i + 1));
        }
        if starts_with(t, &print_kw) && ends_with_char(t, ')') {
            assert(t@[5] == t@.subrange(0, 6)[5]);
            return match Self::parse_expr(&t[6..n - 1]) {
                Some(e) => Some((Op::Print(e), i + 1)),
                None => None,
            };
        }
        match Self::split_assignment(t) {
            Some((var, text)) => {
                proof {
                    lemma_trimmed_len(t@.skip(0));
                }
                return match Self::parse_expr(text) {
                    Some(e) => Some((Op::Assign(string_of(var), e), i + 1)),
                    None => None,
                };
            },
            None => {},
        }
        match Self::split_augmented(t) {
            Some((var, op, text)) => {
                return match Self::parse_expr(text) {
                    Some(e) => {
                        let target = string_of(var);
                        let read = Expr::Var(string_of(var));
                        assert(read@ == crate::ast::SExpr::Var(var@));
                        let ghost ev = e@;
                        let rhs = Expr::BinOp(Box::new(read), op, Box::new(e));
                        assert(rhs@ == crate::ast::SExpr::BinOp(
                            Box::new(crate::ast::SExpr::Var(var@)),
                            op,
                            Box::new(ev),
                        ));
                        let stmt = Op::Assign(target, rhs);
                        assert(stmt@ == SOp::Assign(
                            var@,
                            crate::ast::SExpr::BinOp(
                                Box::new(crate::ast::SExpr::Var(var@)),
                                op,
                                Box::new(ev),
                            ),
                        ));
                        Some((stmt, i + 1))
                    },
                    None => None,
                };
            },
            None => {},
        }
        match Self::parse_expr(t) {
            Some(e) => Some((Op::ExprStmt(e), i + 1)),
            None => None,
        }
    }

    /// The body of an `if` whose first body line is `bs`, its `elif`/`else`
    /// part, and the line after them.
    #[verifier::spinoff_prover]
    pub fn parse_if_block(lines: &[Vec<char>], bs: usize, end: usize, base: usize) -> (r: Option<
        (Vec<Op>, Vec<Op>, usize),
    >)
        requires
            bs <= end <= lines@.len(),
            base + 1 + (end - bs) < usize::MAX,
            lines_short(lines@),
        ensures
            match r {
                Some((a, b, next)) => bs <= next <= end && if_block_of(
                    lines_view(lines@),
                    bs as int,
                    end as int,
                    base as int,
                ) == Some((ops_view(a@), ops_view(b@), next as int)),
                None => if_block_of(lines_view(lines@), bs as int, end as int, base as int) is None,
            },
        decreases end - bs, 3int,
    {
        reveal(if_block_of);
        let ghost lv = lines_view(lines@);
        let be = Self::find_block_end(lines, bs, end, base + 1);
        let body = match Self::parse_block(lines, bs, be, base + 1) {
            Some(b) => b,
            None => {
                return None;
            },
        };
        let elif_kw = ['e', 'l', 'i', 'f', ' '];
        let else_kw = ['e', 'l', 's', 'e'];
        proof {
            assert(elif_kw@ =~= kw_elif());
            assert(else_kw@ =~= kw_else());
        }
        if be < end && Self::indent_level(lines[be].as_slice()) == base {
            assert(lv[be as int] == lines@[be as int]@);
            let l = trim(lines[be].as_slice());
            proof {
                lemma_suffix_char(l@, ':');
                lemma_trimmed_len(lines@[be as int]@);
            }
            if starts_with(l, &elif_kw) && ends_with_char(l, ':') {
                assert(l@[4] == l@.subrange(0, 5)[4]);
                let c = match Self::parse_expr(trim(&l[5..l.len() - 1])) {
                    Some(c) => c,
                    None => {
                        return None;
                    },
                };
                return match Self::parse_if_block(lines, be + 1, end, base) {
                    Some((eb, ee, en)) => {
                        let mut else_ops: Vec<Op> = Vec::new();
                        let op = Op::If(c, eb, ee);
                        else_ops.push(op);
                        proof {
                            lemma_ops_view_push(Seq::<Op>::empty(), op);
                            assert(Seq::<Op>::empty().push(op) =~= else_ops@);
                            assert(ops_view(Seq::<Op>::empty()) =~= Seq::<SOp>::empty());
                            assert(ops_view(else_ops@) =~= seq![op@]);
                        }
                        Some((body, else_ops, en))
                    },
                    None => None,
                };
            } else if starts_with(l, &else_kw) && ends_with_char(l, ':') {
                let ebe = Self::find_block_end(lines, be + 1, end, base + 1);
                return match Self::parse_block(lines, be + 1, ebe, base + 1) {
                    Some(eb) => Some((body, eb, ebe)),
                    None => None,
                };
            }
        }
        let none: Vec<Op> = Vec::new();
        assert(ops_view(none@) =~= Seq::<SOp>::empty());
        Some((body, none, be))
    }

    /// The statements of a script, or `None` where its text cannot be parsed
    /// (an f-string made of its prefix and opening quote alone).
    pub fn try_parse(source: &str) -> (r: Option<Vec<Op>>)
        requires
            source@.len() < i32::MAX,
        ensures
            opt_ops_view(r) == program_of(source@),
    {
        let chars = chars_of(source);
        let lines = split_lines(chars.as_slice());
        proof {
            lemma_lines_of_bounds(source@);
            assert forall|k: int| 0 <= k < lines@.len() implies (#[trigger] lines@[k])@.len() < i32::MAX by {
                assert(lines_view(lines@)[k] == lines@[k]@);
            }
        }
        Self::parse_block(lines.as_slice(), 0, lines.len(), 0)
    }

    /// The statements of a script.
    pub fn parse(source: &str) -> (r: Vec<Op>)
        requires
            source@.len() < i32::MAX,
            program_of(source@) is Some,
        ensures
            program_of(source@) == Some(ops_view(r@)),
    {
        match Self::try_parse(source) {
            Some(ops) => ops,
            None => Vec::new(),
        }
    }
}

} // verus!
