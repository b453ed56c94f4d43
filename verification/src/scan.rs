//! Scanning source text while respecting string literals and brackets.
//!
//! Positions are character positions in the scanned text (a slice of `char`s).
//! In the UTF-8 `str` that the characters come from, position `i` stands at byte
//! offset `utf8_len(s.take(i))` (`text::byte_offset` computes it); over ASCII
//! text the two are equal (`text::law_ascii_positions_are_byte_offsets`). Every
//! needle the parser searches for is ASCII, so a needle's length is the same in
//! characters and in bytes.
use vstd::prelude::*;
use crate::text::{
    is_alphabetic,
    is_alphanumeric,
    occurs_at,
    trim,
    trimmed,
    unicode_alphabetic,
    unicode_alphanumeric,
};

verus! {

/// Where a scan stands: bracket depth, and whether it is inside a string literal
/// opened by `quote`.
pub struct ScanState {
    pub depth: int,
    pub in_string: bool,
    pub quote: char,
}

/// The state at the start of a scan.
pub open spec fn scan_start() -> ScanState {
    ScanState { depth: 0, in_string: false, quote: ' ' }
}

pub open spec fn is_quote(c: char) -> bool {
    c == '"' || c == '\''
}

pub open spec fn is_open_bracket(c: char) -> bool {
    c == '(' || c == '[' || c == '{'
}

pub open spec fn is_close_bracket(c: char) -> bool {
    c == ')' || c == ']' || c == '}'
}

/// Whether `c` neither opens or closes a string nor a bracket.
pub open spec fn is_plain(c: char) -> bool {
    !is_quote(c) && !is_open_bracket(c) && !is_close_bracket(c)
}

/// The state after the character at `i`. Inside a string only its quote
/// character ends it; with `escapes`, not when a backslash precedes it.
pub open spec fn scan_step(s: Seq<char>, i: int, st: ScanState, escapes: bool) -> ScanState {
    let c = s[i];
    if st.in_string {
        if c == st.quote && (!escapes || i == 0 || s[i - 1] != '\\') {
            ScanState { in_string: false, ..st }
        } else {
            st
        }
    } else if is_quote(c) {
        ScanState { in_string: true, quote: c, ..st }
    } else if is_open_bracket(c) {
        ScanState { depth: st.depth + 1, ..st }
    } else if is_close_bracket(c) {
        ScanState { depth: st.depth - 1, ..st }
    } else {
        st
    }
}

/// Whether the scan at state `st` is outside strings and brackets at a plain character.
pub open spec fn at_top(s: Seq<char>, i: int, st: ScanState) -> bool {
    !st.in_string && is_plain(s[i]) && st.depth == 0
}

/// The executable scan state.
pub struct Scanner {
    pub depth: i32,
    pub in_string: bool,
    pub quote: char,
}

impl Scanner {
    pub open spec fn state(self) -> ScanState {
        ScanState { depth: self.depth as int, in_string: self.in_string, quote: self.quote }
    }

    pub fn new() -> (r: Scanner)
        ensures
            r.state() == scan_start(),
    {
        Scanner { depth: 0, in_string: false, quote: ' ' }
    }

    /// Advance over the character at `i`.
    pub fn step(&mut self, s: &[char], i: usize, escapes: bool)
        requires
            i < s@.len(),
            -i32::MAX < old(self).depth < i32::MAX,
        ensures
            final(self).state() == scan_step(s@, i as int, old(self).state(), escapes),
            old(self).depth - 1 <= final(self).depth <= old(self).depth + 1,
    {
        let c = s[i];
        if self.in_string {
            if c == self.quote && (!escapes || i == 0 || s[i - 1] != '\\') {
                self.in_string = false;
            }
        } else if c == '"' || c == '\'' {
            self.in_string = true;
            self.quote = c;
        } else if c == '(' || c == '[' || c == '{' {
            self.depth = self.depth + 1;
        } else if c == ')' || c == ']' || c == '}' {
            self.depth = self.depth - 1;
        }
    }
}

// ------------------------------------------------------------------
// Operators at depth zero
// ------------------------------------------------------------------

/// The texts of a list of needles.
pub open spec fn needle_texts(needles: Seq<&[char]>) -> Seq<Seq<char>> {
    needles.map_values(|n: &[char]| n@)
}

/// Whether `needle` occurs at `i`. A needle of letters only matches a whole word:
/// no letter, digit or underscore may stand right before or after it.
pub open spec fn needle_matches(s: Seq<char>, i: int, needle: Seq<char>) -> bool {
    if forall|j: int| 0 <= j < needle.len() ==> unicode_alphabetic(#[trigger] needle[j]) {
        let end = i + needle.len();
        &&& end <= s.len()
        &&& (i == 0 || (!unicode_alphanumeric(s[i - 1]) && s[i - 1] != '_'))
        &&& (end >= s.len() || (!unicode_alphanumeric(s[end]) && s[end] != '_'))
        &&& s.subrange(i, end) == needle
    } else {
        occurs_at(s, needle, i)
    }
}

/// The length of the first of `needles` that occurs at `i`.
pub open spec fn needle_hit(s: Seq<char>, i: int, needles: Seq<Seq<char>>) -> Option<int>
    decreases needles.len(),
{
    if needles.len() == 0 {
        None
    } else if needle_matches(s, i, needles[0]) {
        Some(needles[0].len() as int)
    } else {
        needle_hit(s, i, needles.drop_first())
    }
}

/// The position visited `k`-th: from the left, or from the right.
pub open spec fn visit_order(n: int, from_right: bool, k: int) -> int {
    if from_right {
        n - 1 - k
    } else {
        k
    }
}

/// The first hit of the scan from its `k`-th visited position on, at state `st`.
pub open spec fn depth0_hit_from(
    s: Seq<char>,
    needles: Seq<Seq<char>>,
    from_right: bool,
    k: int,
    st: ScanState,
) -> Option<(int, int)>
    decreases s.len() - k,
{
    if k < 0 || k >= s.len() {
        None
    } else {
        let i = visit_order(s.len() as int, from_right, k);
        if at_top(s, i, st) && needle_hit(s, i, needles) is Some {
            Some((i, needle_hit(s, i, needles)->0))
        } else {
            depth0_hit_from(s, needles, from_right, k + 1, scan_step(s, i, st, true))
        }
    }
}

/// The first position, in the order visited, where one of `needles` occurs outside
/// string literals and brackets, with the length of the needle found there.
#[verifier::opaque]
pub open spec fn depth0_hit(s: Seq<char>, needles: Seq<Seq<char>>, from_right: bool) -> Option<
    (int, int),
> {
    depth0_hit_from(s, needles, from_right, 0, scan_start())
}

/// An optional pair of positions, as integers.
pub open spec fn pair_view(r: Option<(usize, usize)>) -> Option<(int, int)> {
    match r {
        Some((a, b)) => Some((a as int, b as int)),
        None => None,
    }
}

/// An optional position, as an integer.
pub open spec fn pos_view(r: Option<usize>) -> Option<int> {
    match r {
        Some(a) => Some(a as int),
        None => None,
    }
}

/// Whether every character of `nd` is alphabetic.
fn all_alphabetic(nd: &[char]) -> (r: bool)
    ensures
        r == forall|j: int| 0 <= j < nd@.len() ==> unicode_alphabetic(#[trigger] nd@[j]),
{
    let mut j: usize = 0;
    while j < nd.len()
        invariant
            j <= nd@.len(),
            forall|q: int| 0 <= q < j ==> unicode_alphabetic(#[trigger] nd@[q]),
        decreases nd@.len() - j,
    {
        if !is_alphabetic(nd[j]) {
            return false;
        }
        j = j + 1;
    }
    true
}

/// Whether `needle` occurs at `i`, a word needle as a whole word.
fn needle_at(s: &[char], i: usize, needle: &[char]) -> (r: bool)
    requires
        i < s@.len(),
    ensures
        r == needle_matches(s@, i as int, needle@),
{
    if all_alphabetic(needle) {
        if needle.len() > s.len() - i {
            return false;
        }
        let end = i + needle.len();
        let before_ok = i == 0 || !is_alphanumeric(s[i - 1]) && s[i - 1] != '_';
        let after_ok = end >= s.len() || !is_alphanumeric(s[end]) && s[end] != '_';
        if before_ok && after_ok {
            crate::text::matches_at(s, needle, i)
        } else {
            false
        }
    } else {
        crate::text::matches_at(s, needle, i)
    }
}

/// The length of the first of `needles` that occurs at `i`.
fn first_needle_at(s: &[char], i: usize, needles: &[&[char]]) -> (r: Option<usize>)
    requires
        i < s@.len(),
    ensures
        pos_view(r) == needle_hit(s@, i as int, needle_texts(needles@)),
{
    let mut j: usize = 0;
    assert(needle_texts(needles@).skip(0) =~= needle_texts(needles@));
    while j < needles.len()
        invariant
            i < s@.len(),
            j <= needles@.len(),
            needle_hit(s@, i as int, needle_texts(needles@)) == needle_hit(
                s@,
                i as int,
                needle_texts(needles@).skip(j as int),
            ),
        decreases needles@.len() - j,
    {
        let ghost rest = needle_texts(needles@).skip(j as int);
        assert(rest[0] == needles@[j as int]@);
        assert(rest.drop_first() =~= needle_texts(needles@).skip(j + 1));
        if needle_at(s, i, needles[j]) {
            return Some(needles[j].len());
        }
        j = j + 1;
    }
    assert(needle_texts(needles@).skip(j as int).len() == 0);
    None
}

/// Find where one of `needles` occurs in `s` outside string literals and brackets,
/// searching from the left, or from the right when `from_right`. Gives the
/// character position and the length of the needle found there (see the module
/// documentation for the byte offset of a position).
pub fn find_at_depth0(s: &[char], needles: &[&[char]], from_right: bool) -> (r: Option<
    (usize, usize),
>)
    requires
        s@.len() < i32::MAX,
    ensures
        pair_view(r) == depth0_hit(s@, needle_texts(needles@), from_right),
{
    reveal(depth0_hit);
    let n = s.len();
    let mut st = Scanner::new();
    let mut k: usize = 0;
    while k < n
        invariant
            n == s@.len() < i32::MAX,
            k <= n,
            -(k as int) <= st.depth <= k,
            depth0_hit(s@, needle_texts(needles@), from_right) == depth0_hit_from(
                s@,
                needle_texts(needles@),
                from_right,
                k as int,
                st.state(),
            ),
        decreases n - k,
    {
        let i = if from_right {
            n - 1 - k
        } else {
            k
        };
        let c = s[i];
        if !st.in_string && !(c == '"' || c == '\'' || c == '(' || c == '[' || c == '{' || c == ')'
            || c == ']' || c == '}') && st.depth == 0 {
            match first_needle_at(s, i, needles) {
                Some(len) => {
                    return Some((i, len));
                },
                None => {},
            }
        }
        st.step(s, i, true);
        k = k + 1;
    }
    None
}

// ------------------------------------------------------------------
// Splitting arguments
// ------------------------------------------------------------------

/// The trimmed pieces of `s` between commas that stand outside strings and
/// brackets, from position `k` on, after `acc`; the piece under way began at `start`.
/// A last piece is kept only when it is not empty before trimming.
pub open spec fn split_from(
    s: Seq<char>,
    k: int,
    start: int,
    st: ScanState,
    acc: Seq<Seq<char>>,
) -> Seq<Seq<char>>
    decreases s.len() - k,
{
    if k >= s.len() {
        if start < s.len() {
            acc.push(trimmed(s.subrange(start, s.len() as int)))
        } else {
            acc
        }
    } else if !st.in_string && s[k] == ',' && st.depth == 0 {
        split_from(s, k + 1, k + 1, st, acc.push(trimmed(s.subrange(start, k))))
    } else {
        split_from(s, k + 1, start, scan_step(s, k, st, true), acc)
    }
}

/// The arguments of a call: `s` split at top-level commas, each piece trimmed.
#[verifier::opaque]
pub open spec fn split_args_spec(s: Seq<char>) -> Seq<Seq<char>> {
    split_from(s, 0, 0, scan_start(), Seq::empty())
}

/// The texts of a list of slices.
pub open spec fn slice_texts(v: Seq<&[char]>) -> Seq<Seq<char>> {
    v.map_values(|x: &[char]| x@)
}

/// Split the arguments of a call at the commas outside strings and brackets.
pub fn split_args<'a>(s: &'a [char]) -> (r: Vec<&'a [char]>)
    requires
        s@.len() < i32::MAX,
    ensures
        slice_texts(r@) == split_args_spec(s@),
{
    reveal(split_args_spec);
    let n = s.len();
    let mut args: Vec<&'a [char]> = Vec::new();
    let mut st = Scanner::new();
    let mut start: usize = 0;
    let mut k: usize = 0;
    assert(slice_texts(args@) =~= Seq::<Seq<char>>::empty());
    while k < n
        invariant
            n == s@.len() < i32::MAX,
            start <= k <= n,
            -(k as int) <= st.depth <= k,
            split_args_spec(s@) == split_from(s@, k as int, start as int, st.state(), slice_texts(args@)),
        decreases n - k,
    {
        if !st.in_string && s[k] == ',' && st.depth == 0 {
            let piece = trim(&s[start..k]);
            let ghost prev = args@;
            args.push(piece);
            assert(slice_texts(args@) =~= slice_texts(prev).push(
                trimmed(s@.subrange(start as int, k as int)),
            ));
            start = k + 1;
        } else {
            st.step(s, k, true);
        }
        k = k + 1;
    }
    if start < n {
        let piece = trim(&s[start..n]);
        let ghost prev = args@;
        args.push(piece);
        assert(slice_texts(args@) =~= slice_texts(prev).push(
            trimmed(s@.subrange(start as int, n as int)),
        ));
    }
    args
}

// ------------------------------------------------------------------
// Matching brackets
// ------------------------------------------------------------------

/// Scanning from the right, from the `k`-th character from the end on: the
/// position of the `open` that brings the count of `close` minus `open` back to zero.
/// Inside a string only its quote character ends it.
pub open spec fn opener_from(
    s: Seq<char>,
    close: char,
    open: char,
    k: int,
    depth: int,
    in_string: bool,
    quote: char,
) -> Option<int>
    decreases s.len() - k,
{
    if k < 0 || k >= s.len() {
        None
    } else {
        let i = s.len() - 1 - k;
        let c = s[i];
        if in_string {
            opener_from(s, close, open, k + 1, depth, c != quote, quote)
        } else if is_quote(c) {
            opener_from(s, close, open, k + 1, depth, true, c)
        } else if c == close {
            opener_from(s, close, open, k + 1, depth + 1, false, quote)
        } else if c == open {
            if depth - 1 == 0 {
                Some(i)
            } else {
                opener_from(s, close, open, k + 1, depth - 1, false, quote)
            }
        } else {
            opener_from(s, close, open, k + 1, depth, false, quote)
        }
    }
}

/// The position of the `open` that matches the `close` ending `s`.
#[verifier::opaque]
pub open spec fn matching_opener(s: Seq<char>, close: char, open: char) -> Option<int> {
    if s.len() > 0 && s.last() == close {
        opener_from(s, close, open, 0, 0, false, ' ')
    } else {
        None
    }
}

fn find_opener(s: &[char], close: char, open: char) -> (r: Option<usize>)
    requires
        s@.len() < i32::MAX,
        close != open,
        !is_quote(close),
        !is_quote(open),
    ensures
        pos_view(r) == matching_opener(s@, close, open),
{
    reveal(matching_opener);
    let n = s.len();
    if n == 0 || s[n - 1] != close {
        return None;
    }
    let mut depth: i32 = 0;
    let mut in_string = false;
    let mut quote = ' ';
    let mut k: usize = 0;
    while k < n
        invariant
            n == s@.len() < i32::MAX,
            k <= n,
            -(k as int) <= depth <= k,
            matching_opener(s@, close, open) == opener_from(
                s@,
                close,
                open,
                k as int,
                depth as int,
                in_string,
                quote,
            ),
        decreases n - k,
    {
        let i = n - 1 - k;
        let c = s[i];
        if in_string {
            if c == quote {
                in_string = false;
            }
        } else if c == '"' || c == '\'' {
            in_string = true;
            quote = c;
        } else if c == close {
            depth = depth + 1;
        } else if c == open {
            depth = depth - 1;
            if depth == 0 {
                return Some(i);
            }
        }
        k = k + 1;
    }
    None
}

/// Find the `[` that matches the `]` at the end of `s`.
pub fn find_matching_bracket(s: &[char]) -> (r: Option<usize>)
    requires
        s@.len() < i32::MAX,
    ensures
        pos_view(r) == matching_opener(s@, ']', '['),
{
    find_opener(s, ']', '[')
}

/// Find the `(` that matches the `)` at the end of `s`.
pub fn find_matching_paren(s: &[char]) -> (r: Option<usize>)
    requires
        s@.len() < i32::MAX,
    ensures
        pos_view(r) == matching_opener(s@, ')', '('),
{
    find_opener(s, ')', '(')
}

// ------------------------------------------------------------------
// Colons
// ------------------------------------------------------------------

/// The first colon outside strings and brackets from position `k` on.
/// Inside a string only its quote character ends it.
#[verifier::opaque]
pub open spec fn colon_from(s: Seq<char>, k: int, st: ScanState) -> Option<int>
    decreases s.len() - k,
{
    if k < 0 || k >= s.len() {
        None
    } else if !st.in_string && s[k] == ':' && st.depth == 0 {
        Some(k)
    } else {
        colon_from(s, k + 1, scan_step(s, k, st, false))
    }
}

/// Find the first colon of `s` outside strings and brackets.
pub fn find_colon(s: &[char]) -> (r: Option<usize>)
    requires
        s@.len() < i32::MAX,
    ensures
        pos_view(r) == colon_from(s@, 0, scan_start()),
{
    reveal(colon_from);
    let n = s.len();
    let mut st = Scanner::new();
    let mut k: usize = 0;
    while k < n
        invariant
            n == s@.len() < i32::MAX,
            k <= n,
            -(k as int) <= st.depth <= k,
            colon_from(s@, 0, scan_start()) == colon_from(s@, k as int, st.state()),
        decreases n - k,
    {
        reveal(colon_from);
        if !st.in_string && s[k] == ':' && st.depth == 0 {
            return Some(k);
        }
        st.step(s, k, false);
        k = k + 1;
    }
    None
}


pub proof fn lemma_needle_hit_bounds(s: Seq<char>, i: int, needles: Seq<Seq<char>>)
    requires
        0 <= i,
    ensures
        needle_hit(s, i, needles) matches Some(l) ==> i + l <= s.len() && exists|j: int|
            0 <= j < needles.len() && l == needles[j].len(),
    decreases needles.len(),
{
    if needles.len() > 0 && !needle_matches(s, i, needles[0]) {
        lemma_needle_hit_bounds(s, i, needles.drop_first());
        if needle_hit(s, i, needles) is Some {
            let j = choose|j: int| 0 <= j < needles.drop_first().len() && needle_hit(s, i, needles)->0 == needles.drop_first()[j].len();
            assert(needles[j + 1] == needles.drop_first()[j]);
        }
    } else if needles.len() > 0 {
        assert(needles[0].len() == needles[0].len());
    }
}

pub proof fn lemma_depth0_hit_from_bounds(
    s: Seq<char>,
    needles: Seq<Seq<char>>,
    from_right: bool,
    k: int,
    st: ScanState,
)
    ensures
        depth0_hit_from(s, needles, from_right, k, st) matches Some((i, l)) ==> 0 <= i < s.len()
            && i + l <= s.len() && exists|j: int| 0 <= j < needles.len() && l == needles[j].len(),
    decreases s.len() - k,
{
    if 0 <= k < s.len() {
        let i = visit_order(s.len() as int, from_right, k);
        lemma_needle_hit_bounds(s, i, needles);
        if !(at_top(s, i, st) && needle_hit(s, i, needles) is Some) {
            lemma_depth0_hit_from_bounds(s, needles, from_right, k + 1, scan_step(s, i, st, true));
        }
    }
}

/// A hit of the depth-zero scan lies inside `s`, with the length of one of the needles.
pub proof fn lemma_depth0_hit_bounds(s: Seq<char>, needles: Seq<Seq<char>>, from_right: bool)
    ensures
        depth0_hit(s, needles, from_right) matches Some((i, l)) ==> 0 <= i < s.len() && i + l
            <= s.len() && exists|j: int| 0 <= j < needles.len() && l == needles[j].len(),
        (forall|j: int| 0 <= j < needles.len() ==> needles[j].len() > 0) ==> (depth0_hit(
            s,
            needles,
            from_right,
        ) matches Some((i, l)) ==> l > 0),
{
    reveal(depth0_hit);
    lemma_depth0_hit_from_bounds(s, needles, from_right, 0, scan_start());
}

pub proof fn lemma_opener_from_bounds(
    s: Seq<char>,
    close: char,
    open: char,
    k: int,
    depth: int,
    in_string: bool,
    quote: char,
)
    requires
        k >= 1 || (k == 0 && depth == 0 && !in_string && s.len() > 0 && s.last() == close),
        close != open,
        !is_quote(close),
    ensures
        opener_from(s, close, open, k, depth, in_string, quote) matches Some(i) ==> 0 <= i < s.len()
            - 1,
    decreases s.len() - k,
{
    if 0 <= k < s.len() {
        let i = s.len() - 1 - k;
        let c = s[i];
        if in_string {
            lemma_opener_from_bounds(s, close, open, k + 1, depth, c != quote, quote);
        } else if is_quote(c) {
            lemma_opener_from_bounds(s, close, open, k + 1, depth, true, c);
        } else if c == close {
            lemma_opener_from_bounds(s, close, open, k + 1, depth + 1, false, quote);
        } else if c == open {
            if depth - 1 != 0 {
                lemma_opener_from_bounds(s, close, open, k + 1, depth - 1, false, quote);
            }
        } else {
            lemma_opener_from_bounds(s, close, open, k + 1, depth, false, quote);
        }
    }
}

/// The matching opener lies before the closing character that ends `s`.
pub proof fn lemma_matching_opener_bounds(s: Seq<char>, close: char, open: char)
    requires
        close != open,
        !is_quote(close),
    ensures
        matching_opener(s, close, open) matches Some(i) ==> 0 <= i < s.len() - 1,
{
    reveal(matching_opener);
    if s.len() > 0 && s.last() == close {
        lemma_opener_from_bounds(s, close, open, 0, 0, false, ' ');
    }
}

/// A colon found lies inside `s`.
pub proof fn lemma_colon_bounds(s: Seq<char>, k: int, st: ScanState)
    requires
        0 <= k,
    ensures
        colon_from(s, k, st) matches Some(i) ==> k <= i < s.len() && s[i] == ':',
    decreases s.len() - k,
{
    reveal(colon_from);
    if k < s.len() && !(!st.in_string && s[k] == ':' && st.depth == 0) {
        lemma_colon_bounds(s, k + 1, scan_step(s, k, st, false));
    }
}

/// Every argument piece is no longer than the text it was split from.
pub proof fn lemma_split_from_bounds(s: Seq<char>, k: int, start: int, st: ScanState, acc: Seq<Seq<char>>)
    requires
        0 <= start <= k,
        k <= s.len() || start >= s.len(),
        forall|j: int| 0 <= j < acc.len() ==> #[trigger] acc[j].len() <= s.len(),
    ensures
        forall|j: int| 0 <= j < split_from(s, k, start, st, acc).len() ==> #[trigger] split_from(s, k, start, st, acc)[j].len() <= s.len(),
    decreases s.len() - k,
{
    if k >= s.len() {
        if start < s.len() {
            crate::text::lemma_trimmed_len(s.subrange(start, s.len() as int));
            let r = acc.push(trimmed(s.subrange(start, s.len() as int)));
            assert(split_from(s, k, start, st, acc) == r);
            assert forall|j: int| 0 <= j < r.len() implies #[trigger] r[j].len() <= s.len() by {
                if j < acc.len() {
                    assert(r[j] == acc[j]);
                }
            }
        }
    } else if !st.in_string && s[k] == ',' && st.depth == 0 {
        crate::text::lemma_trimmed_len(s.subrange(start, k));
        let a2 = acc.push(trimmed(s.subrange(start, k)));
        assert forall|j: int| 0 <= j < a2.len() implies #[trigger] a2[j].len() <= s.len() by {
            if j < acc.len() {
                assert(a2[j] == acc[j]);
            }
        }
        lemma_split_from_bounds(s, k + 1, k + 1, st, a2);
        assert(split_from(s, k, start, st, acc) == split_from(s, k + 1, k + 1, st, a2));
    } else {
        lemma_split_from_bounds(s, k + 1, start, scan_step(s, k, st, true), acc);
        assert(split_from(s, k, start, st, acc) == split_from(s, k + 1, start, scan_step(s, k, st, true), acc));
    }
}

/// Every argument piece is no longer than the text it was split from.
pub proof fn lemma_split_args_bounds(s: Seq<char>)
    ensures
        forall|j: int| 0 <= j < split_args_spec(s).len() ==> #[trigger] split_args_spec(s)[j].len() <= s.len(),
{
    reveal(split_args_spec);
    lemma_split_from_bounds(s, 0, 0, scan_start(), Seq::empty());
}


pub proof fn lemma_needle_hit_matches(s: Seq<char>, i: int, needles: Seq<Seq<char>>)
    ensures
        needle_hit(s, i, needles) matches Some(l) ==> exists|j: int|
            0 <= j < needles.len() && needle_matches(s, i, #[trigger] needles[j]) && l == needles[j].len(),
    decreases needles.len(),
{
    if needles.len() > 0 {
        if needle_matches(s, i, needles[0]) {
            assert(needle_matches(s, i, needles[0]));
        } else {
            lemma_needle_hit_matches(s, i, needles.drop_first());
            if needle_hit(s, i, needles) is Some {
                let j = choose|j: int|
                    0 <= j < needles.drop_first().len() && needle_matches(s, i, #[trigger] needles.drop_first()[j])
                        && needle_hit(s, i, needles)->0 == needles.drop_first()[j].len();
                assert(needles[j + 1] == needles.drop_first()[j]);
            }
        }
    }
}

pub proof fn lemma_depth0_hit_from_matches(
    s: Seq<char>,
    needles: Seq<Seq<char>>,
    from_right: bool,
    k: int,
    st: ScanState,
)
    ensures
        depth0_hit_from(s, needles, from_right, k, st) matches Some((i, l)) ==> exists|j: int|
            0 <= j < needles.len() && needle_matches(s, i, #[trigger] needles[j]) && l == needles[j].len(),
    decreases s.len() - k,
{
    if 0 <= k < s.len() {
        let i = visit_order(s.len() as int, from_right, k);
        lemma_needle_hit_matches(s, i, needles);
        if !(at_top(s, i, st) && needle_hit(s, i, needles) is Some) {
            lemma_depth0_hit_from_matches(s, needles, from_right, k + 1, scan_step(s, i, st, true));
        }
    }
}

/// What the depth-zero scan reports is there: one of the needles occurs at the
/// position found (a word needle as a whole word), and the length is that needle's.
pub proof fn law_depth0_hit_is_an_occurrence(s: Seq<char>, needles: Seq<Seq<char>>, from_right: bool)
    ensures
        depth0_hit(s, needles, from_right) matches Some((i, l)) ==> exists|j: int|
            0 <= j < needles.len() && needle_matches(s, i, #[trigger] needles[j]) && l == needles[j].len(),
{
    reveal(depth0_hit);
    lemma_depth0_hit_from_matches(s, needles, from_right, 0, scan_start());
}

pub proof fn lemma_opener_from_is_open(
    s: Seq<char>,
    close: char,
    open: char,
    k: int,
    depth: int,
    in_string: bool,
    quote: char,
)
    ensures
        opener_from(s, close, open, k, depth, in_string, quote) matches Some(i) ==> 0 <= i < s.len()
            && s[i] == open,
    decreases s.len() - k,
{
    if 0 <= k < s.len() {
        let i = s.len() - 1 - k;
        let c = s[i];
        if in_string {
            lemma_opener_from_is_open(s, close, open, k + 1, depth, c != quote, quote);
        } else if is_quote(c) {
            lemma_opener_from_is_open(s, close, open, k + 1, depth, true, c);
        } else if c == close {
            lemma_opener_from_is_open(s, close, open, k + 1, depth + 1, false, quote);
        } else if c == open {
            if depth - 1 != 0 {
                lemma_opener_from_is_open(s, close, open, k + 1, depth - 1, false, quote);
            }
        } else {
            lemma_opener_from_is_open(s, close, open, k + 1, depth, false, quote);
        }
    }
}

/// A matching bracket search finds an opening bracket, before the closing one that ends the text.
pub proof fn law_matching_opener_is_an_opener(s: Seq<char>, close: char, open: char)
    requires
        close != open,
        !is_quote(close),
    ensures
        matching_opener(s, close, open) matches Some(i) ==> 0 <= i < s.len() - 1 && s[i] == open
            && s.last() == close,
{
    reveal(matching_opener);
    lemma_matching_opener_bounds(s, close, open);
    if s.len() > 0 && s.last() == close {
        lemma_opener_from_is_open(s, close, open, 0, 0, false, ' ');
    }
}

pub proof fn lemma_split_from_trimmed(s: Seq<char>, k: int, start: int, st: ScanState, acc: Seq<Seq<char>>)
    requires
        forall|j: int| 0 <= j < acc.len() ==> trimmed(#[trigger] acc[j]) == acc[j],
    ensures
        forall|j: int| 0 <= j < split_from(s, k, start, st, acc).len() ==> trimmed(#[trigger] split_from(s, k, start, st, acc)[j]) == split_from(s, k, start, st, acc)[j],
    decreases s.len() - k,
{
    if k >= s.len() {
        if start < s.len() {
            let x = trimmed(s.subrange(start, s.len() as int));
            crate::text::law_trim_idempotent(s.subrange(start, s.len() as int));
            let r = acc.push(x);
            assert(split_from(s, k, start, st, acc) == r);
            assert forall|j: int| 0 <= j < r.len() implies trimmed(#[trigger] r[j]) == r[j] by {
                if j < acc.len() {
                    assert(r[j] == acc[j]);
                }
            }
        }
    } else if !st.in_string && s[k] == ',' && st.depth == 0 {
        let x = trimmed(s.subrange(start, k));
        crate::text::law_trim_idempotent(s.subrange(start, k));
        let a2 = acc.push(x);
        assert forall|j: int| 0 <= j < a2.len() implies trimmed(#[trigger] a2[j]) == a2[j] by {
            if j < acc.len() {
                assert(a2[j] == acc[j]);
            }
        }
        lemma_split_from_trimmed(s, k + 1, k + 1, st, a2);
        assert(split_from(s, k, start, st, acc) == split_from(s, k + 1, k + 1, st, a2));
    } else {
        lemma_split_from_trimmed(s, k + 1, start, scan_step(s, k, st, true), acc);
        assert(split_from(s, k, start, st, acc) == split_from(s, k + 1, start, scan_step(s, k, st, true), acc));
    }
}

/// Every argument that splitting gives is already trimmed.
pub proof fn law_split_args_pieces_are_trimmed(s: Seq<char>)
    ensures
        forall|j: int| 0 <= j < split_args_spec(s).len() ==> trimmed(#[trigger] split_args_spec(s)[j]) == split_args_spec(s)[j],
{
    reveal(split_args_spec);
    lemma_split_from_trimmed(s, 0, 0, scan_start(), Seq::empty());
}

} // verus!
