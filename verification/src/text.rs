//! Character-level text utilities: Unicode character classes, trimming,
//! prefix/suffix tests, line splitting and the number syntaxes that the
//! script language and the policy loader accept.
use vstd::prelude::*;

verus! {

// ------------------------------------------------------------------
// Unicode character classes (std's `char` methods)
// ------------------------------------------------------------------

/// Whether `c` has the Unicode `White_Space` property (Unicode's PropList.txt,
/// to which `char::is_whitespace` refers): tab, line feed, vertical tab, form
/// feed, carriage return, space, next line, no-break space, ogham space mark,
/// the spaces U+2000 to U+200A, line and paragraph separators, narrow no-break
/// space, medium mathematical space and ideographic space.
pub open spec fn unicode_whitespace(c: char) -> bool {
    let v = c as u32;
    ||| 0x09 <= v <= 0x0D
    ||| v == 0x20
    ||| v == 0x85
    ||| v == 0xA0
    ||| v == 0x1680
    ||| 0x2000 <= v <= 0x200A
    ||| v == 0x2028
    ||| v == 0x2029
    ||| v == 0x202F
    ||| v == 0x205F
    ||| v == 0x3000
}

/// Whether `c` is an ASCII letter.
pub open spec fn ascii_letter(c: char) -> bool {
    (0x41 <= (c as u32) <= 0x5A) || (0x61 <= (c as u32) <= 0x7A)
}

/// Whether `c` is an ASCII decimal digit.
pub open spec fn ascii_digit(c: char) -> bool {
    0x30 <= (c as u32) <= 0x39
}

/// Whether a character beyond ASCII has the Unicode `Alphabetic` property, as
/// `char::is_alphabetic` reports it.
pub uninterp spec fn non_ascii_alphabetic(c: char) -> bool;

/// Whether a character beyond ASCII is alphabetic or numeric in Unicode, as
/// `char::is_alphanumeric` reports it.
pub uninterp spec fn non_ascii_alphanumeric(c: char) -> bool;

/// `char::is_alphabetic`: among ASCII characters exactly the letters.
pub open spec fn unicode_alphabetic(c: char) -> bool {
    if (c as u32) < 0x80 {
        ascii_letter(c)
    } else {
        non_ascii_alphabetic(c)
    }
}

/// `char::is_alphanumeric`: among ASCII characters exactly the letters and digits.
pub open spec fn unicode_alphanumeric(c: char) -> bool {
    if (c as u32) < 0x80 {
        ascii_letter(c) || ascii_digit(c)
    } else {
        non_ascii_alphanumeric(c)
    }
}

/// Calls `char::is_whitespace`, which reports the `White_Space` property.
#[verifier::external_body]
pub(crate) fn is_whitespace(c: char) -> (r: bool)
    ensures
        r == unicode_whitespace(c),
{
    c.is_whitespace()
}

/// Calls `char::is_alphabetic`. On ASCII it is true of the letters alone; beyond
/// ASCII the contract names its result, which depends on `c` alone.
#[verifier::external_body]
pub(crate) fn is_alphabetic(c: char) -> (r: bool)
    ensures
        r == (if (c as u32) < 0x80 {
            ascii_letter(c)
        } else {
            non_ascii_alphabetic(c)
        }),
{
    c.is_alphabetic()
}

/// Calls `char::is_alphanumeric`. On ASCII it is true of the letters and digits
/// alone; beyond ASCII the contract names its result, which depends on `c` alone.
#[verifier::external_body]
pub(crate) fn is_alphanumeric(c: char) -> (r: bool)
    ensures
        r == (if (c as u32) < 0x80 {
            ascii_letter(c) || ascii_digit(c)
        } else {
            non_ascii_alphanumeric(c)
        }),
{
    c.is_alphanumeric()
}

// ------------------------------------------------------------------
// Conversions between `str` and character vectors
// ------------------------------------------------------------------

/// The characters of `s`, in order.
pub fn chars_of(s: &str) -> (v: Vec<char>)
    ensures
        v@ == s@,
{
    let mut v: Vec<char> = Vec::new();
    for c in it: s.chars()
        invariant
            v@ == it.seq().take(it.index() as int),
    {
        v.push(c);
    }
    v
}

/// A `String` holding exactly the characters `s`.
#[verifier::external_body]
pub(crate) fn string_of(s: &[char]) -> (r: String)
    ensures
        r@ == s@,
{
    s.iter().collect::<String>()
}

// ------------------------------------------------------------------
// UTF-8 lengths
// ------------------------------------------------------------------

/// The number of bytes that `c` takes in UTF-8.
pub open spec fn utf8_width(c: char) -> nat {
    if (c as u32) < 0x80 {
        1
    } else if (c as u32) < 0x800 {
        2
    } else if (c as u32) < 0x10000 {
        3
    } else {
        4
    }
}

/// The number of bytes that `s` takes in UTF-8.
pub open spec fn utf8_len(s: Seq<char>) -> nat
    decreases s.len(),
{
    if s.len() == 0 {
        0
    } else {
        utf8_len(s.drop_last()) + utf8_width(s.last())
    }
}

/// The number of bytes that `c` takes in UTF-8.
pub(crate) fn char_width(c: char) -> (r: usize)
    ensures
        r == utf8_width(c),
{
    let v = c as u32;
    if v < 0x80 {
        1
    } else if v < 0x800 {
        2
    } else if v < 0x10000 {
        3
    } else {
        4
    }
}

/// The byte offset in the UTF-8 text of `s` of the character at position `i`:
/// the bytes that the first `i` characters take. The scanners report character
/// positions; this is how such a position maps to an offset in the `str`.
pub fn byte_offset(s: &[char], i: usize) -> (r: usize)
    requires
        i <= s@.len(),
        4 * s@.len() < usize::MAX,
    ensures
        r == utf8_len(s@.take(i as int)),
        r <= 4 * i,
{
    let mut total: usize = 0;
    let mut j: usize = 0;
    assert(s@.take(0) =~= Seq::<char>::empty());
    while j < i
        invariant
            j <= i <= s@.len(),
            4 * s@.len() < usize::MAX,
            total == utf8_len(s@.take(j as int)),
            total <= 4 * j,
        decreases i - j,
    {
        assert(s@.take(j + 1).drop_last() =~= s@.take(j as int));
        assert(s@.take(j + 1).last() == s@[j as int]);
        total = total + char_width(s[j]);
        j = j + 1;
    }
    total
}

/// Over ASCII text, character positions and byte offsets are the same.
pub proof fn law_ascii_positions_are_byte_offsets(s: Seq<char>)
    requires
        forall|k: int| 0 <= k < s.len() ==> (#[trigger] s[k] as u32) < 0x80,
    ensures
        utf8_len(s) == s.len(),
    decreases s.len(),
{
    if s.len() > 0 {
        let t = s.drop_last();
        assert forall|k: int| 0 <= k < t.len() implies (#[trigger] t[k] as u32) < 0x80 by {
            assert(t[k] == s[k]);
        }
        law_ascii_positions_are_byte_offsets(t);
        assert((s[s.len() - 1] as u32) < 0x80);
    }
}

// ------------------------------------------------------------------
// Trimming
// ------------------------------------------------------------------

/// `s` without its leading white space.
pub open spec fn trim_start(s: Seq<char>) -> Seq<char>
    decreases s.len(),
{
    if s.len() > 0 && unicode_whitespace(s[0]) {
        trim_start(s.drop_first())
    } else {
        s
    }
}

/// `s` without its trailing white space.
pub open spec fn trim_end(s: Seq<char>) -> Seq<char>
    decreases s.len(),
{
    if s.len() > 0 && unicode_whitespace(s.last()) {
        trim_end(s.drop_last())
    } else {
        s
    }
}

/// `s` without leading and trailing white space (what `str::trim` gives).
#[verifier::opaque]
pub open spec fn trimmed(s: Seq<char>) -> Seq<char> {
    trim_end(trim_start(s))
}

pub proof fn lemma_trim_start_len(s: Seq<char>)
    ensures
        trim_start(s).len() <= s.len(),
        exists|a: int| 0 <= a <= s.len() && trim_start(s) == s.skip(a),
    decreases s.len(),
{
    if s.len() > 0 && unicode_whitespace(s[0]) {
        lemma_trim_start_len(s.drop_first());
        let a = choose|a: int| 0 <= a <= s.drop_first().len() && trim_start(s.drop_first()) == s.drop_first().skip(a);
        assert(s.drop_first().skip(a) =~= s.skip(a + 1));
    } else {
        assert(s.skip(0) =~= s);
    }
}

pub proof fn lemma_trim_end_len(s: Seq<char>)
    ensures
        trim_end(s).len() <= s.len(),
        exists|b: int| 0 <= b <= s.len() && trim_end(s) == s.take(b),
    decreases s.len(),
{
    if s.len() > 0 && unicode_whitespace(s.last()) {
        lemma_trim_end_len(s.drop_last());
        let b = choose|b: int| 0 <= b <= s.drop_last().len() && trim_end(s.drop_last()) == s.drop_last().take(b);
        assert(s.drop_last().take(b) =~= s.take(b));
    } else {
        assert(s.take(s.len() as int) =~= s);
    }
}

/// Trimming never lengthens a text.
pub proof fn lemma_trimmed_len(s: Seq<char>)
    ensures
        trimmed(s).len() <= s.len(),
{
    reveal(trimmed);
    lemma_trim_start_len(s);
    lemma_trim_end_len(trim_start(s));
}

pub proof fn lemma_trim_start_first(s: Seq<char>)
    ensures
        trim_start(s).len() == 0 || !unicode_whitespace(trim_start(s)[0]),
    decreases s.len(),
{
    if s.len() > 0 && unicode_whitespace(s[0]) {
        lemma_trim_start_first(s.drop_first());
    }
}

pub proof fn lemma_trim_end_last(s: Seq<char>)
    ensures
        trim_end(s).len() == 0 || !unicode_whitespace(trim_end(s).last()),
    decreases s.len(),
{
    if s.len() > 0 && unicode_whitespace(s.last()) {
        lemma_trim_end_last(s.drop_last());
    }
}

/// Trimming twice is trimming once.
pub proof fn law_trim_idempotent(s: Seq<char>)
    ensures
        trimmed(trimmed(s)) == trimmed(s),
{
    reveal(trimmed);
    let u = trim_start(s);
    let v = trim_end(u);
    lemma_trim_start_first(s);
    lemma_trim_end_last(u);
    lemma_trim_end_len(u);
    let b = choose|b: int| 0 <= b <= u.len() && trim_end(u) == u.take(b);
    // v keeps u's first character, which is not white space
    if v.len() > 0 {
        assert(v[0] == u[0]);
    }
    assert(trim_start(v) == v);
    assert(trim_end(v) == v);
}

proof fn lemma_trim_start_drops_white_space(s: Seq<char>) -> (a: int)
    ensures
        0 <= a <= s.len(),
        trim_start(s) == s.skip(a),
        forall|k: int| 0 <= k < a ==> unicode_whitespace(#[trigger] s[k]),
    decreases s.len(),
{
    if s.len() > 0 && unicode_whitespace(s[0]) {
        let a1 = lemma_trim_start_drops_white_space(s.drop_first());
        assert(s.drop_first().skip(a1) =~= s.skip(a1 + 1));
        assert forall|k: int| 0 <= k < a1 + 1 implies unicode_whitespace(#[trigger] s[k]) by {
            if k > 0 {
                assert(s[k] == s.drop_first()[k - 1]);
            }
        }
        a1 + 1
    } else {
        assert(s.skip(0) =~= s);
        0
    }
}

proof fn lemma_trim_end_drops_white_space(s: Seq<char>) -> (b: int)
    ensures
        0 <= b <= s.len(),
        trim_end(s) == s.take(b),
        forall|k: int| b <= k < s.len() ==> unicode_whitespace(#[trigger] s[k]),
    decreases s.len(),
{
    if s.len() > 0 && unicode_whitespace(s.last()) {
        let b1 = lemma_trim_end_drops_white_space(s.drop_last());
        assert(s.drop_last().take(b1) =~= s.take(b1));
        assert forall|k: int| b1 <= k < s.len() implies unicode_whitespace(#[trigger] s[k]) by {
            if k < s.len() - 1 {
                assert(s[k] == s.drop_last()[k]);
            }
        }
        b1
    } else {
        assert(s.take(s.len() as int) =~= s);
        s.len() as int
    }
}

/// Trimming removes exactly the white space at both ends: what it keeps is a
/// stretch of the text, everything before and after it is white space, and the
/// stretch neither begins nor ends with white space.
pub proof fn law_trim_removes_white_space_at_both_ends(s: Seq<char>)
    ensures
        exists|a: int, b: int|
            0 <= a <= b <= s.len() && trimmed(s) == s.subrange(a, b) && (forall|k: int|
                0 <= k < a ==> unicode_whitespace(#[trigger] s[k])) && (forall|k: int|
                b <= k < s.len() ==> unicode_whitespace(#[trigger] s[k])),
        trimmed(s).len() == 0 || (!unicode_whitespace(trimmed(s)[0]) && !unicode_whitespace(
            trimmed(s).last(),
        )),
{
    reveal(trimmed);
    let a = lemma_trim_start_drops_white_space(s);
    let u = s.skip(a);
    let b = lemma_trim_end_drops_white_space(u);
    assert(u.take(b) =~= s.subrange(a, a + b));
    assert forall|k: int| a + b <= k < s.len() implies unicode_whitespace(#[trigger] s[k]) by {
        assert(s[k] == u[k - a]);
    }
    assert(exists|a2: int, b2: int|
        0 <= a2 <= b2 <= s.len() && trimmed(s) == s.subrange(a2, b2) && (forall|k: int|
            0 <= k < a2 ==> unicode_whitespace(#[trigger] s[k])) && (forall|k: int|
            b2 <= k < s.len() ==> unicode_whitespace(#[trigger] s[k]))) by {
        assert(0 <= a <= a + b <= s.len());
    }
    lemma_trim_start_first(s);
    lemma_trim_end_last(u);
    let v = trim_end(u);
    if v.len() > 0 {
        assert(v[0] == u[0]);
    }
}

/// The slice of `s` that `str::trim` keeps.
pub fn trim(s: &[char]) -> (r: &[char])
    ensures
        r@ == trimmed(s@),
        r@.len() <= s@.len(),
{
    reveal(trimmed);
    let n = s.len();
    let mut a: usize = 0;
    assert(s@.subrange(0, n as int) =~= s@);
    while a < n && is_whitespace(s[a])
        invariant
            a <= n == s@.len(),
            trim_start(s@) == trim_start(s@.subrange(a as int, n as int)),
        decreases n - a,
    {
        assert(s@.subrange(a as int, n as int).drop_first() =~= s@.subrange(a + 1, n as int));
        a = a + 1;
    }
    assert(trim_start(s@.subrange(a as int, n as int)) == s@.subrange(a as int, n as int));
    let mut b: usize = n;
    while b > a && is_whitespace(s[b - 1])
        invariant
            a <= b <= n == s@.len(),
            trim_end(s@.subrange(a as int, n as int)) == trim_end(s@.subrange(a as int, b as int)),
        decreases b - a,
    {
        assert(s@.subrange(a as int, b as int).drop_last() =~= s@.subrange(a as int, b - 1));
        b = b - 1;
    }
    assert(trim_end(s@.subrange(a as int, b as int)) == s@.subrange(a as int, b as int));
    &s[a..b]
}

// ------------------------------------------------------------------
// Prefixes, suffixes and searches
// ------------------------------------------------------------------

/// Whether `s` begins with `p`.
pub open spec fn has_prefix(s: Seq<char>, p: Seq<char>) -> bool {
    p.len() <= s.len() && s.subrange(0, p.len() as int) == p
}

/// Whether `s` ends with `p`.
pub open spec fn has_suffix(s: Seq<char>, p: Seq<char>) -> bool {
    p.len() <= s.len() && s.subrange(s.len() - p.len(), s.len() as int) == p
}

/// Whether `s` holds `p` starting at position `i`.
pub open spec fn occurs_at(s: Seq<char>, p: Seq<char>, i: int) -> bool {
    0 <= i && i + p.len() <= s.len() && s.subrange(i, i + p.len()) == p
}

/// Whether the two sequences are equal, compared character by character.
pub fn chars_equal(a: &[char], b: &[char]) -> (r: bool)
    ensures
        r == (a@ == b@),
{
    if a.len() != b.len() {
        return false;
    }
    let mut i: usize = 0;
    while i < a.len()
        invariant
            a@.len() == b@.len(),
            i <= a@.len(),
            forall|j: int| 0 <= j < i ==> a@[j] == b@[j],
        decreases a@.len() - i,
    {
        if a[i] != b[i] {
            return false;
        }
        i = i + 1;
    }
    assert(a@ =~= b@);
    true
}

/// Whether `s` holds `p` starting at position `i`.
pub fn matches_at(s: &[char], p: &[char], i: usize) -> (r: bool)
    ensures
        r == occurs_at(s@, p@, i as int),
{
    if i > s.len() || p.len() > s.len() - i {
        return false;
    }
    let mut j: usize = 0;
    while j < p.len()
        invariant
            i + p@.len() <= s.len(),
            j <= p@.len(),
            forall|k: int| 0 <= k < j ==> s@[i + k] == p@[k],
        decreases p@.len() - j,
    {
        if s[i + j] != p[j] {
            assert(s@.subrange(i as int, i + p@.len())[j as int] != p@[j as int]);
            return false;
        }
        j = j + 1;
    }
    assert(s@.subrange(i as int, i + p@.len()) =~= p@);
    true
}

/// Whether `s` begins with `p`.
pub fn starts_with(s: &[char], p: &[char]) -> (r: bool)
    ensures
        r == has_prefix(s@, p@),
{
    matches_at(s, p, 0)
}

/// Whether `s` ends with `p`.
pub fn ends_with(s: &[char], p: &[char]) -> (r: bool)
    ensures
        r == has_suffix(s@, p@),
{
    if p.len() > s.len() {
        return false;
    }
    matches_at(s, p, s.len() - p.len())
}

/// Whether `s` begins with the character `c`.
pub fn starts_with_char(s: &[char], c: char) -> (r: bool)
    ensures
        r == (s@.len() > 0 && s@[0] == c),
{
    s.len() > 0 && s[0] == c
}

/// Whether `s` ends with the character `c`.
pub fn ends_with_char(s: &[char], c: char) -> (r: bool)
    ensures
        r == (s@.len() > 0 && s@.last() == c),
{
    s.len() > 0 && s[s.len() - 1] == c
}

/// The first position of `c` in `s`, if any.
pub open spec fn first_index_of(s: Seq<char>, c: char) -> Option<int> {
    if exists|i: int| 0 <= i < s.len() && s[i] == c && forall|j: int| 0 <= j < i ==> s[j] != c {
        Some(choose|i: int| 0 <= i < s.len() && s[i] == c && forall|j: int| 0 <= j < i ==> s[j] != c)
    } else {
        None
    }
}

/// The last position of `c` in `s`, if any.
pub open spec fn last_index_of(s: Seq<char>, c: char) -> Option<int> {
    if exists|i: int| 0 <= i < s.len() && s[i] == c && forall|j: int| i < j < s.len() ==> s[j] != c {
        Some(choose|i: int| 0 <= i < s.len() && s[i] == c && forall|j: int| i < j < s.len() ==> s[j] != c)
    } else {
        None
    }
}

/// The first position of `c` in `s` (what `str::find` with a character gives).
pub fn find_char(s: &[char], c: char) -> (r: Option<usize>)
    ensures
        r matches Some(i) ==> first_index_of(s@, c) == Some(i as int),
        r matches Some(i) ==> i < s@.len() && i < s.len() && s@[i as int] == c && forall|j: int|
            0 <= j < i ==> s@[j] != c,
        r is None ==> first_index_of(s@, c) is None,
        r is None ==> forall|j: int| 0 <= j < s@.len() ==> s@[j] != c,
{
    let mut i: usize = 0;
    while i < s.len()
        invariant
            i <= s@.len(),
            forall|j: int| 0 <= j < i ==> s@[j] != c,
        decreases s@.len() - i,
    {
        if s[i] == c {
            let ghost w = choose|k: int|
                0 <= k < s@.len() && s@[k] == c && forall|j: int| 0 <= j < k ==> s@[j] != c;
            assert(0 <= i < s@.len() && s@[i as int] == c && forall|j: int| 0 <= j < i ==> s@[j] != c);
            assert(w == i) by {
                if w < i {
                } else if w > i {
                }
            }
            return Some(i);
        }
        i = i + 1;
    }
    None
}

/// The last position of `c` in `s` (what `str::rfind` with a character gives).
pub fn rfind_char(s: &[char], c: char) -> (r: Option<usize>)
    ensures
        r matches Some(i) ==> last_index_of(s@, c) == Some(i as int),
        r matches Some(i) ==> i < s@.len() && i < s.len() && s@[i as int] == c && forall|j: int|
            i < j < s@.len() ==> s@[j] != c,
        r is None ==> last_index_of(s@, c) is None,
        r is None ==> forall|j: int| 0 <= j < s@.len() ==> s@[j] != c,
{
    let mut i: usize = s.len();
    while i > 0
        invariant
            i <= s@.len(),
            forall|j: int| i <= j < s@.len() ==> s@[j] != c,
        decreases i,
    {
        if s[i - 1] == c {
            let ghost k: int = i - 1;
            let ghost w = choose|k: int|
                0 <= k < s@.len() && s@[k] == c && forall|j: int| k < j < s@.len() ==> s@[j] != c;
            assert(0 <= k < s@.len() && s@[k] == c && forall|j: int| k < j < s@.len() ==> s@[j] != c);
            assert(w == k) by {
                if w < k {
                } else if w > k {
                }
            }
            return Some(i - 1);
        }
        i = i - 1;
    }
    None
}

/// Whether `c` occurs in `s`.
pub fn contains_char(s: &[char], c: char) -> (r: bool)
    ensures
        r == s@.contains(c),
{
    match find_char(s, c) {
        Some(i) => {
            assert(s@[i as int] == c);
            true
        },
        None => false,
    }
}

// ------------------------------------------------------------------
// Lines
// ------------------------------------------------------------------

/// One line as `str::lines` yields it: the line ending `\n` or `\r\n` removed.
pub open spec fn strip_line_end(line: Seq<char>) -> Seq<char> {
    if line.len() > 0 && line.last() == '\r' {
        line.drop_last()
    } else {
        line
    }
}

/// The lines of `s` (what `str::lines` yields): pieces between `\n` characters,
/// each without a final `\r`, with no empty piece after a final `\n`.
pub open spec fn lines_of(s: Seq<char>) -> Seq<Seq<char>>
    decreases s.len(),
{
    if s.len() == 0 {
        Seq::empty()
    } else {
        match first_index_of(s, '\n') {
            Some(k) => if 0 <= k < s.len() {
                seq![strip_line_end(s.take(k))] + lines_of(s.skip(k + 1))
            } else {
                seq![s]
            },
            None => seq![s],
        }
    }
}

// ------------------------------------------------------------------
// Numbers
// ------------------------------------------------------------------

/// Whether `c` is an ASCII decimal digit.
pub open spec fn is_digit(c: char) -> bool {
    '0' <= c && c <= '9'
}

/// Whether every character of `s` is a decimal digit.
pub open spec fn all_digits(s: Seq<char>) -> bool {
    forall|i: int| 0 <= i < s.len() ==> is_digit(#[trigger] s[i])
}

/// The value of the decimal digit `c`.
pub open spec fn digit_value(c: char) -> int {
    c as int - '0' as int
}

/// The value of the decimal numeral `s`.
pub open spec fn numeral_value(s: Seq<char>) -> nat
    decreases s.len(),
{
    if s.len() == 0 {
        0
    } else {
        (numeral_value(s.drop_last()) * 10 + digit_value(s.last())) as nat
    }
}

/// The integer that `s` denotes in the syntax of Rust's integer `from_str`:
/// an optional sign and at least one decimal digit, nothing else.
pub open spec fn integer_syntax(s: Seq<char>, signed: bool) -> Option<int> {
    if s.len() >= 2 && s[0] == '-' && signed && all_digits(s.drop_first()) {
        Some(-numeral_value(s.drop_first()))
    } else if s.len() >= 2 && s[0] == '+' && all_digits(s.drop_first()) {
        Some(numeral_value(s.drop_first()) as int)
    } else if s.len() >= 1 && s[0] != '+' && s[0] != '-' && all_digits(s) {
        Some(numeral_value(s) as int)
    } else {
        None
    }
}

/// What `s.parse::<i64>()` gives: the value when `s` is an integer numeral in range.
#[verifier::opaque]
pub open spec fn i64_parse(s: Seq<char>) -> Option<i64> {
    match integer_syntax(s, true) {
        Some(v) => if i64::MIN <= v <= i64::MAX {
            Some(v as i64)
        } else {
            None
        },
        None => None,
    }
}

/// What `s.parse::<u128>()` gives: the value when `s` is an unsigned numeral in range.
pub open spec fn u128_parse(s: Seq<char>) -> Option<u128> {
    match integer_syntax(s, false) {
        Some(v) => if 0 <= v <= u128::MAX {
            Some(v as u128)
        } else {
            None
        },
        None => None,
    }
}

proof fn lemma_numeral_prefix_le(s: Seq<char>, k: int)
    requires
        0 <= k <= s.len(),
        all_digits(s),
    ensures
        numeral_value(s.take(k)) <= numeral_value(s),
    decreases s.len() - k,
{
    if k < s.len() {
        lemma_numeral_prefix_le(s, k + 1);
        assert(s.take(k + 1).drop_last() =~= s.take(k));
        assert(s.take(k + 1).last() == s[k]);
        assert(is_digit(s[k]));
        assert(numeral_value(s.take(k + 1)) == numeral_value(s.take(k)) * 10 + digit_value(s[k]));
    } else {
        assert(s.take(k) =~= s);
    }
}

/// The magnitude of the numeral `s[from..]`, when it fits in 128 bits.
fn numeral_u128(s: &[char], from: usize) -> (r: Option<u128>)
    requires
        from <= s@.len(),
        all_digits(s@.skip(from as int)),
    ensures
        r matches Some(v) ==> v == numeral_value(s@.skip(from as int)),
        r is None ==> numeral_value(s@.skip(from as int)) > u128::MAX,
{
    let ghost d = s@.skip(from as int);
    let mut acc: u128 = 0;
    let mut i: usize = from;
    while i < s.len()
        invariant
            from <= i <= s@.len(),
            d == s@.skip(from as int),
            all_digits(d),
            acc == numeral_value(d.take(i - from)),
        decreases s@.len() - i,
    {
        let ghost k: int = i - from;
        assert(d[k] == s@[i as int]);
        assert(is_digit(d[k]));
        let dv: u128 = (s[i] as u32 - '0' as u32) as u128;
        assert(d.take(k + 1).drop_last() =~= d.take(k));
        assert(d.take(k + 1).last() == d[k]);
        match acc.checked_mul(10) {
            Some(m) => match m.checked_add(dv) {
                Some(v) => {
                    acc = v;
                },
                None => {
                    proof {
                        lemma_numeral_prefix_le(d, k + 1);
                    }
                    return None;
                },
            },
            None => {
                proof {
                    lemma_numeral_prefix_le(d, k + 1);
                }
                return None;
            },
        }
        i = i + 1;
    }
    assert(d.take(i - from) =~= d);
    Some(acc)
}

/// Whether every character of `s[from..]` is a decimal digit.
fn digits_from(s: &[char], from: usize) -> (r: bool)
    requires
        from <= s@.len(),
    ensures
        r == all_digits(s@.skip(from as int)),
{
    let mut i: usize = from;
    while i < s.len()
        invariant
            from <= i <= s@.len(),
            forall|j: int| from <= j < i ==> is_digit(s@[j]),
        decreases s@.len() - i,
    {
        if !(s[i] >= '0' && s[i] <= '9') {
            assert(s@.skip(from as int)[i - from] == s@[i as int]);
            return false;
        }
        i = i + 1;
    }
    assert forall|j: int| 0 <= j < s@.skip(from as int).len() implies is_digit(
        #[trigger] s@.skip(from as int)[j],
    ) by {
        assert(s@.skip(from as int)[j] == s@[from + j]);
    }
    true
}

/// `s.parse::<i64>()`: the value of an optionally signed decimal numeral in range.
pub fn parse_i64(s: &[char]) -> (r: Option<i64>)
    ensures
        r == i64_parse(s@),
{
    reveal(i64_parse);
    let n = s.len();
    if n == 0 {
        return None;
    }
    let (neg, from): (bool, usize) = if s[0] == '-' {
        (true, 1)
    } else if s[0] == '+' {
        (false, 1)
    } else {
        (false, 0)
    };
    if from == 1 && n < 2 {
        return None;
    }
    if !digits_from(s, from) {
        proof {
            if from == 0 {
                assert(s@.skip(0) =~= s@);
            } else {
                assert(s@.skip(1) =~= s@.drop_first());
            }
        }
        return None;
    }
    proof {
        assert(s@.skip(0) =~= s@);
        assert(s@.skip(1) =~= s@.drop_first());
    }
    match numeral_u128(s, from) {
        Some(m) => {
            if neg {
                if m <= 9223372036854775808u128 {
                    let v: i128 = 0i128 - (m as i128);
                    Some(v as i64)
                } else {
                    None
                }
            } else if m <= 9223372036854775807u128 {
                Some(m as i64)
            } else {
                None
            }
        },
        None => None,
    }
}

/// `s.parse::<u128>()`: the value of a decimal numeral with an optional `+`, in range.
pub fn parse_u128(s: &[char]) -> (r: Option<u128>)
    ensures
        r == u128_parse(s@),
{
    let n = s.len();
    if n == 0 || s[0] == '-' {
        return None;
    }
    let from: usize = if s[0] == '+' {
        1
    } else {
        0
    };
    if from == 1 && n < 2 {
        return None;
    }
    proof {
        assert(s@.skip(0) =~= s@);
        assert(s@.skip(1) =~= s@.drop_first());
    }
    if !digits_from(s, from) {
        return None;
    }
    numeral_u128(s, from)
}

/// ASCII lower case of `c`.
pub open spec fn ascii_lower(c: char) -> char {
    if 'A' <= c && c <= 'Z' {
        ((c as u32) + 32) as char
    } else {
        c
    }
}

/// Whether `s`, lower-cased, is `w`.
pub open spec fn equals_ignoring_case(s: Seq<char>, w: Seq<char>) -> bool {
    s.len() == w.len() && forall|i: int| 0 <= i < s.len() ==> ascii_lower(#[trigger] s[i]) == w[i]
}

/// The mantissa of a decimal floating-point literal: digits with at most one `.`,
/// and at least one digit.
pub open spec fn mantissa_syntax(m: Seq<char>) -> bool {
    ||| m.len() > 0 && all_digits(m)
    ||| m.len() >= 2 && exists|k: int|
        0 <= k < m.len() && m[k] == '.' && all_digits(m.take(k)) && all_digits(m.skip(k + 1))
}

/// The exponent part of a decimal floating-point literal: empty, or `e`/`E`,
/// an optional sign and at least one digit.
pub open spec fn exponent_syntax(x: Seq<char>) -> bool {
    ||| x.len() == 0
    ||| x.len() >= 2 && ascii_lower(x[0]) == 'e' && all_digits(x.skip(1))
    ||| x.len() >= 3 && ascii_lower(x[0]) == 'e' && (x[1] == '+' || x[1] == '-') && all_digits(
        x.skip(2),
    )
}

/// A decimal floating-point number without sign.
pub open spec fn decimal_float_syntax(t: Seq<char>) -> bool {
    exists|e: int| 0 <= e <= t.len() && mantissa_syntax(t.take(e)) && exponent_syntax(t.skip(e))
}

/// A floating-point literal without sign: a decimal number, `inf`, `infinity` or `nan`
/// in any case.
pub open spec fn unsigned_float_syntax(t: Seq<char>) -> bool {
    ||| equals_ignoring_case(t, seq!['i', 'n', 'f'])
    ||| equals_ignoring_case(t, seq!['i', 'n', 'f', 'i', 'n', 'i', 't', 'y'])
    ||| equals_ignoring_case(t, seq!['n', 'a', 'n'])
    ||| decimal_float_syntax(t)
}

/// Whether `s.parse::<f64>()` succeeds: the grammar that the standard library
/// documents for floating-point `from_str` (an optional sign, then a decimal
/// number with optional exponent, or `inf`, `infinity`, `nan` in any case).
#[verifier::opaque]
pub open spec fn float_syntax(s: Seq<char>) -> bool {
    ||| unsigned_float_syntax(s)
    ||| s.len() > 0 && (s[0] == '+' || s[0] == '-') && unsigned_float_syntax(s.drop_first())
}

fn lower_matches(s: &[char], from: usize, w: &[char]) -> (r: bool)
    requires
        from <= s@.len(),
    ensures
        r == equals_ignoring_case(s@.skip(from as int), w@),
{
    if s.len() - from != w.len() {
        return false;
    }
    let mut i: usize = 0;
    while i < w.len()
        invariant
            from + w@.len() == s.len(),
            i <= w@.len(),
            forall|j: int| 0 <= j < i ==> ascii_lower(s@[from + j]) == w@[j],
        decreases w@.len() - i,
    {
        let c = s[from + i];
        let lc = if c >= 'A' && c <= 'Z' {
            ((c as u8) + 32u8) as char
        } else {
            c
        };
        if lc != w[i] {
            assert(s@.skip(from as int)[i as int] == s@[from + i]);
            return false;
        }
        i = i + 1;
    }
    assert forall|j: int| 0 <= j < s@.skip(from as int).len() implies ascii_lower(
        #[trigger] s@.skip(from as int)[j],
    ) == w@[j] by {
        assert(s@.skip(from as int)[j] == s@[from + j]);
    }
    true
}

/// Whether `s[from..to]` is the mantissa of a decimal floating-point literal.
fn mantissa_ok(s: &[char], from: usize, to: usize) -> (r: bool)
    requires
        from <= to <= s@.len(),
    ensures
        r == mantissa_syntax(s@.subrange(from as int, to as int)),
{
    let ghost m = s@.subrange(from as int, to as int);
    let mut dot: Option<usize> = None;
    let mut i: usize = from;
    while i < to
        invariant
            from <= i <= to <= s@.len(),
            m == s@.subrange(from as int, to as int),
            dot matches Some(k) ==> from <= k < i && s@[k as int] == '.' && forall|j: int|
                from <= j < i && j != k ==> is_digit(s@[j]),
            dot is None ==> forall|j: int| from <= j < i ==> is_digit(s@[j]),
        decreases to - i,
    {
        let c = s[i];
        if c == '.' {
            if dot.is_some() {
                proof {
                    let k = dot->0;
                    assert(m[k - from] == '.');
                    assert(m[i - from] == '.');
                    assert(!all_digits(m));
                    assert forall|p: int|
                        0 <= p < m.len() && m[p] == '.' && all_digits(m.take(p)) implies !all_digits(
                        m.skip(p + 1),
                    ) by {
                        if p < k - from {
                            assert(m.take(p + 1 + (k - from - p - 1)) =~= m.take(k - from));
                            assert(m.skip(p + 1)[k - from - p - 1] == m[k - from]);
                        } else if p == k - from {
                            assert(m.skip(p + 1)[i - from - p - 1] == m[i - from]);
                        } else {
                            assert(m.take(p)[k - from] == m[k - from]);
                        }
                    }
                }
                return false;
            }
            dot = Some(i);
        } else if !(c >= '0' && c <= '9') {
            proof {
                let q: int = i - from;
                assert(m[q] == c);
                assert(!all_digits(m));
                assert forall|p: int|
                    0 <= p < m.len() && m[p] == '.' && all_digits(m.take(p)) implies !all_digits(
                    m.skip(p + 1),
                ) by {
                    if p < q {
                        assert(m.skip(p + 1)[q - p - 1] == m[q]);
                    } else {
                        assert(m.take(p)[q] == m[q]);
                    }
                }
            }
            return false;
        }
        i = i + 1;
    }
    match dot {
        None => {
            assert(all_digits(m)) by {
                assert forall|j: int| 0 <= j < m.len() implies is_digit(#[trigger] m[j]) by {
                    assert(m[j] == s@[from + j]);
                }
            }
            to > from
        },
        Some(k) => {
            let ok = to - from >= 2;
            proof {
                let p: int = k - from;
                assert(m[p] == '.');
                assert(!all_digits(m));
                assert(all_digits(m.take(p))) by {
                    assert forall|j: int| 0 <= j < m.take(p).len() implies is_digit(
                        #[trigger] m.take(p)[j],
                    ) by {
                        assert(m.take(p)[j] == s@[from + j]);
                    }
                }
                assert(all_digits(m.skip(p + 1))) by {
                    assert forall|j: int| 0 <= j < m.skip(p + 1).len() implies is_digit(
                        #[trigger] m.skip(p + 1)[j],
                    ) by {
                        assert(m.skip(p + 1)[j] == s@[k + 1 + j]);
                    }
                }
            }
            ok
        },
    }
}

/// Whether `s[from..]` is the exponent part of a decimal floating-point literal.
fn exponent_ok(s: &[char], from: usize) -> (r: bool)
    requires
        from <= s@.len(),
    ensures
        r == exponent_syntax(s@.skip(from as int)),
{
    let ghost x = s@.skip(from as int);
    let n = s.len();
    if from == n {
        return true;
    }
    let c = s[from];
    assert(x[0] == c);
    if !(c == 'e' || c == 'E') {
        return false;
    }
    if n - from >= 2 && (s[from + 1] == '+' || s[from + 1] == '-') {
        assert(x[1] == s@[from + 1]);
        let ok = n - from >= 3 && digits_from(s, from + 2);
        proof {
            assert(x.skip(2) =~= s@.skip(from + 2));
            assert(!is_digit(x.skip(1)[0]));
        }
        ok
    } else {
        let ok = n - from >= 2 && digits_from(s, from + 1);
        proof {
            assert(x.skip(1) =~= s@.skip(from + 1));
        }
        ok
    }
}

/// Whether `s[from..]` is a floating-point literal without sign.
fn unsigned_float_ok(s: &[char], from: usize) -> (r: bool)
    requires
        from <= s@.len(),
    ensures
        r == unsigned_float_syntax(s@.skip(from as int)),
{
    let ghost t = s@.skip(from as int);
    let inf = ['i', 'n', 'f'];
    let infinity = ['i', 'n', 'f', 'i', 'n', 'i', 't', 'y'];
    let nan = ['n', 'a', 'n'];
    proof {
        assert(inf@ =~= seq!['i', 'n', 'f']);
        assert(infinity@ =~= seq!['i', 'n', 'f', 'i', 'n', 'i', 't', 'y']);
        assert(nan@ =~= seq!['n', 'a', 'n']);
    }
    if lower_matches(s, from, &inf) || lower_matches(s, from, &infinity) || lower_matches(
        s,
        from,
        &nan,
    ) {
        return true;
    }
    // the exponent begins at the first `e` or `E`
    let n = s.len();
    let mut e: usize = from;
    while e < n && !(s[e] == 'e' || s[e] == 'E')
        invariant
            from <= e <= n == s@.len(),
            forall|j: int| from <= j < e ==> s@[j] != 'e' && s@[j] != 'E',
        decreases n - e,
    {
        e = e + 1;
    }
    let ok = mantissa_ok(s, from, e) && exponent_ok(s, e);
    proof {
        let q: int = e - from;
        assert(t.take(q) =~= s@.subrange(from as int, e as int));
        assert(t.skip(q) =~= s@.skip(e as int));
        if !ok {
            assert forall|p: int| 0 <= p <= t.len() && mantissa_syntax(t.take(p)) implies !exponent_syntax(
                t.skip(p),
            ) by {
                if p < q {
                    assert(t.skip(p)[0] == t[p]);
                    assert(t[p] == s@[from + p]);
                } else if p > q {
                    assert(t.take(p)[q] == t[q]);
                    assert(t[q] == s@[e as int]);
                    assert(ascii_lower(t[q]) == 'e');
                    let mm = t.take(p);
                    assert(!is_digit(mm[q]));
                    assert(!all_digits(mm));
                    assert forall|k: int|
                        0 <= k < mm.len() && mm[k] == '.' && all_digits(mm.take(k)) implies !all_digits(
                        mm.skip(k + 1),
                    ) by {
                        if k < q {
                            assert(mm.skip(k + 1)[q - k - 1] == mm[q]);
                        } else {
                            assert(mm.take(k)[q] == mm[q]);
                        }
                    }
                }
            }
        }
    }
    ok
}

/// `s.parse::<f64>().is_ok()`: whether `s` is a floating-point literal.
pub fn is_float_literal(s: &[char]) -> (r: bool)
    ensures
        r == float_syntax(s@),
{
    reveal(float_syntax);
    proof {
        assert(s@.skip(0) =~= s@);
        assert(s@.skip(1) =~= s@.drop_first());
    }
    if unsigned_float_ok(s, 0) {
        return true;
    }
    s.len() > 0 && (s[0] == '+' || s[0] == '-') && unsigned_float_ok(s, 1)
}

// ------------------------------------------------------------------
// Decimal rendering
// ------------------------------------------------------------------

/// The character of the decimal digit `d`.
pub open spec fn digit_char(d: nat) -> char {
    (d + '0' as nat) as char
}

/// The decimal numeral of `n`, as `format!("{}", n)` writes an unsigned integer.
pub open spec fn decimal(n: nat) -> Seq<char>
    decreases n,
{
    if n < 10 {
        seq![digit_char(n)]
    } else {
        decimal(n / 10).push(digit_char(n % 10))
    }
}

/// The decimal numeral of `n`.
pub fn decimal_string(n: u128) -> (r: String)
    ensures
        r@ == decimal(n as nat),
{
    // digits, least significant first
    let mut digits: Vec<char> = Vec::new();
    let mut m: u128 = n;
    let ghost mut rest: Seq<char> = Seq::empty();
    loop
        invariant
            decimal(n as nat) == decimal(m as nat) + rest,
            digits@.len() == rest.len(),
            forall|i: int| 0 <= i < rest.len() ==> rest[i] == digits@[rest.len() - 1 - i],
        decreases m,
    {
        let d: u128 = m % 10;
        let c: char = ((d as u8) + 48u8) as char;
        assert(c == digit_char(d as nat));
        if m < 10 {
            proof {
                assert(decimal(m as nat) == seq![c]);
            }
            digits.push(c);
            let ghost full = seq![c] + rest;
            assert(decimal(n as nat) == full);
            // emit in reverse order
            let mut out: Vec<char> = Vec::new();
            let mut i: usize = digits.len();
            while i > 0
                invariant
                    i <= digits@.len() == full.len(),
                    forall|j: int| 0 <= j < full.len() ==> full[j] == digits@[full.len() - 1 - j],
                    out@ == full.take(full.len() - i),
                decreases i,
            {
                out.push(digits[i - 1]);
                i = i - 1;
                assert(full.take(full.len() - i) =~= full.take(full.len() - i - 1).push(
                    full[full.len() - i - 1],
                ));
            }
            assert(full.take(full.len() as int) =~= full);
            return string_of(&out);
        }
        proof {
            assert(decimal(m as nat) == decimal((m / 10) as nat).push(c));
            assert(decimal((m / 10) as nat).push(c) + rest =~= decimal((m / 10) as nat) + (
            seq![c] + rest));
        }
        digits.push(c);
        proof {
            rest = seq![c] + rest;
        }
        m = m / 10;
    }
}

} // verus!
