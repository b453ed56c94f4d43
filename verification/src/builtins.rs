//! The integer and text computations behind the script's built-in functions
//! and methods: `range`, list positions, and the string methods.
//!
//! Script values themselves (numbers that may be floating-point, dictionaries)
//! stay with the evaluator; it hands these functions plain integers and texts.
use vstd::prelude::*;
use vstd::slice::{slice_subrange, slice_to_vec};
use crate::grammar::occurrence_from;
use crate::json::{json_as_u64, json_get, JsonValue};
use crate::parser_block::{find_occurrence, lemma_occurrence_bounds};
use crate::scan::pos_view;
use crate::text::{byte_offset, utf8_len};

verus! {

// ------------------------------------------------------------------
// range
// ------------------------------------------------------------------

/// How far `i` still is from `stop`, going by `step`; zero once `stop` is
/// reached or passed, and when `step` is zero.
pub open spec fn range_gap(i: int, stop: int, step: int) -> nat {
    if step > 0 && i < stop {
        (stop - i) as nat
    } else if step < 0 && i > stop {
        (i - stop) as nat
    } else {
        0
    }
}

/// The integers from `start` toward `stop` (which is left out), `step` apart;
/// none when `step` is zero.
pub open spec fn range_from(start: int, stop: int, step: int) -> Seq<int>
    decreases range_gap(start, stop, step),
{
    if range_gap(start, stop, step) > 0 {
        seq![start] + range_from(start + step, stop, step)
    } else {
        Seq::empty()
    }
}

/// What `range` gives for its arguments: `range(n)`, `range(a, b)` and
/// `range(a, b, step)`; any other number of arguments gives nothing.
pub open spec fn range_of(args: Seq<i64>) -> Seq<int> {
    if args.len() == 1 {
        range_from(0, args[0] as int, 1)
    } else if args.len() == 2 {
        range_from(args[0] as int, args[1] as int, 1)
    } else if args.len() == 3 {
        range_from(args[0] as int, args[1] as int, args[2] as int)
    } else {
        Seq::empty()
    }
}

/// The values of a list of integers.
pub open spec fn ints(v: Seq<i64>) -> Seq<int> {
    v.map_values(|x: i64| x as int)
}

/// The integers from `start` toward `stop` by `step`.
fn stepped_values(start: i64, stop: i64, step: i64) -> (r: Vec<i64>)
    ensures
        ints(r@) == range_from(start as int, stop as int, step as int),
{
    let mut out: Vec<i64> = Vec::new();
    let mut i: i64 = start;
    assert(ints(out@) =~= Seq::<int>::empty());
    loop
        invariant
            ints(out@) + range_from(i as int, stop as int, step as int) == range_from(
                start as int,
                stop as int,
                step as int,
            ),
        decreases range_gap(i as int, stop as int, step as int),
    {
        if !((step > 0 && i < stop) || (step < 0 && i > stop)) {
            assert(ints(out@) + range_from(i as int, stop as int, step as int) =~= ints(out@));
            return out;
        }
        let ghost before = out@;
        out.push(i);
        assert(ints(out@) =~= ints(before).push(i as int));
        assert(ints(out@) + range_from(i + step, stop as int, step as int) =~= ints(before)
            + range_from(i as int, stop as int, step as int));
        let next: i128 = i as i128 + step as i128;
        if (step > 0 && next >= stop as i128) || (step < 0 && next <= stop as i128) {
            assert(ints(out@) + range_from(next as int, stop as int, step as int) =~= ints(out@));
            return out;
        }
        i = next as i64;
    }
}

/// `range(..)`: the integers that the arguments name (see `range_of`).
pub fn range_values(args: &[i64]) -> (r: Vec<i64>)
    ensures
        ints(r@) == range_of(args@),
{
    if args.len() == 1 {
        stepped_values(0, args[0], 1)
    } else if args.len() == 2 {
        stepped_values(args[0], args[1], 1)
    } else if args.len() == 3 {
        stepped_values(args[0], args[1], args[2])
    } else {
        let r: Vec<i64> = Vec::new();
        assert(ints(r@) =~= Seq::<int>::empty());
        r
    }
}

/// `range(a, b)` counts up from `a` to `b - 1`, and is empty when `b <= a`.
pub proof fn law_range_counts_up(a: int, b: int)
    ensures
        range_from(a, b, 1) == Seq::new(
            (if a <= b {
                b - a
            } else {
                0
            }) as nat,
            |k: int| a + k,
        ),
    decreases b - a,
{
    if a < b {
        law_range_counts_up(a + 1, b);
    }
    assert(range_from(a, b, 1) =~= Seq::new(
        (if a <= b {
            b - a
        } else {
            0
        }) as nat,
        |k: int| a + k,
    ));
}

/// Every item of a range lies between `start` (included) and `stop` (left out),
/// the first one is `start`, and each next item is `step` further.
pub proof fn law_range_items_step_toward_stop(start: int, stop: int, step: int)
    ensures
        forall|k: int|
            0 <= k < range_from(start, stop, step).len() ==> {
                let x = #[trigger] range_from(start, stop, step)[k];
                &&& (step > 0 ==> start <= x < stop)
                &&& (step < 0 ==> stop < x <= start)
            },
        range_from(start, stop, step).len() > 0 ==> range_from(start, stop, step)[0] == start,
        forall|k: int|
            0 <= k < range_from(start, stop, step).len() - 1 ==> #[trigger] range_from(
                start,
                stop,
                step,
            )[k + 1] == range_from(start, stop, step)[k] + step,
        step == 0 ==> range_from(start, stop, step).len() == 0,
    decreases range_gap(start, stop, step),
{
    if range_gap(start, stop, step) > 0 {
        law_range_items_step_toward_stop(start + step, stop, step);
        let rest = range_from(start + step, stop, step);
        assert(range_from(start, stop, step) == seq![start] + rest);
        assert forall|k: int|
            0 <= k < range_from(start, stop, step).len() - 1 implies #[trigger] range_from(
                start,
                stop,
                step,
            )[k + 1] == range_from(start, stop, step)[k] + step by {
            if k > 0 {
                assert(rest[(k - 1) + 1] == rest[k - 1] + step);
            }
        }
        assert forall|k: int| 0 <= k < range_from(start, stop, step).len() implies {
            let x = #[trigger] range_from(start, stop, step)[k];
            &&& (step > 0 ==> start <= x < stop)
            &&& (step < 0 ==> stop < x <= start)
        } by {
            if k > 0 {
                assert(range_from(start, stop, step)[k] == rest[k - 1]);
            }
        }
    }
}

/// A range reaches its stop: no further item fits after its last one. Going
/// up, the item after the last would be at or past `stop` (and an empty range
/// starts at or past `stop`); going down, symmetrically.
pub proof fn law_range_reaches_stop(start: int, stop: int, step: int)
    ensures
        step > 0 ==> (range_from(start, stop, step).len() == 0 <==> start >= stop),
        step > 0 && range_from(start, stop, step).len() > 0 ==> range_from(start, stop, step).last()
            + step >= stop,
        step < 0 ==> (range_from(start, stop, step).len() == 0 <==> start <= stop),
        step < 0 && range_from(start, stop, step).len() > 0 ==> range_from(start, stop, step).last()
            + step <= stop,
    decreases range_gap(start, stop, step),
{
    if range_gap(start, stop, step) > 0 {
        law_range_reaches_stop(start + step, stop, step);
        let rest = range_from(start + step, stop, step);
        assert(range_from(start, stop, step) == seq![start] + rest);
        if rest.len() > 0 {
            assert(range_from(start, stop, step).last() == rest.last());
        }
    }
}

// ------------------------------------------------------------------
// List positions
// ------------------------------------------------------------------

/// The position that index `i` names in a list of `len` items: from the end
/// when `i` is negative; `None` when it falls outside the list.
pub open spec fn index_position(len: int, i: int) -> Option<int> {
    let k = if i < 0 {
        len + i
    } else {
        i
    };
    if 0 <= k < len {
        Some(k)
    } else {
        None
    }
}

/// An index counts from the front when it is non-negative and from the end
/// when it is negative; outside `-len..len` it names nothing.
pub proof fn law_index_counts_from_either_end(len: int, i: int)
    requires
        len >= 0,
    ensures
        0 <= i < len ==> index_position(len, i) == Some(i),
        -len <= i < 0 ==> index_position(len, i) == Some(len + i),
        i >= len || i < -len ==> index_position(len, i) is None,
{
}

/// The position that index `i` names in a list of `len` items (`xs[i]`).
pub fn list_position(len: usize, i: i64) -> (r: Option<usize>)
    ensures
        pos_view(r) == index_position(len as int, i as int),
{
    if i < 0 {
        let back: i128 = len as i128 + i as i128;
        if back >= 0 {
            Some(back as usize)
        } else {
            None
        }
    } else if (i as i128) < (len as i128) {
        Some(i as usize)
    } else {
        None
    }
}

/// The position that `xs.pop(..)` takes out of a list of `len` items: the one
/// that its integer argument names, or the last one when it has none.
pub open spec fn pop_position_of(len: int, arg: Option<i64>) -> Option<int> {
    match arg {
        Some(i) => index_position(len, i as int),
        None => if len > 0 {
            Some(len - 1)
        } else {
            None
        },
    }
}

/// The position that `xs.pop(..)` takes out of a list of `len` items.
pub fn pop_position(len: usize, arg: Option<i64>) -> (r: Option<usize>)
    ensures
        pos_view(r) == pop_position_of(len as int, arg),
{
    match arg {
        Some(i) => list_position(len, i),
        None => if len > 0 {
            Some(len - 1)
        } else {
            None
        },
    }
}

/// Where `xs.insert(i, x)` puts `x` in a list of `len` items: at `i` when it
/// is between 0 and `len`, at the front when no integer position was given,
/// and nowhere otherwise.
pub open spec fn insert_position_of(len: int, arg: Option<i64>) -> Option<int> {
    match arg {
        Some(i) => if 0 <= i <= len {
            Some(i as int)
        } else {
            None
        },
        None => Some(0),
    }
}

/// Where `xs.insert(i, x)` puts `x` in a list of `len` items.
pub fn insert_position(len: usize, arg: Option<i64>) -> (r: Option<usize>)
    ensures
        pos_view(r) == insert_position_of(len as int, arg),
{
    match arg {
        Some(i) => if 0 <= i && (i as i128) <= (len as i128) {
            Some(i as usize)
        } else {
            None
        },
        None => Some(0),
    }
}

// ------------------------------------------------------------------
// String methods
// ------------------------------------------------------------------

/// The texts of a list of character vectors.
pub open spec fn char_texts(v: Seq<Vec<char>>) -> Seq<Seq<char>> {
    v.map_values(|t: Vec<char>| t@)
}

/// An optional count, as a natural number.
pub open spec fn nat_opt(n: Option<usize>) -> Option<nat> {
    match n {
        Some(k) => Some(k as nat),
        None => None,
    }
}

/// One fewer of an optional count; no count stays no count.
pub open spec fn one_fewer(n: Option<nat>) -> Option<nat> {
    match n {
        Some(k) => Some((k - 1) as nat),
        None => None,
    }
}

/// The pieces of `s` around the occurrences of `sep`, found from the left
/// without overlap, splitting at most `splits` times when that is given
/// (`str::split`, `str::splitn`). An empty `sep` occurs at the start, between
/// every two characters and at the end.
pub open spec fn split_on(s: Seq<char>, sep: Seq<char>, splits: Option<nat>) -> Seq<Seq<char>>
    decreases s.len(),
{
    if splits == Some(0nat) {
        seq![s]
    } else if sep.len() == 0 {
        let m: int = match splits {
            Some(n) => if n - 1 < s.len() {
                n - 1
            } else {
                s.len() as int
            },
            None => s.len() as int,
        };
        seq![Seq::<char>::empty()] + Seq::new(m as nat, |i: int| seq![s[i]]) + seq![s.skip(m)]
    } else {
        match occurrence_from(s, sep, 0) {
            Some(k) => if 0 <= k && k + sep.len() <= s.len() {
                seq![s.take(k)] + split_on(s.skip(k + sep.len()), sep, one_fewer(splits))
            } else {
                seq![s]
            },
            None => seq![s],
        }
    }
}

/// The pieces of `s` around the empty separator.
fn split_between_chars(s: &[char], max_splits: Option<usize>) -> (r: Vec<Vec<char>>)
    requires
        max_splits != Some(0usize),
    ensures
        char_texts(r@) == split_on(s@, Seq::empty(), nat_opt(max_splits)),
{
    let m: usize = match max_splits {
        Some(n) => if n - 1 < s.len() {
            n - 1
        } else {
            s.len()
        },
        None => s.len(),
    };
    let mut out: Vec<Vec<char>> = Vec::new();
    out.push(Vec::new());
    let mut i: usize = 0;
    assert(char_texts(out@) =~= seq![Seq::<char>::empty()] + Seq::new(0, |j: int| seq![s@[j]]));
    while i < m
        invariant
            i <= m <= s@.len(),
            char_texts(out@) == seq![Seq::<char>::empty()] + Seq::new(i as nat, |j: int| seq![s@[j]]),
        decreases m - i,
    {
        let ghost before = out@;
        let mut piece: Vec<char> = Vec::new();
        piece.push(s[i]);
        out.push(piece);
        assert(char_texts(out@) =~= char_texts(before).push(seq![s@[i as int]]));
        assert(char_texts(out@) =~= seq![Seq::<char>::empty()] + Seq::new((i + 1) as nat, |j: int| seq![s@[j]]));
        i = i + 1;
    }
    let ghost before = out@;
    out.push(slice_to_vec(slice_subrange(s, m, s.len())));
    assert(s@.subrange(m as int, s@.len() as int) =~= s@.skip(m as int));
    assert(char_texts(out@) =~= char_texts(before).push(s@.skip(m as int)));
    out
}

/// `s.split(sep)`, or `s.splitn(n + 1, sep)` for at most `n` splits: the pieces of
/// `s` around the occurrences of `sep` (see `split_on`).
pub fn split_text(s: &[char], sep: &[char], max_splits: Option<usize>) -> (r: Vec<Vec<char>>)
    requires
        s@.len() < usize::MAX,
    ensures
        char_texts(r@) == split_on(s@, sep@, nat_opt(max_splits)),
{
    let mut out: Vec<Vec<char>> = Vec::new();
    match max_splits {
        Some(n) => if n == 0 {
            out.push(slice_to_vec(s));
            assert(char_texts(out@) =~= seq![s@]);
            return out;
        },
        None => {},
    }
    if sep.len() == 0 {
        assert(sep@ =~= Seq::<char>::empty());
        return split_between_chars(s, max_splits);
    }
    let mut rest: &[char] = s;
    let mut left: Option<usize> = max_splits;
    assert(char_texts(out@) + split_on(rest@, sep@, nat_opt(left)) =~= split_on(s@, sep@, nat_opt(max_splits)));
    loop
        invariant
            sep@.len() > 0,
            rest@.len() <= s@.len() < usize::MAX,
            char_texts(out@) + split_on(rest@, sep@, nat_opt(left)) == split_on(
                s@,
                sep@,
                nat_opt(max_splits),
            ),
        decreases rest@.len(),
    {
        let ghost before = out@;
        let done: bool = match left {
            Some(n) => n == 0,
            None => false,
        };
        if done {
            out.push(slice_to_vec(rest));
            assert(char_texts(out@) =~= char_texts(before) + split_on(rest@, sep@, nat_opt(left)));
            return out;
        }
        match find_occurrence(rest, sep) {
            Some(k) => {
                proof {
                    lemma_occurrence_bounds(rest@, sep@, 0);
                }
                let ghost rest_before = rest@;
                let ghost left_before = nat_opt(left);
                out.push(slice_to_vec(slice_subrange(rest, 0, k)));
                rest = slice_subrange(rest, k + sep.len(), rest.len());
                left = match left {
                    Some(n) => Some(n - 1),
                    None => None,
                };
                assert(rest_before.subrange(0, k as int) =~= rest_before.take(k as int));
                assert(rest@ =~= rest_before.skip(k + sep@.len()));
                assert(nat_opt(left) == one_fewer(left_before));
                assert(char_texts(out@) =~= char_texts(before).push(rest_before.take(k as int)));
                assert(char_texts(out@) + split_on(rest@, sep@, nat_opt(left)) =~= char_texts(before)
                    + split_on(rest_before, sep@, left_before));
            },
            None => {
                out.push(slice_to_vec(rest));
                assert(char_texts(out@) =~= char_texts(before) + split_on(rest@, sep@, nat_opt(left)));
                return out;
            },
        }
    }
}

/// `s` with every occurrence of `old`, found from the left without overlap,
/// replaced by `new` (`str::replace`). An empty `old` occurs at the start,
/// between every two characters and at the end.
pub open spec fn replace_all(s: Seq<char>, old: Seq<char>, new: Seq<char>) -> Seq<char>
    decreases s.len(),
{
    if old.len() == 0 {
        if s.len() == 0 {
            new
        } else {
            new + seq![s[0]] + replace_all(s.drop_first(), old, new)
        }
    } else {
        match occurrence_from(s, old, 0) {
            Some(k) => if 0 <= k && k + old.len() <= s.len() {
                s.take(k) + new + replace_all(s.skip(k + old.len()), old, new)
            } else {
                s
            },
            None => s,
        }
    }
}

/// Append the characters of `more` to `out`.
fn append_chars(out: &mut Vec<char>, more: &[char])
    ensures
        final(out)@ == old(out)@ + more@,
{
    let mut i: usize = 0;
    while i < more.len()
        invariant
            i <= more@.len(),
            out@ == old(out)@ + more@.take(i as int),
        decreases more@.len() - i,
    {
        out.push(more[i]);
        assert(more@.take(i + 1) =~= more@.take(i as int).push(more@[i as int]));
        i = i + 1;
    }
    assert(more@.take(more@.len() as int) =~= more@);
}

/// `s.replace(old, new)` (see `replace_all`).
pub fn replace_text(s: &[char], old: &[char], new: &[char]) -> (r: Vec<char>)
    requires
        s@.len() < usize::MAX,
    ensures
        r@ == replace_all(s@, old@, new@),
{
    let mut out: Vec<char> = Vec::new();
    let mut rest: &[char] = s;
    assert(out@ + replace_all(rest@, old@, new@) =~= replace_all(s@, old@, new@));
    if old.len() == 0 {
        loop
            invariant
                old@.len() == 0,
                out@ + replace_all(rest@, old@, new@) == replace_all(s@, old@, new@),
            decreases rest@.len(),
        {
            let ghost before = out@;
            append_chars(&mut out, new);
            if rest.len() == 0 {
                return out;
            }
            let ghost rest_before = rest@;
            out.push(rest[0]);
            rest = slice_subrange(rest, 1, rest.len());
            assert(rest@ =~= rest_before.drop_first());
            assert(out@ + replace_all(rest@, old@, new@) =~= before + replace_all(
                rest_before,
                old@,
                new@,
            ));
        }
    }
    loop
        invariant
            old@.len() > 0,
            rest@.len() <= s@.len() < usize::MAX,
            out@ + replace_all(rest@, old@, new@) == replace_all(s@, old@, new@),
        decreases rest@.len(),
    {
        let ghost before = out@;
        match find_occurrence(rest, old) {
            Some(k) => {
                proof {
                    lemma_occurrence_bounds(rest@, old@, 0);
                }
                let ghost rest_before = rest@;
                append_chars(&mut out, slice_subrange(rest, 0, k));
                append_chars(&mut out, new);
                rest = slice_subrange(rest, k + old.len(), rest.len());
                assert(rest_before.subrange(0, k as int) =~= rest_before.take(k as int));
                assert(rest@ =~= rest_before.skip(k + old@.len()));
                assert(out@ + replace_all(rest@, old@, new@) =~= before + replace_all(
                    rest_before,
                    old@,
                    new@,
                ));
            },
            None => {
                append_chars(&mut out, rest);
                return out;
            },
        }
    }
}

/// The number of occurrences of `needle` in `s`, found from the left without
/// overlap (`str::matches(..).count()`); an empty `needle` occurs at every one
/// of the `s.len() + 1` places between characters.
pub open spec fn count_in(s: Seq<char>, needle: Seq<char>) -> nat
    decreases s.len(),
{
    if needle.len() == 0 {
        s.len() + 1
    } else {
        match occurrence_from(s, needle, 0) {
            Some(k) => if 0 <= k && k + needle.len() <= s.len() {
                1 + count_in(s.skip(k + needle.len()), needle)
            } else {
                0
            },
            None => 0,
        }
    }
}

/// `s.matches(needle).count()` (see `count_in`).
pub fn count_text(s: &[char], needle: &[char]) -> (r: usize)
    requires
        s@.len() < usize::MAX,
    ensures
        r == count_in(s@, needle@),
{
    if needle.len() == 0 {
        return s.len() + 1;
    }
    let mut c: usize = 0;
    let mut rest: &[char] = s;
    loop
        invariant
            needle@.len() > 0,
            c + rest@.len() <= s@.len() < usize::MAX,
            c + count_in(rest@, needle@) == count_in(s@, needle@),
        decreases rest@.len(),
    {
        match find_occurrence(rest, needle) {
            Some(k) => {
                proof {
                    lemma_occurrence_bounds(rest@, needle@, 0);
                }
                let ghost rest_before = rest@;
                rest = slice_subrange(rest, k + needle.len(), rest.len());
                assert(rest@ =~= rest_before.skip(k + needle@.len()));
                c = c + 1;
            },
            None => {
                return c;
            },
        }
    }
}

/// The byte offset of the first occurrence of `needle` in `s` (`str::find`).
pub open spec fn find_offset(s: Seq<char>, needle: Seq<char>) -> Option<int> {
    match occurrence_from(s, needle, 0) {
        Some(k) => Some(utf8_len(s.take(k)) as int),
        None => None,
    }
}

/// `s.find(needle)`: the byte offset where `needle` first occurs in `s`.
pub fn find_text(s: &[char], needle: &[char]) -> (r: Option<usize>)
    requires
        4 * s@.len() < usize::MAX,
    ensures
        pos_view(r) == find_offset(s@, needle@),
{
    match find_occurrence(s, needle) {
        Some(k) => {
            proof {
                lemma_occurrence_bounds(s@, needle@, 0);
            }
            Some(byte_offset(s, k))
        },
        None => None,
    }
}

/// The texts of `parts` with `sep` between each two (`sep.join(parts)`).
pub open spec fn join_with(parts: Seq<Seq<char>>, sep: Seq<char>) -> Seq<char>
    decreases parts.len(),
{
    if parts.len() == 0 {
        Seq::empty()
    } else if parts.len() == 1 {
        parts[0]
    } else {
        join_with(parts.drop_last(), sep) + sep + parts.last()
    }
}

/// `sep.join(parts)` (see `join_with`).
pub fn join_texts(sep: &[char], parts: &Vec<Vec<char>>) -> (r: Vec<char>)
    ensures
        r@ == join_with(char_texts(parts@), sep@),
{
    let mut out: Vec<char> = Vec::new();
    let mut i: usize = 0;
    assert(char_texts(parts@).take(0) =~= Seq::<Seq<char>>::empty());
    while i < parts.len()
        invariant
            i <= parts@.len(),
            out@ == join_with(char_texts(parts@).take(i as int), sep@),
        decreases parts@.len() - i,
    {
        let ghost before = out@;
        if i > 0 {
            append_chars(&mut out, sep);
        }
        append_chars(&mut out, parts[i].as_slice());
        let ghost t = char_texts(parts@).take(i + 1);
        assert(t.drop_last() =~= char_texts(parts@).take(i as int));
        assert(t.last() == parts@[i as int]@);
        if i == 0 {
            assert(out@ =~= t[0]);
        }
        i = i + 1;
    }
    assert(char_texts(parts@).take(parts@.len() as int) =~= char_texts(parts@));
    out
}

/// Joining `first` in front of a non-empty list puts `sep` after it.
proof fn lemma_join_front(first: Seq<char>, rest: Seq<Seq<char>>, sep: Seq<char>)
    requires
        rest.len() > 0,
    ensures
        join_with(seq![first] + rest, sep) == first + sep + join_with(rest, sep),
    decreases rest.len(),
{
    let all = seq![first] + rest;
    if rest.len() == 1 {
        assert(all.drop_last() =~= seq![first]);
        assert(all.last() == rest[0]);
        assert(join_with(seq![first], sep) == first);
        assert(join_with(rest, sep) == rest[0]);
        assert(join_with(all, sep) == join_with(all.drop_last(), sep) + sep + all.last());
    } else {
        lemma_join_front(first, rest.drop_last(), sep);
        assert(all.drop_last() =~= seq![first] + rest.drop_last());
        assert(all.last() == rest.last());
        assert(join_with(all, sep) == join_with(all.drop_last(), sep) + sep + all.last());
        assert(join_with(rest, sep) == join_with(rest.drop_last(), sep) + sep + rest.last());
        assert(first + sep + join_with(rest, sep) =~= first + sep + join_with(rest.drop_last(), sep)
            + sep + rest.last());
    }
}

/// Splitting gives at least one piece.
proof fn lemma_split_nonempty(s: Seq<char>, sep: Seq<char>, splits: Option<nat>)
    ensures
        split_on(s, sep, splits).len() > 0,
    decreases s.len(),
{
}

/// Joining the pieces that the empty separator gives, with nothing between
/// them: the first `n` characters.
proof fn lemma_join_single_chars(s: Seq<char>, n: nat)
    requires
        n <= s.len(),
    ensures
        join_with(seq![Seq::<char>::empty()] + Seq::new(n, |i: int| seq![s[i]]), Seq::empty())
            == s.take(n as int),
    decreases n,
{
    let parts = seq![Seq::<char>::empty()] + Seq::new(n, |i: int| seq![s[i]]);
    if n == 0 {
        assert(parts =~= seq![Seq::<char>::empty()]);
        assert(s.take(0) =~= Seq::<char>::empty());
    } else {
        let m = (n - 1) as nat;
        lemma_join_single_chars(s, m);
        assert(parts.drop_last() =~= seq![Seq::<char>::empty()] + Seq::new(m, |i: int| seq![s[i]]));
        assert(parts.last() == seq![s[m as int]]);
        assert(s.take(n as int) =~= s.take(m as int) + Seq::<char>::empty() + seq![s[m as int]]);
    }
}

/// Splitting a text at every occurrence of a separator and joining the pieces
/// with that separator gives the text back.
pub proof fn law_split_then_join_restores(s: Seq<char>, sep: Seq<char>)
    ensures
        join_with(split_on(s, sep, None), sep) == s,
    decreases s.len(),
{
    if sep.len() == 0 {
        let n = s.len();
        let singles = seq![Seq::<char>::empty()] + Seq::new(n, |i: int| seq![s[i]]);
        lemma_join_single_chars(s, n);
        assert(sep =~= Seq::<char>::empty());
        let parts = split_on(s, sep, None);
        assert(parts.drop_last() =~= singles);
        assert(parts.last() =~= Seq::<char>::empty());
        assert(s.take(n as int) =~= s);
        assert(join_with(parts, sep) =~= s.take(n as int) + sep + Seq::<char>::empty());
    } else {
        match occurrence_from(s, sep, 0) {
            Some(k) => {
                lemma_occurrence_bounds(s, sep, 0);
                let rest = s.skip(k + sep.len());
                law_split_then_join_restores(rest, sep);
                lemma_split_nonempty(rest, sep, None);
                lemma_join_front(s.take(k), split_on(rest, sep, None), sep);
                assert(s.subrange(k, k + sep.len()) == sep);
                assert(s =~= s.take(k) + sep + rest);
            },
            None => {
                assert(split_on(s, sep, None) == seq![s]);
            },
        }
    }
}

/// Splitting at every occurrence of a needle gives one piece more than there
/// are occurrences.
pub proof fn law_count_is_pieces_less_one(s: Seq<char>, needle: Seq<char>)
    ensures
        count_in(s, needle) + 1 == split_on(s, needle, None).len(),
    decreases s.len(),
{
    if needle.len() > 0 {
        match occurrence_from(s, needle, 0) {
            Some(k) => {
                lemma_occurrence_bounds(s, needle, 0);
                law_count_is_pieces_less_one(s.skip(k + needle.len()), needle);
            },
            None => {},
        }
    }
}

/// Replacing a text by itself changes nothing.
pub proof fn law_replace_by_itself_changes_nothing(s: Seq<char>, old: Seq<char>)
    ensures
        replace_all(s, old, old) == s,
    decreases s.len(),
{
    if old.len() == 0 {
        if s.len() > 0 {
            law_replace_by_itself_changes_nothing(s.drop_first(), old);
            assert(s =~= old + seq![s[0]] + s.drop_first());
        }
    } else {
        match occurrence_from(s, old, 0) {
            Some(k) => {
                lemma_occurrence_bounds(s, old, 0);
                law_replace_by_itself_changes_nothing(s.skip(k + old.len()), old);
                assert(s.subrange(k, k + old.len()) == old);
                assert(s =~= s.take(k) + old + s.skip(k + old.len()));
            },
            None => {},
        }
    }
}

// ------------------------------------------------------------------
// Host replies
// ------------------------------------------------------------------

/// The block height in a block reply: its `result.header.height` member when
/// that is a non-negative integer (as an `i64`, wrapping like `as`), else 0.
pub open spec fn block_height_of(reply: JsonValue) -> i64 {
    let height = match json_get(reply, "result"@) {
        Some(result) => match json_get(result, "header"@) {
            Some(header) => match json_get(header, "height"@) {
                Some(h) => json_as_u64(h),
                None => None,
            },
            None => None,
        },
        None => None,
    };
    match height {
        Some(n) => n as i64,
        None => 0,
    }
}

/// The block height that `near.block_height()` reads from a block reply.
pub fn block_height(reply: &JsonValue) -> (r: i64)
    ensures
        r == block_height_of(*reply),
{
    let height: Option<u64> = match reply.get("result") {
        Some(result) => match result.get("header") {
            Some(header) => match header.get("height") {
                Some(h) => h.as_u64(),
                None => None,
            },
            None => None,
        },
        None => None,
    };
    match height {
        Some(n) => n as i64,
        None => 0,
    }
}

} // verus!
