use near_python::scan::{
    find_at_depth0, find_colon, find_matching_bracket, find_matching_paren, split_args,
};
use near_python::text::{byte_offset, chars_of};

fn cs(text: &str) -> Vec<char> {
    chars_of(text)
}

fn find(s: &str, needles: &[&str], from_right: bool) -> Option<(usize, usize)> {
    let hay = cs(s);
    let owned: Vec<Vec<char>> = needles.iter().map(|n| cs(n)).collect();
    let refs: Vec<&[char]> = owned.iter().map(|n| n.as_slice()).collect();
    find_at_depth0(&hay, &refs, from_right)
}

fn pieces(s: &str) -> Vec<String> {
    let hay = cs(s);
    split_args(&hay).iter().map(|p| p.iter().collect()).collect()
}

#[test]
fn depth0_search_from_the_right() {
    assert_eq!(find("a + b - c", &["+", "-"], true), Some((6, 1)));
    assert_eq!(find("a + b - c", &["+", "-"], false), Some((2, 1)));
}

#[test]
fn depth0_search_skips_brackets_and_strings() {
    assert_eq!(find("f(a + b)", &["+"], false), None);
    assert_eq!(find("[1, 2] + x", &["+"], false), Some((7, 1)));
    assert_eq!(find("\"a + b\" + c", &["+"], false), Some((8, 1)));
    assert_eq!(find("'it\\'s + ok' + c", &["+"], true), Some((13, 1)));
}

#[test]
fn depth0_search_reports_the_needle_length() {
    assert_eq!(find("a or b or c", &[" or "], true), Some((6, 4)));
    assert_eq!(find("a >= b", &["==", "!=", ">="], false), Some((2, 2)));
    assert_eq!(find("", &["+"], false), None);
}

#[test]
fn word_needles_need_word_boundaries() {
    assert_eq!(find("xor y", &["or"], false), None);
    assert_eq!(find("a or b", &["or"], false), Some((2, 2)));
    assert_eq!(find("or_x", &["or"], false), None);
    assert_eq!(find("x or", &["or"], false), Some((2, 2)));
}

#[test]
fn arguments_split_at_top_level_commas() {
    assert_eq!(pieces("1, 2, 3"), vec!["1", "2", "3"]);
    assert_eq!(pieces("f(a, b), [c, d], \"e, f\""), vec!["f(a, b)", "[c, d]", "\"e, f\""]);
    assert_eq!(pieces("a,"), vec!["a"]);
    assert_eq!(pieces("a, "), vec!["a", ""]);
    assert_eq!(pieces(",a"), vec!["", "a"]);
    assert!(pieces("").is_empty());
}

#[test]
fn matching_bracket_of_the_last_one() {
    assert_eq!(find_matching_bracket(&cs("xs[0]")), Some(2));
    assert_eq!(find_matching_bracket(&cs("m[\"a\"][i[1]]")), Some(6));
    assert_eq!(find_matching_bracket(&cs("xs[0")), None);
    assert_eq!(find_matching_bracket(&cs("0]")), None);
    assert_eq!(find_matching_bracket(&cs("a[\"]\"]")), Some(1));
}

#[test]
fn matching_paren_of_the_last_one() {
    assert_eq!(find_matching_paren(&cs("f(g(x), y)")), Some(1));
    assert_eq!(find_matching_paren(&cs("f(\")\")")), Some(1));
    assert_eq!(find_matching_paren(&cs("f(x")), None);
    assert_eq!(find_matching_paren(&cs("(a)(b)")), Some(3));
}

#[test]
fn first_top_level_colon() {
    assert_eq!(find_colon(&cs("\"a\": 1")), Some(3));
    assert_eq!(find_colon(&cs("\"a:b\": {\"c\": 1}")), Some(5));
    assert_eq!(find_colon(&cs("x[1:2]")), None);
    assert_eq!(find_colon(&cs("abc")), None);
}

#[test]
fn positions_are_characters_and_map_to_byte_offsets() {
    let s = cs("é + 1");
    assert_eq!(find("é + 1", &["+"], false), Some((2, 1)));
    assert_eq!(byte_offset(&s, 2), 3);
    assert_eq!(byte_offset(&s, 2), "é + 1".find('+').unwrap());
    assert_eq!(find("\"a+b\" + c", &["+"], false), Some((6, 1)));
    assert_eq!(byte_offset(&cs("\"a+b\" + c"), 6), 6);
}
