use near_python::builtins::{
    block_height, count_text, find_text, insert_position, join_texts, list_position, pop_position, range_values,
    replace_text, split_text,
};
use near_python::json::{JsonNumber, JsonValue};
use near_python::storage::Storage;
use near_python::text::chars_of;

fn cs(text: &str) -> Vec<char> {
    chars_of(text)
}

fn split(s: &str, sep: &str, max: Option<usize>) -> Vec<String> {
    split_text(&cs(s), &cs(sep), max).iter().map(|p| p.iter().collect()).collect()
}

const SAMPLES: [&str; 9] = ["a,b,,c", "", ",", "abc", "a--b--", "ééé", "aaaa", "x y  z", "--"];
const SEPARATORS: [&str; 6] = [",", "", "--", "a", "aa", " "];

#[test]
fn range_of_one_argument_counts_from_zero() {
    assert_eq!(range_values(&[5]), vec![0, 1, 2, 3, 4]);
    assert!(range_values(&[0]).is_empty());
    assert!(range_values(&[-3]).is_empty());
}

#[test]
fn range_of_two_arguments() {
    assert_eq!(range_values(&[2, 6]), vec![2, 3, 4, 5]);
    assert!(range_values(&[6, 2]).is_empty());
}

#[test]
fn range_with_a_step() {
    assert_eq!(range_values(&[0, 10, 3]), vec![0, 3, 6, 9]);
    assert_eq!(range_values(&[10, 0, -4]), vec![10, 6, 2]);
    assert!(range_values(&[0, 10, 0]).is_empty());
    assert!(range_values(&[0, 10, -1]).is_empty());
}

#[test]
fn range_near_the_integer_limits_stops_in_time() {
    assert_eq!(
        range_values(&[i64::MAX - 2, i64::MAX, 5]),
        vec![i64::MAX - 2]
    );
    assert_eq!(
        range_values(&[i64::MIN + 1, i64::MIN, -7]),
        vec![i64::MIN + 1]
    );
}

#[test]
fn range_of_other_argument_counts_is_empty() {
    assert!(range_values(&[]).is_empty());
    assert!(range_values(&[1, 2, 3, 4]).is_empty());
}

#[test]
fn list_positions() {
    assert_eq!(list_position(3, 0), Some(0));
    assert_eq!(list_position(3, 2), Some(2));
    assert_eq!(list_position(3, 3), None);
    assert_eq!(list_position(3, -1), Some(2));
    assert_eq!(list_position(3, -3), Some(0));
    assert_eq!(list_position(3, -4), None);
    assert_eq!(list_position(0, 0), None);
}

#[test]
fn pop_positions() {
    assert_eq!(pop_position(4, None), Some(3));
    assert_eq!(pop_position(0, None), None);
    assert_eq!(pop_position(4, Some(1)), Some(1));
    assert_eq!(pop_position(4, Some(-1)), Some(3));
    assert_eq!(pop_position(4, Some(9)), None);
}

#[test]
fn insert_positions() {
    assert_eq!(insert_position(2, Some(0)), Some(0));
    assert_eq!(insert_position(2, Some(2)), Some(2));
    assert_eq!(insert_position(2, Some(3)), None);
    assert_eq!(insert_position(2, Some(-1)), None);
    assert_eq!(insert_position(2, None), Some(0));
}

#[test]
fn split_examples() {
    assert_eq!(split("a,b,,c", ",", None), vec!["a", "b", "", "c"]);
    assert_eq!(split("a,b,c", ",", Some(1)), vec!["a", "b,c"]);
    assert_eq!(split("abc", "", None), vec!["", "a", "b", "c", ""]);
    assert_eq!(split("abc", ",", Some(0)), vec!["abc"]);
}

#[test]
fn split_agrees_with_std() {
    for s in SAMPLES {
        for sep in SEPARATORS {
            let want: Vec<String> = s.split(sep).map(|p| p.to_string()).collect();
            assert_eq!(split(s, sep, None), want, "{:?} / {:?}", s, sep);
            for max in 0..5usize {
                let want: Vec<String> = s.splitn(max + 1, sep).map(|p| p.to_string()).collect();
                assert_eq!(split(s, sep, Some(max)), want, "{:?} / {:?} / {}", s, sep, max);
            }
        }
    }
}

#[test]
fn replace_agrees_with_std() {
    for s in SAMPLES {
        for old in SEPARATORS {
            for new in ["", "+", "xyz"] {
                let got: String = replace_text(&cs(s), &cs(old), &cs(new)).into_iter().collect();
                assert_eq!(got, s.replace(old, new), "{:?} / {:?} / {:?}", s, old, new);
            }
        }
    }
}

#[test]
fn count_agrees_with_std() {
    for s in SAMPLES {
        for needle in SEPARATORS {
            assert_eq!(
                count_text(&cs(s), &cs(needle)),
                s.matches(needle).count(),
                "{:?} / {:?}",
                s,
                needle
            );
        }
    }
}

#[test]
fn find_gives_byte_offsets_like_std() {
    for s in ["héllo wörld", "abc", "", "✓✓x", "𝄞a"] {
        for needle in ["o", "x", "", "wö", "a", "zz"] {
            assert_eq!(find_text(&cs(s), &cs(needle)), s.find(needle), "{:?} / {:?}", s, needle);
        }
    }
}

#[test]
fn join_agrees_with_std() {
    let parts = ["a", "", "bc"];
    let pieces: Vec<Vec<char>> = parts.iter().map(|p| cs(p)).collect();
    for sep in [", ", "", "-"] {
        let got: String = join_texts(&cs(sep), &pieces).into_iter().collect();
        assert_eq!(got, parts.join(sep));
    }
    let none: Vec<Vec<char>> = vec![];
    assert!(join_texts(&cs(","), &none).is_empty());
}

#[test]
fn split_then_join_gives_the_text_back() {
    for s in SAMPLES {
        for sep in SEPARATORS {
            let pieces = split_text(&cs(s), &cs(sep), None);
            let back: String = join_texts(&cs(sep), &pieces).into_iter().collect();
            assert_eq!(back, s);
        }
    }
}

#[test]
fn count_is_one_less_than_the_pieces() {
    for s in SAMPLES {
        for sep in SEPARATORS {
            assert_eq!(
                count_text(&cs(s), &cs(sep)) + 1,
                split_text(&cs(s), &cs(sep), None).len()
            );
        }
    }
}

fn member(key: &str, value: JsonValue) -> JsonValue {
    JsonValue::Object(vec![(key.to_string(), value)])
}

#[test]
fn block_height_from_a_block_reply() {
    let reply = member(
        "result",
        member("header", member("height", JsonValue::Number(JsonNumber::PosInt(123456)))),
    );
    assert_eq!(block_height(&reply), 123456);
}

#[test]
fn block_height_is_zero_when_missing_or_not_a_count() {
    assert_eq!(block_height(&JsonValue::Null), 0);
    assert_eq!(block_height(&member("result", member("header", JsonValue::Null))), 0);
    let negative = member(
        "result",
        member("header", member("height", JsonValue::Number(JsonNumber::NegInt(-4)))),
    );
    assert_eq!(block_height(&negative), 0);
    let text = member("result", member("header", member("height", JsonValue::Str("7".to_string()))));
    assert_eq!(block_height(&text), 0);
}

#[test]
fn block_height_wraps_past_the_signed_range() {
    let reply = member(
        "result",
        member("header", member("height", JsonValue::Number(JsonNumber::PosInt(u64::MAX)))),
    );
    assert_eq!(block_height(&reply), -1);
}

#[test]
fn replacing_a_text_by_itself_changes_nothing() {
    for s in SAMPLES {
        for old in SEPARATORS {
            let got: String = replace_text(&cs(s), &cs(old), &cs(old)).into_iter().collect();
            assert_eq!(got, s);
        }
    }
}

#[test]
fn storage_gives_back_the_last_value_put() {
    let mut st = Storage::new();
    assert_eq!(st.get("k"), None);
    st.put("k", "1".to_string());
    st.put("j", "2".to_string());
    assert_eq!(st.get("k"), Some(&"1".to_string()));
    st.put("k", "3".to_string());
    assert_eq!(st.get("k"), Some(&"3".to_string()));
    assert_eq!(st.get("j"), Some(&"2".to_string()));
    assert_eq!(st.get("x"), None);
}
