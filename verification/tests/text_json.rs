use the_dagwood::json::{merge_json_values, Members};
use the_dagwood::text::{count_lines, decimal_string, join_words, split_words};

fn chars(s: &str) -> Vec<char> {
    s.chars().collect()
}

#[test]
fn words_split_on_whitespace() {
    let ws = split_words(&chars("  one\ttwo  three\n"));
    let ws: Vec<String> = ws.iter().map(|w| w.iter().collect()).collect();
    assert_eq!(ws, vec!["one", "two", "three"]);
    let joined: String = join_words(&vec![chars("a"), chars("b"), chars("c")], &chars(", ")).iter().collect();
    assert_eq!(joined, "a, b, c");
}

#[test]
fn lines_are_counted_like_lines() {
    assert_eq!(count_lines(&chars("")), 0);
    assert_eq!(count_lines(&chars("one")), 1);
    assert_eq!(count_lines(&chars("one\n")), 1);
    assert_eq!(count_lines(&chars("one\ntwo")), 2);
    assert_eq!(count_lines(&chars("\n\n")), 2);
}

#[test]
fn decimals() {
    assert_eq!(decimal_string(0), "0");
    assert_eq!(decimal_string(1234567), "1234567");
    assert_eq!(decimal_string(usize::MAX), usize::MAX.to_string());
}

#[test]
fn json_values_merge() {
    // Objects merge member by member, the second's members replacing the first's.
    let merged = merge_json_values(r#"{"a": 1, "list": [1]}"#, r#"{"b": 2, "list": [2]}"#, true).unwrap();
    let v: serde_json::Value = serde_json::from_str(&merged).unwrap();
    assert_eq!(v["a"], 1);
    assert_eq!(v["b"], 2);
    assert_eq!(v["list"].as_array().unwrap().len(), 1);
    assert_eq!(v["list"][0], 2);

    // Arrays are concatenated only when arrays are merged.
    let joined = merge_json_values("[1, 2]", "[3]", true).unwrap();
    let v: serde_json::Value = serde_json::from_str(&joined).unwrap();
    assert_eq!(v.as_array().unwrap().len(), 3);
    assert!(merge_json_values("[1]", "[2]", false).is_none());

    assert!(merge_json_values("[1]", "{}", true).is_none());
    assert!(merge_json_values("1", "2", true).is_none());
}

#[test]
fn members_keep_order_and_replace() {
    let mut m = Members::new();
    assert!(m.is_empty());
    m.set("x".to_string(), "1".to_string());
    m.set("y".to_string(), "2".to_string());
    m.set("x".to_string(), "3".to_string());
    assert_eq!(m.get("x"), Some(&"3".to_string()));
    assert_eq!(m.to_vec(), vec![("x".to_string(), "3".to_string()), ("y".to_string(), "2".to_string())]);
}
