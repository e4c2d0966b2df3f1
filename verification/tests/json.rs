use steno::{json_string, to_json, OrderedMap};

#[test]
fn ordered_map_keeps_first_insertion_order() {
    let mut m = OrderedMap::new();
    assert!(m.is_empty());
    assert_eq!(m.insert("a".to_string(), "1".to_string()), None);
    assert_eq!(m.insert("b".to_string(), "2".to_string()), None);
    assert_eq!(m.insert("a".to_string(), "3".to_string()), Some("1".to_string()));
    assert_eq!(m.len(), 2);
    assert!(!m.is_empty());
    assert_eq!(m.get("a"), Some("3"));
    assert_eq!(m.get("b"), Some("2"));
    assert_eq!(m.get("c"), None);
    assert_eq!(m.iter(), vec![("a", "3"), ("b", "2")]);
}

#[test]
fn insert_then_get_returns_the_new_value_and_leaves_others() {
    let mut m = OrderedMap::new();
    for (k, v) in [("x", "1"), ("y", "2"), ("z", "3")] {
        m.insert(k.to_string(), v.to_string());
    }
    m.insert("y".to_string(), "20".to_string());
    assert_eq!(m.get("y"), Some("20"));
    assert_eq!(m.get("x"), Some("1"));
    assert_eq!(m.get("z"), Some("3"));
    let keys: Vec<&str> = m.iter().into_iter().map(|(k, _)| k).collect();
    assert_eq!(keys, vec!["x", "y", "z"]);
}

#[test]
fn to_json_layout() {
    let m = OrderedMap::new();
    assert_eq!(to_json(&m), "{}\n");
    let mut m = OrderedMap::new();
    m.insert("a".to_string(), "1".to_string());
    m.insert("b".to_string(), "x\"y".to_string());
    assert_eq!(to_json(&m), "{\n\"a\": \"1\",\n\"b\": \"x\\\"y\"\n}\n");
}

#[test]
fn json_string_escapes_like_stringify() {
    assert_eq!(json_string("plain"), "\"plain\"");
    assert_eq!(json_string("a\"b\\c\nd\te\r\u{1}"), "\"a\\\"b\\\\c\\nd\\te\\r\\u0001\"");
    assert_eq!(json_string("\u{1f}é"), "\"\\u001fé\"");
    assert_eq!(json_string("\u{8}\u{c}\u{b}"), "\"\\b\\f\\u000b\"");
}

#[test]
fn json_escape_of_concatenation_is_concatenation() {
    let inner = |s: &str| {
        let q = json_string(s);
        q[1..q.len() - 1].to_string()
    };
    for (a, b) in [("a\"", "\\n"), ("\t", "x"), ("", "\u{2}"), ("{#Up}", " ")] {
        let joined = format!("{}{}", a, b);
        assert_eq!(inner(&joined), format!("{}{}", inner(a), inner(b)));
    }
}
