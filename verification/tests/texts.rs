use notion_fs::dict::Dict;
use notion_fs::path::{join, parent, path_parts};
use notion_fs::text::{push_decimal, same_text, stands_before};

#[test]
fn texts_are_compared_by_their_characters() {
    assert!(same_text("été", "été"));
    assert!(!same_text("ab", "abc"));
    assert!(!same_text("abc", "ab"));
    assert!(same_text("", ""));
}

#[test]
fn texts_are_ordered_as_strings_are() {
    let words = ["", "-a", ".refresh", "A", "GB-10.md", "GB-9.md", "a", "a-b", "ab", "é", "日本"];
    for a in words {
        for b in words {
            assert_eq!(stands_before(a, b), a < b, "{} {}", a, b);
        }
    }
}

#[test]
fn decimal_numbers_are_appended() {
    for n in [0, 7, 10, 319, 1_000_000, u64::MAX] {
        let mut text = "n=".to_string();
        push_decimal(&mut text, n);
        assert_eq!(text, format!("n={}", n));
    }
}

#[test]
fn paths_split_into_names() {
    assert!(path_parts("/").is_empty());
    assert!(path_parts("").is_empty());
    assert_eq!(path_parts("/genbook"), vec!["genbook"]);
    assert_eq!(
        path_parts("/genbook/alice/in-progress/GB-319.md"),
        vec!["genbook", "alice", "in-progress", "GB-319.md"]
    );
    assert_eq!(path_parts("/a//b/"), vec!["a", "b"]);
    assert_eq!(path_parts("/a/./b/../c"), vec!["a", "b", "c"]);
    assert_eq!(path_parts("/a/.refresh"), vec!["a", ".refresh"]);
}

#[test]
fn paths_join_as_std_paths_do() {
    let parents = ["", "/", "/a", "/a/", "/a/b"];
    let children = ["", "x", ".refresh", "..", "/abs", "x/y"];
    for p in parents {
        for c in children {
            let expected = std::path::PathBuf::from(p).join(c);
            assert_eq!(join(p, c), expected.to_str().unwrap(), "{} {}", p, c);
        }
    }
}

#[test]
fn parents_are_those_of_std_paths() {
    for p in ["", "/", "/.", "/a", "/a/", "/a/b", "/a/b/.", "/a//b", "a", "a/b", "/a/.."] {
        let path = std::path::PathBuf::from(p);
        let expected = path.parent().unwrap_or(&path).to_path_buf();
        assert_eq!(parent(p), expected.to_str().unwrap(), "{}", p);
    }
}

#[test]
fn names_along_a_path_are_those_of_std_paths() {
    for p in ["", "/", "/a", "/a/b/", "/a//b", "/a/./b", "/a/../b", "./a", "../a", "/a/.b/..c"] {
        let path = std::path::PathBuf::from(p);
        let mut expected: Vec<String> = Vec::new();
        for c in path.components() {
            if let std::path::Component::Normal(s) = c {
                expected.push(s.to_str().unwrap().to_string());
            }
        }
        assert_eq!(path_parts(p), expected, "{}", p);
    }
}

#[test]
fn parent_undoes_join() {
    assert_eq!(parent(&join("/", "genbook")), "/");
    assert_eq!(parent(&join("/genbook", "alice")), "/genbook");
    assert_eq!(path_parts(&join("/genbook", "alice")), vec!["genbook", "alice"]);
}

#[test]
fn dictionary_keeps_the_order_of_its_keys() {
    let mut dict: Dict<String> = Dict::new();
    assert_eq!(dict.len(), 0);
    dict.insert("b".to_string(), "1".to_string());
    dict.insert("a".to_string(), "2".to_string());
    dict.insert("b".to_string(), "3".to_string());
    assert_eq!(dict.len(), 2);
    assert_eq!(dict.key_at(0), "b");
    assert_eq!(dict.value_at(0), "3");
    assert_eq!(dict.key_at(1), "a");
    assert_eq!(dict.get("a").unwrap(), "2");
    assert!(dict.get("c").is_none());
    assert!(dict.contains_key("b"));
    assert!(!dict.contains_key(""));
    assert_eq!(dict.position("a"), Some(1));
}

#[test]
fn dictionary_exchanges_values() {
    let mut dict: Dict<String> = Dict::new();
    dict.insert("a".to_string(), "1".to_string());
    assert_eq!(dict.exchange("a", "2".to_string()), Some("1".to_string()));
    assert_eq!(dict.get("a").unwrap(), "2");
    assert_eq!(dict.exchange("b", "3".to_string()), None);
    assert!(!dict.contains_key("b"));
    dict.insert("b".to_string(), "4".to_string());
    dict.exchange("a", "5".to_string());
    assert_eq!((dict.key_at(0).as_str(), dict.value_at(0).as_str()), ("a", "5"));
    assert_eq!((dict.key_at(1).as_str(), dict.value_at(1).as_str()), ("b", "4"));
}
