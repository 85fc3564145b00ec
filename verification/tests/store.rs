use todo::store::StoreError;
use todo::store::Todo;
use todo::Status;

fn status(t: &Todo, k: &str) -> Option<Status> {
    t.status_of(&k.to_string())
}

#[test]
fn new_store_is_empty() {
    let t = Todo::new();
    assert_eq!(t.len(), 0);
}

#[test]
fn add_then_save_then_reload() {
    let mut t = Todo::new();
    t.insert("Buy milk".to_string());
    let text = t.to_json();
    let r = Todo::from_json(&text).unwrap();
    assert_eq!(r.len(), 1);
    assert_eq!(status(&r, "Buy milk"), Some(Status::Pending));
}

#[test]
fn complete_then_save_then_reload() {
    let mut t = Todo::new();
    t.insert("Buy milk".to_string());
    assert_eq!(t.complete(&"Buy milk".to_string()), Some(()));
    let text = t.to_json();
    let r = Todo::from_json(&text).unwrap();
    assert_eq!(r.len(), 1);
    assert_eq!(status(&r, "Buy milk"), Some(Status::Completed));
}

#[test]
fn complete_absent_reports_not_found() {
    let mut t = Todo::new();
    assert_eq!(t.complete(&"Buy milk".to_string()), None);
    assert_eq!(t.len(), 0);
    assert_eq!(status(&t, "Buy milk"), None);
}

#[test]
fn insert_overwrites_and_leaves_others() {
    let mut t = Todo::new();
    t.insert("A".to_string());
    t.insert("B".to_string());
    assert_eq!(t.complete(&"B".to_string()), Some(()));
    t.insert("A".to_string());
    assert_eq!(t.len(), 2);
    assert_eq!(status(&t, "A"), Some(Status::Pending));
    assert_eq!(status(&t, "B"), Some(Status::Completed));
}

#[test]
fn insert_twice_leaves_one_pending_entry() {
    let mut t = Todo::new();
    t.insert("x".to_string());
    assert_eq!(t.complete(&"x".to_string()), Some(()));
    t.insert("x".to_string());
    assert_eq!(t.len(), 1);
    assert_eq!(status(&t, "x"), Some(Status::Pending));
}

#[test]
fn complete_succeeds_whatever_the_prior_flag() {
    let mut t = Todo::new();
    t.insert("x".to_string());
    assert_eq!(t.complete(&"x".to_string()), Some(()));
    assert_eq!(t.complete(&"x".to_string()), Some(()));
    assert_eq!(status(&t, "x"), Some(Status::Completed));
}

#[test]
fn load_empty_text_yields_empty_store() {
    let t = Todo::from_json("").unwrap();
    assert_eq!(t.len(), 0);
}

#[test]
fn load_whitespace_text_yields_empty_store() {
    let t = Todo::from_json(" \n\t\r ").unwrap();
    assert_eq!(t.len(), 0);
}

#[test]
fn load_empty_object() {
    let t = Todo::from_json("{}").unwrap();
    assert_eq!(t.len(), 0);
    let t2 = Todo::from_json("  {\n}  ").unwrap();
    assert_eq!(t2.len(), 0);
}

#[test]
fn load_twice_yields_identical_mappings() {
    let text = "{\"a\": true, \"b\": false}";
    let t1 = Todo::from_json(text).unwrap();
    let t2 = Todo::from_json(text).unwrap();
    assert_eq!(t1.len(), t2.len());
    assert_eq!(status(&t1, "a"), status(&t2, "a"));
    assert_eq!(status(&t1, "b"), status(&t2, "b"));
}

#[test]
fn load_handwritten_object() {
    let t = Todo::from_json("{ \"a\" : true , \"b\" : false }").unwrap();
    assert_eq!(t.len(), 2);
    assert_eq!(status(&t, "a"), Some(Status::Pending));
    assert_eq!(status(&t, "b"), Some(Status::Completed));
}

#[test]
fn load_key_with_escapes() {
    let t = Todo::from_json("{\"a\\n\\\"b\\\\c\\td\\re\": true}").unwrap();
    assert_eq!(t.len(), 1);
    assert_eq!(status(&t, "a\n\"b\\c\td\re"), Some(Status::Pending));
}

#[test]
fn load_solidus_backspace_formfeed_escapes() {
    let t = Todo::from_json("{\"a\\/b\\bc\\fd\": true}").unwrap();
    assert_eq!(t.len(), 1);
    assert_eq!(status(&t, "a/b\u{0008}c\u{000C}d"), Some(Status::Pending));
}

#[test]
fn rendered_backspace_and_formfeed_are_escaped() {
    let mut t = Todo::new();
    t.insert("a\u{0008}b\u{000C}c".to_string());
    assert_eq!(t.to_json(), "{\n  \"a\\bb\\fc\": true\n}");
}

#[test]
fn load_duplicate_keys_last_wins() {
    let t = Todo::from_json("{\"a\": true, \"a\": false}").unwrap();
    assert_eq!(t.len(), 1);
    assert_eq!(status(&t, "a"), Some(Status::Completed));
}

#[test]
fn rendered_text_is_exact() {
    let mut t = Todo::new();
    t.insert("Buy milk".to_string());
    assert_eq!(t.to_json(), "{\n  \"Buy milk\": true\n}");
    let empty = Todo::new();
    assert_eq!(empty.to_json(), "{}");
}

#[test]
fn round_trip_awkward_keys() {
    let keys = [
        "plain",
        "with space",
        "quote\"inside",
        "back\\slash",
        "line\nbreak",
        "tab\there",
        "carriage\rreturn",
        "back\u{0008}space",
        "form\u{000C}feed",
        "soli/dus",
        "héllo ☃ 日本語",
        "",
    ];
    let mut t = Todo::new();
    for k in keys.iter() {
        t.insert(k.to_string());
    }
    assert_eq!(t.complete(&"with space".to_string()), Some(()));
    assert_eq!(t.complete(&"héllo ☃ 日本語".to_string()), Some(()));
    let text = t.to_json();
    let r = Todo::from_json(&text).unwrap();
    assert_eq!(r.len(), keys.len());
    for k in keys.iter() {
        assert_eq!(status(&r, k), status(&t, k));
    }
    assert_eq!(status(&r, "with space"), Some(Status::Completed));
    assert_eq!(status(&r, "plain"), Some(Status::Pending));
}

#[test]
fn corrupt_inputs_are_reported() {
    let bad = [
        "{",
        "}",
        "[]",
        "null",
        "x",
        "{\"a\"}",
        "{\"a\":}",
        "{\"a\" true}",
        "{\"a\": maybe}",
        "{\"a\": truex}",
        "{\"a\": true,}",
        "{\"a\": true",
        "{\"a\": true} x",
        "{\"a\\q\": true}",
        "{\"a: true}",
        "{,}",
        "{{}}",
    ];
    for text in bad.iter() {
        match Todo::from_json(text) {
            Err(StoreError::CorruptStore) => {},
            Ok(_) => panic!("accepted corrupt input: {}", text),
        }
    }
}
