use dust::data::{same_keys, Data, DataError};
use dust::json::JsonValue;

fn lines(texts: &[&str]) -> Vec<String> {
    texts.iter().map(|t| String::from(*t)).collect()
}

fn strings(texts: &[&str]) -> Vec<String> {
    lines(texts)
}

fn blake3_of(parts: &[&str]) -> String {
    let mut hasher = blake3::Hasher::new();
    for part in parts {
        hasher.update(part.as_bytes());
    }
    format!("{}", hasher.finalize().to_hex())
}

fn failure(id: &str, texts: &[&str]) -> DataError {
    match Data::new_from_jsonl(id, &lines(texts)) {
        Err(e) => e,
        Ok(_) => panic!("the lines were taken"),
    }
}

#[test]
fn dataset_of_two_records() {
    let d = Data::new_from_jsonl("train", &lines(&["{\"x\":1}", "{\"x\":2}"])).ok().unwrap();
    assert_eq!(d.len(), 2);
    assert_eq!(d.id(), "train");
    assert_eq!(d.keys(), &strings(&["x"]));
    assert_eq!(d.hash(), &blake3_of(&["{\"x\":1}", "{\"x\":2}"]));
    let records: Vec<&JsonValue> = d.iter().collect();
    assert_eq!(records.len(), 2);
    assert!(matches!(records[0].get("x"), Some(JsonValue::Number(n)) if n == "1"));
    assert!(matches!(records[1].get("x"), Some(JsonValue::Number(n)) if n == "2"));
}

#[test]
fn dataset_hash_is_over_the_compact_text() {
    let spaced = Data::new_from_jsonl("a", &lines(&[" { \"b\" : [1, 2] , \"a\" : \"s\" } "])).ok().unwrap();
    let compact = Data::new_from_jsonl("b", &lines(&["{\"a\":\"s\",\"b\":[1,2]}"])).ok().unwrap();
    assert_eq!(spaced.hash(), compact.hash());
    assert_eq!(spaced.hash(), &blake3_of(&["{\"a\":\"s\",\"b\":[1,2]}"]));
    assert_eq!(spaced.hash().len(), 64);
}

#[test]
fn dataset_with_one_record() {
    let d = Data::new_from_jsonl("one", &lines(&["{\"q\":\"x\",\"a\":null}"])).ok().unwrap();
    assert_eq!(d.len(), 1);
    assert_eq!(d.iter().count(), 1);
    assert!(same_keys(d.keys(), &strings(&["q", "a"])));
}

#[test]
fn registering_the_same_lines_twice_gives_the_same_hash() {
    let texts = ["{\"x\":1,\"y\":[true]}", "{\"y\":[],\"x\":2}"];
    let first = Data::new_from_jsonl("d", &lines(&texts)).ok().unwrap();
    let second = Data::new_from_jsonl("d", &lines(&texts)).ok().unwrap();
    let renamed = Data::new_from_jsonl("e", &lines(&texts)).ok().unwrap();
    assert_eq!(first.hash(), second.hash());
    assert_eq!(first.hash(), renamed.hash());
    assert_eq!(first.register().jsonl, second.register().jsonl);
    let other = Data::new_from_jsonl("d", &lines(&["{\"x\":1,\"y\":[true]}"])).ok().unwrap();
    assert_ne!(first.hash(), other.hash());
}

#[test]
fn empty_dataset_is_rejected() {
    assert!(matches!(failure("d", &[]), DataError::Empty));
}

#[test]
fn line_that_is_no_json_is_rejected() {
    assert!(matches!(failure("d", &["{\"x\":1}", "{\"x\":"]), DataError::Json { line: 1, .. }));
    assert!(matches!(failure("d", &[""]), DataError::Json { line: 0, .. }));
    match failure("d", &["{\"x\":1}", "{\"x\":2}", "nope"]) {
        DataError::Json { line, message } => {
            assert_eq!(line, 2);
            assert!(!message.is_empty());
        }
        _ => panic!("another error"),
    }
}

#[test]
fn line_that_is_no_object_is_rejected() {
    assert!(matches!(failure("d", &["[1,2]"]), DataError::NotAnObject { line: 0 }));
    assert!(matches!(failure("d", &["{\"x\":1}", "3"]), DataError::NotAnObject { line: 1 }));
    assert!(matches!(failure("d", &["{\"x\":1}", "null"]), DataError::NotAnObject { line: 1 }));
}

#[test]
fn line_with_other_keys_is_rejected() {
    assert!(matches!(failure("d", &["{\"x\":1}", "{\"y\":1}"]), DataError::KeysMismatch { line: 1 }));
    assert!(matches!(failure("d", &["{\"x\":1}", "{\"x\":1,\"y\":1}"]), DataError::KeysMismatch { line: 1 }));
    assert!(matches!(failure("d", &["{\"x\":1,\"y\":1}", "{\"x\":1}"]), DataError::KeysMismatch { line: 1 }));
    assert!(matches!(
        failure("d", &["{\"x\":1}", "{\"x\":2}", "{}"]),
        DataError::KeysMismatch { line: 2 }
    ));
}

#[test]
fn keys_may_come_in_any_order() {
    let d = Data::new_from_jsonl("d", &lines(&["{\"a\":1,\"b\":2}", "{\"b\":3,\"a\":4}"])).ok().unwrap();
    assert_eq!(d.len(), 2);
}

#[test]
fn first_bad_line_decides() {
    assert!(matches!(failure("d", &["{\"x\":1}", "[]", "{"]), DataError::NotAnObject { line: 1 }));
    assert!(matches!(failure("d", &["{\"x\":1}", "{", "[]"]), DataError::Json { line: 1, .. }));
    assert!(matches!(failure("d", &["{\"x\":1}", "{\"y\":1}", "{"]), DataError::KeysMismatch { line: 1 }));
    assert!(matches!(failure("d", &["7", "{\"y\":1}"]), DataError::NotAnObject { line: 0 }));
}

#[test]
fn objects_without_keys_make_a_dataset() {
    let d = Data::new_from_jsonl("d", &lines(&["{}", "{}"])).ok().unwrap();
    assert_eq!(d.len(), 2);
    assert!(d.keys().is_empty());
    assert_eq!(d.hash(), &blake3_of(&["{}{}"]));
}

#[test]
fn same_keys_compares_sets() {
    assert!(same_keys(&strings(&["a", "b"]), &strings(&["b", "a"])));
    assert!(same_keys(&strings(&["a", "a", "b"]), &strings(&["b", "a"])));
    assert!(same_keys(&strings(&[]), &strings(&[])));
    assert!(!same_keys(&strings(&["a"]), &strings(&["a", "b"])));
    assert!(!same_keys(&strings(&["a", "b"]), &strings(&["a"])));
    assert!(!same_keys(&strings(&["a"]), &strings(&["b"])));
    assert!(!same_keys(&strings(&[]), &strings(&["b"])));
}

#[test]
fn new_from_hash_takes_the_records_of_that_hash() {
    let texts = ["{\"x\":1}", "{\"x\":2}"];
    let hash = blake3_of(&texts);
    let d = Data::new_from_hash("train", &hash, &lines(&texts)).ok().unwrap();
    assert_eq!(d.hash(), &hash);
    assert_eq!(d.len(), 2);
}

#[test]
fn new_from_hash_refuses_other_records() {
    let texts = ["{\"x\":1}", "{\"x\":2}"];
    let wrong = blake3_of(&["{\"x\":1}"]);
    match Data::new_from_hash("train", &wrong, &lines(&texts)) {
        Err(DataError::HashMismatch { expected, found }) => {
            assert_eq!(expected, wrong);
            assert_eq!(found, blake3_of(&texts));
        }
        _ => panic!("the records were taken under another hash"),
    }
    assert!(matches!(Data::new_from_hash("train", &wrong, &lines(&["{"])), Err(DataError::Json { line: 0, .. })));
    assert!(matches!(Data::new_from_hash("train", &wrong, &lines(&[])), Err(DataError::Empty)));
}

#[test]
fn paths_below_the_project_root() {
    let p = Data::data_path("train");
    assert_eq!(p.components, strings(&[".data", "train"]));
    assert!(p.extension.is_none());
    let p = Data::latest_path("train");
    assert_eq!(p.components, strings(&[".data", "train", "latest"]));
    assert!(p.extension.is_none());
    let p = Data::jsonl_path("train", "abc123");
    assert_eq!(p.components, strings(&[".data", "train", "abc123"]));
    assert_eq!(p.extension, Some(String::from("jsonl")));
}

#[test]
fn register_writes_one_record_a_line() {
    let d = Data::new_from_jsonl("train", &lines(&[" {\"x\": 1}", "{\"x\":\t2} "])).ok().unwrap();
    let r = d.register();
    assert_eq!(r.jsonl, "{\"x\":1}\n{\"x\":2}\n");
    assert_eq!(&r.latest, d.hash());
    assert_eq!(r.directory.components, strings(&[".data", "train"]));
    assert!(r.directory.extension.is_none());
    assert_eq!(r.jsonl_path.components, vec![String::from(".data"), String::from("train"), d.hash().clone()]);
    assert_eq!(r.jsonl_path.extension, Some(String::from("jsonl")));
    assert_eq!(r.latest_path.components, strings(&[".data", "train", "latest"]));
}

#[test]
fn registered_lines_load_to_the_same_dataset() {
    let d = Data::new_from_jsonl("train", &lines(&["{\"b\": [1.5, \"é\"], \"a\": {\"k\": null}}", "{\"a\":1,\"b\":2}"])).ok().unwrap();
    let r = d.register();
    let stored: Vec<String> = r.jsonl.lines().map(String::from).collect();
    let again = Data::new_from_hash("train", &r.latest, &stored).ok().unwrap();
    assert_eq!(again.hash(), d.hash());
    assert_eq!(again.len(), d.len());
    assert_eq!(again.register().jsonl, r.jsonl);
}

#[test]
fn data_as_value_is_the_array_of_records() {
    let d = Data::new_from_jsonl("train", &lines(&["{\"x\":1}", "{\"x\":2}"])).ok().unwrap();
    match d.data_as_value() {
        JsonValue::Array(items) => {
            assert_eq!(items.len(), 2);
            assert!(matches!(items[0].get("x"), Some(JsonValue::Number(n)) if n == "1"));
            assert!(matches!(items[1].get("x"), Some(JsonValue::Number(n)) if n == "2"));
        }
        _ => panic!("not an array"),
    }
}
