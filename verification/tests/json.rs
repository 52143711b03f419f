use dust::json::{read, JsonValue, Member};

fn text(s: &str) -> String {
    String::from(s)
}

#[test]
fn read_gives_the_tree() {
    let reading = read("{\"b\": 1, \"a\": [true, null, \"x\", 1.5, -2]}").unwrap();
    match reading.value() {
        JsonValue::Object(members) => {
            assert_eq!(members.len(), 2);
            assert_eq!(members[0].key, "a");
            assert_eq!(members[1].key, "b");
            match &members[0].value {
                JsonValue::Array(items) => {
                    assert_eq!(items.len(), 5);
                    assert!(matches!(items[0], JsonValue::Bool(true)));
                    assert!(matches!(items[1], JsonValue::Null));
                    assert!(matches!(&items[2], JsonValue::String(s) if s == "x"));
                    assert!(matches!(&items[3], JsonValue::Number(n) if n == "1.5"));
                    assert!(matches!(&items[4], JsonValue::Number(n) if n == "-2"));
                }
                _ => panic!("not an array"),
            }
            assert!(matches!(&members[1].value, JsonValue::Number(n) if n == "1"));
        }
        _ => panic!("not an object"),
    }
}

#[test]
fn write_gives_compact_text_with_sorted_keys() {
    let reading = read(" { \"b\" : 1 ,\n \"a\" : [ true , null ] } ").unwrap();
    assert_eq!(reading.write().unwrap(), "{\"a\":[true,null],\"b\":1}");
}

#[test]
fn write_is_what_serde_json_writes() {
    let line = "{\"name\": \"caf\\u00e9\", \"n\": 1e2, \"nested\": {\"z\": [], \"y\": {}}}";
    let value: serde_json::Value = serde_json::from_str(line).unwrap();
    assert_eq!(read(line).unwrap().write().unwrap(), serde_json::to_string(&value).unwrap());
}

#[test]
fn read_refuses_what_is_no_json() {
    assert!(read("").is_err());
    assert!(read("{").is_err());
    assert!(read("{\"a\":1} trailing").is_err());
    assert!(read("{'a':1}").is_err());
}

#[test]
fn keys_of_an_object() {
    let value = read("{\"y\":1,\"x\":2}").unwrap().into_value();
    assert_eq!(value.keys(), Some(vec![text("x"), text("y")]));
    assert!(value.is_object());
    assert_eq!(read("[1]").unwrap().into_value().keys(), None);
    assert!(!read("1").unwrap().into_value().is_object());
}

#[test]
fn get_finds_the_first_member() {
    let value = JsonValue::Object(vec![
        Member { key: text("a"), value: JsonValue::Bool(true) },
        Member { key: text("b"), value: JsonValue::Null },
        Member { key: text("a"), value: JsonValue::Bool(false) },
    ]);
    assert!(matches!(value.get("a"), Some(JsonValue::Bool(true))));
    assert!(matches!(value.get("b"), Some(JsonValue::Null)));
    assert!(value.get("c").is_none());
    assert!(JsonValue::Null.get("a").is_none());
}

#[test]
fn as_bool_of_booleans_only() {
    assert_eq!(JsonValue::Bool(true).as_bool(), Some(true));
    assert_eq!(JsonValue::Bool(false).as_bool(), Some(false));
    assert_eq!(JsonValue::Null.as_bool(), None);
    assert_eq!(JsonValue::String(text("true")).as_bool(), None);
}

#[test]
fn clone_is_deep() {
    let value = read("{\"a\":[1,{\"b\":[null,\"s\"]}],\"c\":false}").unwrap().into_value();
    let copy = value.clone();
    match (&value, &copy) {
        (JsonValue::Object(a), JsonValue::Object(b)) => {
            assert_eq!(a.len(), b.len());
            assert_eq!(a[0].key, b[0].key);
            match (&a[0].value, &b[0].value) {
                (JsonValue::Array(x), JsonValue::Array(y)) => {
                    assert_eq!(x.len(), 2);
                    assert_eq!(y.len(), 2);
                    assert!(matches!(&y[0], JsonValue::Number(n) if n == "1"));
                    assert_eq!(y[1].keys(), Some(vec![text("b")]));
                }
                _ => panic!("not arrays"),
            }
            assert!(matches!(b[1].value, JsonValue::Bool(false)));
        }
        _ => panic!("not objects"),
    }
}
