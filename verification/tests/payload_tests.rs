use gitdis::datum::{normalize, Datum};
use gitdis::payload::{
    flatten, is_valid_file, parse_value, to_value, value_to_mapper, Ref, RefType,
};

const NESTED: &str = r#"
            {
                "key1": {
                    "key2": {
                        "key3": {
                            "key4": {
                                "key5": {
                                    "key6": {
                                        "key7": "hello"
                                    }
                                }
                            }
                        }
                    }
                }
            }
            "#;

const LISTED: &str = r#"
            {
                "key1": {
                    "key2": {
                        "key3": ["hello", "world"]
                    }
                }
            }
            "#;

fn text(s: &str) -> Datum {
    Datum::String(s.to_string())
}

fn number(s: &str) -> Datum {
    Datum::Number(s.to_string())
}

fn object(members: Vec<(&str, Datum)>) -> Datum {
    Datum::Object(members.into_iter().map(|(k, v)| (k.to_string(), v)).collect())
}

#[test]
fn test_value_to_mapper_object() {
    let value = parse_value("doc.json", NESTED);

    let refer = value_to_mapper(value).1;

    assert_eq!(
        refer.get("key1.key2.key3.key4.key5.key6").unwrap(),
        &Ref {
            ref_type: RefType::Object,
            items: vec!["key1.key2.key3.key4.key5.key6.key7".to_string()]
        }
    );
}

#[test]
fn test_value_to_mapper_object_value() {
    let value = parse_value("doc.json", NESTED);

    let mapper = value_to_mapper(value).0;

    assert_eq!(
        mapper
            .get("key1.key2.key3.key4.key5.key6.key7")
            .unwrap()
            .as_string(),
        "hello"
    );
}

#[test]
fn test_value_to_mapper_list() {
    let value = parse_value("doc.json", LISTED);

    let refs = value_to_mapper(value).1;

    assert_eq!(
        refs.get("key1.key2.key3").unwrap(),
        &Ref {
            ref_type: RefType::Array,
            items: vec![
                "key1.key2.key3.0".to_string(),
                "key1.key2.key3.1".to_string()
            ]
        }
    );
}

#[test]
fn test_value_to_mapper_list_item() {
    let value = parse_value("doc.json", LISTED);

    let mapper = value_to_mapper(value).0;

    assert_eq!(mapper.get("key1.key2.key3.1").unwrap().as_string(), "world");
}

#[test]
fn flatten_object() {
    let value = parse_value("doc.json", r#"{"a":{"b":{"c":"hello"}}}"#);
    let (flat, refs) = flatten("doc", &value);
    assert_eq!(flat.get("doc.a.b.c"), Some(&text("hello")));
    let record = refs.get("doc.a.b").unwrap();
    assert_eq!(record.ref_type, RefType::Object);
    assert_eq!(record.items, vec!["doc.a.b.c".to_string()]);
    assert_eq!(flat.len(), 1);
    assert_eq!(refs.len(), 3);
    assert!(refs.contains_key("doc"));
    assert!(refs.contains_key("doc.a"));
}

#[test]
fn flatten_array() {
    let value = parse_value("r.json", r#"{"xs":["x","y"]}"#);
    let (flat, refs) = flatten("r", &value);
    assert_eq!(flat.get("r.xs.0"), Some(&text("x")));
    assert_eq!(flat.get("r.xs.1"), Some(&text("y")));
    assert_eq!(
        refs.get("r.xs"),
        Some(&Ref {
            ref_type: RefType::Array,
            items: vec!["r.xs.0".to_string(), "r.xs.1".to_string()]
        })
    );
}

#[test]
fn flatten_names_array_items_in_decimal() {
    let items: Vec<Datum> = (0..12).map(|i| number(&i.to_string())).collect();
    let (flat, refs) = flatten("n", &Datum::Array(items));
    assert_eq!(flat.get("n.0"), Some(&number("0")));
    assert_eq!(flat.get("n.9"), Some(&number("9")));
    assert_eq!(flat.get("n.10"), Some(&number("10")));
    assert_eq!(flat.get("n.11"), Some(&number("11")));
    let record = refs.get("n").unwrap();
    assert_eq!(record.items.len(), 12);
    assert_eq!(record.items[10], "n.10");
}

#[test]
fn flatten_leaf_stands_under_the_root_key() {
    let (flat, refs) = flatten("k", &Datum::Undefined);
    assert_eq!(flat.len(), 1);
    assert_eq!(flat.get("k"), Some(&Datum::Undefined));
    assert!(refs.is_empty());
    let (flat, refs) = value_to_mapper(Datum::Bool(true));
    assert_eq!(flat.get(""), Some(&Datum::Bool(true)));
    assert!(refs.is_empty());
}

#[test]
fn flatten_keeps_the_order_of_the_members() {
    let value = object(vec![("z", Datum::Null), ("a", Datum::Null), ("m", object(vec![]))]);
    let (flat, refs) = flatten("d", &value);
    assert_eq!(
        refs.get("d").unwrap().items,
        vec!["d.z".to_string(), "d.a".to_string(), "d.m".to_string()]
    );
    assert_eq!(flat.get("d.z"), Some(&Datum::Null));
    assert_eq!(
        refs.get("d.m"),
        Some(&Ref { ref_type: RefType::Object, items: vec![] })
    );
}

#[test]
fn flatten_is_a_function_of_its_input() {
    let value = parse_value("doc.json", LISTED);
    let first = flatten("doc", &value);
    let second = flatten("doc", &value.clone());
    assert_eq!(first.0.len(), second.0.len());
    for i in 0..first.0.len() {
        assert_eq!(first.0.path_at(i), second.0.path_at(i));
        assert_eq!(first.0.value_at(i), second.0.value_at(i));
    }
    assert_eq!(first.1.len(), second.1.len());
    for i in 0..first.1.len() {
        assert_eq!(first.1.path_at(i), second.1.path_at(i));
        assert_eq!(first.1.value_at(i), second.1.value_at(i));
    }
}

#[test]
fn every_listed_child_has_an_entry() {
    let value = parse_value(
        "doc.json",
        r#"{"a":[1,{"b":[true,null,{"c":"x"}]},[]],"d":{"e":{}},"f":"g"}"#,
    );
    let (flat, refs) = flatten("doc", &value);
    assert!(refs.len() >= 7);
    for i in 0..refs.len() {
        for child in &refs.value_at(i).items {
            assert!(flat.contains_key(child) || refs.contains_key(child), "{}", child);
        }
    }
}

#[test]
fn decoders_by_extension() {
    let json = parse_value("a/b.json", r#"{"n": 1, "t": true, "z": null, "s": "x"}"#);
    assert!(json.is_object());
    assert_eq!(json.get("n"), Some(&number("1")));
    assert_eq!(json.get("t"), Some(&Datum::Bool(true)));
    assert_eq!(json.get("z"), Some(&Datum::Null));
    assert_eq!(json.get("s"), Some(&text("x")));
    assert_eq!(json.get("absent"), None);
    let yaml = parse_value("a/b.yml", "services:\n  foo: true\n  bar: 123\n  bax: hello\n");
    let services = yaml.get("services").unwrap();
    assert_eq!(services.get("foo").unwrap().as_bool(), Some(true));
    assert_eq!(services.get("bar"), Some(&number("123")));
    assert_eq!(services.get("bax").unwrap().as_string(), "hello");
    let yaml = parse_value("a/b.yaml", "- 1\n- two\n");
    assert_eq!(yaml, Datum::Array(vec![number("1"), text("two")]));
}

#[test]
fn decoded_objects_are_in_canonical_form() {
    let json = parse_value("a.json", r#"{"z": 1, "a": {"y": [{"d": 0, "c": 0}], "b": 2}, "m": "x"}"#);
    assert_eq!(
        json,
        object(vec![
            (
                "a",
                object(vec![
                    ("b", number("2")),
                    ("y", Datum::Array(vec![object(vec![("c", number("0")), ("d", number("0"))])])),
                ])
            ),
            ("m", text("x")),
            ("z", number("1")),
        ])
    );
    let yaml = parse_value("a.yaml", "z: 1\nb: two\na: [true]\n");
    assert_eq!(
        yaml,
        object(vec![
            ("a", Datum::Array(vec![Datum::Bool(true)])),
            ("b", text("two")),
            ("z", number("1")),
        ])
    );
    for _ in 0..20 {
        assert_eq!(parse_value("a.yaml", "z: 1\nb: two\na: [true]\n"), yaml);
    }
}

#[test]
fn canonical_form_of_a_value() {
    let value = object(vec![
        ("b", number("1")),
        ("a", Datum::Array(vec![object(vec![("y", Datum::Null), ("x", Datum::Null)])])),
        ("b", number("2")),
    ]);
    assert_eq!(
        normalize(&value),
        object(vec![
            ("a", Datum::Array(vec![object(vec![("x", Datum::Null), ("y", Datum::Null)])])),
            ("b", number("2")),
        ])
    );
    assert_eq!(normalize(&Datum::Undefined), Datum::Undefined);
    assert_eq!(normalize(&text("x")), text("x"));
}

#[test]
fn decode_errors_give_undefined() {
    assert_eq!(parse_value("a.json", "{not json"), Datum::Undefined);
    assert_eq!(parse_value("a.yml", "a: [1, 2"), Datum::Undefined);
    assert_eq!(parse_value("a.xml", "<a/>"), Datum::Undefined);
    assert_eq!(parse_value("a.txt", "{}"), Datum::Undefined);
    assert_eq!(parse_value("json", "{}"), Datum::Undefined);
}

#[test]
fn valid_files_by_extension() {
    assert!(is_valid_file("a.json"));
    assert!(is_valid_file("dir/a.yml"));
    assert!(is_valid_file("dir/a.yaml"));
    assert!(is_valid_file("a.xml"));
    assert!(is_valid_file(".json"));
    assert!(!is_valid_file("a.txt"));
    assert!(!is_valid_file("a.json.bak"));
    assert!(!is_valid_file("json"));
    assert!(!is_valid_file(""));
    assert!(!is_valid_file("a.JSON"));
}

#[test]
fn to_value_roots_the_document_at_the_key() {
    let (flat, refs) = to_value("default.settings".to_string(), "x.json", r#"{"v":1}"#);
    assert_eq!(flat.get("default.settings.v"), Some(&number("1")));
    assert_eq!(
        refs.get("default.settings"),
        Some(&Ref { ref_type: RefType::Object, items: vec!["default.settings.v".to_string()] })
    );
    let (flat, refs) = to_value("k".to_string(), "x.txt", r#"{"v":1}"#);
    assert_eq!(flat.get("k"), Some(&Datum::Undefined));
    assert_eq!(flat.len(), 1);
    assert!(refs.is_empty());
}

#[test]
fn a_reference_record_as_a_value() {
    let record = Ref {
        ref_type: RefType::Array,
        items: vec!["a.0".to_string(), "a.1".to_string()],
    };
    assert_eq!(
        record.to_value(),
        object(vec![
            ("kind", text("Array")),
            ("children", Datum::Array(vec![text("a.0"), text("a.1")])),
        ])
    );
    let record = Ref { ref_type: RefType::Object, items: vec![] };
    assert_eq!(
        record.to_value(),
        object(vec![("kind", text("Object")), ("children", Datum::Array(vec![]))])
    );
}

#[test]
fn values_compare_by_content() {
    let a = object(vec![("x", Datum::Array(vec![number("1"), Datum::Null]))]);
    let b = a.clone();
    assert_eq!(a, b);
    assert_ne!(a, object(vec![("x", Datum::Array(vec![number("1")]))]));
    assert_ne!(a, object(vec![("y", Datum::Array(vec![number("1"), Datum::Null]))]));
    assert_ne!(Datum::Null, Datum::Undefined);
    assert_ne!(text("1"), number("1"));
    assert!(Datum::Undefined.is_undefined());
    assert!(Datum::Null.is_null());
    assert!(Datum::Array(vec![]).is_array());
    assert_eq!(text("x").as_bool(), None);
    assert_eq!(text("x").as_string(), "x");
    assert_eq!(number("1").as_string(), "");
    assert_eq!(Datum::Null.as_string(), "");
    assert_eq!(object(vec![("a", text("b"))]).as_string(), "");
}

#[test]
fn the_first_member_of_a_name_is_found() {
    let value = object(vec![("a", number("1")), ("a", number("2"))]);
    assert_eq!(value.get("a"), Some(&number("1")));
    assert_eq!(text("a").get("a"), None);
}
