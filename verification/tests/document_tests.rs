use khan::document::{bson_clone, bson_eq, doc_clone, doc_eq, Bson, Document};
use khan::types::{Binary, JavaScriptCode, ObjectId, Regex};

#[test]
fn insert_appends_new_names_and_replaces_in_place() {
    let mut d = Document::new();
    d.insert("a".to_string(), Bson::Int32(1));
    d.insert("b".to_string(), Bson::Int32(2));
    assert_eq!(d.len(), 2);
    assert_eq!(d.get(&"a".to_string()), Some(&Bson::Int32(1)));

    // replacing keeps the original position
    d.insert("a".to_string(), Bson::Int32(9));
    assert_eq!(d.len(), 2);
    assert_eq!(d.entries[0].0, "a".to_string());
    assert_eq!(d.entries[0].1, Bson::Int32(9));
    assert_eq!(d.get(&"c".to_string()), None);
}

#[test]
fn deep_equality_compares_by_content() {
    let mut inner1 = Document::new();
    inner1.insert("x".to_string(), Bson::Array(vec![Bson::Int32(1), Bson::Text("s".to_string())]));
    let mut inner2 = Document::new();
    inner2.insert("x".to_string(), Bson::Array(vec![Bson::Int32(1), Bson::Text("s".to_string())]));
    assert!(doc_eq(&inner1, &inner2));
    assert!(bson_eq(&Bson::Doc(inner1), &Bson::Doc(inner2)));

    assert!(!bson_eq(&Bson::Int32(1), &Bson::Int64(1)));
    assert!(!bson_eq(&Bson::Text("a".to_string()), &Bson::Text("b".to_string())));
    assert!(bson_eq(&Bson::Oid(ObjectId(3)), &Bson::Oid(ObjectId(3))));
    assert!(bson_eq(
        &Bson::Bin(Binary { subtype: 0, bytes: vec![1, 2] }),
        &Bson::Bin(Binary { subtype: 0, bytes: vec![1, 2] })
    ));
    assert!(!bson_eq(
        &Bson::Re(Regex { pattern: "a".to_string(), options: "i".to_string() }),
        &Bson::Re(Regex { pattern: "a".to_string(), options: "".to_string() })
    ));
    assert!(bson_eq(
        &Bson::Code(JavaScriptCode("f()".to_string())),
        &Bson::Code(JavaScriptCode("f()".to_string()))
    ));
}

#[test]
fn clones_are_deep_and_equal() {
    let mut d = Document::new();
    let mut nested = Document::new();
    nested.insert("k".to_string(), Bson::Text("v".to_string()));
    d.insert("n".to_string(), Bson::Doc(nested));
    d.insert("arr".to_string(), Bson::Array(vec![Bson::Boolean(true)]));

    let c = doc_clone(&d);
    assert!(doc_eq(&c, &d));
    let b = bson_clone(&Bson::Doc(d));
    assert!(bson_eq(&b, &Bson::Doc(c)));
}
