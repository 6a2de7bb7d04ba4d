use khan::document::{bson_eq, doc_eq, Bson, Document};
use khan::field::Field;
use khan::filter::{by_id, Filter, FilterOperator, TypedFilter, UntypedFilter};
use khan::schema::{
    derive_entity, func_construct_update, EntityDescriptor, FieldDescriptor,
};
use khan::types::{DateTime, Int32, Int64, ObjectId, Timestamp};
use khan::update::{build_update_apply, TypedUpdate, Update, UpdateApply};

fn fd(name: &str) -> FieldDescriptor {
    FieldDescriptor { name: name.to_string(), rename: None }
}

fn user_entity() -> khan::schema::Entity {
    derive_entity(&EntityDescriptor {
        name: "User".to_string(),
        fields: vec![
            FieldDescriptor { name: "id".to_string(), rename: Some("_id".to_string()) },
            fd("name"),
            fd("email"),
        ],
        projections: vec![],
        indexes: vec![],
    })
    .unwrap()
}

#[test]
fn default_filter_serializes_to_empty_document() {
    let f = TypedFilter::default();
    assert!(f.to_document().is_empty());
}

#[test]
fn default_update_serializes_to_empty_document() {
    let u = TypedUpdate::default();
    assert!(u.to_document().is_empty());
}

#[test]
fn all_omitted_filter_serializes_to_empty_document() {
    let e = user_entity();
    let f = TypedFilter::new(&e.wires);
    assert!(f.to_document().is_empty());
    let u = TypedUpdate::new(&e.wires);
    assert!(u.to_document().is_empty());
}

#[test]
fn single_set_field_gives_exactly_one_key() {
    let e = user_entity();
    let mut f = TypedFilter::new(&e.wires);
    assert!(f.set_wire(&"name".to_string(), FilterOperator::Eq(Bson::Text("Kit".to_string()))));
    let d = f.to_document();
    assert_eq!(d.len(), 1);
    let mut op = Document::new();
    op.insert("$eq".to_string(), Bson::Text("Kit".to_string()));
    let mut expected = Document::new();
    expected.insert("name".to_string(), Bson::Doc(op));
    assert!(doc_eq(&d, &expected));
}

#[test]
fn set_wire_on_unknown_field_reports_absence() {
    let e = user_entity();
    let mut f = TypedFilter::new(&e.wires);
    assert!(!f.set_wire(&"nickname".to_string(), FilterOperator::Eq(Bson::Int32(1))));
    assert!(f.to_document().is_empty());
}

#[test]
fn filter_operators_serialize_to_their_wire_keys() {
    let cases: Vec<(FilterOperator, &str)> = vec![
        (FilterOperator::Eq(Bson::Int32(1)), "$eq"),
        (FilterOperator::Ne(Bson::Int32(1)), "$ne"),
        (FilterOperator::Gt(Bson::Int32(1)), "$gt"),
        (FilterOperator::Gte(Bson::Int32(1)), "$gte"),
        (FilterOperator::Lt(Bson::Int32(1)), "$lt"),
        (FilterOperator::Lte(Bson::Int32(1)), "$lte"),
    ];
    for (op, key) in cases {
        let d = op.to_document();
        assert_eq!(d.len(), 1);
        assert_eq!(d.entries[0].0, key.to_string());
        assert_eq!(d.entries[0].1, Bson::Int32(1));
    }
    let d = FilterOperator::In(vec![Bson::Int32(1), Bson::Int32(2)]).to_document();
    assert_eq!(d.entries[0].0, "$in".to_string());
    assert_eq!(d.entries[0].1, Bson::Array(vec![Bson::Int32(1), Bson::Int32(2)]));
    let d = FilterOperator::Nin(vec![Bson::Int32(3)]).to_document();
    assert_eq!(d.entries[0].0, "$nin".to_string());
}

#[test]
fn by_id_serializes_to_identity_key() {
    let f = by_id(Bson::Oid(ObjectId(42)));
    let d = f.to_document();
    let mut expected = Document::new();
    expected.insert("_id".to_string(), Bson::Oid(ObjectId(42)));
    assert_eq!(d, expected);
}

#[test]
fn untyped_filter_passes_its_document_through() {
    let mut raw = Document::new();
    raw.insert("name".to_string(), Bson::Text("Kit".to_string()));
    let f = UntypedFilter::new(raw);
    let d = f.to_document();
    assert_eq!(d.entries[0].0, "name".to_string());
}

#[test]
fn update_serialization_is_insertion_order_independent() {
    let e = user_entity();
    let u1 = func_construct_update(
        &e,
        vec![
            ("name".to_string(), Bson::Text("Tom".to_string())),
            ("email".to_string(), Bson::Text("t@example.com".to_string())),
        ],
    )
    .unwrap();
    let u2 = func_construct_update(
        &e,
        vec![
            ("email".to_string(), Bson::Text("t@example.com".to_string())),
            ("name".to_string(), Bson::Text("Tom".to_string())),
        ],
    )
    .unwrap();
    assert!(doc_eq(&u1.to_document(), &u2.to_document()));
}

#[test]
fn update_serializes_only_set_fields() {
    let e = user_entity();
    let u = func_construct_update(
        &e,
        vec![("name".to_string(), Bson::Text("Tom".to_string()))],
    )
    .unwrap();
    let d = u.to_document();
    assert_eq!(d.len(), 1);
    let mut expected = Document::new();
    expected.insert("name".to_string(), Bson::Text("Tom".to_string()));
    assert_eq!(d, expected);
}

#[test]
fn write_back_mutates_only_fetched_and_set_fields() {
    let e = user_entity();
    let u = func_construct_update(
        &e,
        vec![
            ("name".to_string(), Bson::Text("Tom".to_string())),
            ("email".to_string(), Bson::Text("t@example.com".to_string())),
        ],
    )
    .unwrap();
    // a target shape that fetched only the identity and the name
    let applier = build_update_apply(&vec!["_id".to_string(), "name".to_string()]);
    let mut target = Document::new();
    target.insert("_id".to_string(), Bson::Oid(ObjectId(1)));
    target.insert("name".to_string(), Bson::Text("Kit".to_string()));
    u.apply(&applier, &mut target);
    assert_eq!(
        target.get(&"name".to_string()),
        Some(&Bson::Text("Tom".to_string()))
    );
    // the unfetched field was not written into the target
    assert!(target.get(&"email".to_string()).is_none());
}

#[test]
fn field_from_opt_and_default() {
    let f: Field<i32> = Field::from_opt(Some(5));
    assert!(matches!(f, Field::Given(5)));
    let g: Field<i32> = Field::from_opt(None);
    assert!(matches!(g, Field::Omit));
    let d: Field<i32> = Default::default();
    assert!(matches!(d, Field::Omit));
}

#[test]
fn scalar_wrappers_convert_to_values() {
    assert!(bson_eq(&Int32(7).to_bson(), &Bson::Int32(7)));
    assert!(bson_eq(&Int64(7).to_bson(), &Bson::Int64(7)));
    assert!(bson_eq(&ObjectId(9).to_bson(), &Bson::Oid(ObjectId(9))));
    assert!(bson_eq(&DateTime(123).to_bson(), &Bson::Date(DateTime(123))));
    assert!(bson_eq(
        &Timestamp { time: 1, increment: 2 }.to_bson(),
        &Bson::Stamp(Timestamp { time: 1, increment: 2 })
    ));
}
