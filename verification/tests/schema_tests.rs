use khan::document::{Bson, Document};
use khan::filter::{Filter, FilterOperator};
use khan::schema::{
    derive_entity, func_construct_filter, func_construct_update, EntityDescriptor, FieldDescriptor,
    FilterArg, IndexDescriptor, IndexDirection, ProjectionDescriptor, SchemaError,
};
use khan::update::Update;

fn fd(name: &str) -> FieldDescriptor {
    FieldDescriptor { name: name.to_string(), rename: None }
}

fn id_field() -> FieldDescriptor {
    FieldDescriptor { name: "id".to_string(), rename: Some("_id".to_string()) }
}

fn user_descriptor() -> EntityDescriptor {
    EntityDescriptor {
        name: "User".to_string(),
        fields: vec![id_field(), fd("name"), fd("email")],
        projections: vec![ProjectionDescriptor {
            name: "Profile".to_string(),
            fields: vec!["id".to_string(), "email".to_string()],
        }],
        indexes: vec![IndexDescriptor {
            name: "_".to_string(),
            keys: vec![("email".to_string(), 1)],
            options: Document::new(),
        }],
    }
}

#[test]
fn valid_descriptor_compiles() {
    let e = derive_entity(&user_descriptor()).unwrap();
    assert_eq!(e.collection_name, "user".to_string());
    assert_eq!(e.idents, vec!["id".to_string(), "name".to_string(), "email".to_string()]);
    assert_eq!(e.wires, vec!["_id".to_string(), "name".to_string(), "email".to_string()]);
    assert_eq!(e.projections.len(), 1);
    let p = &e.projections[0];
    assert_eq!(p.name, "Profile".to_string());
    assert_eq!(p.collection_name, "user".to_string());
    assert_eq!(p.fields, Some(vec!["_id".to_string(), "email".to_string()]));
    assert!(p.includes_id);
    assert_eq!(e.indexes.len(), 1);
    assert!(e.indexes[0].name.is_none());
    assert_eq!(e.indexes[0].keys, vec![("email".to_string(), IndexDirection::Pos)]);
}

#[test]
fn collection_name_drops_entity_suffix() {
    let mut d = user_descriptor();
    d.name = "UserEntity".to_string();
    let e = derive_entity(&d).unwrap();
    assert_eq!(e.collection_name, "user".to_string());
}

#[test]
fn collection_name_is_snake_case() {
    let mut d = user_descriptor();
    d.name = "BlogPost".to_string();
    let e = derive_entity(&d).unwrap();
    assert_eq!(e.collection_name, "blog_post".to_string());
}

#[test]
fn fields_enum_variants_are_upper_camel() {
    let mut d = user_descriptor();
    d.fields.push(fd("created_at"));
    let e = derive_entity(&d).unwrap();
    assert_eq!(e.fields_enum.variants[3].0, "CreatedAt".to_string());
    assert_eq!(e.fields_enum.variants[3].1, "created_at".to_string());
    assert_eq!(e.fields_enum.variants[0].0, "Id".to_string());
    assert_eq!(e.fields_enum.variants[0].1, "_id".to_string());
}

#[test]
fn missing_id_field_is_rejected() {
    let mut d = user_descriptor();
    d.fields = vec![fd("name")];
    d.projections = vec![];
    d.indexes = vec![];
    assert!(matches!(derive_entity(&d), Err(SchemaError::MissingIdField)));
}

#[test]
fn id_without_rename_is_rejected() {
    let mut d = user_descriptor();
    d.fields = vec![fd("id"), fd("name")];
    d.projections = vec![];
    d.indexes = vec![];
    assert!(matches!(derive_entity(&d), Err(SchemaError::IdFieldMissingRename)));
}

#[test]
fn id_with_wrong_rename_is_rejected() {
    let mut d = user_descriptor();
    d.fields = vec![
        FieldDescriptor { name: "id".to_string(), rename: Some("key".to_string()) },
        fd("name"),
    ];
    d.projections = vec![];
    d.indexes = vec![];
    assert!(matches!(derive_entity(&d), Err(SchemaError::IdFieldMissingRename)));
}

#[test]
fn duplicate_field_is_rejected() {
    let mut d = user_descriptor();
    d.fields = vec![id_field(), fd("name"), fd("name")];
    assert!(matches!(derive_entity(&d), Err(SchemaError::DuplicateField(_))));
}

#[test]
fn duplicate_wire_name_is_rejected() {
    let mut d = user_descriptor();
    d.fields = vec![
        id_field(),
        fd("name"),
        FieldDescriptor { name: "label".to_string(), rename: Some("name".to_string()) },
    ];
    d.projections = vec![];
    d.indexes = vec![];
    assert!(matches!(derive_entity(&d), Err(SchemaError::DuplicateWireName(_))));
}

#[test]
fn projection_with_unknown_field_is_rejected() {
    let mut d = user_descriptor();
    d.projections = vec![ProjectionDescriptor {
        name: "Profile".to_string(),
        fields: vec!["nickname".to_string()],
    }];
    assert!(matches!(derive_entity(&d), Err(SchemaError::UnknownFieldInProjection(_, _))));
}

#[test]
fn index_with_unknown_field_is_rejected() {
    let mut d = user_descriptor();
    d.indexes = vec![IndexDescriptor {
        name: "_".to_string(),
        keys: vec![("nickname".to_string(), 1)],
        options: Document::new(),
    }];
    assert!(matches!(derive_entity(&d), Err(SchemaError::UnknownFieldInIndex(_, _))));
}

#[test]
fn index_with_invalid_direction_is_rejected() {
    let mut d = user_descriptor();
    d.indexes = vec![IndexDescriptor {
        name: "_".to_string(),
        keys: vec![("email".to_string(), 2)],
        options: Document::new(),
    }];
    assert!(matches!(derive_entity(&d), Err(SchemaError::InvalidIndexDirection(_, 2))));
}

#[test]
fn named_index_keeps_its_name() {
    let mut d = user_descriptor();
    d.indexes = vec![IndexDescriptor {
        name: "by_email".to_string(),
        keys: vec![("email".to_string(), -1)],
        options: Document::new(),
    }];
    let e = derive_entity(&d).unwrap();
    assert_eq!(e.indexes[0].name, Some("by_email".to_string()));
    assert_eq!(e.indexes[0].keys, vec![("email".to_string(), IndexDirection::Neg)]);
}

#[test]
fn construct_filter_unknown_field_is_rejected() {
    let e = derive_entity(&user_descriptor()).unwrap();
    let r = func_construct_filter(
        &e,
        vec![("nickname".to_string(), FilterArg::Value(Bson::Int32(1)))],
    );
    assert!(matches!(r, Err(SchemaError::UnknownField(_))));
}

#[test]
fn construct_filter_duplicate_field_is_rejected() {
    let e = derive_entity(&user_descriptor()).unwrap();
    let r = func_construct_filter(
        &e,
        vec![
            ("name".to_string(), FilterArg::Value(Bson::Int32(1))),
            ("name".to_string(), FilterArg::Value(Bson::Int32(2))),
        ],
    );
    assert!(matches!(r, Err(SchemaError::DuplicateField(_))));
}

#[test]
fn construct_filter_bare_value_means_equality() {
    let e = derive_entity(&user_descriptor()).unwrap();
    let f = func_construct_filter(
        &e,
        vec![("name".to_string(), FilterArg::Value(Bson::Text("Kit".to_string())))],
    )
    .unwrap();
    let d = f.to_document();

    let mut op = Document::new();
    op.insert("$eq".to_string(), Bson::Text("Kit".to_string()));
    let mut expected = Document::new();
    expected.insert("name".to_string(), Bson::Doc(op));
    assert_eq!(d, expected);
}

#[test]
fn construct_update_unknown_field_is_rejected() {
    let e = derive_entity(&user_descriptor()).unwrap();
    let r = func_construct_update(&e, vec![("nickname".to_string(), Bson::Int32(1))]);
    assert!(matches!(r, Err(SchemaError::UnknownField(_))));
}

#[test]
fn bare_fields_enum_derivation_matches_the_declaration() {
    let e = khan::schema::derive_fields(&vec![
        FieldDescriptor { name: "id".to_string(), rename: Some("_id".to_string()) },
        fd("created_at"),
    ]);
    assert_eq!(e.variants.len(), 2);
    assert_eq!(e.variants[0], ("Id".to_string(), "_id".to_string()));
    assert_eq!(e.variants[1], ("CreatedAt".to_string(), "created_at".to_string()));
    assert_eq!(e.wire_of_variant(1), &"created_at".to_string());
    let rename = khan::schema::extract_serde_rename(&FieldDescriptor {
        name: "id".to_string(),
        rename: Some("_id".to_string()),
    });
    assert_eq!(rename, Some("_id".to_string()));
}

#[test]
fn construct_filter_explicit_operator_is_kept() {
    let e = derive_entity(&user_descriptor()).unwrap();
    let f = func_construct_filter(
        &e,
        vec![(
            "email".to_string(),
            FilterArg::Operator(FilterOperator::Ne(Bson::Text("x".to_string()))),
        )],
    )
    .unwrap();
    let d = f.to_document();
    let mut op = Document::new();
    op.insert("$ne".to_string(), Bson::Text("x".to_string()));
    let mut expected = Document::new();
    expected.insert("email".to_string(), Bson::Doc(op));
    assert_eq!(d, expected);
}
