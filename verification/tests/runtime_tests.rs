use khan::crud::{
    fresh_object_id, lock_update_document, Mongo, ProjectionCache, Session, Transaction,
};
use khan::document::{doc_eq, Bson, Document};
use khan::engine::{Database, DbError, Order};
use khan::filter::{by_id, Filter, FilterOperator};
use khan::lock::Lock;
use khan::meta::{enforce_indexes, entity_metadata, EntityMetadata, EntityMetadataWrapper, Registry};
use khan::schema::{
    derive_entity, func_construct_filter, func_construct_update, Entity, EntityDescriptor,
    FieldDescriptor, FilterArg, IndexDescriptor, IndexDirection, Projection, ProjectionDescriptor,
};
use khan::types::ObjectId;
use khan::update::{build_update_apply, Update, UntypedUpdate};

fn fd(name: &str) -> FieldDescriptor {
    FieldDescriptor { name: name.to_string(), rename: None }
}

fn user_entity() -> Entity {
    derive_entity(&EntityDescriptor {
        name: "User".to_string(),
        fields: vec![
            FieldDescriptor { name: "id".to_string(), rename: Some("_id".to_string()) },
            fd("name"),
            fd("email"),
        ],
        projections: vec![ProjectionDescriptor {
            name: "Profile".to_string(),
            fields: vec!["id".to_string(), "email".to_string()],
        }],
        indexes: vec![IndexDescriptor {
            name: "_".to_string(),
            keys: vec![("email".to_string(), 1)],
            options: Document::new(),
        }],
    })
    .unwrap()
}

fn full_record_shape(e: &Entity) -> Projection {
    e.record_projection()
}

fn user_doc(id: u128, name: &str, email: &str) -> Document {
    let mut d = Document::new();
    d.insert("_id".to_string(), Bson::Oid(ObjectId(id)));
    d.insert("name".to_string(), Bson::Text(name.to_string()));
    d.insert("email".to_string(), Bson::Text(email.to_string()));
    d
}

#[test]
fn end_to_end_insert_project_update_read() {
    let e = user_entity();
    let mut mongo = Mongo::new(Database::new());
    let x = 77u128;
    let u = user_doc(x, "Kit", "kit@example.com");
    e.insert(&mut mongo, &u).unwrap();

    // the projection fetches id and email, not name
    let profile = &e.projections[0];
    let got = profile
        .find_one(&mut mongo, &by_id(Bson::Oid(ObjectId(x))))
        .unwrap()
        .unwrap();
    assert_eq!(got.get(&"_id".to_string()), Some(&Bson::Oid(ObjectId(x))));
    assert_eq!(
        got.get(&"email".to_string()),
        Some(&Bson::Text("kit@example.com".to_string()))
    );
    assert!(got.get(&"name".to_string()).is_none());

    // update the email, then read the whole record back
    let upd = func_construct_update(
        &e,
        vec![("email".to_string(), Bson::Text("new@example.com".to_string()))],
    )
    .unwrap();
    e.update_one(&mut mongo, &by_id(Bson::Oid(ObjectId(x))), &upd).unwrap();

    let full = full_record_shape(&e);
    let back = full
        .find_one(&mut mongo, &by_id(Bson::Oid(ObjectId(x))))
        .unwrap()
        .unwrap();
    assert_eq!(back.get(&"name".to_string()), Some(&Bson::Text("Kit".to_string())));
    assert_eq!(
        back.get(&"email".to_string()),
        Some(&Bson::Text("new@example.com".to_string()))
    );
}

#[test]
fn patch_mirrors_update_into_memory_only_on_success() {
    let e = user_entity();
    let mut mongo = Mongo::new(Database::new());
    let x = 5u128;
    let mut record = user_doc(x, "Kit", "kit@example.com");
    e.insert(&mut mongo, &record).unwrap();

    let full = full_record_shape(&e);
    let applier = build_update_apply(&e.wires);
    let upd = func_construct_update(
        &e,
        vec![("name".to_string(), Bson::Text("Tom".to_string()))],
    )
    .unwrap();
    full.patch(&mut mongo, &mut record, &applier, &upd).unwrap();

    // in-memory and persisted states agree
    assert_eq!(record.get(&"name".to_string()), Some(&Bson::Text("Tom".to_string())));
    let back = full
        .find_one(&mut mongo, &by_id(Bson::Oid(ObjectId(x))))
        .unwrap()
        .unwrap();
    assert_eq!(back.get(&"name".to_string()), Some(&Bson::Text("Tom".to_string())));
}

#[test]
fn patch_leaves_memory_untouched_when_the_store_fails() {
    let e = user_entity();
    let mut mongo = Mongo::new(Database::new());
    let x = 6u128;
    let mut record = user_doc(x, "Kit", "kit@example.com");
    e.insert(&mut mongo, &record).unwrap();

    mongo.db.failing = true;
    let full = full_record_shape(&e);
    let applier = build_update_apply(&e.wires);
    let upd = func_construct_update(
        &e,
        vec![("name".to_string(), Bson::Text("Tom".to_string()))],
    )
    .unwrap();
    let r = full.patch(&mut mongo, &mut record, &applier, &upd);
    assert_eq!(r, Err(DbError::Engine));
    assert_eq!(record.get(&"name".to_string()), Some(&Bson::Text("Kit".to_string())));

    // after the failure clears, the stored record is unchanged too
    mongo.db.failing = false;
    let back = full
        .find_one(&mut mongo, &by_id(Bson::Oid(ObjectId(x))))
        .unwrap()
        .unwrap();
    assert_eq!(back.get(&"name".to_string()), Some(&Bson::Text("Kit".to_string())));
}

#[test]
fn count_exists_and_delete() {
    let e = user_entity();
    let mut mongo = Mongo::new(Database::new());
    e.insert(&mut mongo, &user_doc(1, "Kit", "a@example.com")).unwrap();
    e.insert(&mut mongo, &user_doc(2, "Tom", "b@example.com")).unwrap();
    e.insert(&mut mongo, &user_doc(3, "Kit", "c@example.com")).unwrap();

    let kit = func_construct_filter(
        &e,
        vec![("name".to_string(), FilterArg::Value(Bson::Text("Kit".to_string())))],
    )
    .unwrap();
    // a reborrowed context serves repeated operations
    assert_eq!(e.count(mongo.rb(), &kit).unwrap(), 2);
    assert!(e.exists_match(mongo.rb(), &kit).unwrap());

    e.delete_one(&mut mongo, &kit).unwrap();
    assert_eq!(e.count(&mongo, &kit).unwrap(), 1);

    e.delete(&mut mongo, &kit).unwrap();
    assert_eq!(e.count(&mongo, &kit).unwrap(), 0);
    assert!(!e.exists_match(&mongo, &kit).unwrap());
}

#[test]
fn comparison_operators_filter_records() {
    let e = user_entity();
    let mut mongo = Mongo::new(Database::new());
    let mut d1 = user_doc(1, "a", "a@example.com");
    d1.insert("age".to_string(), Bson::Int32(20));
    let mut d2 = user_doc(2, "b", "b@example.com");
    d2.insert("age".to_string(), Bson::Int32(30));
    e.insert(&mut mongo, &d1).unwrap();
    e.insert(&mut mongo, &d2).unwrap();

    let mut older = khan::filter::TypedFilter::default();
    older.entries.push(("age".to_string(), khan::field::Field::Given(FilterOperator::Gt(
        Bson::Int32(25),
    ))));
    assert_eq!(e.count(&mongo, &older).unwrap(), 1);

    let mut member = khan::filter::TypedFilter::default();
    member.entries.push(("age".to_string(), khan::field::Field::Given(FilterOperator::In(
        vec![Bson::Int32(20), Bson::Int32(30)],
    ))));
    assert_eq!(e.count(&mongo, &member).unwrap(), 2);
}

#[test]
fn find_with_sort_skip_and_limit() {
    let e = user_entity();
    let mut mongo = Mongo::new(Database::new());
    e.insert(&mut mongo, &user_doc(1, "b", "b@example.com")).unwrap();
    e.insert(&mut mongo, &user_doc(2, "a", "a@example.com")).unwrap();
    e.insert(&mut mongo, &user_doc(3, "c", "c@example.com")).unwrap();

    // the name field is position 1 in the field-name enumeration
    let keys = e.sort_spec(&vec![(1usize, Order::Asc)]);
    let full = full_record_shape(&e);
    let all = khan::filter::TypedFilter::default();
    let rows = full
        .find_with_opts(&mut mongo, &all, None, None, Some(&keys))
        .unwrap();
    assert_eq!(rows.len(), 3);
    assert_eq!(rows[0].get(&"name".to_string()), Some(&Bson::Text("a".to_string())));
    assert_eq!(rows[1].get(&"name".to_string()), Some(&Bson::Text("b".to_string())));
    assert_eq!(rows[2].get(&"name".to_string()), Some(&Bson::Text("c".to_string())));

    let page = full
        .find_with_opts(&mut mongo, &all, Some(1), Some(1), Some(&keys))
        .unwrap();
    assert_eq!(page.len(), 1);
    assert_eq!(page[0].get(&"name".to_string()), Some(&Bson::Text("b".to_string())));

    let desc = e.sort_spec(&vec![(1usize, Order::Desc)]);
    let rows = full
        .find_with_opts(&mut mongo, &all, None, None, Some(&desc))
        .unwrap();
    assert_eq!(rows[0].get(&"name".to_string()), Some(&Bson::Text("c".to_string())));
}

#[test]
fn projection_document_is_cached_and_identical() {
    let e = user_entity();
    let profile = &e.projections[0];
    let mut cache = ProjectionCache::new();
    let d1 = profile.projection_document(&mut cache).unwrap();
    let d2 = profile.projection_document(&mut cache).unwrap();
    assert!(doc_eq(&d1, &d2));
    // the identity key was requested, so it is not excluded
    assert!(d1.get(&"_id".to_string()).is_none());
    assert_eq!(d1.get(&"email".to_string()), Some(&Bson::Int32(1)));
}

#[test]
fn projection_without_identity_excludes_it() {
    let e = derive_entity(&EntityDescriptor {
        name: "User".to_string(),
        fields: vec![
            FieldDescriptor { name: "id".to_string(), rename: Some("_id".to_string()) },
            fd("email"),
        ],
        projections: vec![ProjectionDescriptor {
            name: "MailOnly".to_string(),
            fields: vec!["email".to_string()],
        }],
        indexes: vec![],
    })
    .unwrap();
    let mut cache = ProjectionCache::new();
    let d = e.projections[0].projection_document(&mut cache).unwrap();
    assert_eq!(d.get(&"_id".to_string()), Some(&Bson::Int32(-1)));
    assert_eq!(d.get(&"email".to_string()), Some(&Bson::Int32(1)));
}

#[test]
fn anonymous_index_is_enforced_once_and_unnamed() {
    let e = user_entity();
    let collection = e.collection_name.clone();
    let md = EntityMetadata::new(collection.clone(), e.indexes);
    let mut registry = Registry::new();
    registry.entries.push(EntityMetadataWrapper(md));
    assert_eq!(entity_metadata(&registry).len(), 1);

    let mut mongo = Mongo::new(Database::new());
    enforce_indexes(&mut mongo, &registry).unwrap();

    let col = mongo
        .db
        .collections
        .iter()
        .find(|c| c.name == collection)
        .unwrap();
    assert_eq!(col.indexes.len(), 1);
    assert!(col.indexes[0].name.is_none());
    assert_eq!(col.indexes[0].keys, vec![("email".to_string(), IndexDirection::Pos)]);
}

#[test]
fn unlocked_and_locked_inserts_have_distinct_types() {
    let e = user_entity();
    let mut mongo = Mongo::new(Database::new());
    // a plain insert yields no lock token
    let plain: () = e.insert(&mut mongo, &user_doc(1, "Kit", "k@example.com")).unwrap();
    let _ = plain;

    let mut trx = Transaction::new(mongo.db, Session { id: 1 });
    let locked: Lock<Document> = e
        .insert_locked(&mut trx, user_doc(2, "Tom", "t@example.com"))
        .unwrap();
    let inner = locked.into_inner();
    assert_eq!(inner.get(&"name".to_string()), Some(&Bson::Text("Tom".to_string())));
}

#[test]
fn lock_by_id_performs_the_dummy_write() {
    let e = user_entity();
    let mut mongo = Mongo::new(Database::new());
    e.insert(&mut mongo, &user_doc(9, "Kit", "k@example.com")).unwrap();

    let mut trx = Transaction::new(mongo.db, Session { id: 1 });
    let lock = e.lock_by_id(&mut trx, Bson::Oid(ObjectId(9))).unwrap();
    assert!(matches!(lock.inner(), Bson::Oid(ObjectId(9))));

    // the reserved lock field now holds a seed document
    let mut mongo = Mongo::new(trx.db);
    let full = full_record_shape(&e);
    let back = full
        .find_one(&mut mongo, &by_id(Bson::Oid(ObjectId(9))))
        .unwrap()
        .unwrap();
    match back.get(&"_lock".to_string()) {
        Some(Bson::Doc(inner)) => {
            assert!(matches!(inner.get(&"seed".to_string()), Some(Bson::Oid(_))));
        },
        other => panic!("expected a lock seed document, found {:?}", other),
    }
}

#[test]
fn update_by_id_locked_returns_the_identity_token() {
    let e = user_entity();
    let mut mongo = Mongo::new(Database::new());
    e.insert(&mut mongo, &user_doc(4, "Kit", "k@example.com")).unwrap();

    let mut trx = Transaction::new(mongo.db, Session { id: 2 });
    let upd = func_construct_update(
        &e,
        vec![("name".to_string(), Bson::Text("Tom".to_string()))],
    )
    .unwrap();
    let lock = e
        .update_by_id_locked(&mut trx, Bson::Oid(ObjectId(4)), &upd)
        .unwrap();
    assert!(matches!(lock.into_inner(), Bson::Oid(ObjectId(4))));

    let mut mongo = Mongo::new(trx.db);
    let full = full_record_shape(&e);
    let back = full
        .find_one(&mut mongo, &by_id(Bson::Oid(ObjectId(4))))
        .unwrap()
        .unwrap();
    assert_eq!(back.get(&"name".to_string()), Some(&Bson::Text("Tom".to_string())));
}

#[test]
fn find_one_and_update_returns_the_previous_record() {
    let e = user_entity();
    let mut mongo = Mongo::new(Database::new());
    e.insert(&mut mongo, &user_doc(8, "Kit", "k@example.com")).unwrap();

    let full = full_record_shape(&e);
    let seed = fresh_object_id();
    let raw = lock_update_document(seed);
    let before = full
        .find_one_and_update(&mut mongo, &by_id(Bson::Oid(ObjectId(8))), &raw)
        .unwrap()
        .unwrap();
    // the returned record predates the write
    assert!(before.get(&"_lock".to_string()).is_none());
    let after = full
        .find_one(&mut mongo, &by_id(Bson::Oid(ObjectId(8))))
        .unwrap()
        .unwrap();
    assert!(after.get(&"_lock".to_string()).is_some());
}

#[test]
fn raw_update_without_set_operator_is_refused() {
    let e = user_entity();
    let mut mongo = Mongo::new(Database::new());
    e.insert(&mut mongo, &user_doc(3, "Kit", "k@example.com")).unwrap();

    let mut not_set = Document::new();
    not_set.insert("$push".to_string(), Bson::Int32(1));
    let raw = UntypedUpdate::new(not_set);
    let full = full_record_shape(&e);
    let r = full.find_one_and_update(&mut mongo, &by_id(Bson::Oid(ObjectId(3))), &raw);
    assert_eq!(r, Err(DbError::UnsupportedUpdate));
}

#[test]
fn engine_failure_reaches_the_caller_unchanged() {
    let e = user_entity();
    let mut mongo = Mongo::new(Database::new());
    mongo.db.failing = true;
    let all = khan::filter::TypedFilter::default();
    assert_eq!(e.count(&mongo, &all), Err(DbError::Engine));
    assert_eq!(e.insert(&mut mongo, &user_doc(1, "a", "b")), Err(DbError::Engine));
    assert_eq!(e.delete(&mut mongo, &all), Err(DbError::Engine));
}

#[test]
fn remove_deletes_the_record_with_the_held_identity() {
    let e = user_entity();
    let mut mongo = Mongo::new(Database::new());
    let record = user_doc(11, "Kit", "k@example.com");
    e.insert(&mut mongo, &record).unwrap();
    e.insert(&mut mongo, &user_doc(12, "Tom", "t@example.com")).unwrap();

    let full = full_record_shape(&e);
    full.remove(&mut mongo, &record).unwrap();
    let all = khan::filter::TypedFilter::default();
    assert_eq!(e.count(&mongo, &all).unwrap(), 1);
    assert!(full
        .find_one(&mut mongo, &by_id(Bson::Oid(ObjectId(11))))
        .unwrap()
        .is_none());
}

#[test]
fn patch_locked_returns_the_patched_value() {
    let e = user_entity();
    let mut mongo = Mongo::new(Database::new());
    let record = user_doc(21, "Kit", "k@example.com");
    e.insert(&mut mongo, &record).unwrap();

    let mut trx = Transaction::new(mongo.db, Session { id: 3 });
    let full = full_record_shape(&e);
    let applier = build_update_apply(&e.wires);
    let upd = func_construct_update(
        &e,
        vec![("name".to_string(), Bson::Text("Tom".to_string()))],
    )
    .unwrap();
    let locked = full.patch_locked(&mut trx, record, &applier, &upd).unwrap();
    let v = locked.into_inner();
    assert_eq!(v.get(&"name".to_string()), Some(&Bson::Text("Tom".to_string())));

    // the persisted record carries the update too
    let mut mongo = Mongo::new(trx.db);
    let back = full
        .find_one(&mut mongo, &by_id(Bson::Oid(ObjectId(21))))
        .unwrap()
        .unwrap();
    assert_eq!(back.get(&"name".to_string()), Some(&Bson::Text("Tom".to_string())));
}

#[test]
fn patch_locked_fails_loudly_when_the_store_fails() {
    let e = user_entity();
    let mut mongo = Mongo::new(Database::new());
    let record = user_doc(22, "Kit", "k@example.com");
    e.insert(&mut mongo, &record).unwrap();

    mongo.db.failing = true;
    let mut trx = Transaction::new(mongo.db, Session { id: 6 });
    let full = full_record_shape(&e);
    let applier = build_update_apply(&e.wires);
    let upd = func_construct_update(
        &e,
        vec![("name".to_string(), Bson::Text("Tom".to_string()))],
    )
    .unwrap();
    let r = full.patch_locked(&mut trx, record, &applier, &upd);
    assert!(matches!(r, Err(DbError::Engine)));

    // the stored record is unchanged
    trx.db.failing = false;
    let mut mongo = Mongo::new(trx.db);
    let back = full
        .find_one(&mut mongo, &by_id(Bson::Oid(ObjectId(22))))
        .unwrap()
        .unwrap();
    assert_eq!(back.get(&"name".to_string()), Some(&Bson::Text("Kit".to_string())));
}

#[test]
fn insert_many_keeps_order_and_locked_variant_returns_tokens() {
    let e = user_entity();
    let mut mongo = Mongo::new(Database::new());
    let records = vec![
        user_doc(1, "a", "a@example.com"),
        user_doc(2, "b", "b@example.com"),
    ];
    e.insert_many(&mut mongo, &records).unwrap();
    let all = khan::filter::TypedFilter::default();
    assert_eq!(e.count(&mongo, &all).unwrap(), 2);

    let mut trx = Transaction::new(mongo.db, Session { id: 4 });
    let locks = e
        .insert_many_locked(&mut trx, vec![user_doc(3, "c", "c@example.com")])
        .unwrap();
    assert_eq!(locks.len(), 1);
    let v = locks.into_iter().next().unwrap().into_inner();
    assert_eq!(v.get(&"name".to_string()), Some(&Bson::Text("c".to_string())));
}

#[test]
fn find_one_and_lock_locks_the_matching_record() {
    let e = user_entity();
    let mut mongo = Mongo::new(Database::new());
    e.insert(&mut mongo, &user_doc(31, "Kit", "k@example.com")).unwrap();

    let mut trx = Transaction::new(mongo.db, Session { id: 5 });
    let full = full_record_shape(&e);
    let locked = full
        .find_one_and_lock(&mut trx, &by_id(Bson::Oid(ObjectId(31))))
        .unwrap()
        .unwrap();
    // the handed-back record is the matching record as it stood before the
    // dummy write
    assert!(doc_eq(locked.inner(), &user_doc(31, "Kit", "k@example.com")));
    assert!(locked.inner().get(&"_lock".to_string()).is_none());
}
