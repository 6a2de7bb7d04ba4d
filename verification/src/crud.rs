//! The projection and CRUD runtime: the execution context (a store handle and
//! an optional session), the cached read-projection documents, the record- and
//! projection-level operations, and the locking protocol for transactional
//! read-modify-write sequences.

use vstd::prelude::*;
use crate::document::{
    bson_clone, bson_view, doc_clone, spec_contains_key, spec_get, spec_set, spec_wf, Bson,
    Document, SpecBson, SpecDoc,
};
use crate::engine::{
    any_match, is_first_match, remove_matches, select, set_all, set_payload, sort_ok, spec_count,
    spec_limit_docs, spec_project, spec_skip_docs, project_all, update_all, Database, DbError,
    Order,
};
use crate::filter::Filter;
use crate::lock::Lock;
use crate::schema::{Entity, Projection};
use crate::types::ObjectId;
use crate::update::{strings_view, Update, UpdateApplier, UpdateApply, UntypedUpdate};

verus! {

broadcast use vstd::std_specs::vec::group_vec_axioms;

/// An open session: the handle under which a sequence of operations runs
/// inside one transaction. The transaction lifecycle itself belongs to the
/// caller; the runtime only carries the session along.
#[derive(Debug, Clone, Copy, PartialEq, Eq, Structural)]
pub struct Session {
    pub id: u64,
}

/// The read-projection documents computed so far, keyed by field list. The
/// cache only grows, and every stored document is the one its key computes to,
/// so a repeated request is answered with the same document.
#[derive(Debug)]
pub struct ProjectionCache {
    entries: Vec<(Vec<String>, Document)>,
}

/// The read-projection document for a field list: every listed field except
/// the identity key is included, and the identity key is explicitly excluded
/// exactly when the list does not name it.
pub open spec fn proj_doc_fold(fields: Seq<Seq<char>>, acc: SpecDoc) -> SpecDoc
    decreases fields.len(),
{
    if fields.len() == 0 {
        acc
    } else {
        let next = if fields[0] == ("_id")@ {
            acc
        } else {
            spec_set(acc, fields[0], SpecBson::Int32(1i32))
        };
        proj_doc_fold(fields.drop_first(), next)
    }
}

/// The read-projection document of a field list.
pub open spec fn spec_projection_document(fields: Seq<Seq<char>>) -> SpecDoc {
    let base = proj_doc_fold(fields, Seq::empty());
    if fields.contains(("_id")@) {
        base
    } else {
        spec_set(base, ("_id")@, SpecBson::Int32(-1i32))
    }
}

/// The fold of well-formed accumulators stays well-formed.
pub proof fn lemma_proj_doc_fold_wf(fields: Seq<Seq<char>>, acc: SpecDoc)
    requires
        spec_wf(acc),
    ensures
        spec_wf(proj_doc_fold(fields, acc)),
    decreases fields.len(),
{
    if fields.len() > 0 {
        if fields[0] == ("_id")@ {
            lemma_proj_doc_fold_wf(fields.drop_first(), acc);
        } else {
            crate::document::lemma_spec_set(acc, fields[0], SpecBson::Int32(1i32));
            lemma_proj_doc_fold_wf(
                fields.drop_first(),
                spec_set(acc, fields[0], SpecBson::Int32(1i32)),
            );
        }
    }
}

/// A read-projection document is well-formed, and a field list that does not
/// name the identity key yields a document that explicitly excludes it.
pub proof fn lemma_projection_document_excludes_id(fields: Seq<Seq<char>>)
    ensures
        spec_wf(spec_projection_document(fields)),
        !fields.contains(("_id")@) ==> spec_get(spec_projection_document(fields), ("_id")@)
            == Option::Some(SpecBson::Int32(-1i32)),
{
    lemma_proj_doc_fold_wf(fields, Seq::empty());
    if !fields.contains(("_id")@) {
        crate::document::lemma_spec_set(
            proj_doc_fold(fields, Seq::empty()),
            ("_id")@,
            SpecBson::Int32(-1i32),
        );
    }
}

/// Computes the read-projection document for a field list.
fn compute_projection_document(fields: &Vec<String>) -> (d: Document)
    ensures
        d@ == spec_projection_document(strings_view(fields@)),
        spec_wf(d@),
{
    let ghost fv = strings_view(fields@);
    let idw = "_id".to_owned();
    let n = fields.len();
    let mut d = Document::new();
    let mut has_id = false;
    let mut i: usize = 0;
    proof {
        assert(fv.skip(0) =~= fv);
    }
    while i < n
        invariant
            idw@ == ("_id")@,
            fv == strings_view(fields@),
            n == fields@.len(),
            i <= n,
            spec_wf(d@),
            proj_doc_fold(fv.skip(i as int), d@) == proj_doc_fold(fv, Seq::empty()),
            has_id == exists|j: int| 0 <= j < i && fv[j] == ("_id")@,
        decreases n - i,
    {
        proof {
            assert(fv.skip(i as int)[0] == fv[i as int]);
            assert(fv.skip(i as int).drop_first() =~= fv.skip(i + 1 as int));
        }
        if fields[i] == idw {
            has_id = true;
            proof {
                assert(fv[i as int] == ("_id")@);
            }
        } else {
            d.insert(fields[i].clone(), Bson::Int32(1i32));
        }
        i += 1;
    }
    proof {
        assert(fv.skip(n as int) =~= Seq::<Seq<char>>::empty());
        assert(has_id == fv.contains(("_id")@)) by {
            if has_id {
                let j = choose|j: int| 0 <= j < n && fv[j] == ("_id")@;
                assert(fv[j] == ("_id")@);
            }
            if fv.contains(("_id")@) {
                let j = choose|j: int| 0 <= j < fv.len() && fv[j] == ("_id")@;
                assert(0 <= j < n && fv[j] == ("_id")@);
            }
        }
    }
    if !has_id {
        d.insert("_id".to_owned(), Bson::Int32(-1i32));
    }
    d
}

impl ProjectionCache {
    /// Every cached document is the one its field list computes to.
    pub closed spec fn wf(&self) -> bool {
        forall|i: int|
            0 <= i < self.entries@.len() ==> (#[trigger] self.entries@[i]).1@
                == spec_projection_document(strings_view(self.entries@[i].0@)) && spec_wf(
                self.entries@[i].1@,
            )
    }

    /// An empty cache.
    pub fn new() -> (c: ProjectionCache)
        ensures
            c.wf(),
    {
        ProjectionCache { entries: Vec::new() }
    }

    /// The read-projection document for the field list: answered from the
    /// cache when the list was seen before, computed and remembered otherwise.
    /// Either way the same field list always yields the same document.
    pub fn lookup_or_compute(&mut self, fields: &Vec<String>) -> (d: Document)
        requires
            old(self).wf(),
        ensures
            final(self).wf(),
            d@ == spec_projection_document(strings_view(fields@)),
            spec_wf(d@),
    {
        let n = self.entries.len();
        let mut i: usize = 0;
        while i < n
            invariant
                self == old(self),
                self.wf(),
                n == self.entries@.len(),
                i <= n,
            decreases n - i,
        {
            if strings_equal(&self.entries[i].0, fields) {
                proof {
                    assert(self.entries@[i as int].1@ == spec_projection_document(
                        strings_view(self.entries@[i as int].0@),
                    ));
                }
                return doc_clone(&self.entries[i].1);
            }
            i += 1;
        }
        let d = compute_projection_document(fields);
        let ghost pre = self.entries@;
        let mut key: Vec<String> = Vec::new();
        let nf = fields.len();
        let mut j: usize = 0;
        while j < nf
            invariant
                nf == fields@.len(),
                j <= nf,
                key@.len() == j,
                forall|q: int| 0 <= q < j ==> #[trigger] key@[q]@ == fields@[q]@,
            decreases nf - j,
        {
            key.push(fields[j].clone());
            j += 1;
        }
        proof {
            assert(strings_view(key@) =~= strings_view(fields@));
        }
        self.entries.push((key, doc_clone(&d)));
        proof {
            assert forall|q: int| 0 <= q < self.entries@.len() implies (
            #[trigger] self.entries@[q]).1@ == spec_projection_document(
                strings_view(self.entries@[q].0@),
            ) && spec_wf(self.entries@[q].1@) by {
                if q < pre.len() {
                    assert(self.entries@[q] == pre[q]);
                    assert(old(self).wf());
                }
            }
        }
        d
    }
}

/// Whether two string lists hold the same strings in the same order.
fn strings_equal(a: &Vec<String>, b: &Vec<String>) -> (r: bool)
    ensures
        r == (strings_view(a@) == strings_view(b@)),
{
    if a.len() != b.len() {
        proof {
            assert(strings_view(a@).len() != strings_view(b@).len());
        }
        return false;
    }
    let n = a.len();
    let mut i: usize = 0;
    while i < n
        invariant
            n == a@.len() == b@.len(),
            i <= n,
            forall|j: int| 0 <= j < i ==> strings_view(a@)[j] == strings_view(b@)[j],
        decreases n - i,
    {
        if !(a[i] == b[i]) {
            proof {
                assert(strings_view(a@)[i as int] != strings_view(b@)[i as int]);
            }
            return false;
        }
        proof {
            assert(strings_view(a@)[i as int] == strings_view(b@)[i as int]);
        }
        i += 1;
    }
    proof {
        assert(strings_view(a@) =~= strings_view(b@));
    }
    true
}

/// The execution context of an operation: the store, an optional open session
/// to bind the operation to, and the runtime's projection-document cache.
#[derive(Debug)]
pub struct Mongo {
    pub db: Database,
    pub session: Option<Session>,
    pub cache: ProjectionCache,
}

impl Mongo {
    /// A context without a session: operations run standalone.
    pub fn new(db: Database) -> (m: Mongo)
        ensures
            m.db == db,
            m.session is None,
            m.cache.wf(),
    {
        Mongo { db, session: Option::None, cache: ProjectionCache::new() }
    }

    /// A context bound to an open session.
    pub fn new_with_session(db: Database, session: Session) -> (m: Mongo)
        ensures
            m.db == db,
            m.session == Option::Some(session),
            m.cache.wf(),
    {
        Mongo { db, session: Option::Some(session), cache: ProjectionCache::new() }
    }

    /// Reborrows the context for one more operation.
    pub fn rb(&mut self) -> (r: &mut Mongo)
        ensures
            *r == *old(self),
            *final(self) == *final(r),
    {
        self
    }

    /// Every operation may assume and must keep this.
    pub open spec fn wf(&self) -> bool {
        &&& self.db.wf()
        &&& self.cache.wf()
    }
}

/// An execution context that is certainly inside a transaction: the session is
/// present, so a write issued through it takes part in the transaction's
/// conflict detection.
#[derive(Debug)]
pub struct Transaction {
    pub db: Database,
    pub session: Session,
    pub cache: ProjectionCache,
}

impl Transaction {
    /// A transactional context over an open session.
    pub fn new(db: Database, session: Session) -> (t: Transaction)
        ensures
            t.db == db,
            t.session == session,
            t.cache.wf(),
    {
        Transaction { db, session, cache: ProjectionCache::new() }
    }

    /// Reborrows the context for one more operation.
    pub fn rb(&mut self) -> (r: &mut Transaction)
        ensures
            *r == *old(self),
            *final(self) == *final(r),
    {
        self
    }

    /// Every operation may assume and must keep this.
    pub open spec fn wf(&self) -> bool {
        &&& self.db.wf()
        &&& self.cache.wf()
    }
}

/// The read projection a compiled read shape asks the store for: the cached
/// document of its field list, or nothing for a full-record shape.
pub open spec fn proj_doc_of(p: Projection) -> Option<SpecDoc> {
    match p.fields {
        Option::Some(fs) => Option::Some(spec_projection_document(strings_view(fs@))),
        Option::None => Option::None,
    }
}

/// The identity filter document for a wire-level identity value.
pub open spec fn id_filter_spec(id: SpecBson) -> SpecDoc {
    seq![(("_id")@, id)]
}

impl Projection {
    /// The read-projection document this shape fetches with, if any: computed
    /// once per field list and cached, so every call for this shape yields the
    /// same document.
    pub fn projection_document(&self, cache: &mut ProjectionCache) -> (r: Option<Document>)
        requires
            old(cache).wf(),
        ensures
            final(cache).wf(),
            match r {
                Option::Some(d) => proj_doc_of(*self) == Option::Some(d@) && spec_wf(d@),
                Option::None => proj_doc_of(*self) is None,
            },
    {
        match &self.fields {
            Option::Some(fs) => Option::Some(cache.lookup_or_compute(fs)),
            Option::None => Option::None,
        }
    }

    /// The matching records, read through this shape, after the requested
    /// sort, skip and limit.
    pub fn find_with_opts<F: Filter>(
        &self,
        mongo: &mut Mongo,
        filter: &F,
        skip: Option<u64>,
        limit: Option<i64>,
        sort: Option<&Vec<(String, Order)>>,
    ) -> (r: Result<Vec<Document>, DbError>)
        requires
            old(mongo).wf(),
        ensures
            final(mongo).wf(),
            final(mongo).db == old(mongo).db,
            final(mongo).session == old(mongo).session,
            old(mongo).db.failing ==> r == Result::<Vec<Document>, DbError>::Err(DbError::Engine),
            !old(mongo).db.failing ==> r is Ok && exists|mid: Seq<SpecDoc>|
                #![all_triggers]
                sort_ok(
                    sort,
                    select(old(mongo).db.docs(self.collection_name@), filter.doc_spec()),
                    mid,
                ) && crate::engine::docs_view(r->Ok_0@) == project_all(
                    spec_limit_docs(spec_skip_docs(mid, skip), limit),
                    proj_doc_of(*self),
                ),
            r is Ok ==> forall|j: int|
                0 <= j < r->Ok_0@.len() ==> spec_wf(
                    #[trigger] crate::engine::docs_view(r->Ok_0@)[j],
                ),
    {
        let pd = self.projection_document(&mut mongo.cache);
        let fd = filter.to_document();
        let pref = match &pd {
            Option::Some(d) => Option::Some(d),
            Option::None => Option::None,
        };
        mongo.db.find(&self.collection_name, &fd, pref, skip, limit, sort)
    }

    /// The matching records, read through this shape, in stored order.
    pub fn find<F: Filter>(&self, mongo: &mut Mongo, filter: &F) -> (r: Result<
        Vec<Document>,
        DbError,
    >)
        requires
            old(mongo).wf(),
        ensures
            final(mongo).wf(),
            final(mongo).db == old(mongo).db,
            final(mongo).session == old(mongo).session,
            old(mongo).db.failing ==> r == Result::<Vec<Document>, DbError>::Err(DbError::Engine),
            !old(mongo).db.failing ==> r is Ok && crate::engine::docs_view(r->Ok_0@)
                == project_all(
                select(old(mongo).db.docs(self.collection_name@), filter.doc_spec()),
                proj_doc_of(*self),
            ),
            r is Ok ==> forall|j: int|
                0 <= j < r->Ok_0@.len() ==> spec_wf(
                    #[trigger] crate::engine::docs_view(r->Ok_0@)[j],
                ),
    {
        let r = self.find_with_opts(
            mongo,
            filter,
            Option::None,
            Option::None,
            Option::<&Vec<(String, Order)>>::None,
        );
        proof {
            if !old(mongo).db.failing {
                let sel = select(old(mongo).db.docs(self.collection_name@), filter.doc_spec());
                let mid = choose|mid: Seq<SpecDoc>|
                    #![all_triggers]
                    sort_ok(Option::<&Vec<(String, Order)>>::None, sel, mid)
                        && crate::engine::docs_view(r->Ok_0@) == project_all(
                        spec_limit_docs(spec_skip_docs(mid, Option::<u64>::None), Option::<i64>::None),
                        proj_doc_of(*self),
                    );
                assert(mid == sel);
            }
        }
        r
    }

    /// The first matching record, read through this shape.
    pub fn find_one<F: Filter>(&self, mongo: &mut Mongo, filter: &F) -> (r: Result<
        Option<Document>,
        DbError,
    >)
        requires
            old(mongo).wf(),
        ensures
            final(mongo).wf(),
            final(mongo).db == old(mongo).db,
            final(mongo).session == old(mongo).session,
            old(mongo).db.failing ==> r == Result::<Option<Document>, DbError>::Err(
                DbError::Engine,
            ),
            !old(mongo).db.failing ==> r is Ok && (!any_match(
                old(mongo).db.docs(self.collection_name@),
                filter.doc_spec(),
            ) ==> r->Ok_0 is None) && (any_match(
                old(mongo).db.docs(self.collection_name@),
                filter.doc_spec(),
            ) ==> exists|i: int|
                #![all_triggers]
                is_first_match(old(mongo).db.docs(self.collection_name@), filter.doc_spec(), i)
                    && r->Ok_0 is Some && crate::document::doc_view(r->Ok_0->0) == (
                match proj_doc_of(*self) {
                    Option::Some(p) => spec_project(
                        old(mongo).db.docs(self.collection_name@)[i],
                        p,
                    ),
                    Option::None => old(mongo).db.docs(self.collection_name@)[i],
                }) && spec_wf(crate::document::doc_view(r->Ok_0->0))),
    {
        let pd = self.projection_document(&mut mongo.cache);
        let fd = filter.to_document();
        let pref = match &pd {
            Option::Some(d) => Option::Some(d),
            Option::None => Option::None,
        };
        mongo.db.find_one(&self.collection_name, &fd, pref)
    }

    /// Applies a raw update document to the first matching record and hands
    /// back that record as it stood before the update, read through this
    /// shape. The update document is sent as given; the store accepts only a
    /// single "set" operator.
    pub fn find_one_and_update<F: Filter, U: Update>(
        &self,
        mongo: &mut Mongo,
        filter: &F,
        update: &U,
    ) -> (r: Result<Option<Document>, DbError>)
        requires
            old(mongo).wf(),
        ensures
            final(mongo).wf(),
            final(mongo).session == old(mongo).session,
            final(mongo).db.failing == old(mongo).db.failing,
            old(mongo).db.failing ==> r == Result::<Option<Document>, DbError>::Err(
                DbError::Engine,
            ) && final(mongo).db == old(mongo).db,
            !old(mongo).db.failing && set_payload(update.doc_spec()) is None ==> r == Result::<
                Option<Document>,
                DbError,
            >::Err(DbError::UnsupportedUpdate) && final(mongo).db == old(mongo).db,
            !old(mongo).db.failing && set_payload(update.doc_spec()) is Some ==> r is Ok && (forall|
                n: Seq<char>,
            |
                n != self.collection_name@ ==> #[trigger] final(mongo).db.docs(n) == old(mongo).db.docs(n)) && (forall|n: Seq<char>| #[trigger] final(mongo).db.indexes_of(n)
                == old(mongo).db.indexes_of(n)) && (!any_match(
                old(mongo).db.docs(self.collection_name@),
                filter.doc_spec(),
            ) ==> final(mongo).db.docs(self.collection_name@) == old(mongo).db.docs(
                self.collection_name@,
            ) && r->Ok_0 is None) && (any_match(
                old(mongo).db.docs(self.collection_name@),
                filter.doc_spec(),
            ) ==> exists|i: int|
                #![all_triggers]
                is_first_match(old(mongo).db.docs(self.collection_name@), filter.doc_spec(), i)
                    && final(mongo).db.docs(self.collection_name@) == old(mongo).db.docs(
                    self.collection_name@,
                ).update(
                    i,
                    set_all(
                        set_payload(update.doc_spec())->0,
                        old(mongo).db.docs(self.collection_name@)[i],
                    ),
                ) && r->Ok_0 is Some && crate::document::doc_view(r->Ok_0->0) == (
                match proj_doc_of(*self) {
                    Option::Some(p) => spec_project(
                        old(mongo).db.docs(self.collection_name@)[i],
                        p,
                    ),
                    Option::None => old(mongo).db.docs(self.collection_name@)[i],
                })),
    {
        let pd = self.projection_document(&mut mongo.cache);
        let fd = filter.to_document();
        let ud = update.to_document();
        let pref = match &pd {
            Option::Some(d) => Option::Some(d),
            Option::None => Option::None,
        };
        mongo.db.find_one_and_update(&self.collection_name, &fd, &ud, pref)
    }

    /// As `find_one_and_update`, inside a transaction: the write locks the
    /// record, so the returned value carries the lock token.
    pub fn find_one_and_update_locked<F: Filter, U: Update>(
        &self,
        trx: &mut Transaction,
        filter: &F,
        update: &U,
    ) -> (r: Result<Option<Lock<Document>>, DbError>)
        requires
            old(trx).wf(),
        ensures
            final(trx).wf(),
            final(trx).session == old(trx).session,
            final(trx).db.failing == old(trx).db.failing,
            r is Err ==> final(trx).db == old(trx).db,
            forall|n: Seq<char>| #[trigger]
                final(trx).db.indexes_of(n) == old(trx).db.indexes_of(n),
            !old(trx).db.failing && set_payload(update.doc_spec()) is Some ==> r is Ok && (forall|
                n: Seq<char>,
            |
                n != self.collection_name@ ==> #[trigger] final(trx).db.docs(n) == old(trx).db.docs(n)) && (!any_match(
                old(trx).db.docs(self.collection_name@),
                filter.doc_spec(),
            ) ==> final(trx).db.docs(self.collection_name@) == old(trx).db.docs(
                self.collection_name@,
            ) && r->Ok_0 is None) && (any_match(
                old(trx).db.docs(self.collection_name@),
                filter.doc_spec(),
            ) ==> exists|i: int|
                #![all_triggers]
                is_first_match(old(trx).db.docs(self.collection_name@), filter.doc_spec(), i)
                    && final(trx).db.docs(self.collection_name@) == old(trx).db.docs(
                    self.collection_name@,
                ).update(
                    i,
                    set_all(
                        set_payload(update.doc_spec())->0,
                        old(trx).db.docs(self.collection_name@)[i],
                    ),
                ) && r->Ok_0 is Some && crate::document::doc_view(r->Ok_0->0.value()) == (
                match proj_doc_of(*self) {
                    Option::Some(p) => spec_project(old(trx).db.docs(self.collection_name@)[i], p),
                    Option::None => old(trx).db.docs(self.collection_name@)[i],
                })),
    {
        let pd = self.projection_document(&mut trx.cache);
        let fd = filter.to_document();
        let ud = update.to_document();
        let pref = match &pd {
            Option::Some(d) => Option::Some(d),
            Option::None => Option::None,
        };
        match trx.db.find_one_and_update(&self.collection_name, &fd, &ud, pref) {
            Result::Ok(Option::Some(d)) => Result::Ok(Option::Some(Lock::lock_new(d))),
            Result::Ok(Option::None) => Result::Ok(Option::None),
            Result::Err(e) => Result::Err(e),
        }
    }

    /// Locks the first matching record with a dummy write — a fresh seed under
    /// the reserved lock field — and hands it back, read through this shape,
    /// carrying the lock token.
    pub fn find_one_and_lock<F: Filter>(&self, trx: &mut Transaction, filter: &F) -> (r: Result<
        Option<Lock<Document>>,
        DbError,
    >)
        requires
            old(trx).wf(),
        ensures
            final(trx).wf(),
            final(trx).session == old(trx).session,
            final(trx).db.failing == old(trx).db.failing,
            r is Err ==> final(trx).db == old(trx).db,
            forall|n: Seq<char>| #[trigger]
                final(trx).db.indexes_of(n) == old(trx).db.indexes_of(n),
            !old(trx).db.failing ==> r is Ok && (forall|n: Seq<char>|
                n != self.collection_name@ ==> #[trigger] final(trx).db.docs(n) == old(trx).db.docs(n)) && (!any_match(
                old(trx).db.docs(self.collection_name@),
                filter.doc_spec(),
            ) ==> final(trx).db.docs(self.collection_name@) == old(trx).db.docs(
                self.collection_name@,
            ) && r->Ok_0 is None) && (any_match(
                old(trx).db.docs(self.collection_name@),
                filter.doc_spec(),
            ) ==> r->Ok_0 is Some && exists|i: int, seed: ObjectId|
                #![all_triggers]
                is_first_match(old(trx).db.docs(self.collection_name@), filter.doc_spec(), i)
                    && final(trx).db.docs(self.collection_name@) == old(trx).db.docs(
                    self.collection_name@,
                ).update(
                    i,
                    set_all(lock_payload_spec(seed), old(trx).db.docs(self.collection_name@)[i]),
                ) && crate::document::doc_view(r->Ok_0->0.value()) == (
                match proj_doc_of(*self) {
                    Option::Some(p) => spec_project(old(trx).db.docs(self.collection_name@)[i], p),
                    Option::None => old(trx).db.docs(self.collection_name@)[i],
                })),
    {
        let seed = fresh_object_id();
        let u = lock_update_document(seed);
        let r = self.find_one_and_update_locked(trx, filter, &u);
        proof {
            if !old(trx).db.failing && any_match(
                old(trx).db.docs(self.collection_name@),
                filter.doc_spec(),
            ) {
                let docs = old(trx).db.docs(self.collection_name@);
                let i = choose|i: int|
                    #![all_triggers]
                    is_first_match(docs, filter.doc_spec(), i) && final(trx).db.docs(
                        self.collection_name@,
                    ) == docs.update(
                        i,
                        set_all(set_payload(u.doc_spec())->0, docs[i]),
                    );
                assert(set_payload(u.doc_spec())->0 == lock_payload_spec(seed));
                // the returned token wraps the same first match
                let i2 = choose|i2: int|
                    #![all_triggers]
                    is_first_match(docs, filter.doc_spec(), i2) && r->Ok_0 is Some
                        && crate::document::doc_view(r->Ok_0->0.value()) == (
                    match proj_doc_of(*self) {
                        Option::Some(p) => spec_project(docs[i2], p),
                        Option::None => docs[i2],
                    });
                crate::engine::lemma_first_match_unique(docs, filter.doc_spec(), i, i2);
            }
        }
        match r {
            Result::Ok(v) => Result::Ok(v),
            Result::Err(e) => Result::Err(e),
        }
    }

    /// The identity value a record read through this shape holds.
    pub fn id(&self, value: &Document) -> (r: Bson)
        requires
            self.includes_id,
            value.wf(),
            spec_contains_key(value@, ("_id")@),
        ensures
            Option::Some(bson_view(r)) == spec_get(value@, ("_id")@),
    {
        let idw = "_id".to_owned();
        match value.get(&idw) {
            Option::Some(b) => bson_clone(b),
            Option::None => {
                proof {
                    assert(false);
                }
                Bson::Int32(0i32)
            },
        }
    }
}

/// Applies an update to the one record holding the in-memory value's identity
/// and, only after the store acknowledged the write, mirrors it into the
/// in-memory value; a failed write leaves the value untouched.
fn patch_impl<U: Update + UpdateApply>(
    collection_name: &String,
    db: &mut Database,
    value: &mut Document,
    applier: &UpdateApplier,
    update: &U,
) -> (r: Result<(), DbError>)
    requires
        old(db).wf(),
        old(value).wf(),
        spec_contains_key(old(value)@, ("_id")@),
    ensures
        final(db).wf(),
        final(db).failing == old(db).failing,
        r is Err ==> *final(value) == *old(value) && *final(db) == *old(db),
        old(db).failing ==> r == Result::<(), DbError>::Err(DbError::Engine),
        !old(db).failing ==> r is Ok,
        forall|n: Seq<char>| #[trigger] final(db).indexes_of(n) == old(db).indexes_of(n),
        r is Ok ==> final(value)@ == update.apply_spec(strings_view(applier.wires@), old(value)@)
            && final(value).wf() && (forall|n: Seq<char>|
            n != collection_name@ ==> #[trigger] final(db).docs(n) == old(db).docs(n)) && (forall|
            n: Seq<char>,
        | #[trigger] final(db).indexes_of(n) == old(db).indexes_of(n)) && {
            let docs = old(db).docs(collection_name@);
            let f = id_filter_spec(spec_get(old(value)@, ("_id")@)->0);
            &&& !any_match(docs, f) ==> final(db).docs(collection_name@) == docs
            &&& any_match(docs, f) ==> exists|i: int|
                is_first_match(docs, f, i) && final(db).docs(collection_name@) == docs.update(
                    i,
                    set_all(update.doc_spec(), docs[i]),
                )
        },
{
    let idw = "_id".to_owned();
    let idb = match value.get(&idw) {
        Option::Some(b) => bson_clone(b),
        Option::None => {
            proof {
                assert(false);
            }
            Bson::Int32(0i32)
        },
    };
    let mut fd = Document::new();
    fd.insert("_id".to_owned(), idb);
    proof {
        assert(fd@ =~= id_filter_spec(spec_get(old(value)@, ("_id")@)->0));
    }
    let w = wrap_set(update);
    proof {
        assert(set_payload(w@) is Some);
    }
    match db.update_one(collection_name, &fd, &w) {
        Result::Ok(_) => {
            update.apply(applier, value);
            Result::Ok(())
        },
        Result::Err(e) => Result::Err(e),
    }
}

impl Projection {
    /// Applies an update to the one record holding this value's identity,
    /// then mirrors it into the in-memory value. The in-memory and persisted
    /// states agree afterwards exactly when the store acknowledged the write;
    /// a failed write leaves the in-memory value untouched.
    pub fn patch<U: Update + UpdateApply>(
        &self,
        mongo: &mut Mongo,
        value: &mut Document,
        applier: &UpdateApplier,
        update: &U,
    ) -> (r: Result<(), DbError>)
        requires
            self.includes_id,
            old(mongo).wf(),
            old(value).wf(),
            spec_contains_key(old(value)@, ("_id")@),
        ensures
            final(mongo).wf(),
            final(mongo).session == old(mongo).session,
            final(mongo).db.failing == old(mongo).db.failing,
            r is Err ==> *final(value) == *old(value) && final(mongo).db == old(mongo).db,
            old(mongo).db.failing ==> r == Result::<(), DbError>::Err(DbError::Engine),
            !old(mongo).db.failing ==> r is Ok,
            forall|n: Seq<char>| #[trigger]
                final(mongo).db.indexes_of(n) == old(mongo).db.indexes_of(n),
            r is Ok ==> final(value)@ == update.apply_spec(
                strings_view(applier.wires@),
                old(value)@,
            ) && final(value).wf() && (forall|n: Seq<char>|
                n != self.collection_name@ ==> #[trigger] final(mongo).db.docs(n) == old(mongo).db.docs(n)) && {
                let docs = old(mongo).db.docs(self.collection_name@);
                let f = id_filter_spec(spec_get(old(value)@, ("_id")@)->0);
                &&& !any_match(docs, f) ==> final(mongo).db.docs(self.collection_name@) == docs
                &&& any_match(docs, f) ==> exists|i: int|
                    is_first_match(docs, f, i) && final(mongo).db.docs(self.collection_name@)
                        == docs.update(i, set_all(update.doc_spec(), docs[i]))
            },
    {
        patch_impl(&self.collection_name, &mut mongo.db, value, applier, update)
    }

    /// As `patch`, inside a transaction: the successful write locks the
    /// record, so the patched value comes back carrying the lock token.
    pub fn patch_locked<U: Update + UpdateApply>(
        &self,
        trx: &mut Transaction,
        value: Document,
        applier: &UpdateApplier,
        update: &U,
    ) -> (r: Result<Lock<Document>, DbError>)
        requires
            self.includes_id,
            old(trx).wf(),
            value.wf(),
            spec_contains_key(value@, ("_id")@),
        ensures
            final(trx).wf(),
            final(trx).session == old(trx).session,
            final(trx).db.failing == old(trx).db.failing,
            r is Err ==> final(trx).db == old(trx).db,
            old(trx).db.failing ==> r == Result::<Lock<Document>, DbError>::Err(DbError::Engine),
            !old(trx).db.failing ==> r is Ok,
            forall|n: Seq<char>| #[trigger]
                final(trx).db.indexes_of(n) == old(trx).db.indexes_of(n),
            r is Ok ==> crate::document::doc_view(r->Ok_0.value()) == update.apply_spec(
                strings_view(applier.wires@),
                value@,
            ) && (forall|n: Seq<char>|
                n != self.collection_name@ ==> #[trigger] final(trx).db.docs(n) == old(
                    trx,
                ).db.docs(n)) && {
                let docs = old(trx).db.docs(self.collection_name@);
                let f = id_filter_spec(spec_get(value@, ("_id")@)->0);
                &&& !any_match(docs, f) ==> final(trx).db.docs(self.collection_name@) == docs
                &&& any_match(docs, f) ==> exists|i: int|
                    is_first_match(docs, f, i) && final(trx).db.docs(self.collection_name@)
                        == docs.update(i, set_all(update.doc_spec(), docs[i]))
            },
    {
        let mut v = value;
        match patch_impl(&self.collection_name, &mut trx.db, &mut v, applier, update) {
            Result::Ok(_) => Result::Ok(Lock::lock_new(v)),
            Result::Err(e) => Result::Err(e),
        }
    }

    /// Deletes the one record holding this value's identity.
    pub fn remove(&self, mongo: &mut Mongo, value: &Document) -> (r: Result<(), DbError>)
        requires
            self.includes_id,
            old(mongo).wf(),
            value.wf(),
            spec_contains_key(value@, ("_id")@),
        ensures
            final(mongo).wf(),
            final(mongo).session == old(mongo).session,
            final(mongo).db.failing == old(mongo).db.failing,
            old(mongo).db.failing ==> r == Result::<(), DbError>::Err(DbError::Engine) && final(mongo).db == old(mongo).db,
            !old(mongo).db.failing ==> r is Ok && (forall|n: Seq<char>|
                n != self.collection_name@ ==> #[trigger] final(mongo).db.docs(n) == old(mongo).db.docs(n)) && {
                let docs = old(mongo).db.docs(self.collection_name@);
                let f = id_filter_spec(spec_get(value@, ("_id")@)->0);
                &&& !any_match(docs, f) ==> final(mongo).db.docs(self.collection_name@) == docs
                &&& any_match(docs, f) ==> exists|i: int|
                    is_first_match(docs, f, i) && final(mongo).db.docs(self.collection_name@)
                        == docs.remove(i)
            },
    {
        let idb = self.id(value);
        let mut fd = Document::new();
        fd.insert("_id".to_owned(), idb);
        proof {
            assert(fd@ =~= id_filter_spec(spec_get(value@, ("_id")@)->0));
        }
        mongo.db.delete_one(&self.collection_name, &fd)
    }
}

impl Entity {
    /// Stores a record inside a transaction: the insert itself locks it —
    /// the inserted record is exclusively visible to the inserting transaction
    /// until commit — so the record comes back carrying the lock token.
    pub fn insert_locked(&self, trx: &mut Transaction, record: Document) -> (r: Result<
        Lock<Document>,
        DbError,
    >)
        requires
            old(trx).wf(),
            record.wf(),
        ensures
            final(trx).wf(),
            final(trx).session == old(trx).session,
            final(trx).db.failing == old(trx).db.failing,
            old(trx).db.failing ==> r == Result::<Lock<Document>, DbError>::Err(DbError::Engine)
                && final(trx).db == old(trx).db,
            !old(trx).db.failing ==> r is Ok && r->Ok_0.value() == record && final(trx).db.docs(
                self.collection_name@,
            ) == old(trx).db.docs(self.collection_name@).push(record@) && (forall|n: Seq<char>|
                n != self.collection_name@ ==> #[trigger] final(trx).db.docs(n) == old(trx).db.docs(n)),
    {
        match trx.db.insert_one(&self.collection_name, doc_clone(&record)) {
            Result::Ok(_) => Result::Ok(Lock::lock_new(record)),
            Result::Err(e) => Result::Err(e),
        }
    }

    /// Stores records inside a transaction, handing each back with its lock
    /// token.
    pub fn insert_many_locked(&self, trx: &mut Transaction, records: Vec<Document>) -> (r: Result<
        Vec<Lock<Document>>,
        DbError,
    >)
        requires
            old(trx).wf(),
            forall|i: int|
                0 <= i < records@.len() ==> spec_wf(#[trigger] crate::engine::docs_view(records@)[i]),
        ensures
            final(trx).wf(),
            final(trx).session == old(trx).session,
            final(trx).db.failing == old(trx).db.failing,
            old(trx).db.failing ==> r is Err && final(trx).db == old(trx).db,
            !old(trx).db.failing ==> r is Ok && final(trx).db.docs(self.collection_name@) == old(trx).db.docs(self.collection_name@) + crate::engine::docs_view(records@) && (forall|
                n: Seq<char>,
            |
                n != self.collection_name@ ==> #[trigger] final(trx).db.docs(n) == old(trx).db.docs(n)) && r->Ok_0@.len() == records@.len() && (forall|i: int|
                0 <= i < records@.len() ==> (#[trigger] r->Ok_0@[i]).value() == records@[i]),
    {
        let n = records.len();
        let mut copies: Vec<Document> = Vec::new();
        let mut i: usize = 0;
        while i < n
            invariant
                n == records@.len(),
                i <= n,
                copies@.len() == i,
                forall|j: int|
                    0 <= j < i ==> #[trigger] crate::engine::docs_view(copies@)[j]
                        == crate::engine::docs_view(records@)[j],
            decreases n - i,
        {
            let ghost pre = copies@;
            let c = doc_clone(&records[i]);
            copies.push(c);
            proof {
                assert forall|j: int| 0 <= j < i + 1 implies #[trigger] crate::engine::docs_view(
                    copies@,
                )[j] == crate::engine::docs_view(records@)[j] by {
                    if j < i {
                        assert(crate::engine::docs_view(copies@)[j]
                            == crate::engine::docs_view(pre)[j]);
                    } else {
                        assert(crate::document::doc_view(copies@[j]) == crate::document::doc_view(
                            records@[j],
                        ));
                    }
                }
            }
            i += 1;
        }
        proof {
            assert(crate::engine::docs_view(copies@) =~= crate::engine::docs_view(records@));
        }
        match trx.db.insert_many(&self.collection_name, copies) {
            Result::Ok(_) => {
                let mut out: Vec<Lock<Document>> = Vec::new();
                let mut rest = records;
                let mut k: usize = 0;
                let ghost orig = rest@;
                while rest.len() > 0
                    invariant
                        orig.len() <= usize::MAX,
                        k + rest@.len() == orig.len(),
                        forall|j: int| 0 <= j < rest@.len() ==> #[trigger] rest@[j] == orig[k + j],
                        out@.len() == k,
                        forall|j: int| 0 <= j < k ==> (#[trigger] out@[j]).value() == orig[j],
                    decreases rest@.len(),
                {
                    let d = rest.remove(0);
                    proof {
                        assert(d == orig[k as int]);
                        assert forall|j: int| 0 <= j < rest@.len() implies #[trigger] rest@[j]
                            == orig[k + 1 + j] by {}
                    }
                    out.push(Lock::lock_new(d));
                    k += 1;
                }
                Result::Ok(out)
            },
            Result::Err(e) => Result::Err(e),
        }
    }

    /// Updates the record with the given identity inside a transaction: the
    /// update write itself serves as the lock, so the identity comes back
    /// carrying the lock token.
    pub fn update_by_id_locked<U: Update>(&self, trx: &mut Transaction, id: Bson, update: &U) -> (r:
        Result<Lock<Bson>, DbError>)
        requires
            old(trx).wf(),
        ensures
            final(trx).wf(),
            final(trx).session == old(trx).session,
            final(trx).db.failing == old(trx).db.failing,
            r is Err ==> final(trx).db == old(trx).db,
            old(trx).db.failing ==> r is Err,
            !old(trx).db.failing && set_payload(
                seq![(("$set")@, SpecBson::Doc(update.doc_spec()))],
            ) is Some ==> r is Ok,
            r is Ok ==> r->Ok_0.value() == id && (forall|n: Seq<char>|
                n != self.collection_name@ ==> #[trigger] final(trx).db.docs(n) == old(trx).db.docs(n)) && {
                let docs = old(trx).db.docs(self.collection_name@);
                let f = id_filter_spec(bson_view(id));
                &&& !any_match(docs, f) ==> final(trx).db.docs(self.collection_name@) == docs
                &&& any_match(docs, f) ==> exists|i: int|
                    is_first_match(docs, f, i) && final(trx).db.docs(self.collection_name@)
                        == docs.update(i, set_all(update.doc_spec(), docs[i]))
            },
    {
        let mut fd = Document::new();
        fd.insert("_id".to_owned(), bson_clone(&id));
        proof {
            assert(fd@ =~= id_filter_spec(bson_view(id)));
        }
        let w = wrap_set(update);
        match trx.db.update_one(&self.collection_name, &fd, &w) {
            Result::Ok(_) => Result::Ok(Lock::lock_new(id)),
            Result::Err(e) => Result::Err(e),
        }
    }

    /// Locks the record with the given identity with a dummy write — a fresh
    /// seed under the reserved lock field — purely so a competing transaction
    /// touching the same record conflicts at commit.
    pub fn lock_by_id(&self, trx: &mut Transaction, id: Bson) -> (r: Result<Lock<Bson>, DbError>)
        requires
            old(trx).wf(),
        ensures
            final(trx).wf(),
            final(trx).session == old(trx).session,
            final(trx).db.failing == old(trx).db.failing,
            r is Err ==> final(trx).db == old(trx).db,
            old(trx).db.failing ==> r is Err,
            !old(trx).db.failing ==> r is Ok,
            r is Ok ==> r->Ok_0.value() == id && (forall|n: Seq<char>|
                n != self.collection_name@ ==> #[trigger] final(trx).db.docs(n) == old(trx).db.docs(n)) && {
                let docs = old(trx).db.docs(self.collection_name@);
                let f = id_filter_spec(bson_view(id));
                &&& !any_match(docs, f) ==> final(trx).db.docs(self.collection_name@) == docs
                &&& any_match(docs, f) ==> exists|i: int, seed: ObjectId|
                    #![all_triggers]
                    is_first_match(docs, f, i) && final(trx).db.docs(self.collection_name@)
                        == docs.update(i, set_all(lock_payload_spec(seed), docs[i]))
            },
    {
        let seed = fresh_object_id();
        let u = lock_update_document(seed);
        let mut fd = Document::new();
        fd.insert("_id".to_owned(), bson_clone(&id));
        proof {
            assert(fd@ =~= id_filter_spec(bson_view(id)));
        }
        let ud = u.to_document();
        match trx.db.update_one(&self.collection_name, &fd, &ud) {
            Result::Ok(_) => Result::Ok(Lock::lock_new(id)),
            Result::Err(e) => Result::Err(e),
        }
    }
}

/// Relies on `bson::oid::ObjectId::new` and `bytes`: a fresh 12-byte object
/// id, drawn from the clock, the process and its random counter; nothing is
/// assumed of the value.
#[verifier::external_body]
fn fresh_oid_bytes() -> [u8; 12] {
    bson::oid::ObjectId::new().bytes()
}

/// The dummy-write payload: the reserved, otherwise unused lock field set to a
/// seed value.
pub open spec fn lock_payload_spec(seed: ObjectId) -> SpecDoc {
    seq![
        (("_lock")@, SpecBson::Doc(seq![(("seed")@, SpecBson::Oid(seed))])),
    ]
}

/// The dummy-write update: sets the reserved lock field to the seed, purely to
/// force the transaction machinery to detect a write conflict.
pub fn lock_update_document(seed: ObjectId) -> (u: UntypedUpdate)
    ensures
        u.doc_spec() == seq![(("$set")@, SpecBson::Doc(lock_payload_spec(seed)))],
        set_payload(u.doc_spec()) == Option::Some(lock_payload_spec(seed)),
{
    let mut inner = Document::new();
    inner.insert("seed".to_owned(), Bson::Oid(seed));
    let mut lockdoc = Document::new();
    lockdoc.insert("_lock".to_owned(), Bson::Doc(inner));
    let mut outer = Document::new();
    outer.insert("$set".to_owned(), Bson::Doc(lockdoc));
    proof {
        assert(outer@ =~= seq![(("$set")@, SpecBson::Doc(lock_payload_spec(seed)))]);
        assert(outer@[0].1->Doc_0 =~= lock_payload_spec(seed));
        assert(outer@[0].1->Doc_0[0].1->Doc_0 =~= seq![(("seed")@, SpecBson::Oid(seed))]);
    }
    UntypedUpdate::new(outer)
}

/// Wraps an update's partial document under the "set" operator, as the update
/// operations send it.
fn wrap_set<U: Update>(update: &U) -> (w: Document)
    ensures
        set_payload(w@) == Option::Some(update.doc_spec()),
{
    let mut w = Document::new();
    w.insert("$set".to_owned(), Bson::Doc(update.to_document()));
    proof {
        assert(w@ =~= seq![(("$set")@, SpecBson::Doc(update.doc_spec()))]);
    }
    w
}

impl Entity {
    /// How many records of this record type match the filter.
    pub fn count<F: Filter>(&self, mongo: &Mongo, filter: &F) -> (r: Result<u64, DbError>)
        requires
            mongo.wf(),
        ensures
            mongo.db.failing ==> r == Result::<u64, DbError>::Err(DbError::Engine),
            !mongo.db.failing ==> r is Ok && r->Ok_0 == spec_count(
                mongo.db.docs(self.collection_name@),
                filter.doc_spec(),
            ),
    {
        let fd = filter.to_document();
        mongo.db.count_documents(&self.collection_name, &fd)
    }

    /// Whether any record of this record type matches the filter.
    pub fn exists_match<F: Filter>(&self, mongo: &Mongo, filter: &F) -> (r: Result<bool, DbError>)
        requires
            mongo.wf(),
        ensures
            mongo.db.failing ==> r == Result::<bool, DbError>::Err(DbError::Engine),
            !mongo.db.failing ==> r is Ok && r->Ok_0 == (spec_count(
                mongo.db.docs(self.collection_name@),
                filter.doc_spec(),
            ) > 0),
    {
        match self.count(mongo, filter) {
            Result::Ok(c) => Result::Ok(c > 0),
            Result::Err(e) => Result::Err(e),
        }
    }

    /// Stores a record.
    pub fn insert(&self, mongo: &mut Mongo, record: &Document) -> (r: Result<(), DbError>)
        requires
            old(mongo).wf(),
            record.wf(),
        ensures
            final(mongo).wf(),
            final(mongo).session == old(mongo).session,
            final(mongo).db.failing == old(mongo).db.failing,
            old(mongo).db.failing ==> r == Result::<(), DbError>::Err(DbError::Engine) && final(mongo).db == old(mongo).db,
            !old(mongo).db.failing ==> r is Ok && final(mongo).db.docs(self.collection_name@)
                == old(mongo).db.docs(self.collection_name@).push(record@) && (forall|n: Seq<char>|
                n != self.collection_name@ ==> #[trigger] final(mongo).db.docs(n) == old(mongo).db.docs(n)) && (forall|n: Seq<char>| #[trigger] final(mongo).db.indexes_of(n)
                == old(mongo).db.indexes_of(n)),
    {
        mongo.db.insert_one(&self.collection_name, doc_clone(record))
    }

    /// Stores each of the records, in order.
    pub fn insert_many(&self, mongo: &mut Mongo, records: &Vec<Document>) -> (r: Result<
        (),
        DbError,
    >)
        requires
            old(mongo).wf(),
            forall|i: int|
                0 <= i < records@.len() ==> spec_wf(#[trigger] crate::engine::docs_view(records@)[i]),
        ensures
            final(mongo).wf(),
            final(mongo).session == old(mongo).session,
            final(mongo).db.failing == old(mongo).db.failing,
            old(mongo).db.failing ==> r == Result::<(), DbError>::Err(DbError::Engine) && final(mongo).db == old(mongo).db,
            !old(mongo).db.failing ==> r is Ok && final(mongo).db.docs(self.collection_name@)
                == old(mongo).db.docs(self.collection_name@) + crate::engine::docs_view(records@)
                && (forall|n: Seq<char>|
                n != self.collection_name@ ==> #[trigger] final(mongo).db.docs(n) == old(mongo).db.docs(n)) && (forall|n: Seq<char>| #[trigger] final(mongo).db.indexes_of(n)
                == old(mongo).db.indexes_of(n)),
    {
        let n = records.len();
        let mut copies: Vec<Document> = Vec::new();
        let mut i: usize = 0;
        while i < n
            invariant
                n == records@.len(),
                i <= n,
                copies@.len() == i,
                forall|j: int|
                    0 <= j < i ==> #[trigger] crate::engine::docs_view(copies@)[j]
                        == crate::engine::docs_view(records@)[j],
            decreases n - i,
        {
            let ghost pre = copies@;
            let c = doc_clone(&records[i]);
            copies.push(c);
            proof {
                assert forall|j: int| 0 <= j < i + 1 implies #[trigger] crate::engine::docs_view(
                    copies@,
                )[j] == crate::engine::docs_view(records@)[j] by {
                    if j < i {
                        assert(crate::engine::docs_view(copies@)[j]
                            == crate::engine::docs_view(pre)[j]);
                    } else {
                        assert(crate::document::doc_view(copies@[j]) == crate::document::doc_view(
                            records@[j],
                        ));
                    }
                }
            }
            i += 1;
        }
        proof {
            assert(crate::engine::docs_view(copies@) =~= crate::engine::docs_view(records@));
        }
        mongo.db.insert_many(&self.collection_name, copies)
    }

    /// Applies the update, wrapped under the "set" operator, to every matching
    /// record.
    pub fn update<F: Filter, U: Update>(&self, mongo: &mut Mongo, filter: &F, update: &U) -> (r:
        Result<(), DbError>)
        requires
            old(mongo).wf(),
        ensures
            final(mongo).wf(),
            final(mongo).session == old(mongo).session,
            final(mongo).db.failing == old(mongo).db.failing,
            old(mongo).db.failing ==> r == Result::<(), DbError>::Err(DbError::Engine) && final(mongo).db == old(mongo).db,
            !old(mongo).db.failing ==> r is Ok && final(mongo).db.docs(self.collection_name@)
                == update_all(
                old(mongo).db.docs(self.collection_name@),
                filter.doc_spec(),
                update.doc_spec(),
            ) && (forall|n: Seq<char>|
                n != self.collection_name@ ==> #[trigger] final(mongo).db.docs(n) == old(mongo).db.docs(n)) && (forall|n: Seq<char>| #[trigger] final(mongo).db.indexes_of(n)
                == old(mongo).db.indexes_of(n)),
    {
        let fd = filter.to_document();
        let w = wrap_set(update);
        mongo.db.update_many(&self.collection_name, &fd, &w)
    }

    /// Applies the update, wrapped under the "set" operator, to the first
    /// matching record.
    pub fn update_one<F: Filter, U: Update>(&self, mongo: &mut Mongo, filter: &F, update: &U) -> (r:
        Result<(), DbError>)
        requires
            old(mongo).wf(),
        ensures
            final(mongo).wf(),
            final(mongo).session == old(mongo).session,
            final(mongo).db.failing == old(mongo).db.failing,
            old(mongo).db.failing ==> r == Result::<(), DbError>::Err(DbError::Engine) && final(mongo).db == old(mongo).db,
            !old(mongo).db.failing ==> r is Ok && (forall|n: Seq<char>|
                n != self.collection_name@ ==> #[trigger] final(mongo).db.docs(n) == old(mongo).db.docs(n)) && (forall|n: Seq<char>| #[trigger] final(mongo).db.indexes_of(n)
                == old(mongo).db.indexes_of(n)) && (!any_match(
                old(mongo).db.docs(self.collection_name@),
                filter.doc_spec(),
            ) ==> final(mongo).db.docs(self.collection_name@) == old(mongo).db.docs(
                self.collection_name@,
            )) && (any_match(old(mongo).db.docs(self.collection_name@), filter.doc_spec())
                ==> exists|i: int|
                is_first_match(old(mongo).db.docs(self.collection_name@), filter.doc_spec(), i)
                    && final(mongo).db.docs(self.collection_name@) == old(mongo).db.docs(
                    self.collection_name@,
                ).update(
                    i,
                    set_all(update.doc_spec(), old(mongo).db.docs(self.collection_name@)[i]),
                )),
    {
        let fd = filter.to_document();
        let w = wrap_set(update);
        mongo.db.update_one(&self.collection_name, &fd, &w)
    }

    /// Deletes every matching record.
    pub fn delete<F: Filter>(&self, mongo: &mut Mongo, filter: &F) -> (r: Result<(), DbError>)
        requires
            old(mongo).wf(),
        ensures
            final(mongo).wf(),
            final(mongo).session == old(mongo).session,
            final(mongo).db.failing == old(mongo).db.failing,
            old(mongo).db.failing ==> r == Result::<(), DbError>::Err(DbError::Engine) && final(mongo).db == old(mongo).db,
            !old(mongo).db.failing ==> r is Ok && final(mongo).db.docs(self.collection_name@)
                == remove_matches(old(mongo).db.docs(self.collection_name@), filter.doc_spec())
                && (forall|n: Seq<char>|
                n != self.collection_name@ ==> #[trigger] final(mongo).db.docs(n) == old(mongo).db.docs(n)) && (forall|n: Seq<char>| #[trigger] final(mongo).db.indexes_of(n)
                == old(mongo).db.indexes_of(n)),
    {
        let fd = filter.to_document();
        mongo.db.delete_many(&self.collection_name, &fd)
    }

    /// Deletes the first matching record.
    pub fn delete_one<F: Filter>(&self, mongo: &mut Mongo, filter: &F) -> (r: Result<(), DbError>)
        requires
            old(mongo).wf(),
        ensures
            final(mongo).wf(),
            final(mongo).session == old(mongo).session,
            final(mongo).db.failing == old(mongo).db.failing,
            old(mongo).db.failing ==> r == Result::<(), DbError>::Err(DbError::Engine) && final(mongo).db == old(mongo).db,
            !old(mongo).db.failing ==> r is Ok && (forall|n: Seq<char>|
                n != self.collection_name@ ==> #[trigger] final(mongo).db.docs(n) == old(mongo).db.docs(n)) && (forall|n: Seq<char>| #[trigger] final(mongo).db.indexes_of(n)
                == old(mongo).db.indexes_of(n)) && (!any_match(
                old(mongo).db.docs(self.collection_name@),
                filter.doc_spec(),
            ) ==> final(mongo).db.docs(self.collection_name@) == old(mongo).db.docs(
                self.collection_name@,
            )) && (any_match(old(mongo).db.docs(self.collection_name@), filter.doc_spec())
                ==> exists|i: int|
                is_first_match(old(mongo).db.docs(self.collection_name@), filter.doc_spec(), i)
                    && final(mongo).db.docs(self.collection_name@) == old(mongo).db.docs(
                    self.collection_name@,
                ).remove(i)),
    {
        let fd = filter.to_document();
        mongo.db.delete_one(&self.collection_name, &fd)
    }

    /// The record type read as its own shape: the whole record is fetched, no
    /// read-projection document is used, and the identity field is present.
    pub fn record_projection(&self) -> (p: Projection)
        ensures
            p.collection_name@ == self.collection_name@,
            p.fields is None,
            p.includes_id,
    {
        Projection {
            name: self.collection_name.clone(),
            collection_name: self.collection_name.clone(),
            fields: Option::None,
            includes_id: true,
        }
    }

    /// Sort keys over this record's field-name enumeration: each pair names a
    /// field by its position there, rendered to its wire name.
    pub fn sort_spec(&self, keys: &Vec<(usize, Order)>) -> (r: Vec<(String, Order)>)
        requires
            forall|i: int| 0 <= i < keys@.len() ==> (#[trigger] keys@[i]).0 < self.fields_enum.variants@.len(),
        ensures
            r@.len() == keys@.len(),
            forall|i: int|
                0 <= i < keys@.len() ==> (#[trigger] r@[i]).0@
                    == self.fields_enum.variants@[keys@[i].0 as int].1@ && r@[i].1 == keys@[i].1,
    {
        let n = keys.len();
        let mut out: Vec<(String, Order)> = Vec::new();
        let mut i: usize = 0;
        while i < n
            invariant
                n == keys@.len(),
                i <= n,
                out@.len() == i,
                forall|j: int| 0 <= j < n ==> (#[trigger] keys@[j]).0 < self.fields_enum.variants@.len(),
                forall|j: int|
                    0 <= j < i ==> (#[trigger] out@[j]).0@
                        == self.fields_enum.variants@[keys@[j].0 as int].1@ && out@[j].1
                        == keys@[j].1,
            decreases n - i,
        {
            let idx = keys[i].0;
            out.push((self.fields_enum.variants[idx].1.clone(), keys[i].1));
            i += 1;
        }
        out
    }
}

/// A fresh object id for a dummy locking write.
pub fn fresh_object_id() -> ObjectId {
    let b = fresh_oid_bytes();
    let v: u128 = ((b[0] as u128) << 88) | ((b[1] as u128) << 80) | ((b[2] as u128) << 72) | ((
    b[3] as u128) << 64) | ((b[4] as u128) << 56) | ((b[5] as u128) << 48) | ((b[6] as u128) << 40)
        | ((b[7] as u128) << 32) | ((b[8] as u128) << 24) | ((b[9] as u128) << 16) | ((
    b[10] as u128) << 8) | (b[11] as u128);
    ObjectId(v)
}

} // verus!
