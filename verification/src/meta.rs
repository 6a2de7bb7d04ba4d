//! Startup metadata: the registry of compiled record types and the routine
//! that applies every registered record's declared indexes to its collection.
//! The registry is an explicit value handed in by the application, built once
//! at startup.

use vstd::prelude::*;
use crate::crud::Mongo;
use crate::document::doc_clone;
use crate::engine::{imodel_view, imodels_view, DbError};
use crate::schema::{IndexDirection, IndexModel};

verus! {

broadcast use vstd::std_specs::vec::group_vec_axioms;

/// What index enforcement needs to know of one record type: its collection
/// and its declared index models.
#[derive(Debug)]
pub struct EntityMetadata {
    collection_name: String,
    indexes: Vec<IndexModel>,
}

impl EntityMetadata {
    /// The collection name.
    pub closed spec fn spec_collection_name(&self) -> Seq<char> {
        self.collection_name@
    }

    /// The declared index models.
    pub closed spec fn spec_indexes(&self) -> Seq<
        (Option<Seq<char>>, Seq<(Seq<char>, IndexDirection)>, crate::document::SpecDoc),
    > {
        imodels_view(self.indexes@)
    }

    /// Metadata for one record type.
    pub fn new(collection_name: String, indexes: Vec<IndexModel>) -> (m: EntityMetadata)
        ensures
            m.spec_collection_name() == collection_name@,
            m.spec_indexes() == imodels_view(indexes@),
    {
        EntityMetadata { collection_name, indexes }
    }

    /// The collection the record type is stored in.
    pub fn collection_name(&self) -> (r: &String)
        ensures
            r@ == self.spec_collection_name(),
    {
        &self.collection_name
    }

    /// The record type's declared indexes.
    pub fn indexes(&self) -> (r: &Vec<IndexModel>)
        ensures
            imodels_view(r@) == self.spec_indexes(),
    {
        &self.indexes
    }
}

/// One registered record type.
#[derive(Debug)]
pub struct EntityMetadataWrapper(pub EntityMetadata);

/// The record types registered at startup, one entry each; their collection
/// names are distinct.
#[derive(Debug)]
pub struct Registry {
    pub entries: Vec<EntityMetadataWrapper>,
}

impl Registry {
    /// Registered record types store in distinct collections.
    pub open spec fn wf(&self) -> bool {
        forall|i: int, j: int|
            #![trigger self.entries@[i].0.spec_collection_name(), self.entries@[j].0.spec_collection_name()]
            0 <= i < j < self.entries@.len() ==> self.entries@[i].0.spec_collection_name()
                != self.entries@[j].0.spec_collection_name()
    }

    /// An empty registry.
    pub fn new() -> (r: Registry)
        ensures
            r.wf(),
            r.entries@.len() == 0,
    {
        Registry { entries: Vec::new() }
    }
}

/// The registered record types, in registration order.
pub fn entity_metadata(registry: &Registry) -> (r: &Vec<EntityMetadataWrapper>)
    ensures
        r == &registry.entries,
{
    &registry.entries
}

/// A copy of an index model, equal by view.
fn imodel_clone(m: &IndexModel) -> (r: IndexModel)
    ensures
        imodel_view(r) == imodel_view(*m),
{
    let name = match &m.name {
        Option::Some(n) => Option::Some(n.clone()),
        Option::None => Option::None,
    };
    let nk = m.keys.len();
    let mut keys: Vec<(String, IndexDirection)> = Vec::new();
    let mut i: usize = 0;
    while i < nk
        invariant
            nk == m.keys@.len(),
            i <= nk,
            keys@.len() == i,
            forall|j: int|
                0 <= j < i ==> #[trigger] keys@[j].0@ == m.keys@[j].0@ && keys@[j].1 == m.keys@[j].1,
        decreases nk - i,
    {
        keys.push((m.keys[i].0.clone(), m.keys[i].1));
        i += 1;
    }
    let r = IndexModel { name, keys, options: doc_clone(&m.options) };
    proof {
        assert(imodel_view(r).1 =~= imodel_view(*m).1);
        assert(imodel_view(r) == imodel_view(*m));
    }
    r
}

/// Applies every registered record type's declared indexes to its collection,
/// in registration order. On an engine failure nothing is applied.
pub fn enforce_indexes(mongo: &mut Mongo, registry: &Registry) -> (r: Result<(), DbError>)
    requires
        old(mongo).wf(),
        registry.wf(),
    ensures
        final(mongo).wf(),
        final(mongo).session == old(mongo).session,
        final(mongo).db.failing == old(mongo).db.failing,
        old(mongo).db.failing ==> r == Result::<(), DbError>::Err(DbError::Engine) && final(mongo).db == old(mongo).db,
        !old(mongo).db.failing ==> r is Ok && (forall|j: int|
            0 <= j < registry.entries@.len() ==> #[trigger] final(mongo).db.indexes_of(
                registry.entries@[j].0.spec_collection_name(),
            ) == old(mongo).db.indexes_of(registry.entries@[j].0.spec_collection_name())
                + registry.entries@[j].0.spec_indexes()) && (forall|n: Seq<char>|
            (forall|j: int|
                0 <= j < registry.entries@.len() ==> #[trigger] registry.entries@[j].0.spec_collection_name()
                    != n) ==> #[trigger] final(mongo).db.indexes_of(n) == old(mongo).db.indexes_of(
                n,
            )) && (forall|n: Seq<char>| #[trigger] final(mongo).db.docs(n) == old(mongo).db.docs(
            n,
        )),
{
    if mongo.db.failing {
        return Result::Err(DbError::Engine);
    }
    let ghost orig = mongo.db;
    let n = registry.entries.len();
    let mut i: usize = 0;
    while i < n
        invariant
            registry.wf(),
            mongo.wf(),
            !mongo.db.failing,
            mongo.db.failing == orig.failing,
            n == registry.entries@.len(),
            i <= n,
            mongo.session == old(mongo).session,
            forall|j: int|
                0 <= j < i ==> #[trigger] mongo.db.indexes_of(
                    registry.entries@[j].0.spec_collection_name(),
                ) == orig.indexes_of(registry.entries@[j].0.spec_collection_name())
                    + registry.entries@[j].0.spec_indexes(),
            forall|n2: Seq<char>|
                (forall|j: int|
                    0 <= j < i ==> #[trigger] registry.entries@[j].0.spec_collection_name()
                        != n2) ==> #[trigger] mongo.db.indexes_of(n2) == orig.indexes_of(n2),
            forall|n2: Seq<char>| #[trigger] mongo.db.docs(n2) == orig.docs(n2),
        decreases n - i,
    {
        let md = &registry.entries[i].0;
        let src = md.indexes();
        let nm = src.len();
        let mut models: Vec<IndexModel> = Vec::new();
        let mut j: usize = 0;
        while j < nm
            invariant
                nm == src@.len(),
                j <= nm,
                models@.len() == j,
                forall|q: int|
                    0 <= q < j ==> #[trigger] imodel_view(models@[q]) == imodel_view(src@[q]),
            decreases nm - j,
        {
            models.push(imodel_clone(&src[j]));
            j += 1;
        }
        proof {
            assert(imodels_view(models@) =~= imodels_view(src@));
        }
        let ghost pre = mongo.db;
        let _ = mongo.db.create_indexes(md.collection_name(), models);
        proof {
            assert(mongo.db.indexes_of(md.spec_collection_name()) == pre.indexes_of(
                md.spec_collection_name(),
            ) + md.spec_indexes());
            assert forall|j2: int| 0 <= j2 < i + 1 implies #[trigger] mongo.db.indexes_of(
                registry.entries@[j2].0.spec_collection_name(),
            ) == orig.indexes_of(registry.entries@[j2].0.spec_collection_name())
                + registry.entries@[j2].0.spec_indexes() by {
                if j2 < i {
                    assert(registry.entries@[j2].0.spec_collection_name()
                        != md.spec_collection_name());
                }
            }
        }
        i += 1;
    }
    Result::Ok(())
}

} // verus!
