//! Filter construction: anything passed to a read, update or delete operation
//! serializes itself to a document through the `Filter` contract. The crate
//! supplies an identity filter, a raw escape hatch, a typed comparison
//! operator, and the per-record typed filter over wire names.

use vstd::prelude::*;
use crate::document::{
    bson_clone, bson_view, doc_clone, items_view, lemma_key_index_unique,
    lemma_pairs_fold_all_none, lemma_pairs_fold_props, lemma_pairs_value_unique, pairs_fold,
    pairs_given, pairs_index, pairs_wires, spec_contains_key, spec_get, spec_wf, vec_bson_clone,
    wires_wf, Bson, Document, SpecBson, SpecDoc,
};
use crate::field::Field;

verus! {

/// Anything that can stand where a filter document is expected. `doc_spec` is
/// the document it denotes; `to_document` produces exactly that document.
pub trait Filter {
    /// The document this filter denotes.
    spec fn doc_spec(&self) -> SpecDoc;

    /// Serializes the filter.
    fn to_document(&self) -> (d: Document)
        ensures
            d@ == self.doc_spec(),
    ;
}

/// A filter matching exactly the record whose identity field holds `id`.
#[derive(Debug)]
pub struct FilterById {
    pub id: Bson,
}

/// The filter that selects the record with the given identity value.
pub fn by_id(id: Bson) -> (f: FilterById)
    ensures
        f.id == id,
{
    FilterById { id }
}

impl Filter for FilterById {
    open spec fn doc_spec(&self) -> SpecDoc {
        seq![(("_id")@, bson_view(self.id))]
    }

    fn to_document(&self) -> (d: Document) {
        let mut d = Document::new();
        d.insert("_id".to_owned(), bson_clone(&self.id));
        proof {
            assert(d@ =~= self.doc_spec());
        }
        d
    }
}

/// An escape hatch: a filter wrapping an arbitrary document, for operators the
/// typed set does not cover.
#[derive(Debug)]
pub struct UntypedFilter {
    doc: Document,
}

impl UntypedFilter {
    /// Wraps a raw filter document.
    pub fn new(document: Document) -> (f: UntypedFilter)
        ensures
            f.doc_spec() == document@,
    {
        UntypedFilter { doc: document }
    }
}

impl Filter for UntypedFilter {
    closed spec fn doc_spec(&self) -> SpecDoc {
        self.doc@
    }

    fn to_document(&self) -> (d: Document) {
        doc_clone(&self.doc)
    }
}

/// A comparison to apply to one field: equal, unequal, ordered against a
/// value, or membership in a list of values.
#[derive(Debug)]
pub enum FilterOperator {
    Eq(Bson),
    Ne(Bson),
    Gt(Bson),
    Gte(Bson),
    Lt(Bson),
    Lte(Bson),
    In(Vec<Bson>),
    Nin(Vec<Bson>),
}

impl FilterOperator {
    /// The single-entry document this operator denotes: the operator's wire
    /// key mapped to its operand.
    pub open spec fn doc_spec(&self) -> SpecDoc {
        match self {
            FilterOperator::Eq(v) => seq![(("$eq")@, bson_view(*v))],
            FilterOperator::Ne(v) => seq![(("$ne")@, bson_view(*v))],
            FilterOperator::Gt(v) => seq![(("$gt")@, bson_view(*v))],
            FilterOperator::Gte(v) => seq![(("$gte")@, bson_view(*v))],
            FilterOperator::Lt(v) => seq![(("$lt")@, bson_view(*v))],
            FilterOperator::Lte(v) => seq![(("$lte")@, bson_view(*v))],
            FilterOperator::In(vs) => seq![(("$in")@, SpecBson::Array(items_view(vs@)))],
            FilterOperator::Nin(vs) => seq![(("$nin")@, SpecBson::Array(items_view(vs@)))],
        }
    }

    /// Serializes the operator.
    pub fn to_document(&self) -> (d: Document)
        ensures
            d@ == self.doc_spec(),
    {
        let mut d = Document::new();
        match self {
            FilterOperator::Eq(v) => d.insert("$eq".to_owned(), bson_clone(v)),
            FilterOperator::Ne(v) => d.insert("$ne".to_owned(), bson_clone(v)),
            FilterOperator::Gt(v) => d.insert("$gt".to_owned(), bson_clone(v)),
            FilterOperator::Gte(v) => d.insert("$gte".to_owned(), bson_clone(v)),
            FilterOperator::Lt(v) => d.insert("$lt".to_owned(), bson_clone(v)),
            FilterOperator::Lte(v) => d.insert("$lte".to_owned(), bson_clone(v)),
            FilterOperator::In(vs) => d.insert("$in".to_owned(), Bson::Array(vec_bson_clone(vs))),
            FilterOperator::Nin(vs) => d.insert("$nin".to_owned(), Bson::Array(vec_bson_clone(vs))),
        }
        proof {
            assert(d@ =~= self.doc_spec());
        }
        d
    }
}

/// The typed filter over a record's fields: one entry per field, pairing the
/// field's wire name with an optional comparison. Serialization walks the
/// entries in order and emits only those whose comparison is `Given`.
#[derive(Debug)]
pub struct TypedFilter {
    pub entries: Vec<(String, Field<FilterOperator>)>,
}

/// A typed filter's entries as optionally populated wire-name pairs: a `Given`
/// entry populates its wire name with the operator's document, an `Omit` entry
/// leaves it out.
pub open spec fn filter_pairs(s: Seq<(String, Field<FilterOperator>)>) -> Seq<
    (Seq<char>, Option<SpecBson>),
> {
    Seq::new(
        s.len(),
        |i: int|
            (
                s[i].0@,
                match s[i].1 {
                    Field::Given(op) => Option::Some(SpecBson::Doc(op.doc_spec())),
                    Field::Omit => Option::None,
                },
            ),
    )
}

impl TypedFilter {
    /// A typed filter with the given wire names, all fields unmentioned.
    pub fn new(wires: &Vec<String>) -> (f: TypedFilter)
        ensures
            f.entries@.len() == wires@.len(),
            forall|i: int|
                0 <= i < wires@.len() ==> #[trigger] f.entries@[i].0 == wires@[i]
                    && f.entries@[i].1 is Omit,
    {
        let mut entries: Vec<(String, Field<FilterOperator>)> = Vec::new();
        let n = wires.len();
        let mut i: usize = 0;
        while i < n
            invariant
                n == wires@.len(),
                i <= n,
                entries@.len() == i,
                forall|j: int|
                    0 <= j < i ==> #[trigger] entries@[j].0 == wires@[j] && entries@[j].1 is Omit,
            decreases n - i,
        {
            entries.push((wires[i].clone(), Field::Omit));
            i += 1;
        }
        TypedFilter { entries }
    }

    /// Sets the comparison for the field whose wire name is `wire`; returns
    /// whether such a field exists.
    pub fn set_wire(&mut self, wire: &String, op: FilterOperator) -> (found: bool)
        ensures
            found == (exists|i: int|
                0 <= i < old(self).entries@.len() && old(self).entries@[i].0@ == wire@),
            !found ==> *final(self) == *old(self),
            found ==> exists|j: int|
                0 <= j < old(self).entries@.len() && old(self).entries@[j].0@ == wire@
                    && final(self).entries@ == old(self).entries@.update(
                    j,
                    (old(self).entries@[j].0, Field::Given(op)),
                ),
    {
        let n = self.entries.len();
        let mut i: usize = 0;
        while i < n
            invariant
                self == old(self),
                n == self.entries@.len(),
                i <= n,
                forall|j: int| 0 <= j < i ==> self.entries@[j].0@ != wire@,
            decreases n - i,
        {
            if self.entries[i].0 == *wire {
                let w = self.entries[i].0.clone();
                self.entries.set(i, (w, Field::Given(op)));
                return true;
            }
            i += 1;
        }
        false
    }
}

impl Default for TypedFilter {
    /// A typed filter that mentions no field; it serializes to the empty
    /// document.
    fn default() -> (f: TypedFilter)
        ensures
            f.entries@.len() == 0,
            f.doc_spec() == Seq::<(Seq<char>, SpecBson)>::empty(),
    {
        TypedFilter { entries: Vec::new() }
    }
}

impl Filter for TypedFilter {
    open spec fn doc_spec(&self) -> SpecDoc {
        pairs_fold(filter_pairs(self.entries@), Seq::empty())
    }

    fn to_document(&self) -> (d: Document) {
        let mut d = Document::new();
        let n = self.entries.len();
        let mut i: usize = 0;
        let ghost pairs = filter_pairs(self.entries@);
        proof {
            assert(pairs.skip(0) =~= pairs);
        }
        while i < n
            invariant
                n == self.entries@.len(),
                i <= n,
                spec_wf(d@),
                pairs == filter_pairs(self.entries@),
                pairs_fold(pairs.skip(i as int), d@) == pairs_fold(pairs, Seq::empty()),
            decreases n - i,
        {
            let ghost rest = pairs.skip(i as int);
            match &self.entries[i].1 {
                Field::Given(op) => {
                    let key = self.entries[i].0.clone();
                    d.insert(key, Bson::Doc(op.to_document()));
                },
                Field::Omit => {},
            }
            proof {
                assert(rest[0] == pairs[i as int]);
                assert(rest.drop_first() =~= pairs.skip(i + 1 as int));
                assert(pairs_fold(pairs.skip(i + 1 as int), d@) == pairs_fold(pairs, Seq::empty()));
            }
            i += 1;
        }
        proof {
            assert(pairs.skip(n as int) =~= Seq::<(Seq<char>, Option<SpecBson>)>::empty());
        }
        d
    }
}

/// A typed filter that mentions no field serializes to the empty document:
/// each `Omit` entry contributes nothing.
pub proof fn lemma_all_omit_filter_empty(f: TypedFilter)
    requires
        forall|i: int| 0 <= i < f.entries@.len() ==> f.entries@[i].1 is Omit,
    ensures
        f.doc_spec() == Seq::<(Seq<char>, SpecBson)>::empty(),
{
    lemma_pairs_fold_all_none(filter_pairs(f.entries@), Seq::empty());
}

/// What serializing a typed filter with distinct wire names produces: a
/// well-formed document whose keys are exactly the wire names of the fields
/// that carry a comparison, each mapped to that comparison's document; fields
/// without one contribute no key.
pub proof fn lemma_typed_filter_serialization(f: TypedFilter)
    requires
        wires_wf(pairs_wires(filter_pairs(f.entries@))),
    ensures
        spec_wf(f.doc_spec()),
        forall|k: Seq<char>| #[trigger]
            spec_contains_key(f.doc_spec(), k) == exists|i: int|
                0 <= i < f.entries@.len() && #[trigger] f.entries@[i].1 is Given
                    && f.entries@[i].0@ == k,
        forall|i: int|
            0 <= i < f.entries@.len() && #[trigger] f.entries@[i].1 is Given ==> spec_get(
                f.doc_spec(),
                f.entries@[i].0@,
            ) == Option::Some(SpecBson::Doc(f.entries@[i].1->0.doc_spec())),
{
    let s = f.entries@;
    let pairs = filter_pairs(s);
    lemma_pairs_fold_props(pairs, Seq::empty());
    assert forall|k: Seq<char>| #[trigger]
        pairs_given(pairs, k) == exists|i: int|
            0 <= i < s.len() && #[trigger] s[i].1 is Given && s[i].0@ == k by {
        if pairs_given(pairs, k) {
            let i = pairs_index(pairs, k);
            assert(0 <= i < pairs.len() && pairs[i].1 is Some && pairs[i].0 == k);
            assert(s[i].1 is Given && s[i].0@ == k);
        }
        if exists|i: int| 0 <= i < s.len() && #[trigger] s[i].1 is Given && s[i].0@ == k {
            let i = choose|i: int| 0 <= i < s.len() && #[trigger] s[i].1 is Given && s[i].0@ == k;
            assert(pairs[i].1 is Some && pairs[i].0 == k);
        }
    }
    assert forall|i: int|
        0 <= i < s.len() && #[trigger] s[i].1 is Given implies spec_get(f.doc_spec(), s[i].0@)
        == Option::Some(SpecBson::Doc(s[i].1->0.doc_spec())) by {
        assert(pairs[i].1 is Some && pairs[i].0 == s[i].0@);
        lemma_pairs_value_unique(pairs, i);
    }
}

/// A filter with exactly one field carrying a comparison serializes to exactly
/// one entry: that field's wire name mapped to the comparison's document.
pub proof fn lemma_single_given_filter(f: TypedFilter, i: int)
    requires
        wires_wf(pairs_wires(filter_pairs(f.entries@))),
        0 <= i < f.entries@.len(),
        f.entries@[i].1 is Given,
        forall|j: int| 0 <= j < f.entries@.len() && j != i ==> f.entries@[j].1 is Omit,
    ensures
        f.doc_spec() == seq![
            (f.entries@[i].0@, SpecBson::Doc(f.entries@[i].1->0.doc_spec())),
        ],
{
    let s = f.entries@;
    let d = f.doc_spec();
    let k0 = s[i].0@;
    lemma_typed_filter_serialization(f);
    assert(spec_contains_key(d, k0));
    assert(d.len() >= 1);
    assert forall|p: int| 0 <= p < d.len() implies d[p] == (
        k0,
        SpecBson::Doc(s[i].1->0.doc_spec()),
    ) by {
        assert(spec_contains_key(d, d[p].0));
        let j = choose|j: int|
            0 <= j < s.len() && #[trigger] s[j].1 is Given && s[j].0@ == d[p].0;
        assert(j == i);
        assert(d[p].0 == k0);
        lemma_key_index_unique(d, k0, p);
        assert(spec_get(d, k0) == Option::Some(d[p].1));
    }
    if d.len() > 1 {
        assert(d[0].0 == k0 && d[1].0 == k0);
        assert(false);
    }
    assert(d =~= seq![(s[i].0@, SpecBson::Doc(s[i].1->0.doc_spec()))]);
}

} // verus!
