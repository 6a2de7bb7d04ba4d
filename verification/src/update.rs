//! Update construction and write-back: anything passed to an update operation
//! serializes itself to a partial document through the `Update` contract —
//! understood as the right-hand side of a "set" operator unless it is a raw
//! escape hatch — and a typed update can mirror its effect into an in-memory
//! document through `UpdateApply`.

use vstd::prelude::*;
use crate::document::{
    bson_clone, bson_view, doc_clone, lemma_pairs_fold_all_none, lemma_pairs_fold_props,
    lemma_pairs_value_unique, pairs_fold, pairs_given, pairs_index, pairs_value, pairs_wires,
    spec_contains_key, spec_get, spec_set, spec_to_map, spec_wf, wires_wf, Bson, Document,
    SpecBson, SpecDoc,
};
use crate::field::Field;

verus! {

/// Anything that can stand where an update document is expected. `doc_spec` is
/// the partial document it denotes; `to_document` produces exactly that
/// document.
pub trait Update {
    /// The partial document this update denotes.
    spec fn doc_spec(&self) -> SpecDoc;

    /// Serializes the update.
    fn to_document(&self) -> (d: Document)
        ensures
            d@ == self.doc_spec(),
    ;
}

/// An escape hatch: an update wrapping an arbitrary document, for update
/// operators the typed path does not produce. It carries no write-back; a
/// caller pairing it with an in-memory value must mutate that value itself.
#[derive(Debug)]
pub struct UntypedUpdate {
    doc: Document,
}

impl UntypedUpdate {
    /// Wraps a raw update document.
    pub fn new(document: Document) -> (u: UntypedUpdate)
        ensures
            u.doc_spec() == document@,
    {
        UntypedUpdate { doc: document }
    }
}

impl Update for UntypedUpdate {
    closed spec fn doc_spec(&self) -> SpecDoc {
        self.doc@
    }

    fn to_document(&self) -> (d: Document) {
        doc_clone(&self.doc)
    }
}

/// The typed update over a record's fields: one entry per field, pairing the
/// field's wire name with an optional new value. Serialization walks the
/// entries in order and emits only those whose value is `Given`.
#[derive(Debug)]
pub struct TypedUpdate {
    pub entries: Vec<(String, Field<Bson>)>,
}

/// A typed update's entries as optionally populated wire-name pairs: a `Given`
/// entry populates its wire name with the new value, an `Omit` entry leaves it
/// out.
pub open spec fn update_pairs(s: Seq<(String, Field<Bson>)>) -> Seq<(Seq<char>, Option<SpecBson>)> {
    Seq::new(
        s.len(),
        |i: int|
            (
                s[i].0@,
                match s[i].1 {
                    Field::Given(v) => Option::Some(bson_view(v)),
                    Field::Omit => Option::None,
                },
            ),
    )
}

impl TypedUpdate {
    /// A typed update with the given wire names, all fields unmentioned.
    pub fn new(wires: &Vec<String>) -> (u: TypedUpdate)
        ensures
            u.entries@.len() == wires@.len(),
            forall|i: int|
                0 <= i < wires@.len() ==> #[trigger] u.entries@[i].0 == wires@[i]
                    && u.entries@[i].1 is Omit,
    {
        let mut entries: Vec<(String, Field<Bson>)> = Vec::new();
        let n = wires.len();
        let mut i: usize = 0;
        while i < n
            invariant
                n == wires@.len(),
                i <= n,
                entries@.len() == i,
                forall|j: int|
                    0 <= j < i ==> #[trigger] entries@[j].0 == wires@[j] && entries@[j].1 is Omit,
            decreases n - i,
        {
            entries.push((wires[i].clone(), Field::Omit));
            i += 1;
        }
        TypedUpdate { entries }
    }

    /// Sets the new value for the field whose wire name is `wire`; returns
    /// whether such a field exists.
    pub fn set_wire(&mut self, wire: &String, value: Bson) -> (found: bool)
        ensures
            found == (exists|i: int|
                0 <= i < old(self).entries@.len() && old(self).entries@[i].0@ == wire@),
            !found ==> *final(self) == *old(self),
            found ==> exists|j: int|
                0 <= j < old(self).entries@.len() && old(self).entries@[j].0@ == wire@
                    && final(self).entries@ == old(self).entries@.update(
                    j,
                    (old(self).entries@[j].0, Field::Given(value)),
                ),
    {
        let n = self.entries.len();
        let mut i: usize = 0;
        while i < n
            invariant
                self == old(self),
                n == self.entries@.len(),
                i <= n,
                forall|j: int| 0 <= j < i ==> self.entries@[j].0@ != wire@,
            decreases n - i,
        {
            if self.entries[i].0 == *wire {
                let w = self.entries[i].0.clone();
                self.entries.set(i, (w, Field::Given(value)));
                return true;
            }
            i += 1;
        }
        false
    }
}

impl Default for TypedUpdate {
    /// A typed update that mentions no field; it serializes to the empty
    /// document.
    fn default() -> (u: TypedUpdate)
        ensures
            u.entries@.len() == 0,
            u.doc_spec() == Seq::<(Seq<char>, SpecBson)>::empty(),
    {
        TypedUpdate { entries: Vec::new() }
    }
}

impl Update for TypedUpdate {
    open spec fn doc_spec(&self) -> SpecDoc {
        pairs_fold(update_pairs(self.entries@), Seq::empty())
    }

    fn to_document(&self) -> (d: Document) {
        let mut d = Document::new();
        let n = self.entries.len();
        let mut i: usize = 0;
        let ghost pairs = update_pairs(self.entries@);
        proof {
            assert(pairs.skip(0) =~= pairs);
        }
        while i < n
            invariant
                n == self.entries@.len(),
                i <= n,
                spec_wf(d@),
                pairs == update_pairs(self.entries@),
                pairs_fold(pairs.skip(i as int), d@) == pairs_fold(pairs, Seq::empty()),
            decreases n - i,
        {
            let ghost rest = pairs.skip(i as int);
            match &self.entries[i].1 {
                Field::Given(v) => {
                    let key = self.entries[i].0.clone();
                    d.insert(key, bson_clone(v));
                },
                Field::Omit => {},
            }
            proof {
                assert(rest[0] == pairs[i as int]);
                assert(rest.drop_first() =~= pairs.skip(i + 1 as int));
                assert(pairs_fold(pairs.skip(i + 1 as int), d@) == pairs_fold(pairs, Seq::empty()));
            }
            i += 1;
        }
        proof {
            assert(pairs.skip(n as int) =~= Seq::<(Seq<char>, Option<SpecBson>)>::empty());
        }
        d
    }
}

/// The fields a write-back target fetched and may therefore mutate: their wire
/// names.
#[derive(Debug)]
pub struct UpdateApplier {
    pub wires: Vec<String>,
}

/// The wire names of a list of strings, as character sequences.
pub open spec fn strings_view(s: Seq<String>) -> Seq<Seq<char>> {
    Seq::new(s.len(), |i: int| s[i]@)
}

/// Builds the write-back capability for a target shape holding exactly the
/// listed wire names.
pub fn build_update_apply(wires: &Vec<String>) -> (a: UpdateApplier)
    ensures
        strings_view(a.wires@) == strings_view(wires@),
{
    let mut out: Vec<String> = Vec::new();
    let n = wires.len();
    let mut i: usize = 0;
    while i < n
        invariant
            n == wires@.len(),
            i <= n,
            out@.len() == i,
            forall|j: int| 0 <= j < i ==> #[trigger] out@[j]@ == wires@[j]@,
        decreases n - i,
    {
        out.push(wires[i].clone());
        i += 1;
    }
    proof {
        assert(strings_view(out@) =~= strings_view(wires@));
    }
    UpdateApplier { wires: out }
}

/// Whether a list of strings holds `s`.
pub fn contains_string(xs: &Vec<String>, s: &String) -> (r: bool)
    ensures
        r == strings_view(xs@).contains(s@),
{
    let n = xs.len();
    let mut i: usize = 0;
    while i < n
        invariant
            n == xs@.len(),
            i <= n,
            forall|j: int| 0 <= j < i ==> strings_view(xs@)[j] != s@,
        decreases n - i,
    {
        if xs[i] == *s {
            proof {
                assert(strings_view(xs@)[i as int] == s@);
            }
            return true;
        }
        i += 1;
    }
    proof {
        assert(forall|j: int| 0 <= j < xs@.len() ==> #[trigger] strings_view(xs@)[j] != s@);
    }
    false
}

/// What applying a typed update's entries to an in-memory document does: each
/// `Given` entry whose wire name the target fetched stores its value there, in
/// order; every other entry leaves the target alone.
pub open spec fn apply_fold(
    s: Seq<(String, Field<Bson>)>,
    allowed: Seq<Seq<char>>,
    target: SpecDoc,
) -> SpecDoc
    decreases s.len(),
{
    if s.len() == 0 {
        target
    } else {
        let next = match s[0].1 {
            Field::Given(v) => if allowed.contains(s[0].0@) {
                spec_set(target, s[0].0@, bson_view(v))
            } else {
                target
            },
            Field::Omit => target,
        };
        apply_fold(s.drop_first(), allowed, next)
    }
}

/// The write-back contract: mirror an already persisted update into the
/// in-memory value, mutating only the fields the update actually set and the
/// target actually fetched.
pub trait UpdateApply {
    /// The target after the write-back.
    spec fn apply_spec(&self, allowed: Seq<Seq<char>>, target: SpecDoc) -> SpecDoc;

    /// Mutates `target` in place.
    fn apply(&self, applier: &UpdateApplier, target: &mut Document)
        requires
            old(target).wf(),
        ensures
            final(target)@ == self.apply_spec(strings_view(applier.wires@), old(target)@),
            final(target).wf(),
    ;
}

impl UpdateApply for TypedUpdate {
    open spec fn apply_spec(&self, allowed: Seq<Seq<char>>, target: SpecDoc) -> SpecDoc {
        apply_fold(self.entries@, allowed, target)
    }

    fn apply(&self, applier: &UpdateApplier, target: &mut Document) {
        let n = self.entries.len();
        let mut i: usize = 0;
        proof {
            assert(self.entries@.skip(0) =~= self.entries@);
        }
        while i < n
            invariant
                n == self.entries@.len(),
                i <= n,
                target.wf(),
                apply_fold(
                    self.entries@.skip(i as int),
                    strings_view(applier.wires@),
                    target@,
                ) == apply_fold(self.entries@, strings_view(applier.wires@), old(target)@),
            decreases n - i,
        {
            let ghost rest = self.entries@.skip(i as int);
            match &self.entries[i].1 {
                Field::Given(v) => {
                    if contains_string(&applier.wires, &self.entries[i].0) {
                        let key = self.entries[i].0.clone();
                        target.insert(key, bson_clone(v));
                    }
                },
                Field::Omit => {},
            }
            proof {
                assert(rest[0] == self.entries@[i as int]);
                assert(rest.drop_first() =~= self.entries@.skip(i + 1 as int));
            }
            i += 1;
        }
        proof {
            assert(self.entries@.skip(n as int) =~= Seq::<(String, Field<Bson>)>::empty());
        }
    }
}

/// A typed update that mentions no field serializes to the empty document:
/// each `Omit` entry contributes nothing.
pub proof fn lemma_all_omit_update_empty(u: TypedUpdate)
    requires
        forall|i: int| 0 <= i < u.entries@.len() ==> u.entries@[i].1 is Omit,
    ensures
        u.doc_spec() == Seq::<(Seq<char>, SpecBson)>::empty(),
{
    lemma_pairs_fold_all_none(update_pairs(u.entries@), Seq::empty());
}

/// What serializing a typed update with distinct wire names produces: a
/// well-formed document whose keys are exactly the wire names of the fields
/// that carry a value, each mapped to that value; fields without one
/// contribute no key.
pub proof fn lemma_typed_update_serialization(u: TypedUpdate)
    requires
        wires_wf(pairs_wires(update_pairs(u.entries@))),
    ensures
        spec_wf(u.doc_spec()),
        forall|k: Seq<char>| #[trigger]
            spec_contains_key(u.doc_spec(), k) == pairs_given(update_pairs(u.entries@), k),
        forall|i: int|
            0 <= i < u.entries@.len() && #[trigger] u.entries@[i].1 is Given ==> spec_get(
                u.doc_spec(),
                u.entries@[i].0@,
            ) == Option::Some(bson_view(u.entries@[i].1->0)),
{
    let s = u.entries@;
    let pairs = update_pairs(s);
    lemma_pairs_fold_props(pairs, Seq::empty());
    assert forall|i: int|
        0 <= i < s.len() && #[trigger] s[i].1 is Given implies spec_get(u.doc_spec(), s[i].0@)
        == Option::Some(bson_view(s[i].1->0)) by {
        assert(pairs[i].1 is Some && pairs[i].0 == s[i].0@);
        lemma_pairs_value_unique(pairs, i);
    }
}

/// The serialized update, read as a map, is exactly the assignment of values
/// to populated wire names; in particular it does not depend on the order in
/// which the fields were populated: two typed updates with distinct wire names
/// that populate the same wires with the same values serialize to documents
/// that are equal as maps.
pub proof fn lemma_update_document_order_independent(u1: TypedUpdate, u2: TypedUpdate)
    requires
        wires_wf(pairs_wires(update_pairs(u1.entries@))),
        wires_wf(pairs_wires(update_pairs(u2.entries@))),
        forall|k: Seq<char>| #[trigger]
            pairs_given(update_pairs(u1.entries@), k) == pairs_given(update_pairs(u2.entries@), k),
        forall|k: Seq<char>|
            pairs_given(update_pairs(u1.entries@), k) ==> #[trigger] pairs_value(
                update_pairs(u1.entries@),
                k,
            ) == pairs_value(update_pairs(u2.entries@), k),
    ensures
        spec_to_map(u1.doc_spec()) == spec_to_map(u2.doc_spec()),
{
    let p1 = update_pairs(u1.entries@);
    let p2 = update_pairs(u2.entries@);
    lemma_pairs_fold_props(p1, Seq::empty());
    lemma_pairs_fold_props(p2, Seq::empty());
    let m1 = spec_to_map(u1.doc_spec());
    let m2 = spec_to_map(u2.doc_spec());
    assert forall|k: Seq<char>| m1.dom().contains(k) == m2.dom().contains(k) by {
        assert(spec_contains_key(u1.doc_spec(), k) == pairs_given(p1, k));
        assert(spec_contains_key(u2.doc_spec(), k) == pairs_given(p2, k));
    }
    assert forall|k: Seq<char>| #[trigger] m1.dom().contains(k) implies m1[k] == m2[k] by {
        assert(spec_get(u1.doc_spec(), k) == Option::Some(pairs_value(p1, k)));
        assert(spec_get(u2.doc_spec(), k) == Option::Some(pairs_value(p2, k)));
    }
    assert(m1 =~= m2);
}

} // verus!
