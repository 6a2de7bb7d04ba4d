//! The database-neutral document model: an ordered association of field names
//! to values, the value type those fields can hold, and their mathematical
//! views. Every filter, update, projection and stored record in this crate is
//! such a document.

use vstd::prelude::*;
use crate::types::{
    Binary, DateTime, Decimal128, Int32, Int64, JavaScriptCode, JavaScriptCodeWithScope, ObjectId,
    Regex, Timestamp,
};

verus! {

broadcast use vstd::std_specs::vec::group_vec_axioms;

/// A field value: one of the wire-level scalar kinds, an array of values, or a
/// nested document.
#[derive(Debug, PartialEq)]
pub enum Bson {
    Int32(i32),
    Int64(i64),
    Boolean(bool),
    Text(String),
    Oid(ObjectId),
    Date(DateTime),
    Stamp(Timestamp),
    Bin(Binary),
    Re(Regex),
    Code(JavaScriptCode),
    CodeWithScope(JavaScriptCodeWithScope),
    Decimal(Decimal128),
    Array(Vec<Bson>),
    Doc(Document),
}

/// An ordered list of distinct field names, each with a value. Order is the
/// order of first insertion; `insert` on a present name replaces the value in
/// place.
#[derive(Debug, PartialEq)]
pub struct Document {
    pub entries: Vec<(String, Bson)>,
}

/// The mathematical value of a `Bson`: strings and byte blobs become
/// sequences, arrays and documents become sequences of the views of their
/// parts.
pub enum SpecBson {
    Int32(i32),
    Int64(i64),
    Boolean(bool),
    Text(Seq<char>),
    Oid(ObjectId),
    Date(DateTime),
    Stamp(Timestamp),
    Bin(u8, Seq<u8>),
    Re(Seq<char>, Seq<char>),
    Code(Seq<char>),
    CodeWithScope(Seq<char>, Seq<(Seq<char>, SpecBson)>),
    Decimal(Decimal128),
    Array(Seq<SpecBson>),
    Doc(Seq<(Seq<char>, SpecBson)>),
}

/// The mathematical value of a document: its entries, in order, with names as
/// character sequences.
pub type SpecDoc = Seq<(Seq<char>, SpecBson)>;

/// The view of a value.
pub open spec fn bson_view(b: Bson) -> SpecBson
    decreases b,
    via bson_view_decreases
{
    match b {
        Bson::Int32(x) => SpecBson::Int32(x),
        Bson::Int64(x) => SpecBson::Int64(x),
        Bson::Boolean(x) => SpecBson::Boolean(x),
        Bson::Text(s) => SpecBson::Text(s@),
        Bson::Oid(x) => SpecBson::Oid(x),
        Bson::Date(x) => SpecBson::Date(x),
        Bson::Stamp(x) => SpecBson::Stamp(x),
        Bson::Bin(bin) => SpecBson::Bin(bin.subtype, bin.bytes@),
        Bson::Re(re) => SpecBson::Re(re.pattern@, re.options@),
        Bson::Code(c) => SpecBson::Code(c.0@),
        Bson::CodeWithScope(c) => SpecBson::CodeWithScope(c.code@, entries_view(c.scope.entries@)),
        Bson::Decimal(x) => SpecBson::Decimal(x),
        Bson::Array(items) => SpecBson::Array(items_view(items@)),
        Bson::Doc(d) => SpecBson::Doc(entries_view(d.entries@)),
    }
}

/// The views of the values of an array, in order.
pub open spec fn items_view(s: Seq<Bson>) -> Seq<SpecBson>
    decreases s,
{
    if s.len() == 0 {
        Seq::empty()
    } else {
        seq![bson_view(s[0])] + items_view(s.drop_first())
    }
}

/// The views of a document's entries, in order.
pub open spec fn entries_view(s: Seq<(String, Bson)>) -> SpecDoc
    decreases s,
    via entries_view_decreases
{
    if s.len() == 0 {
        Seq::empty()
    } else {
        seq![(s[0].0@, bson_view(s[0].1))] + entries_view(s.drop_first())
    }
}

/// The view of a document.
pub open spec fn doc_view(d: Document) -> SpecDoc {
    entries_view(d.entries@)
}

#[via_fn]
proof fn bson_view_decreases(b: Bson) {
    match b {
        Bson::Array(items) => {
            assert(decreases_to!(b => items));
            assert(decreases_to!(items => items@));
        },
        Bson::Doc(d) => {
            assert(decreases_to!(b => d));
            assert(decreases_to!(d => d.entries));
            assert(decreases_to!(d.entries => d.entries@));
        },
        Bson::CodeWithScope(c) => {
            assert(decreases_to!(b => c));
            assert(decreases_to!(c => c.scope));
            assert(decreases_to!(c.scope => c.scope.entries));
            assert(decreases_to!(c.scope.entries => c.scope.entries@));
        },
        _ => {},
    }
}

#[via_fn]
proof fn entries_view_decreases(s: Seq<(String, Bson)>) {
    if s.len() > 0 {
        assert(decreases_to!(s => s[0]));
        assert(decreases_to!(s[0] => s[0].1));
    }
}

/// A document's view has one entry per stored entry.
pub broadcast proof fn lemma_entries_view_len(s: Seq<(String, Bson)>)
    ensures
        #[trigger] entries_view(s).len() == s.len(),
    decreases s,
{
    if s.len() > 0 {
        lemma_entries_view_len(s.drop_first());
    }
}

/// Each entry of a document's view is the view of the stored entry at the same
/// position.
pub broadcast proof fn lemma_entries_view_index(s: Seq<(String, Bson)>, i: int)
    requires
        0 <= i < s.len(),
    ensures
        #[trigger] entries_view(s)[i] == (s[i].0@, bson_view(s[i].1)),
    decreases s,
{
    lemma_entries_view_len(s);
    if i > 0 {
        lemma_entries_view_index(s.drop_first(), i - 1);
    }
}

/// An array's view has one entry per stored value.
pub broadcast proof fn lemma_items_view_len(s: Seq<Bson>)
    ensures
        #[trigger] items_view(s).len() == s.len(),
    decreases s,
{
    if s.len() > 0 {
        lemma_items_view_len(s.drop_first());
    }
}

/// Each entry of an array's view is the view of the stored value at the same
/// position.
pub broadcast proof fn lemma_items_view_index(s: Seq<Bson>, i: int)
    requires
        0 <= i < s.len(),
    ensures
        #[trigger] items_view(s)[i] == bson_view(s[i]),
    decreases s,
{
    lemma_items_view_len(s);
    if i > 0 {
        lemma_items_view_index(s.drop_first(), i - 1);
    }
}

/// Whether the document holds an entry under the name `k`.
pub open spec fn spec_contains_key(s: SpecDoc, k: Seq<char>) -> bool {
    exists|i: int| 0 <= i < s.len() && s[i].0 == k
}

/// The position of the entry named `k`; meaningful only under
/// `spec_contains_key` and, for uniqueness, `spec_wf`.
pub open spec fn key_index(s: SpecDoc, k: Seq<char>) -> int {
    choose|i: int| 0 <= i < s.len() && s[i].0 == k
}

/// The value stored under the name `k`, if any.
pub open spec fn spec_get(s: SpecDoc, k: Seq<char>) -> Option<SpecBson> {
    if spec_contains_key(s, k) {
        Option::Some(s[key_index(s, k)].1)
    } else {
        Option::None
    }
}

/// A well-formed document names each field once.
pub open spec fn spec_wf(s: SpecDoc) -> bool {
    forall|i: int, j: int| 0 <= i < j < s.len() ==> s[i].0 != s[j].0
}

/// The document after storing `v` under `k`: the value is replaced in place
/// when the name is already present, and appended otherwise.
pub open spec fn spec_set(s: SpecDoc, k: Seq<char>, v: SpecBson) -> SpecDoc {
    if spec_contains_key(s, k) {
        s.update(key_index(s, k), (k, v))
    } else {
        s.push((k, v))
    }
}

/// The document read as a finite map from names to values; under `spec_wf`
/// this forgets only the order of the entries.
pub open spec fn spec_to_map(s: SpecDoc) -> Map<Seq<char>, SpecBson> {
    Map::new(|k: Seq<char>| spec_contains_key(s, k), |k: Seq<char>| s[key_index(s, k)].1)
}

/// Distinct wire names.
pub open spec fn wires_wf(s: Seq<Seq<char>>) -> bool {
    forall|i: int, j: int| #![trigger s[i], s[j]] 0 <= i < j < s.len() ==> s[i] != s[j]
}

/// The document that a sequence of optionally populated fields serializes to:
/// each populated pair stores its value under its wire name, in order,
/// starting from `acc`; unpopulated pairs contribute nothing.
pub open spec fn pairs_fold(s: Seq<(Seq<char>, Option<SpecBson>)>, acc: SpecDoc) -> SpecDoc
    decreases s.len(),
{
    if s.len() == 0 {
        acc
    } else {
        let next = match s[0].1 {
            Option::Some(v) => spec_set(acc, s[0].0, v),
            Option::None => acc,
        };
        pairs_fold(s.drop_first(), next)
    }
}

/// The wire names of a pair sequence, in order.
pub open spec fn pairs_wires(s: Seq<(Seq<char>, Option<SpecBson>)>) -> Seq<Seq<char>> {
    Seq::new(s.len(), |i: int| s[i].0)
}

/// Whether some pair populates the wire name `k`.
pub open spec fn pairs_given(s: Seq<(Seq<char>, Option<SpecBson>)>, k: Seq<char>) -> bool {
    exists|i: int| 0 <= i < s.len() && s[i].1 is Some && s[i].0 == k
}

/// The value some pair gives the wire name `k`; meaningful under `pairs_given`
/// and distinct wires.
pub open spec fn pairs_value(s: Seq<(Seq<char>, Option<SpecBson>)>, k: Seq<char>) -> SpecBson {
    s[pairs_index(s, k)].1->0
}

/// The position of the pair that populates `k`; meaningful under `pairs_given`
/// and, for uniqueness, distinct wires.
pub open spec fn pairs_index(s: Seq<(Seq<char>, Option<SpecBson>)>, k: Seq<char>) -> int {
    choose|i: int| 0 <= i < s.len() && s[i].1 is Some && s[i].0 == k
}

/// A pair sequence that populates nothing leaves the accumulator as it is.
pub proof fn lemma_pairs_fold_all_none(s: Seq<(Seq<char>, Option<SpecBson>)>, acc: SpecDoc)
    requires
        forall|i: int| 0 <= i < s.len() ==> s[i].1 is None,
    ensures
        pairs_fold(s, acc) == acc,
    decreases s.len(),
{
    if s.len() > 0 {
        assert(forall|i: int|
            0 <= i < s.drop_first().len() ==> #[trigger] s.drop_first()[i].1 is None);
        lemma_pairs_fold_all_none(s.drop_first(), acc);
    }
}

/// With distinct wires, a populated position determines `pairs_value`.
pub proof fn lemma_pairs_value_unique(s: Seq<(Seq<char>, Option<SpecBson>)>, i: int)
    requires
        wires_wf(pairs_wires(s)),
        0 <= i < s.len(),
        s[i].1 is Some,
    ensures
        pairs_given(s, s[i].0),
        pairs_value(s, s[i].0) == s[i].1->0,
{
    let k = s[i].0;
    assert(pairs_given(s, k));
    let j = pairs_index(s, k);
    assert(0 <= j < s.len() && s[j].1 is Some && s[j].0 == k);
    if j != i {
        let wires = pairs_wires(s);
        assert(wires[i] == k);
        assert(wires[j] == k);
        if i < j {
            assert(wires[i] != wires[j]);
        } else {
            assert(wires[j] != wires[i]);
        }
        assert(false);
    }
    assert(pairs_value(s, k) == s[j].1->0);
}

/// What the fold of a pair sequence holds: every populated wire maps to its
/// value, every other name is as in the accumulator, and well-formedness is
/// kept — provided the wires are distinct and none is already in the
/// accumulator.
pub proof fn lemma_pairs_fold_props(s: Seq<(Seq<char>, Option<SpecBson>)>, acc: SpecDoc)
    requires
        spec_wf(acc),
        wires_wf(pairs_wires(s)),
        forall|i: int| 0 <= i < s.len() ==> !spec_contains_key(acc, s[i].0),
    ensures
        spec_wf(pairs_fold(s, acc)),
        forall|k: Seq<char>| #[trigger]
            spec_contains_key(pairs_fold(s, acc), k) == (pairs_given(s, k) || spec_contains_key(
                acc,
                k,
            )),
        forall|k: Seq<char>| #[trigger]
            spec_get(pairs_fold(s, acc), k) == if pairs_given(s, k) {
                Option::Some(pairs_value(s, k))
            } else {
                spec_get(acc, k)
            },
    decreases s.len(),
{
    if s.len() == 0 {
        assert(forall|k: Seq<char>| !pairs_given(s, k));
    } else {
        let w = s[0].0;
        let rest = s.drop_first();
        assert forall|i: int, j: int| 0 <= i < j < rest.len() implies #[trigger] rest[i].0
            != #[trigger] rest[j].0 by {
            assert(pairs_wires(s)[i + 1] == rest[i].0);
            assert(pairs_wires(s)[j + 1] == rest[j].0);
        }
        assert(wires_wf(pairs_wires(rest)));
        assert forall|i: int| 0 <= i < rest.len() implies #[trigger] rest[i].0 != w by {
            assert(pairs_wires(s)[i + 1] == rest[i].0);
            assert(pairs_wires(s)[0] == w);
        }
        // whether a name is populated by `s` splits into the head and the rest
        assert forall|k: Seq<char>| #[trigger]
            pairs_given(s, k) == ((s[0].1 is Some && k == w) || pairs_given(rest, k)) by {
            if pairs_given(rest, k) {
                let i = pairs_index(rest, k);
                assert(0 <= i < rest.len() && rest[i].1 is Some && rest[i].0 == k);
                assert(s[i + 1].1 is Some && s[i + 1].0 == k);
            }
            if pairs_given(s, k) {
                let i = pairs_index(s, k);
                assert(0 <= i < s.len() && s[i].1 is Some && s[i].0 == k);
                if i > 0 {
                    assert(rest[i - 1].1 is Some && rest[i - 1].0 == k);
                }
            }
        }
        match s[0].1 {
            Option::Some(v) => {
                let acc2 = spec_set(acc, w, v);
                lemma_spec_set(acc, w, v);
                assert forall|i: int| 0 <= i < rest.len() implies !spec_contains_key(
                    acc2,
                    #[trigger] rest[i].0,
                ) by {
                    assert(!spec_contains_key(acc, s[i + 1].0));
                }
                lemma_pairs_fold_props(rest, acc2);
                lemma_pairs_value_unique(s, 0);
                assert forall|k: Seq<char>| #[trigger]
                    spec_get(pairs_fold(s, acc), k) == if pairs_given(s, k) {
                        Option::Some(pairs_value(s, k))
                    } else {
                        spec_get(acc, k)
                    } by {
                    if pairs_given(rest, k) {
                        let i = pairs_index(rest, k);
                        assert(0 <= i < rest.len() && rest[i].1 is Some && rest[i].0 == k);
                        lemma_pairs_value_unique(rest, i);
                        lemma_pairs_value_unique(s, i + 1);
                    } else if k == w {
                        lemma_pairs_value_unique(s, 0);
                    }
                }
            },
            Option::None => {
                lemma_pairs_fold_props(rest, acc);
                assert forall|k: Seq<char>| #[trigger]
                    spec_get(pairs_fold(s, acc), k) == if pairs_given(s, k) {
                        Option::Some(pairs_value(s, k))
                    } else {
                        spec_get(acc, k)
                    } by {
                    if pairs_given(rest, k) {
                        let i = pairs_index(rest, k);
                        assert(0 <= i < rest.len() && rest[i].1 is Some && rest[i].0 == k);
                        lemma_pairs_value_unique(rest, i);
                        lemma_pairs_value_unique(s, i + 1);
                    }
                }
            },
        }
    }
}

/// In a well-formed document a matching position is the only one, so it is the
/// one `key_index` denotes.
pub proof fn lemma_key_index_unique(s: SpecDoc, k: Seq<char>, i: int)
    requires
        spec_wf(s),
        0 <= i < s.len(),
        s[i].0 == k,
    ensures
        spec_contains_key(s, k),
        key_index(s, k) == i,
{
    assert(spec_contains_key(s, k));
    let j = key_index(s, k);
    if j < i {
        assert(s[j].0 != s[i].0);
    } else if j > i {
        assert(s[i].0 != s[j].0);
    }
}

/// What storing a value does to a well-formed document: the stored name now
/// holds the new value, every other name is untouched, and well-formedness is
/// kept.
pub proof fn lemma_spec_set(s: SpecDoc, k: Seq<char>, v: SpecBson)
    requires
        spec_wf(s),
    ensures
        spec_wf(spec_set(s, k, v)),
        spec_get(spec_set(s, k, v), k) == Option::Some(v),
        spec_contains_key(spec_set(s, k, v), k),
        forall|k2: Seq<char>|
            k2 != k ==> #[trigger] spec_get(spec_set(s, k, v), k2) == spec_get(s, k2),
        forall|k2: Seq<char>|
            k2 != k ==> #[trigger] spec_contains_key(spec_set(s, k, v), k2) == spec_contains_key(
                s,
                k2,
            ),
        spec_set(s, k, v).len() == if spec_contains_key(s, k) {
            s.len()
        } else {
            s.len() + 1
        },
{
    let r = spec_set(s, k, v);
    if spec_contains_key(s, k) {
        let idx = key_index(s, k);
        assert(0 <= idx < s.len() && s[idx].0 == k);
        assert forall|j: int| 0 <= j < r.len() implies #[trigger] r[j].0 == s[j].0 by {}
        assert(spec_wf(r));
        lemma_key_index_unique(r, k, idx);
        assert forall|k2: Seq<char>| k2 != k implies #[trigger] spec_contains_key(r, k2)
            == spec_contains_key(s, k2) by {
            if spec_contains_key(s, k2) {
                let j = key_index(s, k2);
                assert(r[j].0 == k2);
                lemma_key_index_unique(r, k2, j);
            }
            if spec_contains_key(r, k2) {
                let j = key_index(r, k2);
                assert(s[j].0 == k2);
                lemma_key_index_unique(s, k2, j);
            }
        }
        assert forall|k2: Seq<char>| k2 != k implies #[trigger] spec_get(r, k2) == spec_get(
            s,
            k2,
        ) by {
            if spec_contains_key(s, k2) {
                let j = key_index(s, k2);
                assert(r[j].0 == k2);
                lemma_key_index_unique(r, k2, j);
                lemma_key_index_unique(s, k2, j);
            }
            if spec_contains_key(r, k2) {
                let j = key_index(r, k2);
                assert(s[j].0 == k2);
                lemma_key_index_unique(s, k2, j);
            }
        }
    } else {
        assert(r == s.push((k, v)));
        assert forall|i: int, j: int| 0 <= i < j < r.len() implies r[i].0 != r[j].0 by {
            if j < s.len() {
            } else {
                assert(r[j].0 == k);
                assert(r[i].0 == s[i].0);
            }
        }
        lemma_key_index_unique(r, k, s.len() as int);
        assert forall|k2: Seq<char>| k2 != k implies #[trigger] spec_contains_key(r, k2)
            == spec_contains_key(s, k2) by {
            if spec_contains_key(s, k2) {
                let j = key_index(s, k2);
                assert(r[j].0 == k2);
                lemma_key_index_unique(r, k2, j);
            }
            if spec_contains_key(r, k2) {
                let j = key_index(r, k2);
                assert(j < s.len());
                assert(s[j].0 == k2);
                lemma_key_index_unique(s, k2, j);
            }
        }
        assert forall|k2: Seq<char>| k2 != k implies #[trigger] spec_get(r, k2) == spec_get(
            s,
            k2,
        ) by {
            if spec_contains_key(s, k2) {
                let j = key_index(s, k2);
                assert(r[j].0 == k2);
                lemma_key_index_unique(r, k2, j);
                lemma_key_index_unique(s, k2, j);
            }
            if spec_contains_key(r, k2) {
                let j = key_index(r, k2);
                assert(j < s.len());
                assert(s[j].0 == k2);
                lemma_key_index_unique(s, k2, j);
            }
        }
    }
}

impl Document {
    /// The empty document.
    pub fn new() -> (d: Document)
        ensures
            d@ == Seq::<(Seq<char>, SpecBson)>::empty(),
            spec_wf(d@),
    {
        Document { entries: Vec::new() }
    }

    /// Each field name appears once.
    pub open spec fn wf(&self) -> bool {
        spec_wf(self@)
    }

    /// How many fields the document holds.
    pub fn len(&self) -> (n: usize)
        ensures
            n == self@.len(),
    {
        proof {
            lemma_entries_view_len(self.entries@);
        }
        self.entries.len()
    }

    /// Whether the document holds no field.
    pub fn is_empty(&self) -> (r: bool)
        ensures
            r == (self@.len() == 0),
    {
        self.len() == 0
    }

    /// The value stored under `k`, if any.
    pub fn get(&self, k: &String) -> (r: Option<&Bson>)
        requires
            self.wf(),
        ensures
            match r {
                Option::Some(b) => spec_get(self@, k@) == Option::Some(bson_view(*b)),
                Option::None => !spec_contains_key(self@, k@),
            },
    {
        broadcast use lemma_entries_view_len, lemma_entries_view_index;

        let n = self.entries.len();
        let mut i: usize = 0;
        while i < n
            invariant
                self.wf(),
                n == self.entries@.len(),
                i <= n,
                forall|j: int| 0 <= j < i ==> self.entries@[j].0@ != k@,
            decreases n - i,
        {
            if self.entries[i].0 == *k {
                proof {
                    lemma_entries_view_len(self.entries@);
                    lemma_entries_view_index(self.entries@, i as int);
                    lemma_key_index_unique(self@, k@, i as int);
                }
                return Option::Some(&self.entries[i].1);
            }
            i += 1;
        }
        proof {
            assert forall|j: int| 0 <= j < self@.len() implies self@[j].0 != k@ by {
                assert(self.entries@[j].0@ != k@);
            }
        }
        Option::None
    }

    /// Whether the document holds a field named `k`.
    pub fn contains_key(&self, k: &String) -> (r: bool)
        requires
            self.wf(),
        ensures
            r == spec_contains_key(self@, k@),
    {
        match self.get(k) {
            Option::Some(_) => true,
            Option::None => false,
        }
    }

    /// Stores `v` under `k`, replacing in place when `k` is already present and
    /// appending otherwise.
    pub fn insert(&mut self, k: String, v: Bson)
        requires
            old(self).wf(),
        ensures
            final(self)@ == spec_set(old(self)@, k@, bson_view(v)),
            final(self).wf(),
    {
        broadcast use lemma_entries_view_len, lemma_entries_view_index;

        let n = self.entries.len();
        let mut i: usize = 0;
        while i < n
            invariant
                self == old(self),
                self.wf(),
                n == self.entries@.len(),
                i <= n,
                forall|j: int| 0 <= j < i ==> self.entries@[j].0@ != k@,
            decreases n - i,
        {
            if self.entries[i].0 == k {
                proof {
                    lemma_entries_view_len(self.entries@);
                    lemma_entries_view_index(self.entries@, i as int);
                    lemma_key_index_unique(self@, k@, i as int);
                }
                let ghost old_entries = self.entries@;
                let ghost old_view = entries_view(old_entries);
                self.entries.set(i, (k, v));
                proof {
                    let target = old_view.update(i as int, (k@, bson_view(v)));
                    lemma_entries_view_len(self.entries@);
                    assert forall|j: int| 0 <= j < self@.len() implies self@[j] == target[j] by {
                        lemma_entries_view_index(self.entries@, j);
                        lemma_entries_view_index(old_entries, j);
                    }
                    assert(self@ =~= target);
                    assert forall|p: int, q: int| 0 <= p < q < self@.len() implies self@[p].0
                        != self@[q].0 by {
                        lemma_entries_view_index(old_entries, p);
                        lemma_entries_view_index(old_entries, q);
                    }
                }
                return ;
            }
            i += 1;
        }
        proof {
            lemma_entries_view_len(self.entries@);
            assert forall|j: int| 0 <= j < self@.len() implies self@[j].0 != k@ by {
                lemma_entries_view_index(self.entries@, j);
            }
            assert(!spec_contains_key(self@, k@));
        }
        let ghost old_entries = self.entries@;
        let ghost old_view = entries_view(old_entries);
        self.entries.push((k, v));
        proof {
            let target = old_view.push((k@, bson_view(v)));
            lemma_entries_view_len(self.entries@);
            lemma_entries_view_len(old_entries);
            assert forall|j: int| 0 <= j < self@.len() implies self@[j] == target[j] by {
                lemma_entries_view_index(self.entries@, j);
                if j < old_entries.len() {
                    lemma_entries_view_index(old_entries, j);
                }
            }
            assert(self@ =~= target);
            assert forall|p: int, q: int| 0 <= p < q < self@.len() implies self@[p].0
                != self@[q].0 by {
                if q < old_view.len() {
                } else {
                    assert(target[q].0 == k@);
                }
            }
        }
    }
}

/// Whether two byte blobs hold the same bytes.
pub fn bytes_eq(a: &Vec<u8>, b: &Vec<u8>) -> (r: bool)
    ensures
        r == (a@ == b@),
{
    if a.len() != b.len() {
        return false;
    }
    let n = a.len();
    let mut i: usize = 0;
    while i < n
        invariant
            n == a@.len() == b@.len(),
            i <= n,
            forall|j: int| 0 <= j < i ==> a@[j] == b@[j],
        decreases n - i,
    {
        if a[i] != b[i] {
            return false;
        }
        i += 1;
    }
    proof {
        assert(a@ =~= b@);
    }
    true
}

/// A copy of a byte blob.
pub fn bytes_clone(a: &Vec<u8>) -> (r: Vec<u8>)
    ensures
        r@ == a@,
{
    let n = a.len();
    let mut out: Vec<u8> = Vec::new();
    let mut i: usize = 0;
    while i < n
        invariant
            n == a@.len(),
            i <= n,
            out@ == a@.subrange(0, i as int),
        decreases n - i,
    {
        out.push(a[i]);
        proof {
            assert(out@ =~= a@.subrange(0, i + 1 as int));
        }
        i += 1;
    }
    proof {
        assert(a@.subrange(0, n as int) =~= a@);
    }
    out
}

/// A distinct tag for each kind a view can take.
pub open spec fn spec_kind(v: SpecBson) -> int {
    match v {
        SpecBson::Int32(_) => 0,
        SpecBson::Int64(_) => 1,
        SpecBson::Boolean(_) => 2,
        SpecBson::Text(_) => 3,
        SpecBson::Oid(_) => 4,
        SpecBson::Date(_) => 5,
        SpecBson::Stamp(_) => 6,
        SpecBson::Bin(_, _) => 7,
        SpecBson::Re(_, _) => 8,
        SpecBson::Code(_) => 9,
        SpecBson::CodeWithScope(_, _) => 10,
        SpecBson::Decimal(_) => 11,
        SpecBson::Array(_) => 12,
        SpecBson::Doc(_) => 13,
    }
}

/// A distinct tag for each kind a value can take, matching `spec_kind` of its
/// view.
pub open spec fn kind_of(b: Bson) -> int {
    match b {
        Bson::Int32(_) => 0,
        Bson::Int64(_) => 1,
        Bson::Boolean(_) => 2,
        Bson::Text(_) => 3,
        Bson::Oid(_) => 4,
        Bson::Date(_) => 5,
        Bson::Stamp(_) => 6,
        Bson::Bin(_) => 7,
        Bson::Re(_) => 8,
        Bson::Code(_) => 9,
        Bson::CodeWithScope(_) => 10,
        Bson::Decimal(_) => 11,
        Bson::Array(_) => 12,
        Bson::Doc(_) => 13,
    }
}

/// Taking the view keeps the kind.
pub broadcast proof fn lemma_bson_view_kind(b: Bson)
    ensures
        #[trigger] spec_kind(bson_view(b)) == kind_of(b),
{
}

/// Whether two values are equal, compared by their mathematical views: strings
/// by their characters, arrays and documents element by element, in order.
#[verifier::rlimit(60)]
pub fn bson_eq(a: &Bson, b: &Bson) -> (r: bool)
    ensures
        r == (a@ == b@),
    decreases a,
{
    match (a, b) {
        (Bson::Int32(x), Bson::Int32(y)) => *x == *y,
        (Bson::Int64(x), Bson::Int64(y)) => *x == *y,
        (Bson::Boolean(x), Bson::Boolean(y)) => *x == *y,
        (Bson::Text(x), Bson::Text(y)) => *x == *y,
        (Bson::Oid(x), Bson::Oid(y)) => *x == *y,
        (Bson::Date(x), Bson::Date(y)) => *x == *y,
        (Bson::Stamp(x), Bson::Stamp(y)) => *x == *y,
        (Bson::Bin(x), Bson::Bin(y)) => x.subtype == y.subtype && bytes_eq(&x.bytes, &y.bytes),
        (Bson::Re(x), Bson::Re(y)) => x.pattern == y.pattern && x.options == y.options,
        (Bson::Code(x), Bson::Code(y)) => x.0 == y.0,
        (Bson::CodeWithScope(x), Bson::CodeWithScope(y)) => {
            proof {
                assert(decreases_to!(*a => *x));
                assert(decreases_to!(*x => x.scope));
            }
            x.code == y.code && doc_eq(&x.scope, &y.scope)
        },
        (Bson::Decimal(x), Bson::Decimal(y)) => *x == *y,
        (Bson::Array(x), Bson::Array(y)) => {
            proof {
                lemma_items_view_len(x@);
                lemma_items_view_len(y@);
                assert(a@ == SpecBson::Array(items_view(x@)));
                assert(b@ == SpecBson::Array(items_view(y@)));
                assert(decreases_to!(*a => *x));
            }
            if x.len() != y.len() {
                return false;
            }
            let n = x.len();
            let mut i: usize = 0;
            while i < n
                invariant
                    a@ == SpecBson::Array(items_view(x@)),
                    b@ == SpecBson::Array(items_view(y@)),
                    decreases_to!(*a => *x),
                    n == x@.len() == y@.len(),
                    i <= n,
                    forall|j: int| 0 <= j < i ==> items_view(x@)[j] == items_view(y@)[j],
                decreases n - i,
            {
                proof {
                    assert(decreases_to!(*x => x@));
                    assert(decreases_to!(x@ => x@[i as int]));
                    lemma_items_view_index(x@, i as int);
                    lemma_items_view_index(y@, i as int);
                }
                if !bson_eq(&x[i], &y[i]) {
                    return false;
                }
                i += 1;
            }
            proof {
                lemma_items_view_len(x@);
                lemma_items_view_len(y@);
                assert(items_view(x@) =~= items_view(y@));
            }
            true
        },
        (Bson::Doc(x), Bson::Doc(y)) => {
            proof {
                assert(decreases_to!(*a => *x));
            }
            doc_eq(x, y)
        },
        _ => {
            proof {
                lemma_bson_view_kind(*a);
                lemma_bson_view_kind(*b);
                assert(kind_of(*a) != kind_of(*b));
                assert(a@ != b@);
            }
            false
        },
    }
}

/// Whether two documents are equal entry by entry, in order.
pub fn doc_eq(x: &Document, y: &Document) -> (r: bool)
    ensures
        r == (x@ == y@),
    decreases x,
{
    proof {
        lemma_entries_view_len(x.entries@);
        lemma_entries_view_len(y.entries@);
    }
    if x.entries.len() != y.entries.len() {
        return false;
    }
    let n = x.entries.len();
    let mut i: usize = 0;
    while i < n
        invariant
            n == x.entries@.len() == y.entries@.len(),
            i <= n,
            forall|j: int| 0 <= j < i ==> entries_view(x.entries@)[j] == entries_view(y.entries@)[j],
        decreases n - i,
    {
        proof {
            lemma_entries_view_index(x.entries@, i as int);
            lemma_entries_view_index(y.entries@, i as int);
        }
        if !(x.entries[i].0 == y.entries[i].0) {
            return false;
        }
        proof {
            assert(decreases_to!(*x => x.entries));
            assert(decreases_to!(x.entries => x.entries@));
            assert(decreases_to!(x.entries@ => x.entries@[i as int]));
            assert(decreases_to!(x.entries@[i as int] => x.entries@[i as int].1));
        }
        if !bson_eq(&x.entries[i].1, &y.entries[i].1) {
            return false;
        }
        i += 1;
    }
    proof {
        lemma_entries_view_len(x.entries@);
        lemma_entries_view_len(y.entries@);
        assert(x@ =~= y@);
    }
    true
}

/// A copy of a value, equal to the original by view.
pub fn bson_clone(a: &Bson) -> (r: Bson)
    ensures
        r@ == a@,
    decreases a,
{
    match a {
        Bson::Int32(x) => Bson::Int32(*x),
        Bson::Int64(x) => Bson::Int64(*x),
        Bson::Boolean(x) => Bson::Boolean(*x),
        Bson::Text(x) => Bson::Text(x.clone()),
        Bson::Oid(x) => Bson::Oid(*x),
        Bson::Date(x) => Bson::Date(*x),
        Bson::Stamp(x) => Bson::Stamp(*x),
        Bson::Bin(x) => Bson::Bin(Binary { subtype: x.subtype, bytes: bytes_clone(&x.bytes) }),
        Bson::Re(x) => Bson::Re(Regex { pattern: x.pattern.clone(), options: x.options.clone() }),
        Bson::Code(x) => Bson::Code(JavaScriptCode(x.0.clone())),
        Bson::CodeWithScope(x) => {
            proof {
                assert(decreases_to!(*a => *x));
                assert(decreases_to!(*x => x.scope));
            }
            Bson::CodeWithScope(
                JavaScriptCodeWithScope { code: x.code.clone(), scope: doc_clone(&x.scope) },
            )
        },
        Bson::Decimal(x) => Bson::Decimal(*x),
        Bson::Array(x) => {
            proof {
                assert(a@ == SpecBson::Array(items_view(x@)));
                assert(decreases_to!(*a => *x));
            }
            let n = x.len();
            let mut out: Vec<Bson> = Vec::new();
            let mut i: usize = 0;
            while i < n
                invariant
                    a@ == SpecBson::Array(items_view(x@)),
                    decreases_to!(*a => *x),
                    n == x@.len(),
                    i <= n,
                    out@.len() == i,
                    forall|j: int| 0 <= j < i ==> items_view(out@)[j] == items_view(x@)[j],
                decreases n - i,
            {
                proof {
                    assert(decreases_to!(*x => x@));
                    assert(decreases_to!(x@ => x@[i as int]));
                }
                let c = bson_clone(&x[i]);
                let ghost old_out = out@;
                out.push(c);
                proof {
                    assert forall|j: int| 0 <= j < i + 1 implies items_view(out@)[j] == items_view(
                        x@,
                    )[j] by {
                        lemma_items_view_index(out@, j);
                        lemma_items_view_index(x@, j);
                        if j < i {
                            lemma_items_view_index(old_out, j);
                        }
                    }
                }
                i += 1;
            }
            proof {
                lemma_items_view_len(out@);
                lemma_items_view_len(x@);
                assert(items_view(out@) =~= items_view(x@));
            }
            Bson::Array(out)
        },
        Bson::Doc(x) => {
            proof {
                assert(decreases_to!(*a => *x));
            }
            Bson::Doc(doc_clone(x))
        },
    }
}

/// A copy of an array of values, equal to the original by view.
pub fn vec_bson_clone(xs: &Vec<Bson>) -> (r: Vec<Bson>)
    ensures
        items_view(r@) == items_view(xs@),
        r@.len() == xs@.len(),
{
    let n = xs.len();
    let mut out: Vec<Bson> = Vec::new();
    let mut i: usize = 0;
    while i < n
        invariant
            n == xs@.len(),
            i <= n,
            out@.len() == i,
            forall|j: int| 0 <= j < i ==> items_view(out@)[j] == items_view(xs@)[j],
        decreases n - i,
    {
        let c = bson_clone(&xs[i]);
        let ghost old_out = out@;
        out.push(c);
        proof {
            assert forall|j: int| 0 <= j < i + 1 implies items_view(out@)[j] == items_view(xs@)[j]
            by {
                lemma_items_view_index(out@, j);
                lemma_items_view_index(xs@, j);
                if j < i {
                    lemma_items_view_index(old_out, j);
                }
            }
        }
        i += 1;
    }
    proof {
        lemma_items_view_len(out@);
        lemma_items_view_len(xs@);
        assert(items_view(out@) =~= items_view(xs@));
    }
    out
}

/// A copy of a document, equal to the original by view.
pub fn doc_clone(x: &Document) -> (r: Document)
    ensures
        r@ == x@,
    decreases x,
{
    let n = x.entries.len();
    let mut out: Vec<(String, Bson)> = Vec::new();
    let mut i: usize = 0;
    while i < n
        invariant
            n == x.entries@.len(),
            i <= n,
            out@.len() == i,
            forall|j: int| 0 <= j < i ==> entries_view(out@)[j] == entries_view(x.entries@)[j],
        decreases n - i,
    {
        proof {
            assert(decreases_to!(*x => x.entries));
            assert(decreases_to!(x.entries => x.entries@));
            assert(decreases_to!(x.entries@ => x.entries@[i as int]));
            assert(decreases_to!(x.entries@[i as int] => x.entries@[i as int].1));
        }
        let k = x.entries[i].0.clone();
        let v = bson_clone(&x.entries[i].1);
        let ghost old_out = out@;
        out.push((k, v));
        proof {
            assert forall|j: int| 0 <= j < i + 1 implies entries_view(out@)[j] == entries_view(
                x.entries@,
            )[j] by {
                lemma_entries_view_index(out@, j);
                lemma_entries_view_index(x.entries@, j);
                if j < i {
                    lemma_entries_view_index(old_out, j);
                }
            }
        }
        i += 1;
    }
    proof {
        lemma_entries_view_len(out@);
        lemma_entries_view_len(x.entries@);
        assert(entries_view(out@) =~= entries_view(x.entries@));
    }
    Document { entries: out }
}

impl View for Bson {
    type V = SpecBson;

    open spec fn view(&self) -> SpecBson {
        bson_view(*self)
    }
}

impl View for Document {
    type V = SpecDoc;

    open spec fn view(&self) -> SpecDoc {
        doc_view(*self)
    }
}

} // verus!
