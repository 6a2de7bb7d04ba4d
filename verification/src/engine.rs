//! The document store the runtime operates against: collections of well-formed
//! documents, filter matching over the comparison-operator set, "set" updates,
//! read projections, sorting, and index bookkeeping. It stands where the
//! database boundary of a deployment would, with the same documented
//! semantics, and an injectable failure switch for exercising error paths.

use vstd::prelude::*;
use crate::document::{
    bson_clone, bson_eq, bson_view, doc_clone, doc_view, entries_view, items_view,
    spec_contains_key, spec_get, spec_set, Bson, Document, SpecBson, SpecDoc,
};
use vstd::multiset::Multiset;
use crate::schema::IndexModel;
use crate::schema::IndexDirection;

verus! {

broadcast use vstd::std_specs::vec::group_vec_axioms;

/// How two values stand to each other in the model's ordering: ordered one of
/// three ways, or not comparable at all (values of different kinds, or of a
/// kind the model does not order).
#[derive(Debug, Clone, Copy, PartialEq, Eq, Structural)]
pub enum Comparison {
    Less,
    Equal,
    Greater,
    Incomparable,
}

/// The mirror image of a comparison.
pub open spec fn flip(c: Comparison) -> Comparison {
    match c {
        Comparison::Less => Comparison::Greater,
        Comparison::Greater => Comparison::Less,
        Comparison::Equal => Comparison::Equal,
        Comparison::Incomparable => Comparison::Incomparable,
    }
}

/// Lexicographic comparison of two character sequences by code point.
pub open spec fn lex_cmp(a: Seq<char>, b: Seq<char>) -> Comparison
    decreases a.len(),
{
    if a.len() == 0 && b.len() == 0 {
        Comparison::Equal
    } else if a.len() == 0 {
        Comparison::Less
    } else if b.len() == 0 {
        Comparison::Greater
    } else if (a[0] as u32) < (b[0] as u32) {
        Comparison::Less
    } else if (a[0] as u32) > (b[0] as u32) {
        Comparison::Greater
    } else {
        lex_cmp(a.drop_first(), b.drop_first())
    }
}

/// Swapping the arguments mirrors the comparison.
pub proof fn lemma_lex_cmp_flip(a: Seq<char>, b: Seq<char>)
    ensures
        lex_cmp(b, a) == flip(lex_cmp(a, b)),
    decreases a.len(),
{
    if a.len() > 0 && b.len() > 0 && (a[0] as u32) == (b[0] as u32) {
        lemma_lex_cmp_flip(a.drop_first(), b.drop_first());
    }
}

/// Three-way comparison of two integers.
pub open spec fn int_cmp(a: int, b: int) -> Comparison {
    if a < b {
        Comparison::Less
    } else if a > b {
        Comparison::Greater
    } else {
        Comparison::Equal
    }
}

/// The numeric value of a value of the numeric kinds.
pub open spec fn numeric_of(v: SpecBson) -> Option<int> {
    match v {
        SpecBson::Int32(x) => Option::Some(x as int),
        SpecBson::Int64(x) => Option::Some(x as int),
        _ => Option::None,
    }
}

/// The model's ordering of two values. The numeric kinds compare with each
/// other by value; booleans order false before true; text orders
/// lexicographically by code point; object ids, dates and timestamps order by
/// their numeric content. Every other pair is equal when the values are equal
/// and incomparable otherwise.
pub open spec fn spec_cmp(a: SpecBson, b: SpecBson) -> Comparison {
    if numeric_of(a) is Some && numeric_of(b) is Some {
        int_cmp(numeric_of(a)->0, numeric_of(b)->0)
    } else {
        match (a, b) {
            (SpecBson::Boolean(x), SpecBson::Boolean(y)) => {
                int_cmp(
                    if x {
                        1int
                    } else {
                        0int
                    },
                    if y {
                        1int
                    } else {
                        0int
                    },
                )
            },
            (SpecBson::Text(x), SpecBson::Text(y)) => lex_cmp(x, y),
            (SpecBson::Oid(x), SpecBson::Oid(y)) => int_cmp(x.0 as int, y.0 as int),
            (SpecBson::Date(x), SpecBson::Date(y)) => int_cmp(x.0 as int, y.0 as int),
            (SpecBson::Stamp(x), SpecBson::Stamp(y)) => {
                if x.time != y.time {
                    int_cmp(x.time as int, y.time as int)
                } else {
                    int_cmp(x.increment as int, y.increment as int)
                }
            },
            _ => {
                if a == b {
                    Comparison::Equal
                } else {
                    Comparison::Incomparable
                }
            },
        }
    }
}

/// Swapping the arguments mirrors the comparison.
pub proof fn lemma_spec_cmp_flip(a: SpecBson, b: SpecBson)
    ensures
        spec_cmp(b, a) == flip(spec_cmp(a, b)),
{
    if numeric_of(a) is Some && numeric_of(b) is Some {
    } else {
        match (a, b) {
            (SpecBson::Text(x), SpecBson::Text(y)) => {
                lemma_lex_cmp_flip(x, y);
            },
            _ => {},
        }
    }
}

/// Lexicographic comparison of two strings.
pub fn str_cmp(a: &String, b: &String) -> (r: Comparison)
    ensures
        r == lex_cmp(a@, b@),
{
    let an = a.as_str().unicode_len();
    let bn = b.as_str().unicode_len();
    let mut i: usize = 0;
    proof {
        assert(a@.skip(0) =~= a@);
        assert(b@.skip(0) =~= b@);
    }
    while i < an && i < bn
        invariant
            an == a@.len(),
            bn == b@.len(),
            i <= an,
            i <= bn,
            lex_cmp(a@, b@) == lex_cmp(a@.skip(i as int), b@.skip(i as int)),
        decreases an - i,
    {
        let ca = a.as_str().get_char(i);
        let cb = b.as_str().get_char(i);
        proof {
            assert(a@.skip(i as int)[0] == a@[i as int]);
            assert(b@.skip(i as int)[0] == b@[i as int]);
            assert(a@.skip(i as int).drop_first() =~= a@.skip(i + 1 as int));
            assert(b@.skip(i as int).drop_first() =~= b@.skip(i + 1 as int));
        }
        if (ca as u32) < (cb as u32) {
            return Comparison::Less;
        }
        if (ca as u32) > (cb as u32) {
            return Comparison::Greater;
        }
        i += 1;
    }
    proof {
        if i < an {
            assert(a@.skip(i as int).len() > 0);
            assert(b@.skip(i as int).len() == 0);
        } else if i < bn {
            assert(a@.skip(i as int).len() == 0);
            assert(b@.skip(i as int).len() > 0);
        } else {
            assert(a@.skip(i as int).len() == 0);
            assert(b@.skip(i as int).len() == 0);
        }
    }
    if an < bn {
        Comparison::Less
    } else if an > bn {
        Comparison::Greater
    } else {
        Comparison::Equal
    }
}

/// The model's ordering of two values.
pub fn bson_cmp(a: &Bson, b: &Bson) -> (r: Comparison)
    ensures
        r == spec_cmp(a@, b@),
{
    match (a, b) {
        (Bson::Int32(x), Bson::Int32(y)) => int_cmp_exec(*x as i64, *y as i64),
        (Bson::Int32(x), Bson::Int64(y)) => int_cmp_exec(*x as i64, *y),
        (Bson::Int64(x), Bson::Int32(y)) => int_cmp_exec(*x, *y as i64),
        (Bson::Int64(x), Bson::Int64(y)) => int_cmp_exec(*x, *y),
        (Bson::Boolean(x), Bson::Boolean(y)) => {
            if *x == *y {
                Comparison::Equal
            } else if !*x {
                Comparison::Less
            } else {
                Comparison::Greater
            }
        },
        (Bson::Text(x), Bson::Text(y)) => str_cmp(x, y),
        (Bson::Oid(x), Bson::Oid(y)) => {
            if x.0 < y.0 {
                Comparison::Less
            } else if x.0 > y.0 {
                Comparison::Greater
            } else {
                Comparison::Equal
            }
        },
        (Bson::Date(x), Bson::Date(y)) => int_cmp_exec(x.0, y.0),
        (Bson::Stamp(x), Bson::Stamp(y)) => {
            if x.time != y.time {
                if x.time < y.time {
                    Comparison::Less
                } else {
                    Comparison::Greater
                }
            } else {
                if x.increment < y.increment {
                    Comparison::Less
                } else if x.increment > y.increment {
                    Comparison::Greater
                } else {
                    Comparison::Equal
                }
            }
        },
        _ => {
            if bson_eq(a, b) {
                proof {
                    assert(numeric_of(a@) is Some ==> a@ == b@);
                }
                Comparison::Equal
            } else {
                Comparison::Incomparable
            }
        },
    }
}

/// Three-way comparison of two machine integers.
fn int_cmp_exec(a: i64, b: i64) -> (r: Comparison)
    ensures
        r == int_cmp(a as int, b as int),
{
    if a < b {
        Comparison::Less
    } else if a > b {
        Comparison::Greater
    } else {
        Comparison::Equal
    }
}

/// The view of an optionally present stored value.
pub open spec fn stored_view(o: Option<&Bson>) -> Option<SpecBson> {
    match o {
        Option::Some(b) => Option::Some(bson_view(*b)),
        Option::None => Option::None,
    }
}

/// Whether a key names a comparison operator: it starts with `$`.
pub open spec fn is_op_key(k: Seq<char>) -> bool {
    k.len() > 0 && k[0] == '$'
}

/// Whether one comparison operator accepts a stored value (`None` when the
/// record does not hold the field at all). Equality and inequality compare
/// whole values; the ordered operators accept only comparable pairs; `$in`
/// accepts a held value listed in the operand array, and `$nin` accepts
/// exactly what `$in` rejects, absent fields included. A key naming no known
/// operator accepts nothing.
pub open spec fn op_matches(stored: Option<SpecBson>, key: Seq<char>, operand: SpecBson) -> bool {
    if key == ("$eq")@ {
        stored == Option::Some(operand)
    } else if key == ("$ne")@ {
        stored != Option::Some(operand)
    } else if key == ("$gt")@ {
        stored matches Option::Some(s) && spec_cmp(s, operand) == Comparison::Greater
    } else if key == ("$gte")@ {
        stored matches Option::Some(s) && (spec_cmp(s, operand) == Comparison::Greater || spec_cmp(
            s,
            operand,
        ) == Comparison::Equal)
    } else if key == ("$lt")@ {
        stored matches Option::Some(s) && spec_cmp(s, operand) == Comparison::Less
    } else if key == ("$lte")@ {
        stored matches Option::Some(s) && (spec_cmp(s, operand) == Comparison::Less || spec_cmp(
            s,
            operand,
        ) == Comparison::Equal)
    } else if key == ("$in")@ {
        stored matches Option::Some(s) && operand matches SpecBson::Array(items) && items.contains(
            s,
        )
    } else if key == ("$nin")@ {
        !(stored matches Option::Some(s) && operand matches SpecBson::Array(items)
            && items.contains(s))
    } else {
        false
    }
}

/// An operator document: nonempty, and every key names an operator.
pub open spec fn is_operator_doc(pairs: SpecDoc) -> bool {
    pairs.len() > 0 && forall|i: int| 0 <= i < pairs.len() ==> is_op_key(#[trigger] pairs[i].0)
}

/// Whether one filter condition accepts a stored value: an operator document
/// is the conjunction of its operators; any other condition means equality
/// with a held value.
pub open spec fn cond_matches(stored: Option<SpecBson>, cond: SpecBson) -> bool {
    match cond {
        SpecBson::Doc(pairs) => {
            if is_operator_doc(pairs) {
                forall|i: int|
                    0 <= i < pairs.len() ==> op_matches(stored, pairs[i].0, #[trigger] pairs[i].1)
            } else {
                stored == Option::Some(cond)
            }
        },
        _ => stored == Option::Some(cond),
    }
}

/// Whether a document matches a filter: the conjunction, over the filter's
/// entries, of each condition against the value the document holds under that
/// entry's name.
pub open spec fn doc_matches(doc: SpecDoc, filter: SpecDoc) -> bool {
    forall|i: int|
        0 <= i < filter.len() ==> cond_matches(spec_get(doc, filter[i].0), #[trigger] filter[i].1)
}

/// Whether the array holds the value.
pub fn contains_bson(items: &Vec<Bson>, v: &Bson) -> (r: bool)
    ensures
        r == items_view(items@).contains(bson_view(*v)),
{
    broadcast use {crate::document::lemma_items_view_len, crate::document::lemma_items_view_index};

    let n = items.len();
    proof {
        crate::document::lemma_items_view_len(items@);
    }
    let mut i: usize = 0;
    while i < n
        invariant
            n == items@.len(),
            items_view(items@).len() == n,
            i <= n,
            forall|j: int| 0 <= j < i ==> items_view(items@)[j] != bson_view(*v),
        decreases n - i,
    {
        proof {
            crate::document::lemma_items_view_index(items@, i as int);
        }
        if bson_eq(&items[i], v) {
            proof {
                assert(items_view(items@)[i as int] == bson_view(*v));
            }
            return true;
        }
        i += 1;
    }
    proof {
        crate::document::lemma_items_view_len(items@);
        assert forall|j: int| 0 <= j < items_view(items@).len() implies items_view(items@)[j]
            != bson_view(*v) by {
            crate::document::lemma_items_view_index(items@, j);
        }
    }
    false
}

/// Whether one comparison operator accepts a stored value.
fn op_matches_exec(stored: Option<&Bson>, key: &String, operand: &Bson) -> (r: bool)
    ensures
        r == op_matches(stored_view(stored), key@, operand@),
{
    if *key == "$eq".to_owned() {
        match stored {
            Option::Some(s) => bson_eq(s, operand),
            Option::None => false,
        }
    } else if *key == "$ne".to_owned() {
        match stored {
            Option::Some(s) => !bson_eq(s, operand),
            Option::None => true,
        }
    } else if *key == "$gt".to_owned() {
        match stored {
            Option::Some(s) => bson_cmp(s, operand) == Comparison::Greater,
            Option::None => false,
        }
    } else if *key == "$gte".to_owned() {
        match stored {
            Option::Some(s) => {
                let c = bson_cmp(s, operand);
                c == Comparison::Greater || c == Comparison::Equal
            },
            Option::None => false,
        }
    } else if *key == "$lt".to_owned() {
        match stored {
            Option::Some(s) => bson_cmp(s, operand) == Comparison::Less,
            Option::None => false,
        }
    } else if *key == "$lte".to_owned() {
        match stored {
            Option::Some(s) => {
                let c = bson_cmp(s, operand);
                c == Comparison::Less || c == Comparison::Equal
            },
            Option::None => false,
        }
    } else if *key == "$in".to_owned() {
        match (stored, operand) {
            (Option::Some(s), Bson::Array(items)) => contains_bson(items, s),
            _ => false,
        }
    } else if *key == "$nin".to_owned() {
        match (stored, operand) {
            (Option::Some(s), Bson::Array(items)) => !contains_bson(items, s),
            _ => true,
        }
    } else {
        false
    }
}

/// Whether every key of the document names an operator, and there is at least
/// one.
fn is_operator_doc_exec(d: &Document) -> (r: bool)
    ensures
        r == is_operator_doc(d@),
{
    broadcast use {crate::document::lemma_entries_view_len, crate::document::lemma_entries_view_index};

    let n = d.entries.len();
    proof {
        crate::document::lemma_entries_view_len(d.entries@);
    }
    if n == 0 {
        return false;
    }
    let mut i: usize = 0;
    while i < n
        invariant
            n == d.entries@.len(),
            d@.len() == n,
            i <= n,
            forall|j: int| 0 <= j < i ==> is_op_key(#[trigger] d@[j].0),
        decreases n - i,
    {
        proof {
            crate::document::lemma_entries_view_index(d.entries@, i as int);
        }
        let k = &d.entries[i].0;
        let klen = k.as_str().unicode_len();
        if klen == 0 {
            proof {
                assert(!is_op_key(d@[i as int].0));
            }
            return false;
        }
        if k.as_str().get_char(0) != '$' {
            proof {
                assert(!is_op_key(d@[i as int].0));
            }
            return false;
        }
        proof {
            assert(is_op_key(d@[i as int].0));
        }
        i += 1;
    }
    true
}

/// Whether one filter condition accepts a stored value.
fn cond_matches_exec(stored: Option<&Bson>, cond: &Bson) -> (r: bool)
    ensures
        r == cond_matches(stored_view(stored), bson_view(*cond)),
{
    broadcast use {crate::document::lemma_entries_view_len, crate::document::lemma_entries_view_index};

    match cond {
        Bson::Doc(d) => {
            if is_operator_doc_exec(d) {
                let n = d.entries.len();
                proof {
                    crate::document::lemma_entries_view_len(d.entries@);
                }
                let mut i: usize = 0;
                while i < n
                    invariant
                        bson_view(*cond) == SpecBson::Doc(d@),
                        n == d.entries@.len(),
                        d@.len() == n,
                        is_operator_doc(d@),
                        i <= n,
                        forall|j: int|
                            0 <= j < i ==> op_matches(
                                stored_view(stored),
                                d@[j].0,
                                #[trigger] d@[j].1,
                            ),
                    decreases n - i,
                {
                    proof {
                        crate::document::lemma_entries_view_index(d.entries@, i as int);
                    }
                    if !op_matches_exec(stored, &d.entries[i].0, &d.entries[i].1) {
                        proof {
                            assert(!op_matches(stored_view(stored), d@[i as int].0, d@[i as int].1));
                        }
                        return false;
                    }
                    i += 1;
                }
                true
            } else {
                match stored {
                    Option::Some(s) => bson_eq(s, cond),
                    Option::None => false,
                }
            }
        },
        _ => {
            match stored {
                Option::Some(s) => bson_eq(s, cond),
                Option::None => false,
            }
        },
    }
}

/// Why the store refused an operation: an injected engine failure, or an
/// update document that is not a single "set" operator.
#[derive(Debug, Clone, Copy, PartialEq, Eq, Structural)]
pub enum DbError {
    Engine,
    UnsupportedUpdate,
}

/// One collection: its name, its documents in insertion order, and the indexes
/// applied to it.
#[derive(Debug)]
pub struct Collection {
    pub name: String,
    pub docs: Vec<Document>,
    pub indexes: Vec<IndexModel>,
}

/// The store: its collections and an injectable failure switch; while the
/// switch is on, every operation reports an engine failure and changes
/// nothing.
#[derive(Debug)]
pub struct Database {
    pub collections: Vec<Collection>,
    pub failing: bool,
}

/// The views of a list of documents, in order.
pub open spec fn docs_view(s: Seq<Document>) -> Seq<SpecDoc> {
    Seq::new(s.len(), |i: int| doc_view(s[i]))
}

/// The view of an index model: its name, its keys, and its options document.
pub open spec fn imodel_view(m: IndexModel) -> (
    Option<Seq<char>>,
    Seq<(Seq<char>, IndexDirection)>,
    SpecDoc,
) {
    (
        match m.name {
            Option::Some(n) => Option::Some(n@),
            Option::None => Option::None,
        },
        Seq::new(m.keys@.len(), |i: int| (m.keys@[i].0@, m.keys@[i].1)),
        m.options@,
    )
}

/// The views of a list of index models, in order.
pub open spec fn imodels_view(s: Seq<IndexModel>) -> Seq<
    (Option<Seq<char>>, Seq<(Seq<char>, IndexDirection)>, SpecDoc),
> {
    Seq::new(s.len(), |i: int| imodel_view(s[i]))
}

impl Database {
    /// An empty store.
    pub fn new() -> (db: Database)
        ensures
            db.wf(),
            !db.failing,
            forall|n: Seq<char>| #[trigger] db.docs(n) == Seq::<SpecDoc>::empty(),
            forall|n: Seq<char>| #[trigger] db.indexes_of(n) == Seq::<
                (Option<Seq<char>>, Seq<(Seq<char>, IndexDirection)>, SpecDoc),
            >::empty(),
    {
        Database { collections: Vec::new(), failing: false }
    }

    /// Whether a collection with this name exists yet.
    pub open spec fn has_col(self, name: Seq<char>) -> bool {
        exists|i: int|
            0 <= i < self.collections@.len() && #[trigger] self.collections@[i].name@ == name
    }

    /// The position of the collection with this name; meaningful under
    /// `has_col` and, for uniqueness, `wf`.
    pub open spec fn col_at(self, name: Seq<char>) -> int {
        choose|i: int| 0 <= i < self.collections@.len() && self.collections@[i].name@ == name
    }

    /// The documents stored in the named collection, in insertion order; a
    /// collection never written to holds nothing.
    pub open spec fn docs(self, name: Seq<char>) -> Seq<SpecDoc> {
        if self.has_col(name) {
            docs_view(self.collections@[self.col_at(name)].docs@)
        } else {
            Seq::empty()
        }
    }

    /// The indexes applied to the named collection, in application order.
    pub open spec fn indexes_of(self, name: Seq<char>) -> Seq<
        (Option<Seq<char>>, Seq<(Seq<char>, IndexDirection)>, SpecDoc),
    > {
        if self.has_col(name) {
            imodels_view(self.collections@[self.col_at(name)].indexes@)
        } else {
            Seq::empty()
        }
    }

    /// Collections carry distinct names.
    pub open spec fn names_wf(self) -> bool {
        forall|i: int, j: int|
            #![trigger self.collections@[i].name@, self.collections@[j].name@]
            0 <= i < j < self.collections@.len() ==> self.collections@[i].name@
                != self.collections@[j].name@
    }

    /// Collections carry distinct names and hold only well-formed documents.
    pub open spec fn wf(self) -> bool {
        &&& self.names_wf()
        &&& forall|i: int|
            0 <= i < self.collections@.len() ==> col_docs_wf(#[trigger] self.collections@[i])
    }
}

/// Every document of the collection is well-formed.
pub open spec fn col_docs_wf(c: Collection) -> bool {
    forall|j: int|
        0 <= j < c.docs@.len() ==> crate::document::spec_wf(#[trigger] docs_view(c.docs@)[j])
}

/// What replacing one collection by another of the same name does to the
/// store: every other collection reads unchanged, and the named one reads as
/// the replacement.
pub proof fn lemma_col_update(pre: Database, post: Database, i: int)
    requires
        pre.wf(),
        0 <= i < pre.collections@.len(),
        post.collections@.len() == pre.collections@.len(),
        post.collections@ == pre.collections@.update(i, post.collections@[i]),
        post.collections@[i].name@ == pre.collections@[i].name@,
    ensures
        post.names_wf(),
        col_docs_wf(post.collections@[i]) ==> post.wf(),
        forall|n: Seq<char>| #[trigger] post.has_col(n) == pre.has_col(n),
        post.docs(pre.collections@[i].name@) == docs_view(post.collections@[i].docs@),
        post.indexes_of(pre.collections@[i].name@) == imodels_view(post.collections@[i].indexes@),
        forall|n: Seq<char>|
            n != pre.collections@[i].name@ ==> #[trigger] post.docs(n) == pre.docs(n),
        forall|n: Seq<char>|
            n != pre.collections@[i].name@ ==> #[trigger] post.indexes_of(n) == pre.indexes_of(n),
{
    let name = pre.collections@[i].name@;
    assert forall|p: int, q: int|
        #![trigger post.collections@[p].name@, post.collections@[q].name@]
        0 <= p < q < post.collections@.len() implies post.collections@[p].name@
        != post.collections@[q].name@ by {
        assert(pre.collections@[p].name@ != pre.collections@[q].name@);
        assert(post.collections@[p].name@ == pre.collections@[p].name@);
        assert(post.collections@[q].name@ == pre.collections@[q].name@);
    }
    assert forall|n: Seq<char>| #[trigger] post.has_col(n) == pre.has_col(n) by {
        if pre.has_col(n) {
            let j = pre.col_at(n);
            assert(post.collections@[j].name@ == n);
        }
        if post.has_col(n) {
            let j = post.col_at(n);
            assert(pre.collections@[j].name@ == n);
        }
    }
    lemma_col_at_unique(pre, i);
    assert(post.has_col(name));
    let j = post.col_at(name);
    assert(0 <= j < post.collections@.len() && post.collections@[j].name@ == name);
    if j != i {
        assert(pre.collections@[j].name@ == name);
        if i < j {
            assert(pre.collections@[i].name@ != pre.collections@[j].name@);
        } else {
            assert(pre.collections@[j].name@ != pre.collections@[i].name@);
        }
        assert(false);
    }
    assert forall|n: Seq<char>| n != name implies #[trigger] post.docs(n) == pre.docs(n)
        && #[trigger] post.indexes_of(n) == pre.indexes_of(n) by {
        if pre.has_col(n) {
            let p = pre.col_at(n);
            assert(p != i);
            assert(post.collections@[p].name@ == n);
            let q = post.col_at(n);
            assert(post.collections@[q].name@ == n);
            if q != p {
                assert(pre.collections@[q].name@ == n);
                if p < q {
                    assert(pre.collections@[p].name@ != pre.collections@[q].name@);
                } else {
                    assert(pre.collections@[q].name@ != pre.collections@[p].name@);
                }
                assert(false);
            }
            assert(post.collections@[p] == pre.collections@[p]);
        }
    }
}

/// Under `wf`, a collection position with a matching name is the one `col_at`
/// denotes.
pub proof fn lemma_col_at_unique(db: Database, i: int)
    requires
        db.wf(),
        0 <= i < db.collections@.len(),
    ensures
        db.has_col(db.collections@[i].name@),
        db.col_at(db.collections@[i].name@) == i,
{
    let name = db.collections@[i].name@;
    assert(db.has_col(name));
    let j = db.col_at(name);
    assert(0 <= j < db.collections@.len() && db.collections@[j].name@ == name);
    if j != i {
        if i < j {
            assert(db.collections@[i].name@ != db.collections@[j].name@);
        } else {
            assert(db.collections@[j].name@ != db.collections@[i].name@);
        }
        assert(false);
    }
}

impl Database {
    /// The position of the named collection, if it exists.
    fn find_col(&self, name: &String) -> (r: Option<usize>)
        requires
            self.wf(),
        ensures
            match r {
                Option::Some(i) => i < self.collections@.len()
                    && self.collections@[i as int].name@ == name@ && self.has_col(name@)
                    && self.col_at(name@) == i,
                Option::None => !self.has_col(name@),
            },
    {
        let n = self.collections.len();
        let mut i: usize = 0;
        while i < n
            invariant
                self.wf(),
                n == self.collections@.len(),
                i <= n,
                forall|j: int| 0 <= j < i ==> #[trigger] self.collections@[j].name@ != name@,
            decreases n - i,
        {
            if self.collections[i].name == *name {
                proof {
                    lemma_col_at_unique(*self, i as int);
                }
                return Option::Some(i);
            }
            i += 1;
        }
        Option::None
    }

    /// The position of the named collection, creating it empty when absent.
    /// What every collection holds is unchanged.
    fn ensure_col(&mut self, name: &String) -> (i: usize)
        requires
            old(self).wf(),
        ensures
            final(self).wf(),
            final(self).failing == old(self).failing,
            i < final(self).collections@.len(),
            final(self).collections@[i as int].name@ == name@,
            final(self).has_col(name@),
            final(self).col_at(name@) == i,
            forall|n: Seq<char>| #[trigger] final(self).docs(n) == old(self).docs(n),
            forall|n: Seq<char>| #[trigger] final(self).indexes_of(n) == old(self).indexes_of(n),
    {
        match self.find_col(name) {
            Option::Some(i) => {
                proof {
                    assert forall|n: Seq<char>| #[trigger] self.docs(n) == old(self).docs(n) by {}
                }
                i
            },
            Option::None => {
                let i = self.collections.len();
                self.collections.push(
                    Collection { name: name.clone(), docs: Vec::new(), indexes: Vec::new() },
                );
                proof {
                    let post = *self;
                    let pre = *old(self);
                    assert forall|p: int, q: int|
                        #![trigger post.collections@[p].name@, post.collections@[q].name@]
                        0 <= p < q < post.collections@.len() implies post.collections@[p].name@
                        != post.collections@[q].name@ by {
                        if q < i as int {
                            assert(pre.collections@[p].name@ != pre.collections@[q].name@);
                        } else {
                            assert(post.collections@[q].name@ == name@);
                            assert(!pre.has_col(name@));
                            assert(pre.collections@[p].name@ != name@);
                        }
                    }
                    assert(post.wf());
                    lemma_col_at_unique(post, i as int);
                    assert forall|n: Seq<char>| #[trigger] post.docs(n) == pre.docs(n) by {
                        if pre.has_col(n) {
                            let j = pre.col_at(n);
                            assert(post.collections@[j].name@ == n);
                            lemma_col_at_unique(post, j);
                            assert(post.docs(n) == pre.docs(n));
                        } else if n == name@ {
                            assert(post.docs(n) =~= Seq::<SpecDoc>::empty());
                        } else {
                            if post.has_col(n) {
                                let j = post.col_at(n);
                                assert(j == i as int || pre.collections@[j].name@ == n);
                                assert(false);
                            }
                        }
                    }
                    assert forall|n: Seq<char>| #[trigger] post.indexes_of(n) == pre.indexes_of(
                        n,
                    ) by {
                        if pre.has_col(n) {
                            let j = pre.col_at(n);
                            assert(post.collections@[j].name@ == n);
                            lemma_col_at_unique(post, j);
                        } else if n == name@ {
                            assert(post.indexes_of(n) =~= Seq::<
                                (Option<Seq<char>>, Seq<(Seq<char>, IndexDirection)>, SpecDoc),
                            >::empty());
                        } else {
                            if post.has_col(n) {
                                let j = post.col_at(n);
                                assert(j == i as int || pre.collections@[j].name@ == n);
                                assert(false);
                            }
                        }
                    }
                }
                i
            },
        }
    }
}

/// How many of the documents match the filter.
pub open spec fn spec_count(docs: Seq<SpecDoc>, f: SpecDoc) -> int
    decreases docs.len(),
{
    if docs.len() == 0 {
        0
    } else {
        (if doc_matches(docs[0], f) {
            1int
        } else {
            0int
        }) + spec_count(docs.drop_first(), f)
    }
}

/// The matching documents, in stored order.
pub open spec fn select(docs: Seq<SpecDoc>, f: SpecDoc) -> Seq<SpecDoc>
    decreases docs.len(),
{
    if docs.len() == 0 {
        Seq::empty()
    } else if doc_matches(docs[0], f) {
        seq![docs[0]] + select(docs.drop_first(), f)
    } else {
        select(docs.drop_first(), f)
    }
}

/// The documents that do not match the filter, in stored order.
pub open spec fn remove_matches(docs: Seq<SpecDoc>, f: SpecDoc) -> Seq<SpecDoc>
    decreases docs.len(),
{
    if docs.len() == 0 {
        Seq::empty()
    } else if doc_matches(docs[0], f) {
        remove_matches(docs.drop_first(), f)
    } else {
        seq![docs[0]] + remove_matches(docs.drop_first(), f)
    }
}

/// The payload of an update document that is exactly one "set" operator.
pub open spec fn set_payload(u: SpecDoc) -> Option<SpecDoc> {
    if u.len() == 1 && u[0].0 == ("$set")@ && u[0].1 is Doc {
        Option::Some(u[0].1->Doc_0)
    } else {
        Option::None
    }
}

/// A document after a "set" payload: each payload pair stored under its name,
/// in order.
pub open spec fn set_all(payload: SpecDoc, target: SpecDoc) -> SpecDoc
    decreases payload.len(),
{
    if payload.len() == 0 {
        target
    } else {
        set_all(payload.drop_first(), spec_set(target, payload[0].0, payload[0].1))
    }
}

/// A "set" payload keeps a document well-formed.
pub proof fn lemma_set_all_wf(payload: SpecDoc, target: SpecDoc)
    requires
        crate::document::spec_wf(target),
    ensures
        crate::document::spec_wf(set_all(payload, target)),
    decreases payload.len(),
{
    if payload.len() > 0 {
        crate::document::lemma_spec_set(target, payload[0].0, payload[0].1);
        lemma_set_all_wf(payload.drop_first(), spec_set(target, payload[0].0, payload[0].1));
    }
}

/// Whether position `i` holds the first match.
pub open spec fn is_first_match(docs: Seq<SpecDoc>, f: SpecDoc, i: int) -> bool {
    &&& 0 <= i < docs.len()
    &&& doc_matches(docs[i], f)
    &&& forall|j: int| 0 <= j < i ==> !doc_matches(#[trigger] docs[j], f)
}

/// Whether any document matches.
pub open spec fn any_match(docs: Seq<SpecDoc>, f: SpecDoc) -> bool {
    exists|i: int| 0 <= i < docs.len() && doc_matches(#[trigger] docs[i], f)
}

/// There is at most one first match.
pub proof fn lemma_first_match_unique(docs: Seq<SpecDoc>, f: SpecDoc, i: int, j: int)
    requires
        is_first_match(docs, f, i),
        is_first_match(docs, f, j),
    ensures
        i == j,
{
    if i < j {
        assert(!doc_matches(docs[i], f));
    } else if j < i {
        assert(!doc_matches(docs[j], f));
    }
}

/// Every matching document after a "set" payload, the others unchanged.
pub open spec fn update_all(docs: Seq<SpecDoc>, f: SpecDoc, payload: SpecDoc) -> Seq<SpecDoc> {
    Seq::new(
        docs.len(),
        |i: int|
            if doc_matches(docs[i], f) {
                set_all(payload, docs[i])
            } else {
                docs[i]
            },
    )
}

/// Applies a "set" payload to a document in place.
fn apply_set(target: &mut Document, payload: &Document)
    requires
        old(target).wf(),
    ensures
        final(target)@ == set_all(payload@, old(target)@),
        final(target).wf(),
{
    broadcast use {crate::document::lemma_entries_view_len, crate::document::lemma_entries_view_index};

    let n = payload.entries.len();
    let mut i: usize = 0;
    proof {
        assert(payload@.skip(0) =~= payload@);
    }
    while i < n
        invariant
            target.wf(),
            n == payload.entries@.len(),
            payload@.len() == n,
            i <= n,
            set_all(payload@.skip(i as int), target@) == set_all(payload@, old(target)@),
        decreases n - i,
    {
        proof {
            crate::document::lemma_entries_view_index(payload.entries@, i as int);
            assert(payload@.skip(i as int)[0] == payload@[i as int]);
            assert(payload@.skip(i as int).drop_first() =~= payload@.skip(i + 1 as int));
        }
        let key = payload.entries[i].0.clone();
        let val = bson_clone(&payload.entries[i].1);
        target.insert(key, val);
        i += 1;
    }
    proof {
        assert(payload@.skip(n as int) =~= Seq::<(Seq<char>, SpecBson)>::empty());
    }
}

impl Database {
    /// How many documents of the named collection match the filter.
    pub fn count_documents(&self, name: &String, filter: &Document) -> (r: Result<u64, DbError>)
        requires
            self.wf(),
        ensures
            self.failing ==> r == Result::<u64, DbError>::Err(DbError::Engine),
            !self.failing ==> r is Ok && r->Ok_0 == spec_count(self.docs(name@), filter@),
    {
        if self.failing {
            return Result::Err(DbError::Engine);
        }
        let ci = match self.find_col(name) {
            Option::Some(ci) => ci,
            Option::None => {
                return Result::Ok(0);
            },
        };
        let col = &self.collections[ci];
        let ghost all = docs_view(col.docs@);
        let n = col.docs.len();
        let mut count: usize = 0;
        let mut i: usize = 0;
        proof {
            assert(all.skip(0) =~= all);
        }
        while i < n
            invariant
                self.wf(),
                ci < self.collections@.len(),
                col == self.collections@[ci as int],
                all == docs_view(col.docs@),
                n == col.docs@.len(),
                i <= n,
                count <= i,
                count + spec_count(all.skip(i as int), filter@) == spec_count(all, filter@),
            decreases n - i,
        {
            proof {
                assert(all.skip(i as int)[0] == all[i as int]);
                assert(all.skip(i as int).drop_first() =~= all.skip(i + 1 as int));
                assert(col_docs_wf(*col));
                assert(crate::document::spec_wf(docs_view(col.docs@)[i as int]));
            }
            if doc_matches_exec(&col.docs[i], filter) {
                count += 1;
            }
            i += 1;
        }
        proof {
            assert(all.skip(n as int) =~= Seq::<SpecDoc>::empty());
        }
        Result::Ok(count as u64)
    }

    /// Appends a document to the named collection, creating the collection
    /// when absent.
    pub fn insert_one(&mut self, name: &String, doc: Document) -> (r: Result<(), DbError>)
        requires
            old(self).wf(),
            crate::document::spec_wf(doc@),
        ensures
            final(self).wf(),
            final(self).failing == old(self).failing,
            old(self).failing ==> r == Result::<(), DbError>::Err(DbError::Engine) && *final(self)
                == *old(self),
            !old(self).failing ==> r is Ok && final(self).docs(name@) == old(self).docs(
                name@,
            ).push(doc@) && (forall|n: Seq<char>|
                n != name@ ==> #[trigger] final(self).docs(n) == old(self).docs(n)) && (forall|
                n: Seq<char>,
            | #[trigger] final(self).indexes_of(n) == old(self).indexes_of(n)),
    {
        if self.failing {
            return Result::Err(DbError::Engine);
        }
        let ci = self.ensure_col(name);
        let ghost mid = *self;
        let ghost dv = doc@;
        let col = vstd::std_specs::vec::vec_index_mut(&mut self.collections, ci);
        let ghost pre_docs = col.docs@;
        col.docs.push(doc);
        proof {
            lemma_col_update(mid, *self, ci as int);
            assert(docs_view(self.collections@[ci as int].docs@) =~= docs_view(pre_docs).push(dv));
            assert forall|j: int|
                0 <= j < self.collections@[ci as int].docs@.len() implies crate::document::spec_wf(
                #[trigger] docs_view(self.collections@[ci as int].docs@)[j],
            ) by {
                if j < pre_docs.len() {
                    assert(docs_view(pre_docs)[j] == docs_view(mid.collections@[ci as int].docs@)[j]);
                    assert(col_docs_wf(mid.collections@[ci as int]));
                }
            }
            assert(col_docs_wf(self.collections@[ci as int]));
            assert(mid.collections@[ci as int].name@ == name@);
            assert(self.docs(name@) == docs_view(self.collections@[ci as int].docs@));
            assert(mid.docs(name@) == docs_view(pre_docs));
            assert(self.docs(name@) == mid.docs(name@).push(dv));
            assert(mid.docs(name@) == old(self).docs(name@));
            assert forall|n: Seq<char>| n != name@ implies #[trigger] self.docs(n) == old(
                self,
            ).docs(n) by {
                assert(self.docs(n) == mid.docs(n));
                assert(mid.docs(n) == old(self).docs(n));
            }
            assert forall|n: Seq<char>| #[trigger] self.indexes_of(n) == old(self).indexes_of(
                n,
            ) by {
                if n != name@ {
                    assert(self.indexes_of(n) == mid.indexes_of(n));
                } else {
                    assert(self.indexes_of(n) == imodels_view(
                        self.collections@[ci as int].indexes@,
                    ));
                    assert(mid.indexes_of(n) == imodels_view(mid.collections@[ci as int].indexes@));
                    assert(self.collections@[ci as int].indexes@ == mid.collections@[ci as int].indexes@);
                }
                assert(mid.indexes_of(n) == old(self).indexes_of(n));
            }
        }
        Result::Ok(())
    }

    /// Appends each of the documents to the named collection, in order.
    pub fn insert_many(&mut self, name: &String, docs: Vec<Document>) -> (r: Result<(), DbError>)
        requires
            old(self).wf(),
            forall|i: int| 0 <= i < docs@.len() ==> crate::document::spec_wf(#[trigger] docs_view(docs@)[i]),
        ensures
            final(self).wf(),
            final(self).failing == old(self).failing,
            old(self).failing ==> r == Result::<(), DbError>::Err(DbError::Engine) && *final(self)
                == *old(self),
            !old(self).failing ==> r is Ok && final(self).docs(name@) == old(self).docs(name@)
                + docs_view(docs@) && (forall|n: Seq<char>|
                n != name@ ==> #[trigger] final(self).docs(n) == old(self).docs(n)) && (forall|
                n: Seq<char>,
            | #[trigger] final(self).indexes_of(n) == old(self).indexes_of(n)),
    {
        if self.failing {
            return Result::Err(DbError::Engine);
        }
        let ghost orig = *old(self);
        let ghost all = docs_view(docs@);
        let n = docs.len();
        let mut rest = docs;
        let mut i: usize = 0;
        proof {
            assert(old(self).docs(name@) + all.take(0) =~= old(self).docs(name@));
        }
        while i < n
            invariant
                self.wf(),
                !self.failing,
                self.failing == orig.failing,
                n == all.len(),
                i + rest@.len() == n,
                forall|j: int| 0 <= j < rest@.len() ==> doc_view(#[trigger] rest@[j]) == all[i + j],
                forall|j: int| 0 <= j < all.len() ==> crate::document::spec_wf(#[trigger] all[j]),
                self.docs(name@) == orig.docs(name@) + all.take(i as int),
                forall|nm: Seq<char>| nm != name@ ==> #[trigger] self.docs(nm) == orig.docs(nm),
                forall|nm: Seq<char>| #[trigger] self.indexes_of(nm) == orig.indexes_of(nm),
            decreases n - i,
        {
            let d = rest.remove(0);
            proof {
                assert(doc_view(d) == all[i as int]);
                assert forall|j: int| 0 <= j < rest@.len() implies doc_view(#[trigger] rest@[j])
                    == all[i + 1 + j] by {}
            }
            let ghost pre = *self;
            let _ = self.insert_one(name, d);
            proof {
                assert(self.docs(name@) =~= orig.docs(name@) + all.take(i + 1 as int));
            }
            i += 1;
        }
        proof {
            assert(all.take(n as int) =~= all);
        }
        Result::Ok(())
    }

    /// Applies index models to the named collection, creating it when absent.
    pub fn create_indexes(&mut self, name: &String, models: Vec<IndexModel>) -> (r: Result<
        (),
        DbError,
    >)
        requires
            old(self).wf(),
        ensures
            final(self).wf(),
            final(self).failing == old(self).failing,
            old(self).failing ==> r == Result::<(), DbError>::Err(DbError::Engine) && *final(self)
                == *old(self),
            !old(self).failing ==> r is Ok && final(self).indexes_of(name@) == old(
                self,
            ).indexes_of(name@) + imodels_view(models@) && (forall|n: Seq<char>|
                n != name@ ==> #[trigger] final(self).indexes_of(n) == old(self).indexes_of(n))
                && (forall|n: Seq<char>| #[trigger] final(self).docs(n) == old(self).docs(n)),
    {
        if self.failing {
            return Result::Err(DbError::Engine);
        }
        let ci = self.ensure_col(name);
        let ghost mid = *self;
        let ghost mv = imodels_view(models@);
        let mut more = models;
        let col = vstd::std_specs::vec::vec_index_mut(&mut self.collections, ci);
        let ghost pre_ix = col.indexes@;
        col.indexes.append(&mut more);
        proof {
            lemma_col_update(mid, *self, ci as int);
            assert(imodels_view(self.collections@[ci as int].indexes@) =~= imodels_view(pre_ix)
                + mv);
            assert(self.collections@[ci as int].docs@ == mid.collections@[ci as int].docs@);
            assert(col_docs_wf(mid.collections@[ci as int]));
            assert(col_docs_wf(self.collections@[ci as int]));
            assert(mid.collections@[ci as int].name@ == name@);
            assert(self.indexes_of(name@) == imodels_view(self.collections@[ci as int].indexes@));
            assert(mid.indexes_of(name@) == imodels_view(pre_ix));
            assert(self.indexes_of(name@) == mid.indexes_of(name@) + mv);
            assert(mid.indexes_of(name@) == old(self).indexes_of(name@));
            assert forall|n: Seq<char>| n != name@ implies #[trigger] self.indexes_of(n) == old(
                self,
            ).indexes_of(n) by {
                assert(self.indexes_of(n) == mid.indexes_of(n));
                assert(mid.indexes_of(n) == old(self).indexes_of(n));
            }
            assert forall|n: Seq<char>| #[trigger] self.docs(n) == old(self).docs(n) by {
                if n != name@ {
                    assert(self.docs(n) == mid.docs(n));
                } else {
                    assert(self.docs(n) == docs_view(self.collections@[ci as int].docs@));
                    assert(mid.docs(n) == docs_view(mid.collections@[ci as int].docs@));
                }
                assert(mid.docs(n) == old(self).docs(n));
            }
        }
        Result::Ok(())
    }
}

impl Database {
    /// Scans the named collection for the first matching document.
    fn find_first_match(&self, ci: usize, filter: &Document) -> (found: Option<usize>)
        requires
            self.wf(),
            ci < self.collections@.len(),
        ensures
            match found {
                Option::Some(k) => is_first_match(
                    docs_view(self.collections@[ci as int].docs@),
                    filter@,
                    k as int,
                ),
                Option::None => !any_match(docs_view(self.collections@[ci as int].docs@), filter@),
            },
    {
        let col = &self.collections[ci];
        let ghost all = docs_view(col.docs@);
        let n = col.docs.len();
        let mut di: usize = 0;
        while di < n
            invariant
                self.wf(),
                ci < self.collections@.len(),
                col == self.collections@[ci as int],
                all == docs_view(col.docs@),
                n == col.docs@.len(),
                di <= n,
                forall|j: int| 0 <= j < di ==> !doc_matches(#[trigger] all[j], filter@),
            decreases n - di,
        {
            proof {
                assert(col_docs_wf(*col));
                assert(crate::document::spec_wf(docs_view(col.docs@)[di as int]));
            }
            if doc_matches_exec(&col.docs[di], filter) {
                return Option::Some(di);
            }
            di += 1;
        }
        proof {
            assert forall|j: int| 0 <= j < all.len() implies !doc_matches(
                #[trigger] all[j],
                filter@,
            ) by {}
        }
        Option::None
    }

    /// Applies a "set" update to the first document of the named collection
    /// that matches the filter; without a match, nothing changes. Any update
    /// document other than a single "set" operator is refused.
    pub fn update_one(&mut self, name: &String, filter: &Document, update_doc: &Document) -> (r:
        Result<(), DbError>)
        requires
            old(self).wf(),
        ensures
            final(self).wf(),
            final(self).failing == old(self).failing,
            old(self).failing ==> r == Result::<(), DbError>::Err(DbError::Engine) && *final(self)
                == *old(self),
            !old(self).failing && set_payload(update_doc@) is None ==> r == Result::<
                (),
                DbError,
            >::Err(DbError::UnsupportedUpdate) && *final(self) == *old(self),
            !old(self).failing && set_payload(update_doc@) is Some ==> r is Ok && (forall|
                n: Seq<char>,
            |
                n != name@ ==> #[trigger] final(self).docs(n) == old(self).docs(n)) && (forall|
                n: Seq<char>,
            | #[trigger] final(self).indexes_of(n) == old(self).indexes_of(n)) && (!any_match(
                old(self).docs(name@),
                filter@,
            ) ==> final(self).docs(name@) == old(self).docs(name@)) && (any_match(
                old(self).docs(name@),
                filter@,
            ) ==> exists|i: int|
                is_first_match(old(self).docs(name@), filter@, i) && final(self).docs(name@) == old(
                    self,
                ).docs(name@).update(
                    i,
                    set_all(set_payload(update_doc@)->0, old(self).docs(name@)[i]),
                )),
    {
        broadcast use {crate::document::lemma_entries_view_len, crate::document::lemma_entries_view_index};

        if self.failing {
            return Result::Err(DbError::Engine);
        }
        if update_doc.entries.len() != 1 {
            proof {
                crate::document::lemma_entries_view_len(update_doc.entries@);
            }
            return Result::Err(DbError::UnsupportedUpdate);
        }
        proof {
            crate::document::lemma_entries_view_len(update_doc.entries@);
            crate::document::lemma_entries_view_index(update_doc.entries@, 0);
        }
        if !(update_doc.entries[0].0 == "$set".to_owned()) {
            return Result::Err(DbError::UnsupportedUpdate);
        }
        let payload = match &update_doc.entries[0].1 {
            Bson::Doc(d) => d,
            _ => {
                return Result::Err(DbError::UnsupportedUpdate);
            },
        };
        proof {
            assert(set_payload(update_doc@) == Option::Some(payload@));
        }
        let ci = match self.find_col(name) {
            Option::Some(ci) => ci,
            Option::None => {
                proof {
                    assert(self.docs(name@) =~= Seq::<SpecDoc>::empty());
                    assert(!any_match(self.docs(name@), filter@));
                }
                return Result::Ok(());
            },
        };
        let ghost all = docs_view(self.collections@[ci as int].docs@);
        let found = self.find_first_match(ci, filter);
        let di = match found {
            Option::Some(di) => di,
            Option::None => {
                proof {
                    assert(self.docs(name@) == all);
                }
                return Result::Ok(());
            },
        };
        let ghost mid = *self;
        let col = vstd::std_specs::vec::vec_index_mut(&mut self.collections, ci);
        let ghost pre_docs = col.docs@;
        let target = vstd::std_specs::vec::vec_index_mut(&mut col.docs, di);
        proof {
            assert(col_docs_wf(mid.collections@[ci as int]));
            assert(crate::document::spec_wf(docs_view(pre_docs)[di as int]));
        }
        apply_set(target, payload);
        proof {
            lemma_col_update(mid, *self, ci as int);
            assert(mid.collections@[ci as int].name@ == name@);
            let new_docs = self.collections@[ci as int].docs@;
            assert(docs_view(new_docs) =~= all.update(
                di as int,
                set_all(payload@, all[di as int]),
            ));
            assert forall|j: int| 0 <= j < new_docs.len() implies crate::document::spec_wf(
                #[trigger] docs_view(new_docs)[j],
            ) by {
                if j != di as int {
                    assert(docs_view(new_docs)[j] == docs_view(pre_docs)[j]);
                    assert(col_docs_wf(mid.collections@[ci as int]));
                }
            }
            assert(col_docs_wf(self.collections@[ci as int]));
            assert(self.docs(name@) == docs_view(new_docs));
            assert(mid.docs(name@) == all);
            assert(is_first_match(mid.docs(name@), filter@, di as int));
            assert(any_match(mid.docs(name@), filter@));
        }
        Result::Ok(())
    }

    /// Applies a "set" update to every document of the named collection that
    /// matches the filter. Any update document other than a single "set"
    /// operator is refused.
    pub fn update_many(&mut self, name: &String, filter: &Document, update_doc: &Document) -> (r:
        Result<(), DbError>)
        requires
            old(self).wf(),
        ensures
            final(self).wf(),
            final(self).failing == old(self).failing,
            old(self).failing ==> r == Result::<(), DbError>::Err(DbError::Engine) && *final(self)
                == *old(self),
            !old(self).failing && set_payload(update_doc@) is None ==> r == Result::<
                (),
                DbError,
            >::Err(DbError::UnsupportedUpdate) && *final(self) == *old(self),
            !old(self).failing && set_payload(update_doc@) is Some ==> r is Ok && (forall|
                n: Seq<char>,
            |
                n != name@ ==> #[trigger] final(self).docs(n) == old(self).docs(n)) && (forall|
                n: Seq<char>,
            | #[trigger] final(self).indexes_of(n) == old(self).indexes_of(n)) && final(self).docs(
                name@,
            ) == update_all(old(self).docs(name@), filter@, set_payload(update_doc@)->0),
    {
        broadcast use {crate::document::lemma_entries_view_len, crate::document::lemma_entries_view_index};

        if self.failing {
            return Result::Err(DbError::Engine);
        }
        if update_doc.entries.len() != 1 {
            proof {
                crate::document::lemma_entries_view_len(update_doc.entries@);
            }
            return Result::Err(DbError::UnsupportedUpdate);
        }
        proof {
            crate::document::lemma_entries_view_len(update_doc.entries@);
            crate::document::lemma_entries_view_index(update_doc.entries@, 0);
        }
        if !(update_doc.entries[0].0 == "$set".to_owned()) {
            return Result::Err(DbError::UnsupportedUpdate);
        }
        let payload = match &update_doc.entries[0].1 {
            Bson::Doc(d) => d,
            _ => {
                return Result::Err(DbError::UnsupportedUpdate);
            },
        };
        proof {
            assert(set_payload(update_doc@) == Option::Some(payload@));
        }
        let ci = match self.find_col(name) {
            Option::Some(ci) => ci,
            Option::None => {
                proof {
                    assert(self.docs(name@) =~= Seq::<SpecDoc>::empty());
                    assert(self.docs(name@) =~= update_all(self.docs(name@), filter@, payload@));
                }
                return Result::Ok(());
            },
        };
        let ghost orig = *self;
        let ghost all = docs_view(orig.collections@[ci as int].docs@);
        let n = self.collections[ci].docs.len();
        let mut di: usize = 0;
        while di < n
            invariant
                orig.wf(),
                !orig.failing,
                self.failing == orig.failing,
                ci < orig.collections@.len(),
                self.collections@.len() == orig.collections@.len(),
                forall|q: int|
                    0 <= q < orig.collections@.len() && q != ci ==> #[trigger] self.collections@[q]
                        == orig.collections@[q],
                self.collections@[ci as int].name == orig.collections@[ci as int].name,
                self.collections@[ci as int].indexes == orig.collections@[ci as int].indexes,
                n == orig.collections@[ci as int].docs@.len(),
                self.collections@[ci as int].docs@.len() == n,
                all == docs_view(orig.collections@[ci as int].docs@),
                di <= n,
                set_payload(update_doc@) == Option::Some(payload@),
                forall|p: int|
                    di <= p < n ==> #[trigger] self.collections@[ci as int].docs@[p]
                        == orig.collections@[ci as int].docs@[p],
                forall|p: int|
                    0 <= p < di ==> #[trigger] docs_view(self.collections@[ci as int].docs@)[p]
                        == update_all(all, filter@, payload@)[p],
                forall|p: int|
                    0 <= p < di ==> crate::document::spec_wf(
                        #[trigger] docs_view(self.collections@[ci as int].docs@)[p],
                    ),
            decreases n - di,
        {
            proof {
                assert(col_docs_wf(orig.collections@[ci as int]));
                assert(docs_view(self.collections@[ci as int].docs@)[di as int] == docs_view(
                    orig.collections@[ci as int].docs@,
                )[di as int]);
                assert(crate::document::spec_wf(all[di as int]));
            }
            let ghost pre_iter = *self;
            let is_match = doc_matches_exec(&self.collections[ci].docs[di], filter);
            if is_match {
                let col = vstd::std_specs::vec::vec_index_mut(&mut self.collections, ci);
                let target = vstd::std_specs::vec::vec_index_mut(&mut col.docs, di);
                proof {
                    assert(crate::document::spec_wf(doc_view(*target)));
                }
                apply_set(target, payload);
            }
            proof {
                let cur = self.collections@[ci as int].docs@;
                let prev = pre_iter.collections@[ci as int].docs@;
                assert(doc_matches(all[di as int], filter@) == is_match);
                if is_match {
                    assert(doc_view(cur[di as int]) == set_all(payload@, all[di as int]));
                    lemma_set_all_wf(payload@, all[di as int]);
                    assert forall|p: int| 0 <= p < n && p != di ==> #[trigger] cur[p] == prev[p]
                        by {}
                } else {
                    assert(cur == prev);
                }
                assert forall|p: int| 0 <= p < di + 1 implies #[trigger] docs_view(cur)[p]
                    == update_all(all, filter@, payload@)[p] && crate::document::spec_wf(
                    docs_view(cur)[p],
                ) by {
                    if p < di {
                        assert(docs_view(cur)[p] == docs_view(prev)[p]);
                        assert(docs_view(prev)[p] == update_all(all, filter@, payload@)[p]);
                        assert(crate::document::spec_wf(docs_view(prev)[p]));
                    } else {
                        if is_match {
                            assert(docs_view(cur)[p] == set_all(payload@, all[di as int]));
                        } else {
                            assert(cur[p] == orig.collections@[ci as int].docs@[p]);
                            assert(docs_view(cur)[p] == all[di as int]);
                            assert(crate::document::spec_wf(all[di as int]));
                        }
                    }
                }
            }
            di += 1;
        }
        let ghost mid = *self;
        proof {
            assert(self.collections@ =~= orig.collections@.update(
                ci as int,
                self.collections@[ci as int],
            ));
            lemma_col_update(orig, *self, ci as int);
            assert(orig.collections@[ci as int].name@ == name@) by {
                assert(orig.collections@[ci as int].name == self.collections@[ci as int].name);
            }
            let new_docs = self.collections@[ci as int].docs@;
            assert(docs_view(new_docs) =~= update_all(all, filter@, payload@));
            assert(col_docs_wf(self.collections@[ci as int]));
            assert(self.docs(name@) == docs_view(new_docs));
            assert(orig.docs(name@) == all);
        }
        Result::Ok(())
    }

    /// Removes the first document of the named collection that matches the
    /// filter; without a match, nothing changes.
    pub fn delete_one(&mut self, name: &String, filter: &Document) -> (r: Result<(), DbError>)
        requires
            old(self).wf(),
        ensures
            final(self).wf(),
            final(self).failing == old(self).failing,
            old(self).failing ==> r == Result::<(), DbError>::Err(DbError::Engine) && *final(self)
                == *old(self),
            !old(self).failing ==> r is Ok && (forall|n: Seq<char>|
                n != name@ ==> #[trigger] final(self).docs(n) == old(self).docs(n)) && (forall|
                n: Seq<char>,
            | #[trigger] final(self).indexes_of(n) == old(self).indexes_of(n)) && (!any_match(
                old(self).docs(name@),
                filter@,
            ) ==> final(self).docs(name@) == old(self).docs(name@)) && (any_match(
                old(self).docs(name@),
                filter@,
            ) ==> exists|i: int|
                is_first_match(old(self).docs(name@), filter@, i) && final(self).docs(name@) == old(
                    self,
                ).docs(name@).remove(i)),
    {
        if self.failing {
            return Result::Err(DbError::Engine);
        }
        let ci = match self.find_col(name) {
            Option::Some(ci) => ci,
            Option::None => {
                proof {
                    assert(self.docs(name@) =~= Seq::<SpecDoc>::empty());
                    assert(!any_match(self.docs(name@), filter@));
                }
                return Result::Ok(());
            },
        };
        let ghost all = docs_view(self.collections@[ci as int].docs@);
        let found = self.find_first_match(ci, filter);
        let di = match found {
            Option::Some(di) => di,
            Option::None => {
                proof {
                    assert(self.docs(name@) == all);
                }
                return Result::Ok(());
            },
        };
        let ghost mid = *self;
        let col = vstd::std_specs::vec::vec_index_mut(&mut self.collections, ci);
        let ghost pre_docs = col.docs@;
        let _ = col.docs.remove(di);
        proof {
            lemma_col_update(mid, *self, ci as int);
            assert(mid.collections@[ci as int].name@ == name@);
            let new_docs = self.collections@[ci as int].docs@;
            assert(docs_view(new_docs) =~= all.remove(di as int));
            assert forall|j: int| 0 <= j < new_docs.len() implies crate::document::spec_wf(
                #[trigger] docs_view(new_docs)[j],
            ) by {
                assert(col_docs_wf(mid.collections@[ci as int]));
                if j < di as int {
                    assert(docs_view(new_docs)[j] == docs_view(pre_docs)[j]);
                } else {
                    assert(docs_view(new_docs)[j] == docs_view(pre_docs)[j + 1]);
                }
            }
            assert(col_docs_wf(self.collections@[ci as int]));
            assert(self.docs(name@) == docs_view(new_docs));
            assert(mid.docs(name@) == all);
            assert(is_first_match(mid.docs(name@), filter@, di as int));
            assert(any_match(mid.docs(name@), filter@));
        }
        Result::Ok(())
    }

    /// Removes every document of the named collection that matches the filter.
    pub fn delete_many(&mut self, name: &String, filter: &Document) -> (r: Result<(), DbError>)
        requires
            old(self).wf(),
        ensures
            final(self).wf(),
            final(self).failing == old(self).failing,
            old(self).failing ==> r == Result::<(), DbError>::Err(DbError::Engine) && *final(self)
                == *old(self),
            !old(self).failing ==> r is Ok && (forall|n: Seq<char>|
                n != name@ ==> #[trigger] final(self).docs(n) == old(self).docs(n)) && (forall|
                n: Seq<char>,
            | #[trigger] final(self).indexes_of(n) == old(self).indexes_of(n)) && final(self).docs(
                name@,
            ) == remove_matches(old(self).docs(name@), filter@),
    {
        if self.failing {
            return Result::Err(DbError::Engine);
        }
        let ci = match self.find_col(name) {
            Option::Some(ci) => ci,
            Option::None => {
                proof {
                    assert(self.docs(name@) =~= Seq::<SpecDoc>::empty());
                    assert(self.docs(name@) =~= remove_matches(self.docs(name@), filter@));
                }
                return Result::Ok(());
            },
        };
        let ghost all = docs_view(self.collections@[ci as int].docs@);
        let n = self.collections[ci].docs.len();
        let mut kept: Vec<Document> = Vec::new();
        let mut di: usize = 0;
        proof {
            assert(all.skip(0) =~= all);
        }
        while di < n
            invariant
                self.wf(),
                ci < self.collections@.len(),
                n == self.collections@[ci as int].docs@.len(),
                all == docs_view(self.collections@[ci as int].docs@),
                di <= n,
                remove_matches(all, filter@) == docs_view(kept@) + remove_matches(
                    all.skip(di as int),
                    filter@,
                ),
                forall|p: int|
                    0 <= p < kept@.len() ==> crate::document::spec_wf(
                        #[trigger] docs_view(kept@)[p],
                    ),
            decreases n - di,
        {
            proof {
                assert(col_docs_wf(self.collections@[ci as int]));
                assert(crate::document::spec_wf(all[di as int]));
                assert(all.skip(di as int)[0] == all[di as int]);
                assert(all.skip(di as int).drop_first() =~= all.skip(di + 1 as int));
            }
            let d = &self.collections[ci].docs[di];
            if !doc_matches_exec(d, filter) {
                let ghost pre_kept = kept@;
                kept.push(doc_clone(d));
                proof {
                    assert(docs_view(kept@) =~= docs_view(pre_kept).push(all[di as int]));
                    assert(docs_view(kept@) + remove_matches(all.skip(di + 1 as int), filter@)
                        =~= docs_view(pre_kept) + remove_matches(all.skip(di as int), filter@));
                }
            }
            di += 1;
        }
        proof {
            assert(all.skip(n as int) =~= Seq::<SpecDoc>::empty());
            assert(docs_view(kept@) + remove_matches(all.skip(n as int), filter@) =~= docs_view(
                kept@,
            ));
        }
        let ghost mid = *self;
        let col = vstd::std_specs::vec::vec_index_mut(&mut self.collections, ci);
        col.docs = kept;
        proof {
            lemma_col_update(mid, *self, ci as int);
            assert(mid.collections@[ci as int].name@ == name@);
            assert(col_docs_wf(self.collections@[ci as int]));
            assert(self.docs(name@) == docs_view(self.collections@[ci as int].docs@));
            assert(mid.docs(name@) == all);
        }
        Result::Ok(())
    }
}

/// A sort direction.
#[derive(Debug, Clone, Copy, PartialEq, Eq, Structural)]
pub enum Order {
    Asc,
    Desc,
}

/// Whether a read projection keeps the field named `k`: the identity key is
/// kept unless the projection document explicitly excludes it; any other field
/// is kept only when the projection document includes it.
pub open spec fn include_key(k: Seq<char>, proj: SpecDoc) -> bool {
    if k == ("_id")@ {
        spec_get(proj, k) != Option::Some(SpecBson::Int32(-1i32))
    } else {
        spec_get(proj, k) == Option::Some(SpecBson::Int32(1i32))
    }
}

/// A document reduced to the fields its read projection keeps, in stored
/// order.
pub open spec fn spec_project(d: SpecDoc, proj: SpecDoc) -> SpecDoc
    decreases d.len(),
{
    if d.len() == 0 {
        Seq::empty()
    } else if include_key(d[0].0, proj) {
        seq![d[0]] + spec_project(d.drop_first(), proj)
    } else {
        spec_project(d.drop_first(), proj)
    }
}

/// A projection of a well-formed document is well-formed, and holds only names
/// the document holds.
pub proof fn lemma_spec_project_wf(d: SpecDoc, proj: SpecDoc)
    requires
        crate::document::spec_wf(d),
    ensures
        crate::document::spec_wf(spec_project(d, proj)),
        forall|k: Seq<char>|
            spec_contains_key(spec_project(d, proj), k) ==> #[trigger] spec_contains_key(d, k),
    decreases d.len(),
{
    if d.len() > 0 {
        let rest = d.drop_first();
        assert forall|p: int, q: int| 0 <= p < q < rest.len() implies rest[p].0 != rest[q].0 by {
            assert(d[p + 1].0 != d[q + 1].0);
        }
        lemma_spec_project_wf(rest, proj);
        let r = spec_project(d, proj);
        assert forall|k: Seq<char>|
            spec_contains_key(r, k) implies #[trigger] spec_contains_key(d, k) by {
            let i = choose|i: int| 0 <= i < r.len() && r[i].0 == k;
            if include_key(d[0].0, proj) {
                if i == 0 {
                    assert(d[0].0 == k);
                } else {
                    assert(spec_contains_key(rest, k));
                    let j = choose|j: int| 0 <= j < rest.len() && rest[j].0 == k;
                    assert(d[j + 1].0 == k);
                }
            } else {
                assert(spec_contains_key(rest, k));
                let j = choose|j: int| 0 <= j < rest.len() && rest[j].0 == k;
                assert(d[j + 1].0 == k);
            }
        }
        if include_key(d[0].0, proj) {
            let sub = spec_project(rest, proj);
            assert forall|p: int, q: int| 0 <= p < q < r.len() implies r[p].0 != r[q].0 by {
                if p == 0 {
                    assert(r[q].0 == sub[q - 1].0);
                    assert(spec_contains_key(sub, sub[q - 1].0));
                    assert(spec_contains_key(rest, sub[q - 1].0));
                    let j = choose|j: int| 0 <= j < rest.len() && rest[j].0 == sub[q - 1].0;
                    assert(d[0].0 != d[j + 1].0);
                } else {
                    assert(r[p].0 == sub[p - 1].0 && r[q].0 == sub[q - 1].0);
                }
            }
        }
    }
}

/// Whether a read projection keeps the field named `k`.
fn include_key_exec(k: &String, proj: &Document) -> (r: bool)
    requires
        proj.wf(),
    ensures
        r == include_key(k@, proj@),
{
    let idw = "_id".to_owned();
    if *k == idw {
        match proj.get(k) {
            Option::Some(b) => !bson_eq(b, &Bson::Int32(-1i32)),
            Option::None => true,
        }
    } else {
        match proj.get(k) {
            Option::Some(b) => bson_eq(b, &Bson::Int32(1i32)),
            Option::None => false,
        }
    }
}

/// A copy of a document reduced to the fields its read projection keeps.
pub fn project_doc(d: &Document, proj: &Document) -> (r: Document)
    requires
        d.wf(),
        proj.wf(),
    ensures
        r@ == spec_project(d@, proj@),
        r.wf(),
{
    broadcast use {crate::document::lemma_entries_view_len, crate::document::lemma_entries_view_index};

    let n = d.entries.len();
    let mut out: Vec<(String, Bson)> = Vec::new();
    let mut i: usize = 0;
    proof {
        assert(d@.skip(0) =~= d@);
    }
    while i < n
        invariant
            d.wf(),
            proj.wf(),
            n == d.entries@.len(),
            d@.len() == n,
            i <= n,
            spec_project(d@, proj@) == entries_view(out@) + spec_project(
                d@.skip(i as int),
                proj@,
            ),
        decreases n - i,
    {
        proof {
            crate::document::lemma_entries_view_index(d.entries@, i as int);
            assert(d@.skip(i as int)[0] == d@[i as int]);
            assert(d@.skip(i as int).drop_first() =~= d@.skip(i + 1 as int));
        }
        if include_key_exec(&d.entries[i].0, proj) {
            let ghost pre = out@;
            out.push((d.entries[i].0.clone(), bson_clone(&d.entries[i].1)));
            proof {
                crate::document::lemma_entries_view_len(pre);
                crate::document::lemma_entries_view_len(out@);
                assert forall|q: int| 0 <= q < out@.len() implies #[trigger] entries_view(out@)[q]
                    == entries_view(pre).push(d@[i as int])[q] by {
                    crate::document::lemma_entries_view_index(out@, q);
                    if q < pre.len() {
                        crate::document::lemma_entries_view_index(pre, q);
                    }
                }
                assert(entries_view(out@) =~= entries_view(pre).push(d@[i as int]));
                assert(entries_view(out@) + spec_project(d@.skip(i + 1 as int), proj@)
                    =~= entries_view(pre) + spec_project(d@.skip(i as int), proj@));
            }
        }
        i += 1;
    }
    proof {
        assert(d@.skip(n as int) =~= Seq::<(Seq<char>, SpecBson)>::empty());
        assert(entries_view(out@) + spec_project(d@.skip(n as int), proj@) =~= entries_view(out@));
        lemma_spec_project_wf(d@, proj@);
    }
    Document { entries: out }
}

/// The view of a list of sort keys, in order.
pub open spec fn keys_view(s: Seq<(String, Order)>) -> Seq<(Seq<char>, Order)> {
    Seq::new(s.len(), |i: int| (s[i].0@, s[i].1))
}

/// How two optionally held field values order: an absent value orders before
/// any held value; two held values order by the value ordering.
pub open spec fn field_cmp(av: Option<SpecBson>, bv: Option<SpecBson>) -> Comparison {
    match (av, bv) {
        (Option::None, Option::None) => Comparison::Equal,
        (Option::None, Option::Some(_)) => Comparison::Less,
        (Option::Some(_), Option::None) => Comparison::Greater,
        (Option::Some(a), Option::Some(b)) => spec_cmp(a, b),
    }
}

/// Whether `a` orders at or before `b` under the sort keys: the first key that
/// strictly orders the two decides, read backwards for a descending key; keys
/// that leave them equal or incomparable pass to the next key.
pub open spec fn doc_le(keys: Seq<(Seq<char>, Order)>, a: SpecDoc, b: SpecDoc) -> bool
    decreases keys.len(),
{
    if keys.len() == 0 {
        true
    } else {
        let c = field_cmp(spec_get(a, keys[0].0), spec_get(b, keys[0].0));
        let c2 = if keys[0].1 is Desc {
            flip(c)
        } else {
            c
        };
        match c2 {
            Comparison::Less => true,
            Comparison::Greater => false,
            _ => doc_le(keys.drop_first(), a, b),
        }
    }
}

/// Any two documents order one way or the other.
pub proof fn lemma_doc_le_total(keys: Seq<(Seq<char>, Order)>, a: SpecDoc, b: SpecDoc)
    ensures
        doc_le(keys, a, b) || doc_le(keys, b, a),
    decreases keys.len(),
{
    if keys.len() > 0 {
        let av = spec_get(a, keys[0].0);
        let bv = spec_get(b, keys[0].0);
        match (av, bv) {
            (Option::Some(x), Option::Some(y)) => {
                lemma_spec_cmp_flip(x, y);
            },
            _ => {},
        }
        lemma_doc_le_total(keys.drop_first(), a, b);
    }
}

/// Whether `a` orders at or before `b` under the sort keys.
fn doc_le_exec(keys: &Vec<(String, Order)>, a: &Document, b: &Document) -> (r: bool)
    requires
        a.wf(),
        b.wf(),
    ensures
        r == doc_le(keys_view(keys@), a@, b@),
{
    let n = keys.len();
    let ghost kv = keys_view(keys@);
    let mut i: usize = 0;
    proof {
        assert(kv.skip(0) =~= kv);
    }
    while i < n
        invariant
            a.wf(),
            b.wf(),
            kv == keys_view(keys@),
            n == keys@.len(),
            i <= n,
            doc_le(kv, a@, b@) == doc_le(kv.skip(i as int), a@, b@),
        decreases n - i,
    {
        proof {
            assert(kv.skip(i as int)[0] == kv[i as int]);
            assert(kv.skip(i as int).drop_first() =~= kv.skip(i + 1 as int));
        }
        let av = a.get(&keys[i].0);
        let bv = b.get(&keys[i].0);
        let c = match (av, bv) {
            (Option::None, Option::None) => Comparison::Equal,
            (Option::None, Option::Some(_)) => Comparison::Less,
            (Option::Some(_), Option::None) => Comparison::Greater,
            (Option::Some(x), Option::Some(y)) => bson_cmp(x, y),
        };
        let c2 = match keys[i].1 {
            Order::Desc => match c {
                Comparison::Less => Comparison::Greater,
                Comparison::Greater => Comparison::Less,
                Comparison::Equal => Comparison::Equal,
                Comparison::Incomparable => Comparison::Incomparable,
            },
            Order::Asc => c,
        };
        match c2 {
            Comparison::Less => {
                return true;
            },
            Comparison::Greater => {
                return false;
            },
            _ => {},
        }
        i += 1;
    }
    proof {
        assert(kv.skip(n as int) =~= Seq::<(Seq<char>, Order)>::empty());
    }
    true
}

/// Adjacent pairs are in order.
pub open spec fn sorted_by(keys: Seq<(Seq<char>, Order)>, s: Seq<SpecDoc>) -> bool {
    forall|i: int| 0 <= i < s.len() - 1 ==> doc_le(keys, #[trigger] s[i], s[i + 1])
}

/// Sorts documents by the sort keys: the result holds the same documents and
/// every adjacent pair is in order.
fn sort_docs(docs: Vec<Document>, keys: &Vec<(String, Order)>) -> (r: Vec<Document>)
    requires
        forall|i: int|
            0 <= i < docs@.len() ==> crate::document::spec_wf(#[trigger] docs_view(docs@)[i]),
    ensures
        docs_view(r@).to_multiset() == docs_view(docs@).to_multiset(),
        sorted_by(keys_view(keys@), docs_view(r@)),
        r@.len() == docs@.len(),
        forall|i: int|
            0 <= i < r@.len() ==> crate::document::spec_wf(#[trigger] docs_view(r@)[i]),
{
    broadcast use vstd::seq_lib::group_to_multiset_ensures;

    let ghost all = docs_view(docs@);
    let ghost kv = keys_view(keys@);
    let n = docs.len();
    let mut rest = docs;
    let mut out: Vec<Document> = Vec::new();
    let mut k: usize = 0;
    proof {
        assert(all.take(0) =~= Seq::<SpecDoc>::empty());
        assert(docs_view(out@) =~= Seq::<SpecDoc>::empty());
        assert(docs_view(out@).to_multiset() =~= all.take(0).to_multiset());
    }
    while rest.len() > 0
        invariant
            kv == keys_view(keys@),
            n == all.len(),
            k + rest@.len() == n,
            forall|j: int| 0 <= j < rest@.len() ==> doc_view(#[trigger] rest@[j]) == all[k + j],
            forall|j: int| 0 <= j < all.len() ==> crate::document::spec_wf(#[trigger] all[j]),
            out@.len() == k,
            docs_view(out@).to_multiset() == all.take(k as int).to_multiset(),
            sorted_by(kv, docs_view(out@)),
            forall|j: int|
                0 <= j < out@.len() ==> crate::document::spec_wf(#[trigger] docs_view(out@)[j]),
        decreases rest@.len(),
    {
        let d = rest.remove(0);
        proof {
            assert(doc_view(d) == all[k as int]);
            assert forall|j: int| 0 <= j < rest@.len() implies doc_view(#[trigger] rest@[j]) == all[
                k + 1 + j
            ] by {}
        }
        let m = out.len();
        let mut p: usize = 0;
        let mut q: usize = 0;
        let mut scanning = true;
        while q < m
            invariant
                kv == keys_view(keys@),
                m == out@.len(),
                p <= q,
                q <= m,
                k < n,
                n == all.len(),
                doc_view(d) == all[k as int],
                crate::document::spec_wf(doc_view(d)),
                scanning ==> p == q,
                !scanning ==> p < m && !doc_le(kv, docs_view(out@)[p as int], doc_view(d)),
                forall|j: int|
                    0 <= j < out@.len() ==> crate::document::spec_wf(
                        #[trigger] docs_view(out@)[j],
                    ),
                forall|j: int| 0 <= j < p ==> doc_le(kv, #[trigger] docs_view(out@)[j], doc_view(d)),
            decreases m - q,
        {
            if scanning {
                proof {
                    assert(crate::document::spec_wf(docs_view(out@)[q as int]));
                }
                if doc_le_exec(keys, &out[q], &d) {
                    p = q + 1;
                } else {
                    scanning = false;
                }
            }
            q += 1;
        }
        // p is the insertion point: everything before orders at or before `d`,
        // and if a document stands at p, `d` orders at or before it
        proof {
            if p < out@.len() {
                lemma_doc_le_total(kv, docs_view(out@)[p as int], doc_view(d));
                assert(doc_le(kv, doc_view(d), docs_view(out@)[p as int]));
            }
        }
        let ghost pre_out = out@;
        out.insert(p, d);
        proof {
            let dv = doc_view(d);
            assert(docs_view(out@) =~= docs_view(pre_out).insert(p as int, dv));
            // the new view splits around the inserted document
            let left = docs_view(pre_out).take(p as int);
            let right = docs_view(pre_out).skip(p as int);
            assert(docs_view(pre_out).insert(p as int, dv) =~= left + (seq![dv] + right));
            assert(docs_view(pre_out) =~= left + right);
            assert(docs_view(out@).to_multiset() =~= docs_view(pre_out).to_multiset().insert(
                dv,
            )) by {
                broadcast use vstd::seq_lib::group_to_multiset_ensures;
                broadcast use vstd::multiset::group_multiset_axioms;

                vstd::seq_lib::lemma_multiset_commutative(left, seq![dv] + right);
                vstd::seq_lib::lemma_multiset_commutative(seq![dv], right);
                vstd::seq_lib::lemma_multiset_commutative(left, right);
                assert(seq![dv] =~= Seq::<SpecDoc>::empty().push(dv));
                assert(Seq::<SpecDoc>::empty().push(dv).to_multiset() =~= Seq::<
                    SpecDoc,
                >::empty().to_multiset().insert(dv));
                assert(Seq::<SpecDoc>::empty().to_multiset().len() == 0);
                assert(docs_view(out@) =~= left + (seq![dv] + right));
            }
            assert(all.take(k + 1 as int).len() == k + 1);
            assert(all.take(k as int).push(dv).len() == k + 1);
            assert forall|q: int| 0 <= q < k + 1 implies all.take(k + 1 as int)[q] == all.take(
                k as int,
            ).push(dv)[q] by {
                assert(all.take(k + 1 as int)[q] == all[q]);
                if q < k {
                    assert(all.take(k as int).push(dv)[q] == all[q]);
                } else {
                    assert(all.take(k as int).push(dv)[q] == dv);
                }
            }
            assert(all.take(k + 1 as int) =~= all.take(k as int).push(dv));
            all.take(k as int).to_multiset_ensures();
            assert((all.take(k as int).push(dv)).to_multiset() =~= all.take(
                k as int,
            ).to_multiset().insert(dv));
            assert(all.take(k + 1 as int).to_multiset() == (all.take(k as int).push(
                dv,
            )).to_multiset());
            assert(all.take(k + 1 as int).to_multiset() =~= all.take(
                k as int,
            ).to_multiset().insert(dv));
            // adjacency around the insertion point
            assert forall|j: int| 0 <= j < docs_view(out@).len() - 1 implies doc_le(
                kv,
                #[trigger] docs_view(out@)[j],
                docs_view(out@)[j + 1],
            ) by {
                if j + 1 < p as int {
                    assert(docs_view(out@)[j] == docs_view(pre_out)[j]);
                    assert(docs_view(out@)[j + 1] == docs_view(pre_out)[j + 1]);
                } else if j + 1 == p as int {
                    assert(docs_view(out@)[j] == docs_view(pre_out)[j]);
                    assert(docs_view(out@)[j + 1] == dv);
                } else if j == p as int {
                    assert(docs_view(out@)[j] == dv);
                    assert(docs_view(out@)[j + 1] == docs_view(pre_out)[j]);
                } else {
                    assert(docs_view(out@)[j] == docs_view(pre_out)[j - 1]);
                    assert(docs_view(out@)[j + 1] == docs_view(pre_out)[j]);
                }
            }
            assert forall|j: int| 0 <= j < out@.len() implies crate::document::spec_wf(
                #[trigger] docs_view(out@)[j],
            ) by {
                if j < p as int {
                    assert(docs_view(out@)[j] == docs_view(pre_out)[j]);
                } else if j == p as int {
                } else {
                    assert(docs_view(out@)[j] == docs_view(pre_out)[j - 1]);
                }
            }
        }
        k += 1;
    }
    proof {
        assert(all.take(n as int) =~= all);
    }
    out
}

/// The sequence after a requested skip: past the end, nothing is left.
pub open spec fn spec_skip_docs(s: Seq<SpecDoc>, skip: Option<u64>) -> Seq<SpecDoc> {
    match skip {
        Option::None => s,
        Option::Some(k) => if k <= s.len() {
            s.skip(k as int)
        } else {
            Seq::empty()
        },
    }
}

/// The sequence after a requested limit: a positive limit keeps at most that
/// many documents from the front; any other limit keeps all.
pub open spec fn spec_limit_docs(s: Seq<SpecDoc>, limit: Option<i64>) -> Seq<SpecDoc> {
    match limit {
        Option::None => s,
        Option::Some(l) => if l <= 0 {
            s
        } else if l as int <= s.len() {
            s.take(l as int)
        } else {
            s
        },
    }
}

/// Each document reduced to its read projection, when one is given.
pub open spec fn project_all(s: Seq<SpecDoc>, proj: Option<SpecDoc>) -> Seq<SpecDoc> {
    match proj {
        Option::None => s,
        Option::Some(p) => Seq::new(s.len(), |i: int| spec_project(s[i], p)),
    }
}

/// The view of an optionally given projection document.
pub open spec fn proj_view(p: Option<&Document>) -> Option<SpecDoc> {
    match p {
        Option::Some(d) => Option::Some(d@),
        Option::None => Option::None,
    }
}

/// Whether the given sort leaves the selection as stored (`None`) or reorders
/// it so that adjacent pairs are in key order.
pub open spec fn sort_ok(
    sort: Option<&Vec<(String, Order)>>,
    selected: Seq<SpecDoc>,
    mid: Seq<SpecDoc>,
) -> bool {
    match sort {
        Option::None => mid == selected,
        Option::Some(ks) => mid.to_multiset() == selected.to_multiset() && sorted_by(
            keys_view(ks@),
            mid,
        ) && mid.len() == selected.len(),
    }
}

impl Database {
    /// The documents of the named collection that match the filter, after the
    /// requested sort, skip, limit and read projection.
    pub fn find(
        &self,
        name: &String,
        filter: &Document,
        projection: Option<&Document>,
        skip: Option<u64>,
        limit: Option<i64>,
        sort: Option<&Vec<(String, Order)>>,
    ) -> (r: Result<Vec<Document>, DbError>)
        requires
            self.wf(),
            match projection {
                Option::Some(p) => p.wf(),
                Option::None => true,
            },
        ensures
            self.failing ==> r == Result::<Vec<Document>, DbError>::Err(DbError::Engine),
            !self.failing ==> r is Ok && exists|mid: Seq<SpecDoc>|
                #![all_triggers]
                sort_ok(sort, select(self.docs(name@), filter@), mid) && docs_view(r->Ok_0@)
                    == project_all(
                    spec_limit_docs(spec_skip_docs(mid, skip), limit),
                    proj_view(projection),
                ),
            r is Ok ==> forall|j: int|
                0 <= j < r->Ok_0@.len() ==> crate::document::spec_wf(
                    #[trigger] docs_view(r->Ok_0@)[j],
                ),
    {
        if self.failing {
            return Result::Err(DbError::Engine);
        }
        let ghost all = self.docs(name@);
        // select the matching documents in stored order
        let mut sel: Vec<Document> = Vec::new();
        match self.find_col(name) {
            Option::None => {
                proof {
                    assert(all =~= Seq::<SpecDoc>::empty());
                }
            },
            Option::Some(ci) => {
                let col = &self.collections[ci];
                let n = col.docs.len();
                let mut i: usize = 0;
                proof {
                    assert(all.skip(0) =~= all);
                }
                while i < n
                    invariant
                        self.wf(),
                        ci < self.collections@.len(),
                        col == self.collections@[ci as int],
                        all == docs_view(col.docs@),
                        n == col.docs@.len(),
                        i <= n,
                        select(all, filter@) == docs_view(sel@) + select(
                            all.skip(i as int),
                            filter@,
                        ),
                        forall|p: int|
                            0 <= p < sel@.len() ==> crate::document::spec_wf(
                                #[trigger] docs_view(sel@)[p],
                            ),
                    decreases n - i,
                {
                    proof {
                        assert(col_docs_wf(*col));
                        assert(crate::document::spec_wf(all[i as int]));
                        assert(all.skip(i as int)[0] == all[i as int]);
                        assert(all.skip(i as int).drop_first() =~= all.skip(i + 1 as int));
                    }
                    let d = &col.docs[i];
                    if doc_matches_exec(d, filter) {
                        let ghost pre_sel = sel@;
                        sel.push(doc_clone(d));
                        proof {
                            assert(docs_view(sel@) =~= docs_view(pre_sel).push(all[i as int]));
                            assert(docs_view(sel@) + select(all.skip(i + 1 as int), filter@)
                                =~= docs_view(pre_sel) + select(all.skip(i as int), filter@));
                        }
                    }
                    i += 1;
                }
                proof {
                    assert(all.skip(n as int) =~= Seq::<SpecDoc>::empty());
                    assert(docs_view(sel@) + select(all.skip(n as int), filter@) =~= docs_view(
                        sel@,
                    ));
                }
            },
        }
        proof {
            assert(docs_view(sel@) == select(all, filter@));
        }
        // sort when asked
        let mid = match sort {
            Option::Some(ks) => sort_docs(sel, ks),
            Option::None => sel,
        };
        let ghost midv = docs_view(mid@);
        proof {
            assert(sort_ok(sort, select(all, filter@), midv));
        }
        // skip and limit
        let len = mid.len();
        let start: usize = match skip {
            Option::Some(k) => {
                if k >= len as u64 {
                    len
                } else {
                    k as usize
                }
            },
            Option::None => 0,
        };
        let end: usize = match limit {
            Option::Some(l) => {
                if l <= 0 {
                    len
                } else {
                    let remaining = len - start;
                    if l as u64 >= remaining as u64 {
                        len
                    } else {
                        start + (l as usize)
                    }
                }
            },
            Option::None => len,
        };
        let ghost windowed = spec_limit_docs(spec_skip_docs(midv, skip), limit);
        proof {
            assert(windowed =~= midv.subrange(start as int, end as int));
        }
        // project and emit
        let mut out: Vec<Document> = Vec::new();
        let mut i: usize = start;
        while i < end
            invariant
                start <= i <= end,
                end <= mid@.len(),
                midv == docs_view(mid@),
                forall|p: int|
                    0 <= p < mid@.len() ==> crate::document::spec_wf(#[trigger] docs_view(mid@)[p]),
                match projection {
                    Option::Some(p) => p.wf(),
                    Option::None => true,
                },
                out@.len() == i - start,
                forall|p: int|
                    0 <= p < out@.len() ==> #[trigger] docs_view(out@)[p] == project_all(
                        midv.subrange(start as int, end as int),
                        proj_view(projection),
                    )[p] && crate::document::spec_wf(docs_view(out@)[p]),
            decreases end - i,
        {
            proof {
                assert(crate::document::spec_wf(docs_view(mid@)[i as int]));
            }
            let ghost pre_out = out@;
            match projection {
                Option::Some(p) => {
                    out.push(project_doc(&mid[i], p));
                    proof {
                        crate::document::lemma_entries_view_len(mid@[i as int].entries@);
                    }
                },
                Option::None => {
                    out.push(doc_clone(&mid[i]));
                },
            }
            proof {
                assert forall|p: int| 0 <= p < out@.len() implies #[trigger] docs_view(out@)[p]
                    == project_all(
                    midv.subrange(start as int, end as int),
                    proj_view(projection),
                )[p] && crate::document::spec_wf(docs_view(out@)[p]) by {
                    if p < pre_out.len() {
                        assert(docs_view(out@)[p] == docs_view(pre_out)[p]);
                    } else {
                        assert(docs_view(out@)[p] == doc_view(out@[p]));
                        assert(midv.subrange(start as int, end as int)[p] == midv[i as int]);
                        match projection {
                            Option::Some(pd) => {
                                lemma_spec_project_wf(midv[i as int], pd@);
                            },
                            Option::None => {},
                        }
                    }
                }
            }
            i += 1;
        }
        proof {
            assert(docs_view(out@) =~= project_all(windowed, proj_view(projection)));
            assert(sort_ok(sort, select(self.docs(name@), filter@), midv));
        }
        Result::Ok(out)
    }

    /// The first document of the named collection that matches the filter,
    /// reduced to the read projection when one is given.
    pub fn find_one(&self, name: &String, filter: &Document, projection: Option<&Document>) -> (r:
        Result<Option<Document>, DbError>)
        requires
            self.wf(),
            match projection {
                Option::Some(p) => p.wf(),
                Option::None => true,
            },
        ensures
            self.failing ==> r == Result::<Option<Document>, DbError>::Err(DbError::Engine),
            !self.failing ==> r is Ok && (!any_match(self.docs(name@), filter@) ==> r->Ok_0
                is None) && (any_match(self.docs(name@), filter@) ==> exists|i: int|
                #![all_triggers]
                is_first_match(self.docs(name@), filter@, i) && r->Ok_0 is Some && doc_view(
                    r->Ok_0->0,
                ) == (match proj_view(projection) {
                    Option::Some(p) => spec_project(self.docs(name@)[i], p),
                    Option::None => self.docs(name@)[i],
                }) && crate::document::spec_wf(doc_view(r->Ok_0->0))),
    {
        if self.failing {
            return Result::Err(DbError::Engine);
        }
        let ci = match self.find_col(name) {
            Option::Some(ci) => ci,
            Option::None => {
                proof {
                    assert(self.docs(name@) =~= Seq::<SpecDoc>::empty());
                    assert(!any_match(self.docs(name@), filter@));
                }
                return Result::Ok(Option::None);
            },
        };
        let di = match self.find_first_match(ci, filter) {
            Option::Some(di) => di,
            Option::None => {
                return Result::Ok(Option::None);
            },
        };
        let d = &self.collections[ci].docs[di];
        proof {
            assert(col_docs_wf(self.collections@[ci as int]));
            assert(crate::document::spec_wf(docs_view(self.collections@[ci as int].docs@)[di as int]));
        }
        let out = match projection {
            Option::Some(p) => project_doc(d, p),
            Option::None => doc_clone(d),
        };
        proof {
            match proj_view(projection) {
                Option::Some(p) => {
                    lemma_spec_project_wf(self.docs(name@)[di as int], p);
                },
                Option::None => {},
            }
            assert(is_first_match(self.docs(name@), filter@, di as int));
            assert(any_match(self.docs(name@), filter@));
        }
        Result::Ok(Option::Some(out))
    }

    /// Applies a "set" update to the first matching document of the named
    /// collection and hands back that document as it stood before the update,
    /// reduced to the read projection when one is given. Without a match,
    /// nothing changes and nothing is returned.
    pub fn find_one_and_update(
        &mut self,
        name: &String,
        filter: &Document,
        update_doc: &Document,
        projection: Option<&Document>,
    ) -> (r: Result<Option<Document>, DbError>)
        requires
            old(self).wf(),
            match projection {
                Option::Some(p) => p.wf(),
                Option::None => true,
            },
        ensures
            final(self).wf(),
            final(self).failing == old(self).failing,
            old(self).failing ==> r == Result::<Option<Document>, DbError>::Err(DbError::Engine)
                && *final(self) == *old(self),
            !old(self).failing && set_payload(update_doc@) is None ==> r == Result::<
                Option<Document>,
                DbError,
            >::Err(DbError::UnsupportedUpdate) && *final(self) == *old(self),
            !old(self).failing && set_payload(update_doc@) is Some ==> r is Ok && (forall|
                n: Seq<char>,
            |
                n != name@ ==> #[trigger] final(self).docs(n) == old(self).docs(n)) && (forall|
                n: Seq<char>,
            | #[trigger] final(self).indexes_of(n) == old(self).indexes_of(n)) && (!any_match(
                old(self).docs(name@),
                filter@,
            ) ==> final(self).docs(name@) == old(self).docs(name@) && r->Ok_0 is None) && (
            any_match(old(self).docs(name@), filter@) ==> exists|i: int|
                #![all_triggers]
                is_first_match(old(self).docs(name@), filter@, i) && final(self).docs(name@) == old(
                    self,
                ).docs(name@).update(
                    i,
                    set_all(set_payload(update_doc@)->0, old(self).docs(name@)[i]),
                ) && r->Ok_0 is Some && doc_view(r->Ok_0->0) == (match proj_view(projection) {
                    Option::Some(p) => spec_project(old(self).docs(name@)[i], p),
                    Option::None => old(self).docs(name@)[i],
                })),
    {
        broadcast use {crate::document::lemma_entries_view_len, crate::document::lemma_entries_view_index};

        if self.failing {
            return Result::Err(DbError::Engine);
        }
        if update_doc.entries.len() != 1 {
            proof {
                crate::document::lemma_entries_view_len(update_doc.entries@);
            }
            return Result::Err(DbError::UnsupportedUpdate);
        }
        proof {
            crate::document::lemma_entries_view_len(update_doc.entries@);
            crate::document::lemma_entries_view_index(update_doc.entries@, 0);
        }
        if !(update_doc.entries[0].0 == "$set".to_owned()) {
            return Result::Err(DbError::UnsupportedUpdate);
        }
        let payload = match &update_doc.entries[0].1 {
            Bson::Doc(d) => d,
            _ => {
                return Result::Err(DbError::UnsupportedUpdate);
            },
        };
        proof {
            assert(set_payload(update_doc@) == Option::Some(payload@));
        }
        let ci = match self.find_col(name) {
            Option::Some(ci) => ci,
            Option::None => {
                proof {
                    assert(self.docs(name@) =~= Seq::<SpecDoc>::empty());
                    assert(!any_match(self.docs(name@), filter@));
                }
                return Result::Ok(Option::None);
            },
        };
        let ghost all = docs_view(self.collections@[ci as int].docs@);
        let di = match self.find_first_match(ci, filter) {
            Option::Some(di) => di,
            Option::None => {
                proof {
                    assert(self.docs(name@) == all);
                }
                return Result::Ok(Option::None);
            },
        };
        let d = &self.collections[ci].docs[di];
        proof {
            assert(col_docs_wf(self.collections@[ci as int]));
            assert(crate::document::spec_wf(docs_view(self.collections@[ci as int].docs@)[di as int]));
        }
        let out = match projection {
            Option::Some(p) => project_doc(d, p),
            Option::None => doc_clone(d),
        };
        let ghost mid = *self;
        let col = vstd::std_specs::vec::vec_index_mut(&mut self.collections, ci);
        let ghost pre_docs = col.docs@;
        let target = vstd::std_specs::vec::vec_index_mut(&mut col.docs, di);
        proof {
            assert(col_docs_wf(mid.collections@[ci as int]));
            assert(crate::document::spec_wf(docs_view(pre_docs)[di as int]));
        }
        apply_set(target, payload);
        proof {
            lemma_col_update(mid, *self, ci as int);
            assert(mid.collections@[ci as int].name@ == name@);
            let new_docs = self.collections@[ci as int].docs@;
            assert(docs_view(new_docs) =~= all.update(
                di as int,
                set_all(payload@, all[di as int]),
            ));
            assert forall|j: int| 0 <= j < new_docs.len() implies crate::document::spec_wf(
                #[trigger] docs_view(new_docs)[j],
            ) by {
                if j != di as int {
                    assert(docs_view(new_docs)[j] == docs_view(pre_docs)[j]);
                    assert(col_docs_wf(mid.collections@[ci as int]));
                }
            }
            assert(col_docs_wf(self.collections@[ci as int]));
            assert(self.docs(name@) == docs_view(new_docs));
            assert(mid.docs(name@) == all);
            assert(is_first_match(mid.docs(name@), filter@, di as int));
            assert(any_match(mid.docs(name@), filter@));
        }
        Result::Ok(Option::Some(out))
    }
}

/// Whether a document matches a filter.
pub fn doc_matches_exec(doc: &Document, filter: &Document) -> (r: bool)
    requires
        doc.wf(),
    ensures
        r == doc_matches(doc@, filter@),
{
    broadcast use {crate::document::lemma_entries_view_len, crate::document::lemma_entries_view_index};

    let n = filter.entries.len();
    proof {
        crate::document::lemma_entries_view_len(filter.entries@);
    }
    let mut i: usize = 0;
    while i < n
        invariant
            doc.wf(),
            n == filter.entries@.len(),
            filter@.len() == n,
            i <= n,
            forall|j: int|
                0 <= j < i ==> cond_matches(spec_get(doc@, filter@[j].0), #[trigger] filter@[j].1),
        decreases n - i,
    {
        proof {
            crate::document::lemma_entries_view_index(filter.entries@, i as int);
        }
        let stored = doc.get(&filter.entries[i].0);
        if !cond_matches_exec(stored, &filter.entries[i].1) {
            proof {
                assert(!cond_matches(spec_get(doc@, filter@[i as int].0), filter@[i as int].1));
            }
            return false;
        }
        i += 1;
    }
    true
}

} // verus!
