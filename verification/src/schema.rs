//! The schema compiler: validates a record declaration — its identity field,
//! wire-name overrides, projections and indexes — and emits the artifacts the
//! runtime consumes: the collection name, the field-name table, and the
//! projection and index models.

use vstd::prelude::*;
use crate::document::{doc_clone, wires_wf, Bson, Document};
use crate::field::Field;
use crate::filter::{FilterOperator, TypedFilter};
use crate::update::TypedUpdate;

verus! {

broadcast use vstd::std_specs::vec::group_vec_axioms;

/// A field of a record as declared: its name in code and, optionally, the wire
/// name stored in the database instead.
#[derive(Debug, Clone)]
pub struct FieldDescriptor {
    pub name: String,
    pub rename: Option<String>,
}

/// A named, fixed subset of a record's fields, declared by their names in
/// code.
#[derive(Debug, Clone)]
pub struct ProjectionDescriptor {
    pub name: String,
    pub fields: Vec<String>,
}

/// A declared index: its name ("_" asks for an anonymous index), its keys as
/// (field name, direction literal) pairs where the literal must be 1 or -1,
/// and opaque index options.
#[derive(Debug)]
pub struct IndexDescriptor {
    pub name: String,
    pub keys: Vec<(String, i32)>,
    pub options: Document,
}

/// A record declaration as handed to the schema compiler.
#[derive(Debug)]
pub struct EntityDescriptor {
    pub name: String,
    pub fields: Vec<FieldDescriptor>,
    pub projections: Vec<ProjectionDescriptor>,
    pub indexes: Vec<IndexDescriptor>,
}

/// Why a record declaration was rejected. Validation fails before any artifact
/// is produced, so an invalid record type is never usable at runtime.
#[derive(Debug)]
pub enum SchemaError {
    /// The record declares no field named `id`.
    MissingIdField,
    /// The `id` field does not carry the wire-name override `_id`.
    IdFieldMissingRename,
    /// Two fields share a name.
    DuplicateField(String),
    /// Two fields share a wire name.
    DuplicateWireName(String),
    /// A field mentioned twice in one shorthand construction, or a field the
    /// record does not declare.
    UnknownField(String),
    /// A projection references a field the record does not declare.
    UnknownFieldInProjection(String, String),
    /// An index references a field the record does not declare.
    UnknownFieldInIndex(String, String),
    /// An index direction literal other than 1 or -1.
    InvalidIndexDirection(String, i32),
}

/// What heck's snake-case conversion returns; the result depends on the
/// characters alone.
pub uninterp spec fn snake_of(s: Seq<char>) -> Seq<char>;

/// What heck's upper-camel-case conversion returns; the result depends on the
/// characters alone.
pub uninterp spec fn upper_camel_of(s: Seq<char>) -> Seq<char>;

/// Relies on heck's `ToSnakeCase` for `str`: a pure function of the input
/// characters; an empty input stays empty.
#[verifier::external_body]
fn to_snake_case(s: &String) -> (r: String)
    ensures
        r@ == snake_of(s@),
        s@.len() == 0 ==> r@.len() == 0,
{
    heck::ToSnakeCase::to_snake_case(s.as_str())
}

/// Relies on heck's `ToUpperCamelCase` for `str`: a pure function of the input
/// characters; an empty input stays empty.
#[verifier::external_body]
fn to_upper_camel_case(s: &String) -> (r: String)
    ensures
        r@ == upper_camel_of(s@),
        s@.len() == 0 ==> r@.len() == 0,
{
    heck::ToUpperCamelCase::to_upper_camel_case(s.as_str())
}

/// The collection-name suffix that is dropped from a record name.
pub open spec fn entity_suffix() -> Seq<char> {
    ("_entity")@
}

/// A snake-cased record name without a trailing `_entity`: the suffix is
/// dropped when present.
pub open spec fn spec_strip_entity_suffix(s: Seq<char>) -> Seq<char> {
    if s.len() >= entity_suffix().len() && s.subrange(
        s.len() - entity_suffix().len(),
        s.len() as int,
    ) == entity_suffix() {
        s.subrange(0, s.len() - entity_suffix().len())
    } else {
        s
    }
}

/// The collection a record is stored in, derived from its name: the snake case
/// of the name, without a trailing `_entity`.
pub open spec fn collection_name_of(record: Seq<char>) -> Seq<char> {
    spec_strip_entity_suffix(snake_of(record))
}

/// Drops a trailing `_entity` from `s` when present.
fn strip_entity_suffix(s: &String) -> (r: String)
    ensures
        r@ == spec_strip_entity_suffix(s@),
{
    proof {
        reveal_strlit("_entity");
    }
    let suffix = "_entity";
    let m = suffix.unicode_len();
    let n = s.as_str().unicode_len();
    if n < m {
        return s.clone();
    }
    let mut i: usize = 0;
    let mut matched = true;
    while i < m
        invariant
            suffix@ == entity_suffix(),
            m == entity_suffix().len(),
            n == s@.len(),
            m <= n,
            i <= m,
            matched == (forall|j: int| 0 <= j < i ==> s@[n - m + j] == entity_suffix()[j]),
        decreases m - i,
    {
        proof {
            reveal_strlit("_entity");
        }
        if s.as_str().get_char(n - m + i) != suffix.get_char(i) {
            proof {
                assert(s@[n - m + i] != entity_suffix()[i as int]);
            }
            matched = false;
        }
        i += 1;
    }
    if matched {
        proof {
            assert(s@.subrange(n - m, n as int) =~= entity_suffix());
        }
        s.as_str().substring_char(0, n - m).to_owned()
    } else {
        proof {
            let j = choose|j: int| 0 <= j < m && s@[n - m + j] != entity_suffix()[j];
            assert(s@.subrange(n - m, n as int)[j] != entity_suffix()[j]);
        }
        s.clone()
    }
}

/// The wire name a field stores under: its override when it has one, its own
/// name otherwise.
pub open spec fn wire_of_field(f: FieldDescriptor) -> Seq<char> {
    match f.rename {
        Option::Some(r) => r@,
        Option::None => f.name@,
    }
}

/// The wire-name override of a field declaration, if it carries one.
pub fn extract_serde_rename(field: &FieldDescriptor) -> (r: Option<String>)
    ensures
        r is Some == field.rename is Some,
        r is Some ==> r->0@ == field.rename->0@,
{
    match &field.rename {
        Option::Some(w) => Option::Some(w.clone()),
        Option::None => Option::None,
    }
}

/// The wire name of a field declaration.
fn wire_of(field: &FieldDescriptor) -> (r: String)
    ensures
        r@ == wire_of_field(*field),
{
    match &field.rename {
        Option::Some(w) => w.clone(),
        Option::None => field.name.clone(),
    }
}

/// The field-name enumeration emitted for a record: one entry per field, the
/// upper-camel-cased variant name paired with the wire name the variant
/// renders to.
#[derive(Debug)]
pub struct FieldsEnum {
    pub variants: Vec<(String, String)>,
}

impl FieldsEnum {
    /// The wire name a field-enumeration value renders to.
    pub fn wire_of_variant(&self, i: usize) -> (r: &String)
        requires
            i < self.variants@.len(),
        ensures
            r@ == self.variants@[i as int].1@,
    {
        &self.variants[i].1
    }
}

/// Builds the field-name enumeration: each field gives one variant, named by
/// the upper-camel case of the field's name and rendering to the field's wire
/// name.
pub fn build_fields_enum(fields: &Vec<FieldDescriptor>) -> (e: FieldsEnum)
    ensures
        e.variants@.len() == fields@.len(),
        forall|i: int|
            0 <= i < fields@.len() ==> #[trigger] e.variants@[i].0@ == upper_camel_of(
                fields@[i].name@,
            ) && e.variants@[i].1@ == wire_of_field(fields@[i]),
{
    let mut variants: Vec<(String, String)> = Vec::new();
    let n = fields.len();
    let mut i: usize = 0;
    while i < n
        invariant
            n == fields@.len(),
            i <= n,
            variants@.len() == i,
            forall|j: int|
                0 <= j < i ==> #[trigger] variants@[j].0@ == upper_camel_of(fields@[j].name@)
                    && variants@[j].1@ == wire_of_field(fields@[j]),
        decreases n - i,
    {
        let variant = to_upper_camel_case(&fields[i].name);
        let wire = wire_of(&fields[i]);
        variants.push((variant, wire));
        i += 1;
    }
    FieldsEnum { variants }
}

/// Builds the field-name enumeration for a bare record declaration, outside
/// the full schema compilation.
pub fn derive_fields(fields: &Vec<FieldDescriptor>) -> (e: FieldsEnum)
    ensures
        e.variants@.len() == fields@.len(),
        forall|i: int|
            0 <= i < fields@.len() ==> #[trigger] e.variants@[i].0@ == upper_camel_of(
                fields@[i].name@,
            ) && e.variants@[i].1@ == wire_of_field(fields@[i]),
{
    build_fields_enum(fields)
}

/// The direction of one key of an index.
#[derive(Debug, Clone, Copy, PartialEq, Eq, Structural)]
pub enum IndexDirection {
    Pos,
    Neg,
}

/// An index as applied to a collection: its name (`None` asks for an anonymous
/// index), its keys over wire names, and its opaque options.
#[derive(Debug)]
pub struct IndexModel {
    pub name: Option<String>,
    pub keys: Vec<(String, IndexDirection)>,
    pub options: Document,
}

/// A read shape over a record: the collection it reads, the wire names it
/// fetches (`None` fetches the whole record), and whether the identity field
/// is among them. A projection also bounds write-back: only the fields it
/// fetched may be mutated through it.
#[derive(Debug)]
pub struct Projection {
    pub name: String,
    pub collection_name: String,
    pub fields: Option<Vec<String>>,
    pub includes_id: bool,
}

/// The artifacts compiled from a record declaration: the collection name, the
/// declared field names and their wire names in declaration order, the
/// field-name enumeration, the projection shapes, and the index models.
#[derive(Debug)]
pub struct Entity {
    pub collection_name: String,
    pub idents: Vec<String>,
    pub wires: Vec<String>,
    pub fields_enum: FieldsEnum,
    pub projections: Vec<Projection>,
    pub indexes: Vec<IndexModel>,
}

/// The names of a record's fields, in declaration order.
pub open spec fn field_names(s: Seq<FieldDescriptor>) -> Seq<Seq<char>> {
    Seq::new(s.len(), |i: int| s[i].name@)
}

/// The wire names of a record's fields, in declaration order.
pub open spec fn field_wires(s: Seq<FieldDescriptor>) -> Seq<Seq<char>> {
    Seq::new(s.len(), |i: int| wire_of_field(s[i]))
}

/// Whether the record declares a field named `name`.
pub open spec fn has_field(s: Seq<FieldDescriptor>, name: Seq<char>) -> bool {
    exists|i: int| 0 <= i < s.len() && s[i].name@ == name
}

/// The position of the field named `name`; meaningful under `has_field` and,
/// for uniqueness, distinct field names.
pub open spec fn field_index(s: Seq<FieldDescriptor>, name: Seq<char>) -> int {
    choose|i: int| 0 <= i < s.len() && s[i].name@ == name
}

/// The wire name of the field named `name`.
pub open spec fn wire_of_name(s: Seq<FieldDescriptor>, name: Seq<char>) -> Seq<char> {
    wire_of_field(s[field_index(s, name)])
}

/// The reserved name of the identity field in code.
pub open spec fn id_ident() -> Seq<char> {
    ("id")@
}

/// The reserved identity key on the wire.
pub open spec fn id_wire() -> Seq<char> {
    ("_id")@
}

/// The identity rule: the record declares a field named `id`, and that field
/// carries the wire-name override `_id`.
pub open spec fn id_ok(s: Seq<FieldDescriptor>) -> bool {
    &&& has_field(s, id_ident())
    &&& forall|i: int|
        0 <= i < s.len() && #[trigger] s[i].name@ == id_ident() ==> s[i].rename is Some
            && s[i].rename->0@ == id_wire()
}

/// A projection may reference only declared fields.
pub open spec fn projection_ok(fields: Seq<FieldDescriptor>, p: ProjectionDescriptor) -> bool {
    forall|j: int| 0 <= j < p.fields@.len() ==> has_field(fields, #[trigger] p.fields@[j]@)
}

/// An index may reference only declared fields, with direction 1 or -1.
pub open spec fn index_ok(fields: Seq<FieldDescriptor>, ix: IndexDescriptor) -> bool {
    forall|j: int|
        0 <= j < ix.keys@.len() ==> has_field(fields, #[trigger] ix.keys@[j].0@) && (ix.keys@[j].1
            == 1 || ix.keys@[j].1 == -1)
}

/// The structural rules a record declaration must satisfy before any artifact
/// is produced.
pub open spec fn descriptor_valid(d: EntityDescriptor) -> bool {
    &&& wires_wf(field_names(d.fields@))
    &&& wires_wf(field_wires(d.fields@))
    &&& id_ok(d.fields@)
    &&& forall|i: int|
        0 <= i < d.projections@.len() ==> projection_ok(d.fields@, #[trigger] d.projections@[i])
    &&& forall|i: int| 0 <= i < d.indexes@.len() ==> index_ok(d.fields@, #[trigger] d.indexes@[i])
}

/// How one compiled projection relates to its declaration: same name, the
/// parent's collection, the referenced fields' wire names in order, and the
/// derived identity flag.
pub open spec fn projection_matches(
    fields: Seq<FieldDescriptor>,
    record: Seq<char>,
    p: ProjectionDescriptor,
    a: Projection,
) -> bool {
    &&& a.name@ == p.name@
    &&& a.collection_name@ == collection_name_of(record)
    &&& a.fields is Some
    &&& a.fields->0@.len() == p.fields@.len()
    &&& forall|j: int|
        #![trigger a.fields->0@[j]]
        0 <= j < p.fields@.len() ==> a.fields->0@[j]@ == wire_of_name(fields, p.fields@[j]@)
    &&& a.includes_id == exists|j: int| 0 <= j < p.fields@.len() && #[trigger] p.fields@[j]@
        == id_ident()
}

/// How one compiled index relates to its declaration: the name `_` becomes
/// anonymous, each key carries its field's wire name, and the direction
/// literals 1 and -1 become ascending and descending.
pub open spec fn index_matches(
    fields: Seq<FieldDescriptor>,
    ix: IndexDescriptor,
    a: IndexModel,
) -> bool {
    &&& if ix.name@ == ("_")@ {
        a.name is None
    } else {
        a.name is Some && a.name->0@ == ix.name@
    }
    &&& a.keys@.len() == ix.keys@.len()
    &&& forall|j: int|
        #![trigger a.keys@[j]]
        0 <= j < ix.keys@.len() ==> a.keys@[j].0@ == wire_of_name(fields, ix.keys@[j].0@)
            && a.keys@[j].1 == (if ix.keys@[j].1 == 1 {
            IndexDirection::Pos
        } else {
            IndexDirection::Neg
        })
    &&& a.options@ == ix.options@
}

/// How the compiled artifacts relate to the declaration they come from.
pub open spec fn entity_matches(e: Entity, d: EntityDescriptor) -> bool {
    &&& e.collection_name@ == collection_name_of(d.name@)
    &&& e.idents@.len() == d.fields@.len()
    &&& forall|i: int| 0 <= i < d.fields@.len() ==> #[trigger] e.idents@[i]@ == d.fields@[i].name@
    &&& e.wires@.len() == d.fields@.len()
    &&& forall|i: int|
        0 <= i < d.fields@.len() ==> #[trigger] e.wires@[i]@ == wire_of_field(d.fields@[i])
    &&& e.fields_enum.variants@.len() == d.fields@.len()
    &&& forall|i: int|
        0 <= i < d.fields@.len() ==> #[trigger] e.fields_enum.variants@[i].0@ == upper_camel_of(
            d.fields@[i].name@,
        ) && e.fields_enum.variants@[i].1@ == wire_of_field(d.fields@[i])
    &&& e.projections@.len() == d.projections@.len()
    &&& forall|i: int|
        0 <= i < d.projections@.len() ==> projection_matches(
            d.fields@,
            d.name@,
            d.projections@[i],
            #[trigger] e.projections@[i],
        )
    &&& e.indexes@.len() == d.indexes@.len()
    &&& forall|i: int|
        0 <= i < d.indexes@.len() ==> index_matches(
            d.fields@,
            d.indexes@[i],
            #[trigger] e.indexes@[i],
        )
}

/// Distinct names and wires, pairwise, of equal number: what the runtime needs
/// of compiled artifacts.
pub open spec fn entity_wf(e: Entity) -> bool {
    &&& e.idents@.len() == e.wires@.len()
    &&& wires_wf(crate::update::strings_view(e.idents@))
    &&& wires_wf(crate::update::strings_view(e.wires@))
}

/// The first position holding the field named `name`, if any.
fn index_of_field(fields: &Vec<FieldDescriptor>, name: &String) -> (r: Option<usize>)
    ensures
        match r {
            Option::Some(i) => i < fields@.len() && fields@[i as int].name@ == name@,
            Option::None => !has_field(fields@, name@),
        },
{
    let n = fields.len();
    let mut i: usize = 0;
    while i < n
        invariant
            n == fields@.len(),
            i <= n,
            forall|j: int| 0 <= j < i ==> fields@[j].name@ != name@,
        decreases n - i,
    {
        if fields[i].name == *name {
            return Option::Some(i);
        }
        i += 1;
    }
    Option::None
}

/// Emits the artifacts for a record declaration whose projections and indexes
/// reference only declared fields. `derive_entity` validates first and is the
/// entry point; `build` is the construction itself.
#[verifier::rlimit(100)]
pub fn build(
    name: &String,
    fields: &Vec<FieldDescriptor>,
    projections: &Vec<ProjectionDescriptor>,
    indexes: &Vec<IndexDescriptor>,
) -> (e: Entity)
    requires
        wires_wf(field_names(fields@)),
        forall|i: int|
            0 <= i < projections@.len() ==> projection_ok(fields@, #[trigger] projections@[i]),
        forall|i: int| 0 <= i < indexes@.len() ==> index_ok(fields@, #[trigger] indexes@[i]),
    ensures
        entity_matches(
            e,
            EntityDescriptor {
                name: *name,
                fields: *fields,
                projections: *projections,
                indexes: *indexes,
            },
        ),
{
    let collection_name = strip_entity_suffix(&to_snake_case(name));
    let n = fields.len();
    let mut idents: Vec<String> = Vec::new();
    let mut wires: Vec<String> = Vec::new();
    let mut i: usize = 0;
    while i < n
        invariant
            n == fields@.len(),
            i <= n,
            idents@.len() == i,
            wires@.len() == i,
            forall|j: int| 0 <= j < i ==> #[trigger] idents@[j]@ == fields@[j].name@,
            forall|j: int| 0 <= j < i ==> #[trigger] wires@[j]@ == wire_of_field(fields@[j]),
        decreases n - i,
    {
        idents.push(fields[i].name.clone());
        wires.push(wire_of(&fields[i]));
        i += 1;
    }
    let fields_enum = build_fields_enum(fields);

    let mut projection_artifacts: Vec<Projection> = Vec::new();
    let np = projections.len();
    let mut p: usize = 0;
    while p < np
        invariant
            np == projections@.len(),
            p <= np,
            n == fields@.len(),
            wires_wf(field_names(fields@)),
            forall|i2: int|
                0 <= i2 < projections@.len() ==> projection_ok(fields@, #[trigger] projections@[i2]),
            collection_name@ == collection_name_of(name@),
            projection_artifacts@.len() == p,
            forall|j: int|
                0 <= j < p ==> projection_matches(
                    fields@,
                    name@,
                    projections@[j],
                    #[trigger] projection_artifacts@[j],
                ),
        decreases np - p,
    {
        let pd = &projections[p];
        let mut pw: Vec<String> = Vec::new();
        let mut includes_id = false;
        let nf = pd.fields.len();
        let mut j: usize = 0;
        proof {
            reveal_strlit("id");
        }
        while j < nf
            invariant
                nf == pd.fields@.len(),
                j <= nf,
                n == fields@.len(),
                wires_wf(field_names(fields@)),
                projection_ok(fields@, *pd),
                pw@.len() == j,
                forall|q: int|
                    #![trigger pw@[q]]
                    0 <= q < j ==> pw@[q]@ == wire_of_name(fields@, pd.fields@[q]@),
                includes_id == exists|q: int|
                    0 <= q < j && #[trigger] pd.fields@[q]@ == id_ident(),
            decreases nf - j,
        {
            let fname = &pd.fields[j];
            let idx = match index_of_field(fields, fname) {
                Option::Some(idx) => idx,
                Option::None => {
                    proof {
                        assert(has_field(fields@, fname@));
                        assert(false);
                    }
                    0
                },
            };
            proof {
                let fi = field_index(fields@, fname@);
                assert(fields@[fi].name@ == fname@);
                if fi != idx as int {
                    assert(field_names(fields@)[fi] == fname@);
                    assert(field_names(fields@)[idx as int] == fname@);
                }
            }
            pw.push(wire_of(&fields[idx]));
            let id_name = "id".to_owned();
            if *fname == id_name {
                includes_id = true;
                proof {
                    assert(pd.fields@[j as int]@ == id_ident());
                }
            }
            j += 1;
        }
        projection_artifacts.push(
            Projection {
                name: pd.name.clone(),
                collection_name: collection_name.clone(),
                fields: Option::Some(pw),
                includes_id,
            },
        );
        p += 1;
    }

    let mut index_artifacts: Vec<IndexModel> = Vec::new();
    let ni = indexes.len();
    let mut x: usize = 0;
    while x < ni
        invariant
            ni == indexes@.len(),
            x <= ni,
            n == fields@.len(),
            wires_wf(field_names(fields@)),
            forall|i2: int| 0 <= i2 < indexes@.len() ==> index_ok(fields@, #[trigger] indexes@[i2]),
            index_artifacts@.len() == x,
            forall|j: int|
                0 <= j < x ==> index_matches(fields@, indexes@[j], #[trigger] index_artifacts@[j]),
        decreases ni - x,
    {
        let ix = &indexes[x];
        let anon = "_".to_owned();
        let iname = if ix.name == anon {
            Option::None
        } else {
            Option::Some(ix.name.clone())
        };
        let mut keys: Vec<(String, IndexDirection)> = Vec::new();
        let nk = ix.keys.len();
        let mut j: usize = 0;
        while j < nk
            invariant
                nk == ix.keys@.len(),
                j <= nk,
                n == fields@.len(),
                wires_wf(field_names(fields@)),
                index_ok(fields@, *ix),
                keys@.len() == j,
                forall|q: int|
                    #![trigger keys@[q]]
                    0 <= q < j ==> keys@[q].0@ == wire_of_name(fields@, ix.keys@[q].0@)
                        && keys@[q].1 == (if ix.keys@[q].1 == 1 {
                        IndexDirection::Pos
                    } else {
                        IndexDirection::Neg
                    }),
            decreases nk - j,
        {
            let kname = &ix.keys[j].0;
            proof {
                assert(has_field(fields@, kname@));
            }
            let idx = match index_of_field(fields, kname) {
                Option::Some(idx) => idx,
                Option::None => {
                    proof {
                        assert(false);
                    }
                    0
                },
            };
            proof {
                let fi = field_index(fields@, kname@);
                assert(0 <= fi < fields@.len() && fields@[fi].name@ == kname@);
                if fi != idx as int {
                    assert(field_names(fields@)[fi] == kname@);
                    assert(field_names(fields@)[idx as int] == kname@);
                    assert(false);
                }
                assert(wire_of_field(fields@[idx as int]) == wire_of_name(fields@, kname@));
            }
            let dir = if ix.keys[j].1 == 1 {
                IndexDirection::Pos
            } else {
                IndexDirection::Neg
            };
            keys.push((wire_of(&fields[idx]), dir));
            proof {
                assert(keys@[j as int].0@ == wire_of_name(fields@, ix.keys@[j as int].0@));
                assert(keys@[j as int].1 == (if ix.keys@[j as int].1 == 1 {
                    IndexDirection::Pos
                } else {
                    IndexDirection::Neg
                }));
            }
            j += 1;
        }
        let model = IndexModel { name: iname, keys, options: doc_clone(&ix.options) };
        proof {
            assert(index_matches(fields@, indexes@[x as int], model));
        }
        index_artifacts.push(model);
        x += 1;
    }

    Entity {
        collection_name,
        idents,
        wires,
        fields_enum,
        projections: projection_artifacts,
        indexes: index_artifacts,
    }
}

/// The first position holding the string `name`, if any.
pub fn index_of_string(xs: &Vec<String>, name: &String) -> (r: Option<usize>)
    ensures
        match r {
            Option::Some(i) => i < xs@.len() && xs@[i as int]@ == name@,
            Option::None => forall|j: int| 0 <= j < xs@.len() ==> #[trigger] xs@[j]@ != name@,
        },
{
    let n = xs.len();
    let mut i: usize = 0;
    while i < n
        invariant
            n == xs@.len(),
            i <= n,
            forall|j: int| 0 <= j < i ==> #[trigger] xs@[j]@ != name@,
        decreases n - i,
    {
        if xs[i] == *name {
            return Option::Some(i);
        }
        i += 1;
    }
    Option::None
}

/// Validates a record declaration and, when it is valid, emits its artifacts.
/// The checks run in a fixed order — duplicate field names, the identity rule,
/// duplicate wire names, projection references, index references and
/// directions — and the first violation is reported.
#[verifier::rlimit(100)]
pub fn derive_entity(d: &EntityDescriptor) -> (r: Result<Entity, SchemaError>)
    ensures
        r is Ok <==> descriptor_valid(*d),
        r is Ok ==> entity_matches(r->Ok_0, *d) && entity_wf(r->Ok_0),
        match r {
            Result::Ok(_) => true,
            Result::Err(e) => match e {
                SchemaError::DuplicateField(_) => !wires_wf(field_names(d.fields@)),
                SchemaError::MissingIdField => !has_field(d.fields@, id_ident()),
                SchemaError::IdFieldMissingRename => !id_ok(d.fields@),
                SchemaError::DuplicateWireName(_) => !wires_wf(field_wires(d.fields@)),
                SchemaError::UnknownFieldInProjection(_, _) => exists|i: int|
                    0 <= i < d.projections@.len() && !projection_ok(
                        d.fields@,
                        #[trigger] d.projections@[i],
                    ),
                SchemaError::UnknownFieldInIndex(_, _) => exists|i: int|
                    0 <= i < d.indexes@.len() && !index_ok(d.fields@, #[trigger] d.indexes@[i]),
                SchemaError::InvalidIndexDirection(_, _) => exists|i: int|
                    0 <= i < d.indexes@.len() && !index_ok(d.fields@, #[trigger] d.indexes@[i]),
                _ => false,
            },
        },
{
    let nf = d.fields.len();

    // duplicate field names
    let mut i: usize = 0;
    while i < nf
        invariant
            nf == d.fields@.len(),
            i <= nf,
            forall|p: int, q: int|
                #![trigger d.fields@[p].name@, d.fields@[q].name@]
                0 <= p < q < nf && p < i ==> d.fields@[p].name@ != d.fields@[q].name@,
        decreases nf - i,
    {
        let mut j: usize = i + 1;
        while j < nf
            invariant
                nf == d.fields@.len(),
                i < j || i + 1 == j,
                i < nf,
                j <= nf,
                forall|q: int| i < q < j ==> d.fields@[i as int].name@ != #[trigger] d.fields@[q].name@,
            decreases nf - j,
        {
            if d.fields[i].name == d.fields[j].name {
                proof {
                    assert(field_names(d.fields@)[i as int] == field_names(d.fields@)[j as int]);
                }
                return Result::Err(SchemaError::DuplicateField(d.fields[i].name.clone()));
            }
            j += 1;
        }
        i += 1;
    }
    proof {
        assert forall|p: int, q: int|
            #![trigger field_names(d.fields@)[p], field_names(d.fields@)[q]]
            0 <= p < q < d.fields@.len() implies field_names(d.fields@)[p] != field_names(
            d.fields@,
        )[q] by {
            assert(d.fields@[p].name@ != d.fields@[q].name@);
        }
    }

    // the identity rule
    proof {
        reveal_strlit("id");
        reveal_strlit("_id");
    }
    let id_name = "id".to_owned();
    let id_idx = match index_of_field(&d.fields, &id_name) {
        Option::Some(i) => i,
        Option::None => {
            return Result::Err(SchemaError::MissingIdField);
        },
    };
    let id_rename_ok = match &d.fields[id_idx].rename {
        Option::Some(rn) => *rn == "_id".to_owned(),
        Option::None => false,
    };
    if !id_rename_ok {
        proof {
            assert(d.fields@[id_idx as int].name@ == id_ident());
        }
        return Result::Err(SchemaError::IdFieldMissingRename);
    }
    proof {
        assert forall|p: int|
            0 <= p < d.fields@.len() && #[trigger] d.fields@[p].name@ == id_ident() implies d.fields@[p].rename is Some
            && d.fields@[p].rename->0@ == id_wire() by {
            if p != id_idx as int {
                assert(field_names(d.fields@)[p] == id_ident());
                assert(field_names(d.fields@)[id_idx as int] == id_ident());
            }
        }
        assert(id_ok(d.fields@));
    }

    // duplicate wire names
    let mut i: usize = 0;
    while i < nf
        invariant
            nf == d.fields@.len(),
            i <= nf,
            forall|p: int, q: int|
                #![trigger wire_of_field(d.fields@[p]), wire_of_field(d.fields@[q])]
                0 <= p < q < nf && p < i ==> wire_of_field(d.fields@[p]) != wire_of_field(
                    d.fields@[q],
                ),
        decreases nf - i,
    {
        let wi = wire_of(&d.fields[i]);
        let mut j: usize = i + 1;
        while j < nf
            invariant
                nf == d.fields@.len(),
                i < j || i + 1 == j,
                i < nf,
                j <= nf,
                wi@ == wire_of_field(d.fields@[i as int]),
                forall|q: int|
                    i < q < j ==> wire_of_field(d.fields@[i as int]) != wire_of_field(
                        #[trigger] d.fields@[q],
                    ),
            decreases nf - j,
        {
            let wj = wire_of(&d.fields[j]);
            if wi == wj {
                proof {
                    assert(field_wires(d.fields@)[i as int] == field_wires(d.fields@)[j as int]);
                }
                return Result::Err(SchemaError::DuplicateWireName(wi));
            }
            j += 1;
        }
        i += 1;
    }
    proof {
        assert forall|p: int, q: int|
            #![trigger field_wires(d.fields@)[p], field_wires(d.fields@)[q]]
            0 <= p < q < d.fields@.len() implies field_wires(d.fields@)[p] != field_wires(
            d.fields@,
        )[q] by {
            assert(wire_of_field(d.fields@[p]) != wire_of_field(d.fields@[q]));
        }
    }

    // projection references
    let np = d.projections.len();
    let mut p: usize = 0;
    while p < np
        invariant
            np == d.projections@.len(),
            p <= np,
            forall|q: int| 0 <= q < p ==> projection_ok(d.fields@, #[trigger] d.projections@[q]),
        decreases np - p,
    {
        let pd = &d.projections[p];
        let nn = pd.fields.len();
        let mut j: usize = 0;
        while j < nn
            invariant
                np == d.projections@.len(),
                p < np,
                *pd == d.projections@[p as int],
                nn == pd.fields@.len(),
                j <= nn,
                forall|q: int| 0 <= q < j ==> has_field(d.fields@, #[trigger] pd.fields@[q]@),
            decreases nn - j,
        {
            match index_of_field(&d.fields, &pd.fields[j]) {
                Option::Some(k) => {
                    proof {
                        assert(d.fields@[k as int].name@ == pd.fields@[j as int]@);
                        assert(has_field(d.fields@, pd.fields@[j as int]@));
                    }
                },
                Option::None => {
                    proof {
                        assert(*pd == d.projections@[p as int]);
                        assert(!has_field(d.fields@, d.projections@[p as int].fields@[j as int]@));
                        assert(!projection_ok(d.fields@, d.projections@[p as int]));
                    }
                    return Result::Err(
                        SchemaError::UnknownFieldInProjection(pd.name.clone(), pd.fields[j].clone()),
                    );
                },
            }
            proof {
                assert(has_field(d.fields@, pd.fields@[j as int]@));
            }
            j += 1;
        }
        proof {
            assert forall|q: int| 0 <= q < d.projections@[p as int].fields@.len() implies has_field(
                d.fields@,
                #[trigger] d.projections@[p as int].fields@[q]@,
            ) by {
                assert(d.projections@[p as int].fields@[q] == pd.fields@[q]);
                assert(has_field(d.fields@, pd.fields@[q]@));
            }
            assert(projection_ok(d.fields@, d.projections@[p as int]));
        }
        p += 1;
    }

    // index references and directions
    let ni = d.indexes.len();
    let mut x: usize = 0;
    while x < ni
        invariant
            ni == d.indexes@.len(),
            x <= ni,
            forall|q: int| 0 <= q < x ==> index_ok(d.fields@, #[trigger] d.indexes@[q]),
        decreases ni - x,
    {
        let ix = &d.indexes[x];
        let nk = ix.keys.len();
        let mut j: usize = 0;
        while j < nk
            invariant
                ni == d.indexes@.len(),
                x < ni,
                *ix == d.indexes@[x as int],
                nk == ix.keys@.len(),
                j <= nk,
                forall|q: int| 0 <= q < j ==> has_field(d.fields@, #[trigger] ix.keys@[q].0@),
                forall|q: int|
                    0 <= q < j ==> (#[trigger] ix.keys@[q].1 == 1 || ix.keys@[q].1 == -1),
            decreases nk - j,
        {
            match index_of_field(&d.fields, &ix.keys[j].0) {
                Option::Some(k) => {
                    proof {
                        assert(d.fields@[k as int].name@ == ix.keys@[j as int].0@);
                        assert(has_field(d.fields@, ix.keys@[j as int].0@));
                    }
                },
                Option::None => {
                    proof {
                        assert(*ix == d.indexes@[x as int]);
                        assert(!has_field(d.fields@, d.indexes@[x as int].keys@[j as int].0@));
                        assert(!index_ok(d.fields@, d.indexes@[x as int]));
                    }
                    return Result::Err(
                        SchemaError::UnknownFieldInIndex(ix.name.clone(), ix.keys[j].0.clone()),
                    );
                },
            }
            let dir = ix.keys[j].1;
            if dir != 1 && dir != -1 {
                proof {
                    assert(*ix == d.indexes@[x as int]);
                    assert(d.indexes@[x as int].keys@[j as int].1 == dir);
                    assert(!index_ok(d.fields@, d.indexes@[x as int]));
                }
                return Result::Err(SchemaError::InvalidIndexDirection(ix.name.clone(), dir));
            }
            proof {
                assert(has_field(d.fields@, ix.keys@[j as int].0@));
                assert(ix.keys@[j as int].1 == 1 || ix.keys@[j as int].1 == -1);
            }
            j += 1;
        }
        proof {
            assert forall|q: int| 0 <= q < d.indexes@[x as int].keys@.len() implies has_field(
                d.fields@,
                #[trigger] d.indexes@[x as int].keys@[q].0@,
            ) && (d.indexes@[x as int].keys@[q].1 == 1 || d.indexes@[x as int].keys@[q].1
                == -1) by {
                assert(d.indexes@[x as int].keys@[q] == ix.keys@[q]);
                assert(has_field(d.fields@, ix.keys@[q].0@));
            }
            assert(index_ok(d.fields@, d.indexes@[x as int]));
        }
        x += 1;
    }

    let e = build(&d.name, &d.fields, &d.projections, &d.indexes);
    proof {
        assert(EntityDescriptor {
            name: d.name,
            fields: d.fields,
            projections: d.projections,
            indexes: d.indexes,
        } == *d);
        assert(crate::update::strings_view(e.idents@) =~= field_names(d.fields@));
        assert(crate::update::strings_view(e.wires@) =~= field_wires(d.fields@));
    }
    Result::Ok(e)
}

/// One field's part in the shorthand construction of a filter: either a bare
/// value, which means equality, or an explicit comparison operator.
#[derive(Debug)]
pub enum FilterArg {
    Value(Bson),
    Operator(FilterOperator),
}

/// The comparison a shorthand argument stands for: a bare value means
/// equality.
pub open spec fn filter_arg_op(a: FilterArg) -> FilterOperator {
    match a {
        FilterArg::Value(v) => FilterOperator::Eq(v),
        FilterArg::Operator(op) => op,
    }
}

/// The field names of a shorthand argument list, in order.
pub open spec fn filter_arg_names(s: Seq<(String, FilterArg)>) -> Seq<Seq<char>> {
    Seq::new(s.len(), |j: int| s[j].0@)
}

/// Whether the argument list mentions the field named `name`.
pub open spec fn filter_args_named(s: Seq<(String, FilterArg)>, name: Seq<char>) -> bool {
    exists|j: int| 0 <= j < s.len() && s[j].0@ == name
}

/// The position of the argument for the field named `name`; meaningful under
/// `filter_args_named` and, for uniqueness, distinct names.
pub open spec fn filter_args_index(s: Seq<(String, FilterArg)>, name: Seq<char>) -> int {
    choose|j: int| 0 <= j < s.len() && s[j].0@ == name
}

/// With distinct names, a mentioned position determines `filter_args_index`.
proof fn lemma_filter_args_index_unique(s: Seq<(String, FilterArg)>, j: int)
    requires
        wires_wf(filter_arg_names(s)),
        0 <= j < s.len(),
    ensures
        filter_args_named(s, s[j].0@),
        filter_args_index(s, s[j].0@) == j,
{
    let k = s[j].0@;
    assert(filter_args_named(s, k));
    let j2 = filter_args_index(s, k);
    assert(0 <= j2 < s.len() && s[j2].0@ == k);
    if j2 != j {
        assert(filter_arg_names(s)[j] == k);
        assert(filter_arg_names(s)[j2] == k);
        if j < j2 {
            assert(filter_arg_names(s)[j] != filter_arg_names(s)[j2]);
        } else {
            assert(filter_arg_names(s)[j2] != filter_arg_names(s)[j]);
        }
        assert(false);
    }
}

/// Whether the compiled record declares a field named `name`.
pub open spec fn ident_known(e: Entity, name: Seq<char>) -> bool {
    exists|i: int| 0 <= i < e.idents@.len() && e.idents@[i]@ == name
}

/// Builds a typed filter from shorthand (field, argument) pairs: each
/// mentioned field gets its comparison — a bare value means equality — and
/// every unmentioned field stays out. A field mentioned twice or a field the
/// record does not declare is rejected.
#[verifier::rlimit(100)]
#[verifier::loop_isolation(false)]
pub fn func_construct_filter(e: &Entity, pairs: Vec<(String, FilterArg)>) -> (r: Result<
    TypedFilter,
    SchemaError,
>)
    requires
        entity_wf(*e),
    ensures
        r is Ok <==> (wires_wf(filter_arg_names(pairs@)) && forall|j: int|
            0 <= j < pairs@.len() ==> ident_known(*e, #[trigger] pairs@[j].0@)),
        r is Ok ==> r->Ok_0.entries@.len() == e.wires@.len(),
        r is Ok ==> forall|i: int|
            0 <= i < e.wires@.len() ==> #[trigger] r->Ok_0.entries@[i].0@ == e.wires@[i]@,
        r is Ok ==> forall|i: int|
            #![trigger r->Ok_0.entries@[i]]
            0 <= i < e.idents@.len() ==> r->Ok_0.entries@[i].1 == (if filter_args_named(
                pairs@,
                e.idents@[i]@,
            ) {
                Field::Given(filter_arg_op(pairs@[filter_args_index(pairs@, e.idents@[i]@)].1))
            } else {
                Field::<FilterOperator>::Omit
            }),
{
    let np = pairs.len();
    let mut a: usize = 0;
    while a < np
        invariant
            np == pairs@.len(),
            a <= np,
            forall|p: int, q: int|
                #![trigger pairs@[p].0@, pairs@[q].0@]
                0 <= p < q < np && p < a ==> pairs@[p].0@ != pairs@[q].0@,
        decreases np - a,
    {
        let mut b: usize = a + 1;
        while b < np
            invariant
                np == pairs@.len(),
                a < np,
                a < b || a + 1 == b,
                b <= np,
                forall|q: int| a < q < b ==> pairs@[a as int].0@ != #[trigger] pairs@[q].0@,
            decreases np - b,
        {
            if pairs[a].0 == pairs[b].0 {
                proof {
                    assert(filter_arg_names(pairs@)[a as int] == filter_arg_names(pairs@)[b as int]);
                }
                return Result::Err(SchemaError::DuplicateField(pairs[a].0.clone()));
            }
            b += 1;
        }
        a += 1;
    }
    proof {
        assert forall|p: int, q: int|
            #![trigger filter_arg_names(pairs@)[p], filter_arg_names(pairs@)[q]]
            0 <= p < q < pairs@.len() implies filter_arg_names(pairs@)[p] != filter_arg_names(
            pairs@,
        )[q] by {
            assert(pairs@[p].0@ != pairs@[q].0@);
        }
        assert(wires_wf(filter_arg_names(pairs@)));
    }

    let mut f = TypedFilter::new(&e.wires);
    let ghost orig = pairs@;
    proof {
        assert(orig.take(0) =~= Seq::<(String, FilterArg)>::empty());
        assert forall|i: int| 0 <= i < e.wires@.len() implies #[trigger] f.entries@[i].1 is Omit
            && f.entries@[i].0@ == e.wires@[i]@ by {
            assert(f.entries@[i].0 == e.wires@[i]);
        }
    }
    let mut remaining = pairs;
    let mut k: usize = 0;
    while remaining.len() > 0
        invariant
            entity_wf(*e),
            wires_wf(filter_arg_names(orig)),
            k + remaining@.len() == orig.len(),
            remaining@ == orig.skip(k as int),
            forall|j: int| 0 <= j < k ==> ident_known(*e, #[trigger] orig[j].0@),
            f.entries@.len() == e.wires@.len(),
            e.idents@.len() == e.wires@.len(),
            forall|i: int|
                0 <= i < e.wires@.len() ==> #[trigger] f.entries@[i].0@ == e.wires@[i]@,
            forall|i: int|
                #![trigger f.entries@[i]]
                0 <= i < e.idents@.len() ==> f.entries@[i].1 == (if filter_args_named(
                    orig.take(k as int),
                    e.idents@[i]@,
                ) {
                    Field::Given(
                        filter_arg_op(
                            orig.take(k as int)[filter_args_index(
                                orig.take(k as int),
                                e.idents@[i]@,
                            )].1,
                        ),
                    )
                } else {
                    Field::<FilterOperator>::Omit
                }),
        decreases remaining@.len(),
    {
        let ghost done = orig.take(k as int);
        let ghost done2 = orig.take(k + 1 as int);
        let (name, arg) = remaining.remove(0);
        proof {
            assert(remaining@ =~= orig.skip(k + 1 as int));
            assert(done2 =~= done.push(orig[k as int]));
            assert(name@ == orig[k as int].0@);
            // the names of a prefix are a prefix of the names
            assert forall|p: int, q: int|
                #![trigger filter_arg_names(done2)[p], filter_arg_names(done2)[q]]
                0 <= p < q < done2.len() implies filter_arg_names(done2)[p] != filter_arg_names(
                done2,
            )[q] by {
                assert(filter_arg_names(orig)[p] == orig[p].0@);
                assert(filter_arg_names(orig)[q] == orig[q].0@);
                assert(filter_arg_names(done2)[p] == done2[p].0@);
                assert(filter_arg_names(done2)[q] == done2[q].0@);
            }
            assert(wires_wf(filter_arg_names(done2)));
        }
        let idx = match index_of_string(&e.idents, &name) {
            Option::Some(idx) => idx,
            Option::None => {
                proof {
                    assert(!ident_known(*e, orig[k as int].0@));
                }
                return Result::Err(SchemaError::UnknownField(name));
            },
        };
        let op = match arg {
            FilterArg::Value(v) => FilterOperator::Eq(v),
            FilterArg::Operator(op) => op,
        };
        let wire = e.wires[idx].clone();
        let ghost old_entries = f.entries@;
        f.entries.set(idx, (wire, Field::Given(op)));
        proof {
            lemma_filter_args_index_unique(done2, k as int);
            assert(ident_known(*e, orig[k as int].0@));
            assert forall|i: int|
                #![trigger f.entries@[i]]
                0 <= i < e.idents@.len() implies f.entries@[i].1 == (if filter_args_named(
                done2,
                e.idents@[i]@,
            ) {
                Field::Given(filter_arg_op(done2[filter_args_index(done2, e.idents@[i]@)].1))
            } else {
                Field::<FilterOperator>::Omit
            }) by {
                if i == idx as int {
                    // the unique argument for this field is the one just taken
                    if e.idents@[i]@ != name@ {
                        assert(crate::update::strings_view(e.idents@)[i] == e.idents@[i]@);
                        assert(crate::update::strings_view(e.idents@)[idx as int] == name@);
                        assert(false);
                    }
                    assert(filter_args_index(done2, e.idents@[i]@) == k as int);
                    assert(done2[k as int].1 == arg);
                } else {
                    // a different field: the new argument is not for it
                    if e.idents@[i]@ == name@ {
                        assert(crate::update::strings_view(e.idents@)[i] == e.idents@[i]@);
                        assert(crate::update::strings_view(e.idents@)[idx as int] == name@);
                        assert(false);
                    }
                    assert forall|j: int| 0 <= j < done2.len() && #[trigger] done2[j].0@
                        == e.idents@[i]@ implies j < done.len() && done[j] == done2[j] by {}
                    if filter_args_named(done, e.idents@[i]@) {
                        let j = filter_args_index(done, e.idents@[i]@);
                        assert(0 <= j < done.len() && done[j].0@ == e.idents@[i]@);
                        assert(done2[j].0@ == e.idents@[i]@);
                        lemma_filter_args_index_unique(done2, j);
                        assert(filter_args_named(done2, e.idents@[i]@));
                        assert(filter_args_index(done2, e.idents@[i]@) == j);
                    } else if filter_args_named(done2, e.idents@[i]@) {
                        let j = filter_args_index(done2, e.idents@[i]@);
                        assert(0 <= j < done2.len() && done2[j].0@ == e.idents@[i]@);
                        assert(j != k as int);
                        assert(done[j].0@ == e.idents@[i]@);
                        assert(false);
                    }
                }
            }
        }
        k += 1;
    }
    proof {
        assert(orig.take(k as int) =~= orig);
    }
    Result::Ok(f)
}

/// The field names of a shorthand update argument list, in order.
pub open spec fn update_arg_names(s: Seq<(String, Bson)>) -> Seq<Seq<char>> {
    Seq::new(s.len(), |j: int| s[j].0@)
}

/// Whether the update argument list mentions the field named `name`.
pub open spec fn update_args_named(s: Seq<(String, Bson)>, name: Seq<char>) -> bool {
    exists|j: int| 0 <= j < s.len() && s[j].0@ == name
}

/// The position of the update argument for the field named `name`; meaningful
/// under `update_args_named` and, for uniqueness, distinct names.
pub open spec fn update_args_index(s: Seq<(String, Bson)>, name: Seq<char>) -> int {
    choose|j: int| 0 <= j < s.len() && s[j].0@ == name
}

/// With distinct names, a mentioned position determines `update_args_index`.
proof fn lemma_update_args_index_unique(s: Seq<(String, Bson)>, j: int)
    requires
        wires_wf(update_arg_names(s)),
        0 <= j < s.len(),
    ensures
        update_args_named(s, s[j].0@),
        update_args_index(s, s[j].0@) == j,
{
    let k = s[j].0@;
    assert(update_args_named(s, k));
    let j2 = update_args_index(s, k);
    assert(0 <= j2 < s.len() && s[j2].0@ == k);
    if j2 != j {
        assert(update_arg_names(s)[j] == k);
        assert(update_arg_names(s)[j2] == k);
        if j < j2 {
            assert(update_arg_names(s)[j] != update_arg_names(s)[j2]);
        } else {
            assert(update_arg_names(s)[j2] != update_arg_names(s)[j]);
        }
        assert(false);
    }
}

/// Builds a typed update from shorthand (field, value) pairs: each mentioned
/// field gets its new value and every unmentioned field stays out. A field
/// mentioned twice or a field the record does not declare is rejected.
#[verifier::rlimit(100)]
#[verifier::loop_isolation(false)]
pub fn func_construct_update(e: &Entity, pairs: Vec<(String, Bson)>) -> (r: Result<
    TypedUpdate,
    SchemaError,
>)
    requires
        entity_wf(*e),
    ensures
        r is Ok <==> (wires_wf(update_arg_names(pairs@)) && forall|j: int|
            0 <= j < pairs@.len() ==> ident_known(*e, #[trigger] pairs@[j].0@)),
        r is Ok ==> r->Ok_0.entries@.len() == e.wires@.len(),
        r is Ok ==> forall|i: int|
            0 <= i < e.wires@.len() ==> #[trigger] r->Ok_0.entries@[i].0@ == e.wires@[i]@,
        r is Ok ==> forall|i: int|
            #![trigger r->Ok_0.entries@[i]]
            0 <= i < e.idents@.len() ==> r->Ok_0.entries@[i].1 == (if update_args_named(
                pairs@,
                e.idents@[i]@,
            ) {
                Field::Given(pairs@[update_args_index(pairs@, e.idents@[i]@)].1)
            } else {
                Field::<Bson>::Omit
            }),
{
    let np = pairs.len();
    let mut a: usize = 0;
    while a < np
        invariant
            np == pairs@.len(),
            a <= np,
            forall|p: int, q: int|
                #![trigger pairs@[p].0@, pairs@[q].0@]
                0 <= p < q < np && p < a ==> pairs@[p].0@ != pairs@[q].0@,
        decreases np - a,
    {
        let mut b: usize = a + 1;
        while b < np
            invariant
                np == pairs@.len(),
                a < np,
                a < b || a + 1 == b,
                b <= np,
                forall|q: int| a < q < b ==> pairs@[a as int].0@ != #[trigger] pairs@[q].0@,
            decreases np - b,
        {
            if pairs[a].0 == pairs[b].0 {
                proof {
                    assert(update_arg_names(pairs@)[a as int] == update_arg_names(pairs@)[b as int]);
                }
                return Result::Err(SchemaError::DuplicateField(pairs[a].0.clone()));
            }
            b += 1;
        }
        a += 1;
    }
    proof {
        assert forall|p: int, q: int|
            #![trigger update_arg_names(pairs@)[p], update_arg_names(pairs@)[q]]
            0 <= p < q < pairs@.len() implies update_arg_names(pairs@)[p] != update_arg_names(
            pairs@,
        )[q] by {
            assert(pairs@[p].0@ != pairs@[q].0@);
        }
        assert(wires_wf(update_arg_names(pairs@)));
    }

    let mut u = TypedUpdate::new(&e.wires);
    let ghost orig = pairs@;
    proof {
        assert(orig.take(0) =~= Seq::<(String, Bson)>::empty());
        assert forall|i: int| 0 <= i < e.wires@.len() implies #[trigger] u.entries@[i].1 is Omit
            && u.entries@[i].0@ == e.wires@[i]@ by {
            assert(u.entries@[i].0 == e.wires@[i]);
        }
    }
    let mut remaining = pairs;
    let mut k: usize = 0;
    while remaining.len() > 0
        invariant
            entity_wf(*e),
            wires_wf(update_arg_names(orig)),
            k + remaining@.len() == orig.len(),
            remaining@ == orig.skip(k as int),
            forall|j: int| 0 <= j < k ==> ident_known(*e, #[trigger] orig[j].0@),
            u.entries@.len() == e.wires@.len(),
            e.idents@.len() == e.wires@.len(),
            forall|i: int|
                0 <= i < e.wires@.len() ==> #[trigger] u.entries@[i].0@ == e.wires@[i]@,
            forall|i: int|
                #![trigger u.entries@[i]]
                0 <= i < e.idents@.len() ==> u.entries@[i].1 == (if update_args_named(
                    orig.take(k as int),
                    e.idents@[i]@,
                ) {
                    Field::Given(
                        orig.take(k as int)[update_args_index(
                            orig.take(k as int),
                            e.idents@[i]@,
                        )].1,
                    )
                } else {
                    Field::<Bson>::Omit
                }),
        decreases remaining@.len(),
    {
        let ghost done = orig.take(k as int);
        let ghost done2 = orig.take(k + 1 as int);
        let (name, value) = remaining.remove(0);
        proof {
            assert(remaining@ =~= orig.skip(k + 1 as int));
            assert(done2 =~= done.push(orig[k as int]));
            assert(name@ == orig[k as int].0@);
            assert forall|p: int, q: int|
                #![trigger update_arg_names(done2)[p], update_arg_names(done2)[q]]
                0 <= p < q < done2.len() implies update_arg_names(done2)[p] != update_arg_names(
                done2,
            )[q] by {
                assert(update_arg_names(orig)[p] == orig[p].0@);
                assert(update_arg_names(orig)[q] == orig[q].0@);
                assert(update_arg_names(done2)[p] == done2[p].0@);
                assert(update_arg_names(done2)[q] == done2[q].0@);
            }
            assert(wires_wf(update_arg_names(done2)));
        }
        let idx = match index_of_string(&e.idents, &name) {
            Option::Some(idx) => idx,
            Option::None => {
                proof {
                    assert(!ident_known(*e, orig[k as int].0@));
                }
                return Result::Err(SchemaError::UnknownField(name));
            },
        };
        let wire = e.wires[idx].clone();
        u.entries.set(idx, (wire, Field::Given(value)));
        proof {
            lemma_update_args_index_unique(done2, k as int);
            assert(ident_known(*e, orig[k as int].0@));
            assert forall|i: int|
                #![trigger u.entries@[i]]
                0 <= i < e.idents@.len() implies u.entries@[i].1 == (if update_args_named(
                done2,
                e.idents@[i]@,
            ) {
                Field::Given(done2[update_args_index(done2, e.idents@[i]@)].1)
            } else {
                Field::<Bson>::Omit
            }) by {
                if i == idx as int {
                    if e.idents@[i]@ != name@ {
                        assert(crate::update::strings_view(e.idents@)[i] == e.idents@[i]@);
                        assert(crate::update::strings_view(e.idents@)[idx as int] == name@);
                        assert(false);
                    }
                    assert(update_args_index(done2, e.idents@[i]@) == k as int);
                    assert(done2[k as int].1 == value);
                } else {
                    if e.idents@[i]@ == name@ {
                        assert(crate::update::strings_view(e.idents@)[i] == e.idents@[i]@);
                        assert(crate::update::strings_view(e.idents@)[idx as int] == name@);
                        assert(false);
                    }
                    assert forall|j: int| 0 <= j < done2.len() && #[trigger] done2[j].0@
                        == e.idents@[i]@ implies j < done.len() && done[j] == done2[j] by {}
                    if update_args_named(done, e.idents@[i]@) {
                        let j = update_args_index(done, e.idents@[i]@);
                        assert(0 <= j < done.len() && done[j].0@ == e.idents@[i]@);
                        assert(done2[j].0@ == e.idents@[i]@);
                        lemma_update_args_index_unique(done2, j);
                        assert(update_args_named(done2, e.idents@[i]@));
                        assert(update_args_index(done2, e.idents@[i]@) == j);
                    } else if update_args_named(done2, e.idents@[i]@) {
                        let j = update_args_index(done2, e.idents@[i]@);
                        assert(0 <= j < done2.len() && done2[j].0@ == e.idents@[i]@);
                        assert(j != k as int);
                        assert(done[j].0@ == e.idents@[i]@);
                        assert(false);
                    }
                }
            }
        }
        k += 1;
    }
    proof {
        assert(orig.take(k as int) =~= orig);
    }
    Result::Ok(u)
}

} // verus!
