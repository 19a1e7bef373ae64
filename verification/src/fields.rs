//! Entity definitions and the field-descriptor extractor.
//!
//! An entity definition is the authored, single source of truth for a
//! business object: a name and an ordered list of field specifications.
//! `extract` derives from it the ordered list of field descriptors that
//! every downstream component (validator compiler, migration generator,
//! type exporter) consumes.

use vstd::prelude::*;

verus! {

use vstd::string::StringExecFns;

/// The closed set of storage-level semantic types a field can carry.
#[derive(Clone, Copy, PartialEq, Eq, Structural, Debug)]
pub enum SemanticType {
    Integer,
    BigInteger,
    Text,
    Boolean,
    Timestamp,
}

/// One constraint annotation on a field. Lengths count characters,
/// value bounds are inclusive.
#[derive(Clone, Copy, PartialEq, Eq, Structural, Debug)]
pub enum ConstraintKind {
    NonNull,
    MinLength(usize),
    MaxLength(usize),
    EmailFormat,
    MinValue(i64),
    MaxValue(i64),
}

/// An authored field: its declared type is still a free-form name and
/// may fail to map to a supported semantic type.
pub struct FieldSpec {
    pub name: String,
    pub declared_type: String,
    pub nullable: bool,
    pub default_value: Option<String>,
    pub constraints: Vec<ConstraintKind>,
}

/// The authored description of one business object.
pub struct EntityDefinition {
    pub name: String,
    pub fields: Vec<FieldSpec>,
}

/// Derived metadata for one field; never authored directly.
pub struct FieldDescriptor {
    pub name: String,
    pub semantic_type: SemanticType,
    pub nullable: bool,
    pub default_value: Option<String>,
    pub constraints: Vec<ConstraintKind>,
}

/// Extraction failures: both are fatal for the entity at definition time.
#[derive(Debug)]
pub enum SchemaError {
    DuplicateFieldName(String),
    UnknownSemanticType(String),
}

pub ghost struct FieldSpecModel {
    pub name: Seq<char>,
    pub declared_type: Seq<char>,
    pub nullable: bool,
    pub default_value: Option<Seq<char>>,
    pub constraints: Seq<ConstraintKind>,
}

pub ghost struct EntityModel {
    pub name: Seq<char>,
    pub fields: Seq<FieldSpecModel>,
}

pub ghost struct FieldModel {
    pub name: Seq<char>,
    pub semantic_type: SemanticType,
    pub nullable: bool,
    pub default_value: Option<Seq<char>>,
    pub constraints: Seq<ConstraintKind>,
}

pub ghost enum SchemaErrorModel {
    DuplicateFieldName(Seq<char>),
    UnknownSemanticType(Seq<char>),
}

impl DeepView for ConstraintKind {
    type V = ConstraintKind;

    open spec fn deep_view(&self) -> ConstraintKind {
        *self
    }
}

impl DeepView for FieldSpec {
    type V = FieldSpecModel;

    open spec fn deep_view(&self) -> FieldSpecModel {
        FieldSpecModel {
            name: self.name@,
            declared_type: self.declared_type@,
            nullable: self.nullable,
            default_value: self.default_value.deep_view(),
            constraints: self.constraints.deep_view(),
        }
    }
}

impl DeepView for EntityDefinition {
    type V = EntityModel;

    open spec fn deep_view(&self) -> EntityModel {
        EntityModel { name: self.name@, fields: self.fields.deep_view() }
    }
}

impl DeepView for FieldDescriptor {
    type V = FieldModel;

    open spec fn deep_view(&self) -> FieldModel {
        FieldModel {
            name: self.name@,
            semantic_type: self.semantic_type,
            nullable: self.nullable,
            default_value: self.default_value.deep_view(),
            constraints: self.constraints.deep_view(),
        }
    }
}

impl DeepView for SchemaError {
    type V = SchemaErrorModel;

    open spec fn deep_view(&self) -> SchemaErrorModel {
        match self {
            SchemaError::DuplicateFieldName(n) => SchemaErrorModel::DuplicateFieldName(n@),
            SchemaError::UnknownSemanticType(n) => SchemaErrorModel::UnknownSemanticType(n@),
        }
    }
}

/// The mapping from a declared type name to a supported semantic type.
pub open spec fn semantic_of(declared_type: Seq<char>) -> Option<SemanticType> {
    if declared_type == "integer"@ {
        Some(SemanticType::Integer)
    } else if declared_type == "big_integer"@ {
        Some(SemanticType::BigInteger)
    } else if declared_type == "text"@ {
        Some(SemanticType::Text)
    } else if declared_type == "boolean"@ {
        Some(SemanticType::Boolean)
    } else if declared_type == "timestamp"@ {
        Some(SemanticType::Timestamp)
    } else {
        None
    }
}

/// The descriptor derived from one authored field, assuming its type maps.
pub open spec fn spec_descriptor(f: FieldSpecModel) -> FieldModel {
    FieldModel {
        name: f.name,
        semantic_type: semantic_of(f.declared_type)->Some_0,
        nullable: f.nullable,
        default_value: f.default_value,
        constraints: f.constraints,
    }
}

/// What is wrong with field `i` of `fields`, if anything: an unmappable
/// type name, or a name already used by an earlier field.
pub open spec fn field_issue(fields: Seq<FieldSpecModel>, i: int) -> Option<SchemaErrorModel> {
    if semantic_of(fields[i].declared_type) is None {
        Some(SchemaErrorModel::UnknownSemanticType(fields[i].name))
    } else if exists|j: int| 0 <= j < i && fields[j].name == fields[i].name {
        Some(SchemaErrorModel::DuplicateFieldName(fields[i].name))
    } else {
        None
    }
}

/// The issue of the first offending field at or after `i`, scanning in
/// declaration order.
pub open spec fn first_issue_from(fields: Seq<FieldSpecModel>, i: int) -> Option<SchemaErrorModel>
    decreases fields.len() - i,
{
    if i < 0 || i >= fields.len() {
        None
    } else if field_issue(fields, i) is Some {
        field_issue(fields, i)
    } else {
        first_issue_from(fields, i + 1)
    }
}

/// The full descriptor list for an entity whose every field is issue-free.
pub open spec fn spec_extract(fields: Seq<FieldSpecModel>) -> Seq<FieldModel> {
    fields.map_values(|f: FieldSpecModel| spec_descriptor(f))
}

pub proof fn lemma_first_issue_none(fields: Seq<FieldSpecModel>, i: int)
    requires
        0 <= i <= fields.len(),
        forall|k: int| i <= k < fields.len() ==> field_issue(fields, k) is None,
    ensures
        first_issue_from(fields, i) is None,
    decreases fields.len() - i,
{
    if i < fields.len() {
        lemma_first_issue_none(fields, i + 1);
    }
}

proof fn lemma_first_issue_found(fields: Seq<FieldSpecModel>, i: int, bad: int)
    requires
        0 <= i <= bad < fields.len(),
        forall|k: int| i <= k < bad ==> field_issue(fields, k) is None,
        field_issue(fields, bad) is Some,
    ensures
        first_issue_from(fields, i) == field_issue(fields, bad),
    decreases bad - i,
{
    if i < bad {
        lemma_first_issue_found(fields, i + 1, bad);
    }
}

/// True when `a` holds the same characters as the literal-backed `b`.
fn str_eq(a: &String, b: &str) -> (r: bool)
    ensures
        r == (a@ == b@),
{
    let bs: String = String::from_str(b);
    *a == bs
}

/// Maps a declared type name to its semantic type, if it has one.
pub fn map_semantic_type(declared_type: &String) -> (r: Option<SemanticType>)
    ensures
        r == semantic_of(declared_type@),
{
    if str_eq(declared_type, "integer") {
        Some(SemanticType::Integer)
    } else if str_eq(declared_type, "big_integer") {
        Some(SemanticType::BigInteger)
    } else if str_eq(declared_type, "text") {
        Some(SemanticType::Text)
    } else if str_eq(declared_type, "boolean") {
        Some(SemanticType::Boolean)
    } else if str_eq(declared_type, "timestamp") {
        Some(SemanticType::Timestamp)
    } else {
        None
    }
}

impl Clone for FieldDescriptor {
    /// A descriptor clone preserves the whole descriptor model.
    fn clone(&self) -> (r: Self)
        ensures
            r.deep_view() == self.deep_view(),
    {
        FieldDescriptor {
            name: self.name.clone(),
            semantic_type: self.semantic_type,
            nullable: self.nullable,
            default_value: match &self.default_value {
                Some(s) => Some(s.clone()),
                None => None,
            },
            constraints: clone_constraints(&self.constraints),
        }
    }
}

/// Copies a constraint list element by element.
fn clone_constraints(cs: &Vec<ConstraintKind>) -> (r: Vec<ConstraintKind>)
    ensures
        r@ == cs@,
{
    let mut out: Vec<ConstraintKind> = Vec::new();
    let mut i: usize = 0;
    while i < cs.len()
        invariant
            i <= cs.len(),
            out@ == cs@.subrange(0, i as int),
        decreases cs.len() - i,
    {
        out.push(cs[i]);
        i = i + 1;
    }
    assert(out@ =~= cs@);
    out
}

/// Derives the ordered field descriptors of `entity`, in declaration
/// order. Fails with `UnknownSemanticType` when a declared type name has
/// no supported mapping, and with `DuplicateFieldName` when a field
/// repeats the name of an earlier one; the first offending field, in
/// declaration order, decides the error.
pub fn extract(entity: &EntityDefinition) -> (r: Result<Vec<FieldDescriptor>, SchemaError>)
    ensures
        match r {
            Ok(descs) => {
                &&& first_issue_from(entity.fields.deep_view(), 0) is None
                &&& descs.deep_view() == spec_extract(entity.fields.deep_view())
            },
            Err(e) => {
                &&& first_issue_from(entity.fields.deep_view(), 0) == Some(e.deep_view())
            },
        },
{
    let ghost fm = entity.fields.deep_view();
    let mut out: Vec<FieldDescriptor> = Vec::new();
    let mut i: usize = 0;
    while i < entity.fields.len()
        invariant
            i <= entity.fields.len(),
            fm == entity.fields.deep_view(),
            fm.len() == entity.fields.len(),
            forall|k: int| 0 <= k < i ==> field_issue(fm, k) is None,
            out.deep_view() =~= spec_extract(fm.subrange(0, i as int)),
        decreases entity.fields.len() - i,
    {
        let field = &entity.fields[i];
        assert(field.deep_view() == fm[i as int]);
        let sem = map_semantic_type(&field.declared_type);
        match sem {
            None => {
                proof {
                    lemma_first_issue_found(fm, 0, i as int);
                }
                return Err(SchemaError::UnknownSemanticType(field.name.clone()));
            },
            Some(st) => {
                let mut j: usize = 0;
                while j < i
                    invariant
                        j <= i,
                        i < entity.fields.len(),
                        fm == entity.fields.deep_view(),
                        fm.len() == entity.fields.len(),
                        semantic_of(fm[i as int].declared_type) is Some,
                        forall|k: int| 0 <= k < i ==> field_issue(fm, k) is None,
                        forall|k: int| 0 <= k < j ==> fm[k].name != fm[i as int].name,
                    decreases i - j,
                {
                    if entity.fields[j].name == entity.fields[i].name {
                        proof {
                            assert(fm[j as int].name == fm[i as int].name);
                            assert(exists|k: int|
                                0 <= k < i && fm[k].name == fm[i as int].name) by {
                                assert(0 <= (j as int) && (j as int) < (i as int));
                                assert(fm[j as int].name == fm[i as int].name);
                            }
                            assert(field_issue(fm, i as int) == Some(
                                SchemaErrorModel::DuplicateFieldName(fm[i as int].name),
                            ));
                            lemma_first_issue_found(fm, 0, i as int);
                        }
                        return Err(SchemaError::DuplicateFieldName(
                            entity.fields[i].name.clone(),
                        ));
                    }
                    j = j + 1;
                }
                let desc = FieldDescriptor {
                    name: field.name.clone(),
                    semantic_type: st,
                    nullable: field.nullable,
                    default_value: match &field.default_value {
                        Some(s) => Some(s.clone()),
                        None => None,
                    },
                    constraints: clone_constraints(&field.constraints),
                };
                assert(desc.deep_view() == spec_descriptor(fm[i as int]));
                let ghost prev_out = out.deep_view();
                let ghost prev_vec = out@;
                out.push(desc);
                proof {
                    assert(out@ == prev_vec.push(desc));
                    assert(prev_out.len() == i as int);
                    assert(prev_out.len() == prev_vec.len());
                    assert(out.deep_view().len() == i + 1);
                    assert forall|k: int| 0 <= k < i + 1 implies out.deep_view()[k]
                        == spec_extract(fm.subrange(0, i + 1))[k] by {
                        assert(out.deep_view()[k] == out@[k].deep_view());
                        if k < i {
                            assert(out@[k] == prev_vec[k]);
                            assert(prev_out[k] == prev_vec[k].deep_view());
                            assert(prev_out[k] == spec_extract(fm.subrange(0, i as int))[k]);
                            assert(prev_out[k] == spec_descriptor(fm[k]));
                        } else {
                            assert(out@[k] == desc);
                        }
                    }
                    assert(out.deep_view() =~= spec_extract(fm.subrange(0, i + 1)));
                }
                i = i + 1;
            },
        }
    }
    proof {
        lemma_first_issue_none(fm, 0);
        assert(fm.subrange(0, fm.len() as int) =~= fm);
        assert(out.deep_view() =~= spec_extract(fm));
    }
    Ok(out)
}

} // verus!
