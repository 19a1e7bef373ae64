//! The type export emitter: a one-way, best-effort bridge from field
//! descriptors to a client-facing type declaration. Pure and
//! deterministic; field order and nullability are preserved; no
//! migration or validation state is consulted.

use vstd::prelude::*;

verus! {

use crate::engine::lemma_deep_push;
use crate::fields::FieldDescriptor;
use crate::fields::FieldModel;
use crate::fields::SemanticType;

/// The closed set of client-facing types a field can export to.
#[derive(Clone, Copy, PartialEq, Eq, Structural, Debug)]
pub enum ClientType {
    Number,
    BigNumber,
    Text,
    Flag,
    Instant,
}

/// One exported field: name, client type and nullability.
pub struct TypeField {
    pub name: String,
    pub client_type: ClientType,
    pub nullable: bool,
}

/// The exported declaration of one entity.
pub struct TypeDeclaration {
    pub entity: String,
    pub fields: Vec<TypeField>,
}

pub ghost struct TypeFieldModel {
    pub name: Seq<char>,
    pub client_type: ClientType,
    pub nullable: bool,
}

impl DeepView for TypeField {
    type V = TypeFieldModel;

    open spec fn deep_view(&self) -> TypeFieldModel {
        TypeFieldModel {
            name: self.name@,
            client_type: self.client_type,
            nullable: self.nullable,
        }
    }
}

/// The fixed mapping from a semantic type to its client-facing type.
pub open spec fn client_of(t: SemanticType) -> ClientType {
    match t {
        SemanticType::Integer => ClientType::Number,
        SemanticType::BigInteger => ClientType::BigNumber,
        SemanticType::Text => ClientType::Text,
        SemanticType::Boolean => ClientType::Flag,
        SemanticType::Timestamp => ClientType::Instant,
    }
}

/// The exported fields owed to a descriptor list, in order.
pub open spec fn spec_export_fields(ds: Seq<FieldModel>) -> Seq<TypeFieldModel> {
    Seq::new(
        ds.len(),
        |i: int| TypeFieldModel {
            name: ds[i].name,
            client_type: client_of(ds[i].semantic_type),
            nullable: ds[i].nullable,
        },
    )
}

/// Maps a semantic type to its client-facing type.
pub fn map_client_type(t: SemanticType) -> (r: ClientType)
    ensures
        r == client_of(t),
{
    match t {
        SemanticType::Integer => ClientType::Number,
        SemanticType::BigInteger => ClientType::BigNumber,
        SemanticType::Text => ClientType::Text,
        SemanticType::Boolean => ClientType::Flag,
        SemanticType::Timestamp => ClientType::Instant,
    }
}

/// Emits the client-facing declaration of one entity: exactly one
/// exported field per descriptor, in declaration order, each carrying
/// the mapped client type and the descriptor's nullability.
pub fn emit(entity: &String, descs: &Vec<FieldDescriptor>) -> (r: TypeDeclaration)
    ensures
        r.entity@ == entity@,
        r.fields.deep_view() == spec_export_fields(descs.deep_view()),
{
    let ghost dm = descs.deep_view();
    let mut fields: Vec<TypeField> = Vec::new();
    let mut i: usize = 0;
    while i < descs.len()
        invariant
            i <= descs@.len(),
            dm == descs.deep_view(),
            dm.len() == descs@.len(),
            fields.deep_view() == spec_export_fields(dm).take(i as int),
        decreases descs@.len() - i,
    {
        let d = &descs[i];
        proof {
            assert(d.deep_view() == dm[i as int]);
        }
        let f = TypeField {
            name: d.name.clone(),
            client_type: map_client_type(d.semantic_type),
            nullable: d.nullable,
        };
        let ghost before = fields.deep_view();
        let ghost bvec = fields@;
        proof {
            assert(f.deep_view() == spec_export_fields(dm)[i as int]);
        }
        fields.push(f);
        proof {
            lemma_deep_push(bvec, fields@, f);
            assert(fields.deep_view() == before.push(spec_export_fields(dm)[i as int]));
            assert(fields.deep_view() =~= spec_export_fields(dm).take(i as int + 1));
        }
        i = i + 1;
    }
    proof {
        assert(spec_export_fields(dm).take(dm.len() as int) =~= spec_export_fields(dm));
    }
    TypeDeclaration { entity: entity.clone(), fields }
}

} // verus!
