use ruskit_schema::engine::Engine;
use ruskit_schema::fields::ConstraintKind;
use ruskit_schema::fields::EntityDefinition;
use ruskit_schema::fields::FieldSpec;
use ruskit_schema::fields::SemanticType;
use ruskit_schema::fields::extract;
use ruskit_schema::migration::Migration;
use ruskit_schema::migration::SchemaStep;
use ruskit_schema::migration::generate;
use ruskit_schema::models::default_role;
use ruskit_schema::models::get_all_model_migrations;
use ruskit_schema::models::user_definition;

fn field(name: &str, ty: &str) -> FieldSpec {
    FieldSpec {
        name: name.to_string(),
        declared_type: ty.to_string(),
        nullable: false,
        default_value: None,
        constraints: Vec::new(),
    }
}

#[test]
fn extract_maps_declared_types_in_order() {
    let e = EntityDefinition {
        name: "users".to_string(),
        fields: vec![field("name", "text"), field("created_at", "timestamp")],
    };
    let descs = extract(&e).unwrap();
    assert_eq!(descs.len(), 2);
    assert_eq!(descs[0].name, "name");
    assert!(matches!(descs[0].semantic_type, SemanticType::Text));
    assert_eq!(descs[1].name, "created_at");
    assert!(matches!(descs[1].semantic_type, SemanticType::Timestamp));
}

#[test]
fn extract_is_deterministic() {
    let e = user_definition();
    let a = extract(&e).unwrap();
    let b = extract(&e).unwrap();
    assert_eq!(a.len(), b.len());
    for i in 0..a.len() {
        assert_eq!(a[i].name, b[i].name);
        assert_eq!(a[i].nullable, b[i].nullable);
    }
}

#[test]
fn extract_rejects_duplicate_and_unknown() {
    let dup = EntityDefinition {
        name: "users".to_string(),
        fields: vec![field("name", "text"), field("name", "text")],
    };
    assert!(extract(&dup).is_err());
    let unknown = EntityDefinition {
        name: "users".to_string(),
        fields: vec![field("name", "geometry")],
    };
    assert!(extract(&unknown).is_err());
}

#[test]
fn create_table_round_trip_and_pending_empty() {
    let e = EntityDefinition {
        name: "users".to_string(),
        fields: vec![
            field("name", "text"),
            field("email", "text"),
            field("created_at", "timestamp"),
        ],
    };
    let descs = extract(&e).unwrap();
    let m = generate(&"users".to_string(), &None, &descs, 1, None).unwrap();
    assert_eq!(m.up_steps.len(), 1);
    assert!(matches!(m.up_steps[0], SchemaStep::CreateTable { .. }));
    let mut engine = Engine::new();
    let all: Vec<Migration> = vec![m];
    assert!(engine.apply(&all[0], &all, 7).is_ok());
    assert_eq!(engine.tables.len(), 1);
    assert_eq!(engine.tables[0].columns.len(), 3);
    let pending = engine.pending(&all).unwrap();
    assert!(pending.is_empty());
}

#[test]
fn apply_is_idempotent() {
    let e = user_definition();
    let descs = extract(&e).unwrap();
    let m = generate(&e.name, &None, &descs, 1, None).unwrap();
    let all: Vec<Migration> = vec![m];
    let mut engine = Engine::new();
    assert!(engine.apply(&all[0], &all, 7).is_ok());
    let ledger_len = engine.ledger.len();
    let tables_len = engine.tables.len();
    assert!(engine.apply(&all[0], &all, 9).is_ok());
    assert_eq!(engine.ledger.len(), ledger_len);
    assert_eq!(engine.tables.len(), tables_len);
}

#[test]
fn out_of_order_apply_conflicts() {
    let e = user_definition();
    let descs = extract(&e).unwrap();
    let m1 = generate(&e.name, &None, &descs, 1, None).unwrap();
    let prev = extract(&e).unwrap();
    let mut e2 = user_definition();
    e2.fields.push(FieldSpec {
        name: "role".to_string(),
        declared_type: "text".to_string(),
        nullable: false,
        default_value: Some("user".to_string()),
        constraints: Vec::new(),
    });
    let descs2 = extract(&e2).unwrap();
    let m3 = generate(&e2.name, &Some(prev), &descs2, 3, Some(1)).unwrap();
    let all: Vec<Migration> = vec![m1, m3];
    let mut engine = Engine::new();
    let r = engine.apply(&all[1], &all, 7);
    assert!(r.is_err());
}

#[test]
fn add_column_down_is_drop_column() {
    let e = user_definition();
    let prev = extract(&e).unwrap();
    let mut e2 = user_definition();
    e2.fields.push(FieldSpec {
        name: "role".to_string(),
        declared_type: "text".to_string(),
        nullable: false,
        default_value: Some("user".to_string()),
        constraints: Vec::new(),
    });
    let curr = extract(&e2).unwrap();
    let m = generate(&e2.name, &Some(prev), &curr, 2, Some(1)).unwrap();
    assert_eq!(m.up_steps.len(), 1);
    match &m.up_steps[0] {
        SchemaStep::AddColumn { column, .. } => assert_eq!(column.name, "role"),
        other => panic!("unexpected step {:?}", step_kind(other)),
    }
    assert_eq!(m.down_steps.len(), 1);
    match &m.down_steps[0] {
        SchemaStep::DropColumn { column, .. } => assert_eq!(column.name, "role"),
        other => panic!("unexpected step {:?}", step_kind(other)),
    }
}

fn step_kind(s: &SchemaStep) -> &'static str {
    match s {
        SchemaStep::CreateTable { .. } => "CreateTable",
        SchemaStep::DropTable { .. } => "DropTable",
        SchemaStep::AddColumn { .. } => "AddColumn",
        SchemaStep::DropColumn { .. } => "DropColumn",
        SchemaStep::AlterColumn { .. } => "AlterColumn",
    }
}

#[test]
fn up_then_down_restores_schema() {
    let e = user_definition();
    let descs = extract(&e).unwrap();
    let m = generate(&e.name, &None, &descs, 1, None).unwrap();
    let all: Vec<Migration> = vec![m];
    let mut engine = Engine::new();
    assert!(engine.apply(&all[0], &all, 7).is_ok());
    assert_eq!(engine.tables.len(), 1);
    assert!(engine.rollback(&all[0]).is_ok());
    assert_eq!(engine.tables.len(), 0);
    assert!(engine.ledger.is_empty());
}

#[test]
fn default_role_is_user() {
    assert_eq!(default_role(), "user");
    let ms = get_all_model_migrations();
    assert_eq!(ms.len(), 1);
}

#[test]
fn constraint_values_carry_through() {
    let mut f = field("name", "text");
    f.constraints = vec![ConstraintKind::MinLength(3), ConstraintKind::MaxLength(255)];
    let e = EntityDefinition { name: "users".to_string(), fields: vec![f] };
    let descs = extract(&e).unwrap();
    assert_eq!(descs[0].constraints.len(), 2);
    assert!(matches!(descs[0].constraints[0], ConstraintKind::MinLength(3)));
}
