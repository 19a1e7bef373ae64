use ruskit_schema::engine::Engine;
use ruskit_schema::fields::extract;
use ruskit_schema::migration::Migration;
use ruskit_schema::migration::SchemaStep;
use ruskit_schema::migration::generate;
use ruskit_schema::models::CreateUserRequest;
use ruskit_schema::models::User;
use ruskit_schema::models::UserListResponse;
use ruskit_schema::models::UserResponse;
use ruskit_schema::models::get_all_model_migrations;
use ruskit_schema::models::user_definition;
use ruskit_schema::models::user_from_request;
use ruskit_schema::models::validate_create_user_request;

#[test]
fn registry_holds_the_create_users_migration() {
    let ms = get_all_model_migrations();
    assert_eq!(ms.len(), 1);
    assert_eq!(ms[0].version, 1);
    assert_eq!(ms[0].up_steps.len(), 1);
    match &ms[0].up_steps[0] {
        SchemaStep::CreateTable { entity, columns } => {
            assert_eq!(entity, "users");
            let names: Vec<&str> = columns.iter().map(|c| c.name.as_str()).collect();
            assert_eq!(names, vec!["id", "name", "email", "created_at", "updated_at"]);
        },
        _ => panic!("expected a create-table step"),
    }
    assert_eq!(ms[0].down_steps.len(), 1);
    assert!(matches!(ms[0].down_steps[0], SchemaStep::DropTable { .. }));
}

#[test]
fn registry_is_deterministic() {
    let a = get_all_model_migrations();
    let b = get_all_model_migrations();
    assert_eq!(a.len(), b.len());
    assert_eq!(a[0].version, b[0].version);
    assert_eq!(a[0].up_steps.len(), b[0].up_steps.len());
}

#[test]
fn migrate_up_applies_pending_and_reports() {
    let e = user_definition();
    let descs = extract(&e).unwrap();
    let m1 = generate(&e.name, &None, &descs, 1, None).unwrap();
    let all: Vec<Migration> = vec![m1];
    let mut engine = Engine::new();
    let report = engine.migrate_up(&all, None, 7).unwrap();
    assert_eq!(report.applied, vec![1]);
    assert!(report.skipped.is_empty());
    assert!(report.failed.is_none());
    assert_eq!(engine.tables.len(), 1);
    assert_eq!(engine.ledger.len(), 1);
    let again = engine.migrate_up(&all, None, 9).unwrap();
    assert!(again.applied.is_empty());
}

#[test]
fn migrate_up_skips_beyond_target() {
    let e = user_definition();
    let descs = extract(&e).unwrap();
    let m1 = generate(&e.name, &None, &descs, 1, None).unwrap();
    let prev = extract(&e).unwrap();
    let mut e2 = user_definition();
    e2.fields[1].nullable = true;
    let descs2 = extract(&e2).unwrap();
    let m2 = generate(&e2.name, &Some(prev), &descs2, 2, Some(1)).unwrap();
    let all: Vec<Migration> = vec![m1, m2];
    let mut engine = Engine::new();
    let report = engine.migrate_up(&all, Some(1), 7).unwrap();
    assert_eq!(report.applied, vec![1]);
    assert_eq!(report.skipped, vec![2]);
    assert_eq!(engine.ledger.len(), 1);
}

#[test]
fn migrate_down_rolls_back_newest_first() {
    let e = user_definition();
    let descs = extract(&e).unwrap();
    let m1 = generate(&e.name, &None, &descs, 1, None).unwrap();
    let prev = extract(&e).unwrap();
    let mut e2 = user_definition();
    e2.fields[2].nullable = true;
    let descs2 = extract(&e2).unwrap();
    let m2 = generate(&e2.name, &Some(prev), &descs2, 2, Some(1)).unwrap();
    let all: Vec<Migration> = vec![m1, m2];
    let mut engine = Engine::new();
    let up = engine.migrate_up(&all, None, 7).unwrap();
    assert_eq!(up.applied, vec![1, 2]);
    let down = engine.migrate_down(&all, None);
    assert_eq!(down.applied, vec![2, 1]);
    assert!(down.failed.is_none());
    assert_eq!(engine.tables.len(), 0);
    assert!(engine.ledger.is_empty());
}

#[test]
fn migrate_down_respects_target() {
    let e = user_definition();
    let descs = extract(&e).unwrap();
    let m1 = generate(&e.name, &None, &descs, 1, None).unwrap();
    let all: Vec<Migration> = vec![m1];
    let mut engine = Engine::new();
    engine.migrate_up(&all, None, 7).unwrap();
    let down = engine.migrate_down(&all, Some(1));
    assert!(down.applied.is_empty());
    assert_eq!(down.skipped, vec![1]);
    assert_eq!(engine.ledger.len(), 1);
}

#[test]
fn user_from_request_carries_fields_and_timestamp() {
    let req = CreateUserRequest {
        name: "Ada".to_string(),
        email: "ada@example.com".to_string(),
        password: "hunter22".to_string(),
    };
    let u = user_from_request(req, 42);
    assert_eq!(u.id, 0);
    assert_eq!(u.name, "Ada");
    assert_eq!(u.email, "ada@example.com");
    assert_eq!(u.created_at, 42);
    assert_eq!(u.updated_at, 42);
}

#[test]
fn optional_user_response_has_fixed_empty_form() {
    let r = UserResponse::of_optional(None);
    assert_eq!(r.id, 0);
    assert_eq!(r.name, "");
    assert_eq!(r.email, "");
    assert_eq!(r.role, "user");
    assert!(r.created_at.is_none());
    assert!(r.updated_at.is_none());
}

#[test]
fn user_list_response_preserves_order() {
    let users = vec![
        User {
            id: 1,
            name: "a".to_string(),
            email: "a@example.com".to_string(),
            created_at: 1,
            updated_at: 1,
        },
        User {
            id: 2,
            name: "b".to_string(),
            email: "b@example.com".to_string(),
            created_at: 2,
            updated_at: 2,
        },
    ];
    let r = UserListResponse::of_users(users);
    assert_eq!(r.data.len(), 2);
    assert_eq!(r.data[0].id, 1);
    assert_eq!(r.data[0].role, "user");
    assert_eq!(r.data[1].id, 2);
    assert_eq!(r.data[1].name, "b");
}

#[test]
fn create_user_request_rules_match_the_annotations() {
    let good = CreateUserRequest {
        name: "Ada".to_string(),
        email: "ada@example.com".to_string(),
        password: "12345678".to_string(),
    };
    assert!(validate_create_user_request(&good).is_empty());
    let bad = CreateUserRequest {
        name: "ab".to_string(),
        email: "nope".to_string(),
        password: "short".to_string(),
    };
    let failures = validate_create_user_request(&bad);
    assert_eq!(failures.len(), 3);
    assert_eq!(failures[0].field, "name");
    assert_eq!(failures[1].field, "email");
    assert_eq!(failures[2].field, "password");
}
