use ruskit_schema::export::ClientType;
use ruskit_schema::export::emit;
use ruskit_schema::fields::ConstraintKind;
use ruskit_schema::fields::EntityDefinition;
use ruskit_schema::fields::FieldSpec;
use ruskit_schema::fields::extract;
use ruskit_schema::validation::FieldValue;
use ruskit_schema::validation::Validator;
use ruskit_schema::validation::Value;
use ruskit_schema::validation::compile;

fn field_with(name: &str, ty: &str, constraints: Vec<ConstraintKind>) -> FieldSpec {
    FieldSpec {
        name: name.to_string(),
        declared_type: ty.to_string(),
        nullable: false,
        default_value: None,
        constraints,
    }
}

fn user_request_validator() -> Validator {
    let e = EntityDefinition {
        name: "create_user_request".to_string(),
        fields: vec![
            field_with(
                "name",
                "text",
                vec![ConstraintKind::MinLength(3), ConstraintKind::MaxLength(255)],
            ),
            field_with("email", "text", vec![ConstraintKind::EmailFormat]),
            field_with("password", "text", vec![ConstraintKind::MinLength(8)]),
        ],
    };
    let descs = extract(&e).unwrap();
    compile(&descs).unwrap()
}

fn text(field: &str, value: &str) -> FieldValue {
    FieldValue { field: field.to_string(), value: Value::TextVal(value.to_string()) }
}

#[test]
fn two_independent_violations_give_exactly_two_failures() {
    let v = user_request_validator();
    let record = vec![
        text("name", "ab"),
        text("email", "not-an-email"),
        text("password", "long enough"),
    ];
    let failures = v.validate(&record);
    assert_eq!(failures.len(), 2);
    assert_eq!(failures[0].field, "name");
    assert!(matches!(failures[0].constraint, ConstraintKind::MinLength(3)));
    assert_eq!(failures[1].field, "email");
    assert!(matches!(failures[1].constraint, ConstraintKind::EmailFormat));
}

#[test]
fn valid_record_yields_no_failures() {
    let v = user_request_validator();
    let record = vec![
        text("name", "Ada Lovelace"),
        text("email", "ada@example.com"),
        text("password", "correct horse"),
    ];
    assert!(v.validate(&record).is_empty());
}

#[test]
fn email_check_tells_addresses_apart() {
    let v = user_request_validator();
    let good = vec![text("name", "Ada"), text("email", "a@b.com"), text("password", "12345678")];
    assert!(v.validate(&good).is_empty());
    let bad = vec![text("name", "Ada"), text("email", "a@b."), text("password", "12345678")];
    let failures = v.validate(&bad);
    assert_eq!(failures.len(), 1);
    assert_eq!(failures[0].field, "email");
}

#[test]
fn incompatible_constraints_fail_compilation() {
    let e = EntityDefinition {
        name: "bad".to_string(),
        fields: vec![field_with(
            "name",
            "text",
            vec![ConstraintKind::MinLength(10), ConstraintKind::MaxLength(3)],
        )],
    };
    let descs = extract(&e).unwrap();
    assert!(compile(&descs).is_err());
}

#[test]
fn non_null_and_range_checks() {
    let e = EntityDefinition {
        name: "counters".to_string(),
        fields: vec![field_with(
            "count",
            "integer",
            vec![
                ConstraintKind::NonNull,
                ConstraintKind::MinValue(0),
                ConstraintKind::MaxValue(10),
            ],
        )],
    };
    let descs = extract(&e).unwrap();
    let v = compile(&descs).unwrap();
    let missing: Vec<FieldValue> = vec![];
    assert_eq!(v.validate(&missing).len(), 1);
    let null_value = vec![FieldValue { field: "count".to_string(), value: Value::Null }];
    assert_eq!(v.validate(&null_value).len(), 1);
    let too_big = vec![FieldValue { field: "count".to_string(), value: Value::IntVal(11) }];
    assert_eq!(v.validate(&too_big).len(), 1);
    let fine = vec![FieldValue { field: "count".to_string(), value: Value::IntVal(5) }];
    assert!(v.validate(&fine).is_empty());
}

#[test]
fn emit_preserves_order_and_nullability() {
    let e = EntityDefinition {
        name: "users".to_string(),
        fields: vec![
            field_with("id", "big_integer", vec![]),
            field_with("name", "text", vec![]),
            FieldSpec {
                name: "bio".to_string(),
                declared_type: "text".to_string(),
                nullable: true,
                default_value: None,
                constraints: vec![],
            },
            field_with("active", "boolean", vec![]),
            field_with("created_at", "timestamp", vec![]),
        ],
    };
    let descs = extract(&e).unwrap();
    let decl = emit(&"users".to_string(), &descs);
    assert_eq!(decl.entity, "users");
    assert_eq!(decl.fields.len(), 5);
    assert_eq!(decl.fields[0].name, "id");
    assert!(matches!(decl.fields[0].client_type, ClientType::BigNumber));
    assert!(!decl.fields[0].nullable);
    assert!(matches!(decl.fields[1].client_type, ClientType::Text));
    assert!(decl.fields[2].nullable);
    assert!(matches!(decl.fields[3].client_type, ClientType::Flag));
    assert!(matches!(decl.fields[4].client_type, ClientType::Instant));
}
