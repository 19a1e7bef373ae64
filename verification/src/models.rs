//! The application's entity catalogue: record types, request and
//! response shapes, and the migrations that the defined entities owe.
//!
//! Nothing here reads a clock for migration versions: `generate` takes
//! the version and `apply` the timestamp as arguments, so a caller is
//! expected to derive them from a ledger-backed monotonic counter
//! rather than from wall-clock precision.

use vstd::prelude::*;

verus! {

use vstd::string::StringExecFns;
use crate::fields::ConstraintKind;
use crate::fields::EntityDefinition;
use crate::fields::FieldSpec;
use crate::fields::FieldSpecModel;
use crate::fields::extract;
use crate::fields::field_issue;
use crate::fields::lemma_first_issue_none;
use crate::fields::semantic_of;
use crate::fields::spec_extract;
use crate::fields::SemanticType;
use crate::migration::Migration;
use crate::migration::MigrationModel;
use crate::migration::generate;
use crate::migration::spec_generate;
use crate::validation::FieldValue;
use crate::validation::FieldValueModel;
use crate::validation::Rule;
use crate::validation::RuleModel;
use crate::validation::ValidationFailure;
use crate::validation::Validator;
use crate::validation::Value;
use crate::validation::ValueModel;

/// A stored user row.
pub struct User {
    pub id: i64,
    pub name: String,
    pub email: String,
    pub created_at: i64,
    pub updated_at: i64,
}

/// A stored post row.
pub struct Post {
    pub id: i64,
    pub user_id: i64,
    pub title: String,
    pub content: String,
    pub created_at: i64,
    pub updated_at: i64,
}

/// An incoming request to create a user.
pub struct CreateUserRequest {
    pub name: String,
    pub email: String,
    pub password: String,
}

/// An outgoing representation of one user.
pub struct UserResponse {
    pub id: i64,
    pub name: String,
    pub email: String,
    pub role: String,
    pub created_at: Option<i64>,
    pub updated_at: Option<i64>,
}

/// An outgoing representation of a list of users.
pub struct UserListResponse {
    pub data: Vec<UserResponse>,
}

/// The role given to a user when none is set.
pub fn default_role() -> (r: String)
    ensures
        r@ == "user"@,
{
    String::from_str("user")
}

/// The user row owed to a creation request stamped at `now`: the
/// request's fields verbatim, a fresh id, and both timestamps at `now`.
/// The password is left for the caller to hash and set.
pub fn user_from_request(request: CreateUserRequest, now: i64) -> (u: User)
    ensures
        u.id == 0,
        u.name@ == request.name@,
        u.email@ == request.email@,
        u.created_at == now,
        u.updated_at == now,
{
    User { id: 0, name: request.name, email: request.email, created_at: now, updated_at: now }
}

/// Relies on chrono's `Utc::now` for the wall-clock time; nothing is
/// assumed of the value returned.
#[verifier::external_body]
fn current_unix_timestamp() -> (t: i64) {
    chrono::Utc::now().timestamp()
}

/// `user_from_request` stamped with the wall clock: whatever the clock
/// read, both timestamps carry it and the request's fields are kept.
pub fn user_from_request_now(request: CreateUserRequest) -> (u: User)
    ensures
        u.id == 0,
        u.name@ == request.name@,
        u.email@ == request.email@,
        u.created_at == u.updated_at,
{
    let now = current_unix_timestamp();
    user_from_request(request, now)
}

/// True when `r` is the response owed to the stored user `u`.
pub open spec fn responds_to(r: UserResponse, u: User) -> bool {
    &&& r.id == u.id
    &&& r.name@ == u.name@
    &&& r.email@ == u.email@
    &&& r.role@ == "user"@
    &&& r.created_at == Some(u.created_at)
    &&& r.updated_at == Some(u.updated_at)
}

impl UserResponse {
    /// The response owed to one stored user: its fields verbatim, the
    /// default role, and both timestamps present.
    pub fn of_user(user: User) -> (r: UserResponse)
        ensures
            responds_to(r, user),
    {
        UserResponse {
            id: user.id,
            name: user.name,
            email: user.email,
            role: default_role(),
            created_at: Some(user.created_at),
            updated_at: Some(user.updated_at),
        }
    }

    /// The response owed to a user that may be absent: the user's
    /// response when present, and the fixed empty response otherwise.
    pub fn of_optional(user: Option<User>) -> (r: UserResponse)
        ensures
            user is Some ==> responds_to(r, user->0),
            user is None ==> {
                &&& r.id == 0
                &&& r.name@ == Seq::<char>::empty()
                &&& r.email@ == Seq::<char>::empty()
                &&& r.role@ == "user"@
                &&& r.created_at is None
                &&& r.updated_at is None
            },
    {
        match user {
            Some(u) => UserResponse::of_user(u),
            None => UserResponse {
                id: 0,
                name: String::new(),
                email: String::new(),
                role: default_role(),
                created_at: None,
                updated_at: None,
            },
        }
    }
}

impl UserListResponse {
    /// The response owed to a list of stored users: one response per
    /// user, in the given order.
    pub fn of_users(users: Vec<User>) -> (r: UserListResponse)
        ensures
            r.data@.len() == users@.len(),
            forall|i: int| 0 <= i < users@.len() ==> responds_to(#[trigger] r.data@[i], users@[i]),
    {
        let ghost um = users@;
        let mut data: Vec<UserResponse> = Vec::new();
        let mut rest = users;
        let n = rest.len();
        let mut i: usize = 0;
        while i < n
            invariant
                i <= n,
                n == um.len(),
                rest@ =~= um.skip(i as int),
                data@.len() == i,
                forall|k: int| 0 <= k < i ==> responds_to(#[trigger] data@[k], um[k]),
            decreases n - i,
        {
            let u = rest.remove(0);
            proof {
                assert(u == um.skip(i as int)[0]);
                assert(u == um[i as int]);
                assert(um.skip(i as int).remove(0) =~= um.skip(i as int + 1));
            }
            data.push(UserResponse::of_user(u));
            i = i + 1;
        }
        UserListResponse { data }
    }
}

/// The authored fields of the user entity, as the contracts fix them.
pub open spec fn user_fields_model() -> Seq<FieldSpecModel> {
    seq![
        FieldSpecModel {
            name: "id"@,
            declared_type: "big_integer"@,
            nullable: false,
            default_value: None,
            constraints: Seq::empty(),
        },
        FieldSpecModel {
            name: "name"@,
            declared_type: "text"@,
            nullable: false,
            default_value: None,
            constraints: Seq::empty(),
        },
        FieldSpecModel {
            name: "email"@,
            declared_type: "text"@,
            nullable: false,
            default_value: None,
            constraints: Seq::empty(),
        },
        FieldSpecModel {
            name: "created_at"@,
            declared_type: "timestamp"@,
            nullable: false,
            default_value: None,
            constraints: Seq::empty(),
        },
        FieldSpecModel {
            name: "updated_at"@,
            declared_type: "timestamp"@,
            nullable: false,
            default_value: None,
            constraints: Seq::empty(),
        },
    ]
}

/// Every authored user field maps to a semantic type and no name
/// repeats, so extraction of the user entity cannot fail.
pub proof fn lemma_user_fields_wf()
    ensures
        forall|i: int|
            0 <= i < user_fields_model().len() ==> field_issue(user_fields_model(), i) is None,
{
    reveal_strlit("id");
    reveal_strlit("name");
    reveal_strlit("email");
    reveal_strlit("created_at");
    reveal_strlit("updated_at");
    reveal_strlit("integer");
    reveal_strlit("big_integer");
    reveal_strlit("text");
    reveal_strlit("boolean");
    reveal_strlit("timestamp");
    broadcast use vstd::string::group_string_axioms;

    let fs = user_fields_model();
    assert("integer"@.len() == 7);
    assert("big_integer"@.len() == 11);
    assert("text"@.len() == 4);
    assert("boolean"@.len() == 7);
    assert("timestamp"@.len() == 9);
    assert("text"@ != "integer"@ && "text"@ != "big_integer"@);
    assert("timestamp"@ != "integer"@ && "timestamp"@ != "big_integer"@);
    assert("timestamp"@ != "text"@ && "timestamp"@ != "boolean"@);
    assert("id"@.len() == 2 && "name"@.len() == 4 && "email"@.len() == 5);
    assert("created_at"@.len() == 10 && "updated_at"@.len() == 10);
    assert("created_at"@[0] == 'c' && "updated_at"@[0] == 'u');
    assert("created_at"@ != "updated_at"@);
    assert(semantic_of(fs[0].declared_type) == Some(SemanticType::BigInteger));
    assert(semantic_of(fs[1].declared_type) == Some(SemanticType::Text));
    assert(semantic_of(fs[2].declared_type) == Some(SemanticType::Text));
    assert(semantic_of(fs[3].declared_type) == Some(SemanticType::Timestamp));
    assert(semantic_of(fs[4].declared_type) == Some(SemanticType::Timestamp));
    assert forall|i: int| 0 <= i < fs.len() implies field_issue(fs, i) is None by {
        assert(semantic_of(fs[i].declared_type) is Some);
        assert forall|j: int| 0 <= j < i implies fs[j].name != fs[i].name by {
        }
    }
}

/// The authored definition of the user entity: exactly the five fields
/// of `user_fields_model`, in that order.
pub fn user_definition() -> (e: EntityDefinition)
    ensures
        e.deep_view().name == "users"@,
        e.deep_view().fields == user_fields_model(),
{
    let mut fields: Vec<FieldSpec> = Vec::new();
    fields.push(plain_field("id", "big_integer", false));
    fields.push(plain_field("name", "text", false));
    fields.push(plain_field("email", "text", false));
    fields.push(plain_field("created_at", "timestamp", false));
    fields.push(plain_field("updated_at", "timestamp", false));
    let e = EntityDefinition { name: String::from_str("users"), fields };
    proof {
        assert forall|k: int|
            0 <= k < e.fields.deep_view().len() implies e.fields.deep_view()[k]
            == user_fields_model()[k] by {
            assert(e.fields.deep_view()[k] == e.fields@[k].deep_view());
            assert(e.fields@[k].constraints.deep_view() =~= Seq::<ConstraintKind>::empty());
        }
        assert(e.deep_view().fields =~= user_fields_model());
    }
    e
}

/// One authored field with no default and no constraints.
fn plain_field(name: &str, declared_type: &str, nullable: bool) -> (f: FieldSpec)
    ensures
        f.name@ == name@,
        f.declared_type@ == declared_type@,
        f.nullable == nullable,
        f.default_value is None,
        f.constraints@.len() == 0,
{
    FieldSpec {
        name: String::from_str(name),
        declared_type: String::from_str(declared_type),
        nullable,
        default_value: None,
        constraints: Vec::<ConstraintKind>::new(),
    }
}

/// The one migration the user entity's version stream starts with.
pub open spec fn spec_user_migration() -> MigrationModel {
    spec_generate("users"@, None, spec_extract(user_fields_model()), 1u64)
}

/// The migrations owed by every defined entity: exactly the user
/// table's initial creation, generated from the user definition's
/// extracted descriptors at version 1.
pub fn get_all_model_migrations() -> (r: Vec<Migration>)
    ensures
        r.deep_view() == seq![spec_user_migration()],
{
    let mut migrations: Vec<Migration> = Vec::new();
    let user = user_definition();
    proof {
        lemma_user_fields_wf();
        lemma_first_issue_none(user.fields.deep_view(), 0);
    }
    match extract(&user) {
        Err(_) => {
            proof {
                assert(false);
            }
            migrations
        },
        Ok(descs) => {
            match generate(&user.name, &None, &descs, 1u64, None) {
                Err(_) => {
                    proof {
                        assert(false);
                    }
                    migrations
                },
                Ok(m) => {
                    migrations.push(m);
                    proof {
                        assert(migrations.deep_view() =~= seq![spec_user_migration()]);
                    }
                    migrations
                },
            }
        },
    }
}

/// The rules a creation request is checked against: a name of 3 to 255
/// characters, an e-mail-formatted address, and a password of at least
/// 8 characters.
pub open spec fn request_rules() -> Seq<RuleModel> {
    seq![
        RuleModel { field: "name"@, constraint: ConstraintKind::MinLength(3) },
        RuleModel { field: "name"@, constraint: ConstraintKind::MaxLength(255) },
        RuleModel { field: "email"@, constraint: ConstraintKind::EmailFormat },
        RuleModel { field: "password"@, constraint: ConstraintKind::MinLength(8) },
    ]
}

/// The candidate record a creation request presents for validation.
pub open spec fn request_record(r: CreateUserRequest) -> Seq<FieldValueModel> {
    seq![
        FieldValueModel { field: "name"@, value: ValueModel::TextVal(r.name@) },
        FieldValueModel { field: "email"@, value: ValueModel::TextVal(r.email@) },
        FieldValueModel { field: "password"@, value: ValueModel::TextVal(r.password@) },
    ]
}

/// The compiled validator of the creation request: exactly the rules
/// of `request_rules`, in that order.
pub fn create_user_request_validator() -> (v: Validator)
    ensures
        v.rules.deep_view() == request_rules(),
{
    let mut rules: Vec<Rule> = Vec::new();
    rules.push(Rule { field: String::from_str("name"), constraint: ConstraintKind::MinLength(3) });
    rules.push(
        Rule { field: String::from_str("name"), constraint: ConstraintKind::MaxLength(255) },
    );
    rules.push(
        Rule { field: String::from_str("email"), constraint: ConstraintKind::EmailFormat },
    );
    rules.push(
        Rule { field: String::from_str("password"), constraint: ConstraintKind::MinLength(8) },
    );
    let v = Validator { rules };
    proof {
        assert forall|k: int| 0 <= k < v.rules.deep_view().len() implies v.rules.deep_view()[k]
            == request_rules()[k] by {
            assert(v.rules.deep_view()[k] == v.rules@[k].deep_view());
        }
        assert(v.rules.deep_view() =~= request_rules());
    }
    v
}

/// Validates a creation request: every failure of `request_rules`
/// against the request's fields, in rule order, none short-circuited.
pub fn validate_create_user_request(request: &CreateUserRequest) -> (r: Vec<ValidationFailure>)
    ensures
        r.deep_view() == crate::validation::spec_failures(
            request_rules(),
            request_record(*request),
        ),
{
    let v = create_user_request_validator();
    let record: Vec<FieldValue> = vec![
        FieldValue {
            field: String::from_str("name"),
            value: Value::TextVal(request.name.clone()),
        },
        FieldValue {
            field: String::from_str("email"),
            value: Value::TextVal(request.email.clone()),
        },
        FieldValue {
            field: String::from_str("password"),
            value: Value::TextVal(request.password.clone()),
        },
    ];
    proof {
        assert forall|k: int| 0 <= k < record.deep_view().len() implies record.deep_view()[k]
            == request_record(*request)[k] by {
            assert(record.deep_view()[k] == record@[k].deep_view());
        }
        assert(record.deep_view() =~= request_record(*request));
    }
    v.validate(&record)
}

} // verus!
