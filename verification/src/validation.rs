//! The validation rule compiler and the compiled validators.
//!
//! `compile` flattens an entity's field descriptors into one rule per
//! (field, constraint) pair, rejecting semantically incompatible
//! combinations at construction time. A compiled `Validator` checks a
//! candidate record in one pass and reports every violation at once:
//! checks accumulate and are never short-circuited.

use vstd::prelude::*;

verus! {

use vstd::string::StrSliceExecFns;
use crate::engine::lemma_deep_push;
use crate::fields::ConstraintKind;
use crate::fields::FieldDescriptor;
use crate::fields::FieldModel;

/// One value of a candidate record.
pub enum Value {
    IntVal(i64),
    TextVal(String),
    BoolVal(bool),
    Null,
}

/// One named value of a candidate record.
pub struct FieldValue {
    pub field: String,
    pub value: Value,
}

/// One compiled check: a constraint bound to a field name.
pub struct Rule {
    pub field: String,
    pub constraint: ConstraintKind,
}

/// The compiled validator of one entity: its rules, in descriptor
/// order, constraints of one field in annotation order.
pub struct Validator {
    pub rules: Vec<Rule>,
}

/// One reported violation: the field and the constraint it broke.
#[derive(Debug)]
pub struct ValidationFailure {
    pub field: String,
    pub constraint: ConstraintKind,
}

/// Validator construction failures.
#[derive(Debug)]
pub enum CompileError {
    InvalidConstraintCombination(String),
}

pub ghost enum ValueModel {
    IntVal(i64),
    TextVal(Seq<char>),
    BoolVal(bool),
    Null,
}

pub ghost struct FieldValueModel {
    pub field: Seq<char>,
    pub value: ValueModel,
}

pub ghost struct RuleModel {
    pub field: Seq<char>,
    pub constraint: ConstraintKind,
}

pub ghost struct FailureModel {
    pub field: Seq<char>,
    pub constraint: ConstraintKind,
}

pub ghost enum CompileErrorModel {
    InvalidConstraintCombination(Seq<char>),
}

impl DeepView for Value {
    type V = ValueModel;

    open spec fn deep_view(&self) -> ValueModel {
        match self {
            Value::IntVal(x) => ValueModel::IntVal(*x),
            Value::TextVal(s) => ValueModel::TextVal(s@),
            Value::BoolVal(b) => ValueModel::BoolVal(*b),
            Value::Null => ValueModel::Null,
        }
    }
}

impl DeepView for FieldValue {
    type V = FieldValueModel;

    open spec fn deep_view(&self) -> FieldValueModel {
        FieldValueModel { field: self.field@, value: self.value.deep_view() }
    }
}

impl DeepView for Rule {
    type V = RuleModel;

    open spec fn deep_view(&self) -> RuleModel {
        RuleModel { field: self.field@, constraint: self.constraint }
    }
}

impl DeepView for ValidationFailure {
    type V = FailureModel;

    open spec fn deep_view(&self) -> FailureModel {
        FailureModel { field: self.field@, constraint: self.constraint }
    }
}

impl DeepView for CompileError {
    type V = CompileErrorModel;

    open spec fn deep_view(&self) -> CompileErrorModel {
        match self {
            CompileError::InvalidConstraintCombination(n) =>
                CompileErrorModel::InvalidConstraintCombination(n@),
        }
    }
}

/// The e-mail format check of the validator crate, as a function of
/// the string's characters.
pub uninterp spec fn is_email(s: Seq<char>) -> bool;

/// Relies on validator's `ValidateEmail` impl for `String`: the HTML5
/// e-mail check, whose verdict depends on the characters alone.
#[verifier::external_body]
fn email_ok(s: &String) -> (r: bool)
    ensures
        r == is_email(s@),
{
    validator::ValidateEmail::validate_email(s)
}

/// Two constraints no value can meet together: a maximum below a
/// minimum, for lengths or for numeric bounds.
pub open spec fn incompatible_pair(a: ConstraintKind, b: ConstraintKind) -> bool {
    match (a, b) {
        (ConstraintKind::MinLength(x), ConstraintKind::MaxLength(y)) => y < x,
        (ConstraintKind::MinValue(x), ConstraintKind::MaxValue(y)) => y < x,
        _ => false,
    }
}

/// A constraint list is incompatible when any two of its members are.
pub open spec fn incompatible(cs: Seq<ConstraintKind>) -> bool {
    exists|i: int, j: int|
        0 <= i < cs.len() && 0 <= j < cs.len() && incompatible_pair(cs[i], cs[j])
}

/// The name of the first descriptor, at or after `i`, whose
/// constraints are incompatible.
pub open spec fn first_incompatible_from(ds: Seq<FieldModel>, i: int) -> Option<Seq<char>>
    decreases ds.len() - i,
{
    if i < 0 || i >= ds.len() {
        None
    } else if incompatible(ds[i].constraints) {
        Some(ds[i].name)
    } else {
        first_incompatible_from(ds, i + 1)
    }
}

proof fn lemma_first_incompatible_none(ds: Seq<FieldModel>, i: int)
    requires
        0 <= i <= ds.len(),
        forall|k: int| i <= k < ds.len() ==> !incompatible((#[trigger] ds[k]).constraints),
    ensures
        first_incompatible_from(ds, i) is None,
    decreases ds.len() - i,
{
    if i < ds.len() {
        lemma_first_incompatible_none(ds, i + 1);
    }
}

proof fn lemma_first_incompatible_found(ds: Seq<FieldModel>, i: int, bad: int)
    requires
        0 <= i <= bad < ds.len(),
        forall|k: int| i <= k < bad ==> !incompatible((#[trigger] ds[k]).constraints),
        incompatible(ds[bad].constraints),
    ensures
        first_incompatible_from(ds, i) == Some(ds[bad].name),
    decreases bad - i,
{
    if i < bad {
        lemma_first_incompatible_found(ds, i + 1, bad);
    }
}

/// The rules owed to one descriptor: its constraints, in order, each
/// bound to its field name.
pub open spec fn field_rules(d: FieldModel) -> Seq<RuleModel> {
    Seq::new(d.constraints.len(), |j: int| RuleModel { field: d.name, constraint: d.constraints[j] })
}

/// The rules owed to the first `i` descriptors, in order.
pub open spec fn spec_rules_upto(ds: Seq<FieldModel>, i: int) -> Seq<RuleModel>
    decreases i,
{
    if i <= 0 {
        Seq::empty()
    } else {
        spec_rules_upto(ds, i - 1) + field_rules(ds[i - 1])
    }
}

/// All rules of a descriptor list.
pub open spec fn spec_rules(ds: Seq<FieldModel>) -> Seq<RuleModel> {
    spec_rules_upto(ds, ds.len() as int)
}

/// The value a candidate record holds under `name`, first match.
pub open spec fn lookup(rec: Seq<FieldValueModel>, name: Seq<char>) -> Option<ValueModel>
    decreases rec.len(),
{
    if rec.len() == 0 {
        None
    } else if rec[0].field == name {
        Some(rec[0].value)
    } else {
        lookup(rec.drop_first(), name)
    }
}

/// Whether one constraint holds of the value found for its field. A
/// missing or null value fails only `NonNull`; a constraint over the
/// wrong shape of value does not apply.
pub open spec fn check_ok(c: ConstraintKind, v: Option<ValueModel>) -> bool {
    match c {
        ConstraintKind::NonNull => v is Some && !(v->0 is Null),
        ConstraintKind::MinLength(m) => match v {
            Some(ValueModel::TextVal(s)) => s.len() >= m as nat,
            _ => true,
        },
        ConstraintKind::MaxLength(m) => match v {
            Some(ValueModel::TextVal(s)) => s.len() <= m as nat,
            _ => true,
        },
        ConstraintKind::EmailFormat => match v {
            Some(ValueModel::TextVal(s)) => is_email(s),
            _ => true,
        },
        ConstraintKind::MinValue(m) => match v {
            Some(ValueModel::IntVal(x)) => x >= m,
            _ => true,
        },
        ConstraintKind::MaxValue(m) => match v {
            Some(ValueModel::IntVal(x)) => x <= m,
            _ => true,
        },
    }
}

/// The failures owed to the first `i` rules, in rule order: one per
/// violated rule, none skipped, none short-circuited.
pub open spec fn spec_failures_upto(
    rules: Seq<RuleModel>,
    rec: Seq<FieldValueModel>,
    i: int,
) -> Seq<FailureModel>
    decreases i,
{
    if i <= 0 {
        Seq::empty()
    } else {
        spec_failures_upto(rules, rec, i - 1) + (if check_ok(
            rules[i - 1].constraint,
            lookup(rec, rules[i - 1].field),
        ) {
            Seq::empty()
        } else {
            seq![FailureModel { field: rules[i - 1].field, constraint: rules[i - 1].constraint }]
        })
    }
}

/// All failures of a candidate record under a rule list.
pub open spec fn spec_failures(rules: Seq<RuleModel>, rec: Seq<FieldValueModel>) -> Seq<
    FailureModel,
> {
    spec_failures_upto(rules, rec, rules.len() as int)
}

/// True exactly when two of the list's constraints are incompatible.
fn constraints_incompatible(cs: &Vec<ConstraintKind>) -> (r: bool)
    ensures
        r == incompatible(cs.deep_view()),
{
    let ghost cm = cs.deep_view();
    let mut i: usize = 0;
    while i < cs.len()
        invariant
            i <= cs@.len(),
            cm == cs.deep_view(),
            cm.len() == cs@.len(),
            forall|a: int, b: int|
                0 <= a < i && 0 <= b < cm.len() ==> !incompatible_pair(cm[a], cm[b]),
        decreases cs@.len() - i,
    {
        let mut j: usize = 0;
        while j < cs.len()
            invariant
                i < cs@.len(),
                j <= cs@.len(),
                cm == cs.deep_view(),
                cm.len() == cs@.len(),
                forall|b: int| 0 <= b < j ==> !incompatible_pair(cm[i as int], cm[b]),
            decreases cs@.len() - j,
        {
            let bad: bool = match (&cs[i], &cs[j]) {
                (ConstraintKind::MinLength(x), ConstraintKind::MaxLength(y)) => *y < *x,
                (ConstraintKind::MinValue(x), ConstraintKind::MaxValue(y)) => *y < *x,
                _ => false,
            };
            if bad {
                proof {
                    assert(cm[i as int] == cs@[i as int].deep_view());
                    assert(incompatible_pair(cm[i as int], cm[j as int]));
                }
                return true;
            }
            j = j + 1;
        }
        i = i + 1;
    }
    false
}

/// Compiles field descriptors to a validator: one rule per (field,
/// constraint) pair, descriptors in order, constraints of one field in
/// order. Fails exactly when some field carries incompatible
/// constraints; the first such field, in descriptor order, names the
/// error.
pub fn compile(descs: &Vec<FieldDescriptor>) -> (r: Result<Validator, CompileError>)
    ensures
        match r {
            Ok(v) => {
                &&& forall|k: int|
                    0 <= k < descs.deep_view().len() ==> !incompatible(
                        (#[trigger] descs.deep_view()[k]).constraints,
                    )
                &&& v.rules.deep_view() == spec_rules(descs.deep_view())
            },
            Err(e) => {
                &&& first_incompatible_from(descs.deep_view(), 0) is Some
                &&& e.deep_view() == CompileErrorModel::InvalidConstraintCombination(
                    first_incompatible_from(descs.deep_view(), 0)->0,
                )
            },
        },
{
    let ghost dm = descs.deep_view();
    let mut rules: Vec<Rule> = Vec::new();
    let mut i: usize = 0;
    while i < descs.len()
        invariant
            i <= descs@.len(),
            dm == descs.deep_view(),
            dm.len() == descs@.len(),
            forall|k: int| 0 <= k < i ==> !incompatible((#[trigger] dm[k]).constraints),
            rules.deep_view() == spec_rules_upto(dm, i as int),
        decreases descs@.len() - i,
    {
        let d = &descs[i];
        proof {
            assert(d.deep_view() == dm[i as int]);
        }
        if constraints_incompatible(&d.constraints) {
            proof {
                lemma_first_incompatible_found(dm, 0, i as int);
            }
            return Err(CompileError::InvalidConstraintCombination(d.name.clone()));
        }
        let mut j: usize = 0;
        while j < d.constraints.len()
            invariant
                i < descs@.len(),
                j <= d.constraints@.len(),
                dm == descs.deep_view(),
                dm.len() == descs@.len(),
                d == &descs@[i as int],
                d.deep_view() == dm[i as int],
                dm[i as int].constraints.len() == d.constraints@.len(),
                rules.deep_view() == spec_rules_upto(dm, i as int) + field_rules(
                    dm[i as int],
                ).take(j as int),
            decreases d.constraints@.len() - j,
        {
            let rule = Rule { field: d.name.clone(), constraint: d.constraints[j] };
            let ghost before = rules.deep_view();
            let ghost bvec = rules@;
            proof {
                assert(rule.deep_view() == field_rules(dm[i as int])[j as int]);
            }
            rules.push(rule);
            proof {
                lemma_deep_push(bvec, rules@, rule);
                assert(rules.deep_view() == before.push(field_rules(dm[i as int])[j as int]));
                assert(rules.deep_view() =~= spec_rules_upto(dm, i as int) + field_rules(
                    dm[i as int],
                ).take(j as int + 1));
            }
            j = j + 1;
        }
        proof {
            assert(field_rules(dm[i as int]).take(d.constraints@.len() as int) =~= field_rules(
                dm[i as int],
            ));
            assert(rules.deep_view() =~= spec_rules_upto(dm, i as int + 1));
        }
        i = i + 1;
    }
    proof {
        lemma_first_incompatible_none(dm, 0);
    }
    Ok(Validator { rules })
}

/// Finds the value a candidate record holds under `name`.
fn lookup_value<'a>(rec: &'a Vec<FieldValue>, name: &String) -> (r: Option<&'a Value>)
    ensures
        match r {
            Some(v) => lookup(rec.deep_view(), name@) == Some(v.deep_view()),
            None => lookup(rec.deep_view(), name@) is None,
        },
{
    let ghost rm = rec.deep_view();
    proof {
        assert(rm.skip(0) =~= rm);
    }
    let mut j: usize = 0;
    while j < rec.len()
        invariant
            j <= rec@.len(),
            rm == rec.deep_view(),
            rm.len() == rec@.len(),
            lookup(rm, name@) == lookup(rm.skip(j as int), name@),
        decreases rec@.len() - j,
    {
        if rec[j].field == *name {
            proof {
                assert(rm.skip(j as int)[0] == rm[j as int]);
                assert(lookup(rm.skip(j as int), name@) == Some(rm[j as int].value));
            }
            return Some(&rec[j].value);
        }
        proof {
            assert(rm.skip(j as int)[0] == rm[j as int]);
            assert(rm.skip(j as int).drop_first() =~= rm.skip(j as int + 1));
        }
        j = j + 1;
    }
    proof {
        assert(rm.skip(rm.len() as int).len() == 0);
    }
    None
}

/// Whether one rule holds of the candidate record.
fn rule_holds(rule: &Rule, rec: &Vec<FieldValue>) -> (r: bool)
    ensures
        r == check_ok(rule.constraint, lookup(rec.deep_view(), rule.field@)),
{
    let found = lookup_value(rec, &rule.field);
    match rule.constraint {
        ConstraintKind::NonNull => match found {
            Some(v) => !matches!(v, Value::Null),
            None => false,
        },
        ConstraintKind::MinLength(m) => match found {
            Some(Value::TextVal(s)) => s.as_str().unicode_len() >= m,
            _ => true,
        },
        ConstraintKind::MaxLength(m) => match found {
            Some(Value::TextVal(s)) => s.as_str().unicode_len() <= m,
            _ => true,
        },
        ConstraintKind::EmailFormat => match found {
            Some(Value::TextVal(s)) => email_ok(s),
            _ => true,
        },
        ConstraintKind::MinValue(m) => match found {
            Some(Value::IntVal(x)) => *x >= m,
            _ => true,
        },
        ConstraintKind::MaxValue(m) => match found {
            Some(Value::IntVal(x)) => *x <= m,
            _ => true,
        },
    }
}

impl Validator {
    /// Checks a candidate record against every rule, in rule order,
    /// and reports one failure per violated rule — all of them, never
    /// short-circuited.
    pub fn validate(&self, record: &Vec<FieldValue>) -> (r: Vec<ValidationFailure>)
        ensures
            r.deep_view() == spec_failures(self.rules.deep_view(), record.deep_view()),
    {
        let ghost rm = self.rules.deep_view();
        let ghost cm = record.deep_view();
        let mut failures: Vec<ValidationFailure> = Vec::new();
        let mut i: usize = 0;
        while i < self.rules.len()
            invariant
                i <= self.rules@.len(),
                rm == self.rules.deep_view(),
                cm == record.deep_view(),
                rm.len() == self.rules@.len(),
                failures.deep_view() == spec_failures_upto(rm, cm, i as int),
            decreases self.rules@.len() - i,
        {
            let rule = &self.rules[i];
            proof {
                assert(rule.deep_view() == rm[i as int]);
            }
            let ok = rule_holds(rule, record);
            if !ok {
                let f = ValidationFailure {
                    field: rule.field.clone(),
                    constraint: rule.constraint,
                };
                let ghost before = failures.deep_view();
                let ghost bvec = failures@;
                failures.push(f);
                proof {
                    lemma_deep_push(bvec, failures@, f);
                    assert(failures.deep_view() == before.push(
                        FailureModel { field: rm[i as int].field, constraint: rm[i as int].constraint },
                    ));
                    assert(failures.deep_view() =~= spec_failures_upto(rm, cm, i as int + 1));
                }
            } else {
                proof {
                    assert(spec_failures_upto(rm, cm, i as int + 1) =~= spec_failures_upto(
                        rm,
                        cm,
                        i as int,
                    ));
                }
            }
            i = i + 1;
        }
        failures
    }
}

} // verus!
