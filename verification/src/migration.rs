//! Migration representation and the migration generator.
//!
//! A migration is a versioned, reversible list of schema-change steps.
//! `generate` diffs an entity's previously recorded field descriptors
//! against its current ones and emits the ordered up steps together
//! with their exact structural inverse, in reverse order, as down steps.

use vstd::prelude::*;

verus! {

use crate::fields::FieldDescriptor;
use crate::fields::FieldModel;
use crate::fields::SemanticType;

/// One atomic DDL-level change. Drop variants carry what they remove so
/// that every step has a structural inverse.
pub enum SchemaStep {
    CreateTable { entity: String, columns: Vec<FieldDescriptor> },
    DropTable { entity: String, columns: Vec<FieldDescriptor> },
    AddColumn { entity: String, column: FieldDescriptor },
    DropColumn { entity: String, column: FieldDescriptor },
    AlterColumn {
        entity: String,
        name: String,
        old_type: SemanticType,
        old_nullable: bool,
        new_type: SemanticType,
        new_nullable: bool,
    },
}

/// A versioned, reversible set of schema-change steps.
pub struct Migration {
    pub version: u64,
    pub up_steps: Vec<SchemaStep>,
    pub down_steps: Vec<SchemaStep>,
}

/// Generation failures.
#[derive(PartialEq, Eq, Structural, Debug)]
pub enum MigrationError {
    VersionConflict { version: u64, last_version: u64 },
}

pub ghost enum StepModel {
    CreateTable { entity: Seq<char>, columns: Seq<FieldModel> },
    DropTable { entity: Seq<char>, columns: Seq<FieldModel> },
    AddColumn { entity: Seq<char>, column: FieldModel },
    DropColumn { entity: Seq<char>, column: FieldModel },
    AlterColumn {
        entity: Seq<char>,
        name: Seq<char>,
        old_type: SemanticType,
        old_nullable: bool,
        new_type: SemanticType,
        new_nullable: bool,
    },
}

pub ghost struct MigrationModel {
    pub version: u64,
    pub up_steps: Seq<StepModel>,
    pub down_steps: Seq<StepModel>,
}

impl DeepView for SchemaStep {
    type V = StepModel;

    open spec fn deep_view(&self) -> StepModel {
        match self {
            SchemaStep::CreateTable { entity, columns } => StepModel::CreateTable {
                entity: entity@,
                columns: columns.deep_view(),
            },
            SchemaStep::DropTable { entity, columns } => StepModel::DropTable {
                entity: entity@,
                columns: columns.deep_view(),
            },
            SchemaStep::AddColumn { entity, column } => StepModel::AddColumn {
                entity: entity@,
                column: column.deep_view(),
            },
            SchemaStep::DropColumn { entity, column } => StepModel::DropColumn {
                entity: entity@,
                column: column.deep_view(),
            },
            SchemaStep::AlterColumn {
                entity,
                name,
                old_type,
                old_nullable,
                new_type,
                new_nullable,
            } => StepModel::AlterColumn {
                entity: entity@,
                name: name@,
                old_type: *old_type,
                old_nullable: *old_nullable,
                new_type: *new_type,
                new_nullable: *new_nullable,
            },
        }
    }
}

impl DeepView for Migration {
    type V = MigrationModel;

    open spec fn deep_view(&self) -> MigrationModel {
        MigrationModel {
            version: self.version,
            up_steps: self.up_steps.deep_view(),
            down_steps: self.down_steps.deep_view(),
        }
    }
}

/// The structural inverse of one step: create and drop swap, add and
/// drop of a column swap, and altering a column swaps old and new type.
pub open spec fn spec_invert(s: StepModel) -> StepModel {
    match s {
        StepModel::CreateTable { entity, columns } => StepModel::DropTable { entity, columns },
        StepModel::DropTable { entity, columns } => StepModel::CreateTable { entity, columns },
        StepModel::AddColumn { entity, column } => StepModel::DropColumn { entity, column },
        StepModel::DropColumn { entity, column } => StepModel::AddColumn { entity, column },
        StepModel::AlterColumn {
            entity,
            name,
            old_type,
            old_nullable,
            new_type,
            new_nullable,
        } => StepModel::AlterColumn {
            entity,
            name,
            old_type: new_type,
            old_nullable: new_nullable,
            new_type: old_type,
            new_nullable: old_nullable,
        },
    }
}

/// The down steps owed to a list of up steps: each inverted, in reverse
/// order.
pub open spec fn spec_inverse_steps(up: Seq<StepModel>) -> Seq<StepModel> {
    Seq::new(up.len(), |i: int| spec_invert(up[up.len() - 1 - i]))
}

/// A migration is well formed when its down steps are exactly the
/// inverse of its up steps.
pub open spec fn wf_migration(m: MigrationModel) -> bool {
    m.down_steps == spec_inverse_steps(m.up_steps)
}

/// The first field of `ds` named `name`, if any; scanning order decides.
pub open spec fn field_named(ds: Seq<FieldModel>, name: Seq<char>) -> Option<FieldModel>
    decreases ds.len(),
{
    if ds.len() == 0 {
        None
    } else if ds[0].name == name {
        Some(ds[0])
    } else {
        field_named(ds.drop_first(), name)
    }
}

/// The up step owed to one current field `f`: a fresh field is added,
/// a field whose semantic type or nullability changed is altered, and
/// an unchanged field contributes nothing.
pub open spec fn step_for_current(
    entity: Seq<char>,
    prev: Seq<FieldModel>,
    f: FieldModel,
) -> Option<StepModel> {
    match field_named(prev, f.name) {
        None => Some(StepModel::AddColumn { entity, column: f }),
        Some(old_f) => if old_f.semantic_type != f.semantic_type || old_f.nullable != f.nullable {
            Some(
                StepModel::AlterColumn {
                    entity,
                    name: f.name,
                    old_type: old_f.semantic_type,
                    old_nullable: old_f.nullable,
                    new_type: f.semantic_type,
                    new_nullable: f.nullable,
                },
            )
        } else {
            None
        },
    }
}

/// The up step owed to one previous field `f`: dropped when no current
/// field carries its name.
pub open spec fn step_for_previous(
    entity: Seq<char>,
    curr: Seq<FieldModel>,
    f: FieldModel,
) -> Option<StepModel> {
    if field_named(curr, f.name) is None {
        Some(StepModel::DropColumn { entity, column: f })
    } else {
        None
    }
}

pub open spec fn opt_step(o: Option<StepModel>) -> Seq<StepModel> {
    match o {
        None => Seq::empty(),
        Some(s) => seq![s],
    }
}

/// The add/alter steps owed to the first `i` current fields, in order.
pub open spec fn current_steps_upto(
    entity: Seq<char>,
    prev: Seq<FieldModel>,
    curr: Seq<FieldModel>,
    i: int,
) -> Seq<StepModel>
    decreases i,
{
    if i <= 0 {
        Seq::empty()
    } else {
        current_steps_upto(entity, prev, curr, i - 1) + opt_step(
            step_for_current(entity, prev, curr[i - 1]),
        )
    }
}

/// The drop steps owed to the first `i` previous fields, in order.
pub open spec fn previous_steps_upto(
    entity: Seq<char>,
    prev: Seq<FieldModel>,
    curr: Seq<FieldModel>,
    i: int,
) -> Seq<StepModel>
    decreases i,
{
    if i <= 0 {
        Seq::empty()
    } else {
        previous_steps_upto(entity, prev, curr, i - 1) + opt_step(
            step_for_previous(entity, curr, prev[i - 1]),
        )
    }
}

/// All up steps of the diff: with no previous descriptors a single
/// create-table step over every current field, in declaration order;
/// otherwise adds and alters in current order, then drops in previous
/// order.
pub open spec fn spec_up_steps(
    entity: Seq<char>,
    previous: Option<Seq<FieldModel>>,
    curr: Seq<FieldModel>,
) -> Seq<StepModel> {
    match previous {
        None => seq![StepModel::CreateTable { entity, columns: curr }],
        Some(prev) => current_steps_upto(entity, prev, curr, curr.len() as int)
            + previous_steps_upto(entity, prev, curr, prev.len() as int),
    }
}

/// The whole migration owed to a diff, at a given version.
pub open spec fn spec_generate(
    entity: Seq<char>,
    previous: Option<Seq<FieldModel>>,
    curr: Seq<FieldModel>,
    version: u64,
) -> MigrationModel {
    let up = spec_up_steps(entity, previous, curr);
    MigrationModel { version, up_steps: up, down_steps: spec_inverse_steps(up) }
}

/// Copies a descriptor list, preserving its whole model.
pub fn clone_descs(ds: &Vec<FieldDescriptor>) -> (r: Vec<FieldDescriptor>)
    ensures
        r.deep_view() == ds.deep_view(),
{
    let r = ds.clone();
    proof {
        assert forall|i: int| 0 <= i < ds@.len() implies r.deep_view()[i] == ds.deep_view()[i] by {
            assert(cloned(ds[i], r[i]));
        }
        assert(r.deep_view() =~= ds.deep_view());
    }
    r
}

impl SchemaStep {
    /// Builds the structural inverse of this step.
    pub fn invert(&self) -> (r: SchemaStep)
        ensures
            r.deep_view() == spec_invert(self.deep_view()),
    {
        match self {
            SchemaStep::CreateTable { entity, columns } => SchemaStep::DropTable {
                entity: entity.clone(),
                columns: clone_descs(columns),
            },
            SchemaStep::DropTable { entity, columns } => SchemaStep::CreateTable {
                entity: entity.clone(),
                columns: clone_descs(columns),
            },
            SchemaStep::AddColumn { entity, column } => SchemaStep::DropColumn {
                entity: entity.clone(),
                column: column.clone(),
            },
            SchemaStep::DropColumn { entity, column } => SchemaStep::AddColumn {
                entity: entity.clone(),
                column: column.clone(),
            },
            SchemaStep::AlterColumn {
                entity,
                name,
                old_type,
                old_nullable,
                new_type,
                new_nullable,
            } => SchemaStep::AlterColumn {
                entity: entity.clone(),
                name: name.clone(),
                old_type: *new_type,
                old_nullable: *new_nullable,
                new_type: *old_type,
                new_nullable: *old_nullable,
            },
        }
    }
}

/// Finds the index of the first descriptor named `name`, relating the
/// answer to `field_named`.
pub fn find_field(ds: &Vec<FieldDescriptor>, name: &String) -> (r: Option<usize>)
    ensures
        match r {
            Some(k) => {
                &&& k < ds@.len()
                &&& ds.deep_view()[k as int].name == name@
                &&& field_named(ds.deep_view(), name@) == Some(ds.deep_view()[k as int])
            },
            None => field_named(ds.deep_view(), name@) is None,
        },
{
    let ghost dm = ds.deep_view();
    proof {
        assert(dm.skip(0) =~= dm);
    }
    let mut j: usize = 0;
    while j < ds.len()
        invariant
            j <= ds.len(),
            dm == ds.deep_view(),
            dm.len() == ds@.len(),
            field_named(dm, name@) == field_named(dm.skip(j as int), name@),
        decreases ds.len() - j,
    {
        if ds[j].name == *name {
            proof {
                assert(dm.skip(j as int)[0] == dm[j as int]);
                assert(field_named(dm.skip(j as int), name@) == Some(dm[j as int]));
            }
            return Some(j);
        }
        proof {
            assert(dm.skip(j as int)[0] == dm[j as int]);
            assert(dm.skip(j as int).drop_first() =~= dm.skip(j as int + 1));
        }
        j = j + 1;
    }
    proof {
        assert(dm.skip(ds@.len() as int).len() == 0);
    }
    None
}

/// Diffs the previously recorded descriptors of `entity` against the
/// current ones and returns the migration carrying the owed up steps
/// and their exact inverse as down steps, stamped `version`. Fails with
/// a version conflict exactly when `version` does not exceed
/// `last_version`.
pub fn generate(
    entity: &String,
    previous: &Option<Vec<FieldDescriptor>>,
    current: &Vec<FieldDescriptor>,
    version: u64,
    last_version: Option<u64>,
) -> (r: Result<Migration, MigrationError>)
    ensures
        match r {
            Ok(m) => {
                &&& (last_version is None || version > last_version->0)
                &&& m.deep_view() == spec_generate(
                    entity@,
                    previous.deep_view(),
                    current.deep_view(),
                    version,
                )
                &&& wf_migration(m.deep_view())
            },
            Err(e) => {
                &&& last_version is Some
                &&& version <= last_version->0
                &&& e == (MigrationError::VersionConflict {
                    version,
                    last_version: last_version->0,
                })
            },
        },
{
    if let Some(lv) = last_version {
        if version <= lv {
            return Err(MigrationError::VersionConflict { version, last_version: lv });
        }
    }
    let ghost em = entity@;
    let ghost cm = current.deep_view();
    let mut up: Vec<SchemaStep> = Vec::new();
    match previous {
        None => {
            up.push(
                SchemaStep::CreateTable {
                    entity: entity.clone(),
                    columns: clone_descs(current),
                },
            );
            proof {
                assert(up.deep_view() =~= spec_up_steps(em, None, cm));
            }
        },
        Some(prev) => {
            let ghost pm = prev.deep_view();
            let mut i: usize = 0;
            while i < current.len()
                invariant
                    i <= current.len(),
                    em == entity@,
                    cm == current.deep_view(),
                    pm == prev.deep_view(),
                    cm.len() == current@.len(),
                    up.deep_view() =~= current_steps_upto(em, pm, cm, i as int),
                decreases current.len() - i,
            {
                let ghost up_before = up.deep_view();
                let f = &current[i];
                match find_field(prev, &f.name) {
                    None => {
                        up.push(
                            SchemaStep::AddColumn { entity: entity.clone(), column: f.clone() },
                        );
                    },
                    Some(k) => {
                        let old_f = &prev[k];
                        if !(old_f.semantic_type == f.semantic_type) || !(old_f.nullable
                            == f.nullable) {
                            up.push(
                                SchemaStep::AlterColumn {
                                    entity: entity.clone(),
                                    name: f.name.clone(),
                                    old_type: old_f.semantic_type,
                                    old_nullable: old_f.nullable,
                                    new_type: f.semantic_type,
                                    new_nullable: f.nullable,
                                },
                            );
                        }
                    },
                }
                proof {
                    assert(cm[i as int] == f.deep_view());
                    assert(up.deep_view() =~= up_before + opt_step(
                        step_for_current(em, pm, cm[i as int]),
                    ));
                    assert(up.deep_view() =~= current_steps_upto(em, pm, cm, i as int + 1));
                }
                i = i + 1;
            }
            let ghost all_current = current_steps_upto(em, pm, cm, cm.len() as int);
            assert(up.deep_view() =~= all_current);
            let mut h: usize = 0;
            while h < prev.len()
                invariant
                    h <= prev.len(),
                    em == entity@,
                    cm == current.deep_view(),
                    pm == prev.deep_view(),
                    pm.len() == prev@.len(),
                    all_current == current_steps_upto(em, pm, cm, cm.len() as int),
                    up.deep_view() =~= all_current + previous_steps_upto(em, pm, cm, h as int),
                decreases prev.len() - h,
            {
                let ghost up_before = up.deep_view();
                let pf = &prev[h];
                match find_field(current, &pf.name) {
                    None => {
                        up.push(
                            SchemaStep::DropColumn { entity: entity.clone(), column: pf.clone() },
                        );
                    },
                    Some(_k) => {},
                }
                proof {
                    assert(pm[h as int] == pf.deep_view());
                    assert(up.deep_view() =~= up_before + opt_step(
                        step_for_previous(em, cm, pm[h as int]),
                    ));
                    assert(up.deep_view() =~= all_current + previous_steps_upto(
                        em,
                        pm,
                        cm,
                        h as int + 1,
                    ));
                }
                h = h + 1;
            }
            proof {
                assert(up.deep_view() =~= spec_up_steps(em, previous.deep_view(), cm));
            }
        },
    }
    let mut down: Vec<SchemaStep> = Vec::new();
    let n = up.len();
    let mut k: usize = 0;
    while k < n
        invariant
            k <= n,
            n == up@.len(),
            up.deep_view() == spec_up_steps(em, previous.deep_view(), cm),
            down.deep_view() =~= spec_inverse_steps(up.deep_view()).subrange(0, k as int),
        decreases n - k,
    {
        let s = up[n - 1 - k].invert();
        let ghost prev_down = down.deep_view();
        let ghost prev_vec = down@;
        down.push(s);
        proof {
            let ghost um = up.deep_view();
            assert(down@ == prev_vec.push(s));
            assert(prev_down.len() == k as int);
            assert(prev_vec.len() == k as int);
            assert(s.deep_view() == spec_invert(um[n - 1 - k]));
            assert forall|t: int| 0 <= t < k + 1 implies down.deep_view()[t]
                == spec_inverse_steps(um)[t] by {
                assert(down.deep_view()[t] == down@[t].deep_view());
                if t < k {
                    assert(down@[t] == prev_vec[t]);
                    assert(prev_down[t] == prev_vec[t].deep_view());
                    assert(prev_down[t] == spec_inverse_steps(um).subrange(0, k as int)[t]);
                } else {
                    assert(down@[t] == s);
                }
            }
            assert(down.deep_view() =~= spec_inverse_steps(um).subrange(0, k as int + 1));
        }
        k = k + 1;
    }
    proof {
        assert(down.deep_view() =~= spec_inverse_steps(up.deep_view()));
    }
    Ok(Migration { version, up_steps: up, down_steps: down })
}

impl Clone for SchemaStep {
    /// A step clone preserves the whole step model.
    fn clone(&self) -> (r: Self)
        ensures
            r.deep_view() == self.deep_view(),
    {
        match self {
            SchemaStep::CreateTable { entity, columns } => SchemaStep::CreateTable {
                entity: entity.clone(),
                columns: clone_descs(columns),
            },
            SchemaStep::DropTable { entity, columns } => SchemaStep::DropTable {
                entity: entity.clone(),
                columns: clone_descs(columns),
            },
            SchemaStep::AddColumn { entity, column } => SchemaStep::AddColumn {
                entity: entity.clone(),
                column: column.clone(),
            },
            SchemaStep::DropColumn { entity, column } => SchemaStep::DropColumn {
                entity: entity.clone(),
                column: column.clone(),
            },
            SchemaStep::AlterColumn {
                entity,
                name,
                old_type,
                old_nullable,
                new_type,
                new_nullable,
            } => SchemaStep::AlterColumn {
                entity: entity.clone(),
                name: name.clone(),
                old_type: *old_type,
                old_nullable: *old_nullable,
                new_type: *new_type,
                new_nullable: *new_nullable,
            },
        }
    }
}

/// Copies a step list, preserving its whole model.
pub fn clone_steps(v: &Vec<SchemaStep>) -> (r: Vec<SchemaStep>)
    ensures
        r.deep_view() == v.deep_view(),
{
    let r = v.clone();
    proof {
        assert forall|i: int| 0 <= i < v@.len() implies r.deep_view()[i] == v.deep_view()[i] by {
            assert(cloned(v[i], r[i]));
        }
        assert(r.deep_view() =~= v.deep_view());
    }
    r
}

impl Clone for Migration {
    /// A migration clone preserves the whole migration model.
    fn clone(&self) -> (r: Self)
        ensures
            r.deep_view() == self.deep_view(),
    {
        Migration {
            version: self.version,
            up_steps: clone_steps(&self.up_steps),
            down_steps: clone_steps(&self.down_steps),
        }
    }
}

} // verus!
