//! The storage-schema model, migration ledger and executor.
//!
//! The engine owns an in-memory storage schema (ordered tables of
//! ordered columns) and the append-only ledger of applied migration
//! versions. Contracts speak of the schema through a map view: table
//! name to column map, column name to descriptor. `apply` runs a
//! migration's up steps as one atomic unit, in ascending version order,
//! exactly once; `rollback` runs the down steps and removes the ledger
//! entry only on success.

use vstd::prelude::*;

verus! {

use vstd::map::*;
use crate::fields::FieldDescriptor;
use crate::fields::FieldModel;
use crate::fields::SemanticType;
use crate::fields::ConstraintKind;
use crate::migration::Migration;
use crate::migration::MigrationModel;
use crate::migration::SchemaStep;
use crate::migration::StepModel;
use crate::migration::spec_invert;
use crate::migration::spec_inverse_steps;
use crate::migration::wf_migration;
use crate::migration::clone_descs;

/// One storage table: a name and its columns, in creation order.
pub struct Table {
    pub name: String,
    pub columns: Vec<FieldDescriptor>,
}

/// One ledger record: a migration version and when it was applied.
#[derive(Clone, Copy, PartialEq, Eq, Structural, Debug)]
pub struct LedgerEntry {
    pub version: u64,
    pub applied_at: u64,
}

/// The storage engine model: schema plus ledger.
pub struct Engine {
    pub tables: Vec<Table>,
    pub ledger: Vec<LedgerEntry>,
}

/// Failures of applying or rolling back migrations.
#[derive(Clone, Copy, PartialEq, Eq, Structural, Debug)]
pub enum ApplyError {
    VersionConflict { version: u64 },
    StepFailed { version: u64, step_index: usize },
    LedgerCorruption { version: u64 },
}

pub ghost struct TableModel {
    pub name: Seq<char>,
    pub columns: Seq<FieldModel>,
}

impl DeepView for Table {
    type V = TableModel;

    open spec fn deep_view(&self) -> TableModel {
        TableModel { name: self.name@, columns: self.columns.deep_view() }
    }
}

/// No two fields of the list share a name.
pub open spec fn unique_names(ds: Seq<FieldModel>) -> bool {
    forall|i: int, j: int| 0 <= i < j < ds.len() ==> ds[i].name != ds[j].name
}

/// No two tables share a name, and within each table no two columns do.
pub open spec fn wf_tables(ts: Seq<TableModel>) -> bool {
    &&& forall|i: int, j: int| 0 <= i < j < ts.len() ==> ts[i].name != ts[j].name
    &&& forall|i: int| 0 <= i < ts.len() ==> unique_names(#[trigger] ts[i].columns)
}

/// The column map of one table: column name to descriptor.
pub open spec fn cols_map(cols: Seq<FieldModel>) -> Map<Seq<char>, FieldModel>
    decreases cols.len(),
{
    if cols.len() == 0 {
        Map::empty()
    } else {
        cols_map(cols.drop_last()).insert(cols.last().name, cols.last())
    }
}

/// The schema map of the whole engine: table name to column map.
pub open spec fn tables_to_map(ts: Seq<TableModel>) -> Map<Seq<char>, Map<Seq<char>, FieldModel>>
    decreases ts.len(),
{
    if ts.len() == 0 {
        Map::empty()
    } else {
        tables_to_map(ts.drop_last()).insert(ts.last().name, cols_map(ts.last().columns))
    }
}

pub proof fn lemma_cols_map_dom(cols: Seq<FieldModel>)
    ensures
        forall|n: Seq<char>|
            cols_map(cols).contains_key(n) <==> exists|i: int|
                0 <= i < cols.len() && cols[i].name == n,
    decreases cols.len(),
{
    if cols.len() > 0 {
        lemma_cols_map_dom(cols.drop_last());
        assert forall|n: Seq<char>| cols_map(cols).contains_key(n) implies exists|i: int|
            0 <= i < cols.len() && cols[i].name == n by {
            if n == cols.last().name {
                assert(cols[cols.len() - 1].name == n);
            } else {
                assert(cols_map(cols.drop_last()).contains_key(n));
                let i = choose|i: int| 0 <= i < cols.drop_last().len() && cols.drop_last()[i].name
                    == n;
                assert(cols.drop_last()[i] == cols[i]);
                assert(cols[i].name == n);
            }
        }
        assert forall|n: Seq<char>|
            (exists|i: int| 0 <= i < cols.len() && cols[i].name == n) implies cols_map(
            cols,
        ).contains_key(n) by {
            let i = choose|i: int| 0 <= i < cols.len() && cols[i].name == n;
            if i < cols.len() - 1 {
                assert(cols.drop_last()[i] == cols[i]);
                assert(cols.drop_last()[i].name == n);
                assert(exists|k: int|
                    0 <= k < cols.drop_last().len() && cols.drop_last()[k].name == n);
                assert(cols_map(cols.drop_last()).contains_key(n));
            } else {
                assert(cols.last().name == n);
            }
        }
    }
}

pub proof fn lemma_cols_map_at(cols: Seq<FieldModel>, i: int)
    requires
        unique_names(cols),
        0 <= i < cols.len(),
    ensures
        cols_map(cols).contains_key(cols[i].name),
        cols_map(cols)[cols[i].name] == cols[i],
    decreases cols.len(),
{
    lemma_cols_map_dom(cols);
    if i < cols.len() - 1 {
        assert(unique_names(cols.drop_last()));
        assert(cols.drop_last()[i] == cols[i]);
        lemma_cols_map_at(cols.drop_last(), i);
        assert(cols[i].name != cols.last().name);
    }
}

pub proof fn lemma_cols_map_update(cols: Seq<FieldModel>, i: int, f: FieldModel)
    requires
        unique_names(cols),
        0 <= i < cols.len(),
        f.name == cols[i].name,
    ensures
        cols_map(cols.update(i, f)) == cols_map(cols).insert(f.name, f),
    decreases cols.len(),
{
    let upd = cols.update(i, f);
    if i == cols.len() - 1 {
        assert(upd.drop_last() =~= cols.drop_last());
        assert(upd.last() == f);
        assert(cols_map(upd) == cols_map(cols.drop_last()).insert(f.name, f));
        assert(cols_map(cols.drop_last()).insert(f.name, f) =~= cols_map(cols).insert(f.name, f));
    } else {
        assert(upd.drop_last() =~= cols.drop_last().update(i, f));
        assert(upd.last() == cols.last());
        assert(unique_names(cols.drop_last()));
        assert(cols.drop_last()[i] == cols[i]);
        lemma_cols_map_update(cols.drop_last(), i, f);
        assert(cols[i].name != cols.last().name);
        assert(cols_map(cols.drop_last()).insert(f.name, f).insert(
            cols.last().name,
            cols.last(),
        ) =~= cols_map(cols.drop_last()).insert(cols.last().name, cols.last()).insert(f.name, f));
    }
}

pub proof fn lemma_cols_map_remove(cols: Seq<FieldModel>, i: int)
    requires
        unique_names(cols),
        0 <= i < cols.len(),
    ensures
        cols_map(cols.remove(i)) == cols_map(cols).remove(cols[i].name),
    decreases cols.len(),
{
    let rem = cols.remove(i);
    lemma_cols_map_dom(cols.drop_last());
    if i == cols.len() - 1 {
        assert(rem =~= cols.drop_last());
        assert(!cols_map(cols.drop_last()).contains_key(cols.last().name));
        assert(cols_map(cols.drop_last()).insert(cols.last().name, cols.last()).remove(
            cols.last().name,
        ) =~= cols_map(cols.drop_last()));
    } else {
        assert(rem.drop_last() =~= cols.drop_last().remove(i));
        assert(rem.last() == cols.last());
        assert(unique_names(cols.drop_last()));
        assert(cols.drop_last()[i] == cols[i]);
        lemma_cols_map_remove(cols.drop_last(), i);
        assert(cols[i].name != cols.last().name);
        assert(cols_map(cols.drop_last()).remove(cols[i].name).insert(
            cols.last().name,
            cols.last(),
        ) =~= cols_map(cols.drop_last()).insert(cols.last().name, cols.last()).remove(
            cols[i].name,
        ));
    }
}

pub proof fn lemma_tables_map_dom(ts: Seq<TableModel>)
    ensures
        forall|n: Seq<char>|
            tables_to_map(ts).contains_key(n) <==> exists|i: int|
                0 <= i < ts.len() && ts[i].name == n,
    decreases ts.len(),
{
    if ts.len() > 0 {
        lemma_tables_map_dom(ts.drop_last());
        assert forall|n: Seq<char>| tables_to_map(ts).contains_key(n) implies exists|i: int|
            0 <= i < ts.len() && ts[i].name == n by {
            if n == ts.last().name {
                assert(ts[ts.len() - 1].name == n);
            } else {
                assert(tables_to_map(ts.drop_last()).contains_key(n));
                let i = choose|i: int| 0 <= i < ts.drop_last().len() && ts.drop_last()[i].name
                    == n;
                assert(ts.drop_last()[i] == ts[i]);
                assert(ts[i].name == n);
            }
        }
        assert forall|n: Seq<char>|
            (exists|i: int| 0 <= i < ts.len() && ts[i].name == n) implies tables_to_map(
            ts,
        ).contains_key(n) by {
            let i = choose|i: int| 0 <= i < ts.len() && ts[i].name == n;
            if i < ts.len() - 1 {
                assert(ts.drop_last()[i] == ts[i]);
                assert(ts.drop_last()[i].name == n);
                assert(exists|k: int|
                    0 <= k < ts.drop_last().len() && ts.drop_last()[k].name == n);
                assert(tables_to_map(ts.drop_last()).contains_key(n));
            } else {
                assert(ts.last().name == n);
            }
        }
    }
}

pub proof fn lemma_tables_map_at(ts: Seq<TableModel>, i: int)
    requires
        forall|a: int, b: int| 0 <= a < b < ts.len() ==> ts[a].name != ts[b].name,
        0 <= i < ts.len(),
    ensures
        tables_to_map(ts).contains_key(ts[i].name),
        tables_to_map(ts)[ts[i].name] == cols_map(ts[i].columns),
    decreases ts.len(),
{
    lemma_tables_map_dom(ts);
    if i < ts.len() - 1 {
        assert(ts.drop_last()[i] == ts[i]);
        lemma_tables_map_at(ts.drop_last(), i);
        assert(ts[i].name != ts.last().name);
    }
}

pub proof fn lemma_tables_map_update(ts: Seq<TableModel>, i: int, t: TableModel)
    requires
        forall|a: int, b: int| 0 <= a < b < ts.len() ==> ts[a].name != ts[b].name,
        0 <= i < ts.len(),
        t.name == ts[i].name,
    ensures
        tables_to_map(ts.update(i, t)) == tables_to_map(ts).insert(t.name, cols_map(t.columns)),
    decreases ts.len(),
{
    let upd = ts.update(i, t);
    if i == ts.len() - 1 {
        assert(upd.drop_last() =~= ts.drop_last());
        assert(upd.last() == t);
        assert(tables_to_map(ts.drop_last()).insert(t.name, cols_map(t.columns))
            =~= tables_to_map(ts).insert(t.name, cols_map(t.columns)));
    } else {
        assert(upd.drop_last() =~= ts.drop_last().update(i, t));
        assert(upd.last() == ts.last());
        assert(ts.drop_last()[i] == ts[i]);
        lemma_tables_map_update(ts.drop_last(), i, t);
        assert(ts[i].name != ts.last().name);
        assert(tables_to_map(ts.drop_last()).insert(t.name, cols_map(t.columns)).insert(
            ts.last().name,
            cols_map(ts.last().columns),
        ) =~= tables_to_map(ts.drop_last()).insert(ts.last().name, cols_map(ts.last().columns))
            .insert(t.name, cols_map(t.columns)));
    }
}

pub proof fn lemma_tables_map_remove(ts: Seq<TableModel>, i: int)
    requires
        forall|a: int, b: int| 0 <= a < b < ts.len() ==> ts[a].name != ts[b].name,
        0 <= i < ts.len(),
    ensures
        tables_to_map(ts.remove(i)) == tables_to_map(ts).remove(ts[i].name),
    decreases ts.len(),
{
    let rem = ts.remove(i);
    lemma_tables_map_dom(ts.drop_last());
    if i == ts.len() - 1 {
        assert(rem =~= ts.drop_last());
        assert(!tables_to_map(ts.drop_last()).contains_key(ts.last().name));
        assert(tables_to_map(ts.drop_last()).insert(ts.last().name, cols_map(ts.last().columns))
            .remove(ts.last().name) =~= tables_to_map(ts.drop_last()));
    } else {
        assert(rem.drop_last() =~= ts.drop_last().remove(i));
        assert(rem.last() == ts.last());
        assert(ts.drop_last()[i] == ts[i]);
        lemma_tables_map_remove(ts.drop_last(), i);
        assert(ts[i].name != ts.last().name);
        assert(tables_to_map(ts.drop_last()).remove(ts[i].name).insert(
            ts.last().name,
            cols_map(ts.last().columns),
        ) =~= tables_to_map(ts.drop_last()).insert(ts.last().name, cols_map(ts.last().columns))
            .remove(ts[i].name));
    }
}

/// `f` with its semantic type and nullability replaced.
pub open spec fn with_type(f: FieldModel, t: SemanticType, nullable: bool) -> FieldModel {
    FieldModel {
        name: f.name,
        semantic_type: t,
        nullable,
        default_value: f.default_value,
        constraints: f.constraints,
    }
}

/// What one step does to a schema map, or `None` when its precondition
/// does not hold there.
pub open spec fn spec_apply_step(
    s: Map<Seq<char>, Map<Seq<char>, FieldModel>>,
    st: StepModel,
) -> Option<Map<Seq<char>, Map<Seq<char>, FieldModel>>> {
    match st {
        StepModel::CreateTable { entity, columns } => {
            if !s.contains_key(entity) && unique_names(columns) {
                Some(s.insert(entity, cols_map(columns)))
            } else {
                None
            }
        },
        StepModel::DropTable { entity, columns } => {
            if s.contains_key(entity) && s[entity] == cols_map(columns) && unique_names(columns) {
                Some(s.remove(entity))
            } else {
                None
            }
        },
        StepModel::AddColumn { entity, column } => {
            if s.contains_key(entity) && !s[entity].contains_key(column.name) {
                Some(s.insert(entity, s[entity].insert(column.name, column)))
            } else {
                None
            }
        },
        StepModel::DropColumn { entity, column } => {
            if s.contains_key(entity) && s[entity].contains_key(column.name) && s[entity][column.name]
                == column {
                Some(s.insert(entity, s[entity].remove(column.name)))
            } else {
                None
            }
        },
        StepModel::AlterColumn { entity, name, old_type, old_nullable, new_type, new_nullable } => {
            if s.contains_key(entity) && s[entity].contains_key(name)
                && s[entity][name].semantic_type == old_type && s[entity][name].nullable
                == old_nullable {
                Some(
                    s.insert(
                        entity,
                        s[entity].insert(name, with_type(s[entity][name], new_type, new_nullable)),
                    ),
                )
            } else {
                None
            }
        },
    }
}

/// What an ordered list of steps does to a schema map: all succeed in
/// order, or the whole application is `None`.
pub open spec fn spec_apply_steps(
    s: Map<Seq<char>, Map<Seq<char>, FieldModel>>,
    steps: Seq<StepModel>,
) -> Option<Map<Seq<char>, Map<Seq<char>, FieldModel>>>
    decreases steps.len(),
{
    if steps.len() == 0 {
        Some(s)
    } else {
        match spec_apply_step(s, steps[0]) {
            None => None,
            Some(s2) => spec_apply_steps(s2, steps.drop_first()),
        }
    }
}

/// A step that applies can be undone: its structural inverse applies to
/// the result and restores the schema exactly.
pub proof fn lemma_step_inverse(
    s: Map<Seq<char>, Map<Seq<char>, FieldModel>>,
    st: StepModel,
    s2: Map<Seq<char>, Map<Seq<char>, FieldModel>>,
)
    requires
        spec_apply_step(s, st) == Some(s2),
    ensures
        spec_apply_step(s2, spec_invert(st)) == Some(s),
{
    match st {
        StepModel::CreateTable { entity, columns } => {
            assert(s2 == s.insert(entity, cols_map(columns)));
            assert(s2[entity] == cols_map(columns));
            assert(s2.remove(entity) =~~= s);
            assert(spec_invert(st) == (StepModel::DropTable { entity, columns }));
            assert(spec_apply_step(s2, spec_invert(st)) == Some(s2.remove(entity)));
        },
        StepModel::DropTable { entity, columns } => {
            assert(s2 == s.remove(entity));
            assert(!s2.contains_key(entity));
            assert(s2.insert(entity, cols_map(columns)) =~~= s);
            assert(spec_invert(st) == (StepModel::CreateTable { entity, columns }));
        },
        StepModel::AddColumn { entity, column } => {
            assert(s2[entity].remove(column.name) =~~= s[entity]);
            assert(s2.insert(entity, s2[entity].remove(column.name)) =~~= s);
        },
        StepModel::DropColumn { entity, column } => {
            assert(s2[entity].insert(column.name, column) =~~= s[entity]);
            assert(s2.insert(entity, s2[entity].insert(column.name, column)) =~~= s);
        },
        StepModel::AlterColumn { entity, name, old_type, old_nullable, new_type, new_nullable } => {
            let f = s[entity][name];
            assert(with_type(with_type(f, new_type, new_nullable), old_type, old_nullable) == f);
            assert(s2[entity].insert(name, f) =~~= s[entity]);
            assert(s2.insert(entity, s2[entity].insert(name, f)) =~~= s);
        },
    }
}

/// Appending one step to an applied list applies it to the outcome.
pub proof fn lemma_apply_push(
    s: Map<Seq<char>, Map<Seq<char>, FieldModel>>,
    steps: Seq<StepModel>,
    m: Map<Seq<char>, Map<Seq<char>, FieldModel>>,
    x: StepModel,
)
    requires
        spec_apply_steps(s, steps) == Some(m),
    ensures
        spec_apply_steps(s, steps.push(x)) == spec_apply_step(m, x),
    decreases steps.len(),
{
    if steps.len() == 0 {
        assert(m == s);
        assert(steps.push(x)[0] == x);
        assert(steps.push(x).drop_first() =~= Seq::<StepModel>::empty());
        match spec_apply_step(s, x) {
            None => {
                assert(spec_apply_steps(s, steps.push(x)) is None);
            },
            Some(s2) => {
                assert(spec_apply_steps(s2, Seq::<StepModel>::empty()) == Some(s2));
                assert(spec_apply_steps(s2, steps.push(x).drop_first()) == Some(s2));
                assert(spec_apply_steps(s, steps.push(x)) == Some(s2));
            },
        }
    } else {
        let s1 = spec_apply_step(s, steps[0])->0;
        assert(spec_apply_step(s, steps[0]) == Some(s1));
        assert(spec_apply_steps(s1, steps.drop_first()) == Some(m));
        assert(steps.push(x)[0] == steps[0]);
        assert(steps.push(x).drop_first() =~= steps.drop_first().push(x));
        lemma_apply_push(s1, steps.drop_first(), m, x);
        assert(spec_apply_steps(s1, steps.drop_first().push(x)) == spec_apply_step(m, x));
        assert(spec_apply_steps(s1, steps.push(x).drop_first()) == spec_apply_step(m, x));
        assert(spec_apply_steps(s, steps.push(x)) == spec_apply_steps(
            s1,
            steps.push(x).drop_first(),
        ));
    }
}

/// A list of steps that applies can be undone: the inverted steps, in
/// reverse order, apply to the result and restore the schema exactly.
pub proof fn lemma_steps_inverse(
    s: Map<Seq<char>, Map<Seq<char>, FieldModel>>,
    steps: Seq<StepModel>,
    s2: Map<Seq<char>, Map<Seq<char>, FieldModel>>,
)
    requires
        spec_apply_steps(s, steps) == Some(s2),
    ensures
        spec_apply_steps(s2, spec_inverse_steps(steps)) == Some(s),
    decreases steps.len(),
{
    if steps.len() == 0 {
        assert(spec_inverse_steps(steps) =~= Seq::<StepModel>::empty());
        assert(s2 == s);
        assert(spec_apply_steps(s2, Seq::<StepModel>::empty()) == Some(s2));
    } else {
        let s1 = spec_apply_step(s, steps[0])->0;
        assert(spec_apply_step(s, steps[0]) == Some(s1));
        assert(spec_apply_steps(s1, steps.drop_first()) == Some(s2));
        lemma_steps_inverse(s1, steps.drop_first(), s2);
        lemma_step_inverse(s, steps[0], s1);
        assert(spec_inverse_steps(steps) =~= spec_inverse_steps(steps.drop_first()).push(
            spec_invert(steps[0]),
        ));
        lemma_apply_push(s2, spec_inverse_steps(steps.drop_first()), s1, spec_invert(steps[0]));
        assert(spec_apply_steps(s2, spec_inverse_steps(steps.drop_first()).push(
            spec_invert(steps[0]),
        )) == spec_apply_step(s1, spec_invert(steps[0])));
        assert(spec_apply_step(s1, spec_invert(steps[0])) == Some(s));
    }
}

/// Inverse law for whole migrations: for a well-formed migration whose
/// up steps apply to a schema, the down steps apply to the outcome and
/// return the schema to its pre-migration state.
pub proof fn lemma_migration_inverse(
    s: Map<Seq<char>, Map<Seq<char>, FieldModel>>,
    m: MigrationModel,
    s2: Map<Seq<char>, Map<Seq<char>, FieldModel>>,
)
    requires
        wf_migration(m),
        spec_apply_steps(s, m.up_steps) == Some(s2),
    ensures
        spec_apply_steps(s2, m.down_steps) == Some(s),
{
    lemma_steps_inverse(s, m.up_steps, s2);
}

/// Pushing onto a list pushes its deep view.
pub proof fn lemma_deep_push<T: DeepView>(v1: Seq<T>, v2: Seq<T>, x: T)
    requires
        v2 == v1.push(x),
    ensures
        Seq::new(v2.len(), |i: int| v2[i].deep_view()) == Seq::new(
            v1.len(),
            |i: int| v1[i].deep_view(),
        ).push(x.deep_view()),
{
    let a = Seq::new(v2.len(), |i: int| v2[i].deep_view());
    let b = Seq::new(v1.len(), |i: int| v1[i].deep_view()).push(x.deep_view());
    assert forall|k: int| 0 <= k < a.len() implies a[k] == b[k] by {
        if k < v1.len() {
            assert(v2[k] == v1[k]);
        } else {
            assert(v2[k] == x);
        }
    }
    assert(a =~= b);
}

/// Removing one slot of a list removes that slot of its deep view.
pub proof fn lemma_deep_remove<T: DeepView>(v1: Seq<T>, v2: Seq<T>, i: int)
    requires
        0 <= i < v1.len(),
        v2 == v1.remove(i),
    ensures
        Seq::new(v2.len(), |k: int| v2[k].deep_view()) == Seq::new(
            v1.len(),
            |k: int| v1[k].deep_view(),
        ).remove(i),
{
    let a = Seq::new(v2.len(), |k: int| v2[k].deep_view());
    let b = Seq::new(v1.len(), |k: int| v1[k].deep_view()).remove(i);
    assert forall|k: int| 0 <= k < a.len() implies a[k] == b[k] by {
        if k < i {
            assert(v2[k] == v1[k]);
        } else {
            assert(v2[k] == v1[k + 1]);
        }
    }
    assert(a =~= b);
}

/// Inserting into a list inserts into its deep view.
pub proof fn lemma_deep_insert<T: DeepView>(v1: Seq<T>, v2: Seq<T>, i: int, x: T)
    requires
        0 <= i <= v1.len(),
        v2 == v1.insert(i, x),
    ensures
        Seq::new(v2.len(), |k: int| v2[k].deep_view()) == Seq::new(
            v1.len(),
            |k: int| v1[k].deep_view(),
        ).insert(i, x.deep_view()),
{
    let a = Seq::new(v2.len(), |k: int| v2[k].deep_view());
    let b = Seq::new(v1.len(), |k: int| v1[k].deep_view()).insert(i, x.deep_view());
    assert forall|k: int| 0 <= k < a.len() implies a[k] == b[k] by {
        if k < i {
            assert(v2[k] == v1[k]);
        } else if k == i {
            assert(v2[k] == x);
        } else {
            assert(v2[k] == v1[k - 1]);
        }
    }
    assert(a =~= b);
}

/// True exactly when the two constraint lists hold the same constraints
/// in the same order.
fn constraints_eq(a: &Vec<ConstraintKind>, b: &Vec<ConstraintKind>) -> (r: bool)
    ensures
        r == (a.deep_view() == b.deep_view()),
{
    if a.len() != b.len() {
        assert(a.deep_view().len() != b.deep_view().len());
        return false;
    }
    let mut i: usize = 0;
    while i < a.len()
        invariant
            i <= a@.len(),
            a@.len() == b@.len(),
            forall|k: int| 0 <= k < i ==> a.deep_view()[k] == b.deep_view()[k],
        decreases a@.len() - i,
    {
        if !(a[i] == b[i]) {
            assert(a.deep_view()[i as int] != b.deep_view()[i as int]);
            return false;
        }
        i = i + 1;
    }
    proof {
        assert(a.deep_view() =~= b.deep_view());
    }
    true
}

/// True exactly when the two descriptors carry the same model.
fn desc_eq(a: &FieldDescriptor, b: &FieldDescriptor) -> (r: bool)
    ensures
        r == (a.deep_view() == b.deep_view()),
{
    if !(a.name == b.name) {
        return false;
    }
    if !(a.semantic_type == b.semantic_type) {
        return false;
    }
    if a.nullable != b.nullable {
        return false;
    }
    let defaults_match: bool = match (&a.default_value, &b.default_value) {
        (Some(x), Some(y)) => *x == *y,
        (None, None) => true,
        _ => false,
    };
    if !defaults_match {
        return false;
    }
    constraints_eq(&a.constraints, &b.constraints)
}

/// True exactly when no two descriptors of the list share a name.
fn descs_unique(ds: &Vec<FieldDescriptor>) -> (r: bool)
    ensures
        r == unique_names(ds.deep_view()),
{
    let ghost dm = ds.deep_view();
    let mut i: usize = 0;
    while i < ds.len()
        invariant
            i <= ds@.len(),
            dm == ds.deep_view(),
            dm.len() == ds@.len(),
            forall|p: int, q: int| 0 <= p < q < dm.len() && p < i ==> dm[p].name != dm[q].name,
        decreases ds@.len() - i,
    {
        let mut j: usize = i + 1;
        while j < ds.len()
            invariant
                i < j <= ds@.len(),
                dm == ds.deep_view(),
                dm.len() == ds@.len(),
                forall|q: int| i < q < j ==> dm[i as int].name != dm[q].name,
            decreases ds@.len() - j,
        {
            if ds[i].name == ds[j].name {
                proof {
                    assert(dm[i as int].name == dm[j as int].name);
                    assert(!unique_names(dm));
                }
                return false;
            }
            j = j + 1;
        }
        i = i + 1;
    }
    proof {
        assert(unique_names(dm));
    }
    true
}

/// Finds a column of `cols` named `name`.
fn find_col(cols: &Vec<FieldDescriptor>, name: &String) -> (r: Option<usize>)
    ensures
        match r {
            Some(k) => k < cols@.len() && cols.deep_view()[k as int].name == name@,
            None => forall|i: int| 0 <= i < cols@.len() ==> cols.deep_view()[i].name != name@,
        },
{
    let mut j: usize = 0;
    while j < cols.len()
        invariant
            j <= cols@.len(),
            forall|i: int| 0 <= i < j ==> cols.deep_view()[i].name != name@,
        decreases cols@.len() - j,
    {
        if cols[j].name == *name {
            return Some(j);
        }
        j = j + 1;
    }
    None
}

/// Finds a table of `tables` named `name`.
fn find_table(tables: &Vec<Table>, name: &String) -> (r: Option<usize>)
    ensures
        match r {
            Some(k) => k < tables@.len() && tables.deep_view()[k as int].name == name@,
            None => forall|i: int| 0 <= i < tables@.len() ==> tables.deep_view()[i].name != name@,
        },
{
    let mut j: usize = 0;
    while j < tables.len()
        invariant
            j <= tables@.len(),
            forall|i: int| 0 <= i < j ==> tables.deep_view()[i].name != name@,
        decreases tables@.len() - j,
    {
        if tables[j].name == *name {
            return Some(j);
        }
        j = j + 1;
    }
    None
}

/// True exactly when the two unique-named column lists carry the same
/// column map, whatever their order.
fn cols_equal_as_maps(a: &Vec<FieldDescriptor>, b: &Vec<FieldDescriptor>) -> (r: bool)
    requires
        unique_names(a.deep_view()),
        unique_names(b.deep_view()),
    ensures
        r == (cols_map(a.deep_view()) == cols_map(b.deep_view())),
{
    let ghost am = a.deep_view();
    let ghost bm = b.deep_view();
    proof {
        lemma_cols_map_dom(am);
        lemma_cols_map_dom(bm);
    }
    let mut i: usize = 0;
    while i < a.len()
        invariant
            i <= a@.len(),
            am == a.deep_view(),
            bm == b.deep_view(),
            am.len() == a@.len(),
            bm.len() == b@.len(),
            unique_names(am),
            unique_names(bm),
            forall|p: int| 0 <= p < i ==> cols_map(bm).contains_key(#[trigger] am[p].name)
                && cols_map(bm)[am[p].name] == am[p],
        decreases a@.len() - i,
    {
        match find_col(b, &a[i].name) {
            None => {
                proof {
                    lemma_cols_map_at(am, i as int);
                    lemma_cols_map_dom(bm);
                    assert(!cols_map(bm).contains_key(am[i as int].name));
                }
                return false;
            },
            Some(j) => {
                if !desc_eq(&b[j], &a[i]) {
                    proof {
                        lemma_cols_map_at(am, i as int);
                        lemma_cols_map_at(bm, j as int);
                        assert(cols_map(bm)[am[i as int].name] == bm[j as int]);
                        assert(cols_map(am)[am[i as int].name] == am[i as int]);
                        assert(bm[j as int] != am[i as int]);
                    }
                    return false;
                }
                proof {
                    lemma_cols_map_at(am, i as int);
                    lemma_cols_map_at(bm, j as int);
                }
            },
        }
        i = i + 1;
    }
    let mut h: usize = 0;
    while h < b.len()
        invariant
            h <= b@.len(),
            am == a.deep_view(),
            bm == b.deep_view(),
            am.len() == a@.len(),
            bm.len() == b@.len(),
            unique_names(am),
            unique_names(bm),
            forall|p: int| 0 <= p < am.len() ==> cols_map(bm).contains_key(#[trigger] am[p].name)
                && cols_map(bm)[am[p].name] == am[p],
            forall|q: int| 0 <= q < h ==> cols_map(am).contains_key(#[trigger] bm[q].name),
        decreases b@.len() - h,
    {
        match find_col(a, &b[h].name) {
            None => {
                proof {
                    lemma_cols_map_at(bm, h as int);
                    lemma_cols_map_dom(am);
                    assert(!cols_map(am).contains_key(bm[h as int].name));
                }
                return false;
            },
            Some(j) => {
                proof {
                    lemma_cols_map_at(am, j as int);
                }
            },
        }
        h = h + 1;
    }
    proof {
        lemma_cols_map_dom(am);
        lemma_cols_map_dom(bm);
        assert forall|n: Seq<char>| cols_map(am).contains_key(n) implies cols_map(
            bm,
        ).contains_key(n) && cols_map(am)[n] == cols_map(bm)[n] by {
            let p = choose|p: int| 0 <= p < am.len() && am[p].name == n;
            lemma_cols_map_at(am, p);
        }
        assert forall|n: Seq<char>| cols_map(bm).contains_key(n) implies cols_map(
            am,
        ).contains_key(n) by {
            let q = choose|q: int| 0 <= q < bm.len() && bm[q].name == n;
        }
        assert(cols_map(am) =~= cols_map(bm));
    }
    true
}

impl Clone for Table {
    /// A table clone preserves the whole table model.
    fn clone(&self) -> (r: Self)
        ensures
            r.deep_view() == self.deep_view(),
    {
        Table { name: self.name.clone(), columns: clone_descs(&self.columns) }
    }
}

/// Copies the table list, preserving its whole model.
fn clone_tables(ts: &Vec<Table>) -> (r: Vec<Table>)
    ensures
        r.deep_view() == ts.deep_view(),
{
    let r = ts.clone();
    proof {
        assert forall|i: int| 0 <= i < ts@.len() implies r.deep_view()[i] == ts.deep_view()[i] by {
            assert(cloned(ts[i], r[i]));
        }
        assert(r.deep_view() =~= ts.deep_view());
    }
    r
}

/// Creates a table, or fails when one of that name exists or the new
/// columns repeat a name.
fn step_create(tables: &mut Vec<Table>, entity: &String, columns: &Vec<FieldDescriptor>) -> (r:
    bool)
    requires
        wf_tables(old(tables).deep_view()),
    ensures
        wf_tables(final(tables).deep_view()),
        match spec_apply_step(
            tables_to_map(old(tables).deep_view()),
            StepModel::CreateTable { entity: entity@, columns: columns.deep_view() },
        ) {
            Some(s2) => r && tables_to_map(final(tables).deep_view()) == s2,
            None => !r && final(tables).deep_view() == old(tables).deep_view(),
        },
{
    let ghost tm = tables.deep_view();
    let ghost base = tables_to_map(tm);
    proof {
        lemma_tables_map_dom(tm);
    }
    if !descs_unique(columns) {
        return false;
    }
    match find_table(tables, entity) {
        Some(_k) => false,
        None => {
            assert(!base.contains_key(entity@));
            let t = Table { name: entity.clone(), columns: clone_descs(columns) };
            let ghost prev_vec = tables@;
            tables.push(t);
            proof {
                lemma_deep_push(prev_vec, tables@, t);
                assert(tables.deep_view() == tm.push(t.deep_view()));
                assert(tables.deep_view().drop_last() =~= tm);
                assert(tables_to_map(tables.deep_view()) == base.insert(
                    entity@,
                    cols_map(columns.deep_view()),
                ));
                assert forall|i: int, j: int|
                    0 <= i < j < tables.deep_view().len() implies tables.deep_view()[i].name
                    != tables.deep_view()[j].name by {
                    if j == tables.deep_view().len() - 1 {
                        assert(tables.deep_view()[i] == tm[i]);
                    }
                }
                assert(wf_tables(tables.deep_view()));
            }
            true
        },
    }
}

/// Drops a table, or fails when none of that name exists or it does not
/// hold exactly the named columns.
fn step_drop_table(tables: &mut Vec<Table>, entity: &String, columns: &Vec<FieldDescriptor>) -> (r:
    bool)
    requires
        wf_tables(old(tables).deep_view()),
    ensures
        wf_tables(final(tables).deep_view()),
        match spec_apply_step(
            tables_to_map(old(tables).deep_view()),
            StepModel::DropTable { entity: entity@, columns: columns.deep_view() },
        ) {
            Some(s2) => r && tables_to_map(final(tables).deep_view()) == s2,
            None => !r && final(tables).deep_view() == old(tables).deep_view(),
        },
{
    let ghost tm = tables.deep_view();
    let ghost base = tables_to_map(tm);
    proof {
        lemma_tables_map_dom(tm);
    }
    if !descs_unique(columns) {
        return false;
    }
    match find_table(tables, entity) {
        None => {
            proof {
                assert(!base.contains_key(entity@));
            }
            false
        },
        Some(k) => {
            proof {
                lemma_tables_map_at(tm, k as int);
            }
            if !cols_equal_as_maps(&tables[k].columns, columns) {
                proof {
                    assert(base[entity@] == cols_map(tm[k as int].columns));
                    assert(base[entity@] != cols_map(columns.deep_view()));
                }
                return false;
            }
            let ghost prev_vec = tables@;
            let _dropped = tables.remove(k);
            proof {
                lemma_deep_remove(prev_vec, tables@, k as int);
                assert(tables.deep_view() == tm.remove(k as int));
                lemma_tables_map_remove(tm, k as int);
                assert(tables_to_map(tables.deep_view()) == base.remove(entity@));
                assert forall|i: int, j: int|
                    0 <= i < j < tables.deep_view().len() implies tables.deep_view()[i].name
                    != tables.deep_view()[j].name by {
                    let rem = tm.remove(k as int);
                    assert(rem[i] == (if i < k as int { tm[i] } else { tm[i + 1] }));
                    assert(rem[j] == (if j < k as int { tm[j] } else { tm[j + 1] }));
                }
                assert forall|i: int| 0 <= i < tables.deep_view().len() implies unique_names(
                    #[trigger] tables.deep_view()[i].columns,
                ) by {
                    let rem = tm.remove(k as int);
                    assert(rem[i] == (if i < k as int { tm[i] } else { tm[i + 1] }));
                }
                assert(wf_tables(tables.deep_view()));
            }
            true
        },
    }
}

/// Replaces table `k` with one whose columns changed, carrying the
/// schema-map and well-formedness reasoning shared by the column steps.
fn put_back_table(
    tables: &mut Vec<Table>,
    k: usize,
    t: Table,
    Ghost(tm): Ghost<Seq<TableModel>>,
    Ghost(removed): Ghost<Seq<TableModel>>,
) -> (r: ())
    requires
        wf_tables(tm),
        k < tm.len(),
        old(tables)@.len() == tm.len() - 1,
        removed == tm.remove(k as int),
        old(tables).deep_view() == removed,
        t.deep_view().name == tm[k as int].name,
        unique_names(t.deep_view().columns),
    ensures
        final(tables).deep_view() == tm.update(k as int, t.deep_view()),
        wf_tables(final(tables).deep_view()),
        tables_to_map(final(tables).deep_view()) == tables_to_map(tm).insert(
            t.deep_view().name,
            cols_map(t.deep_view().columns),
        ),
{
    let ghost t_model = t.deep_view();
    let ghost prev_vec = tables@;
    tables.insert(k, t);
    proof {
        lemma_deep_insert(prev_vec, tables@, k as int, t);
        assert(tables.deep_view() =~= removed.insert(k as int, t_model));
        assert(removed.insert(k as int, t_model) =~= tm.update(k as int, t_model));
        lemma_tables_map_update(tm, k as int, t_model);
        assert forall|p: int, q: int|
            0 <= p < q < tables.deep_view().len() implies tables.deep_view()[p].name
            != tables.deep_view()[q].name by {
            let upd = tm.update(k as int, t_model);
            assert(upd[p].name == tm[p].name);
            assert(upd[q].name == tm[q].name);
        }
        assert forall|p: int| 0 <= p < tables.deep_view().len() implies unique_names(
            #[trigger] tables.deep_view()[p].columns,
        ) by {
            if p != k as int {
                assert(tables.deep_view()[p] == tm[p]);
            }
        }
        assert(wf_tables(tables.deep_view()));
    }
}

/// Adds a column, or fails when the table is missing or already has a
/// column of that name.
fn step_add_column(tables: &mut Vec<Table>, entity: &String, column: &FieldDescriptor) -> (r: bool)
    requires
        wf_tables(old(tables).deep_view()),
    ensures
        wf_tables(final(tables).deep_view()),
        match spec_apply_step(
            tables_to_map(old(tables).deep_view()),
            StepModel::AddColumn { entity: entity@, column: column.deep_view() },
        ) {
            Some(s2) => r && tables_to_map(final(tables).deep_view()) == s2,
            None => !r && final(tables).deep_view() == old(tables).deep_view(),
        },
{
    let ghost tm = tables.deep_view();
    let ghost base = tables_to_map(tm);
    proof {
        lemma_tables_map_dom(tm);
    }
    match find_table(tables, entity) {
        None => false,
        Some(k) => {
            proof {
                lemma_tables_map_at(tm, k as int);
                lemma_cols_map_dom(tm[k as int].columns);
            }
            match find_col(&tables[k].columns, &column.name) {
                Some(_j) => {
                    proof {
                        assert(base[entity@].contains_key(column.deep_view().name));
                    }
                    false
                },
                None => {
                    proof {
                        assert(!base[entity@].contains_key(column.deep_view().name));
                    }
                    let ghost prev_vec = tables@;
                    let mut t = tables.remove(k);
                    proof {
                        lemma_deep_remove(prev_vec, tables@, k as int);
                        assert(tables.deep_view() == tm.remove(k as int));
                    }
                    let ghost removed = tables.deep_view();
                    let ghost cols_before = t.columns.deep_view();
                    let ghost cvec_before = t.columns@;
                    let col2 = column.clone();
                    let ghost col2m = col2.deep_view();
                    t.columns.push(col2);
                    proof {
                        assert(t.columns@.len() == cvec_before.len() + 1);
                        assert forall|p: int| 0 <= p < t.columns@.len() implies
                            t.columns.deep_view()[p] == cols_before.push(col2m)[p] by {
                            if p < cvec_before.len() {
                                assert(t.columns@[p] == cvec_before[p]);
                            }
                        }
                        assert(t.columns.deep_view() =~= cols_before.push(col2m));
                        assert(cols_before.push(col2m).drop_last() =~= cols_before);
                        assert(cols_map(t.columns.deep_view()) == cols_map(cols_before).insert(
                            col2m.name,
                            col2m,
                        ));
                        assert forall|p: int, q: int|
                            0 <= p < q < t.columns.deep_view().len() implies
                            t.columns.deep_view()[p].name != t.columns.deep_view()[q].name by {
                            if q == t.columns.deep_view().len() - 1 {
                                assert(t.columns.deep_view()[p] == cols_before[p]);
                            }
                        }
                    }
                    put_back_table(tables, k, t, Ghost(tm), Ghost(removed));
                    proof {
                        assert(tables_to_map(tables.deep_view()) == base.insert(
                            entity@,
                            base[entity@].insert(column.deep_view().name, column.deep_view()),
                        ));
                    }
                    true
                },
            }
        },
    }
}

/// Drops a column, or fails when the table or the exact named column is
/// missing.
fn step_drop_column(tables: &mut Vec<Table>, entity: &String, column: &FieldDescriptor) -> (r:
    bool)
    requires
        wf_tables(old(tables).deep_view()),
    ensures
        wf_tables(final(tables).deep_view()),
        match spec_apply_step(
            tables_to_map(old(tables).deep_view()),
            StepModel::DropColumn { entity: entity@, column: column.deep_view() },
        ) {
            Some(s2) => r && tables_to_map(final(tables).deep_view()) == s2,
            None => !r && final(tables).deep_view() == old(tables).deep_view(),
        },
{
    let ghost tm = tables.deep_view();
    let ghost base = tables_to_map(tm);
    proof {
        lemma_tables_map_dom(tm);
    }
    match find_table(tables, entity) {
        None => false,
        Some(k) => {
            proof {
                lemma_tables_map_at(tm, k as int);
                lemma_cols_map_dom(tm[k as int].columns);
            }
            match find_col(&tables[k].columns, &column.name) {
                None => {
                    proof {
                        assert(!base[entity@].contains_key(column.deep_view().name));
                    }
                    false
                },
                Some(j) => {
                    proof {
                        lemma_cols_map_at(tm[k as int].columns, j as int);
                    }
                    if !desc_eq(&tables[k].columns[j], column) {
                        proof {
                            assert(base[entity@][column.deep_view().name] != column.deep_view());
                        }
                        return false;
                    }
                    let ghost prev_vec = tables@;
                    let mut t = tables.remove(k);
                    proof {
                        lemma_deep_remove(prev_vec, tables@, k as int);
                        assert(tables.deep_view() == tm.remove(k as int));
                    }
                    let ghost removed = tables.deep_view();
                    let ghost cols_before = t.columns.deep_view();
                    let ghost cvec_before = t.columns@;
                    let _old_col = t.columns.remove(j);
                    proof {
                        lemma_deep_remove(cvec_before, t.columns@, j as int);
                        assert(t.columns.deep_view() == cols_before.remove(j as int));
                        lemma_cols_map_remove(cols_before, j as int);
                        assert forall|p: int, q: int|
                            0 <= p < q < t.columns.deep_view().len() implies
                            t.columns.deep_view()[p].name != t.columns.deep_view()[q].name by {
                            let rem = cols_before.remove(j as int);
                            assert(rem[p] == (if p < j as int {
                                cols_before[p]
                            } else {
                                cols_before[p + 1]
                            }));
                            assert(rem[q] == (if q < j as int {
                                cols_before[q]
                            } else {
                                cols_before[q + 1]
                            }));
                        }
                    }
                    put_back_table(tables, k, t, Ghost(tm), Ghost(removed));
                    proof {
                        assert(tables_to_map(tables.deep_view()) == base.insert(
                            entity@,
                            base[entity@].remove(column.deep_view().name),
                        ));
                    }
                    true
                },
            }
        },
    }
}

/// Alters a column's semantic type and nullability, or fails when the
/// table or column is missing or the recorded old type does not match.
fn step_alter_column(
    tables: &mut Vec<Table>,
    entity: &String,
    name: &String,
    old_type: SemanticType,
    old_nullable: bool,
    new_type: SemanticType,
    new_nullable: bool,
) -> (r: bool)
    requires
        wf_tables(old(tables).deep_view()),
    ensures
        wf_tables(final(tables).deep_view()),
        match spec_apply_step(
            tables_to_map(old(tables).deep_view()),
            StepModel::AlterColumn {
                entity: entity@,
                name: name@,
                old_type,
                old_nullable,
                new_type,
                new_nullable,
            },
        ) {
            Some(s2) => r && tables_to_map(final(tables).deep_view()) == s2,
            None => !r && final(tables).deep_view() == old(tables).deep_view(),
        },
{
    let ghost tm = tables.deep_view();
    let ghost base = tables_to_map(tm);
    proof {
        lemma_tables_map_dom(tm);
    }
    match find_table(tables, entity) {
        None => false,
        Some(k) => {
            proof {
                lemma_tables_map_at(tm, k as int);
                lemma_cols_map_dom(tm[k as int].columns);
            }
            match find_col(&tables[k].columns, name) {
                None => {
                    proof {
                        assert(!base[entity@].contains_key(name@));
                    }
                    false
                },
                Some(j) => {
                    proof {
                        lemma_cols_map_at(tm[k as int].columns, j as int);
                    }
                    if !(tables[k].columns[j].semantic_type == old_type) || tables[k].columns[j]
                        .nullable != old_nullable {
                        return false;
                    }
                    let ghost prev_vec = tables@;
                    let mut t = tables.remove(k);
                    proof {
                        lemma_deep_remove(prev_vec, tables@, k as int);
                        assert(tables.deep_view() == tm.remove(k as int));
                    }
                    let ghost removed = tables.deep_view();
                    let ghost cols_before = t.columns.deep_view();
                    let ghost cvec_before = t.columns@;
                    let old_col = t.columns.remove(j);
                    let new_col = FieldDescriptor {
                        name: old_col.name,
                        semantic_type: new_type,
                        nullable: new_nullable,
                        default_value: old_col.default_value,
                        constraints: old_col.constraints,
                    };
                    let ghost cvec_mid = t.columns@;
                    t.columns.insert(j, new_col);
                    proof {
                        lemma_deep_remove(cvec_before, cvec_mid, j as int);
                        lemma_deep_insert(cvec_mid, t.columns@, j as int, new_col);
                        assert(t.columns.deep_view() =~= cols_before.update(
                            j as int,
                            new_col.deep_view(),
                        ));
                        assert(new_col.deep_view() == with_type(
                            cols_before[j as int],
                            new_type,
                            new_nullable,
                        ));
                        lemma_cols_map_update(cols_before, j as int, new_col.deep_view());
                        assert forall|p: int, q: int|
                            0 <= p < q < t.columns.deep_view().len() implies
                            t.columns.deep_view()[p].name != t.columns.deep_view()[q].name by {
                            assert(t.columns.deep_view()[p].name == cols_before[p].name);
                            assert(t.columns.deep_view()[q].name == cols_before[q].name);
                        }
                    }
                    put_back_table(tables, k, t, Ghost(tm), Ghost(removed));
                    proof {
                        assert(tables_to_map(tables.deep_view()) == base.insert(
                            entity@,
                            base[entity@].insert(
                                name@,
                                with_type(base[entity@][name@], new_type, new_nullable),
                            ),
                        ));
                    }
                    true
                },
            }
        },
    }
}

/// Applies one step in place, or returns false leaving the tables as
/// they were, exactly when the step's precondition fails on the schema.
fn apply_step_to(tables: &mut Vec<Table>, step: &SchemaStep) -> (r: bool)
    requires
        wf_tables(old(tables).deep_view()),
    ensures
        wf_tables(final(tables).deep_view()),
        match spec_apply_step(tables_to_map(old(tables).deep_view()), step.deep_view()) {
            Some(s2) => r && tables_to_map(final(tables).deep_view()) == s2,
            None => !r && final(tables).deep_view() == old(tables).deep_view(),
        },
{
    match step {
        SchemaStep::CreateTable { entity, columns } => step_create(tables, entity, columns),
        SchemaStep::DropTable { entity, columns } => step_drop_table(tables, entity, columns),
        SchemaStep::AddColumn { entity, column } => step_add_column(tables, entity, column),
        SchemaStep::DropColumn { entity, column } => step_drop_column(tables, entity, column),
        SchemaStep::AlterColumn {
            entity,
            name,
            old_type,
            old_nullable,
            new_type,
            new_nullable,
        } => step_alter_column(
            tables,
            entity,
            name,
            *old_type,
            *old_nullable,
            *new_type,
            *new_nullable,
        ),
    }
}

/// True when some ledger entry records `version`.
pub open spec fn ledger_has(l: Seq<LedgerEntry>, version: u64) -> bool {
    exists|i: int| 0 <= i < l.len() && l[i].version == version
}

/// No two ledger entries record the same version.
pub open spec fn unique_ledger(l: Seq<LedgerEntry>) -> bool {
    forall|i: int, j: int| 0 <= i < j < l.len() ==> l[i].version != l[j].version
}

/// True when a migration of `known` with a version below `version` has
/// not been applied yet.
pub open spec fn out_of_order(
    known: Seq<MigrationModel>,
    ledger: Seq<LedgerEntry>,
    version: u64,
) -> bool {
    exists|i: int|
        0 <= i < known.len() && (#[trigger] known[i]).version < version && !ledger_has(
            ledger,
            known[i].version,
        )
}

/// True when the whole engine state is the one given.
pub open spec fn unchanged_engine(pre: Engine, post: Engine) -> bool {
    &&& post.tables.deep_view() == pre.tables.deep_view()
    &&& post.ledger@ == pre.ledger@
}

/// A failed step anywhere leaves the whole application failed.
proof fn lemma_apply_prefix_fail(
    s: Map<Seq<char>, Map<Seq<char>, FieldModel>>,
    steps: Seq<StepModel>,
    j: int,
)
    requires
        0 <= j <= steps.len(),
        spec_apply_steps(s, steps.take(j)) is None,
    ensures
        spec_apply_steps(s, steps) is None,
    decreases steps.len(),
{
    if j == 0 {
        assert(steps.take(0) =~= Seq::<StepModel>::empty());
        assert(spec_apply_steps(s, steps.take(0)) == Some(s));
    } else {
        assert(steps.take(j)[0] == steps[0]);
        match spec_apply_step(s, steps[0]) {
            None => {
            },
            Some(s1) => {
                assert(steps.take(j).drop_first() =~= steps.drop_first().take(j - 1));
                lemma_apply_prefix_fail(s1, steps.drop_first(), j - 1);
            },
        }
    }
}

/// Finds the index of the ledger entry recording `version`.
fn find_ledger_idx(l: &Vec<LedgerEntry>, version: u64) -> (r: Option<usize>)
    ensures
        match r {
            Some(k) => k < l@.len() && l@[k as int].version == version,
            None => !ledger_has(l@, version),
        },
{
    let mut i: usize = 0;
    while i < l.len()
        invariant
            i <= l@.len(),
            forall|k: int| 0 <= k < i ==> l@[k].version != version,
        decreases l@.len() - i,
    {
        if l[i].version == version {
            return Some(i);
        }
        i = i + 1;
    }
    None
}

/// Checks whether the ledger records `version`.
fn ledger_contains(l: &Vec<LedgerEntry>, version: u64) -> (r: bool)
    ensures
        r == ledger_has(l@, version),
{
    let mut i: usize = 0;
    while i < l.len()
        invariant
            i <= l@.len(),
            forall|k: int| 0 <= k < i ==> l@[k].version != version,
        decreases l@.len() - i,
    {
        if l[i].version == version {
            return true;
        }
        i = i + 1;
    }
    false
}

/// Runs steps as one atomic unit: on any failing step the tables are
/// left exactly as they were; on success they carry the outcome.
fn apply_steps_atomic(tables: &mut Vec<Table>, steps: &Vec<SchemaStep>, version: u64) -> (r:
    Result<(), ApplyError>)
    requires
        wf_tables(old(tables).deep_view()),
    ensures
        wf_tables(final(tables).deep_view()),
        match spec_apply_steps(tables_to_map(old(tables).deep_view()), steps.deep_view()) {
            Some(s2) => r is Ok && tables_to_map(final(tables).deep_view()) == s2,
            None => {
                &&& final(tables).deep_view() == old(tables).deep_view()
                &&& exists|i: usize|
                    r == Err::<(), ApplyError>(
                        ApplyError::StepFailed { version, step_index: i },
                    ) && 0 <= i < steps.deep_view().len() && spec_apply_steps(
                        tables_to_map(old(tables).deep_view()),
                        steps.deep_view().take(i as int),
                    ) is Some && spec_apply_step(
                        spec_apply_steps(
                            tables_to_map(old(tables).deep_view()),
                            steps.deep_view().take(i as int),
                        )->0,
                        steps.deep_view()[i as int],
                    ) is None
            },
        },
{
    let ghost base = tables_to_map(old(tables).deep_view());
    let ghost sm = steps.deep_view();
    let mut scratch = clone_tables(tables);
    let mut k: usize = 0;
    proof {
        assert(sm.take(0) =~= Seq::<StepModel>::empty());
    }
    while k < steps.len()
        invariant
            k <= steps@.len(),
            sm == steps.deep_view(),
            sm.len() == steps@.len(),
            wf_tables(scratch.deep_view()),
            base == tables_to_map(old(tables).deep_view()),
            wf_tables(old(tables).deep_view()),
            tables.deep_view() == old(tables).deep_view(),
            spec_apply_steps(base, sm.take(k as int)) == Some(
                tables_to_map(scratch.deep_view()),
            ),
        decreases steps@.len() - k,
    {
        let ghost mid = tables_to_map(scratch.deep_view());
        let ok = apply_step_to(&mut scratch, &steps[k]);
        if !ok {
            proof {
                assert(spec_apply_step(mid, sm[k as int]) is None);
                lemma_apply_push(base, sm.take(k as int), mid, sm[k as int]);
                assert(sm.take(k as int).push(sm[k as int]) =~= sm.take(k as int + 1));
                assert(spec_apply_steps(base, sm.take(k as int + 1)) is None);
                lemma_apply_prefix_fail(base, sm, k as int + 1);
            }
            return Err(ApplyError::StepFailed { version, step_index: k });
        }
        proof {
            assert(spec_apply_step(mid, sm[k as int]) == Some(
                tables_to_map(scratch.deep_view()),
            ));
            lemma_apply_push(base, sm.take(k as int), mid, sm[k as int]);
            assert(sm.take(k as int).push(sm[k as int]) =~= sm.take(k as int + 1));
        }
        k = k + 1;
    }
    proof {
        assert(sm.take(sm.len() as int) =~= sm);
    }
    *tables = scratch;
    Ok(())
}

impl Engine {
    /// The schema now, as the map view the contracts speak of.
    pub open spec fn schema(&self) -> Map<Seq<char>, Map<Seq<char>, FieldModel>> {
        tables_to_map(self.tables.deep_view())
    }

    /// Table and column names are unique, and so are ledgered versions.
    pub open spec fn wf(&self) -> bool {
        &&& wf_tables(self.tables.deep_view())
        &&& unique_ledger(self.ledger@)
    }

    /// An empty storage engine: no tables, nothing ledgered.
    pub fn new() -> (e: Engine)
        ensures
            e.wf(),
            e.schema() == Map::<Seq<char>, Map<Seq<char>, FieldModel>>::empty(),
            e.ledger@ == Seq::<LedgerEntry>::empty(),
    {
        let e = Engine { tables: Vec::new(), ledger: Vec::new() };
        proof {
            assert(e.tables.deep_view() =~= Seq::<TableModel>::empty());
            assert(e.schema() =~~= Map::<Seq<char>, Map<Seq<char>, FieldModel>>::empty());
        }
        e
    }

    /// Applies `m` exactly once, atomically, in ascending version order
    /// among `known`. An already-ledgered migration is a successful
    /// no-op; one applied before a lower unapplied version of `known`
    /// fails with a version conflict; a failing step leaves the engine
    /// exactly as it was and writes no ledger entry.
    pub fn apply(&mut self, m: &Migration, known: &Vec<Migration>, now: u64) -> (r: Result<
        (),
        ApplyError,
    >)
        requires
            old(self).wf(),
        ensures
            final(self).wf(),
            ledger_has(old(self).ledger@, m.version) ==> r is Ok && unchanged_engine(
                *old(self),
                *final(self),
            ),
            !ledger_has(old(self).ledger@, m.version) && out_of_order(
                known.deep_view(),
                old(self).ledger@,
                m.version,
            ) ==> r == Err::<(), ApplyError>(ApplyError::VersionConflict { version: m.version })
                && unchanged_engine(*old(self), *final(self)),
            !ledger_has(old(self).ledger@, m.version) && !out_of_order(
                known.deep_view(),
                old(self).ledger@,
                m.version,
            ) ==> match spec_apply_steps(old(self).schema(), m.up_steps.deep_view()) {
                Some(s2) => {
                    &&& r is Ok
                    &&& final(self).schema() == s2
                    &&& final(self).ledger@ == old(self).ledger@.push(
                        LedgerEntry { version: m.version, applied_at: now },
                    )
                    &&& ledger_has(final(self).ledger@, m.version)
                },
                None => {
                    &&& unchanged_engine(*old(self), *final(self))
                    &&& r is Err
                    &&& r matches Err(e) && e matches ApplyError::StepFailed {
                        version,
                        step_index,
                    } && version == m.version
                },
            },
    {
        if ledger_contains(&self.ledger, m.version) {
            return Ok(());
        }
        let mut i: usize = 0;
        while i < known.len()
            invariant
                i <= known@.len(),
                *self == *old(self),
                old(self).wf(),
                !ledger_has(old(self).ledger@, m.version),
                forall|j: int|
                    0 <= j < i ==> !((#[trigger] known.deep_view()[j]).version < m.version
                        && !ledger_has(self.ledger@, known.deep_view()[j].version)),
            decreases known@.len() - i,
        {
            if known[i].version < m.version && !ledger_contains(&self.ledger, known[i].version) {
                proof {
                    assert(known.deep_view()[i as int].version == known@[i as int].version);
                    assert(out_of_order(known.deep_view(), self.ledger@, m.version));
                }
                return Err(ApplyError::VersionConflict { version: m.version });
            }
            i = i + 1;
        }
        assert(!out_of_order(known.deep_view(), self.ledger@, m.version));
        let outcome = apply_steps_atomic(&mut self.tables, &m.up_steps, m.version);
        match outcome {
            Err(e) => Err(e),
            Ok(()) => {
                self.ledger.push(LedgerEntry { version: m.version, applied_at: now });
                proof {
                    let l2 = self.ledger@;
                    assert forall|p: int, q: int| 0 <= p < q < l2.len() implies l2[p].version
                        != l2[q].version by {
                        if q == l2.len() - 1 {
                            assert(l2[p] == old(self).ledger@[p]);
                        }
                    }
                    assert(l2[l2.len() - 1].version == m.version);
                }
                Ok(())
            },
        }
    }

    /// Rolls `m` back: runs its down steps atomically and removes the
    /// ledger entry only on success, so that the entry for `m` is
    /// absent afterwards. Rolling back an unapplied migration is a
    /// successful no-op.
    pub fn rollback(&mut self, m: &Migration) -> (r: Result<(), ApplyError>)
        requires
            old(self).wf(),
        ensures
            final(self).wf(),
            !ledger_has(old(self).ledger@, m.version) ==> r is Ok && unchanged_engine(
                *old(self),
                *final(self),
            ),
            ledger_has(old(self).ledger@, m.version) ==> match spec_apply_steps(
                old(self).schema(),
                m.down_steps.deep_view(),
            ) {
                Some(s2) => {
                    &&& r is Ok
                    &&& final(self).schema() == s2
                    &&& !ledger_has(final(self).ledger@, m.version)
                    &&& exists|i: int|
                        0 <= i < old(self).ledger@.len() && old(self).ledger@[i].version
                            == m.version && final(self).ledger@ == old(self).ledger@.remove(i)
                },
                None => {
                    &&& unchanged_engine(*old(self), *final(self))
                    &&& r matches Err(e) && e matches ApplyError::StepFailed {
                        version,
                        step_index,
                    } && version == m.version
                },
            },
    {
        let found = find_ledger_idx(&self.ledger, m.version);
        let idx: usize = match found {
            None => {
                return Ok(());
            },
            Some(k) => k,
        };
        let outcome = apply_steps_atomic(&mut self.tables, &m.down_steps, m.version);
        match outcome {
            Err(e) => Err(e),
            Ok(()) => {
                let ghost pre_ledger = self.ledger@;
                self.ledger.remove(idx);
                proof {
                    let l2 = self.ledger@;
                    assert(l2 == pre_ledger.remove(idx as int));
                    assert forall|p: int, q: int| 0 <= p < q < l2.len() implies l2[p].version
                        != l2[q].version by {
                        assert(l2[p] == (if p < idx as int {
                            pre_ledger[p]
                        } else {
                            pre_ledger[p + 1]
                        }));
                        assert(l2[q] == (if q < idx as int {
                            pre_ledger[q]
                        } else {
                            pre_ledger[q + 1]
                        }));
                    }
                    assert forall|p: int| 0 <= p < l2.len() implies l2[p].version != m.version by {
                        assert(l2[p] == (if p < idx as int {
                            pre_ledger[p]
                        } else {
                            pre_ledger[p + 1]
                        }));
                    }
                }
                Ok(())
            },
        }
    }
}

/// True when some migration of `ms` carries `version`.
pub open spec fn has_version(ms: Seq<MigrationModel>, version: u64) -> bool {
    exists|i: int| 0 <= i < ms.len() && ms[i].version == version
}

/// Finds a migration of `all` carrying `version`.
fn find_version(all: &Vec<Migration>, version: u64) -> (r: bool)
    ensures
        r == has_version(all.deep_view(), version),
{
    let mut i: usize = 0;
    while i < all.len()
        invariant
            i <= all@.len(),
            forall|k: int| 0 <= k < i ==> all.deep_view()[k].version != version,
        decreases all@.len() - i,
    {
        if all[i].version == version {
            proof {
                assert(all.deep_view()[i as int].version == version);
            }
            return true;
        }
        i = i + 1;
    }
    false
}

/// The migrations among the first `i` of `am` that the ledger does not
/// record, in their original order.
pub open spec fn unledgered_upto(
    am: Seq<MigrationModel>,
    l: Seq<LedgerEntry>,
    i: int,
) -> Seq<MigrationModel>
    decreases i,
{
    if i <= 0 {
        Seq::empty()
    } else if !ledger_has(l, am[i - 1].version) {
        unledgered_upto(am, l, i - 1).push(am[i - 1])
    } else {
        unledgered_upto(am, l, i - 1)
    }
}

impl Engine {
    /// The migrations of `all` not yet ledgered, in the ascending
    /// version order that `all` already carries; fails with ledger
    /// corruption when a ledger entry records a version that no
    /// migration of `all` defines.
    pub fn pending(&self, all: &Vec<Migration>) -> (r: Result<Vec<Migration>, ApplyError>)
        requires
            forall|i: int, j: int|
                0 <= i < j < all.deep_view().len() ==> all.deep_view()[i].version
                    < all.deep_view()[j].version,
        ensures
            match r {
                Err(e) => e matches ApplyError::LedgerCorruption { version } && ledger_has(
                    self.ledger@,
                    version,
                ) && !has_version(all.deep_view(), version),
                Ok(p) => {
                    &&& forall|k: int|
                        0 <= k < self.ledger@.len() ==> has_version(
                            all.deep_view(),
                            (#[trigger] self.ledger@[k]).version,
                        )
                    &&& p.deep_view() == unledgered_upto(
                        all.deep_view(),
                        self.ledger@,
                        all.deep_view().len() as int,
                    )
                },
            },
    {
        let ghost am = all.deep_view();
        let mut k: usize = 0;
        while k < self.ledger.len()
            invariant
                k <= self.ledger@.len(),
                am == all.deep_view(),
                forall|q: int| 0 <= q < k ==> has_version(am, (#[trigger] self.ledger@[q]).version),
            decreases self.ledger@.len() - k,
        {
            if !find_version(all, self.ledger[k].version) {
                return Err(ApplyError::LedgerCorruption { version: self.ledger[k].version });
            }
            k = k + 1;
        }
        let ghost lm = self.ledger@;
        let mut out: Vec<Migration> = Vec::new();
        let mut i: usize = 0;
        while i < all.len()
            invariant
                i <= all@.len(),
                am == all.deep_view(),
                am.len() == all@.len(),
                lm == self.ledger@,
                out.deep_view() == unledgered_upto(am, lm, i as int),
            decreases all@.len() - i,
        {
            if !ledger_contains(&self.ledger, all[i].version) {
                let ghost before = out.deep_view();
                let ghost bvec = out@;
                let mcopy = all[i].clone();
                proof {
                    assert(mcopy.deep_view() == am[i as int]);
                }
                out.push(mcopy);
                proof {
                    lemma_deep_push(bvec, out@, mcopy);
                    assert(out.deep_view() == before.push(am[i as int]));
                    assert(unledgered_upto(am, lm, i as int + 1) == before.push(am[i as int]));
                }
            } else {
                proof {
                    assert(unledgered_upto(am, lm, i as int + 1) == unledgered_upto(
                        am,
                        lm,
                        i as int,
                    ));
                }
            }
            i = i + 1;
        }
        Ok(out)
    }
}

/// Extraction never yields two fields of one name: a later duplicate
/// would itself have been an extraction issue.
pub proof fn lemma_extract_unique(fields: Seq<crate::fields::FieldSpecModel>)
    requires
        forall|k: int| 0 <= k < fields.len() ==> crate::fields::field_issue(fields, k) is None,
    ensures
        unique_names(crate::fields::spec_extract(fields)),
{
    let ds = crate::fields::spec_extract(fields);
    assert forall|i: int, j: int| 0 <= i < j < ds.len() implies ds[i].name != ds[j].name by {
        assert(crate::fields::field_issue(fields, j) is None);
        assert(ds[i].name == fields[i].name);
        assert(ds[j].name == fields[j].name);
        if fields[i].name == fields[j].name {
            assert(exists|k: int| 0 <= k < j && fields[k].name == fields[j].name);
        }
    }
}

/// Round trip: the migration generated from no previous state, applied
/// to an empty schema, yields exactly one table, named for the entity,
/// whose columns are the extracted descriptors.
pub proof fn lemma_create_round_trip(entity: Seq<char>, ds: Seq<FieldModel>, version: u64)
    requires
        unique_names(ds),
    ensures
        spec_apply_steps(
            Map::<Seq<char>, Map<Seq<char>, FieldModel>>::empty(),
            crate::migration::spec_generate(entity, None, ds, version).up_steps,
        ) == Some(
            Map::<Seq<char>, Map<Seq<char>, FieldModel>>::empty().insert(entity, cols_map(ds)),
        ),
{
    let empty_schema = Map::<Seq<char>, Map<Seq<char>, FieldModel>>::empty();
    let up = crate::migration::spec_generate(entity, None, ds, version).up_steps;
    assert(up == seq![StepModel::CreateTable { entity, columns: ds }]);
    assert(up[0] == (StepModel::CreateTable { entity, columns: ds }));
    assert(!empty_schema.contains_key(entity));
    let s2 = empty_schema.insert(entity, cols_map(ds));
    assert(spec_apply_step(empty_schema, up[0]) == Some(s2));
    assert(up.drop_first() =~= Seq::<StepModel>::empty());
    assert(spec_apply_steps(s2, up.drop_first()) == Some(s2));
}

/// Idempotence glue: a successful application ledgers its version, so
/// a second application of the same migration takes the no-op branch of
/// `apply` and leaves ledger and schema untouched.
pub proof fn lemma_apply_idempotent(l: Seq<LedgerEntry>, version: u64, now: u64)
    ensures
        ledger_has(l.push(LedgerEntry { version, applied_at: now }), version),
{
    let l2 = l.push(LedgerEntry { version, applied_at: now });
    assert(l2[l2.len() - 1].version == version);
}

/// What the unledgered sublist carries: unledgered versions drawn from
/// `am`, in ascending order when `am` is so ordered.
pub proof fn lemma_unledgered_facts(am: Seq<MigrationModel>, l: Seq<LedgerEntry>, i: int)
    requires
        0 <= i <= am.len(),
        forall|a: int, b: int| 0 <= a < b < am.len() ==> am[a].version < am[b].version,
    ensures
        forall|c: int|
            0 <= c < unledgered_upto(am, l, i).len() ==> !ledger_has(
                l,
                (#[trigger] unledgered_upto(am, l, i)[c]).version,
            ),
        forall|c: int|
            #![trigger unledgered_upto(am, l, i)[c]]
            0 <= c < unledgered_upto(am, l, i).len() ==> exists|d: int|
                0 <= d < i && unledgered_upto(am, l, i)[c].version == am[d].version,
        forall|a: int, b: int|
            0 <= a < b < unledgered_upto(am, l, i).len() ==> unledgered_upto(am, l, i)[a].version
                < unledgered_upto(am, l, i)[b].version,
    decreases i,
{
    if i > 0 {
        lemma_unledgered_facts(am, l, i - 1);
        let prev = unledgered_upto(am, l, i - 1);
        let cur = unledgered_upto(am, l, i);
        if !ledger_has(l, am[i - 1].version) {
            assert(cur == prev.push(am[i - 1]));
            assert forall|c: int| #![trigger cur[c]] 0 <= c < cur.len() implies exists|d: int|
                0 <= d < i && cur[c].version == am[d].version by {
                if c < prev.len() {
                    assert(cur[c] == prev[c]);
                    let d = choose|d: int| 0 <= d < i - 1 && prev[c].version == am[d].version;
                    assert(cur[c].version == am[d].version);
                } else {
                    assert(cur[c] == am[i - 1]);
                }
            }
            assert forall|a: int, b: int| 0 <= a < b < cur.len() implies cur[a].version
                < cur[b].version by {
                if b == cur.len() - 1 {
                    assert(cur[a] == prev[a]);
                    let d = choose|d: int| 0 <= d < i - 1 && prev[a].version == am[d].version;
                    assert(am[d].version < am[i - 1].version);
                } else {
                    assert(cur[a] == prev[a]);
                    assert(cur[b] == prev[b]);
                }
            }
        } else {
            assert(cur == prev);
        }
    }
}

/// The report of one migration run.
pub struct MigrationReport {
    pub applied: Vec<u64>,
    pub skipped: Vec<u64>,
    pub failed: Option<(u64, ApplyError)>,
}

pub ghost struct RunUpModel {
    pub schema: Map<Seq<char>, Map<Seq<char>, FieldModel>>,
    pub applied: Seq<u64>,
    pub skipped: Seq<u64>,
    pub failed: Option<u64>,
}

/// What running the pending migrations up to `target` does: each in
/// order is skipped when beyond the target, applied when its steps
/// apply, and otherwise stops the run with its version as the failure.
pub open spec fn spec_run_up(
    s: Map<Seq<char>, Map<Seq<char>, FieldModel>>,
    pend: Seq<MigrationModel>,
    target: Option<u64>,
) -> RunUpModel
    decreases pend.len(),
{
    if pend.len() == 0 {
        RunUpModel { schema: s, applied: Seq::empty(), skipped: Seq::empty(), failed: None }
    } else {
        let m = pend[0];
        if target is Some && m.version > target->0 {
            let rest = spec_run_up(s, pend.drop_first(), target);
            RunUpModel {
                schema: rest.schema,
                applied: rest.applied,
                skipped: seq![m.version] + rest.skipped,
                failed: rest.failed,
            }
        } else {
            match spec_apply_steps(s, m.up_steps) {
                Some(s2) => {
                    let rest = spec_run_up(s2, pend.drop_first(), target);
                    RunUpModel {
                        schema: rest.schema,
                        applied: seq![m.version] + rest.applied,
                        skipped: rest.skipped,
                        failed: rest.failed,
                    }
                },
                None => RunUpModel {
                    schema: s,
                    applied: Seq::empty(),
                    skipped: Seq::empty(),
                    failed: Some(m.version),
                },
            }
        }
    }
}

/// The ledger entries recording `versions`, all stamped `now`.
pub open spec fn spec_entries(versions: Seq<u64>, now: u64) -> Seq<LedgerEntry> {
    Seq::new(versions.len(), |i: int| LedgerEntry { version: versions[i], applied_at: now })
}

impl Engine {
    /// Applies every pending migration of `all` whose version does not
    /// exceed `target`, in ascending order, stopping at the first
    /// failing migration; each success is ledgered at `now`. The
    /// report lists applied and skipped versions in order, and the
    /// failing version with its error, if any.
    pub fn migrate_up(&mut self, all: &Vec<Migration>, target: Option<u64>, now: u64) -> (r:
        Result<MigrationReport, ApplyError>)
        requires
            old(self).wf(),
            forall|i: int, j: int|
                0 <= i < j < all.deep_view().len() ==> all.deep_view()[i].version
                    < all.deep_view()[j].version,
        ensures
            final(self).wf(),
            match r {
                Err(e) => e matches ApplyError::LedgerCorruption { version } && ledger_has(
                    old(self).ledger@,
                    version,
                ) && !has_version(all.deep_view(), version) && unchanged_engine(
                    *old(self),
                    *final(self),
                ),
                Ok(rep) => {
                    let pend = unledgered_upto(
                        all.deep_view(),
                        old(self).ledger@,
                        all.deep_view().len() as int,
                    );
                    let run = spec_run_up(old(self).schema(), pend, target);
                    &&& final(self).schema() == run.schema
                    &&& rep.applied@ == run.applied
                    &&& rep.skipped@ == run.skipped
                    &&& final(self).ledger@ == old(self).ledger@ + spec_entries(run.applied, now)
                    &&& match (rep.failed, run.failed) {
                        (None, None) => true,
                        (Some((v, e)), Some(v2)) => v == v2 && (e matches
                            ApplyError::StepFailed { version, step_index } && version == v),
                        _ => false,
                    }
                },
            },
    {
        let ghost am = all.deep_view();
        let ghost old_ledger = self.ledger@;
        let ghost old_schema = self.schema();
        let pend = match self.pending(all) {
            Err(e) => {
                return Err(e);
            },
            Ok(p) => p,
        };
        let ghost pm = pend.deep_view();
        let ghost whole = spec_run_up(old_schema, pm, target);
        proof {
            lemma_unledgered_facts(am, old_ledger, am.len() as int);
        }
        let mut applied: Vec<u64> = Vec::new();
        let mut skipped: Vec<u64> = Vec::new();
        proof {
            assert(pm.skip(0) =~= pm);
            assert(Seq::<u64>::empty() + whole.applied =~= whole.applied);
            assert(Seq::<u64>::empty() + whole.skipped =~= whole.skipped);
            assert(old_ledger + spec_entries(Seq::<u64>::empty(), now) =~= old_ledger);
        }
        let mut i: usize = 0;
        while i < pend.len()
            invariant
                i <= pend@.len(),
                pm == pend.deep_view(),
                pm.len() == pend@.len(),
                am == all.deep_view(),
                old_ledger == old(self).ledger@,
                old_schema == old(self).schema(),
                pm == unledgered_upto(am, old_ledger, am.len() as int),
                whole == spec_run_up(old_schema, pm, target),
                wf_tables(self.tables.deep_view()),
                unique_ledger(self.ledger@),
                forall|a: int, b: int| 0 <= a < b < pm.len() ==> pm[a].version < pm[b].version,
                forall|j: int|
                    i <= j < pm.len() ==> !ledger_has(self.ledger@, (#[trigger] pm[j]).version),
                self.ledger@ == old_ledger + spec_entries(applied@, now),
                ({
                    let sub = spec_run_up(
                        tables_to_map(self.tables.deep_view()),
                        pm.skip(i as int),
                        target,
                    );
                    &&& whole.schema == sub.schema
                    &&& whole.applied == applied@ + sub.applied
                    &&& whole.skipped == skipped@ + sub.skipped
                    &&& whole.failed == sub.failed
                }),
            decreases pend@.len() - i,
        {
            let ghost cur_schema = tables_to_map(self.tables.deep_view());
            let ghost sub = spec_run_up(cur_schema, pm.skip(i as int), target);
            proof {
                assert(pm.skip(i as int)[0] == pm[i as int]);
                assert(pm.skip(i as int).drop_first() =~= pm.skip(i as int + 1));
            }
            let m = &pend[i];
            proof {
                assert(m.deep_view() == pm[i as int]);
            }
            let beyond: bool = match target {
                Some(t) => m.version > t,
                None => false,
            };
            if beyond {
                skipped.push(m.version);
                proof {
                    let sub2 = spec_run_up(cur_schema, pm.skip(i as int + 1), target);
                    assert(sub.skipped == seq![pm[i as int].version] + sub2.skipped);
                    assert(skipped@ + sub2.skipped =~= whole.skipped);
                }
            } else {
                let outcome = apply_steps_atomic(&mut self.tables, &m.up_steps, m.version);
                match outcome {
                    Ok(()) => {
                        let ghost pre_ledger = self.ledger@;
                        self.ledger.push(LedgerEntry { version: m.version, applied_at: now });
                        applied.push(m.version);
                        proof {
                            let sub2 = spec_run_up(
                                tables_to_map(self.tables.deep_view()),
                                pm.skip(i as int + 1),
                                target,
                            );
                            assert(sub.applied == seq![pm[i as int].version] + sub2.applied);
                            assert(applied@ + sub2.applied =~= whole.applied);
                            assert(self.ledger@ =~= old_ledger + spec_entries(applied@, now));
                            let l2 = self.ledger@;
                            assert forall|p: int, q: int| 0 <= p < q < l2.len() implies
                                l2[p].version != l2[q].version by {
                                if q == l2.len() - 1 {
                                    assert(l2[p] == pre_ledger[p]);
                                }
                            }
                            assert forall|j: int|
                                i + 1 <= j < pm.len() implies !ledger_has(
                                self.ledger@,
                                (#[trigger] pm[j]).version,
                            ) by {
                                assert(pm[i as int].version < pm[j].version);
                                assert forall|q: int| 0 <= q < l2.len() implies l2[q].version
                                    != pm[j].version by {
                                    if q < l2.len() - 1 {
                                        assert(l2[q] == pre_ledger[q]);
                                    }
                                }
                            }
                        }
                    },
                    Err(e) => {
                        proof {
                            assert(sub.failed == Some(pm[i as int].version));
                            assert(whole.applied =~= applied@);
                            assert(whole.skipped =~= skipped@);
                        }
                        return Ok(
                            MigrationReport { applied, skipped, failed: Some((m.version, e)) },
                        );
                    },
                }
            }
            i = i + 1;
        }
        proof {
            assert(pm.skip(pm.len() as int).len() == 0);
            assert(whole.applied =~= applied@);
            assert(whole.skipped =~= skipped@);
        }
        Ok(MigrationReport { applied, skipped, failed: None })
    }
}

/// The ledger with the entry recording `version` removed, when one is.
pub open spec fn ledger_remove(l: Seq<LedgerEntry>, version: u64) -> Seq<LedgerEntry> {
    if ledger_has(l, version) {
        l.remove(choose|i: int| 0 <= i < l.len() && l[i].version == version)
    } else {
        l
    }
}

proof fn lemma_ledger_remove_at(l: Seq<LedgerEntry>, idx: int, version: u64)
    requires
        unique_ledger(l),
        0 <= idx < l.len(),
        l[idx].version == version,
    ensures
        ledger_remove(l, version) == l.remove(idx),
{
    assert(ledger_has(l, version));
    let w = choose|i: int| 0 <= i < l.len() && l[i].version == version;
    if w != idx {
        assert(l[w].version == l[idx].version);
        assert(false);
    }
}

pub ghost struct RunDownModel {
    pub schema: Map<Seq<char>, Map<Seq<char>, FieldModel>>,
    pub ledger: Seq<LedgerEntry>,
    pub rolled: Seq<u64>,
    pub skipped: Seq<u64>,
    pub failed: Option<u64>,
}

/// What rolling migrations back does, processing `rev` in order: an
/// unapplied migration is passed over, one at or below the target is
/// skipped, and an applied one above it has its down steps run and its
/// ledger entry removed; a failing step stops the run.
pub open spec fn spec_run_down(
    s: Map<Seq<char>, Map<Seq<char>, FieldModel>>,
    l: Seq<LedgerEntry>,
    rev: Seq<MigrationModel>,
    target: Option<u64>,
) -> RunDownModel
    decreases rev.len(),
{
    if rev.len() == 0 {
        RunDownModel {
            schema: s,
            ledger: l,
            rolled: Seq::empty(),
            skipped: Seq::empty(),
            failed: None,
        }
    } else {
        let m = rev[0];
        if !ledger_has(l, m.version) {
            spec_run_down(s, l, rev.drop_first(), target)
        } else if target is Some && m.version <= target->0 {
            let rest = spec_run_down(s, l, rev.drop_first(), target);
            RunDownModel {
                schema: rest.schema,
                ledger: rest.ledger,
                rolled: rest.rolled,
                skipped: seq![m.version] + rest.skipped,
                failed: rest.failed,
            }
        } else {
            match spec_apply_steps(s, m.down_steps) {
                Some(s2) => {
                    let rest = spec_run_down(
                        s2,
                        ledger_remove(l, m.version),
                        rev.drop_first(),
                        target,
                    );
                    RunDownModel {
                        schema: rest.schema,
                        ledger: rest.ledger,
                        rolled: seq![m.version] + rest.rolled,
                        skipped: rest.skipped,
                        failed: rest.failed,
                    }
                },
                None => RunDownModel {
                    schema: s,
                    ledger: l,
                    rolled: Seq::empty(),
                    skipped: Seq::empty(),
                    failed: Some(m.version),
                },
            }
        }
    }
}

impl Engine {
    /// Rolls the applied migrations of `all` back, newest first when
    /// `all` is in ascending order, down to (and excluding) `target`;
    /// each success removes its ledger entry, and the first failing
    /// migration stops the run. The report lists rolled-back versions
    /// under `applied` and the skipped versions in order.
    pub fn migrate_down(&mut self, all: &Vec<Migration>, target: Option<u64>) -> (r:
        MigrationReport)
        requires
            old(self).wf(),
        ensures
            final(self).wf(),
            ({
                let run = spec_run_down(
                    old(self).schema(),
                    old(self).ledger@,
                    all.deep_view().reverse(),
                    target,
                );
                &&& final(self).schema() == run.schema
                &&& final(self).ledger@ == run.ledger
                &&& r.applied@ == run.rolled
                &&& r.skipped@ == run.skipped
                &&& match (r.failed, run.failed) {
                    (None, None) => true,
                    (Some((v, e)), Some(v2)) => v == v2 && (e matches ApplyError::StepFailed {
                        version,
                        step_index,
                    } && version == v),
                    _ => false,
                }
            }),
    {
        let ghost am = all.deep_view();
        let ghost rev = am.reverse();
        let ghost whole = spec_run_down(old(self).schema(), old(self).ledger@, rev, target);
        let mut rolled: Vec<u64> = Vec::new();
        let mut skipped: Vec<u64> = Vec::new();
        let n = all.len();
        proof {
            assert(rev.skip(0) =~= rev);
            assert(Seq::<u64>::empty() + whole.rolled =~= whole.rolled);
            assert(Seq::<u64>::empty() + whole.skipped =~= whole.skipped);
        }
        let mut k: usize = 0;
        while k < n
            invariant
                k <= n,
                n == all@.len(),
                am == all.deep_view(),
                am.len() == all@.len(),
                rev == am.reverse(),
                whole == spec_run_down(old(self).schema(), old(self).ledger@, rev, target),
                wf_tables(self.tables.deep_view()),
                unique_ledger(self.ledger@),
                ({
                    let sub = spec_run_down(
                        tables_to_map(self.tables.deep_view()),
                        self.ledger@,
                        rev.skip(k as int),
                        target,
                    );
                    &&& whole.schema == sub.schema
                    &&& whole.ledger == sub.ledger
                    &&& whole.rolled == rolled@ + sub.rolled
                    &&& whole.skipped == skipped@ + sub.skipped
                    &&& whole.failed == sub.failed
                }),
            decreases n - k,
        {
            let ghost cur_schema = tables_to_map(self.tables.deep_view());
            let ghost cur_ledger = self.ledger@;
            let ghost sub = spec_run_down(cur_schema, cur_ledger, rev.skip(k as int), target);
            proof {
                assert(rev.skip(k as int)[0] == rev[k as int]);
                assert(rev[k as int] == am[n - 1 - k as int]);
                assert(rev.skip(k as int).drop_first() =~= rev.skip(k as int + 1));
            }
            let m = &all[n - 1 - k];
            proof {
                assert(m.deep_view() == am[n - 1 - k as int]);
            }
            if !ledger_contains(&self.ledger, m.version) {
                k = k + 1;
                continue;
            }
            let below: bool = match target {
                Some(t) => m.version <= t,
                None => false,
            };
            if below {
                skipped.push(m.version);
                proof {
                    let sub2 = spec_run_down(
                        cur_schema,
                        cur_ledger,
                        rev.skip(k as int + 1),
                        target,
                    );
                    assert(sub.skipped == seq![m.deep_view().version] + sub2.skipped);
                    assert(skipped@ + sub2.skipped =~= whole.skipped);
                }
                k = k + 1;
                continue;
            }
            let outcome = apply_steps_atomic(&mut self.tables, &m.down_steps, m.version);
            match outcome {
                Err(e) => {
                    proof {
                        assert(sub.failed == Some(m.deep_view().version));
                        assert(whole.rolled =~= rolled@);
                        assert(whole.skipped =~= skipped@);
                    }
                    return MigrationReport {
                        applied: rolled,
                        skipped,
                        failed: Some((m.version, e)),
                    };
                },
                Ok(()) => {
                    let idx: usize = match find_ledger_idx(&self.ledger, m.version) {
                        Some(j) => j,
                        None => {
                            proof {
                                assert(false);
                            }
                            0
                        },
                    };
                    let ghost pre_ledger = self.ledger@;
                    self.ledger.remove(idx);
                    rolled.push(m.version);
                    proof {
                        lemma_ledger_remove_at(pre_ledger, idx as int, m.version);
                        assert(self.ledger@ == ledger_remove(cur_ledger, m.deep_view().version));
                        let l2 = self.ledger@;
                        assert forall|p: int, q: int| 0 <= p < q < l2.len() implies l2[p].version
                            != l2[q].version by {
                            assert(l2[p] == (if p < idx as int {
                                pre_ledger[p]
                            } else {
                                pre_ledger[p + 1]
                            }));
                            assert(l2[q] == (if q < idx as int {
                                pre_ledger[q]
                            } else {
                                pre_ledger[q + 1]
                            }));
                        }
                        let sub2 = spec_run_down(
                            tables_to_map(self.tables.deep_view()),
                            self.ledger@,
                            rev.skip(k as int + 1),
                            target,
                        );
                        assert(sub.rolled == seq![m.deep_view().version] + sub2.rolled);
                        assert(rolled@ + sub2.rolled =~= whole.rolled);
                    }
                },
            }
            k = k + 1;
        }
        proof {
            assert(rev.skip(n as int).len() == 0);
            assert(whole.rolled =~= rolled@);
            assert(whole.skipped =~= skipped@);
        }
        MigrationReport { applied: rolled, skipped, failed: None }
    }
}

} // verus!
