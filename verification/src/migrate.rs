//! Forward-only, versioned schema migrator.
//!
//! A migration catalog is an ordered list of steps with strictly increasing
//! versions. Catching up applies, in ascending order, every step whose
//! version exceeds the schema's currently recorded version, all-or-nothing:
//! a step that cannot be applied aborts the whole catch-up and leaves the
//! schema exactly as it was. Re-running an up-to-date catalog is a no-op,
//! and running a catalog twice ends in the same state as running it once
//! ([`lemma_catch_up_idempotent`]).

use vstd::prelude::*;
use crate::model::StoreError;

verus! {

/// The version an up-to-date schema records.
pub const CURRENT_SCHEMA_VERSION: u64 = 3;

/// What one shipped migration step does to the schema.
///
/// Steps are never edited or reordered once shipped: a behavioral change is
/// a new variant appended under a new version, even when it rewrites a table
/// an earlier step introduced.
#[derive(Clone, Copy, Debug, PartialEq, Eq, Structural)]
pub enum MigrationEffect {
    /// Create the core tables (accounts, calendars, tasks, tags, pending
    /// deletions, the seeded singleton view-state row) if they do not exist;
    /// tasks carry mandatory account and calendar references.
    CreateInitialTables,
    /// Rebuild the tasks table so that its account and calendar references
    /// are optional.
    RelaxTaskOwnership,
    /// Add the optional task URL column.
    AddTaskUrl,
}

/// One shipped migration step.
#[derive(Clone, Copy, Debug, PartialEq, Eq, Structural)]
pub struct Migration {
    pub version: u64,
    pub effect: MigrationEffect,
}

/// The shape the persistent schema is in.
#[derive(Clone, Copy, Debug, PartialEq, Eq, Structural)]
pub struct SchemaState {
    /// Highest migration version applied so far; 0 on a fresh store.
    pub version: u64,
    /// The core tables exist.
    pub core_tables: bool,
    /// Tasks may lack an owning account and calendar.
    pub task_ownership_nullable: bool,
    /// The tasks table carries the optional URL column.
    pub task_url_column: bool,
}

impl SchemaState {
    /// A fresh, never-migrated store.
    pub fn fresh() -> (s: SchemaState)
        ensures
            s == fresh_schema(),
    {
        SchemaState { version: 0, core_tables: false, task_ownership_nullable: false, task_url_column: false }
    }

    /// The schema every component other than the migrator requires.
    pub open spec fn is_current(self) -> bool {
        &&& self.version == CURRENT_SCHEMA_VERSION
        &&& self.core_tables
        &&& self.task_ownership_nullable
        &&& self.task_url_column
    }
}

pub open spec fn fresh_schema() -> SchemaState {
    SchemaState { version: 0, core_tables: false, task_ownership_nullable: false, task_url_column: false }
}

/// Whether a step can run against a schema at all; a step that cannot run
/// is a fatal migration failure, never a silent skip.
pub open spec fn effect_applies(s: SchemaState, e: MigrationEffect) -> bool {
    match e {
        MigrationEffect::CreateInitialTables => true,
        MigrationEffect::RelaxTaskOwnership => s.core_tables,
        MigrationEffect::AddTaskUrl => s.core_tables && !s.task_url_column,
    }
}

/// The schema after one step's transformation (version bookkeeping aside).
pub open spec fn apply_effect(s: SchemaState, e: MigrationEffect) -> SchemaState {
    match e {
        MigrationEffect::CreateInitialTables => if s.core_tables {
            s
        } else {
            SchemaState { core_tables: true, task_ownership_nullable: false, task_url_column: false, ..s }
        },
        MigrationEffect::RelaxTaskOwnership => SchemaState { task_ownership_nullable: true, ..s },
        MigrationEffect::AddTaskUrl => SchemaState { task_url_column: true, ..s },
    }
}

/// The schema after one full step, its version recorded.
pub open spec fn apply_step(s: SchemaState, m: Migration) -> SchemaState {
    SchemaState { version: m.version, ..apply_effect(s, m.effect) }
}

/// Versions strictly increase along the catalog.
pub open spec fn versions_ascending(ms: Seq<Migration>) -> bool {
    forall|i: int, j: int| 0 <= i < j < ms.len() ==> ms[i].version < ms[j].version
}

/// The schema a catch-up run ends in: steps at or below the recorded
/// version are skipped, the rest run in order; `None` if any step that has
/// to run cannot be applied.
pub open spec fn run_catalog(s: SchemaState, ms: Seq<Migration>) -> Option<SchemaState>
    decreases ms.len(),
{
    if ms.len() == 0 {
        Some(s)
    } else {
        let m = ms[0];
        if m.version <= s.version {
            run_catalog(s, ms.skip(1))
        } else if effect_applies(s, m.effect) {
            run_catalog(apply_step(s, m), ms.skip(1))
        } else {
            None
        }
    }
}

/// Apply every step of `catalog` whose version exceeds `schema.version`, in
/// order, all-or-nothing.
///
/// Succeeds exactly when the catalog's versions are strictly ascending and
/// every step that has to run can be applied; on failure the schema is
/// untouched.
#[verifier::rlimit(50)]
pub fn catch_up(schema: &mut SchemaState, catalog: &Vec<Migration>) -> (r: Result<(), StoreError>)
    ensures
        match r {
            Ok(()) => {
                &&& versions_ascending(catalog@)
                &&& run_catalog(*old(schema), catalog@) == Some(*final(schema))
            },
            Err(e) => {
                &&& e == StoreError::SchemaMigrationFailure
                &&& *final(schema) == *old(schema)
                &&& (!versions_ascending(catalog@) || run_catalog(*old(schema), catalog@) is None)
            },
        },
{
    let n = catalog.len();
    let mut i: usize = 1;
    while i < n
        invariant
            n == 0 || 1 <= i <= n,
            n == catalog@.len(),
            forall|p: int| 0 <= p < i - 1 ==> #[trigger] catalog@[p].version < catalog@[p + 1].version,
        decreases n - i,
    {
        if catalog[i - 1].version >= catalog[i].version {
            proof {
                assert(!versions_ascending(catalog@)) by {
                    if versions_ascending(catalog@) {
                        assert(catalog@[i - 1].version < catalog@[i as int].version);
                    }
                }
            }
            return Err(StoreError::SchemaMigrationFailure);
        }
        i = i + 1;
    }
    proof {
        assert forall|p: int, q: int|
            0 <= p < q < catalog@.len() implies catalog@[p].version < catalog@[q].version by {
            lemma_ascending_from_adjacent(catalog@, p, q);
        }
    }

    let mut staged: SchemaState = *schema;
    proof {
        assert(catalog@.skip(0) =~= catalog@);
    }
    let mut j: usize = 0;
    while j < n
        invariant
            0 <= j <= n,
            n == catalog@.len(),
            run_catalog(*schema, catalog@) == run_catalog(staged, catalog@.skip(j as int)),
        decreases n - j,
    {
        let m = catalog[j];
        proof {
            assert(catalog@.skip(j as int)[0] == catalog@[j as int]);
            assert(catalog@.skip(j as int).skip(1) =~= catalog@.skip(j as int + 1));
        }
        if m.version > staged.version {
            let applies = match m.effect {
                MigrationEffect::CreateInitialTables => true,
                MigrationEffect::RelaxTaskOwnership => staged.core_tables,
                MigrationEffect::AddTaskUrl => staged.core_tables && !staged.task_url_column,
            };
            if !applies {
                proof {
                    assert(run_catalog(staged, catalog@.skip(j as int)) is None);
                }
                return Err(StoreError::SchemaMigrationFailure);
            }
            let ghost pre = staged;
            let stepped = match m.effect {
                MigrationEffect::CreateInitialTables => if staged.core_tables {
                    staged
                } else {
                    SchemaState {
                        core_tables: true,
                        task_ownership_nullable: false,
                        task_url_column: false,
                        ..staged
                    }
                },
                MigrationEffect::RelaxTaskOwnership => SchemaState {
                    task_ownership_nullable: true,
                    ..staged
                },
                MigrationEffect::AddTaskUrl => SchemaState { task_url_column: true, ..staged },
            };
            staged = SchemaState { version: m.version, ..stepped };
            proof {
                assert(stepped == apply_effect(pre, m.effect));
                assert(staged == apply_step(pre, m));
            }
        }
        j = j + 1;
    }
    proof {
        assert(catalog@.skip(n as int) =~= Seq::<Migration>::empty());
    }
    *schema = staged;
    Ok(())
}

proof fn lemma_ascending_from_adjacent(ms: Seq<Migration>, p: int, q: int)
    requires
        0 <= p < q < ms.len(),
        forall|a: int| 0 <= a < ms.len() - 1 ==> #[trigger] ms[a].version < ms[a + 1].version,
    ensures
        ms[p].version < ms[q].version,
    decreases q - p,
{
    if q == p + 1 {
    } else {
        lemma_ascending_from_adjacent(ms, p, q - 1);
        assert(ms[q - 1].version < ms[q].version);
    }
}

/// The catalog this store ships: the three versions in the order they were
/// released.
pub fn migration_catalog() -> (ms: Vec<Migration>)
    ensures
        ms@ == shipped_catalog(),
{
    let mut ms: Vec<Migration> = Vec::new();
    ms.push(Migration { version: 1, effect: MigrationEffect::CreateInitialTables });
    ms.push(Migration { version: 2, effect: MigrationEffect::RelaxTaskOwnership });
    ms.push(Migration { version: 3, effect: MigrationEffect::AddTaskUrl });
    proof {
        assert(ms@ =~= shipped_catalog());
    }
    ms
}

/// The shipped catalog, as a spec value.
pub open spec fn shipped_catalog() -> Seq<Migration> {
    seq![
        Migration { version: 1, effect: MigrationEffect::CreateInitialTables },
        Migration { version: 2, effect: MigrationEffect::RelaxTaskOwnership },
        Migration { version: 3, effect: MigrationEffect::AddTaskUrl },
    ]
}

/// The schema the shipped catalog produces on a fresh store.
pub open spec fn current_schema() -> SchemaState {
    SchemaState {
        version: CURRENT_SCHEMA_VERSION,
        core_tables: true,
        task_ownership_nullable: true,
        task_url_column: true,
    }
}

/// The shipped catalog is well-formed and catches a fresh store up to the
/// current schema.
pub proof fn lemma_shipped_catalog_runs_on_fresh()
    ensures
        versions_ascending(shipped_catalog()),
        run_catalog(fresh_schema(), shipped_catalog()) == Some(current_schema()),
{
    let ms = shipped_catalog();
    let s0 = fresh_schema();
    assert(ms.len() == 3);
    assert(versions_ascending(ms)) by {
        assert forall|i: int, j: int| 0 <= i < j < 3 implies ms[i].version < ms[j].version by {
            assert(ms[0].version == 1);
            assert(ms[1].version == 2);
            assert(ms[2].version == 3);
        }
    }
    let s1 = apply_step(s0, ms[0]);
    let s2 = apply_step(s1, ms[1]);
    let s3 = apply_step(s2, ms[2]);
    assert(ms.skip(1)[0] == ms[1]);
    assert(ms.skip(1).skip(1) =~= ms.skip(2));
    assert(ms.skip(2)[0] == ms[2]);
    assert(ms.skip(2).skip(1) =~= ms.skip(3));
    assert(ms.skip(3).len() == 0);
    assert(run_catalog(s3, ms.skip(3)) == Some(s3));
    assert(run_catalog(s2, ms.skip(2)) == Some(s3));
    assert(run_catalog(s1, ms.skip(1)) == Some(s3));
    assert(run_catalog(s0, ms) == Some(s3));
    assert(s3 == current_schema());
}

/// After a successful run, the recorded version is at least what it was and
/// at least every version in the catalog.
pub proof fn lemma_run_version_bound(s: SchemaState, ms: Seq<Migration>)
    requires
        run_catalog(s, ms) is Some,
    ensures
        run_catalog(s, ms).unwrap().version >= s.version,
        forall|i: int| 0 <= i < ms.len() ==> run_catalog(s, ms).unwrap().version >= ms[i].version,
    decreases ms.len(),
{
    if ms.len() == 0 {
    } else {
        let m = ms[0];
        if m.version <= s.version {
            lemma_run_version_bound(s, ms.skip(1));
        } else {
            lemma_run_version_bound(apply_step(s, m), ms.skip(1));
        }
        assert(forall|i: int| 1 <= i < ms.len() ==> ms[i] == ms.skip(1)[i - 1]);
    }
}

/// A catalog whose versions are all at or below the recorded version leaves
/// the schema untouched.
pub proof fn lemma_run_all_skipped(s: SchemaState, ms: Seq<Migration>)
    requires
        forall|i: int| 0 <= i < ms.len() ==> ms[i].version <= s.version,
    ensures
        run_catalog(s, ms) == Some(s),
    decreases ms.len(),
{
    if ms.len() == 0 {
    } else {
        assert(forall|i: int| 0 <= i < ms.skip(1).len() ==> ms.skip(1)[i] == ms[i + 1]);
        lemma_run_all_skipped(s, ms.skip(1));
    }
}

/// Catching up twice ends in the same schema state as catching up once: the
/// second run finds every version already recorded and applies nothing.
pub proof fn lemma_catch_up_idempotent(s: SchemaState, ms: Seq<Migration>)
    requires
        run_catalog(s, ms) is Some,
    ensures
        run_catalog(run_catalog(s, ms).unwrap(), ms) == run_catalog(s, ms),
{
    let s1 = run_catalog(s, ms).unwrap();
    lemma_run_version_bound(s, ms);
    lemma_run_all_skipped(s1, ms);
}

} // verus!
