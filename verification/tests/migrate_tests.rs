use caldav_tasks::migrate::{
    CURRENT_SCHEMA_VERSION, Migration, MigrationEffect, SchemaState, catch_up, migration_catalog,
};
use caldav_tasks::model::StoreError;

#[test]
fn catalog_runs_on_fresh_store() {
    let mut schema = SchemaState::fresh();
    let catalog = migration_catalog();
    assert_eq!(catch_up(&mut schema, &catalog), Ok(()));
    assert_eq!(schema.version, CURRENT_SCHEMA_VERSION);
    assert!(schema.core_tables);
    assert!(schema.task_ownership_nullable);
    assert!(schema.task_url_column);
}

#[test]
fn catch_up_twice_ends_in_same_state() {
    let mut schema = SchemaState::fresh();
    let catalog = migration_catalog();
    assert_eq!(catch_up(&mut schema, &catalog), Ok(()));
    let once = schema;
    assert_eq!(catch_up(&mut schema, &catalog), Ok(()));
    assert_eq!(schema, once);
}

#[test]
fn catch_up_applies_only_newer_versions() {
    let mut schema = SchemaState {
        version: 1,
        core_tables: true,
        task_ownership_nullable: false,
        task_url_column: false,
    };
    let catalog = migration_catalog();
    assert_eq!(catch_up(&mut schema, &catalog), Ok(()));
    assert_eq!(schema.version, 3);
    assert!(schema.task_ownership_nullable);
    assert!(schema.task_url_column);
}

#[test]
fn unordered_catalog_is_rejected_unchanged() {
    let mut schema = SchemaState::fresh();
    let catalog = vec![
        Migration { version: 2, effect: MigrationEffect::RelaxTaskOwnership },
        Migration { version: 1, effect: MigrationEffect::CreateInitialTables },
    ];
    assert_eq!(catch_up(&mut schema, &catalog), Err(StoreError::SchemaMigrationFailure));
    assert_eq!(schema, SchemaState::fresh());
}

#[test]
fn inapplicable_step_aborts_whole_run() {
    let mut schema = SchemaState::fresh();
    let catalog = vec![Migration { version: 1, effect: MigrationEffect::RelaxTaskOwnership }];
    assert_eq!(catch_up(&mut schema, &catalog), Err(StoreError::SchemaMigrationFailure));
    assert_eq!(schema, SchemaState::fresh());
}

#[test]
fn duplicate_url_column_aborts_and_rolls_back() {
    let mut schema = SchemaState::fresh();
    let catalog = vec![
        Migration { version: 1, effect: MigrationEffect::CreateInitialTables },
        Migration { version: 2, effect: MigrationEffect::AddTaskUrl },
        Migration { version: 3, effect: MigrationEffect::AddTaskUrl },
    ];
    assert_eq!(catch_up(&mut schema, &catalog), Err(StoreError::SchemaMigrationFailure));
    assert_eq!(schema, SchemaState::fresh());
}
