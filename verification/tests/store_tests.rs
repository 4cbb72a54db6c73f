use caldav_tasks::migrate::CURRENT_SCHEMA_VERSION;
use caldav_tasks::model::{Account, Calendar, Priority, SortDirection, SortMode, StoreError, Task};
use caldav_tasks::store::Store;

fn account(id: &str) -> Account {
    Account {
        id: id.to_string(),
        name: format!("{} name", id),
        server_url: "https://dav.example.net".to_string(),
        username: "user".to_string(),
        password: "swordfish".to_string(),
        server_type: None,
        last_sync: None,
        is_active: true,
    }
}

fn calendar(id: &str, account_id: Option<&str>) -> Calendar {
    Calendar {
        id: id.to_string(),
        account_id: account_id.map(|a| a.to_string()),
        display_name: format!("{} calendar", id),
        url: format!("https://dav.example.net/{}/", id),
        ctag: None,
        sync_token: None,
        color: None,
        icon: None,
        supported_components: Some("VTODO".to_string()),
    }
}

fn task(uid: &str, cal: Option<&str>, acc: Option<&str>) -> Task {
    Task {
        id: format!("row-{}", uid),
        uid: uid.to_string(),
        etag: None,
        href: None,
        title: format!("task {}", uid),
        description: String::new(),
        completed: false,
        completed_at: None,
        tags: Vec::new(),
        category_id: None,
        priority: Priority::Unset,
        start_date: None,
        start_date_all_day: false,
        due_date: None,
        due_date_all_day: false,
        created_at: 100,
        modified_at: 100,
        reminders: Vec::new(),
        subtasks: Vec::new(),
        parent_uid: None,
        is_collapsed: false,
        sort_order: 0,
        account_id: acc.map(|a| a.to_string()),
        calendar_id: cal.map(|c| c.to_string()),
        synced: false,
        local_only: false,
        url: None,
    }
}

#[test]
fn open_store_is_migrated_and_empty() {
    let s = Store::open();
    assert_eq!(s.schema.version, CURRENT_SCHEMA_VERSION);
    assert!(s.schema.core_tables);
    assert!(s.accounts.is_empty());
    assert!(s.calendars.is_empty());
    assert!(s.tasks.is_empty());
    assert!(s.tags.is_empty());
    assert!(s.pending_deletions.is_empty());
    assert_eq!(s.ui_state.search_query, "");
    assert_eq!(s.ui_state.sort_mode, SortMode::Manual);
    assert_eq!(s.ui_state.sort_direction, SortDirection::Asc);
    assert!(s.ui_state.show_completed_tasks);
    assert!(!s.ui_state.is_editor_open);
}

#[test]
fn duplicate_account_id_is_rejected() {
    let mut s = Store::open();
    assert_eq!(s.add_account(account("a1")), Ok(()));
    assert_eq!(s.add_account(account("a1")), Err(StoreError::ConstraintViolation));
    assert_eq!(s.accounts.len(), 1);
}

#[test]
fn calendar_requires_existing_account() {
    let mut s = Store::open();
    assert_eq!(
        s.add_calendar(calendar("c1", Some("missing"))),
        Err(StoreError::ConstraintViolation)
    );
    assert_eq!(s.add_account(account("a1")), Ok(()));
    assert_eq!(s.add_calendar(calendar("c1", Some("a1"))), Ok(()));
    // a purely local calendar needs no account
    assert_eq!(s.add_calendar(calendar("c2", None)), Ok(()));
}

#[test]
fn task_boundary_checks_reject_bad_records() {
    let mut s = Store::open();
    s.add_account(account("a1")).unwrap();
    s.add_calendar(calendar("c1", Some("a1"))).unwrap();

    // completed flag without a timestamp
    let mut bad = task("t-bad", Some("c1"), Some("a1"));
    bad.completed = true;
    assert_eq!(s.add_task(bad), Err(StoreError::ConstraintViolation));

    // an account reference without a calendar reference
    let orphan = task("t-orphan", None, Some("a1"));
    assert_eq!(s.add_task(orphan), Err(StoreError::ConstraintViolation));

    // a dangling calendar reference
    let dangling = task("t-dangling", Some("nope"), None);
    assert_eq!(s.add_task(dangling), Err(StoreError::ConstraintViolation));

    // a parent that does not exist
    let mut orphan_child = task("t-child", Some("c1"), Some("a1"));
    orphan_child.parent_uid = Some("missing-parent".to_string());
    assert_eq!(s.add_task(orphan_child), Err(StoreError::ConstraintViolation));

    // a task that is its own parent
    let mut selfish = task("t-self", Some("c1"), Some("a1"));
    selfish.parent_uid = Some("t-self".to_string());
    assert_eq!(s.add_task(selfish), Err(StoreError::ConstraintViolation));

    // a good one passes, a second use of its uid does not
    assert_eq!(s.add_task(task("t1", Some("c1"), Some("a1"))), Ok(()));
    let mut dup = task("t1", Some("c1"), Some("a1"));
    dup.id = "row-other".to_string();
    assert_eq!(s.add_task(dup), Err(StoreError::ConstraintViolation));
    assert_eq!(s.tasks.len(), 1);
}

#[test]
fn deleting_synced_task_leaves_matching_tombstone() {
    let mut s = Store::open();
    s.add_account(account("a1")).unwrap();
    s.add_calendar(calendar("c1", Some("a1"))).unwrap();
    s.add_task(task("t1", Some("c1"), Some("a1"))).unwrap();
    s.record_push(&"t1".to_string(), "/cal/1.ics".to_string(), "e1".to_string()).unwrap();

    assert_eq!(s.delete_task(&"t1".to_string()), Ok(()));
    assert!(s.tasks.is_empty());
    assert_eq!(s.pending_deletions.len(), 1);
    let tomb = &s.pending_deletions[0];
    assert_eq!(tomb.uid, "t1");
    assert_eq!(tomb.href, "/cal/1.ics");
    assert_eq!(tomb.account_id, Some("a1".to_string()));
    assert_eq!(tomb.calendar_id, Some("c1".to_string()));
}

#[test]
fn deleting_unpushed_task_leaves_no_tombstone() {
    let mut s = Store::open();
    s.add_account(account("a1")).unwrap();
    s.add_calendar(calendar("c1", Some("a1"))).unwrap();
    s.add_task(task("t1", Some("c1"), Some("a1"))).unwrap();
    assert_eq!(s.delete_task(&"t1".to_string()), Ok(()));
    assert!(s.tasks.is_empty());
    assert!(s.pending_deletions.is_empty());
}

#[test]
fn confirmed_remote_delete_removes_only_the_tombstone() {
    let mut s = Store::open();
    s.add_account(account("a1")).unwrap();
    s.add_calendar(calendar("c1", Some("a1"))).unwrap();
    s.add_task(task("t1", Some("c1"), Some("a1"))).unwrap();
    s.add_task(task("t2", Some("c1"), Some("a1"))).unwrap();
    s.record_push(&"t1".to_string(), "/cal/1.ics".to_string(), "e1".to_string()).unwrap();
    s.delete_task(&"t1".to_string()).unwrap();
    assert_eq!(s.pending_deletions.len(), 1);

    assert_eq!(s.confirm_remote_delete(&"t1".to_string()), Ok(()));
    assert!(s.pending_deletions.is_empty());
    assert_eq!(s.tasks.len(), 1);
    assert_eq!(s.tasks[0].uid, "t2");

    // confirming again: nothing left to confirm
    assert_eq!(
        s.confirm_remote_delete(&"t1".to_string()),
        Err(StoreError::ConstraintViolation)
    );
}

#[test]
fn account_deletion_cascades_and_tombstones_pushed_tasks_only() {
    let mut s = Store::open();
    s.add_account(account("a1")).unwrap();
    s.add_account(account("a2")).unwrap();
    s.add_calendar(calendar("c1", Some("a1"))).unwrap();
    s.add_calendar(calendar("c2", Some("a2"))).unwrap();
    s.add_task(task("t1", Some("c1"), Some("a1"))).unwrap();
    s.add_task(task("t2", Some("c1"), Some("a1"))).unwrap();
    s.add_task(task("t3", Some("c2"), Some("a2"))).unwrap();
    s.record_push(&"t1".to_string(), "/c1/t1.ics".to_string(), "e1".to_string()).unwrap();

    assert_eq!(s.delete_account(&"a1".to_string()), Ok(()));
    assert_eq!(s.accounts.len(), 1);
    assert_eq!(s.accounts[0].id, "a2");
    assert_eq!(s.calendars.len(), 1);
    assert_eq!(s.calendars[0].id, "c2");
    assert_eq!(s.tasks.len(), 1);
    assert_eq!(s.tasks[0].uid, "t3");
    // only the pushed task left a tombstone
    assert_eq!(s.pending_deletions.len(), 1);
    assert_eq!(s.pending_deletions[0].uid, "t1");
    assert_eq!(s.pending_deletions[0].href, "/c1/t1.ics");
}

#[test]
fn calendar_deletion_cascades_to_its_tasks() {
    let mut s = Store::open();
    s.add_account(account("a1")).unwrap();
    s.add_calendar(calendar("c1", Some("a1"))).unwrap();
    s.add_calendar(calendar("c2", Some("a1"))).unwrap();
    s.add_task(task("t1", Some("c1"), Some("a1"))).unwrap();
    s.add_task(task("t2", Some("c2"), Some("a1"))).unwrap();

    assert_eq!(s.delete_calendar(&"c1".to_string()), Ok(()));
    assert_eq!(s.calendars.len(), 1);
    assert_eq!(s.tasks.len(), 1);
    assert_eq!(s.tasks[0].uid, "t2");
    assert!(s.pending_deletions.is_empty());
}

#[test]
fn deleting_a_parent_promotes_its_children() {
    let mut s = Store::open();
    s.add_account(account("a1")).unwrap();
    s.add_calendar(calendar("c1", Some("a1"))).unwrap();
    s.add_task(task("parent", Some("c1"), Some("a1"))).unwrap();
    let mut child = task("child", Some("c1"), Some("a1"));
    child.parent_uid = Some("parent".to_string());
    s.add_task(child).unwrap();

    assert_eq!(s.delete_task(&"parent".to_string()), Ok(()));
    assert_eq!(s.tasks.len(), 1);
    assert_eq!(s.tasks[0].uid, "child");
    assert_eq!(s.tasks[0].parent_uid, None);
}

#[test]
fn account_flags_and_sync_time_are_recorded() {
    let mut s = Store::open();
    s.add_account(account("a1")).unwrap();
    assert_eq!(s.set_account_active(&"a1".to_string(), false), Ok(()));
    assert!(!s.accounts[0].is_active);
    assert_eq!(s.set_account_last_sync(&"a1".to_string(), 777), Ok(()));
    assert_eq!(s.accounts[0].last_sync, Some(777));
    assert_eq!(
        s.set_account_active(&"nope".to_string(), true),
        Err(StoreError::ConstraintViolation)
    );
}

#[test]
fn tags_are_created_and_deleted_by_id() {
    let mut s = Store::open();
    let tag = caldav_tasks::model::Tag {
        id: "g1".to_string(),
        name: "errand".to_string(),
        color: "#ff8800".to_string(),
        icon: None,
    };
    assert_eq!(s.add_tag(tag), Ok(()));
    let again = caldav_tasks::model::Tag {
        id: "g1".to_string(),
        name: "other".to_string(),
        color: "#000000".to_string(),
        icon: None,
    };
    assert_eq!(s.add_tag(again), Err(StoreError::ConstraintViolation));
    assert_eq!(s.delete_tag(&"g1".to_string()), Ok(()));
    assert!(s.tags.is_empty());
    assert_eq!(s.delete_tag(&"g1".to_string()), Err(StoreError::ConstraintViolation));
}

#[test]
fn calendar_appearance_can_be_updated() {
    let mut s = Store::open();
    s.add_account(account("a1")).unwrap();
    s.add_calendar(calendar("c1", Some("a1"))).unwrap();
    assert_eq!(
        s.update_calendar_appearance(
            &"c1".to_string(),
            "Chores".to_string(),
            Some("#00ff00".to_string()),
            None,
        ),
        Ok(())
    );
    assert_eq!(s.calendars[0].display_name, "Chores");
    assert_eq!(s.calendars[0].color, Some("#00ff00".to_string()));
    // ownership and identity are untouched
    assert_eq!(s.calendars[0].id, "c1");
    assert_eq!(s.calendars[0].account_id, Some("a1".to_string()));
}
