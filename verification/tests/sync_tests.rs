use caldav_tasks::model::{Account, Calendar, Priority, StoreError, Task};
use caldav_tasks::store::Store;
use caldav_tasks::sync::{RemoteTask, SyncState, TaskEdit, sync_state_of};

fn acct(id: &str) -> Account {
    Account {
        id: id.to_string(),
        name: id.to_string(),
        server_url: "https://dav.example.net".to_string(),
        username: "user".to_string(),
        password: "swordfish".to_string(),
        server_type: Some("generic".to_string()),
        last_sync: None,
        is_active: true,
    }
}

fn cal(id: &str, account_id: &str, ctag: Option<&str>) -> Calendar {
    Calendar {
        id: id.to_string(),
        account_id: Some(account_id.to_string()),
        display_name: id.to_string(),
        url: format!("https://dav.example.net/{}/", id),
        ctag: ctag.map(|c| c.to_string()),
        sync_token: None,
        color: None,
        icon: None,
        supported_components: Some("VTODO".to_string()),
    }
}

fn fresh_task(uid: &str, cal_id: &str, acc_id: &str) -> Task {
    Task {
        id: format!("row-{}", uid),
        uid: uid.to_string(),
        etag: None,
        href: None,
        title: format!("task {}", uid),
        description: String::new(),
        completed: false,
        completed_at: None,
        tags: Vec::new(),
        category_id: None,
        priority: Priority::Unset,
        start_date: None,
        start_date_all_day: false,
        due_date: None,
        due_date_all_day: false,
        created_at: 10,
        modified_at: 10,
        reminders: Vec::new(),
        subtasks: Vec::new(),
        parent_uid: None,
        is_collapsed: false,
        sort_order: 0,
        account_id: Some(acc_id.to_string()),
        calendar_id: Some(cal_id.to_string()),
        synced: false,
        local_only: false,
        url: None,
    }
}

fn remote(uid: &str, href: &str, etag: &str, title: &str) -> RemoteTask {
    RemoteTask {
        uid: uid.to_string(),
        href: href.to_string(),
        etag: etag.to_string(),
        title: title.to_string(),
        description: "from server".to_string(),
        completed: false,
        completed_at: None,
        priority: Priority::Medium,
        start_date: None,
        start_date_all_day: false,
        due_date: Some(5000),
        due_date_all_day: true,
        tags: vec!["remote".to_string()],
        reminders: Vec::new(),
        category_id: None,
        url: None,
    }
}

fn seeded() -> Store {
    let mut s = Store::open();
    s.add_account(acct("a")).unwrap();
    s.add_calendar(cal("c", "a", Some("1"))).unwrap();
    s.add_task(fresh_task("t", "c", "a")).unwrap();
    s
}

#[test]
fn push_then_edit_then_conflict_scenario() {
    let mut s = seeded();
    let t_uid = "t".to_string();

    // a never-pushed task awaits its first push
    assert_eq!(sync_state_of(&s.tasks[0]), SyncState::PendingCreate);

    // pushing assigns href and etag and makes it synced
    assert_eq!(
        s.record_push(&t_uid, "/cal/1.ics".to_string(), "e1".to_string()),
        Ok(())
    );
    assert_eq!(sync_state_of(&s.tasks[0]), SyncState::Synced);
    assert_eq!(s.tasks[0].href, Some("/cal/1.ics".to_string()));
    assert_eq!(s.tasks[0].etag, Some("e1".to_string()));

    // a local edit makes it dirty
    assert_eq!(
        s.edit_task(&t_uid, TaskEdit::Title("new title".to_string()), 20),
        Ok(())
    );
    assert_eq!(sync_state_of(&s.tasks[0]), SyncState::Dirty);
    assert_eq!(s.tasks[0].title, "new title");
    assert!(!s.tasks[0].synced);

    // an unchanged ctag needs no per-task reconciliation
    let c_id = "c".to_string();
    assert_eq!(s.ctag_changed(&c_id, &Some("1".to_string())), Ok(false));
    // a changed ctag does
    assert_eq!(s.ctag_changed(&c_id, &Some("2".to_string())), Ok(true));

    // the remote changed too: conflict, local edits intact
    let r = remote("t", "/cal/1.ics", "e2", "their title");
    assert_eq!(s.apply_remote_update(&c_id, r, 30), Err(StoreError::SyncConflict));
    assert_eq!(s.tasks[0].title, "new title");
    assert_eq!(s.tasks[0].etag, Some("e1".to_string()));
    assert_eq!(sync_state_of(&s.tasks[0]), SyncState::Dirty);
}

#[test]
fn remote_update_overwrites_unmodified_copy() {
    let mut s = seeded();
    let t_uid = "t".to_string();
    let c_id = "c".to_string();
    s.record_push(&t_uid, "/cal/1.ics".to_string(), "e1".to_string()).unwrap();

    let r = remote("t", "/cal/1.ics", "e2", "their title");
    assert_eq!(s.apply_remote_update(&c_id, r, 40), Ok(()));
    assert_eq!(s.tasks[0].title, "their title");
    assert_eq!(s.tasks[0].etag, Some("e2".to_string()));
    assert_eq!(s.tasks[0].priority, Priority::Medium);
    assert_eq!(s.tasks[0].due_date, Some(5000));
    assert_eq!(sync_state_of(&s.tasks[0]), SyncState::Synced);
    // local bookkeeping survives the overwrite
    assert_eq!(s.tasks[0].id, "row-t");
    assert_eq!(s.tasks[0].created_at, 10);
}

#[test]
fn remote_update_with_unchanged_etag_is_a_noop() {
    let mut s = seeded();
    let t_uid = "t".to_string();
    let c_id = "c".to_string();
    s.record_push(&t_uid, "/cal/1.ics".to_string(), "e1".to_string()).unwrap();
    let before_title = s.tasks[0].title.clone();

    let r = remote("t", "/cal/1.ics", "e1", "their title");
    assert_eq!(s.apply_remote_update(&c_id, r, 40), Ok(()));
    assert_eq!(s.tasks[0].title, before_title);
}

#[test]
fn remote_update_creates_a_new_synced_row() {
    let mut s = seeded();
    let c_id = "c".to_string();
    let r = remote("fresh", "/cal/2.ics", "e9", "from afar");
    assert_eq!(s.apply_remote_update(&c_id, r, 50), Ok(()));
    assert_eq!(s.tasks.len(), 2);
    let t = &s.tasks[1];
    assert_eq!(t.uid, "fresh");
    assert_eq!(t.id, "fresh");
    assert_eq!(t.href, Some("/cal/2.ics".to_string()));
    assert_eq!(t.etag, Some("e9".to_string()));
    assert_eq!(t.account_id, Some("a".to_string()));
    assert_eq!(t.calendar_id, Some("c".to_string()));
    assert_eq!(sync_state_of(t), SyncState::Synced);
}

#[test]
fn remote_update_of_inconsistent_record_is_rejected() {
    let mut s = seeded();
    let c_id = "c".to_string();
    let mut r = remote("fresh", "/cal/2.ics", "e9", "bad");
    r.completed = true;  // flag without timestamp
    assert_eq!(s.apply_remote_update(&c_id, r, 50), Err(StoreError::ConstraintViolation));
    assert_eq!(s.tasks.len(), 1);
}

#[test]
fn remote_update_of_tombstoned_uid_is_a_conflict() {
    let mut s = seeded();
    let t_uid = "t".to_string();
    let c_id = "c".to_string();
    s.record_push(&t_uid, "/cal/1.ics".to_string(), "e1".to_string()).unwrap();
    s.delete_task(&t_uid).unwrap();
    let r = remote("t", "/cal/1.ics", "e2", "revived");
    assert_eq!(s.apply_remote_update(&c_id, r, 60), Err(StoreError::SyncConflict));
    assert_eq!(s.pending_deletions.len(), 1);
    assert!(s.tasks.is_empty());
}

#[test]
fn remote_removal_takes_synced_row_and_confirms_tombstones() {
    let mut s = seeded();
    let t_uid = "t".to_string();
    s.record_push(&t_uid, "/cal/1.ics".to_string(), "e1".to_string()).unwrap();

    // a synced copy is removed silently
    assert_eq!(s.apply_remote_removal(&t_uid), Ok(()));
    assert!(s.tasks.is_empty());
    assert!(s.pending_deletions.is_empty());

    // an unknown uid is already gone
    assert_eq!(s.apply_remote_removal(&"ghost".to_string()), Ok(()));

    // a tombstoned uid counts as confirmation
    s.add_task(fresh_task("t2", "c", "a")).unwrap();
    s.record_push(&"t2".to_string(), "/cal/2.ics".to_string(), "e5".to_string()).unwrap();
    s.delete_task(&"t2".to_string()).unwrap();
    assert_eq!(s.pending_deletions.len(), 1);
    assert_eq!(s.apply_remote_removal(&"t2".to_string()), Ok(()));
    assert!(s.pending_deletions.is_empty());
}

#[test]
fn remote_removal_of_dirty_copy_is_a_conflict() {
    let mut s = seeded();
    let t_uid = "t".to_string();
    s.record_push(&t_uid, "/cal/1.ics".to_string(), "e1".to_string()).unwrap();
    s.edit_task(&t_uid, TaskEdit::Description("local work".to_string()), 21).unwrap();
    assert_eq!(s.apply_remote_removal(&t_uid), Err(StoreError::SyncConflict));
    assert_eq!(s.tasks.len(), 1);
    assert_eq!(s.tasks[0].description, "local work");
}

#[test]
fn completing_a_task_sets_the_timestamp_exactly_when_completed() {
    let mut s = seeded();
    let t_uid = "t".to_string();
    assert_eq!(s.edit_task(&t_uid, TaskEdit::Completed(true), 42), Ok(()));
    assert!(s.tasks[0].completed);
    assert_eq!(s.tasks[0].completed_at, Some(42));
    assert_eq!(s.edit_task(&t_uid, TaskEdit::Completed(false), 43), Ok(()));
    assert!(!s.tasks[0].completed);
    assert_eq!(s.tasks[0].completed_at, None);
}

#[test]
fn edits_advance_the_modification_timestamp_monotonically() {
    let mut s = seeded();
    let t_uid = "t".to_string();
    s.edit_task(&t_uid, TaskEdit::Priority(Priority::High), 200).unwrap();
    assert_eq!(s.tasks[0].modified_at, 200);
    // an earlier clock reading never moves the timestamp backwards
    s.edit_task(&t_uid, TaskEdit::Priority(Priority::Low), 150).unwrap();
    assert_eq!(s.tasks[0].modified_at, 200);
    assert_eq!(s.tasks[0].priority, Priority::Low);
}

#[test]
fn local_only_task_is_never_pushed() {
    let mut s = Store::open();
    let mut t = fresh_task("solo", "c", "a");
    t.account_id = None;
    t.calendar_id = None;
    t.local_only = true;
    s.add_task(t).unwrap();
    assert_eq!(sync_state_of(&s.tasks[0]), SyncState::LocalOnly);
    assert_eq!(
        s.record_push(&"solo".to_string(), "/x.ics".to_string(), "e1".to_string()),
        Err(StoreError::ConstraintViolation)
    );
}

#[test]
fn calendar_cursors_advance_after_a_merge() {
    let mut s = seeded();
    let c_id = "c".to_string();
    assert_eq!(
        s.advance_calendar_sync(&c_id, Some("2".to_string()), Some("sync-7".to_string())),
        Ok(())
    );
    assert_eq!(s.calendars[0].ctag, Some("2".to_string()));
    assert_eq!(s.calendars[0].sync_token, Some("sync-7".to_string()));
    assert_eq!(
        s.advance_calendar_sync(&"nope".to_string(), None, None),
        Err(StoreError::ConstraintViolation)
    );
}

#[test]
fn state_counts_reflect_the_store() {
    let mut s = seeded();
    s.add_task(fresh_task("u", "c", "a")).unwrap();
    s.record_push(&"u".to_string(), "/cal/u.ics".to_string(), "eu".to_string()).unwrap();
    assert_eq!(s.count_in_state(SyncState::PendingCreate), 1);
    assert_eq!(s.count_in_state(SyncState::Synced), 1);
    assert_eq!(s.count_in_state(SyncState::Dirty), 0);
    s.edit_task(&"u".to_string(), TaskEdit::Title("x".to_string()), 99).unwrap();
    assert_eq!(s.count_in_state(SyncState::Dirty), 1);
    assert_eq!(s.pending_delete_count(), 0);
}
