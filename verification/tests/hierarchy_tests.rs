use caldav_tasks::model::{Account, Calendar, Priority, StoreError, Task};
use caldav_tasks::store::Store;

fn plain_task(uid: &str) -> Task {
    Task {
        id: format!("row-{}", uid),
        uid: uid.to_string(),
        etag: None,
        href: None,
        title: uid.to_string(),
        description: String::new(),
        completed: false,
        completed_at: None,
        tags: Vec::new(),
        category_id: None,
        priority: Priority::Unset,
        start_date: None,
        start_date_all_day: false,
        due_date: None,
        due_date_all_day: false,
        created_at: 1,
        modified_at: 1,
        reminders: Vec::new(),
        subtasks: Vec::new(),
        parent_uid: None,
        is_collapsed: false,
        sort_order: 0,
        account_id: None,
        calendar_id: Some("c".to_string()),
        synced: false,
        local_only: false,
        url: None,
    }
}

fn forest_store() -> Store {
    let mut s = Store::open();
    s.add_account(Account {
        id: "a".to_string(),
        name: "a".to_string(),
        server_url: "https://dav.example.net".to_string(),
        username: "user".to_string(),
        password: "swordfish".to_string(),
        server_type: None,
        last_sync: None,
        is_active: true,
    })
    .unwrap();
    s.add_calendar(Calendar {
        id: "c".to_string(),
        account_id: Some("a".to_string()),
        display_name: "c".to_string(),
        url: "https://dav.example.net/c/".to_string(),
        ctag: None,
        sync_token: None,
        color: None,
        icon: None,
        supported_components: None,
    })
    .unwrap();
    s.add_task(plain_task("x")).unwrap();
    s.add_task(plain_task("y")).unwrap();
    s.add_task(plain_task("z")).unwrap();
    s
}

#[test]
fn reparent_moves_a_task_below_another() {
    let mut s = forest_store();
    assert_eq!(
        s.reparent_task(&"y".to_string(), &Some("x".to_string())),
        Ok(())
    );
    assert_eq!(s.tasks[1].parent_uid, Some("x".to_string()));
}

#[test]
fn reparent_into_own_subtree_is_rejected_unchanged() {
    let mut s = forest_store();
    // y below x
    s.reparent_task(&"y".to_string(), &Some("x".to_string())).unwrap();
    // x below y would close a cycle: y's ancestry already holds x
    assert_eq!(
        s.reparent_task(&"x".to_string(), &Some("y".to_string())),
        Err(StoreError::ConstraintViolation)
    );
    assert_eq!(s.tasks[0].parent_uid, None);
    assert_eq!(s.tasks[1].parent_uid, Some("x".to_string()));
}

#[test]
fn reparent_deep_cycle_is_rejected() {
    let mut s = forest_store();
    // z below y below x
    s.reparent_task(&"y".to_string(), &Some("x".to_string())).unwrap();
    s.reparent_task(&"z".to_string(), &Some("y".to_string())).unwrap();
    // moving x below its grandchild z would close a cycle
    assert_eq!(
        s.reparent_task(&"x".to_string(), &Some("z".to_string())),
        Err(StoreError::ConstraintViolation)
    );
    // moving z under x directly is fine
    assert_eq!(s.reparent_task(&"z".to_string(), &Some("x".to_string())), Ok(()));
}

#[test]
fn reparent_to_self_or_missing_parent_is_rejected() {
    let mut s = forest_store();
    assert_eq!(
        s.reparent_task(&"x".to_string(), &Some("x".to_string())),
        Err(StoreError::ConstraintViolation)
    );
    assert_eq!(
        s.reparent_task(&"x".to_string(), &Some("ghost".to_string())),
        Err(StoreError::ConstraintViolation)
    );
    assert_eq!(
        s.reparent_task(&"ghost".to_string(), &None),
        Err(StoreError::ConstraintViolation)
    );
}

#[test]
fn reparent_to_top_level_detaches() {
    let mut s = forest_store();
    s.reparent_task(&"y".to_string(), &Some("x".to_string())).unwrap();
    assert_eq!(s.reparent_task(&"y".to_string(), &None), Ok(()));
    assert_eq!(s.tasks[1].parent_uid, None);
}

#[test]
fn collapse_flag_is_pure_presentation() {
    let mut s = forest_store();
    s.record_push(&"x".to_string(), "/c/x.ics".to_string(), "e1".to_string()).unwrap();
    let modified_before = s.tasks[0].modified_at;
    assert_eq!(s.set_collapsed(&"x".to_string(), true), Ok(()));
    assert!(s.tasks[0].is_collapsed);
    // no effect on sync state or timestamps
    assert!(s.tasks[0].synced);
    assert_eq!(s.tasks[0].modified_at, modified_before);
}

#[test]
fn manual_order_is_local_bookkeeping() {
    let mut s = forest_store();
    s.record_push(&"x".to_string(), "/c/x.ics".to_string(), "e1".to_string()).unwrap();
    assert_eq!(s.set_sort_order(&"x".to_string(), 42), Ok(()));
    assert_eq!(s.tasks[0].sort_order, 42);
    assert!(s.tasks[0].synced);
}

#[test]
fn renumbering_assigns_gap_spaced_positions() {
    let mut s = forest_store();
    let order = vec!["z".to_string(), "x".to_string(), "y".to_string()];
    assert_eq!(s.renumber_siblings(&order), Ok(()));
    assert_eq!(s.tasks[0].sort_order, 16); // x
    assert_eq!(s.tasks[1].sort_order, 32); // y
    assert_eq!(s.tasks[2].sort_order, 0); // z
}

#[test]
fn renumbering_rejects_unknown_and_repeated_names() {
    let mut s = forest_store();
    assert_eq!(
        s.renumber_siblings(&vec!["x".to_string(), "ghost".to_string()]),
        Err(StoreError::ConstraintViolation)
    );
    assert_eq!(
        s.renumber_siblings(&vec!["x".to_string(), "x".to_string()]),
        Err(StoreError::ConstraintViolation)
    );
    assert_eq!(s.tasks[0].sort_order, 0);
}
