use caldav_tasks::model::{Account, Calendar, Priority, SortDirection, SortMode, Task};
use caldav_tasks::query::{TaskQuery, sort_tasks};
use caldav_tasks::store::Store;
use caldav_tasks::strutil::str_contains;

fn entry(uid: &str, title: &str) -> Task {
    Task {
        id: format!("row-{}", uid),
        uid: uid.to_string(),
        etag: None,
        href: None,
        title: title.to_string(),
        description: String::new(),
        completed: false,
        completed_at: None,
        tags: Vec::new(),
        category_id: None,
        priority: Priority::Unset,
        start_date: None,
        start_date_all_day: false,
        due_date: None,
        due_date_all_day: false,
        created_at: 1,
        modified_at: 1,
        reminders: Vec::new(),
        subtasks: Vec::new(),
        parent_uid: None,
        is_collapsed: false,
        sort_order: 0,
        account_id: None,
        calendar_id: Some("c1".to_string()),
        synced: false,
        local_only: false,
        url: None,
    }
}

fn query_store() -> Store {
    let mut s = Store::open();
    s.add_account(Account {
        id: "a".to_string(),
        name: "a".to_string(),
        server_url: "https://dav.example.net".to_string(),
        username: "user".to_string(),
        password: "swordfish".to_string(),
        server_type: None,
        last_sync: None,
        is_active: true,
    })
    .unwrap();
    for cid in ["c1", "c2"] {
        s.add_calendar(Calendar {
            id: cid.to_string(),
            account_id: Some("a".to_string()),
            display_name: cid.to_string(),
            url: format!("https://dav.example.net/{}/", cid),
            ctag: None,
            sync_token: None,
            color: None,
            icon: None,
            supported_components: None,
        })
        .unwrap();
    }
    let mut groceries = entry("t1", "Buy groceries");
    groceries.tags = vec!["errand".to_string()];
    groceries.due_date = Some(300);
    groceries.sort_order = 2;
    s.add_task(groceries).unwrap();

    let mut report = entry("t2", "Write the quarterly report");
    report.calendar_id = Some("c2".to_string());
    report.priority = Priority::High;
    report.due_date = Some(100);
    report.sort_order = 1;
    report.created_at = 9;
    report.modified_at = 9;
    s.add_task(report).unwrap();

    let mut done = entry("t3", "Renew passport");
    done.completed = true;
    done.completed_at = Some(50);
    done.priority = Priority::Low;
    done.sort_order = 3;
    s.add_task(done).unwrap();
    s
}

fn all_query() -> TaskQuery {
    TaskQuery {
        calendar_id: None,
        account_id: None,
        tag: None,
        include_completed: true,
        search: None,
    }
}

#[test]
fn select_filters_by_calendar() {
    let s = query_store();
    let mut q = all_query();
    q.calendar_id = Some("c2".to_string());
    let r = s.select_tasks(&q);
    assert_eq!(r.len(), 1);
    assert_eq!(r[0].uid, "t2");
}

#[test]
fn select_can_hide_completed_tasks() {
    let s = query_store();
    let mut q = all_query();
    q.include_completed = false;
    let r = s.select_tasks(&q);
    assert_eq!(r.len(), 2);
    assert!(r.iter().all(|t| !t.completed));
}

#[test]
fn select_filters_by_tag() {
    let s = query_store();
    let mut q = all_query();
    q.tag = Some("errand".to_string());
    let r = s.select_tasks(&q);
    assert_eq!(r.len(), 1);
    assert_eq!(r[0].uid, "t1");
}

#[test]
fn search_matches_substrings_of_title() {
    let s = query_store();
    let mut q = all_query();
    q.search = Some("port".to_string());
    let r = s.select_tasks(&q);
    // "report" and "passport" both contain "port"
    assert_eq!(r.len(), 2);
    assert_eq!(r[0].uid, "t2");
    assert_eq!(r[1].uid, "t3");

    q.search = Some("zeppelin".to_string());
    assert!(s.select_tasks(&q).is_empty());
}

#[test]
fn substring_search_is_exact() {
    assert!(str_contains("Write the quarterly report", "quarter"));
    assert!(!str_contains("Write the quarterly report", "Quarter"));
    assert!(str_contains("anything", ""));
    assert!(!str_contains("", "a"));
    assert!(str_contains("aaab", "aab"));
}

#[test]
fn sort_by_due_date_puts_undated_last() {
    let s = query_store();
    let r = sort_tasks(s.select_tasks(&all_query()), SortMode::DueDate, SortDirection::Asc);
    let uids: Vec<&str> = r.iter().map(|t| t.uid.as_str()).collect();
    assert_eq!(uids, vec!["t2", "t1", "t3"]);
}

#[test]
fn sort_by_priority_descending() {
    let s = query_store();
    let r = sort_tasks(s.select_tasks(&all_query()), SortMode::Priority, SortDirection::Desc);
    assert_eq!(r[0].uid, "t2");
    assert_eq!(r[1].uid, "t3");
    assert_eq!(r[2].uid, "t1");
}

#[test]
fn sort_by_manual_order() {
    let s = query_store();
    let r = sort_tasks(s.select_tasks(&all_query()), SortMode::Manual, SortDirection::Asc);
    let uids: Vec<&str> = r.iter().map(|t| t.uid.as_str()).collect();
    assert_eq!(uids, vec!["t2", "t1", "t3"]);
}

#[test]
fn sort_by_creation_time() {
    let s = query_store();
    let r = sort_tasks(s.select_tasks(&all_query()), SortMode::CreatedAt, SortDirection::Asc);
    // t2 was created latest and sorts last ascending
    assert_eq!(r[2].uid, "t2");
    assert!(r[0].created_at <= r[1].created_at && r[1].created_at <= r[2].created_at);
}

#[test]
fn duplicate_copies_every_field() {
    let s = query_store();
    let t = &s.tasks[0];
    let d = t.duplicate();
    assert_eq!(d.uid, t.uid);
    assert_eq!(d.title, t.title);
    assert_eq!(d.tags, t.tags);
    assert_eq!(d.due_date, t.due_date);
    assert_eq!(d.calendar_id, t.calendar_id);
}
