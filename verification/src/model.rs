//! Entity model: the typed records held by the store and their
//! mathematical views.
//!
//! Every executable record has a view struct whose fields are spec values
//! (`Seq<char>` for strings, `Seq<Seq<char>>` for string lists); all
//! contracts in the crate are stated over these views.

use vstd::prelude::*;

verus! {

/// The error kinds surfaced by the store.
///
/// `TransientFetchFailure` belongs to the transport driver: the store itself
/// never returns it, but the type is shared so that drivers and the store
/// report through one channel.
#[derive(Clone, Copy, Debug, PartialEq, Eq, Structural)]
pub enum StoreError {
    /// A migration step could not be applied; the schema is left untouched.
    SchemaMigrationFailure,
    /// An operation would break a uniqueness, referential or hierarchy
    /// invariant; the store is left untouched.
    ConstraintViolation,
    /// A local record carrying unpushed edits collided with a changed remote
    /// record; both sides are preserved for explicit resolution.
    SyncConflict,
    /// A network fetch failed; retried by the driver with unchanged state.
    TransientFetchFailure,
}

/// Task priority, lowest to highest.
#[derive(Clone, Copy, Debug, PartialEq, Eq, Structural)]
pub enum Priority {
    Unset,
    Low,
    Medium,
    High,
}

/// Numeric rank of a priority, for ordering.
pub open spec fn priority_rank(p: Priority) -> int {
    match p {
        Priority::Unset => 0,
        Priority::Low => 1,
        Priority::Medium => 2,
        Priority::High => 3,
    }
}

/// Executable counterpart of [`priority_rank`].
pub fn priority_rank_exec(p: Priority) -> (r: u8)
    ensures
        r as int == priority_rank(p),
{
    match p {
        Priority::Unset => 0,
        Priority::Low => 1,
        Priority::Medium => 2,
        Priority::High => 3,
    }
}

/// The sort key a task list view is ordered by.
#[derive(Clone, Copy, Debug, PartialEq, Eq, Structural)]
pub enum SortMode {
    Manual,
    DueDate,
    Priority,
    CreatedAt,
}

#[derive(Clone, Copy, Debug, PartialEq, Eq, Structural)]
pub enum SortDirection {
    Asc,
    Desc,
}

/// One configured CalDAV server credential set.
pub struct Account {
    pub id: String,
    pub name: String,
    pub server_url: String,
    pub username: String,
    pub password: String,
    pub server_type: Option<String>,
    /// Timestamp of the last successful sync pass, if any.
    pub last_sync: Option<u64>,
    pub is_active: bool,
}

#[verifier::ext_equal]
pub struct AccountView {
    pub id: Seq<char>,
    pub name: Seq<char>,
    pub server_url: Seq<char>,
    pub username: Seq<char>,
    pub password: Seq<char>,
    pub server_type: Option<Seq<char>>,
    pub last_sync: Option<u64>,
    pub is_active: bool,
}

impl View for Account {
    type V = AccountView;

    open spec fn view(&self) -> AccountView {
        AccountView {
            id: self.id@,
            name: self.name@,
            server_url: self.server_url@,
            username: self.username@,
            password: self.password@,
            server_type: self.server_type.deep_view(),
            last_sync: self.last_sync,
            is_active: self.is_active,
        }
    }
}

/// One remote collection (a CalDAV calendar) and its sync cursors.
pub struct Calendar {
    pub id: String,
    /// Owning account; `None` for a purely local calendar.
    pub account_id: Option<String>,
    pub display_name: String,
    pub url: String,
    /// Collection-level change tag; changes whenever any member changes.
    pub ctag: Option<String>,
    /// Server-issued cursor for incremental sync.
    pub sync_token: Option<String>,
    pub color: Option<String>,
    pub icon: Option<String>,
    pub supported_components: Option<String>,
}

#[verifier::ext_equal]
pub struct CalendarView {
    pub id: Seq<char>,
    pub account_id: Option<Seq<char>>,
    pub display_name: Seq<char>,
    pub url: Seq<char>,
    pub ctag: Option<Seq<char>>,
    pub sync_token: Option<Seq<char>>,
    pub color: Option<Seq<char>>,
    pub icon: Option<Seq<char>>,
    pub supported_components: Option<Seq<char>>,
}

impl View for Calendar {
    type V = CalendarView;

    open spec fn view(&self) -> CalendarView {
        CalendarView {
            id: self.id@,
            account_id: self.account_id.deep_view(),
            display_name: self.display_name@,
            url: self.url@,
            ctag: self.ctag.deep_view(),
            sync_token: self.sync_token.deep_view(),
            color: self.color.deep_view(),
            icon: self.icon.deep_view(),
            supported_components: self.supported_components.deep_view(),
        }
    }
}

/// The synchronized unit: one CalDAV VTODO mirrored locally.
pub struct Task {
    /// Local row key.
    pub id: String,
    /// Globally unique stable identifier; the join key with the remote
    /// object. Immutable once assigned.
    pub uid: String,
    /// Per-resource version tag from the server; `None` until first sync.
    pub etag: Option<String>,
    /// Remote resource path; `None` until assigned by the server.
    pub href: Option<String>,
    pub title: String,
    pub description: String,
    pub completed: bool,
    /// Set if and only if `completed` is set.
    pub completed_at: Option<u64>,
    pub tags: Vec<String>,
    pub category_id: Option<String>,
    pub priority: Priority,
    pub start_date: Option<u64>,
    pub start_date_all_day: bool,
    pub due_date: Option<u64>,
    pub due_date_all_day: bool,
    pub created_at: u64,
    pub modified_at: u64,
    pub reminders: Vec<String>,
    /// Derived cache of child uids; the `parent_uid` relation is the source
    /// of truth and this list is rebuildable from it, never authoritative.
    pub subtasks: Vec<String>,
    /// The owning parent task's uid; the relation must stay a forest.
    pub parent_uid: Option<String>,
    /// Presentation flag; no effect on hierarchy or sync state.
    pub is_collapsed: bool,
    /// Manual position among siblings.
    pub sort_order: i64,
    /// Owning account; `None` while the task is purely local.
    pub account_id: Option<String>,
    /// Owning calendar; must be set whenever `account_id` is.
    pub calendar_id: Option<String>,
    /// True only if the local fields are known to match the last fetch.
    pub synced: bool,
    /// True if the task must never be pushed to a server.
    pub local_only: bool,
    /// Optional task URL.
    pub url: Option<String>,
}

#[verifier::ext_equal]
pub struct TaskView {
    pub id: Seq<char>,
    pub uid: Seq<char>,
    pub etag: Option<Seq<char>>,
    pub href: Option<Seq<char>>,
    pub title: Seq<char>,
    pub description: Seq<char>,
    pub completed: bool,
    pub completed_at: Option<u64>,
    pub tags: Seq<Seq<char>>,
    pub category_id: Option<Seq<char>>,
    pub priority: Priority,
    pub start_date: Option<u64>,
    pub start_date_all_day: bool,
    pub due_date: Option<u64>,
    pub due_date_all_day: bool,
    pub created_at: u64,
    pub modified_at: u64,
    pub reminders: Seq<Seq<char>>,
    pub subtasks: Seq<Seq<char>>,
    pub parent_uid: Option<Seq<char>>,
    pub is_collapsed: bool,
    pub sort_order: i64,
    pub account_id: Option<Seq<char>>,
    pub calendar_id: Option<Seq<char>>,
    pub synced: bool,
    pub local_only: bool,
    pub url: Option<Seq<char>>,
}

impl View for Task {
    type V = TaskView;

    open spec fn view(&self) -> TaskView {
        TaskView {
            id: self.id@,
            uid: self.uid@,
            etag: self.etag.deep_view(),
            href: self.href.deep_view(),
            title: self.title@,
            description: self.description@,
            completed: self.completed,
            completed_at: self.completed_at,
            tags: self.tags.deep_view(),
            category_id: self.category_id.deep_view(),
            priority: self.priority,
            start_date: self.start_date,
            start_date_all_day: self.start_date_all_day,
            due_date: self.due_date,
            due_date_all_day: self.due_date_all_day,
            created_at: self.created_at,
            modified_at: self.modified_at,
            reminders: self.reminders.deep_view(),
            subtasks: self.subtasks.deep_view(),
            parent_uid: self.parent_uid.deep_view(),
            is_collapsed: self.is_collapsed,
            sort_order: self.sort_order,
            account_id: self.account_id.deep_view(),
            calendar_id: self.calendar_id.deep_view(),
            synced: self.synced,
            local_only: self.local_only,
            url: self.url.deep_view(),
        }
    }
}

/// A named, colored label shared across all tasks.
pub struct Tag {
    pub id: String,
    pub name: String,
    pub color: String,
    pub icon: Option<String>,
}

#[verifier::ext_equal]
pub struct TagView {
    pub id: Seq<char>,
    pub name: Seq<char>,
    pub color: Seq<char>,
    pub icon: Option<Seq<char>>,
}

impl View for Tag {
    type V = TagView;

    open spec fn view(&self) -> TagView {
        TagView { id: self.id@, name: self.name@, color: self.color@, icon: self.icon.deep_view() }
    }
}

/// Tombstone for a task that was synchronized once (it had an `href`) and
/// was deleted locally before the deletion was confirmed remotely.
pub struct PendingDeletion {
    pub uid: String,
    pub href: String,
    pub account_id: Option<String>,
    pub calendar_id: Option<String>,
}

#[verifier::ext_equal]
pub struct PendingDeletionView {
    pub uid: Seq<char>,
    pub href: Seq<char>,
    pub account_id: Option<Seq<char>>,
    pub calendar_id: Option<Seq<char>>,
}

impl View for PendingDeletion {
    type V = PendingDeletionView;

    open spec fn view(&self) -> PendingDeletionView {
        PendingDeletionView {
            uid: self.uid@,
            href: self.href@,
            account_id: self.account_id.deep_view(),
            calendar_id: self.calendar_id.deep_view(),
        }
    }
}

/// Singleton persisted view-state; shares the store's transactional
/// boundary but carries no sync-relevant invariants.
pub struct UiState {
    pub active_account_id: Option<String>,
    pub active_calendar_id: Option<String>,
    pub active_tag_id: Option<String>,
    pub selected_task_id: Option<String>,
    pub search_query: String,
    pub sort_mode: SortMode,
    pub sort_direction: SortDirection,
    pub show_completed_tasks: bool,
    pub is_editor_open: bool,
}

#[verifier::ext_equal]
pub struct UiStateView {
    pub active_account_id: Option<Seq<char>>,
    pub active_calendar_id: Option<Seq<char>>,
    pub active_tag_id: Option<Seq<char>>,
    pub selected_task_id: Option<Seq<char>>,
    pub search_query: Seq<char>,
    pub sort_mode: SortMode,
    pub sort_direction: SortDirection,
    pub show_completed_tasks: bool,
    pub is_editor_open: bool,
}

impl View for UiState {
    type V = UiStateView;

    open spec fn view(&self) -> UiStateView {
        UiStateView {
            active_account_id: self.active_account_id.deep_view(),
            active_calendar_id: self.active_calendar_id.deep_view(),
            active_tag_id: self.active_tag_id.deep_view(),
            selected_task_id: self.selected_task_id.deep_view(),
            search_query: self.search_query@,
            sort_mode: self.sort_mode,
            sort_direction: self.sort_direction,
            show_completed_tasks: self.show_completed_tasks,
            is_editor_open: self.is_editor_open,
        }
    }
}

impl UiState {
    /// The row the first migration seeds: everything unset, manual
    /// ascending order, completed tasks shown, editor closed.
    pub fn initial() -> (u: UiState)
        ensures
            u@ == initial_ui_state(),
    {
        let u = UiState {
            active_account_id: None,
            active_calendar_id: None,
            active_tag_id: None,
            selected_task_id: None,
            search_query: String::new(),
            sort_mode: SortMode::Manual,
            sort_direction: SortDirection::Asc,
            show_completed_tasks: true,
            is_editor_open: false,
        };
        proof {
            assert(u@ =~= initial_ui_state());
        }
        u
    }
}

/// The seeded singleton row of the view-state table.
pub open spec fn initial_ui_state() -> UiStateView {
    UiStateView {
        active_account_id: None,
        active_calendar_id: None,
        active_tag_id: None,
        selected_task_id: None,
        search_query: Seq::<char>::empty(),
        sort_mode: SortMode::Manual,
        sort_direction: SortDirection::Asc,
        show_completed_tasks: true,
        is_editor_open: false,
    }
}

} // verus!
