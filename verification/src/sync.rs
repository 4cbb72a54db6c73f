//! The sync-state tracker: classifies every task against the remote source
//! and drives the transitions as local edits, pushes and fetches occur.
//!
//! * Any local field edit on a synced task makes it dirty.
//! * A successful push records the server-issued `etag` and `href` and makes
//!   the task synced.
//! * A remote change overwrites only an unmodified local copy; a dirty local
//!   copy colliding with a changed remote `etag` is surfaced as
//!   [`StoreError::SyncConflict`] with both sides preserved.
//! * A calendar's `ctag` is the cheap pre-check: an unchanged `ctag` means
//!   no per-task reconciliation is needed.

use vstd::prelude::*;
use crate::model::{CalendarView, Priority, StoreError, Task, TaskView};
use crate::store::{
    Store, StoreView, calendar_index, detached_outside, has_calendar, has_pending, has_task_id,
    lemma_calendar_index_pins, lemma_calendar_update_wf, lemma_remove_row_wf, lemma_task_update_wf,
    pending_index, task_admissible, task_record_ok,
};
use crate::strutil::clone_opt_str;
use vstd::pervasive::unreached;
use crate::hierarchy::{has_uid, lemma_uid_index_pins, uid_index};

verus! {

/// The reconciliation state of one live task row. A task deleted locally
/// but not yet confirmed remotely has no row; its state lives in the
/// tombstone list.
#[derive(Clone, Copy, Debug, PartialEq, Eq, Structural)]
pub enum SyncState {
    /// Never to be pushed to any server.
    LocalOnly,
    /// Not yet assigned a remote path; awaiting its first push.
    PendingCreate,
    /// The local fields match the last-fetched remote state.
    Synced,
    /// Local edits exist since the last fetch.
    Dirty,
}

/// Classification of a task record.
pub open spec fn task_sync_state(t: TaskView) -> SyncState {
    if t.local_only {
        SyncState::LocalOnly
    } else if t.href is None {
        SyncState::PendingCreate
    } else if t.synced {
        SyncState::Synced
    } else {
        SyncState::Dirty
    }
}

/// Executable counterpart of [`task_sync_state`].
pub fn sync_state_of(t: &Task) -> (s: SyncState)
    ensures
        s == task_sync_state(t@),
{
    if t.local_only {
        SyncState::LocalOnly
    } else if t.href.is_none() {
        SyncState::PendingCreate
    } else if t.synced {
        SyncState::Synced
    } else {
        SyncState::Dirty
    }
}

/// The larger of two timestamps.
pub open spec fn max_time(a: u64, b: u64) -> u64 {
    if a >= b {
        a
    } else {
        b
    }
}

/// One local field mutation.
pub enum TaskEdit {
    Title(String),
    Description(String),
    Priority(Priority),
    Tags(Vec<String>),
    Category(Option<String>),
    StartDate(Option<u64>, bool),
    DueDate(Option<u64>, bool),
    Completed(bool),
    Url(Option<String>),
    Reminders(Vec<String>),
}

#[verifier::ext_equal]
pub enum TaskEditView {
    Title(Seq<char>),
    Description(Seq<char>),
    Priority(Priority),
    Tags(Seq<Seq<char>>),
    Category(Option<Seq<char>>),
    StartDate(Option<u64>, bool),
    DueDate(Option<u64>, bool),
    Completed(bool),
    Url(Option<Seq<char>>),
    Reminders(Seq<Seq<char>>),
}

impl View for TaskEdit {
    type V = TaskEditView;

    open spec fn view(&self) -> TaskEditView {
        match self {
            TaskEdit::Title(s) => TaskEditView::Title(s@),
            TaskEdit::Description(s) => TaskEditView::Description(s@),
            TaskEdit::Priority(p) => TaskEditView::Priority(*p),
            TaskEdit::Tags(v) => TaskEditView::Tags(v.deep_view()),
            TaskEdit::Category(c) => TaskEditView::Category(c.deep_view()),
            TaskEdit::StartDate(d, a) => TaskEditView::StartDate(*d, *a),
            TaskEdit::DueDate(d, a) => TaskEditView::DueDate(*d, *a),
            TaskEdit::Completed(b) => TaskEditView::Completed(*b),
            TaskEdit::Url(u) => TaskEditView::Url(u.deep_view()),
            TaskEdit::Reminders(v) => TaskEditView::Reminders(v.deep_view()),
        }
    }
}

/// The record after one field mutation, before sync-state bookkeeping.
/// Completion keeps its timestamp rule: the timestamp is set exactly when
/// the flag is.
pub open spec fn edited_fields(t: TaskView, e: TaskEditView, now: u64) -> TaskView {
    match e {
        TaskEditView::Title(s) => TaskView { title: s, ..t },
        TaskEditView::Description(s) => TaskView { description: s, ..t },
        TaskEditView::Priority(p) => TaskView { priority: p, ..t },
        TaskEditView::Tags(v) => TaskView { tags: v, ..t },
        TaskEditView::Category(c) => TaskView { category_id: c, ..t },
        TaskEditView::StartDate(d, a) => TaskView { start_date: d, start_date_all_day: a, ..t },
        TaskEditView::DueDate(d, a) => TaskView { due_date: d, due_date_all_day: a, ..t },
        TaskEditView::Completed(b) => TaskView {
            completed: b,
            completed_at: if b {
                Option::Some(now)
            } else {
                Option::None
            },
            ..t
        },
        TaskEditView::Url(u) => TaskView { url: u, ..t },
        TaskEditView::Reminders(v) => TaskView { reminders: v, ..t },
    }
}

/// The record after a local edit: the field mutation, the modification
/// timestamp advanced monotonically, and the synced flag dropped — whatever
/// the remote holds no longer matches.
pub open spec fn apply_edit(t: TaskView, e: TaskEditView, now: u64) -> TaskView {
    TaskView {
        synced: false,
        modified_at: max_time(t.modified_at, now),
        ..edited_fields(t, e, now)
    }
}

/// The record after a successful push acknowledged with a server-issued
/// `etag` (and, for a first push, `href`).
pub open spec fn pushed(t: TaskView, href: Seq<char>, etag: Seq<char>) -> TaskView {
    TaskView { href: Option::Some(href), etag: Option::Some(etag), synced: true, ..t }
}

/// One fetched remote resource, already parsed from its calendar object
/// format into plain fields by the external parser.
pub struct RemoteTask {
    pub uid: String,
    pub href: String,
    pub etag: String,
    pub title: String,
    pub description: String,
    pub completed: bool,
    pub completed_at: Option<u64>,
    pub priority: Priority,
    pub start_date: Option<u64>,
    pub start_date_all_day: bool,
    pub due_date: Option<u64>,
    pub due_date_all_day: bool,
    pub tags: Vec<String>,
    pub reminders: Vec<String>,
    pub category_id: Option<String>,
    pub url: Option<String>,
}

#[verifier::ext_equal]
pub struct RemoteTaskView {
    pub uid: Seq<char>,
    pub href: Seq<char>,
    pub etag: Seq<char>,
    pub title: Seq<char>,
    pub description: Seq<char>,
    pub completed: bool,
    pub completed_at: Option<u64>,
    pub priority: Priority,
    pub start_date: Option<u64>,
    pub start_date_all_day: bool,
    pub due_date: Option<u64>,
    pub due_date_all_day: bool,
    pub tags: Seq<Seq<char>>,
    pub reminders: Seq<Seq<char>>,
    pub category_id: Option<Seq<char>>,
    pub url: Option<Seq<char>>,
}

impl View for RemoteTask {
    type V = RemoteTaskView;

    open spec fn view(&self) -> RemoteTaskView {
        RemoteTaskView {
            uid: self.uid@,
            href: self.href@,
            etag: self.etag@,
            title: self.title@,
            description: self.description@,
            completed: self.completed,
            completed_at: self.completed_at,
            priority: self.priority,
            start_date: self.start_date,
            start_date_all_day: self.start_date_all_day,
            due_date: self.due_date,
            due_date_all_day: self.due_date_all_day,
            tags: self.tags.deep_view(),
            reminders: self.reminders.deep_view(),
            category_id: self.category_id.deep_view(),
            url: self.url.deep_view(),
        }
    }
}

/// A remote record is rejected at the boundary when its completion flag and
/// timestamp disagree.
pub open spec fn remote_record_ok(r: RemoteTaskView) -> bool {
    r.completed <==> r.completed_at is Some
}

/// A local record overwritten by an unmodified remote fetch: the remote
/// fields win, the local-only bookkeeping (row id, uid, hierarchy, manual
/// order, collapse flag, ownership, creation time) stays.
pub open spec fn merged(t: TaskView, r: RemoteTaskView, now: u64) -> TaskView {
    TaskView {
        etag: Option::Some(r.etag),
        href: Option::Some(r.href),
        title: r.title,
        description: r.description,
        completed: r.completed,
        completed_at: r.completed_at,
        tags: r.tags,
        category_id: r.category_id,
        priority: r.priority,
        start_date: r.start_date,
        start_date_all_day: r.start_date_all_day,
        due_date: r.due_date,
        due_date_all_day: r.due_date_all_day,
        reminders: r.reminders,
        url: r.url,
        modified_at: max_time(t.modified_at, now),
        synced: true,
        ..t
    }
}

/// The row created for a remote resource fetched into this calendar: the
/// remote fields, the calendar's ownership, the uid doubling as the local
/// row id, and no local-only state.
pub open spec fn new_remote_task(cal: CalendarView, r: RemoteTaskView, now: u64) -> TaskView {
    TaskView {
        id: r.uid,
        uid: r.uid,
        etag: Option::Some(r.etag),
        href: Option::Some(r.href),
        title: r.title,
        description: r.description,
        completed: r.completed,
        completed_at: r.completed_at,
        tags: r.tags,
        category_id: r.category_id,
        priority: r.priority,
        start_date: r.start_date,
        start_date_all_day: r.start_date_all_day,
        due_date: r.due_date,
        due_date_all_day: r.due_date_all_day,
        created_at: now,
        modified_at: now,
        reminders: r.reminders,
        subtasks: Seq::empty(),
        parent_uid: Option::None,
        is_collapsed: false,
        sort_order: 0,
        account_id: cal.account_id,
        calendar_id: Option::Some(cal.id),
        synced: true,
        local_only: false,
        url: r.url,
    }
}

impl Store {
    /// Apply one local field mutation to the task with this uid, at local
    /// time `now`. Rejected exactly when the uid is unknown. The mutation
    /// drops the synced flag — a synced task becomes dirty — and advances
    /// the modification timestamp monotonically.
    #[verifier::rlimit(80)]
    pub fn edit_task(&mut self, uid: &String, e: TaskEdit, now: u64) -> (r: Result<
        (),
        StoreError,
    >)
        requires
            old(self)@.wf(),
        ensures
            final(self)@.wf(),
            match r {
                Ok(()) => {
                    &&& has_uid(old(self)@.tasks, uid@)
                    &&& final(self)@ == (StoreView {
                        tasks: old(self)@.tasks.update(
                            uid_index(old(self)@.tasks, uid@),
                            apply_edit(
                                old(self)@.tasks[uid_index(old(self)@.tasks, uid@)],
                                e@,
                                now,
                            ),
                        ),
                        ..old(self)@
                    })
                },
                Err(err) => {
                    &&& err == StoreError::ConstraintViolation
                    &&& !has_uid(old(self)@.tasks, uid@)
                    &&& final(self)@ == old(self)@
                },
            },
    {
        let found = self.find_task(uid);
        let i = match found {
            Option::None => {
                return Err(StoreError::ConstraintViolation);
            },
            Option::Some(i) => i,
        };
        proof {
            lemma_uid_index_pins(self@.tasks, i as int, uid@);
        }
        let ghost orig = self@;
        let ghost ev = e@;
        let ghost before = self.tasks@[i as int];
        let elem = &mut self.tasks[i];
        proof {
            assert(*elem == before);
            assert(before@ == orig.tasks[i as int]);
        }
        match e {
            TaskEdit::Title(s) => {
                elem.title = s;
            },
            TaskEdit::Description(s) => {
                elem.description = s;
            },
            TaskEdit::Priority(p) => {
                elem.priority = p;
            },
            TaskEdit::Tags(v) => {
                elem.tags = v;
            },
            TaskEdit::Category(c) => {
                elem.category_id = c;
            },
            TaskEdit::StartDate(d, a) => {
                elem.start_date = d;
                elem.start_date_all_day = a;
            },
            TaskEdit::DueDate(d, a) => {
                elem.due_date = d;
                elem.due_date_all_day = a;
            },
            TaskEdit::Completed(b) => {
                elem.completed = b;
                elem.completed_at = if b {
                    Some(now)
                } else {
                    None
                };
            },
            TaskEdit::Url(u) => {
                elem.url = u;
            },
            TaskEdit::Reminders(v) => {
                elem.reminders = v;
            },
        }
        proof {
            assert((*elem)@ == edited_fields(before@, ev, now));
        }
        elem.synced = false;
        if now > elem.modified_at {
            elem.modified_at = now;
        }
        proof {
            assert((*elem)@ == apply_edit(before@, ev, now));
        }
        proof {
            let i = i as int;
            let t2 = apply_edit(orig.tasks[i], ev, now);
            assert(self@.tasks =~= orig.tasks.update(i, t2));
            assert(self@ =~= (StoreView { tasks: orig.tasks.update(i, t2), ..orig }));
            assert(task_record_ok(orig.accounts, orig.calendars, orig.tasks[i]));
            assert(task_record_ok(orig.accounts, orig.calendars, t2));
            lemma_task_update_wf(orig, i, t2);
        }
        Ok(())
    }

    /// Record a successful push of the task with this uid: the server
    /// acknowledged with this `href` and a fresh `etag`. Rejected exactly
    /// when the uid is unknown or the task is never-to-be-pushed. A dirty or
    /// pending-create task becomes synced.
    pub fn record_push(&mut self, uid: &String, href: String, etag: String) -> (r: Result<
        (),
        StoreError,
    >)
        requires
            old(self)@.wf(),
        ensures
            final(self)@.wf(),
            match r {
                Ok(()) => {
                    &&& has_uid(old(self)@.tasks, uid@)
                    &&& !old(self)@.tasks[uid_index(old(self)@.tasks, uid@)].local_only
                    &&& final(self)@ == (StoreView {
                        tasks: old(self)@.tasks.update(
                            uid_index(old(self)@.tasks, uid@),
                            pushed(
                                old(self)@.tasks[uid_index(old(self)@.tasks, uid@)],
                                href@,
                                etag@,
                            ),
                        ),
                        ..old(self)@
                    })
                },
                Err(err) => {
                    &&& err == StoreError::ConstraintViolation
                    &&& (!has_uid(old(self)@.tasks, uid@) || old(self)@.tasks[uid_index(
                        old(self)@.tasks,
                        uid@,
                    )].local_only)
                    &&& final(self)@ == old(self)@
                },
            },
    {
        let found = self.find_task(uid);
        let i = match found {
            Option::None => {
                return Err(StoreError::ConstraintViolation);
            },
            Option::Some(i) => i,
        };
        proof {
            lemma_uid_index_pins(self@.tasks, i as int, uid@);
        }
        if self.tasks[i].local_only {
            return Err(StoreError::ConstraintViolation);
        }
        let ghost orig = self@;
        let ghost before = self.tasks@[i as int];
        let elem = &mut self.tasks[i];
        elem.href = Some(href);
        elem.etag = Some(etag);
        elem.synced = true;
        proof {
            assert((*elem)@ == pushed(before@, href@, etag@));
        }
        proof {
            let i = i as int;
            let t2 = pushed(orig.tasks[i], href@, etag@);
            assert(self@.tasks =~= orig.tasks.update(i, t2));
            assert(self@ =~= (StoreView { tasks: orig.tasks.update(i, t2), ..orig }));
            assert(task_record_ok(orig.accounts, orig.calendars, orig.tasks[i]));
            lemma_task_update_wf(orig, i, t2);
        }
        Ok(())
    }

    /// Fold or unfold a task's subtree in the presentation. A pure
    /// presentation flag: no effect on hierarchy, sync state or timestamps.
    pub fn set_collapsed(&mut self, uid: &String, collapsed: bool) -> (r: Result<(), StoreError>)
        requires
            old(self)@.wf(),
        ensures
            final(self)@.wf(),
            match r {
                Ok(()) => {
                    &&& has_uid(old(self)@.tasks, uid@)
                    &&& final(self)@ == (StoreView {
                        tasks: old(self)@.tasks.update(
                            uid_index(old(self)@.tasks, uid@),
                            (TaskView {
                                is_collapsed: collapsed,
                                ..old(self)@.tasks[uid_index(old(self)@.tasks, uid@)]
                            }),
                        ),
                        ..old(self)@
                    })
                },
                Err(err) => {
                    &&& err == StoreError::ConstraintViolation
                    &&& !has_uid(old(self)@.tasks, uid@)
                    &&& final(self)@ == old(self)@
                },
            },
    {
        let found = self.find_task(uid);
        let i = match found {
            Option::None => {
                return Err(StoreError::ConstraintViolation);
            },
            Option::Some(i) => i,
        };
        proof {
            lemma_uid_index_pins(self@.tasks, i as int, uid@);
        }
        let ghost orig = self@;
        let ghost before = self.tasks@[i as int];
        let elem = &mut self.tasks[i];
        elem.is_collapsed = collapsed;
        proof {
            assert((*elem)@ == (TaskView { is_collapsed: collapsed, ..before@ }));
        }
        proof {
            let i = i as int;
            let t2 = TaskView { is_collapsed: collapsed, ..orig.tasks[i] };
            assert(self@.tasks =~= orig.tasks.update(i, t2));
            assert(self@ =~= (StoreView { tasks: orig.tasks.update(i, t2), ..orig }));
            assert(task_record_ok(orig.accounts, orig.calendars, orig.tasks[i]));
            lemma_task_update_wf(orig, i, t2);
        }
        Ok(())
    }

    /// Assign a task's manual position among its siblings. Local-only
    /// bookkeeping, independent of remote ordering: the sync state does not
    /// change.
    pub fn set_sort_order(&mut self, uid: &String, order: i64) -> (r: Result<(), StoreError>)
        requires
            old(self)@.wf(),
        ensures
            final(self)@.wf(),
            match r {
                Ok(()) => {
                    &&& has_uid(old(self)@.tasks, uid@)
                    &&& final(self)@ == (StoreView {
                        tasks: old(self)@.tasks.update(
                            uid_index(old(self)@.tasks, uid@),
                            (TaskView {
                                sort_order: order,
                                ..old(self)@.tasks[uid_index(old(self)@.tasks, uid@)]
                            }),
                        ),
                        ..old(self)@
                    })
                },
                Err(err) => {
                    &&& err == StoreError::ConstraintViolation
                    &&& !has_uid(old(self)@.tasks, uid@)
                    &&& final(self)@ == old(self)@
                },
            },
    {
        let found = self.find_task(uid);
        let i = match found {
            Option::None => {
                return Err(StoreError::ConstraintViolation);
            },
            Option::Some(i) => i,
        };
        proof {
            lemma_uid_index_pins(self@.tasks, i as int, uid@);
        }
        let ghost orig = self@;
        let ghost before = self.tasks@[i as int];
        let elem = &mut self.tasks[i];
        elem.sort_order = order;
        proof {
            assert((*elem)@ == (TaskView { sort_order: order, ..before@ }));
        }
        proof {
            let i = i as int;
            let t2 = TaskView { sort_order: order, ..orig.tasks[i] };
            assert(self@.tasks =~= orig.tasks.update(i, t2));
            assert(self@ =~= (StoreView { tasks: orig.tasks.update(i, t2), ..orig }));
            assert(task_record_ok(orig.accounts, orig.calendars, orig.tasks[i]));
            lemma_task_update_wf(orig, i, t2);
        }
        Ok(())
    }

    /// The cheap pre-check of a sync pass: does the fetched collection-level
    /// change tag differ from the stored one? Rejected exactly when the
    /// calendar id is unknown. `false` means no member changed and no
    /// per-task reconciliation is needed.
    pub fn ctag_changed(&self, cal_id: &String, fetched: &Option<String>) -> (r: Result<
        bool,
        StoreError,
    >)
        requires
            self@.wf(),
        ensures
            match r {
                Ok(b) => {
                    &&& has_calendar(self@.calendars, cal_id@)
                    &&& b == (self@.calendars[calendar_index(self@.calendars, cal_id@)].ctag
                        != fetched.deep_view())
                },
                Err(err) => {
                    &&& err == StoreError::ConstraintViolation
                    &&& !has_calendar(self@.calendars, cal_id@)
                },
            },
    {
        let found = self.find_calendar(cal_id);
        match found {
            Option::None => Err(StoreError::ConstraintViolation),
            Option::Some(i) => {
                proof {
                    lemma_calendar_index_pins(self@.calendars, i as int, cal_id@);
                }
                Ok(!crate::strutil::opt_str_eq(&self.calendars[i].ctag, fetched))
            },
        }
    }

    /// Record the cursors a committed merge ended with: the collection's
    /// `ctag` and the server-issued incremental `sync_token`. Called only
    /// after the merge transaction is complete, so a crash repeats the last
    /// fetch instead of skipping it. Rejected exactly when the calendar id
    /// is unknown.
    pub fn advance_calendar_sync(
        &mut self,
        cal_id: &String,
        ctag: Option<String>,
        sync_token: Option<String>,
    ) -> (r: Result<(), StoreError>)
        requires
            old(self)@.wf(),
        ensures
            final(self)@.wf(),
            match r {
                Ok(()) => {
                    &&& has_calendar(old(self)@.calendars, cal_id@)
                    &&& final(self)@ == (StoreView {
                        calendars: old(self)@.calendars.update(
                            calendar_index(old(self)@.calendars, cal_id@),
                            (CalendarView {
                                ctag: ctag.deep_view(),
                                sync_token: sync_token.deep_view(),
                                ..old(self)@.calendars[calendar_index(
                                    old(self)@.calendars,
                                    cal_id@,
                                )]
                            }),
                        ),
                        ..old(self)@
                    })
                },
                Err(err) => {
                    &&& err == StoreError::ConstraintViolation
                    &&& !has_calendar(old(self)@.calendars, cal_id@)
                    &&& final(self)@ == old(self)@
                },
            },
    {
        let found = self.find_calendar(cal_id);
        let i = match found {
            Option::None => {
                return Err(StoreError::ConstraintViolation);
            },
            Option::Some(i) => i,
        };
        proof {
            lemma_calendar_index_pins(self@.calendars, i as int, cal_id@);
        }
        let ghost orig = self@;
        let ghost before = self.calendars@[i as int];
        let elem = &mut self.calendars[i];
        elem.ctag = ctag;
        elem.sync_token = sync_token;
        proof {
            assert((*elem)@ == (CalendarView {
                ctag: ctag.deep_view(),
                sync_token: sync_token.deep_view(),
                ..before@
            }));
        }
        proof {
            let i = i as int;
            let c2 = CalendarView {
                ctag: ctag.deep_view(),
                sync_token: sync_token.deep_view(),
                ..orig.calendars[i]
            };
            assert(self@.calendars =~= orig.calendars.update(i, c2));
            assert(self@ =~= (StoreView { calendars: orig.calendars.update(i, c2), ..orig }));
            lemma_calendar_update_wf(orig, i, c2);
        }
        Ok(())
    }

    /// Confirm that the remote deletion recorded in a tombstone has been
    /// carried out (a successful DELETE, or a 404 on fetch). The tombstone
    /// is removed and nothing else changes. Rejected exactly when no
    /// tombstone carries this uid.
    pub fn confirm_remote_delete(&mut self, uid: &String) -> (r: Result<(), StoreError>)
        requires
            old(self)@.wf(),
        ensures
            final(self)@.wf(),
            match r {
                Ok(()) => {
                    &&& has_pending(old(self)@.pending, uid@)
                    &&& final(self)@ == (StoreView {
                        pending: old(self)@.pending.remove(
                            pending_index(old(self)@.pending, uid@),
                        ),
                        ..old(self)@
                    })
                },
                Err(err) => {
                    &&& err == StoreError::ConstraintViolation
                    &&& !has_pending(old(self)@.pending, uid@)
                    &&& final(self)@ == old(self)@
                },
            },
    {
        let found = self.find_pending(uid);
        let i = match found {
            Option::None => {
                return Err(StoreError::ConstraintViolation);
            },
            Option::Some(i) => i,
        };
        proof {
            let k = pending_index(self@.pending, uid@);
            assert(0 <= k < self@.pending.len() && self@.pending[k].uid == uid@);
            assert(i as int == k) by {
                if i as int != k {
                    assert(self@.pending[i as int].uid != self@.pending[k].uid);
                }
            }
        }
        let ghost orig = self@;
        self.pending_deletions.remove(i);
        proof {
            let k = i as int;
            assert(self@.pending =~= orig.pending.remove(k));
            assert(self@ =~= (StoreView { pending: orig.pending.remove(k), ..orig }));
            let np = orig.pending.remove(k);
            assert(forall|j: int|
                0 <= j < np.len() ==> #[trigger] np[j] == orig.pending[
                    crate::store::src_of(j, k)
                ]);
            assert forall|p: int, q: int| 0 <= p < q < np.len() implies np[p].uid != np[q].uid by {
                assert(orig.pending[crate::store::src_of(p, k)].uid != orig.pending[
                    crate::store::src_of(q, k)
                ].uid);
            }
            assert forall|j: int| 0 <= j < np.len() implies !has_uid(
                self@.tasks,
                #[trigger] np[j].uid,
            ) by {
                assert(!has_uid(orig.tasks, orig.pending[crate::store::src_of(j, k)].uid));
            }
        }
        Ok(())
    }
}

impl Store {
    /// Merge one fetched remote resource into this calendar.
    ///
    /// * A remote record whose completion flag and timestamp disagree is
    ///   rejected with `ConstraintViolation`, untouched.
    /// * A known uid whose stored `etag` equals the fetched one is already
    ///   up to date: nothing changes.
    /// * A known uid with a changed `etag` is overwritten only if the local
    ///   copy is `Synced`; any local edits (or a never-pushed local task
    ///   under the same uid) surface as `SyncConflict`, local state intact.
    /// * A uid awaiting deletion confirmation surfaces as `SyncConflict`.
    /// * An unknown uid becomes a new synced row in this calendar, its uid
    ///   doubling as the row id; rejected with `ConstraintViolation` when
    ///   the calendar is unknown or the row id is taken.
    pub fn apply_remote_update(&mut self, cal_id: &String, r: RemoteTask, now: u64) -> (res: Result<
        (),
        StoreError,
    >)
        requires
            old(self)@.wf(),
        ensures
            final(self)@.wf(),
            ({
                let sv = old(self)@;
                let rv = r@;
                match res {
                    Ok(()) => {
                        &&& remote_record_ok(rv)
                        &&& if has_uid(sv.tasks, rv.uid) {
                            let i = uid_index(sv.tasks, rv.uid);
                            if sv.tasks[i].etag == Option::Some(rv.etag) {
                                final(self)@ == sv
                            } else {
                                &&& task_sync_state(sv.tasks[i]) == SyncState::Synced
                                &&& final(self)@ == (StoreView {
                                    tasks: sv.tasks.update(i, merged(sv.tasks[i], rv, now)),
                                    ..sv
                                })
                            }
                        } else {
                            &&& !has_pending(sv.pending, rv.uid)
                            &&& has_calendar(sv.calendars, cal_id@)
                            &&& !has_task_id(sv.tasks, rv.uid)
                            &&& final(self)@ == (StoreView {
                                tasks: sv.tasks.push(
                                    new_remote_task(
                                        sv.calendars[calendar_index(sv.calendars, cal_id@)],
                                        rv,
                                        now,
                                    ),
                                ),
                                ..sv
                            })
                        }
                    },
                    Err(e) => {
                        &&& final(self)@ == sv
                        &&& (e == StoreError::SyncConflict <==> remote_record_ok(rv) && (
                        (has_uid(sv.tasks, rv.uid) && sv.tasks[uid_index(sv.tasks, rv.uid)].etag
                            != Option::Some(rv.etag) && task_sync_state(
                            sv.tasks[uid_index(sv.tasks, rv.uid)],
                        ) != SyncState::Synced) || (!has_uid(sv.tasks, rv.uid) && has_pending(
                            sv.pending,
                            rv.uid,
                        ))))
                        &&& (e == StoreError::ConstraintViolation <==> !remote_record_ok(rv) || (
                        !has_uid(sv.tasks, rv.uid) && !has_pending(sv.pending, rv.uid) && (
                        !has_calendar(sv.calendars, cal_id@) || has_task_id(sv.tasks, rv.uid))))
                        &&& (e == StoreError::SyncConflict || e == StoreError::ConstraintViolation)
                    },
                }
            }),
    {
        let ghost rv = r@;
        if r.completed != r.completed_at.is_some() {
            return Err(StoreError::ConstraintViolation);
        }
        let found = self.find_task(&r.uid);
        match found {
            Option::Some(i) => {
                proof {
                    lemma_uid_index_pins(self@.tasks, i as int, rv.uid);
                }
                let same_etag = match &self.tasks[i].etag {
                    Option::None => false,
                    Option::Some(x) => x.eq(&r.etag),
                };
                if same_etag {
                    return Ok(());
                }
                let st = sync_state_of(&self.tasks[i]);
                if !(st == SyncState::Synced) {
                    return Err(StoreError::SyncConflict);
                }
                let ghost orig = self@;
                let ghost before = self.tasks@[i as int];
                let elem = &mut self.tasks[i];
                elem.etag = Some(r.etag);
                elem.href = Some(r.href);
                elem.title = r.title;
                elem.description = r.description;
                elem.completed = r.completed;
                elem.completed_at = r.completed_at;
                elem.tags = r.tags;
                elem.category_id = r.category_id;
                elem.priority = r.priority;
                elem.start_date = r.start_date;
                elem.start_date_all_day = r.start_date_all_day;
                elem.due_date = r.due_date;
                elem.due_date_all_day = r.due_date_all_day;
                elem.reminders = r.reminders;
                elem.url = r.url;
                elem.synced = true;
                if now > elem.modified_at {
                    elem.modified_at = now;
                }
                proof {
                    assert((*elem)@ == merged(before@, rv, now));
                }
                proof {
                    let i = i as int;
                    let t2 = merged(orig.tasks[i], rv, now);
                    assert(self@.tasks =~= orig.tasks.update(i, t2));
                    assert(self@ =~= (StoreView { tasks: orig.tasks.update(i, t2), ..orig }));
                    assert(task_record_ok(orig.accounts, orig.calendars, orig.tasks[i]));
                    lemma_task_update_wf(orig, i, t2);
                }
                Ok(())
            },
            Option::None => {
                if self.find_pending(&r.uid).is_some() {
                    return Err(StoreError::SyncConflict);
                }
                let ci = match self.find_calendar(cal_id) {
                    Option::None => {
                        return Err(StoreError::ConstraintViolation);
                    },
                    Option::Some(ci) => ci,
                };
                proof {
                    lemma_calendar_index_pins(self@.calendars, ci as int, cal_id@);
                }
                if self.find_task_by_id(&r.uid).is_some() {
                    return Err(StoreError::ConstraintViolation);
                }
                let ghost orig = self@;
                let ghost cv = self@.calendars[ci as int];
                let t = Task {
                    id: r.uid.clone(),
                    uid: r.uid,
                    etag: Some(r.etag),
                    href: Some(r.href),
                    title: r.title,
                    description: r.description,
                    completed: r.completed,
                    completed_at: r.completed_at,
                    tags: r.tags,
                    category_id: r.category_id,
                    priority: r.priority,
                    start_date: r.start_date,
                    start_date_all_day: r.start_date_all_day,
                    due_date: r.due_date,
                    due_date_all_day: r.due_date_all_day,
                    created_at: now,
                    modified_at: now,
                    reminders: r.reminders,
                    subtasks: Vec::new(),
                    parent_uid: None,
                    is_collapsed: false,
                    sort_order: 0,
                    account_id: clone_opt_str(&self.calendars[ci].account_id),
                    calendar_id: Some(cal_id.clone()),
                    synced: true,
                    local_only: false,
                    url: r.url,
                };
                proof {
                    assert(t@ =~= new_remote_task(cv, rv, now));
                    assert(task_record_ok(orig.accounts, orig.calendars, t@)) by {
                        assert(calendar_record_ok_for(orig, ci as int));
                        match cv.account_id {
                            Option::None => {},
                            Option::Some(a) => {
                                assert(orig.calendars[calendar_index(
                                    orig.calendars,
                                    cv.id,
                                )].account_id == Option::Some(a));
                            },
                        }
                    }
                    assert(task_admissible(orig, t@));
                }
                let pushed_ok = self.add_task(t);
                match pushed_ok {
                    Ok(()) => Ok(()),
                    Err(_) => unreached(),
                }
            },
        }
    }

    /// Merge one remote deletion, identified by its uid.
    ///
    /// * A local `Synced` copy is removed, its children promoted to top
    ///   level; no tombstone is owed — the remote side is already gone.
    /// * A local copy holding unpushed work (dirty, never pushed, or
    ///   local-only) surfaces as `SyncConflict`, local state intact.
    /// * A tombstoned uid is a deletion confirmed by the server: the
    ///   tombstone is dropped.
    /// * An unknown uid is already gone: nothing changes.
    pub fn apply_remote_removal(&mut self, uid: &String) -> (res: Result<(), StoreError>)
        requires
            old(self)@.wf(),
        ensures
            final(self)@.wf(),
            ({
                let sv = old(self)@;
                match res {
                    Ok(()) => {
                        if has_uid(sv.tasks, uid@) {
                            let k = uid_index(sv.tasks, uid@);
                            &&& task_sync_state(sv.tasks[k]) == SyncState::Synced
                            &&& final(self)@ == (StoreView {
                                tasks: sv.tasks.remove(k).map_values(
                                    |t: TaskView| detached_outside(
                                        t,
                                        Set::<Seq<char>>::empty().insert(uid@),
                                    ),
                                ),
                                ..sv
                            })
                        } else if has_pending(sv.pending, uid@) {
                            final(self)@ == (StoreView {
                                pending: sv.pending.remove(pending_index(sv.pending, uid@)),
                                ..sv
                            })
                        } else {
                            final(self)@ == sv
                        }
                    },
                    Err(e) => {
                        &&& e == StoreError::SyncConflict
                        &&& has_uid(sv.tasks, uid@)
                        &&& task_sync_state(sv.tasks[uid_index(sv.tasks, uid@)])
                            != SyncState::Synced
                        &&& final(self)@ == sv
                    },
                }
            }),
    {
        let found = self.find_task(uid);
        let k = match found {
            Option::None => {
                let p = self.find_pending(uid);
                match p {
                    Option::None => {
                        return Ok(());
                    },
                    Option::Some(_) => {
                        let cr = self.confirm_remote_delete(uid);
                        match cr {
                            Ok(()) => {
                                return Ok(());
                            },
                            Err(_) => {
                                return unreached();
                            },
                        }
                    },
                }
            },
            Option::Some(k) => k,
        };
        proof {
            lemma_uid_index_pins(self@.tasks, k as int, uid@);
        }
        let st = sync_state_of(&self.tasks[k]);
        if !(st == SyncState::Synced) {
            return Err(StoreError::SyncConflict);
        }
        let ghost orig = self@;
        let ghost gone = Set::<Seq<char>>::empty().insert(uid@);
        let victim = self.tasks.remove(k);
        proof {
            assert(self@.tasks =~= orig.tasks.remove(k as int));
        }
        let ghost kept = orig.tasks.remove(k as int);
        let n = self.tasks.len();
        let mut i: usize = 0;
        while i < n
            invariant
                0 <= i <= n,
                n == self.tasks@.len(),
                self@.tasks.len() == kept.len(),
                forall|j: int|
                    0 <= j < i ==> #[trigger] self@.tasks[j] == detached_outside(kept[j], gone),
                forall|j: int| i <= j < n ==> #[trigger] self@.tasks[j] == kept[j],
                self@.accounts == orig.accounts,
                self@.calendars == orig.calendars,
                self@.tags == orig.tags,
                self@.pending == orig.pending,
                self@.ui == orig.ui,
                self@.schema == orig.schema,
                gone == Set::<Seq<char>>::empty().insert(uid@),
            decreases n - i,
        {
            let ghost snap = self@.tasks;
            proof {
                assert(self@.tasks[i as int] == kept[i as int]);
                assert(self@.tasks[i as int] == self.tasks@[i as int]@);
            }
            let clear = match &self.tasks[i].parent_uid {
                Option::None => false,
                Option::Some(p) => p.eq(uid),
            };
            if clear {
                let ghost before = self.tasks@[i as int];
                let elem = &mut self.tasks[i];
                proof {
                    assert(*elem == before);
                    assert(before@ == kept[i as int]);
                }
                elem.parent_uid = None;
                proof {
                    assert(*elem == (Task { parent_uid: Option::None, ..before }));
                }
            }
            proof {
                assert(self@.tasks.len() == snap.len());
                assert forall|j: int| 0 <= j < n && j != i as int implies self@.tasks[j]
                    == snap[j] by {
                    assert(self@.tasks[j] == self.tasks@[j]@);
                }
                assert(self@.tasks[i as int] == detached_outside(kept[i as int], gone));
                assert forall|j: int| 0 <= j < i + 1 implies self@.tasks[j] == detached_outside(
                    kept[j],
                    gone,
                ) by {
                    if j < i {
                        assert(snap[j] == detached_outside(kept[j], gone));
                    }
                }
                assert forall|j: int| i + 1 <= j < n implies self@.tasks[j] == kept[j] by {
                    assert(snap[j] == kept[j]);
                }
            }
            i = i + 1;
        }
        proof {
            let mapped = kept.map_values(|t: TaskView| detached_outside(t, gone));
            assert(self@.tasks =~= mapped);
            assert(self@ =~= (StoreView { tasks: mapped, ..orig }));
            lemma_remove_row_wf(orig, k as int, false);
        }
        Ok(())
    }
}

/// The record invariant of the calendar at this index, named so the merge
/// proof can appeal to it.
pub open spec fn calendar_record_ok_for(sv: StoreView, i: int) -> bool {
    crate::store::calendar_record_ok(sv.accounts, sv.calendars[i])
}

} // verus!
