//! The entity store: the system of record for accounts, calendars, tasks,
//! tags, deletion tombstones and the singleton view-state row.
//!
//! Every operation enforces the invariants at the boundary — it rejects with
//! [`StoreError::ConstraintViolation`] rather than coercing — and every
//! contract says exactly when it rejects. Deletions cascade: an account
//! takes its calendars and their tasks with it, a calendar takes its tasks;
//! tasks that had been pushed to a server leave a tombstone behind.

use vstd::prelude::*;
use vstd::pervasive::unreached;
use crate::model::{
    Account, AccountView, Calendar, CalendarView, PendingDeletion, PendingDeletionView, StoreError,
    Tag, TagView, Task, TaskView, UiState, UiStateView, initial_ui_state,
};
use crate::migrate::{
    SchemaState, catch_up, current_schema, lemma_shipped_catalog_runs_on_fresh, migration_catalog,
};
use crate::hierarchy::{
    acyclic, chain_ok, chain_terminates, has_uid, lemma_acyclic_insert_fresh,
    lemma_acyclic_reparent, lemma_acyclic_restrict, lemma_parent_map_push, lemma_parent_map_update,
    lemma_reaches_outside, lemma_reaches_root, lemma_reaches_self, lemma_reaches_step,
    lemma_refs_give_parents_in_dom, lemma_uid_index_pins, parent_map, parent_refs_ok, reaches,
    uid_index, uids_unique,
};

verus! {

/// The whole store, as one transactional unit of plain data.
pub struct Store {
    /// Schema bookkeeping; entity operations require a current schema.
    pub schema: SchemaState,
    pub accounts: Vec<Account>,
    pub calendars: Vec<Calendar>,
    pub tasks: Vec<Task>,
    pub tags: Vec<Tag>,
    pub pending_deletions: Vec<PendingDeletion>,
    pub ui_state: UiState,
}

/// Mathematical view of the whole store.
#[verifier::ext_equal]
pub struct StoreView {
    pub schema: SchemaState,
    pub accounts: Seq<AccountView>,
    pub calendars: Seq<CalendarView>,
    pub tasks: Seq<TaskView>,
    pub tags: Seq<TagView>,
    pub pending: Seq<PendingDeletionView>,
    pub ui: UiStateView,
}

impl View for Store {
    type V = StoreView;

    open spec fn view(&self) -> StoreView {
        StoreView {
            schema: self.schema,
            accounts: self.accounts@.map_values(|a: Account| a@),
            calendars: self.calendars@.map_values(|c: Calendar| c@),
            tasks: self.tasks@.map_values(|t: Task| t@),
            tags: self.tags@.map_values(|t: Tag| t@),
            pending: self.pending_deletions@.map_values(|p: PendingDeletion| p@),
            ui: self.ui_state@,
        }
    }
}

/// Some account carries this id.
pub open spec fn has_account(accounts: Seq<AccountView>, id: Seq<char>) -> bool {
    exists|i: int| 0 <= i < accounts.len() && accounts[i].id == id
}

/// The index of the account carrying this id.
pub open spec fn account_index(accounts: Seq<AccountView>, id: Seq<char>) -> int {
    choose|i: int| 0 <= i < accounts.len() && accounts[i].id == id
}

/// Some calendar carries this id.
pub open spec fn has_calendar(calendars: Seq<CalendarView>, id: Seq<char>) -> bool {
    exists|i: int| 0 <= i < calendars.len() && calendars[i].id == id
}

/// The index of the calendar carrying this id.
pub open spec fn calendar_index(calendars: Seq<CalendarView>, id: Seq<char>) -> int {
    choose|i: int| 0 <= i < calendars.len() && calendars[i].id == id
}

/// Some tag carries this id.
pub open spec fn has_tag(tags: Seq<TagView>, id: Seq<char>) -> bool {
    exists|i: int| 0 <= i < tags.len() && tags[i].id == id
}

/// The index of the tag carrying this id.
pub open spec fn tag_index(tags: Seq<TagView>, id: Seq<char>) -> int {
    choose|i: int| 0 <= i < tags.len() && tags[i].id == id
}

/// Some task carries this local row id.
pub open spec fn has_task_id(tasks: Seq<TaskView>, id: Seq<char>) -> bool {
    exists|i: int| 0 <= i < tasks.len() && tasks[i].id == id
}

/// Some tombstone carries this uid.
pub open spec fn has_pending(pending: Seq<PendingDeletionView>, uid: Seq<char>) -> bool {
    exists|i: int| 0 <= i < pending.len() && pending[i].uid == uid
}

/// The index of the tombstone carrying this uid.
pub open spec fn pending_index(pending: Seq<PendingDeletionView>, uid: Seq<char>) -> int {
    choose|i: int| 0 <= i < pending.len() && pending[i].uid == uid
}

/// A calendar's reference to its owning account, if set, must resolve.
pub open spec fn calendar_record_ok(accounts: Seq<AccountView>, c: CalendarView) -> bool {
    match c.account_id {
        Option::None => true,
        Option::Some(a) => has_account(accounts, a),
    }
}

/// The per-task record invariants.
///
/// * `completed` holds exactly when a completion timestamp is recorded.
/// * A never-to-be-pushed task carries no server identifiers and is never
///   `synced`; a `synced` task carries both of them.
/// * Timestamps are ordered: a task is never modified before it is created.
/// * An owning calendar must exist; an owning account additionally forces an
///   owning calendar that belongs to that same account.
pub open spec fn task_record_ok(
    accounts: Seq<AccountView>,
    calendars: Seq<CalendarView>,
    t: TaskView,
) -> bool {
    &&& t.completed <==> t.completed_at is Some
    &&& t.local_only ==> t.href is None && t.etag is None && !t.synced
    &&& t.synced ==> t.href is Some && t.etag is Some
    &&& t.created_at <= t.modified_at
    &&& match t.calendar_id {
        Option::None => true,
        Option::Some(c) => has_calendar(calendars, c),
    }
    &&& match t.account_id {
        Option::None => true,
        Option::Some(a) => {
            &&& has_account(accounts, a)
            &&& match t.calendar_id {
                Option::None => false,
                Option::Some(c) => has_calendar(calendars, c) && calendars[calendar_index(
                    calendars,
                    c,
                )].account_id == Option::Some(a),
            }
        },
    }
}

impl StoreView {
    /// The store's full invariant.
    pub open spec fn wf(self) -> bool {
        &&& self.schema.is_current()
        &&& forall|i: int, j: int|
            0 <= i < j < self.accounts.len() ==> self.accounts[i].id != self.accounts[j].id
        &&& forall|i: int, j: int|
            0 <= i < j < self.calendars.len() ==> self.calendars[i].id != self.calendars[j].id
        &&& forall|i: int, j: int|
            0 <= i < j < self.tags.len() ==> self.tags[i].id != self.tags[j].id
        &&& forall|i: int, j: int|
            0 <= i < j < self.tasks.len() ==> self.tasks[i].id != self.tasks[j].id
        &&& uids_unique(self.tasks)
        &&& forall|i: int|
            0 <= i < self.calendars.len() ==> calendar_record_ok(
                self.accounts,
                #[trigger] self.calendars[i],
            )
        &&& forall|i: int|
            0 <= i < self.tasks.len() ==> task_record_ok(
                self.accounts,
                self.calendars,
                #[trigger] self.tasks[i],
            )
        &&& parent_refs_ok(self.tasks)
        &&& acyclic(parent_map(self.tasks))
        &&& forall|i: int, j: int|
            0 <= i < j < self.pending.len() ==> self.pending[i].uid != self.pending[j].uid
        &&& forall|i: int|
            0 <= i < self.pending.len() ==> !has_uid(self.tasks, #[trigger] self.pending[i].uid)
    }
}

/// Calendar and task records only read the account list through
/// [`has_account`]: any change that keeps every referenced id present keeps
/// the records sound.
proof fn lemma_records_with_more_accounts(
    a1: Seq<AccountView>,
    a2: Seq<AccountView>,
    calendars: Seq<CalendarView>,
    tasks: Seq<TaskView>,
)
    requires
        forall|id: Seq<char>| #[trigger] has_account(a1, id) ==> has_account(a2, id),
        forall|i: int| 0 <= i < calendars.len() ==> calendar_record_ok(a1, #[trigger] calendars[i]),
        forall|i: int| 0 <= i < tasks.len() ==> task_record_ok(a1, calendars, #[trigger] tasks[i]),
    ensures
        forall|i: int| 0 <= i < calendars.len() ==> calendar_record_ok(a2, #[trigger] calendars[i]),
        forall|i: int| 0 <= i < tasks.len() ==> task_record_ok(a2, calendars, #[trigger] tasks[i]),
{
    assert forall|i: int| 0 <= i < calendars.len() implies calendar_record_ok(
        a2,
        #[trigger] calendars[i],
    ) by {
        assert(calendar_record_ok(a1, calendars[i]));
    }
    assert forall|i: int| 0 <= i < tasks.len() implies task_record_ok(
        a2,
        calendars,
        #[trigger] tasks[i],
    ) by {
        assert(task_record_ok(a1, calendars, tasks[i]));
    }
}

/// Appending an account keeps every id present.
proof fn lemma_has_account_push(a1: Seq<AccountView>, x: AccountView)
    ensures
        forall|id: Seq<char>| #[trigger] has_account(a1, id) ==> has_account(a1.push(x), id),
{
    assert forall|id: Seq<char>| #[trigger] has_account(a1, id) implies has_account(
        a1.push(x),
        id,
    ) by {
        let i = choose|i: int| 0 <= i < a1.len() && a1[i].id == id;
        assert(a1.push(x)[i].id == id);
    }
}

/// Replacing an account in place without changing its id keeps every id
/// present.
proof fn lemma_has_account_update_same_id(a1: Seq<AccountView>, k: int, x: AccountView)
    requires
        0 <= k < a1.len(),
        x.id == a1[k].id,
    ensures
        forall|id: Seq<char>| #[trigger] has_account(a1, id) ==> has_account(a1.update(k, x), id),
{
    assert forall|id: Seq<char>| #[trigger] has_account(a1, id) implies has_account(
        a1.update(k, x),
        id,
    ) by {
        let i = choose|i: int| 0 <= i < a1.len() && a1[i].id == id;
        if i == k {
            assert(a1.update(k, x)[k].id == id);
        } else {
            assert(a1.update(k, x)[i].id == id);
        }
    }
}

/// Appending a calendar under a fresh id disturbs no task record: every
/// referenced calendar keeps its position and its owner.
proof fn lemma_records_push_calendar(
    accounts: Seq<AccountView>,
    c1: Seq<CalendarView>,
    x: CalendarView,
    tasks: Seq<TaskView>,
)
    requires
        forall|i: int, j: int| 0 <= i < j < c1.len() ==> c1[i].id != c1[j].id,
        !has_calendar(c1, x.id),
        forall|i: int| 0 <= i < tasks.len() ==> task_record_ok(accounts, c1, #[trigger] tasks[i]),
    ensures
        forall|i: int|
            0 <= i < tasks.len() ==> task_record_ok(accounts, c1.push(x), #[trigger] tasks[i]),
{
    let c2 = c1.push(x);
    assert forall|id: Seq<char>| #[trigger] has_calendar(c1, id) implies has_calendar(c2, id)
        && c2[calendar_index(c2, id)] == c1[calendar_index(c1, id)] by {
        let i1 = calendar_index(c1, id);
        assert(0 <= i1 < c1.len() && c1[i1].id == id);
        assert(c2[i1].id == id);
        let i2 = calendar_index(c2, id);
        assert(0 <= i2 < c2.len() && c2[i2].id == id);
        assert(i2 < c1.len()) by {
            if i2 == c1.len() {
                assert(x.id == id);
            }
        }
        assert(i2 == i1) by {
            if i2 != i1 {
                assert(c1[i1].id != c1[i2].id);
            }
        }
    }
    assert forall|i: int| 0 <= i < tasks.len() implies task_record_ok(
        accounts,
        c2,
        #[trigger] tasks[i],
    ) by {
        assert(task_record_ok(accounts, c1, tasks[i]));
        match tasks[i].calendar_id {
            Option::None => {},
            Option::Some(cid) => {
                assert(has_calendar(c1, cid));
            },
        }
    }
}

impl Store {
    /// Open a fresh store: run the shipped migration catalog to completion
    /// and seed the singleton view-state row. Everything else starts empty.
    pub fn open() -> (s: Store)
        ensures
            s@.wf(),
            s@.schema == current_schema(),
            s@.accounts == Seq::<AccountView>::empty(),
            s@.calendars == Seq::<CalendarView>::empty(),
            s@.tasks == Seq::<TaskView>::empty(),
            s@.tags == Seq::<TagView>::empty(),
            s@.pending == Seq::<PendingDeletionView>::empty(),
            s@.ui == initial_ui_state(),
    {
        let mut schema = SchemaState::fresh();
        let catalog = migration_catalog();
        proof {
            lemma_shipped_catalog_runs_on_fresh();
        }
        let r = catch_up(&mut schema, &catalog);
        match r {
            Ok(()) => {},
            Err(_) => {
                return unreached();
            },
        }
        let s = Store {
            schema,
            accounts: Vec::new(),
            calendars: Vec::new(),
            tasks: Vec::new(),
            tags: Vec::new(),
            pending_deletions: Vec::new(),
            ui_state: UiState::initial(),
        };
        proof {
            assert(s@.accounts =~= Seq::<AccountView>::empty());
            assert(s@.calendars =~= Seq::<CalendarView>::empty());
            assert(s@.tasks =~= Seq::<TaskView>::empty());
            assert(s@.tags =~= Seq::<TagView>::empty());
            assert(s@.pending =~= Seq::<PendingDeletionView>::empty());
        }
        s
    }

    /// Index of the account with this id.
    pub fn find_account(&self, id: &String) -> (r: Option<usize>)
        ensures
            match r {
                Option::Some(i) => i < self@.accounts.len() && self@.accounts[i as int].id == id@,
                Option::None => !has_account(self@.accounts, id@),
            },
    {
        let n = self.accounts.len();
        let mut i: usize = 0;
        while i < n
            invariant
                0 <= i <= n,
                n == self.accounts@.len(),
                forall|k: int| 0 <= k < i ==> self@.accounts[k].id != id@,
            decreases n - i,
        {
            if self.accounts[i].id.eq(id) {
                return Some(i);
            }
            i = i + 1;
        }
        None
    }

    /// Index of the calendar with this id.
    pub fn find_calendar(&self, id: &String) -> (r: Option<usize>)
        ensures
            match r {
                Option::Some(i) => i < self@.calendars.len() && self@.calendars[i as int].id == id@,
                Option::None => !has_calendar(self@.calendars, id@),
            },
    {
        let n = self.calendars.len();
        let mut i: usize = 0;
        while i < n
            invariant
                0 <= i <= n,
                n == self.calendars@.len(),
                forall|k: int| 0 <= k < i ==> self@.calendars[k].id != id@,
            decreases n - i,
        {
            if self.calendars[i].id.eq(id) {
                return Some(i);
            }
            i = i + 1;
        }
        None
    }

    /// Index of the tag with this id.
    pub fn find_tag(&self, id: &String) -> (r: Option<usize>)
        ensures
            match r {
                Option::Some(i) => i < self@.tags.len() && self@.tags[i as int].id == id@,
                Option::None => !has_tag(self@.tags, id@),
            },
    {
        let n = self.tags.len();
        let mut i: usize = 0;
        while i < n
            invariant
                0 <= i <= n,
                n == self.tags@.len(),
                forall|k: int| 0 <= k < i ==> self@.tags[k].id != id@,
            decreases n - i,
        {
            if self.tags[i].id.eq(id) {
                return Some(i);
            }
            i = i + 1;
        }
        None
    }

    /// Index of the task with this uid.
    pub fn find_task(&self, uid: &String) -> (r: Option<usize>)
        ensures
            match r {
                Option::Some(i) => i < self@.tasks.len() && self@.tasks[i as int].uid == uid@,
                Option::None => !has_uid(self@.tasks, uid@),
            },
    {
        let n = self.tasks.len();
        let mut i: usize = 0;
        while i < n
            invariant
                0 <= i <= n,
                n == self.tasks@.len(),
                forall|k: int| 0 <= k < i ==> self@.tasks[k].uid != uid@,
            decreases n - i,
        {
            if self.tasks[i].uid.eq(uid) {
                return Some(i);
            }
            i = i + 1;
        }
        None
    }

    /// Index of the task with this local row id.
    pub fn find_task_by_id(&self, id: &String) -> (r: Option<usize>)
        ensures
            match r {
                Option::Some(i) => i < self@.tasks.len() && self@.tasks[i as int].id == id@,
                Option::None => !has_task_id(self@.tasks, id@),
            },
    {
        let n = self.tasks.len();
        let mut i: usize = 0;
        while i < n
            invariant
                0 <= i <= n,
                n == self.tasks@.len(),
                forall|k: int| 0 <= k < i ==> self@.tasks[k].id != id@,
            decreases n - i,
        {
            if self.tasks[i].id.eq(id) {
                return Some(i);
            }
            i = i + 1;
        }
        None
    }

    /// Index of the tombstone with this uid.
    pub fn find_pending(&self, uid: &String) -> (r: Option<usize>)
        ensures
            match r {
                Option::Some(i) => i < self@.pending.len() && self@.pending[i as int].uid == uid@,
                Option::None => !has_pending(self@.pending, uid@),
            },
    {
        let n = self.pending_deletions.len();
        let mut i: usize = 0;
        while i < n
            invariant
                0 <= i <= n,
                n == self.pending_deletions@.len(),
                forall|k: int| 0 <= k < i ==> self@.pending[k].uid != uid@,
            decreases n - i,
        {
            if self.pending_deletions[i].uid.eq(uid) {
                return Some(i);
            }
            i = i + 1;
        }
        None
    }

    /// Replace the singleton view-state row (upsert-only: the row always
    /// exists and there is exactly one).
    pub fn set_ui_state(&mut self, ui: UiState)
        requires
            old(self)@.wf(),
        ensures
            final(self)@.wf(),
            final(self)@ == (StoreView { ui: ui@, ..old(self)@ }),
    {
        self.ui_state = ui;
        proof {
            assert(self@ =~= (StoreView { ui: ui@, ..old(self)@ }));
        }
    }
}

impl Store {
    /// Create an account. Rejected exactly when the id is already taken.
    pub fn add_account(&mut self, a: Account) -> (r: Result<(), StoreError>)
        requires
            old(self)@.wf(),
        ensures
            final(self)@.wf(),
            match r {
                Ok(()) => {
                    &&& !has_account(old(self)@.accounts, a@.id)
                    &&& final(self)@ == (StoreView {
                        accounts: old(self)@.accounts.push(a@),
                        ..old(self)@
                    })
                },
                Err(e) => {
                    &&& e == StoreError::ConstraintViolation
                    &&& has_account(old(self)@.accounts, a@.id)
                    &&& final(self)@ == old(self)@
                },
            },
    {
        if self.find_account(&a.id).is_some() {
            return Err(StoreError::ConstraintViolation);
        }
        proof {
            lemma_has_account_push(self@.accounts, a@);
            lemma_records_with_more_accounts(
                self@.accounts,
                self@.accounts.push(a@),
                self@.calendars,
                self@.tasks,
            );
        }
        self.accounts.push(a);
        proof {
            assert(self@.accounts =~= old(self)@.accounts.push(a@));
            assert(self@ =~= (StoreView { accounts: old(self)@.accounts.push(a@), ..old(self)@ }));
        }
        Ok(())
    }

    /// Enable or disable an account. Rejected exactly when the id is
    /// unknown.
    pub fn set_account_active(&mut self, id: &String, active: bool) -> (r: Result<(), StoreError>)
        requires
            old(self)@.wf(),
        ensures
            final(self)@.wf(),
            match r {
                Ok(()) => {
                    &&& has_account(old(self)@.accounts, id@)
                    &&& final(self)@ == (StoreView {
                        accounts: old(self)@.accounts.update(
                            account_index(old(self)@.accounts, id@),
                            AccountView {
                                is_active: active,
                                ..old(self)@.accounts[account_index(old(self)@.accounts, id@)]
                            },
                        ),
                        ..old(self)@
                    })
                },
                Err(e) => {
                    &&& e == StoreError::ConstraintViolation
                    &&& !has_account(old(self)@.accounts, id@)
                    &&& final(self)@ == old(self)@
                },
            },
    {
        let found = self.find_account(id);
        match found {
            Option::None => Err(StoreError::ConstraintViolation),
            Option::Some(i) => {
                proof {
                    assert(has_account(self@.accounts, id@));
                    lemma_account_index_pins(self@.accounts, i as int, id@);
                }
                self.accounts[i].is_active = active;
                proof {
                    let k = account_index(old(self)@.accounts, id@);
                    let a2 = AccountView { is_active: active, ..old(self)@.accounts[k] };
                    assert(self@.accounts =~= old(self)@.accounts.update(k, a2));
                    assert(self@ =~= (StoreView {
                        accounts: old(self)@.accounts.update(k, a2),
                        ..old(self)@
                    }));
                    lemma_has_account_update_same_id(old(self)@.accounts, k, a2);
                    lemma_records_with_more_accounts(
                        old(self)@.accounts,
                        self@.accounts,
                        self@.calendars,
                        self@.tasks,
                    );
                }
                Ok(())
            },
        }
    }

    /// Record the time of an account's last successful sync pass. Rejected
    /// exactly when the id is unknown.
    pub fn set_account_last_sync(&mut self, id: &String, at: u64) -> (r: Result<(), StoreError>)
        requires
            old(self)@.wf(),
        ensures
            final(self)@.wf(),
            match r {
                Ok(()) => {
                    &&& has_account(old(self)@.accounts, id@)
                    &&& final(self)@ == (StoreView {
                        accounts: old(self)@.accounts.update(
                            account_index(old(self)@.accounts, id@),
                            AccountView {
                                last_sync: Option::Some(at),
                                ..old(self)@.accounts[account_index(old(self)@.accounts, id@)]
                            },
                        ),
                        ..old(self)@
                    })
                },
                Err(e) => {
                    &&& e == StoreError::ConstraintViolation
                    &&& !has_account(old(self)@.accounts, id@)
                    &&& final(self)@ == old(self)@
                },
            },
    {
        let found = self.find_account(id);
        match found {
            Option::None => Err(StoreError::ConstraintViolation),
            Option::Some(i) => {
                proof {
                    assert(has_account(self@.accounts, id@));
                    lemma_account_index_pins(self@.accounts, i as int, id@);
                }
                self.accounts[i].last_sync = Some(at);
                proof {
                    let k = account_index(old(self)@.accounts, id@);
                    let a2 = AccountView { last_sync: Option::Some(at), ..old(self)@.accounts[k] };
                    assert(self@.accounts =~= old(self)@.accounts.update(k, a2));
                    assert(self@ =~= (StoreView {
                        accounts: old(self)@.accounts.update(k, a2),
                        ..old(self)@
                    }));
                    lemma_has_account_update_same_id(old(self)@.accounts, k, a2);
                    lemma_records_with_more_accounts(
                        old(self)@.accounts,
                        self@.accounts,
                        self@.calendars,
                        self@.tasks,
                    );
                }
                Ok(())
            },
        }
    }

    /// Create a calendar. Rejected exactly when the id is already taken or
    /// the named owning account does not exist.
    pub fn add_calendar(&mut self, c: Calendar) -> (r: Result<(), StoreError>)
        requires
            old(self)@.wf(),
        ensures
            final(self)@.wf(),
            match r {
                Ok(()) => {
                    &&& !has_calendar(old(self)@.calendars, c@.id)
                    &&& calendar_record_ok(old(self)@.accounts, c@)
                    &&& final(self)@ == (StoreView {
                        calendars: old(self)@.calendars.push(c@),
                        ..old(self)@
                    })
                },
                Err(e) => {
                    &&& e == StoreError::ConstraintViolation
                    &&& (has_calendar(old(self)@.calendars, c@.id) || !calendar_record_ok(
                        old(self)@.accounts,
                        c@,
                    ))
                    &&& final(self)@ == old(self)@
                },
            },
    {
        if self.find_calendar(&c.id).is_some() {
            return Err(StoreError::ConstraintViolation);
        }
        let owner_ok = match &c.account_id {
            Option::None => true,
            Option::Some(a) => self.find_account(a).is_some(),
        };
        if !owner_ok {
            return Err(StoreError::ConstraintViolation);
        }
        proof {
            lemma_records_push_calendar(self@.accounts, self@.calendars, c@, self@.tasks);
        }
        self.calendars.push(c);
        proof {
            assert(self@.calendars =~= old(self)@.calendars.push(c@));
            assert(self@ =~= (StoreView {
                calendars: old(self)@.calendars.push(c@),
                ..old(self)@
            }));
        }
        Ok(())
    }

    /// Rename or restyle a calendar. Rejected exactly when the id is
    /// unknown; ownership and sync cursors are untouched.
    pub fn update_calendar_appearance(
        &mut self,
        cal_id: &String,
        display_name: String,
        color: Option<String>,
        icon: Option<String>,
    ) -> (r: Result<(), StoreError>)
        requires
            old(self)@.wf(),
        ensures
            final(self)@.wf(),
            match r {
                Ok(()) => {
                    &&& has_calendar(old(self)@.calendars, cal_id@)
                    &&& final(self)@ == (StoreView {
                        calendars: old(self)@.calendars.update(
                            calendar_index(old(self)@.calendars, cal_id@),
                            (CalendarView {
                                display_name: display_name@,
                                color: color.deep_view(),
                                icon: icon.deep_view(),
                                ..old(self)@.calendars[calendar_index(
                                    old(self)@.calendars,
                                    cal_id@,
                                )]
                            }),
                        ),
                        ..old(self)@
                    })
                },
                Err(err) => {
                    &&& err == StoreError::ConstraintViolation
                    &&& !has_calendar(old(self)@.calendars, cal_id@)
                    &&& final(self)@ == old(self)@
                },
            },
    {
        let found = self.find_calendar(cal_id);
        let i = match found {
            Option::None => {
                return Err(StoreError::ConstraintViolation);
            },
            Option::Some(i) => i,
        };
        proof {
            lemma_calendar_index_pins(self@.calendars, i as int, cal_id@);
        }
        let ghost orig = self@;
        let ghost before = self.calendars@[i as int];
        let elem = &mut self.calendars[i];
        elem.display_name = display_name;
        elem.color = color;
        elem.icon = icon;
        proof {
            assert((*elem)@ == (CalendarView {
                display_name: display_name@,
                color: color.deep_view(),
                icon: icon.deep_view(),
                ..before@
            }));
        }
        proof {
            let i = i as int;
            let c2 = CalendarView {
                display_name: display_name@,
                color: color.deep_view(),
                icon: icon.deep_view(),
                ..orig.calendars[i]
            };
            assert(self@.calendars =~= orig.calendars.update(i, c2));
            assert(self@ =~= (StoreView { calendars: orig.calendars.update(i, c2), ..orig }));
            lemma_calendar_update_wf(orig, i, c2);
        }
        Ok(())
    }

    /// Delete a tag. Rejected exactly when the id is unknown. Tags own
    /// nothing — the labels on tasks are free-form strings — so nothing
    /// cascades.
    pub fn delete_tag(&mut self, id: &String) -> (r: Result<(), StoreError>)
        requires
            old(self)@.wf(),
        ensures
            final(self)@.wf(),
            match r {
                Ok(()) => {
                    &&& has_tag(old(self)@.tags, id@)
                    &&& final(self)@ == (StoreView {
                        tags: old(self)@.tags.remove(tag_index(old(self)@.tags, id@)),
                        ..old(self)@
                    })
                },
                Err(e) => {
                    &&& e == StoreError::ConstraintViolation
                    &&& !has_tag(old(self)@.tags, id@)
                    &&& final(self)@ == old(self)@
                },
            },
    {
        let found = self.find_tag(id);
        let i = match found {
            Option::None => {
                return Err(StoreError::ConstraintViolation);
            },
            Option::Some(i) => i,
        };
        proof {
            let k = tag_index(self@.tags, id@);
            assert(0 <= k < self@.tags.len() && self@.tags[k].id == id@);
            assert(i as int == k) by {
                if i as int != k {
                    assert(self@.tags[i as int].id != self@.tags[k].id);
                }
            }
        }
        let ghost orig = self@;
        self.tags.remove(i);
        proof {
            let k = i as int;
            assert(self@.tags =~= orig.tags.remove(k));
            assert(self@ =~= (StoreView { tags: orig.tags.remove(k), ..orig }));
            let ntags = orig.tags.remove(k);
            assert(forall|j: int| 0 <= j < ntags.len() ==> #[trigger] ntags[j] == orig.tags[src_of(j, k)]);
            assert forall|p: int, q: int|
                0 <= p < q < ntags.len() implies ntags[p].id != ntags[q].id by {
                assert(orig.tags[src_of(p, k)].id != orig.tags[src_of(q, k)].id);
            }
        }
        Ok(())
    }

    /// Create a tag. Rejected exactly when the id is already taken.
    pub fn add_tag(&mut self, t: Tag) -> (r: Result<(), StoreError>)
        requires
            old(self)@.wf(),
        ensures
            final(self)@.wf(),
            match r {
                Ok(()) => {
                    &&& !has_tag(old(self)@.tags, t@.id)
                    &&& final(self)@ == (StoreView { tags: old(self)@.tags.push(t@), ..old(self)@ })
                },
                Err(e) => {
                    &&& e == StoreError::ConstraintViolation
                    &&& has_tag(old(self)@.tags, t@.id)
                    &&& final(self)@ == old(self)@
                },
            },
    {
        if self.find_tag(&t.id).is_some() {
            return Err(StoreError::ConstraintViolation);
        }
        self.tags.push(t);
        proof {
            assert(self@.tags =~= old(self)@.tags.push(t@));
            assert(self@ =~= (StoreView { tags: old(self)@.tags.push(t@), ..old(self)@ }));
        }
        Ok(())
    }
}

/// What a task must satisfy to enter the store: fresh row id, fresh uid, a
/// uid that is not awaiting a confirmed remote deletion, sound record
/// fields, and a parent that exists and is not the task itself.
pub open spec fn task_admissible(sv: StoreView, t: TaskView) -> bool {
    &&& !has_task_id(sv.tasks, t.id)
    &&& !has_uid(sv.tasks, t.uid)
    &&& !has_pending(sv.pending, t.uid)
    &&& task_record_ok(sv.accounts, sv.calendars, t)
    &&& match t.parent_uid {
        Option::None => true,
        Option::Some(p) => p != t.uid && has_uid(sv.tasks, p),
    }
}

impl Store {
    /// Create a task. Rejected exactly when [`task_admissible`] fails; a
    /// fresh task attached below an existing parent can never close a cycle,
    /// so the hierarchy stays a forest.
    pub fn add_task(&mut self, t: Task) -> (r: Result<(), StoreError>)
        requires
            old(self)@.wf(),
        ensures
            final(self)@.wf(),
            match r {
                Ok(()) => {
                    &&& task_admissible(old(self)@, t@)
                    &&& final(self)@ == (StoreView {
                        tasks: old(self)@.tasks.push(t@),
                        ..old(self)@
                    })
                },
                Err(e) => {
                    &&& e == StoreError::ConstraintViolation
                    &&& !task_admissible(old(self)@, t@)
                    &&& final(self)@ == old(self)@
                },
            },
    {
        if self.find_task_by_id(&t.id).is_some() {
            return Err(StoreError::ConstraintViolation);
        }
        if self.find_task(&t.uid).is_some() {
            return Err(StoreError::ConstraintViolation);
        }
        if self.find_pending(&t.uid).is_some() {
            return Err(StoreError::ConstraintViolation);
        }
        if t.completed != t.completed_at.is_some() {
            return Err(StoreError::ConstraintViolation);
        }
        if t.local_only && (t.href.is_some() || t.etag.is_some() || t.synced) {
            return Err(StoreError::ConstraintViolation);
        }
        if t.synced && (t.href.is_none() || t.etag.is_none()) {
            return Err(StoreError::ConstraintViolation);
        }
        if t.created_at > t.modified_at {
            return Err(StoreError::ConstraintViolation);
        }
        let cal_found: Option<usize> = match &t.calendar_id {
            Option::None => None,
            Option::Some(c) => {
                let f = self.find_calendar(c);
                if f.is_none() {
                    return Err(StoreError::ConstraintViolation);
                }
                f
            },
        };
        match &t.account_id {
            Option::None => {},
            Option::Some(a) => {
                if self.find_account(a).is_none() {
                    return Err(StoreError::ConstraintViolation);
                }
                match cal_found {
                    Option::None => {
                        return Err(StoreError::ConstraintViolation);
                    },
                    Option::Some(ci) => {
                        proof {
                            lemma_calendar_index_pins(
                                self@.calendars,
                                ci as int,
                                self@.calendars[ci as int].id,
                            );
                        }
                        if !crate::strutil::opt_str_eq(&self.calendars[ci].account_id, &t.account_id) {
                            return Err(StoreError::ConstraintViolation);
                        }
                    },
                }
            },
        }
        match &t.parent_uid {
            Option::None => {},
            Option::Some(p) => {
                if p.eq(&t.uid) {
                    return Err(StoreError::ConstraintViolation);
                }
                if self.find_task(p).is_none() {
                    return Err(StoreError::ConstraintViolation);
                }
            },
        }
        proof {
            assert(task_record_ok(self@.accounts, self@.calendars, t@));
            assert(task_admissible(self@, t@));
            lemma_refs_give_parents_in_dom(self@.tasks);
            lemma_parent_map_push(self@.tasks, t@);
            assert(!parent_map(self@.tasks).dom().contains(t@.uid));
            lemma_acyclic_insert_fresh(parent_map(self@.tasks), t@.uid, t@.parent_uid);
        }
        let ghost pre = self@;
        self.tasks.push(t);
        proof {
            assert(self@.tasks =~= pre.tasks.push(t@));
            assert(self@ =~= (StoreView { tasks: pre.tasks.push(t@), ..pre }));
            let nt = self@.tasks;
            assert forall|i: int, j: int| 0 <= i < j < nt.len() implies nt[i].id != nt[j].id by {
                if j == nt.len() - 1 {
                    assert(!has_task_id(pre.tasks, t@.id));
                    if nt[i].id == t@.id {
                        assert(has_task_id(pre.tasks, t@.id));
                    }
                }
            }
            assert(uids_unique(nt)) by {
                assert forall|i: int, j: int| 0 <= i < j < nt.len() implies nt[i].uid != nt[j].uid by {
                    if j == nt.len() - 1 {
                        if nt[i].uid == t@.uid {
                            assert(has_uid(pre.tasks, t@.uid));
                        }
                    }
                }
            }
            assert forall|i: int| 0 <= i < nt.len() implies task_record_ok(
                self@.accounts,
                self@.calendars,
                #[trigger] nt[i],
            ) by {
                if i < nt.len() - 1 {
                    assert(nt[i] == pre.tasks[i]);
                    assert(task_record_ok(pre.accounts, pre.calendars, pre.tasks[i]));
                }
            }
            assert(parent_refs_ok(nt)) by {
                assert forall|i: int| 0 <= i < nt.len() implies match #[trigger] nt[i].parent_uid {
                    Option::None => true,
                    Option::Some(p) => p != nt[i].uid && has_uid(nt, p),
                } by {
                    match nt[i].parent_uid {
                        Option::None => {},
                        Option::Some(p) => {
                            if i < nt.len() - 1 {
                                assert(pre.tasks[i].parent_uid == Option::Some(p));
                                assert(has_uid(pre.tasks, p));
                            } else {
                                assert(has_uid(pre.tasks, p));
                            }
                            let k = choose|k: int| 0 <= k < pre.tasks.len() && pre.tasks[k].uid == p;
                            assert(nt[k].uid == p);
                        },
                    }
                }
            }
            assert forall|i: int| 0 <= i < self@.pending.len() implies !has_uid(
                nt,
                #[trigger] self@.pending[i].uid,
            ) by {
                let pu = self@.pending[i].uid;
                assert(!has_uid(pre.tasks, pu));
                if has_uid(nt, pu) {
                    let k = choose|k: int| 0 <= k < nt.len() && nt[k].uid == pu;
                    if k < nt.len() - 1 {
                        assert(pre.tasks[k].uid == pu);
                    } else {
                        assert(pu == t@.uid);
                        assert(has_pending(pre.pending, t@.uid));
                    }
                }
            }
        }
        Ok(())
    }
}

/// A task with its parent reference cleared when the parent is among the
/// uids being removed; otherwise untouched.
pub open spec fn detached_outside(t: TaskView, gone: Set<Seq<char>>) -> TaskView {
    match t.parent_uid {
        Option::None => t,
        Option::Some(p) => if gone.contains(p) {
            TaskView { parent_uid: Option::None, ..t }
        } else {
            t
        },
    }
}

/// The tombstone a previously-synchronized task leaves behind on local
/// deletion.
pub open spec fn tombstone_of(t: TaskView) -> PendingDeletionView {
    PendingDeletionView {
        uid: t.uid,
        href: t.href.unwrap(),
        account_id: t.account_id,
        calendar_id: t.calendar_id,
    }
}

impl Store {
    /// Delete the task with this uid. Rejected exactly when the uid is
    /// unknown. The row is removed; children of the task are promoted to top
    /// level rather than left dangling; a tombstone is inserted exactly when
    /// the task had been assigned a remote `href` — a task that never
    /// reached the server vanishes without trace.
    pub fn delete_task(&mut self, uid: &String) -> (r: Result<(), StoreError>)
        requires
            old(self)@.wf(),
        ensures
            final(self)@.wf(),
            match r {
                Ok(()) => {
                    &&& has_uid(old(self)@.tasks, uid@)
                    &&& ({
                        let k = uid_index(old(self)@.tasks, uid@);
                        let victim = old(self)@.tasks[k];
                        let gone = Set::<Seq<char>>::empty().insert(uid@);
                        &&& final(self)@ == (StoreView {
                            tasks: old(self)@.tasks.remove(k).map_values(
                                |t: TaskView| detached_outside(t, gone),
                            ),
                            pending: if victim.href is Some {
                                old(self)@.pending.push(tombstone_of(victim))
                            } else {
                                old(self)@.pending
                            },
                            ..old(self)@
                        })
                    })
                },
                Err(e) => {
                    &&& e == StoreError::ConstraintViolation
                    &&& !has_uid(old(self)@.tasks, uid@)
                    &&& final(self)@ == old(self)@
                },
            },
    {
        let found = self.find_task(uid);
        let k = match found {
            Option::None => {
                return Err(StoreError::ConstraintViolation);
            },
            Option::Some(k) => k,
        };
        proof {
            lemma_uid_index_pins(self@.tasks, k as int, uid@);
        }
        let ghost orig = self@;
        let ghost gone = Set::<Seq<char>>::empty().insert(uid@);
        let victim = self.tasks.remove(k);
        proof {
            assert(self@.tasks =~= orig.tasks.remove(k as int));
            assert(victim@ == orig.tasks[k as int]);
        }
        if victim.href.is_some() {
            let tomb = PendingDeletion {
                uid: victim.uid,
                href: match victim.href {
                    Option::Some(h) => h,
                    Option::None => unreached(),
                },
                account_id: victim.account_id,
                calendar_id: victim.calendar_id,
            };
            proof {
                assert(tomb@ == tombstone_of(orig.tasks[k as int]));
            }
            self.pending_deletions.push(tomb);
            proof {
                assert(self@.pending =~= orig.pending.push(tombstone_of(orig.tasks[k as int])));
            }
        }
        let ghost kept = orig.tasks.remove(k as int);
        let n = self.tasks.len();
        let mut i: usize = 0;
        while i < n
            invariant
                0 <= i <= n,
                n == self.tasks@.len(),
                self@.tasks.len() == kept.len(),
                forall|j: int|
                    0 <= j < i ==> #[trigger] self@.tasks[j] == detached_outside(kept[j], gone),
                forall|j: int| i <= j < n ==> #[trigger] self@.tasks[j] == kept[j],
                self@.accounts == orig.accounts,
                self@.calendars == orig.calendars,
                self@.tags == orig.tags,
                self@.pending == final_pending(orig, k as int),
                self@.ui == orig.ui,
                self@.schema == orig.schema,
                gone == Set::<Seq<char>>::empty().insert(uid@),
            decreases n - i,
        {
            let ghost snap = self@.tasks;
            proof {
                assert(self@.tasks[i as int] == kept[i as int]);
                assert(self@.tasks[i as int] == self.tasks@[i as int]@);
            }
            let clear = match &self.tasks[i].parent_uid {
                Option::None => false,
                Option::Some(p) => p.eq(uid),
            };
            if clear {
                let ghost before = self.tasks@[i as int];
                let elem = &mut self.tasks[i];
                proof {
                    assert(*elem == before);
                    assert(before@ == kept[i as int]);
                }
                elem.parent_uid = None;
                proof {
                    assert(*elem == (Task { parent_uid: Option::None, ..before }));
                }
            }
            proof {
                assert(self@.tasks.len() == snap.len());
                assert forall|j: int| 0 <= j < n && j != i as int implies self@.tasks[j]
                    == snap[j] by {
                    assert(self@.tasks[j] == self.tasks@[j]@);
                }
                assert(self@.tasks[i as int] == detached_outside(kept[i as int], gone));
                assert forall|j: int| 0 <= j < i + 1 implies self@.tasks[j] == detached_outside(
                    kept[j],
                    gone,
                ) by {
                    if j < i {
                        assert(snap[j] == detached_outside(kept[j], gone));
                    }
                }
                assert forall|j: int| i + 1 <= j < n implies self@.tasks[j] == kept[j] by {
                    assert(snap[j] == kept[j]);
                }
            }
            i = i + 1;
        }
        proof {
            let mapped = kept.map_values(|t: TaskView| detached_outside(t, gone));
            assert(self@.tasks =~= mapped);
            assert(self@ =~= (StoreView {
                tasks: mapped,
                pending: final_pending(orig, k as int),
                ..orig
            }));
            lemma_remove_row_wf(orig, k as int, orig.tasks[k as int].href is Some);
        }
        Ok(())
    }
}

/// The tombstone list a single-task deletion ends with.
pub open spec fn final_pending(orig: StoreView, k: int) -> Seq<PendingDeletionView> {
    if orig.tasks[k].href is Some {
        orig.pending.push(tombstone_of(orig.tasks[k]))
    } else {
        orig.pending
    }
}

/// Removing one task row, promoting its children, and either recording its
/// tombstone or not, preserves the store invariant.
pub(crate) proof fn lemma_remove_row_wf(orig: StoreView, k: int, with_tomb: bool)
    requires
        orig.wf(),
        0 <= k < orig.tasks.len(),
    ensures
        (StoreView {
            tasks: orig.tasks.remove(k).map_values(
                |t: TaskView| detached_outside(t, Set::<Seq<char>>::empty().insert(orig.tasks[k].uid)),
            ),
            pending: if with_tomb {
                orig.pending.push(tombstone_of(orig.tasks[k]))
            } else {
                orig.pending
            },
            ..orig
        }).wf(),
{
    let uid = orig.tasks[k].uid;
    let gone = Set::<Seq<char>>::empty().insert(uid);
    let kept = orig.tasks.remove(k);
    let mapped = kept.map_values(|t: TaskView| detached_outside(t, gone));
    let pend: Seq<PendingDeletionView> = if with_tomb {
        orig.pending.push(tombstone_of(orig.tasks[k]))
    } else {
        orig.pending
    };
    let sv = StoreView { tasks: mapped, pending: pend, ..orig };

    assert(kept.len() == orig.tasks.len() - 1);
    assert(forall|j: int| 0 <= j < k ==> #[trigger] kept[j] == orig.tasks[j]);
    assert(forall|j: int| k <= j < kept.len() ==> #[trigger] kept[j] == orig.tasks[j + 1]);
    assert(mapped.len() == kept.len());
    assert(forall|j: int|
        0 <= j < mapped.len() ==> (#[trigger] mapped[j]).uid == kept[j].uid && mapped[j].id
            == kept[j].id);
    // every kept element stems from a source position other than k
    assert(forall|j: int|
        0 <= j < kept.len() ==> #[trigger] kept[j] == orig.tasks[src_of(j, k)] && 0 <= src_of(j, k)
            < orig.tasks.len() && src_of(j, k) != k);
    assert(forall|p: int, q: int| 0 <= p < q < kept.len() ==> src_of(p, k) < src_of(q, k));

    // uniqueness of ids and uids
    assert forall|p: int, q: int| 0 <= p < q < mapped.len() implies mapped[p].id != mapped[q].id by {
        assert(orig.tasks[src_of(p, k)].id != orig.tasks[src_of(q, k)].id);
    }
    assert(uids_unique(mapped)) by {
        assert forall|p: int, q: int|
            0 <= p < q < mapped.len() implies mapped[p].uid != mapped[q].uid by {
            assert(orig.tasks[src_of(p, k)].uid != orig.tasks[src_of(q, k)].uid);
        }
    }

    // no kept task carries the removed uid
    assert forall|j: int| 0 <= j < mapped.len() implies mapped[j].uid != uid by {
        let s = src_of(j, k);
        if s < k {
            assert(orig.tasks[s].uid != orig.tasks[k].uid);
        } else {
            assert(orig.tasks[k].uid != orig.tasks[s].uid);
        }
    }

    // record soundness is untouched: accounts and calendars are unchanged
    // and detaching reads no record field
    assert forall|j: int| 0 <= j < mapped.len() implies task_record_ok(
        sv.accounts,
        sv.calendars,
        #[trigger] mapped[j],
    ) by {
        assert(task_record_ok(orig.accounts, orig.calendars, orig.tasks[src_of(j, k)]));
    }

    // parent references still resolve: a surviving parent reference names a
    // surviving task
    assert(parent_refs_ok(mapped)) by {
        assert forall|j: int| 0 <= j < mapped.len() implies match #[trigger] mapped[j].parent_uid {
            Option::None => true,
            Option::Some(p) => p != mapped[j].uid && has_uid(mapped, p),
        } by {
            match mapped[j].parent_uid {
                Option::None => {},
                Option::Some(p) => {
                    let s = src_of(j, k);
                    assert(orig.tasks[s].parent_uid == Option::Some(p));
                    assert(p != uid);
                    assert(has_uid(orig.tasks, p));
                    let w = choose|w: int|
                        0 <= w < orig.tasks.len() && orig.tasks[w].uid == p;
                    assert(w != k);
                    let wk = if w < k { w } else { w - 1 };
                    assert(kept[wk].uid == p);
                    assert(mapped[wk].uid == p);
                },
            }
        }
    }

    // the hierarchy stays a forest: the new relation is a sub-relation
    assert(acyclic(parent_map(mapped))) by {
        let m1 = parent_map(orig.tasks);
        let m2 = parent_map(mapped);
        assert forall|u: Seq<char>| m2.dom().contains(u) implies m1.dom().contains(u) by {
            let j = choose|j: int| 0 <= j < mapped.len() && mapped[j].uid == u;
            assert(orig.tasks[src_of(j, k)].uid == u);
        }
        assert forall|u: Seq<char>| m2.dom().contains(u) implies #[trigger] m2[u] == m1[u] || m2[u]
            is None by {
            let j = choose|j: int| 0 <= j < mapped.len() && mapped[j].uid == u;
            lemma_uid_index_pins(mapped, j, u);
            let s = src_of(j, k);
            assert(orig.tasks[s].uid == u);
            lemma_uid_index_pins(orig.tasks, s, u);
            assert(m2[u] == mapped[j].parent_uid);
            assert(m1[u] == orig.tasks[s].parent_uid);
            assert(mapped[j] == detached_outside(kept[j], gone));
        }
        lemma_acyclic_restrict(m1, m2);
    }

    // tombstones stay unique and keep naming no live task
    assert forall|p: int, q: int| 0 <= p < q < pend.len() implies pend[p].uid != pend[q].uid by {
        if q == pend.len() - 1 && pend.len() > orig.pending.len() {
            assert(pend[q].uid == uid);
            assert(!has_uid(orig.tasks, orig.pending[p].uid));
            if pend[p].uid == uid {
                assert(orig.tasks[k].uid == uid);
            }
        }
    }
    assert forall|p: int| 0 <= p < pend.len() implies !has_uid(mapped, #[trigger] pend[p].uid) by {
        if has_uid(mapped, pend[p].uid) {
            let j = choose|j: int| 0 <= j < mapped.len() && mapped[j].uid == pend[p].uid;
            let s = src_of(j, k);
            assert(orig.tasks[s].uid == pend[p].uid);
            if p < orig.pending.len() {
                assert(!has_uid(orig.tasks, orig.pending[p].uid));
            } else {
                assert(pend[p].uid == uid);
                assert(mapped[j].uid != uid);
            }
        }
    }
}

/// The source position in the original list of the element at position `j`
/// after position `k` was removed.
pub open spec fn src_of(j: int, k: int) -> int {
    if j < k {
        j
    } else {
        j + 1
    }
}

/// Filtering commutes with appending one element.
proof fn lemma_filter_push<A>(s: Seq<A>, x: A, p: spec_fn(A) -> bool)
    ensures
        s.push(x).filter(p) == (if p(x) {
            s.filter(p).push(x)
        } else {
            s.filter(p)
        }),
{
    reveal(Seq::filter);
    assert(s.push(x).drop_last() =~= s);
    assert(s.push(x).last() == x);
}

/// Every element of a filtered sequence stems from the source sequence.
pub(crate) proof fn lemma_filter_sources<A>(s: Seq<A>, p: spec_fn(A) -> bool)
    ensures
        forall|j: int|
            0 <= j < s.filter(p).len() ==> exists|i: int|
                0 <= i < s.len() && s[i] == #[trigger] s.filter(p)[j],
    decreases s.len(),
{
    reveal(Seq::filter);
    if s.len() == 0 {
    } else {
        let d = s.drop_last();
        lemma_filter_sources(d, p);
        let fd = d.filter(p);
        assert forall|j: int|
            0 <= j < s.filter(p).len() implies exists|i: int|
            0 <= i < s.len() && s[i] == #[trigger] s.filter(p)[j] by {
            if j < fd.len() {
                assert(s.filter(p)[j] == fd[j]);
                let i = choose|i: int| 0 <= i < d.len() && d[i] == fd[j];
                assert(s[i] == s.filter(p)[j]);
            } else {
                assert(p(s.last()));
                assert(s.filter(p)[j] == s.last());
                assert(s[s.len() - 1] == s.filter(p)[j]);
            }
        }
    }
}

/// Filtering keeps pairwise-distinct keys pairwise distinct.
proof fn lemma_filter_distinct_keys<A>(s: Seq<A>, p: spec_fn(A) -> bool, key: spec_fn(A) -> Seq<char>)
    requires
        forall|i: int, j: int| 0 <= i < j < s.len() ==> key(s[i]) != key(s[j]),
    ensures
        forall|i: int, j: int|
            0 <= i < j < s.filter(p).len() ==> key(s.filter(p)[i]) != key(s.filter(p)[j]),
    decreases s.len(),
{
    reveal(Seq::filter);
    if s.len() == 0 {
    } else {
        let d = s.drop_last();
        lemma_filter_distinct_keys(d, p, key);
        lemma_filter_sources(d, p);
        let fd = d.filter(p);
        let f = s.filter(p);
        if p(s.last()) {
            assert(f == fd.push(s.last()));
            assert forall|i: int, j: int|
                0 <= i < j < f.len() implies key(f[i]) != key(f[j]) by {
                if j == f.len() - 1 {
                    assert(f[i] == fd[i]);
                    let w = choose|w: int| 0 <= w < d.len() && d[w] == fd[i];
                    assert(key(s[w]) != key(s[s.len() - 1]));
                } else {
                    assert(f[i] == fd[i] && f[j] == fd[j]);
                }
            }
        }
    }
}

/// What filtering does to task lookups: uniqueness is kept, and a uid is
/// found after filtering exactly when its (unique) carrier satisfies the
/// predicate, with the record unchanged.
proof fn lemma_filter_task_keys(s: Seq<TaskView>, p: spec_fn(TaskView) -> bool)
    requires
        uids_unique(s),
        forall|i: int, j: int| 0 <= i < j < s.len() ==> s[i].id != s[j].id,
    ensures
        uids_unique(s.filter(p)),
        forall|i: int, j: int|
            0 <= i < j < s.filter(p).len() ==> s.filter(p)[i].id != s.filter(p)[j].id,
        forall|u: Seq<char>| #[trigger]
            has_uid(s.filter(p), u) ==> has_uid(s, u) && p(s[uid_index(s, u)]) && s.filter(p)[
                uid_index(s.filter(p), u)
            ] == s[uid_index(s, u)],
        forall|i: int| 0 <= i < s.len() && p(#[trigger] s[i]) ==> has_uid(s.filter(p), s[i].uid),
{
    broadcast use vstd::seq_lib::group_filter_ensures;

    let f = s.filter(p);
    lemma_filter_sources(s, p);
    lemma_filter_distinct_keys(s, p, |t: TaskView| t.uid);
    lemma_filter_distinct_keys(s, p, |t: TaskView| t.id);
    assert(uids_unique(f)) by {
        let key = |t: TaskView| t.uid;
        assert forall|i: int, j: int| 0 <= i < j < f.len() implies f[i].uid != f[j].uid by {
            assert(key(f[i]) != key(f[j]));
        }
    }
    assert forall|i: int, j: int| 0 <= i < j < f.len() implies f[i].id != f[j].id by {
        let key = |t: TaskView| t.id;
        assert(key(f[i]) != key(f[j]));
    }
    assert forall|u: Seq<char>| #[trigger] has_uid(f, u) implies has_uid(s, u) && p(
        s[uid_index(s, u)],
    ) && f[uid_index(f, u)] == s[uid_index(s, u)] by {
        let j = choose|j: int| 0 <= j < f.len() && f[j].uid == u;
        let i = choose|i: int| 0 <= i < s.len() && s[i] == f[j];
        assert(s[i].uid == u);
        lemma_uid_index_pins(s, i, u);
        assert(p(f[j]));
        lemma_uid_index_pins(f, j, u);
    }
    assert forall|i: int| 0 <= i < s.len() && p(#[trigger] s[i]) implies has_uid(f, s[i].uid) by {
        assert(f.contains(s[i]));
        let j = choose|j: int| 0 <= j < f.len() && f[j] == s[i];
        assert(f[j].uid == s[i].uid);
    }
}

/// The calendar-list counterpart of [`lemma_filter_task_keys`].
proof fn lemma_filter_calendar_keys(s: Seq<CalendarView>, p: spec_fn(CalendarView) -> bool)
    requires
        forall|i: int, j: int| 0 <= i < j < s.len() ==> s[i].id != s[j].id,
    ensures
        forall|i: int, j: int|
            0 <= i < j < s.filter(p).len() ==> s.filter(p)[i].id != s.filter(p)[j].id,
        forall|id: Seq<char>| #[trigger]
            has_calendar(s.filter(p), id) ==> has_calendar(s, id) && p(s[calendar_index(s, id)])
                && s.filter(p)[calendar_index(s.filter(p), id)] == s[calendar_index(s, id)],
        forall|i: int|
            0 <= i < s.len() && p(#[trigger] s[i]) ==> has_calendar(s.filter(p), s[i].id),
{
    broadcast use vstd::seq_lib::group_filter_ensures;

    let f = s.filter(p);
    lemma_filter_sources(s, p);
    lemma_filter_distinct_keys(s, p, |c: CalendarView| c.id);
    assert forall|i: int, j: int| 0 <= i < j < f.len() implies f[i].id != f[j].id by {
        let key = |c: CalendarView| c.id;
        assert(key(f[i]) != key(f[j]));
    }
    assert forall|id: Seq<char>| #[trigger] has_calendar(f, id) implies has_calendar(s, id) && p(
        s[calendar_index(s, id)],
    ) && f[calendar_index(f, id)] == s[calendar_index(s, id)] by {
        let j = choose|j: int| 0 <= j < f.len() && f[j].id == id;
        let i = choose|i: int| 0 <= i < s.len() && s[i] == f[j];
        assert(s[i].id == id);
        lemma_calendar_index_pins(s, i, id);
        assert(p(f[j]));
        lemma_calendar_index_pins(f, j, id);
    }
    assert forall|i: int| 0 <= i < s.len() && p(#[trigger] s[i]) implies has_calendar(
        f,
        s[i].id,
    ) by {
        assert(f.contains(s[i]));
        let j = choose|j: int| 0 <= j < f.len() && f[j] == s[i];
        assert(f[j].id == s[i].id);
    }
}

/// The uids removed by a cascade: those whose carrier fails the keep
/// predicate.
pub open spec fn gone_uids(orig: Seq<TaskView>, keep: spec_fn(TaskView) -> bool) -> Set<Seq<char>> {
    Set::new(|u: Seq<char>| exists|i: int| 0 <= i < orig.len() && orig[i].uid == u && !keep(orig[i]))
}

/// The removed tasks that owe a tombstone: those failing `keep` that had
/// been assigned a remote `href`.
pub open spec fn removal_pred(keep: spec_fn(TaskView) -> bool) -> spec_fn(TaskView) -> bool {
    |t: TaskView| !keep(t) && t.href is Some
}

/// The tombstones a cascade leaves: one per removed task that had been
/// assigned a remote `href`, in store order.
pub open spec fn removed_tombstones(
    orig: Seq<TaskView>,
    keep: spec_fn(TaskView) -> bool,
) -> Seq<PendingDeletionView> {
    orig.filter(removal_pred(keep)).map_values(|t: TaskView| tombstone_of(t))
}

/// The task list a cascade ends with: the kept tasks, in order, each with
/// its parent reference cleared when the parent was removed.
pub open spec fn cascaded_tasks(
    orig: Seq<TaskView>,
    keep: spec_fn(TaskView) -> bool,
) -> Seq<TaskView> {
    orig.filter(keep).map_values(|t: TaskView| detached_outside(t, gone_uids(orig, keep)))
}

/// A task survives the deletion of this calendar.
pub open spec fn keep_without_calendar(cid: Seq<char>) -> spec_fn(TaskView) -> bool {
    |t: TaskView| t.calendar_id != Option::Some(cid)
}

/// A task is swept away by the deletion of this account: it names the
/// account itself, or it sits in one of the account's calendars.
pub open spec fn task_cascades_with_account(
    t: TaskView,
    aid: Seq<char>,
    calendars: Seq<CalendarView>,
) -> bool {
    ||| t.account_id == Option::Some(aid)
    ||| match t.calendar_id {
        Option::None => false,
        Option::Some(c) => has_calendar(calendars, c) && calendars[calendar_index(
            calendars,
            c,
        )].account_id == Option::Some(aid),
    }
}

/// A task survives the deletion of this account.
pub open spec fn keep_without_account(
    aid: Seq<char>,
    calendars: Seq<CalendarView>,
) -> spec_fn(TaskView) -> bool {
    |t: TaskView| !task_cascades_with_account(t, aid, calendars)
}

/// A calendar survives the deletion of this account.
pub open spec fn keep_calendar_not_owned(aid: Seq<char>) -> spec_fn(CalendarView) -> bool {
    |c: CalendarView| c.account_id != Option::Some(aid)
}

/// A cascade — dropping every task that fails `keep`, promoting orphaned
/// children, and recording tombstones for removed tasks that had an `href` —
/// preserves the store invariant, given sound replacement account and
/// calendar lists under which every kept task's references still resolve.
proof fn lemma_cascade_wf(
    orig: StoreView,
    na: Seq<AccountView>,
    nc: Seq<CalendarView>,
    keep: spec_fn(TaskView) -> bool,
)
    requires
        orig.wf(),
        forall|i: int, j: int| 0 <= i < j < na.len() ==> na[i].id != na[j].id,
        forall|i: int, j: int| 0 <= i < j < nc.len() ==> nc[i].id != nc[j].id,
        forall|i: int| 0 <= i < nc.len() ==> calendar_record_ok(na, #[trigger] nc[i]),
        forall|i: int|
            0 <= i < orig.tasks.len() && keep(#[trigger] orig.tasks[i]) ==> task_record_ok(
                na,
                nc,
                orig.tasks[i],
            ),
    ensures
        (StoreView {
            accounts: na,
            calendars: nc,
            tasks: cascaded_tasks(orig.tasks, keep),
            pending: orig.pending + removed_tombstones(orig.tasks, keep),
            ..orig
        }).wf(),
{
    broadcast use vstd::seq_lib::group_filter_ensures;

    let gone = gone_uids(orig.tasks, keep);
    let kept = orig.tasks.filter(keep);
    let mapped = cascaded_tasks(orig.tasks, keep);
    let tombs = removed_tombstones(orig.tasks, keep);
    let pend = orig.pending + tombs;
    let sv = StoreView { accounts: na, calendars: nc, tasks: mapped, pending: pend, ..orig };
    let qr = removal_pred(keep);

    lemma_filter_task_keys(orig.tasks, keep);
    lemma_filter_task_keys(orig.tasks, qr);
    lemma_filter_sources(orig.tasks, keep);
    assert(mapped.len() == kept.len());
    assert(forall|j: int|
        0 <= j < mapped.len() ==> (#[trigger] mapped[j]).uid == kept[j].uid && mapped[j].id
            == kept[j].id);

    // uniqueness carries over from the filtered list
    assert forall|p: int, q: int| 0 <= p < q < mapped.len() implies mapped[p].id != mapped[q].id by {
        assert(kept[p].id != kept[q].id);
    }
    assert(uids_unique(mapped)) by {
        assert forall|p: int, q: int|
            0 <= p < q < mapped.len() implies mapped[p].uid != mapped[q].uid by {
            assert(kept[p].uid != kept[q].uid);
        }
    }

    // record soundness: detaching reads no record field
    assert forall|j: int| 0 <= j < mapped.len() implies task_record_ok(
        na,
        nc,
        #[trigger] mapped[j],
    ) by {
        let i = choose|i: int| 0 <= i < orig.tasks.len() && orig.tasks[i] == kept[j];
        assert(keep(orig.tasks[i]));
        assert(task_record_ok(na, nc, orig.tasks[i]));
        assert(task_record_ok(na, nc, kept[j]));
    }

    // parent references: a surviving reference names a kept task, a removed
    // parent was detached
    assert(parent_refs_ok(mapped)) by {
        assert forall|j: int| 0 <= j < mapped.len() implies match #[trigger] mapped[j].parent_uid {
            Option::None => true,
            Option::Some(p) => p != mapped[j].uid && has_uid(mapped, p),
        } by {
            match mapped[j].parent_uid {
                Option::None => {},
                Option::Some(p) => {
                    assert(!gone.contains(p));
                    assert(kept[j].parent_uid == Option::Some(p));
                    let i = choose|i: int| 0 <= i < orig.tasks.len() && orig.tasks[i] == kept[j];
                    assert(orig.tasks[i].parent_uid == Option::Some(p));
                    assert(p != orig.tasks[i].uid);
                    assert(has_uid(orig.tasks, p));
                    let w = choose|w: int| 0 <= w < orig.tasks.len() && orig.tasks[w].uid == p;
                    assert(keep(orig.tasks[w]));
                    assert(has_uid(kept, orig.tasks[w].uid));
                    let jj = choose|jj: int| 0 <= jj < kept.len() && kept[jj].uid == p;
                    assert(mapped[jj].uid == p);
                },
            }
        }
    }

    // the hierarchy stays a forest: the new relation is a sub-relation
    assert(acyclic(parent_map(mapped))) by {
        let m1 = parent_map(orig.tasks);
        let m2 = parent_map(mapped);
        assert forall|u: Seq<char>| m2.dom().contains(u) implies m1.dom().contains(u) by {
            let j = choose|j: int| 0 <= j < mapped.len() && mapped[j].uid == u;
            assert(has_uid(kept, u));
            assert(has_uid(orig.tasks, u));
        }
        assert forall|u: Seq<char>| m2.dom().contains(u) implies #[trigger] m2[u] == m1[u] || m2[u]
            is None by {
            let j = choose|j: int| 0 <= j < mapped.len() && mapped[j].uid == u;
            lemma_uid_index_pins(mapped, j, u);
            assert(has_uid(kept, u));
            lemma_uid_index_pins(kept, j, u);
            assert(kept[uid_index(kept, u)] == orig.tasks[uid_index(orig.tasks, u)]);
            assert(m2[u] == mapped[j].parent_uid);
            assert(m1[u] == orig.tasks[uid_index(orig.tasks, u)].parent_uid);
            assert(mapped[j] == detached_outside(kept[j], gone));
        }
        lemma_acyclic_restrict(m1, m2);
    }

    // tombstones: pairwise distinct, disjoint from the old ones, and naming
    // no kept task
    assert(forall|j: int|
        0 <= j < tombs.len() ==> (#[trigger] tombs[j]).uid == orig.tasks.filter(qr)[j].uid);
    assert forall|p: int, q: int| 0 <= p < q < pend.len() implies pend[p].uid != pend[q].uid by {
        if q < orig.pending.len() {
        } else if p < orig.pending.len() {
            let jq = q - orig.pending.len();
            assert(pend[q].uid == orig.tasks.filter(qr)[jq].uid);
            assert(has_uid(orig.tasks.filter(qr), pend[q].uid));
            assert(has_uid(orig.tasks, pend[q].uid));
            assert(!has_uid(orig.tasks, orig.pending[p].uid));
        } else {
            let jp = p - orig.pending.len();
            let jq = q - orig.pending.len();
            assert(pend[p].uid == orig.tasks.filter(qr)[jp].uid);
            assert(pend[q].uid == orig.tasks.filter(qr)[jq].uid);
            assert(orig.tasks.filter(qr)[jp].uid != orig.tasks.filter(qr)[jq].uid);
        }
    }
    assert forall|p: int| 0 <= p < pend.len() implies !has_uid(mapped, #[trigger] pend[p].uid) by {
        if has_uid(mapped, pend[p].uid) {
            let j = choose|j: int| 0 <= j < mapped.len() && mapped[j].uid == pend[p].uid;
            assert(has_uid(kept, pend[p].uid));
            assert(has_uid(orig.tasks, pend[p].uid));
            assert(keep(orig.tasks[uid_index(orig.tasks, pend[p].uid)]));
            if p < orig.pending.len() {
                assert(!has_uid(orig.tasks, orig.pending[p].uid));
            } else {
                let jp = p - orig.pending.len();
                assert(pend[p].uid == orig.tasks.filter(qr)[jp].uid);
                assert(has_uid(orig.tasks.filter(qr), pend[p].uid));
                assert(qr(orig.tasks[uid_index(orig.tasks, pend[p].uid)]));
            }
        }
    }
}

impl Store {
    /// Delete the calendar with this id. Rejected exactly when the id is
    /// unknown. Every task of the calendar is removed with it; children of
    /// removed tasks that sit in other calendars (or in none) are promoted
    /// to top level; every removed task that had been assigned a remote
    /// `href` leaves a tombstone, in store order.
    pub fn delete_calendar(&mut self, id: &String) -> (r: Result<(), StoreError>)
        requires
            old(self)@.wf(),
        ensures
            final(self)@.wf(),
            match r {
                Ok(()) => {
                    &&& has_calendar(old(self)@.calendars, id@)
                    &&& final(self)@ == (StoreView {
                        calendars: old(self)@.calendars.remove(
                            calendar_index(old(self)@.calendars, id@),
                        ),
                        tasks: cascaded_tasks(old(self)@.tasks, keep_without_calendar(id@)),
                        pending: old(self)@.pending + removed_tombstones(
                            old(self)@.tasks,
                            keep_without_calendar(id@),
                        ),
                        ..old(self)@
                    })
                },
                Err(e) => {
                    &&& e == StoreError::ConstraintViolation
                    &&& !has_calendar(old(self)@.calendars, id@)
                    &&& final(self)@ == old(self)@
                },
            },
    {
        let found = self.find_calendar(id);
        let k = match found {
            Option::None => {
                return Err(StoreError::ConstraintViolation);
            },
            Option::Some(k) => k,
        };
        proof {
            lemma_calendar_index_pins(self@.calendars, k as int, id@);
        }
        let ghost orig = self@;
        let ghost keep = keep_without_calendar(id@);
        let ghost gone = gone_uids(orig.tasks, keep);
        self.calendars.remove(k);
        proof {
            assert(self@.calendars =~= orig.calendars.remove(k as int));
        }
        self.cascade_drop_tasks_of_calendar(id, Ghost(orig));
        proof {
            let nc = orig.calendars.remove(k as int);
            lemma_calendar_remove_keeps(orig.calendars, k as int);
            assert forall|i: int| 0 <= i < nc.len() implies calendar_record_ok(
                orig.accounts,
                #[trigger] nc[i],
            ) by {
                assert(nc[i] == orig.calendars[src_of(i, k as int)]);
                assert(calendar_record_ok(orig.accounts, orig.calendars[src_of(i, k as int)]));
            }
            assert forall|i: int|
                0 <= i < orig.tasks.len() && keep(#[trigger] orig.tasks[i]) implies task_record_ok(
                orig.accounts,
                nc,
                orig.tasks[i],
            ) by {
                let t = orig.tasks[i];
                assert(task_record_ok(orig.accounts, orig.calendars, t));
                match t.calendar_id {
                    Option::None => {},
                    Option::Some(c) => {
                        assert(c != id@);
                        assert(has_calendar(orig.calendars, c));
                    },
                }
            }
            lemma_cascade_wf(orig, orig.accounts, nc, keep);
            assert(self@ =~= (StoreView {
                calendars: nc,
                tasks: cascaded_tasks(orig.tasks, keep),
                pending: orig.pending + removed_tombstones(orig.tasks, keep),
                ..orig
            }));
        }
        Ok(())
    }

    /// Remove every task of this calendar, promote orphaned children, and
    /// record the owed tombstones. The calendar row itself is already gone;
    /// only the task and tombstone lists change.
    fn cascade_drop_tasks_of_calendar(&mut self, id: &String, Ghost(orig): Ghost<StoreView>)
        requires
            orig.wf(),
            old(self)@.tasks == orig.tasks,
            old(self)@.pending == orig.pending,
        ensures
            final(self)@ == (StoreView {
                tasks: cascaded_tasks(orig.tasks, keep_without_calendar(id@)),
                pending: orig.pending + removed_tombstones(
                    orig.tasks,
                    keep_without_calendar(id@),
                ),
                ..old(self)@
            }),
    {
        let ghost keep = keep_without_calendar(id@);
        let ghost gone = gone_uids(orig.tasks, keep);
        let ghost start = self@;
        let mut kept_tasks: Vec<Task> = Vec::new();
        let ghost mut done: int = 0;
        proof {
            reveal(Seq::filter);
            assert(task_views(self.tasks@) =~= orig.tasks.skip(0));
            assert(orig.tasks.take(0).filter(keep) =~= Seq::<TaskView>::empty());
            assert(orig.tasks.take(0).filter(removal_pred(keep)) =~= Seq::<TaskView>::empty());
            assert(task_views(kept_tasks@) =~= orig.tasks.take(0).filter(keep));
            assert(removed_tombstones(orig.tasks.take(0), keep) =~= Seq::<
                PendingDeletionView,
            >::empty());
            assert(self@.pending =~= orig.pending + removed_tombstones(orig.tasks.take(0), keep));
        }
        while self.tasks.len() > 0
            invariant
                0 <= done <= orig.tasks.len(),
                task_views(self.tasks@) == orig.tasks.skip(done),
                task_views(kept_tasks@) == orig.tasks.take(done).filter(keep),
                self@.pending == orig.pending + removed_tombstones(orig.tasks.take(done), keep),
                self@.accounts == start.accounts,
                self@.calendars == start.calendars,
                self@.tags == start.tags,
                self@.ui == start.ui,
                self@.schema == start.schema,
                keep == keep_without_calendar(id@),
            decreases self.tasks@.len(),
        {
            let ghost tv_pre = self.tasks@;
            let ghost pend_pre = self@.pending;
            proof {
                assert(task_views(tv_pre).len() == tv_pre.len());
                assert(orig.tasks.skip(done).len() == orig.tasks.len() - done);
                assert(0 <= done < orig.tasks.len());
                assert(task_views(tv_pre)[0] == orig.tasks.skip(done)[0]);
                assert(orig.tasks.skip(done)[0] == orig.tasks[done]);
                assert(tv_pre[0]@ == orig.tasks[done]);
            }
            let t = self.tasks.remove(0);
            proof {
                assert(t@ == orig.tasks[done]);
                assert(self.tasks@ == tv_pre.remove(0));
                assert(task_views(self.tasks@) =~= orig.tasks.skip(done + 1)) by {
                    assert forall|j: int|
                        0 <= j < task_views(self.tasks@).len() implies task_views(self.tasks@)[j]
                        == orig.tasks.skip(done + 1)[j] by {
                        assert(task_views(self.tasks@)[j] == self.tasks@[j]@);
                        assert(self.tasks@[j] == tv_pre[j + 1]);
                        assert(tv_pre[j + 1]@ == task_views(tv_pre)[j + 1]);
                        assert(task_views(tv_pre)[j + 1] == orig.tasks.skip(done)[j + 1]);
                        assert(orig.tasks.skip(done)[j + 1] == orig.tasks[done + j + 1]);
                        assert(orig.tasks.skip(done + 1)[j] == orig.tasks[done + 1 + j]);
                    }
                }
                assert(orig.tasks.take(done + 1) =~= orig.tasks.take(done).push(orig.tasks[done]));
                lemma_filter_push(orig.tasks.take(done), orig.tasks[done], keep);
                lemma_tombstones_push(orig.tasks.take(done), orig.tasks[done], keep);
            }
            let is_kept = match &t.calendar_id {
                Option::None => true,
                Option::Some(c) => !c.eq(id),
            };
            proof {
                assert(is_kept == keep(t@));
            }
            if is_kept {
                kept_tasks.push(t);
                proof {
                    assert(task_views(kept_tasks@) =~= orig.tasks.take(done + 1).filter(keep));
                }
            } else {
                if t.href.is_some() {
                    let tomb = PendingDeletion {
                        uid: t.uid,
                        href: match t.href {
                            Option::Some(h) => h,
                            Option::None => unreached(),
                        },
                        account_id: t.account_id,
                        calendar_id: t.calendar_id,
                    };
                    proof {
                        assert(tomb@ == tombstone_of(orig.tasks[done]));
                    }
                    self.pending_deletions.push(tomb);
                    proof {
                        let tprev = removed_tombstones(orig.tasks.take(done), keep);
                        let tnext = removed_tombstones(orig.tasks.take(done + 1), keep);
                        assert(tnext == tprev.push(tombstone_of(orig.tasks[done])));
                        assert(self@.pending =~= pend_pre.push(tombstone_of(orig.tasks[done])));
                        assert(pend_pre.push(tombstone_of(orig.tasks[done])) =~= orig.pending
                            + tnext);
                        assert(self@.pending =~= orig.pending + removed_tombstones(
                            orig.tasks.take(done + 1),
                            keep,
                        ));
                    }
                }
                proof {
                    assert(task_views(kept_tasks@) =~= orig.tasks.take(done + 1).filter(keep));
                    assert(self@.pending =~= orig.pending + removed_tombstones(
                        orig.tasks.take(done + 1),
                        keep,
                    ));
                }
            }
            proof {
                done = done + 1;
            }
        }
        proof {
            assert(orig.tasks.take(done) =~= orig.tasks);
            assert(task_views(kept_tasks@) == orig.tasks.filter(keep));
        }
        self.tasks = kept_tasks;
        self.detach_orphans(Ghost(orig.tasks), Ghost(keep));
        proof {
            assert(self@ =~= (StoreView {
                tasks: cascaded_tasks(orig.tasks, keep),
                pending: orig.pending + removed_tombstones(orig.tasks, keep),
                ..start
            }));
        }
    }

    /// Clear every parent reference that names a task removed by the
    /// cascade; the kept tasks are otherwise untouched.
    fn detach_orphans(
        &mut self,
        Ghost(orig_tasks): Ghost<Seq<TaskView>>,
        Ghost(keep): Ghost<spec_fn(TaskView) -> bool>,
    )
        requires
            uids_unique(orig_tasks),
            forall|i: int, j: int| 0 <= i < j < orig_tasks.len() ==> orig_tasks[i].id != orig_tasks[j].id,
            parent_refs_ok(orig_tasks),
            old(self)@.tasks == orig_tasks.filter(keep),
        ensures
            final(self)@ == (StoreView {
                tasks: cascaded_tasks(orig_tasks, keep),
                ..old(self)@
            }),
    {
        let ghost gone = gone_uids(orig_tasks, keep);
        let ghost kept = orig_tasks.filter(keep);
        proof {
            lemma_filter_task_keys(orig_tasks, keep);
        }
        let n = self.tasks.len();
        let mut i: usize = 0;
        while i < n
            invariant
                0 <= i <= n,
                n == self.tasks@.len(),
                self@.tasks.len() == kept.len(),
                kept == orig_tasks.filter(keep),
                gone == gone_uids(orig_tasks, keep),
                uids_unique(orig_tasks),
                forall|p: int, q: int|
                    0 <= p < q < orig_tasks.len() ==> orig_tasks[p].id != orig_tasks[q].id,
                parent_refs_ok(orig_tasks),
                forall|u: Seq<char>| #[trigger]
                    has_uid(kept, u) ==> has_uid(orig_tasks, u) && keep(
                        orig_tasks[uid_index(orig_tasks, u)],
                    ),
                forall|w: int|
                    0 <= w < orig_tasks.len() && keep(#[trigger] orig_tasks[w]) ==> has_uid(
                        kept,
                        orig_tasks[w].uid,
                    ),
                forall|j: int|
                    0 <= j < i ==> #[trigger] self@.tasks[j] == detached_outside(kept[j], gone),
                forall|j: int| i <= j < n ==> #[trigger] self@.tasks[j] == kept[j],
                self@.accounts == old(self)@.accounts,
                self@.calendars == old(self)@.calendars,
                self@.tags == old(self)@.tags,
                self@.pending == old(self)@.pending,
                self@.ui == old(self)@.ui,
                self@.schema == old(self)@.schema,
            decreases n - i,
        {
            let ghost snap = self@.tasks;
            proof {
                assert(self@.tasks[i as int] == kept[i as int]);
                assert(self@.tasks[i as int] == self.tasks@[i as int]@);
            }
            let clear = match &self.tasks[i].parent_uid {
                Option::None => false,
                Option::Some(p) => find_task_in(&self.tasks, p).is_none(),
            };
            proof {
                lemma_filter_task_keys(orig_tasks, keep);
                match kept[i as int].parent_uid {
                    Option::None => {
                        assert(!clear);
                    },
                    Option::Some(p) => {
                        assert(task_views(self.tasks@) =~= snap);
                        let u = kept[i as int].uid;
                        assert(has_uid(kept, u)) by {
                            assert(kept[i as int].uid == u);
                        }
                        lemma_uid_index_pins(kept, i as int, u);
                        let w = uid_index(orig_tasks, u);
                        assert(kept[i as int] == orig_tasks[w]);
                        assert(orig_tasks[w].parent_uid == Option::Some(p));
                        assert(has_uid(orig_tasks, p));
                        let pw = uid_index(orig_tasks, p);
                        assert(0 <= pw < orig_tasks.len() && orig_tasks[pw].uid == p);
                        if clear {
                            assert(!has_uid(snap, p));
                            assert(!has_uid(kept, p)) by {
                                if has_uid(kept, p) {
                                    let kj = choose|kj: int|
                                        0 <= kj < kept.len() && kept[kj].uid == p;
                                    assert(snap[kj].uid == p);
                                }
                            }
                            assert(!keep(orig_tasks[pw]));
                            assert(gone.contains(p));
                        } else {
                            assert(has_uid(snap, p));
                            let sj = choose|sj: int| 0 <= sj < snap.len() && snap[sj].uid == p;
                            assert(kept[sj].uid == p);
                            assert(has_uid(kept, p));
                            assert(keep(orig_tasks[uid_index(orig_tasks, p)]));
                            assert(!gone.contains(p)) by {
                                if gone.contains(p) {
                                    let g = choose|g: int|
                                        0 <= g < orig_tasks.len() && orig_tasks[g].uid == p
                                            && !keep(orig_tasks[g]);
                                    lemma_uid_index_pins(orig_tasks, g, p);
                                }
                            }
                        }
                    },
                }
            }
            if clear {
                let ghost before = self.tasks@[i as int];
                let elem = &mut self.tasks[i];
                proof {
                    assert(*elem == before);
                    assert(before@ == kept[i as int]);
                }
                elem.parent_uid = None;
                proof {
                    assert(*elem == (Task { parent_uid: Option::None, ..before }));
                }
            }
            proof {
                assert(self@.tasks.len() == snap.len());
                assert forall|j: int| 0 <= j < n && j != i as int implies self@.tasks[j]
                    == snap[j] by {
                    assert(self@.tasks[j] == self.tasks@[j]@);
                }
                assert(self@.tasks[i as int] == detached_outside(kept[i as int], gone));
                assert forall|j: int| 0 <= j < i + 1 implies self@.tasks[j] == detached_outside(
                    kept[j],
                    gone,
                ) by {
                    if j < i {
                        assert(snap[j] == detached_outside(kept[j], gone));
                    }
                }
                assert forall|j: int| i + 1 <= j < n implies self@.tasks[j] == kept[j] by {
                    assert(snap[j] == kept[j]);
                }
            }
            i = i + 1;
        }
        proof {
            assert(self@.tasks =~= cascaded_tasks(orig_tasks, keep));
            assert(self@ =~= (StoreView { tasks: cascaded_tasks(orig_tasks, keep), ..old(self)@ }));
        }
    }
}

/// Replacing a task's parent reference in place preserves the invariant,
/// provided the new parent exists, is not the task itself, and does not
/// descend from it.
proof fn lemma_reparent_update_wf(orig: StoreView, i: int, newp: Option<Seq<char>>)
    requires
        orig.wf(),
        0 <= i < orig.tasks.len(),
        match newp {
            Option::None => true,
            Option::Some(p) => {
                &&& p != orig.tasks[i].uid
                &&& has_uid(orig.tasks, p)
                &&& !reaches(parent_map(orig.tasks), p, orig.tasks[i].uid)
            },
        },
    ensures
        (StoreView {
            tasks: orig.tasks.update(i, (TaskView { parent_uid: newp, ..orig.tasks[i] })),
            ..orig
        }).wf(),
{
    let t2 = TaskView { parent_uid: newp, ..orig.tasks[i] };
    let nt = orig.tasks.update(i, t2);
    assert forall|p: int, q: int| 0 <= p < q < nt.len() implies nt[p].id != nt[q].id by {
        assert(orig.tasks[p].id != orig.tasks[q].id);
    }
    assert(uids_unique(nt)) by {
        assert forall|p: int, q: int| 0 <= p < q < nt.len() implies nt[p].uid != nt[q].uid by {
            assert(orig.tasks[p].uid != orig.tasks[q].uid);
        }
    }
    assert forall|j: int| 0 <= j < nt.len() implies task_record_ok(
        orig.accounts,
        orig.calendars,
        #[trigger] nt[j],
    ) by {
        assert(task_record_ok(orig.accounts, orig.calendars, orig.tasks[j]));
    }
    assert(parent_refs_ok(nt)) by {
        assert forall|j: int| 0 <= j < nt.len() implies match #[trigger] nt[j].parent_uid {
            Option::None => true,
            Option::Some(p) => p != nt[j].uid && has_uid(nt, p),
        } by {
            match nt[j].parent_uid {
                Option::None => {},
                Option::Some(p) => {
                    if j == i {
                        assert(has_uid(orig.tasks, p));
                    } else {
                        assert(orig.tasks[j].parent_uid == Option::Some(p));
                        assert(has_uid(orig.tasks, p));
                    }
                    let w = choose|w: int| 0 <= w < orig.tasks.len() && orig.tasks[w].uid == p;
                    assert(nt[w].uid == p);
                },
            }
        }
    }
    assert(acyclic(parent_map(nt))) by {
        lemma_parent_map_update(orig.tasks, i, t2);
        let m = parent_map(orig.tasks);
        let u = orig.tasks[i].uid;
        lemma_uid_index_pins(orig.tasks, i, u);
        match newp {
            Option::None => {
                let m2 = m.insert(u, Option::None);
                assert(m2.dom() =~= m.dom());
                assert forall|w: Seq<char>| m2.dom().contains(w) implies #[trigger] m2[w] == m[w]
                    || m2[w] is None by {}
                lemma_acyclic_restrict(m, m2);
            },
            Option::Some(p) => {
                lemma_acyclic_reparent(m, u, p);
            },
        }
    }
    assert forall|j: int| 0 <= j < orig.pending.len() implies !has_uid(
        nt,
        #[trigger] orig.pending[j].uid,
    ) by {
        if has_uid(nt, orig.pending[j].uid) {
            let w = choose|w: int| 0 <= w < nt.len() && nt[w].uid == orig.pending[j].uid;
            assert(orig.tasks[w].uid == orig.pending[j].uid);
            assert(!has_uid(orig.tasks, orig.pending[j].uid));
        }
    }
}

impl Store {
    /// Whether `target` is `from` itself or one of its ancestors in the
    /// subtask forest.
    pub fn ancestry_reaches(&self, from: &String, target: &String) -> (r: bool)
        requires
            self@.wf(),
        ensures
            r == reaches(parent_map(self@.tasks), from@, target@),
    {
        let ghost m = parent_map(self@.tasks);
        let mut cur: String = from.clone();
        let found0 = self.find_task(&cur);
        if found0.is_none() {
            proof {
                assert(!m.dom().contains(cur@));
                lemma_reaches_outside(m, from@, target@);
            }
            return false;
        }
        proof {
            assert(m.dom().contains(cur@));
            assert(chain_ok(m, cur@));
        }
        let ghost mut fuel: nat = choose|f: nat| chain_terminates(m, cur@, f);
        loop
            invariant
                self@.wf(),
                m == parent_map(self@.tasks),
                m.dom().contains(cur@),
                chain_terminates(m, cur@, fuel),
                reaches(m, from@, target@) == reaches(m, cur@, target@),
            decreases fuel,
        {
            if cur.eq(target) {
                proof {
                    lemma_reaches_self(m, cur@);
                }
                return true;
            }
            let found = self.find_task(&cur);
            let i = match found {
                Option::None => {
                    return unreached();
                },
                Option::Some(i) => i,
            };
            proof {
                lemma_uid_index_pins(self@.tasks, i as int, cur@);
                assert(m[cur@] == self@.tasks[i as int].parent_uid);
            }
            match &self.tasks[i].parent_uid {
                Option::None => {
                    proof {
                        lemma_reaches_root(m, cur@, target@);
                    }
                    return false;
                },
                Option::Some(p) => {
                    proof {
                        assert(m[cur@] == Option::Some(p@));
                        lemma_reaches_step(m, cur@, p@, target@);
                        assert(fuel > 0);
                        assert(chain_terminates(m, p@, (fuel - 1) as nat));
                        assert(self@.tasks[i as int].parent_uid == Option::Some(p@));
                        assert(has_uid(self@.tasks, p@));
                        assert(m.dom().contains(p@));
                        fuel = (fuel - 1) as nat;
                    }
                    cur = p.clone();
                },
            }
        }
    }

    /// Move a task below a new parent (or to top level). Rejected exactly
    /// when the task is unknown, the proposed parent is unknown or the task
    /// itself, or the task already stands in the proposed parent's ancestry
    /// chain — the move that would close a cycle — with no state change.
    pub fn reparent_task(&mut self, uid: &String, new_parent: &Option<String>) -> (r: Result<
        (),
        StoreError,
    >)
        requires
            old(self)@.wf(),
        ensures
            final(self)@.wf(),
            ({
                let sv = old(self)@;
                let admissible = has_uid(sv.tasks, uid@) && match new_parent.deep_view() {
                    Option::None => true,
                    Option::Some(p) => p != uid@ && has_uid(sv.tasks, p) && !reaches(
                        parent_map(sv.tasks),
                        p,
                        uid@,
                    ),
                };
                match r {
                    Ok(()) => {
                        &&& admissible
                        &&& final(self)@ == (StoreView {
                            tasks: sv.tasks.update(
                                uid_index(sv.tasks, uid@),
                                (TaskView {
                                    parent_uid: new_parent.deep_view(),
                                    ..sv.tasks[uid_index(sv.tasks, uid@)]
                                }),
                            ),
                            ..sv
                        })
                    },
                    Err(e) => {
                        &&& e == StoreError::ConstraintViolation
                        &&& !admissible
                        &&& final(self)@ == sv
                    },
                }
            }),
    {
        let found = self.find_task(uid);
        let i = match found {
            Option::None => {
                return Err(StoreError::ConstraintViolation);
            },
            Option::Some(i) => i,
        };
        proof {
            lemma_uid_index_pins(self@.tasks, i as int, uid@);
        }
        match new_parent {
            Option::None => {},
            Option::Some(p) => {
                if p.eq(uid) {
                    return Err(StoreError::ConstraintViolation);
                }
                if self.find_task(p).is_none() {
                    return Err(StoreError::ConstraintViolation);
                }
                if self.ancestry_reaches(p, uid) {
                    return Err(StoreError::ConstraintViolation);
                }
            },
        }
        let ghost orig = self@;
        let np = crate::strutil::clone_opt_str(new_parent);
        let ghost before = self.tasks@[i as int];
        let elem = &mut self.tasks[i];
        elem.parent_uid = np;
        proof {
            assert((*elem)@ == (TaskView { parent_uid: new_parent.deep_view(), ..before@ }));
        }
        proof {
            let i = i as int;
            let t2 = TaskView { parent_uid: new_parent.deep_view(), ..orig.tasks[i] };
            assert(self@.tasks =~= orig.tasks.update(i, t2));
            assert(self@ =~= (StoreView { tasks: orig.tasks.update(i, t2), ..orig }));
            lemma_reparent_update_wf(orig, i, new_parent.deep_view());
        }
        Ok(())
    }
}

/// The gap left between consecutive manual positions, so that a later drop
/// between two siblings can pick an order without renumbering again.
pub const SIBLING_ORDER_GAP: i64 = 16;

/// The position of a string in a list (unique when the list is distinct).
pub open spec fn str_index_of(us: Seq<Seq<char>>, u: Seq<char>) -> int {
    choose|k: int| 0 <= k < us.len() && us[k] == u
}

/// The task list after a renumbering pass: every task named in `us` takes
/// the manual position of its rank there, gap-spaced; every other task is
/// untouched.
pub open spec fn renumbered(tasks: Seq<TaskView>, us: Seq<Seq<char>>) -> Seq<TaskView> {
    tasks.map_values(
        |t: TaskView| if crate::strutil::seq_has_string(us, t.uid) {
            TaskView { sort_order: (SIBLING_ORDER_GAP * str_index_of(us, t.uid)) as i64, ..t }
        } else {
            t
        },
    )
}

/// In a distinct list, the rank of a member is where it stands.
proof fn lemma_str_index_pins(us: Seq<Seq<char>>, k: int)
    requires
        forall|p: int, q: int| 0 <= p < q < us.len() ==> us[p] != us[q],
        0 <= k < us.len(),
    ensures
        str_index_of(us, us[k]) == k,
{
    let k2 = str_index_of(us, us[k]);
    assert(0 <= k2 < us.len() && us[k2] == us[k]);
    if k2 != k {
        if k2 < k {
            assert(us[k2] != us[k]);
        } else {
            assert(us[k] != us[k2]);
        }
    }
}

impl Store {
    /// Renumber one sibling set into the given total order: the task named
    /// first takes manual position 0, the next one gap, and so on, so a
    /// single later move can slot in between without touching the rest.
    /// Rejected exactly when a named uid is unknown or named twice, with no
    /// state change. Only manual positions change: no sync state, timestamp
    /// or hierarchy edge moves.
    #[verifier::rlimit(80)]
    pub fn renumber_siblings(&mut self, ordered_uids: &Vec<String>) -> (r: Result<(), StoreError>)
        requires
            old(self)@.wf(),
            ordered_uids@.len() * SIBLING_ORDER_GAP <= i64::MAX,
        ensures
            final(self)@.wf(),
            ({
                let us = ordered_uids.deep_view();
                let admissible = (forall|k: int|
                    0 <= k < us.len() ==> has_uid(old(self)@.tasks, #[trigger] us[k])) && (
                forall|p: int, q: int| 0 <= p < q < us.len() ==> us[p] != us[q]);
                match r {
                    Ok(()) => {
                        &&& admissible
                        &&& final(self)@ == (StoreView {
                            tasks: renumbered(old(self)@.tasks, us),
                            ..old(self)@
                        })
                    },
                    Err(e) => {
                        &&& e == StoreError::ConstraintViolation
                        &&& !admissible
                        &&& final(self)@ == old(self)@
                    },
                }
            }),
    {
        let ghost us = ordered_uids.deep_view();
        let n = ordered_uids.len();
        let mut i: usize = 0;
        while i < n
            invariant
                0 <= i <= n,
                n == us.len(),
                us == ordered_uids.deep_view(),
                old(self)@ == self@,
                self@.wf(),
                forall|k: int| 0 <= k < i ==> has_uid(self@.tasks, #[trigger] us[k]),
                forall|p: int, q: int| 0 <= p < q < i ==> us[p] != us[q],
            decreases n - i,
        {
            if self.find_task(&ordered_uids[i]).is_none() {
                proof {
                    assert(us[i as int] == ordered_uids@[i as int]@);
                    assert(!has_uid(old(self)@.tasks, us[i as int]));
                }
                return Err(StoreError::ConstraintViolation);
            }
            let mut j: usize = 0;
            while j < i
                invariant
                    0 <= j <= i < n,
                    n == ordered_uids@.len(),
                    us == ordered_uids.deep_view(),
                    old(self)@ == self@,
                    self@.wf(),
                    forall|p: int| 0 <= p < j ==> us[p] != us[i as int],
                decreases i - j,
            {
                if ordered_uids[j].eq(&ordered_uids[i]) {
                    proof {
                        assert(us[j as int] == us[i as int]);
                    }
                    return Err(StoreError::ConstraintViolation);
                }
                j = j + 1;
            }
            i = i + 1;
        }

        let ghost orig = self@;
        let mut k: usize = 0;
        proof {
            assert(self@.tasks =~= renumbered_up_to(orig.tasks, us, 0)) by {
                assert forall|j: int|
                    0 <= j < orig.tasks.len() implies renumbered_up_to(orig.tasks, us, 0)[j]
                    == orig.tasks[j] by {}
            }
        }
        while k < n
            invariant
                0 <= k <= n,
                n == us.len(),
                us == ordered_uids.deep_view(),
                n * SIBLING_ORDER_GAP <= i64::MAX,
                orig.wf(),
                forall|p: int| 0 <= p < n ==> has_uid(orig.tasks, #[trigger] us[p]),
                forall|p: int, q: int| 0 <= p < q < n ==> us[p] != us[q],
                self@.wf(),
                self@ == (StoreView { tasks: renumbered_up_to(orig.tasks, us, k as int), ..orig }),
            decreases n - k,
        {
            let order = (k as i64) * SIBLING_ORDER_GAP;
            let ghost pre = self@;
            let res = self.set_sort_order(&ordered_uids[k], order);
            proof {
                assert(pre.tasks.len() == orig.tasks.len());
                assert forall|j: int|
                    0 <= j < orig.tasks.len() implies (#[trigger] pre.tasks[j]).uid
                    == orig.tasks[j].uid by {}
                assert(has_uid(orig.tasks, us[k as int]));
                let w = uid_index(orig.tasks, us[k as int]);
                assert(0 <= w < orig.tasks.len() && orig.tasks[w].uid == us[k as int]);
                assert(pre.tasks[w].uid == us[k as int]);
                assert(has_uid(pre.tasks, us[k as int]));
            }
            match res {
                Ok(()) => {},
                Err(_) => {
                    return unreached();
                },
            }
            proof {
                let ki = k as int;
                let w = uid_index(pre.tasks, us[ki]);
                let w0 = uid_index(orig.tasks, us[ki]);
                assert(0 <= w0 < orig.tasks.len() && orig.tasks[w0].uid == us[ki]);
                assert(pre.tasks[w0].uid == us[ki]);
                lemma_uid_index_pins(pre.tasks, w0, us[ki]);
                assert(w == w0);
                lemma_str_index_pins(us, ki);
                assert(!crate::strutil::seq_has_string(us.take(ki), us[ki])) by {
                    if crate::strutil::seq_has_string(us.take(ki), us[ki]) {
                        let p = choose|p: int| 0 <= p < ki && us.take(ki)[p] == us[ki];
                        assert(us[p] == us[ki]);
                        assert(us[p] != us[ki]);
                    }
                }
                assert(pre.tasks[w] == orig.tasks[w]);
                assert(self@.tasks =~= renumbered_up_to(orig.tasks, us, ki + 1)) by {
                    assert forall|j: int|
                        0 <= j < orig.tasks.len() implies self@.tasks[j] == renumbered_up_to(
                        orig.tasks,
                        us,
                        ki + 1,
                    )[j] by {
                        if j == w {
                            assert(us.take(ki + 1)[ki] == us[ki]);
                            assert(crate::strutil::seq_has_string(us.take(ki + 1), us[ki]));
                            lemma_take_index_pins(us, ki + 1, ki);
                        } else {
                            assert(orig.tasks[j].uid != us[ki]) by {
                                if orig.tasks[j].uid == us[ki] {
                                    assert(orig.tasks[j].uid != orig.tasks[w].uid);
                                }
                            }
                            assert(self@.tasks[j] == pre.tasks[j]);
                            assert forall|u2: Seq<char>|
                                orig.tasks[j].uid == u2 implies crate::strutil::seq_has_string(
                                us.take(ki + 1),
                                u2,
                            ) == crate::strutil::seq_has_string(us.take(ki), u2) by {
                                if crate::strutil::seq_has_string(us.take(ki + 1), u2) {
                                    let p = choose|p: int|
                                        0 <= p < ki + 1 && #[trigger] us.take(ki + 1)[p] == u2;
                                    if p < ki {
                                        assert(us.take(ki)[p] == u2);
                                    } else {
                                        assert(us[ki] == u2);
                                    }
                                }
                                if crate::strutil::seq_has_string(us.take(ki), u2) {
                                    let p = choose|p: int|
                                        0 <= p < ki && #[trigger] us.take(ki)[p] == u2;
                                    assert(us.take(ki + 1)[p] == u2);
                                }
                            }
                        }
                    }
                }
                assert(self@ =~= (StoreView {
                    tasks: renumbered_up_to(orig.tasks, us, ki + 1),
                    ..orig
                }));
            }
            k = k + 1;
        }
        proof {
            assert(us.take(n as int) =~= us);
            assert(renumbered_up_to(orig.tasks, us, n as int) =~= renumbered(orig.tasks, us)) by {
                assert forall|j: int|
                    0 <= j < orig.tasks.len() implies renumbered_up_to(orig.tasks, us, n as int)[j]
                    == renumbered(orig.tasks, us)[j] by {}
            }
            assert(self@ =~= (StoreView { tasks: renumbered(orig.tasks, us), ..orig }));
        }
        Ok(())
    }
}

/// The task list after the first `k` names of a renumbering pass have been
/// applied.
pub open spec fn renumbered_up_to(tasks: Seq<TaskView>, us: Seq<Seq<char>>, k: int) -> Seq<
    TaskView,
> {
    renumbered(tasks, us.take(k))
}

/// Rank within a prefix equals rank within the list.
proof fn lemma_take_index_pins(us: Seq<Seq<char>>, n: int, k: int)
    requires
        forall|p: int, q: int| 0 <= p < q < us.len() ==> us[p] != us[q],
        0 <= k < n <= us.len(),
    ensures
        str_index_of(us.take(n), us[k]) == k,
{
    let t = us.take(n);
    assert(t[k] == us[k]);
    let k2 = str_index_of(t, us[k]);
    assert(0 <= k2 < t.len() && t[k2] == us[k]);
    if k2 != k {
        if k2 < k {
            assert(us[k2] != us[k]);
        } else {
            assert(us[k] != us[k2]);
        }
    }
}

/// The views of a list of task records.
pub open spec fn task_views(ts: Seq<Task>) -> Seq<TaskView> {
    ts.map_values(|t: Task| t@)
}

/// The views of a list of calendar records.
pub open spec fn calendar_views(cs: Seq<Calendar>) -> Seq<CalendarView> {
    cs.map_values(|c: Calendar| c@)
}

/// Dropping an account row keeps every other account id present.
proof fn lemma_account_remove_keeps(s: Seq<AccountView>, k: int)
    requires
        forall|i: int, j: int| 0 <= i < j < s.len() ==> s[i].id != s[j].id,
        0 <= k < s.len(),
    ensures
        forall|i: int, j: int|
            0 <= i < j < s.remove(k).len() ==> s.remove(k)[i].id != s.remove(k)[j].id,
        forall|id: Seq<char>|
            id != s[k].id && #[trigger] has_account(s, id) ==> has_account(s.remove(k), id),
{
    let sr = s.remove(k);
    assert(forall|j: int| 0 <= j < sr.len() ==> #[trigger] sr[j] == s[src_of(j, k)]);
    assert forall|i: int, j: int| 0 <= i < j < sr.len() implies sr[i].id != sr[j].id by {
        assert(s[src_of(i, k)].id != s[src_of(j, k)].id);
    }
    assert forall|id: Seq<char>|
        id != s[k].id && #[trigger] has_account(s, id) implies has_account(sr, id) by {
        let i = choose|i: int| 0 <= i < s.len() && s[i].id == id;
        assert(i != k);
        let j = if i < k { i } else { i - 1 };
        assert(sr[j].id == id);
    }
}

impl Store {
    /// Delete the account with this id. Rejected exactly when the id is
    /// unknown. The cascade removes the account's calendars and every task
    /// that names the account or sits in one of those calendars; children of
    /// removed tasks elsewhere are promoted to top level; every removed task
    /// that had been assigned a remote `href` leaves a tombstone, in store
    /// order.
    pub fn delete_account(&mut self, id: &String) -> (r: Result<(), StoreError>)
        requires
            old(self)@.wf(),
        ensures
            final(self)@.wf(),
            match r {
                Ok(()) => {
                    &&& has_account(old(self)@.accounts, id@)
                    &&& final(self)@ == (StoreView {
                        accounts: old(self)@.accounts.remove(
                            account_index(old(self)@.accounts, id@),
                        ),
                        calendars: old(self)@.calendars.filter(keep_calendar_not_owned(id@)),
                        tasks: cascaded_tasks(
                            old(self)@.tasks,
                            keep_without_account(id@, old(self)@.calendars),
                        ),
                        pending: old(self)@.pending + removed_tombstones(
                            old(self)@.tasks,
                            keep_without_account(id@, old(self)@.calendars),
                        ),
                        ..old(self)@
                    })
                },
                Err(e) => {
                    &&& e == StoreError::ConstraintViolation
                    &&& !has_account(old(self)@.accounts, id@)
                    &&& final(self)@ == old(self)@
                },
            },
    {
        let found = self.find_account(id);
        let ai = match found {
            Option::None => {
                return Err(StoreError::ConstraintViolation);
            },
            Option::Some(ai) => ai,
        };
        proof {
            lemma_account_index_pins(self@.accounts, ai as int, id@);
        }
        let ghost orig = self@;
        let ghost keep = keep_without_account(id@, orig.calendars);
        let ghost keep_cal = keep_calendar_not_owned(id@);

        self.cascade_drop_tasks_of_account(id, Ghost(orig));
        self.detach_orphans(Ghost(orig.tasks), Ghost(keep));

        // drop the account's calendars
        let ghost mid = self@;
        let mut kept_cals: Vec<Calendar> = Vec::new();
        let ghost mut done: int = 0;
        proof {
            reveal(Seq::filter);
            assert(calendar_views(self.calendars@) =~= orig.calendars.skip(0));
            assert(orig.calendars.take(0).filter(keep_cal) =~= Seq::<CalendarView>::empty());
            assert(calendar_views(kept_cals@) =~= orig.calendars.take(0).filter(keep_cal));
        }
        while self.calendars.len() > 0
            invariant
                0 <= done <= orig.calendars.len(),
                calendar_views(self.calendars@) == orig.calendars.skip(done),
                calendar_views(kept_cals@) == orig.calendars.take(done).filter(keep_cal),
                self@.accounts == mid.accounts,
                self@.tasks == mid.tasks,
                self@.tags == mid.tags,
                self@.pending == mid.pending,
                self@.ui == mid.ui,
                self@.schema == mid.schema,
                keep_cal == keep_calendar_not_owned(id@),
            decreases self.calendars@.len(),
        {
            let ghost cv_pre = self.calendars@;
            proof {
                assert(calendar_views(cv_pre).len() == cv_pre.len());
                assert(orig.calendars.skip(done).len() == orig.calendars.len() - done);
                assert(0 <= done < orig.calendars.len());
                assert(calendar_views(cv_pre)[0] == orig.calendars.skip(done)[0]);
                assert(orig.calendars.skip(done)[0] == orig.calendars[done]);
                assert(cv_pre[0]@ == orig.calendars[done]);
            }
            let c = self.calendars.remove(0);
            proof {
                assert(c@ == orig.calendars[done]);
                assert(self.calendars@ == cv_pre.remove(0));
                assert(calendar_views(self.calendars@) =~= orig.calendars.skip(done + 1)) by {
                    assert forall|j: int|
                        0 <= j < calendar_views(self.calendars@).len() implies calendar_views(
                        self.calendars@,
                    )[j] == orig.calendars.skip(done + 1)[j] by {
                        assert(calendar_views(self.calendars@)[j] == self.calendars@[j]@);
                        assert(self.calendars@[j] == cv_pre[j + 1]);
                        assert(cv_pre[j + 1]@ == calendar_views(cv_pre)[j + 1]);
                        assert(calendar_views(cv_pre)[j + 1] == orig.calendars.skip(done)[j + 1]);
                        assert(orig.calendars.skip(done)[j + 1] == orig.calendars[done + j + 1]);
                        assert(orig.calendars.skip(done + 1)[j] == orig.calendars[done + 1 + j]);
                    }
                }
                assert(orig.calendars.take(done + 1) =~= orig.calendars.take(done).push(
                    orig.calendars[done],
                ));
                lemma_filter_push(orig.calendars.take(done), orig.calendars[done], keep_cal);
            }
            let is_kept = match &c.account_id {
                Option::None => true,
                Option::Some(a) => !a.eq(id),
            };
            proof {
                assert(is_kept == keep_cal(c@));
            }
            if is_kept {
                kept_cals.push(c);
            }
            proof {
                assert(calendar_views(kept_cals@) =~= orig.calendars.take(done + 1).filter(
                    keep_cal,
                ));
                done = done + 1;
            }
        }
        proof {
            assert(orig.calendars.take(done) =~= orig.calendars);
            assert(calendar_views(kept_cals@) == orig.calendars.filter(keep_cal));
        }
        self.calendars = kept_cals;

        // drop the account row itself
        let found2 = self.find_account(id);
        let ai2 = match found2 {
            Option::None => {
                proof {
                    assert(self@.accounts[ai as int].id == id@);
                }
                return unreached();
            },
            Option::Some(ai2) => ai2,
        };
        proof {
            lemma_account_index_pins(self@.accounts, ai2 as int, id@);
            assert(ai2 as int == ai as int);
        }
        self.accounts.remove(ai2);
        proof {
            assert(self@.accounts =~= orig.accounts.remove(ai as int));
        }

        proof {
            let na = orig.accounts.remove(ai as int);
            let nc = orig.calendars.filter(keep_cal);
            lemma_account_remove_keeps(orig.accounts, ai as int);
            lemma_filter_calendar_keys(orig.calendars, keep_cal);
            lemma_filter_sources(orig.calendars, keep_cal);
            assert forall|i: int| 0 <= i < nc.len() implies calendar_record_ok(
                na,
                #[trigger] nc[i],
            ) by {
                let w = choose|w: int| 0 <= w < orig.calendars.len() && orig.calendars[w] == nc[i];
                assert(calendar_record_ok(orig.accounts, orig.calendars[w]));
                assert(keep_cal(nc[i]));
                match nc[i].account_id {
                    Option::None => {},
                    Option::Some(a) => {
                        assert(a != id@);
                        assert(a != orig.accounts[ai as int].id);
                    },
                }
            }
            assert forall|i: int|
                0 <= i < orig.tasks.len() && keep(#[trigger] orig.tasks[i]) implies task_record_ok(
                na,
                nc,
                orig.tasks[i],
            ) by {
                let t = orig.tasks[i];
                assert(task_record_ok(orig.accounts, orig.calendars, t));
                assert(!task_cascades_with_account(t, id@, orig.calendars));
                match t.calendar_id {
                    Option::None => {},
                    Option::Some(c) => {
                        assert(has_calendar(orig.calendars, c));
                        let cv = orig.calendars[calendar_index(orig.calendars, c)];
                        assert(cv.account_id != Option::Some(id@));
                        assert(keep_cal(cv));
                        assert(has_calendar(nc, cv.id));
                        assert(nc[calendar_index(nc, c)] == cv);
                    },
                }
                match t.account_id {
                    Option::None => {},
                    Option::Some(a) => {
                        assert(a != id@);
                        assert(a != orig.accounts[ai as int].id);
                        assert(has_account(na, a));
                    },
                }
            }
            lemma_cascade_wf(orig, na, nc, keep);
            assert(self@ =~= (StoreView {
                accounts: na,
                calendars: nc,
                tasks: cascaded_tasks(orig.tasks, keep),
                pending: orig.pending + removed_tombstones(orig.tasks, keep),
                ..orig
            }));
        }
        Ok(())
    }

    /// Remove every task swept away by deleting this account, and record
    /// the owed tombstones. Runs while the calendar list is still the
    /// original one, which the cascade predicate reads.
    fn cascade_drop_tasks_of_account(&mut self, id: &String, Ghost(orig): Ghost<StoreView>)
        requires
            orig.wf(),
            old(self)@.tasks == orig.tasks,
            old(self)@.pending == orig.pending,
            old(self)@.calendars == orig.calendars,
        ensures
            final(self)@ == (StoreView {
                tasks: orig.tasks.filter(keep_without_account(id@, orig.calendars)),
                pending: orig.pending + removed_tombstones(
                    orig.tasks,
                    keep_without_account(id@, orig.calendars),
                ),
                ..old(self)@
            }),
    {
        let ghost keep = keep_without_account(id@, orig.calendars);
        let ghost start = self@;
        let mut kept_tasks: Vec<Task> = Vec::new();
        let ghost mut done: int = 0;
        proof {
            reveal(Seq::filter);
            assert(task_views(self.tasks@) =~= orig.tasks.skip(0));
            assert(orig.tasks.take(0).filter(keep) =~= Seq::<TaskView>::empty());
            assert(orig.tasks.take(0).filter(removal_pred(keep)) =~= Seq::<TaskView>::empty());
            assert(task_views(kept_tasks@) =~= orig.tasks.take(0).filter(keep));
            assert(removed_tombstones(orig.tasks.take(0), keep) =~= Seq::<
                PendingDeletionView,
            >::empty());
            assert(self@.pending =~= orig.pending + removed_tombstones(orig.tasks.take(0), keep));
        }
        while self.tasks.len() > 0
            invariant
                0 <= done <= orig.tasks.len(),
                orig.wf(),
                task_views(self.tasks@) == orig.tasks.skip(done),
                task_views(kept_tasks@) == orig.tasks.take(done).filter(keep),
                self@.pending == orig.pending + removed_tombstones(orig.tasks.take(done), keep),
                self@.accounts == start.accounts,
                self@.calendars == orig.calendars,
                self@.tags == start.tags,
                self@.ui == start.ui,
                self@.schema == start.schema,
                keep == keep_without_account(id@, orig.calendars),
            decreases self.tasks@.len(),
        {
            let ghost tv_pre = self.tasks@;
            let ghost pend_pre = self@.pending;
            proof {
                assert(task_views(tv_pre).len() == tv_pre.len());
                assert(orig.tasks.skip(done).len() == orig.tasks.len() - done);
                assert(0 <= done < orig.tasks.len());
                assert(task_views(tv_pre)[0] == orig.tasks.skip(done)[0]);
                assert(orig.tasks.skip(done)[0] == orig.tasks[done]);
                assert(tv_pre[0]@ == orig.tasks[done]);
            }
            let t = self.tasks.remove(0);
            proof {
                assert(t@ == orig.tasks[done]);
                assert(self.tasks@ == tv_pre.remove(0));
                assert(task_views(self.tasks@) =~= orig.tasks.skip(done + 1)) by {
                    assert forall|j: int|
                        0 <= j < task_views(self.tasks@).len() implies task_views(self.tasks@)[j]
                        == orig.tasks.skip(done + 1)[j] by {
                        assert(task_views(self.tasks@)[j] == self.tasks@[j]@);
                        assert(self.tasks@[j] == tv_pre[j + 1]);
                        assert(tv_pre[j + 1]@ == task_views(tv_pre)[j + 1]);
                        assert(task_views(tv_pre)[j + 1] == orig.tasks.skip(done)[j + 1]);
                        assert(orig.tasks.skip(done)[j + 1] == orig.tasks[done + j + 1]);
                        assert(orig.tasks.skip(done + 1)[j] == orig.tasks[done + 1 + j]);
                    }
                }
                assert(orig.tasks.take(done + 1) =~= orig.tasks.take(done).push(orig.tasks[done]));
                lemma_filter_push(orig.tasks.take(done), orig.tasks[done], keep);
                lemma_tombstones_push(orig.tasks.take(done), orig.tasks[done], keep);
            }
            let acc_match = match &t.account_id {
                Option::None => false,
                Option::Some(a) => a.eq(id),
            };
            let cal_match = if acc_match {
                false
            } else {
                match &t.calendar_id {
                    Option::None => false,
                    Option::Some(c) => {
                        let f = self.find_calendar(c);
                        match f {
                            Option::None => false,
                            Option::Some(ci) => {
                                proof {
                                    lemma_calendar_index_pins(
                                        orig.calendars,
                                        ci as int,
                                        self@.calendars[ci as int].id,
                                    );
                                }
                                match &self.calendars[ci].account_id {
                                    Option::None => false,
                                    Option::Some(x) => x.eq(id),
                                }
                            },
                        }
                    },
                }
            };
            let is_kept = !acc_match && !cal_match;
            proof {
                assert(is_kept == keep(t@));
            }
            if is_kept {
                kept_tasks.push(t);
                proof {
                    assert(task_views(kept_tasks@) =~= orig.tasks.take(done + 1).filter(keep));
                }
            } else {
                if t.href.is_some() {
                    let tomb = PendingDeletion {
                        uid: t.uid,
                        href: match t.href {
                            Option::Some(h) => h,
                            Option::None => unreached(),
                        },
                        account_id: t.account_id,
                        calendar_id: t.calendar_id,
                    };
                    proof {
                        assert(tomb@ == tombstone_of(orig.tasks[done]));
                    }
                    self.pending_deletions.push(tomb);
                    proof {
                        let tprev = removed_tombstones(orig.tasks.take(done), keep);
                        let tnext = removed_tombstones(orig.tasks.take(done + 1), keep);
                        assert(tnext == tprev.push(tombstone_of(orig.tasks[done])));
                        assert(self@.pending =~= pend_pre.push(tombstone_of(orig.tasks[done])));
                        assert(pend_pre.push(tombstone_of(orig.tasks[done])) =~= orig.pending
                            + tnext);
                    }
                }
                proof {
                    assert(task_views(kept_tasks@) =~= orig.tasks.take(done + 1).filter(keep));
                    assert(self@.pending =~= orig.pending + removed_tombstones(
                        orig.tasks.take(done + 1),
                        keep,
                    ));
                }
            }
            proof {
                done = done + 1;
            }
        }
        proof {
            assert(orig.tasks.take(done) =~= orig.tasks);
            assert(task_views(kept_tasks@) == orig.tasks.filter(keep));
        }
        self.tasks = kept_tasks;
        proof {
            assert(self@ =~= (StoreView {
                tasks: orig.tasks.filter(keep),
                pending: orig.pending + removed_tombstones(orig.tasks, keep),
                ..start
            }));
        }
    }
}

/// Index of the task with this uid in a task list.
pub fn find_task_in(tasks: &Vec<Task>, uid: &String) -> (r: Option<usize>)
    ensures
        match r {
            Option::Some(i) => i < task_views(tasks@).len() && task_views(tasks@)[i as int].uid
                == uid@,
            Option::None => !has_uid(task_views(tasks@), uid@),
        },
{
    let n = tasks.len();
    let mut i: usize = 0;
    while i < n
        invariant
            0 <= i <= n,
            n == tasks@.len(),
            forall|k: int| 0 <= k < i ==> task_views(tasks@)[k].uid != uid@,
        decreases n - i,
    {
        if tasks[i].uid.eq(uid) {
            return Some(i);
        }
        i = i + 1;
    }
    None
}

/// Removing one calendar leaves every other calendar in place, same record,
/// still found under its id.
proof fn lemma_calendar_remove_keeps(s: Seq<CalendarView>, k: int)
    requires
        forall|i: int, j: int| 0 <= i < j < s.len() ==> s[i].id != s[j].id,
        0 <= k < s.len(),
    ensures
        forall|i: int, j: int| 0 <= i < j < s.remove(k).len() ==> s.remove(k)[i].id != s.remove(k)[j].id,
        forall|id: Seq<char>|
            id != s[k].id && #[trigger] has_calendar(s, id) ==> has_calendar(s.remove(k), id)
                && s.remove(k)[calendar_index(s.remove(k), id)] == s[calendar_index(s, id)],
{
    let sr = s.remove(k);
    assert(forall|j: int| 0 <= j < sr.len() ==> #[trigger] sr[j] == s[src_of(j, k)]);
    assert forall|i: int, j: int| 0 <= i < j < sr.len() implies sr[i].id != sr[j].id by {
        assert(s[src_of(i, k)].id != s[src_of(j, k)].id);
    }
    assert forall|id: Seq<char>|
        id != s[k].id && #[trigger] has_calendar(s, id) implies has_calendar(sr, id)
        && sr[calendar_index(sr, id)] == s[calendar_index(s, id)] by {
        let i = calendar_index(s, id);
        assert(0 <= i < s.len() && s[i].id == id);
        assert(i != k);
        let j = if i < k { i } else { i - 1 };
        assert(sr[j].id == id);
        assert(has_calendar(sr, id));
        let j2 = calendar_index(sr, id);
        assert(0 <= j2 < sr.len() && sr[j2].id == id);
        assert(j2 == j) by {
            if j2 != j {
                assert(sr[j2].id != sr[j].id);
            }
        }
        let i2 = src_of(j2, k);
        assert(sr[j2] == s[i2]);
        assert(s[i2].id == id);
        lemma_calendar_index_pins(s, i2, id);
    }
}

/// What one consumed task contributes to the cascade's tombstone list.
proof fn lemma_tombstones_push(s: Seq<TaskView>, x: TaskView, keep: spec_fn(TaskView) -> bool)
    ensures
        removed_tombstones(s.push(x), keep) == (if !keep(x) && x.href is Some {
            removed_tombstones(s, keep).push(tombstone_of(x))
        } else {
            removed_tombstones(s, keep)
        }),
{
    let q = removal_pred(keep);
    lemma_filter_push(s, x, q);
    if q(x) {
        assert(removed_tombstones(s.push(x), keep) =~= removed_tombstones(s, keep).push(
            tombstone_of(x),
        ));
    } else {
        assert(removed_tombstones(s.push(x), keep) =~= removed_tombstones(s, keep));
    }
}

/// With unique ids, a found index is the chosen one.
pub(crate) proof fn lemma_calendar_index_pins(calendars: Seq<CalendarView>, i: int, id: Seq<char>)
    requires
        forall|p: int, q: int| 0 <= p < q < calendars.len() ==> calendars[p].id != calendars[q].id,
        0 <= i < calendars.len(),
        calendars[i].id == id,
    ensures
        calendar_index(calendars, id) == i,
{
    let k = calendar_index(calendars, id);
    assert(0 <= k < calendars.len() && calendars[k].id == id);
    if k != i {
        assert(calendars[k].id != calendars[i].id);
    }
}

/// Replacing a task in place — same row id, same uid, same parent — with a
/// record that still satisfies the per-record invariants preserves the
/// store invariant.
pub(crate) proof fn lemma_task_update_wf(orig: StoreView, i: int, t2: TaskView)
    requires
        orig.wf(),
        0 <= i < orig.tasks.len(),
        t2.uid == orig.tasks[i].uid,
        t2.id == orig.tasks[i].id,
        t2.parent_uid == orig.tasks[i].parent_uid,
        task_record_ok(orig.accounts, orig.calendars, t2),
    ensures
        (StoreView { tasks: orig.tasks.update(i, t2), ..orig }).wf(),
{
    let nt = orig.tasks.update(i, t2);
    assert forall|p: int, q: int| 0 <= p < q < nt.len() implies nt[p].id != nt[q].id by {
        assert(orig.tasks[p].id != orig.tasks[q].id);
    }
    assert(uids_unique(nt)) by {
        assert forall|p: int, q: int| 0 <= p < q < nt.len() implies nt[p].uid != nt[q].uid by {
            assert(orig.tasks[p].uid != orig.tasks[q].uid);
        }
    }
    assert forall|j: int| 0 <= j < nt.len() implies task_record_ok(
        orig.accounts,
        orig.calendars,
        #[trigger] nt[j],
    ) by {
        if j != i {
            assert(nt[j] == orig.tasks[j]);
            assert(task_record_ok(orig.accounts, orig.calendars, orig.tasks[j]));
        }
    }
    assert(parent_refs_ok(nt)) by {
        assert forall|j: int| 0 <= j < nt.len() implies match #[trigger] nt[j].parent_uid {
            Option::None => true,
            Option::Some(p) => p != nt[j].uid && has_uid(nt, p),
        } by {
            match nt[j].parent_uid {
                Option::None => {},
                Option::Some(p) => {
                    assert(orig.tasks[j].parent_uid == Option::Some(p));
                    assert(has_uid(orig.tasks, p));
                    let w = choose|w: int| 0 <= w < orig.tasks.len() && orig.tasks[w].uid == p;
                    assert(nt[w].uid == p);
                },
            }
        }
    }
    assert(acyclic(parent_map(nt))) by {
        lemma_parent_map_update(orig.tasks, i, t2);
        let m = parent_map(orig.tasks);
        lemma_uid_index_pins(orig.tasks, i, t2.uid);
        assert(m[t2.uid] == orig.tasks[i].parent_uid);
        assert(parent_map(nt) =~= m);
    }
    assert forall|j: int| 0 <= j < orig.pending.len() implies !has_uid(
        nt,
        #[trigger] orig.pending[j].uid,
    ) by {
        if has_uid(nt, orig.pending[j].uid) {
            let w = choose|w: int| 0 <= w < nt.len() && nt[w].uid == orig.pending[j].uid;
            assert(orig.tasks[w].uid == orig.pending[j].uid);
            assert(!has_uid(orig.tasks, orig.pending[j].uid));
        }
    }
}

/// Replacing a calendar in place — same id, same owner — preserves the
/// store invariant.
pub(crate) proof fn lemma_calendar_update_wf(orig: StoreView, k: int, c2: CalendarView)
    requires
        orig.wf(),
        0 <= k < orig.calendars.len(),
        c2.id == orig.calendars[k].id,
        c2.account_id == orig.calendars[k].account_id,
    ensures
        (StoreView { calendars: orig.calendars.update(k, c2), ..orig }).wf(),
{
    let nc = orig.calendars.update(k, c2);
    assert forall|p: int, q: int| 0 <= p < q < nc.len() implies nc[p].id != nc[q].id by {
        assert(orig.calendars[p].id != orig.calendars[q].id);
    }
    assert forall|j: int| 0 <= j < nc.len() implies calendar_record_ok(
        orig.accounts,
        #[trigger] nc[j],
    ) by {
        assert(calendar_record_ok(orig.accounts, orig.calendars[j]));
        if j == k {
            assert(calendar_record_ok(orig.accounts, orig.calendars[k]));
        }
    }
    assert forall|u: Seq<char>| #[trigger] has_calendar(orig.calendars, u) implies has_calendar(
        nc,
        u,
    ) && nc[calendar_index(nc, u)].account_id == orig.calendars[calendar_index(
        orig.calendars,
        u,
    )].account_id by {
        let i = calendar_index(orig.calendars, u);
        assert(0 <= i < orig.calendars.len() && orig.calendars[i].id == u);
        assert(nc[i].id == u);
        let i2 = calendar_index(nc, u);
        assert(0 <= i2 < nc.len() && nc[i2].id == u);
        assert(i2 == i) by {
            if i2 != i {
                assert(nc[i2].id != nc[i].id);
            }
        }
    }
    assert forall|j: int| 0 <= j < orig.tasks.len() implies task_record_ok(
        orig.accounts,
        nc,
        #[trigger] orig.tasks[j],
    ) by {
        let t = orig.tasks[j];
        assert(task_record_ok(orig.accounts, orig.calendars, t));
        match t.calendar_id {
            Option::None => {},
            Option::Some(c) => {
                assert(has_calendar(orig.calendars, c));
            },
        }
    }
}

/// With unique ids, a found index is the chosen one.
pub(crate) proof fn lemma_account_index_pins(accounts: Seq<AccountView>, i: int, id: Seq<char>)
    requires
        forall|p: int, q: int| 0 <= p < q < accounts.len() ==> accounts[p].id != accounts[q].id,
        0 <= i < accounts.len(),
        accounts[i].id == id,
    ensures
        account_index(accounts, id) == i,
{
    let k = account_index(accounts, id);
    assert(0 <= k < accounts.len() && accounts[k].id == id);
    if k != i {
        assert(accounts[k].id != accounts[i].id);
    }
}

} // verus!
