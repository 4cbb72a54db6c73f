//! Reads supporting the task list view: filtering by calendar, account,
//! tag and completion state, free-text search over title and description,
//! and sorting by manual order, due date, priority or creation time.

use vstd::prelude::*;
use crate::model::{
    SortDirection, SortMode, Task, TaskView, priority_rank, priority_rank_exec,
};
use crate::store::{Store, task_views};
use crate::sync::{SyncState, sync_state_of, task_sync_state};
use crate::strutil::{
    clone_opt_str, clone_strings, contains_seq, seq_has_string, str_contains, strings_contain,
};

verus! {

impl Task {
    /// An exact copy of the record, field by field.
    pub fn duplicate(&self) -> (t: Task)
        ensures
            t@ == self@,
    {
        let t = Task {
            id: self.id.clone(),
            uid: self.uid.clone(),
            etag: clone_opt_str(&self.etag),
            href: clone_opt_str(&self.href),
            title: self.title.clone(),
            description: self.description.clone(),
            completed: self.completed,
            completed_at: self.completed_at,
            tags: clone_strings(&self.tags),
            category_id: clone_opt_str(&self.category_id),
            priority: self.priority,
            start_date: self.start_date,
            start_date_all_day: self.start_date_all_day,
            due_date: self.due_date,
            due_date_all_day: self.due_date_all_day,
            created_at: self.created_at,
            modified_at: self.modified_at,
            reminders: clone_strings(&self.reminders),
            subtasks: clone_strings(&self.subtasks),
            parent_uid: clone_opt_str(&self.parent_uid),
            is_collapsed: self.is_collapsed,
            sort_order: self.sort_order,
            account_id: clone_opt_str(&self.account_id),
            calendar_id: clone_opt_str(&self.calendar_id),
            synced: self.synced,
            local_only: self.local_only,
            url: clone_opt_str(&self.url),
        };
        proof {
            assert(t@ =~= self@);
        }
        t
    }
}

/// The filters a task list view applies.
pub struct TaskQuery {
    /// Only tasks of this calendar.
    pub calendar_id: Option<String>,
    /// Only tasks of this account.
    pub account_id: Option<String>,
    /// Only tasks carrying this tag.
    pub tag: Option<String>,
    /// Whether completed tasks are shown.
    pub include_completed: bool,
    /// Free-text needle matched against title and description.
    pub search: Option<String>,
}

#[verifier::ext_equal]
pub struct TaskQueryView {
    pub calendar_id: Option<Seq<char>>,
    pub account_id: Option<Seq<char>>,
    pub tag: Option<Seq<char>>,
    pub include_completed: bool,
    pub search: Option<Seq<char>>,
}

impl View for TaskQuery {
    type V = TaskQueryView;

    open spec fn view(&self) -> TaskQueryView {
        TaskQueryView {
            calendar_id: self.calendar_id.deep_view(),
            account_id: self.account_id.deep_view(),
            tag: self.tag.deep_view(),
            include_completed: self.include_completed,
            search: self.search.deep_view(),
        }
    }
}

/// Whether a task passes every filter of the query.
pub open spec fn matches_query(t: TaskView, q: TaskQueryView) -> bool {
    &&& match q.calendar_id {
        Option::None => true,
        Option::Some(c) => t.calendar_id == Option::Some(c),
    }
    &&& match q.account_id {
        Option::None => true,
        Option::Some(a) => t.account_id == Option::Some(a),
    }
    &&& match q.tag {
        Option::None => true,
        Option::Some(g) => seq_has_string(t.tags, g),
    }
    &&& (q.include_completed || !t.completed)
    &&& match q.search {
        Option::None => true,
        Option::Some(s) => contains_seq(t.title, s) || contains_seq(t.description, s),
    }
}

/// [`matches_query`] as a predicate value, so filters compose.
pub open spec fn query_pred(q: TaskQueryView) -> spec_fn(TaskView) -> bool {
    |t: TaskView| matches_query(t, q)
}

/// The integer key a task is ordered by under this mode. Tasks without a
/// due date order after every dated task.
pub open spec fn sort_key(t: TaskView, mode: SortMode) -> int {
    match mode {
        SortMode::Manual => t.sort_order as int,
        SortMode::DueDate => match t.due_date {
            Option::Some(d) => d as int,
            Option::None => u64::MAX as int + 1,
        },
        SortMode::Priority => priority_rank(t.priority),
        SortMode::CreatedAt => t.created_at as int,
    }
}

/// The ordering a task list view uses: keys ascending or descending.
pub open spec fn le_by(a: TaskView, b: TaskView, mode: SortMode, dir: SortDirection) -> bool {
    match dir {
        SortDirection::Asc => sort_key(a, mode) <= sort_key(b, mode),
        SortDirection::Desc => sort_key(b, mode) <= sort_key(a, mode),
    }
}

/// The list is ordered under the mode and direction.
pub open spec fn sorted_by_mode(s: Seq<TaskView>, mode: SortMode, dir: SortDirection) -> bool {
    forall|i: int, j: int| 0 <= i < j < s.len() ==> le_by(s[i], s[j], mode, dir)
}

/// Executable counterpart of [`le_by`].
pub fn cmp_le(a: &Task, b: &Task, mode: SortMode, dir: SortDirection) -> (r: bool)
    ensures
        r == le_by(a@, b@, mode, dir),
{
    let (x, y) = match dir {
        SortDirection::Asc => (a, b),
        SortDirection::Desc => (b, a),
    };
    match mode {
        SortMode::Manual => x.sort_order <= y.sort_order,
        SortMode::DueDate => match (&x.due_date, &y.due_date) {
            (Option::Some(dx), Option::Some(dy)) => *dx <= *dy,
            (Option::Some(_), Option::None) => true,
            (Option::None, Option::Some(_)) => false,
            (Option::None, Option::None) => true,
        },
        SortMode::Priority => priority_rank_exec(x.priority) <= priority_rank_exec(y.priority),
        SortMode::CreatedAt => x.created_at <= y.created_at,
    }
}

impl Store {
    /// The tasks passing the query's filters, in store order, as copies.
    pub fn select_tasks(&self, q: &TaskQuery) -> (r: Vec<Task>)
        ensures
            task_views(r@) == self@.tasks.filter(query_pred(q@)),
    {
        let ghost pred = query_pred(q@);
        let mut r: Vec<Task> = Vec::new();
        let n = self.tasks.len();
        let mut i: usize = 0;
        proof {
            reveal(Seq::filter);
            assert(self@.tasks.take(0).filter(pred) =~= Seq::<TaskView>::empty());
            assert(task_views(r@) =~= self@.tasks.take(0).filter(pred));
        }
        while i < n
            invariant
                0 <= i <= n,
                n == self.tasks@.len(),
                task_views(r@) == self@.tasks.take(i as int).filter(pred),
                pred == query_pred(q@),
            decreases n - i,
        {
            let t = &self.tasks[i];
            let cal_ok = match &q.calendar_id {
                Option::None => true,
                Option::Some(c) => match &t.calendar_id {
                    Option::Some(tc) => tc.eq(c),
                    Option::None => false,
                },
            };
            let acc_ok = match &q.account_id {
                Option::None => true,
                Option::Some(a) => match &t.account_id {
                    Option::Some(ta) => ta.eq(a),
                    Option::None => false,
                },
            };
            let tag_ok = match &q.tag {
                Option::None => true,
                Option::Some(g) => strings_contain(&t.tags, g),
            };
            let done_ok = q.include_completed || !t.completed;
            let search_ok = match &q.search {
                Option::None => true,
                Option::Some(s) => str_contains(t.title.as_str(), s.as_str()) || str_contains(
                    t.description.as_str(),
                    s.as_str(),
                ),
            };
            let keep = cal_ok && acc_ok && tag_ok && done_ok && search_ok;
            proof {
                assert(t@ == self@.tasks[i as int]);
                assert(keep == matches_query(t@, q@));
                assert(self@.tasks.take(i + 1) =~= self@.tasks.take(i as int).push(
                    self@.tasks[i as int],
                ));
                lemma_filter_push_tasks(self@.tasks.take(i as int), self@.tasks[i as int], pred);
            }
            if keep {
                let copy = t.duplicate();
                r.push(copy);
            }
            proof {
                assert(task_views(r@) =~= self@.tasks.take(i + 1).filter(pred));
            }
            i = i + 1;
        }
        proof {
            assert(self@.tasks.take(n as int) =~= self@.tasks);
        }
        r
    }
}

/// Filtering commutes with appending one task.
proof fn lemma_filter_push_tasks(s: Seq<TaskView>, x: TaskView, p: spec_fn(TaskView) -> bool)
    ensures
        s.push(x).filter(p) == (if p(x) {
            s.filter(p).push(x)
        } else {
            s.filter(p)
        }),
{
    reveal(Seq::filter);
    assert(s.push(x).drop_last() =~= s);
    assert(s.push(x).last() == x);
}

/// Tasks in this reconciliation state, as a predicate value.
pub open spec fn state_pred(st: SyncState) -> spec_fn(TaskView) -> bool {
    |t: TaskView| task_sync_state(t) == st
}

impl Store {
    /// How many live tasks sit in this reconciliation state — the figure the
    /// presentation layer renders in sync summaries.
    pub fn count_in_state(&self, st: SyncState) -> (n: usize)
        ensures
            n as int == self@.tasks.filter(state_pred(st)).len(),
    {
        let ghost pred = state_pred(st);
        let total = self.tasks.len();
        let mut n: usize = 0;
        let mut i: usize = 0;
        proof {
            reveal(Seq::filter);
            assert(self@.tasks.take(0).filter(pred) =~= Seq::<TaskView>::empty());
        }
        while i < total
            invariant
                0 <= i <= total,
                total == self.tasks@.len(),
                n <= i,
                n as int == self@.tasks.take(i as int).filter(pred).len(),
                pred == state_pred(st),
            decreases total - i,
        {
            let s = sync_state_of(&self.tasks[i]);
            proof {
                assert(self@.tasks.take(i + 1) =~= self@.tasks.take(i as int).push(
                    self@.tasks[i as int],
                ));
                lemma_filter_push_tasks(self@.tasks.take(i as int), self@.tasks[i as int], pred);
            }
            if s == st {
                n = n + 1;
            }
            i = i + 1;
        }
        proof {
            assert(self@.tasks.take(total as int) =~= self@.tasks);
        }
        n
    }

    /// How many deletions still await remote confirmation.
    pub fn pending_delete_count(&self) -> (n: usize)
        ensures
            n as int == self@.pending.len(),
    {
        self.pending_deletions.len()
    }
}

/// Order a task list under the mode and direction. The result holds exactly
/// the given records — same multiset — in sorted order. Equal keys carry no
/// promise about their relative order.
pub fn sort_tasks(tasks: Vec<Task>, mode: SortMode, dir: SortDirection) -> (r: Vec<Task>)
    ensures
        sorted_by_mode(task_views(r@), mode, dir),
        task_views(r@).to_multiset() == task_views(tasks@).to_multiset(),
        r@.len() == tasks@.len(),
{
    broadcast use vstd::seq_lib::to_multiset_update;
    broadcast use vstd::seq_lib::group_to_multiset_ensures;

    let mut v = tasks;
    let ghost input = task_views(v@);
    let n = v.len();
    let mut i: usize = 1;
    if n <= 1 {
        return v;
    }
    while i < n
        invariant
            1 <= i <= n,
            n == v@.len(),
            task_views(v@).to_multiset() == input.to_multiset(),
            forall|p: int, q: int|
                0 <= p < q < i ==> le_by(task_views(v@)[p], task_views(v@)[q], mode, dir),
        decreases n - i,
    {
        let mut j: usize = i;
        let mut moving = true;
        while moving && j > 0
            invariant
                0 <= j <= i < n,
                n == v@.len(),
                task_views(v@).to_multiset() == input.to_multiset(),
                moving ==> forall|p: int, q: int|
                    0 <= p < q <= i && q != j ==> le_by(
                        task_views(v@)[p],
                        task_views(v@)[q],
                        mode,
                        dir,
                    ),
                !moving ==> forall|p: int, q: int|
                    0 <= p < q <= i ==> le_by(task_views(v@)[p], task_views(v@)[q], mode, dir),
            decreases j, (if moving { 1int } else { 0int }),
        {
            let stop = cmp_le(&v[j - 1], &v[j], mode, dir);
            if stop {
                proof {
                    let tv = task_views(v@);
                    assert forall|p: int, q: int|
                        0 <= p < q <= i implies le_by(tv[p], tv[q], mode, dir) by {
                        if q == j as int {
                            if p < j - 1 {
                                assert(le_by(tv[p], tv[j - 1], mode, dir));
                                assert(le_by(tv[j - 1], tv[j as int], mode, dir));
                            }
                        }
                    }
                }
                moving = false;
                continue;
            }
            let ghost before = v@;
            let x = v.remove(j);
            v.insert(j - 1, x);
            proof {
                let a = before[j - 1];
                let b = before[j as int];
                assert(v@ =~= before.update(j - 1, b).update(j as int, a));
                let tvb = task_views(before);
                let tv = task_views(v@);
                assert(tv =~= tvb.update(j - 1, b@).update(j as int, a@));
                assert(tv.to_multiset() =~= tvb.to_multiset()) by {
                    let s1 = tvb.update(j - 1, b@);
                    vstd::seq_lib::to_multiset_update(tvb, j - 1, b@);
                    assert(s1.to_multiset() == tvb.to_multiset().insert(b@).remove(tvb[j - 1]));
                    assert(s1[j as int] == tvb[j as int]);
                    vstd::seq_lib::to_multiset_update(s1, j as int, a@);
                    assert(tv.to_multiset() == s1.to_multiset().insert(a@).remove(s1[j as int]));
                    tvb.to_multiset_ensures();
                    assert(tvb.contains(tvb[j - 1])) by {
                        assert(0 <= j - 1 < tvb.len() && tvb[j - 1] == tvb[j - 1]);
                    }
                    assert(tvb.to_multiset().count(tvb[j - 1]) > 0);
                    assert(tvb[j - 1] == a@);
                    assert(tvb[j as int] == b@);
                }
                assert(!le_by(a@, b@, mode, dir));
                assert(le_by(b@, a@, mode, dir));
                assert forall|p: int, q: int|
                    0 <= p < q <= i && q != j - 1 implies le_by(tv[p], tv[q], mode, dir) by {
                    let tvb2 = tvb;
                    if p == j - 1 {
                        if q == j as int {
                            assert(tv[p] == b@ && tv[q] == a@);
                        } else {
                            assert(tv[p] == b@ && tv[q] == tvb2[q]);
                            assert(le_by(tvb2[j as int], tvb2[q], mode, dir));
                        }
                    } else if p == j as int {
                        assert(tv[p] == a@ && tv[q] == tvb2[q]);
                        assert(le_by(tvb2[j - 1], tvb2[q], mode, dir));
                    } else {
                        if q == j as int {
                            assert(tv[q] == a@ && tv[p] == tvb2[p]);
                            assert(le_by(tvb2[p], tvb2[j - 1], mode, dir));
                        } else {
                            assert(tv[p] == tvb2[p] && tv[q] == tvb2[q]);
                        }
                    }
                }
            }
            j = j - 1;
        }
        proof {
            let tv = task_views(v@);
            assert forall|p: int, q: int| 0 <= p < q <= i implies le_by(tv[p], tv[q], mode, dir) by {}
        }
        i = i + 1;
    }
    proof {
        assert(sorted_by_mode(task_views(v@), mode, dir));
    }
    v
}

} // verus!
