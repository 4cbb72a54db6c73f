//! The store's cross-cutting guarantees, stated and proved once, on top of
//! the operation contracts.

use vstd::prelude::*;
use crate::model::TaskView;
use crate::store::{
    StoreView, calendar_index, cascaded_tasks, gone_uids, has_calendar, keep_calendar_not_owned,
    keep_without_account, removal_pred, removed_tombstones, task_cascades_with_account,
    tombstone_of,
};
use crate::hierarchy::{
    chain_ok, lemma_forest_no_self_ancestor, parent_map, reaches, uid_index,
};
use crate::sync::{SyncState, TaskEditView, apply_edit, pushed, task_sync_state};

verus! {

/// A task is completed exactly when a completion timestamp is recorded —
/// for every task of every well-formed store.
pub proof fn lemma_completed_iff_timestamped(sv: StoreView, i: int)
    requires
        sv.wf(),
        0 <= i < sv.tasks.len(),
    ensures
        sv.tasks[i].completed <==> sv.tasks[i].completed_at is Some,
{
}

/// A task naming an owning account also names an owning calendar, and that
/// calendar belongs to the same account — for every task of every
/// well-formed store.
pub proof fn lemma_task_ownership_consistent(sv: StoreView, i: int)
    requires
        sv.wf(),
        0 <= i < sv.tasks.len(),
    ensures
        match sv.tasks[i].account_id {
            Option::None => true,
            Option::Some(a) => {
                &&& sv.tasks[i].calendar_id is Some
                &&& has_calendar(sv.calendars, sv.tasks[i].calendar_id.unwrap())
                &&& sv.calendars[calendar_index(
                    sv.calendars,
                    sv.tasks[i].calendar_id.unwrap(),
                )].account_id == Option::Some(a)
            },
        },
{
}

/// The subtask relation of a well-formed store is a forest: every parent
/// chain is finite, and no task is an ancestor of itself.
pub proof fn lemma_hierarchy_is_forest(sv: StoreView, i: int)
    requires
        sv.wf(),
        0 <= i < sv.tasks.len(),
    ensures
        chain_ok(parent_map(sv.tasks), sv.tasks[i].uid),
        match sv.tasks[i].parent_uid {
            Option::None => true,
            Option::Some(p) => !reaches(parent_map(sv.tasks), p, sv.tasks[i].uid),
        },
{
    let m = parent_map(sv.tasks);
    let u = sv.tasks[i].uid;
    assert(m.dom().contains(u)) by {
        assert(sv.tasks[i].uid == u);
    }
    lemma_forest_no_self_ancestor(m, u);
    crate::hierarchy::lemma_uid_index_pins(sv.tasks, i, u);
    assert(m[u] == sv.tasks[i].parent_uid);
}

/// What deleting an account leaves behind: no calendar of the account
/// survives, no task of the account or of its calendars survives, and a
/// tombstone is produced exactly for each removed task that had been
/// assigned a remote `href`, in store order, carrying that task's
/// identifiers.
pub proof fn lemma_account_cascade_complete(sv: StoreView, aid: Seq<char>)
    requires
        sv.wf(),
    ensures
        forall|i: int|
            0 <= i < sv.calendars.filter(keep_calendar_not_owned(aid)).len()
                ==> (#[trigger] sv.calendars.filter(keep_calendar_not_owned(aid))[i]).account_id
                != Option::Some(aid),
        forall|i: int|
            0 <= i < cascaded_tasks(sv.tasks, keep_without_account(aid, sv.calendars)).len()
                ==> !task_cascades_with_account(
                #[trigger] cascaded_tasks(sv.tasks, keep_without_account(aid, sv.calendars))[i],
                aid,
                sv.calendars,
            ),
        forall|j: int|
            #![trigger removed_tombstones(sv.tasks, keep_without_account(aid, sv.calendars))[j]]
            0 <= j < removed_tombstones(sv.tasks, keep_without_account(aid, sv.calendars)).len()
                ==> ({
                let tombs = removed_tombstones(sv.tasks, keep_without_account(aid, sv.calendars));
                let w = uid_index(sv.tasks, tombs[j].uid);
                &&& 0 <= w < sv.tasks.len()
                &&& task_cascades_with_account(sv.tasks[w], aid, sv.calendars)
                &&& sv.tasks[w].href is Some
                &&& tombs[j] == tombstone_of(sv.tasks[w])
            }),
{
    broadcast use vstd::seq_lib::group_filter_ensures;

    let keep_cal = keep_calendar_not_owned(aid);
    let keep = keep_without_account(aid, sv.calendars);
    let gone = gone_uids(sv.tasks, keep);
    assert forall|i: int|
        0 <= i < sv.calendars.filter(keep_cal).len() implies (#[trigger] sv.calendars.filter(
        keep_cal,
    )[i]).account_id != Option::Some(aid) by {
        assert(keep_cal(sv.calendars.filter(keep_cal)[i]));
    }
    assert forall|i: int|
        0 <= i < cascaded_tasks(sv.tasks, keep).len() implies !task_cascades_with_account(
        #[trigger] cascaded_tasks(sv.tasks, keep)[i],
        aid,
        sv.calendars,
    ) by {
        let kept = sv.tasks.filter(keep);
        assert(cascaded_tasks(sv.tasks, keep)[i] == detached_of(kept[i], gone));
        assert(keep(kept[i]));
    }
    let tombs = removed_tombstones(sv.tasks, keep);
    let q = removal_pred(keep);
    crate::store::lemma_filter_sources(sv.tasks, q);
    assert forall|j: int| #![trigger tombs[j]] 0 <= j < tombs.len() implies ({
        let w = uid_index(sv.tasks, tombs[j].uid);
        &&& 0 <= w < sv.tasks.len()
        &&& task_cascades_with_account(sv.tasks[w], aid, sv.calendars)
        &&& sv.tasks[w].href is Some
        &&& tombs[j] == tombstone_of(sv.tasks[w])
    }) by {
        let src = sv.tasks.filter(q);
        assert(tombs[j] == tombstone_of(src[j]));
        assert(q(src[j]));
        let w0 = choose|w0: int| 0 <= w0 < sv.tasks.len() && sv.tasks[w0] == src[j];
        assert(sv.tasks[w0].uid == tombs[j].uid);
        crate::hierarchy::lemma_uid_index_pins(sv.tasks, w0, tombs[j].uid);
        let w = uid_index(sv.tasks, tombs[j].uid);
        assert(w == w0);
        assert(task_cascades_with_account(sv.tasks[w], aid, sv.calendars) && sv.tasks[w].href
            is Some && tombs[j] == tombstone_of(sv.tasks[w]));
    }
}

/// A task's record after its parent reference was cleared if the parent is
/// among the removed uids; every other field untouched. Mirror of the
/// store's detachment, named here for the cascade law.
pub open spec fn detached_of(t: TaskView, gone: Set<Seq<char>>) -> TaskView {
    crate::store::detached_outside(t, gone)
}

/// The edit/push cycle of the sync-state machine: any local field mutation
/// on a synced task makes it dirty, and a subsequent successful push with a
/// fresh `etag` makes it synced again.
pub proof fn lemma_edit_then_push_cycle(
    t: TaskView,
    e: TaskEditView,
    now: u64,
    href: Seq<char>,
    etag: Seq<char>,
)
    requires
        task_sync_state(t) == SyncState::Synced,
    ensures
        task_sync_state(apply_edit(t, e, now)) == SyncState::Dirty,
        task_sync_state(pushed(apply_edit(t, e, now), href, etag)) == SyncState::Synced,
{
    let t2 = apply_edit(t, e, now);
    assert(!t2.local_only && t2.href == t.href) by {
        match e {
            TaskEditView::Title(_) => {},
            TaskEditView::Description(_) => {},
            TaskEditView::Priority(_) => {},
            TaskEditView::Tags(_) => {},
            TaskEditView::Category(_) => {},
            TaskEditView::StartDate(_, _) => {},
            TaskEditView::DueDate(_, _) => {},
            TaskEditView::Completed(_) => {},
            TaskEditView::Url(_) => {},
            TaskEditView::Reminders(_) => {},
        }
    }
}

} // verus!
