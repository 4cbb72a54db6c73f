//! The subtask hierarchy: the `parent_uid` relation must stay a forest.
//!
//! The relation is modelled as a map from a task's uid to its optional
//! parent uid. A node is sound when the chain of parents above it reaches a
//! root in finitely many steps ([`chain_ok`]); the whole relation is a
//! forest when every node is sound ([`acyclic`]). The lemmas here are the
//! preservation arguments every store mutation rests on: dropping nodes or
//! detaching subtrees keeps the forest a forest, adding a fresh leaf keeps
//! it, and reparenting keeps it exactly when the moved node is not an
//! ancestor of its proposed parent.

use vstd::prelude::*;
use crate::model::TaskView;

verus! {

/// A task uid, as a spec value.
pub type Uid = Seq<char>;

/// The parent relation: uid of each task to its optional parent uid.
pub open spec fn parent_map(tasks: Seq<TaskView>) -> Map<Uid, Option<Uid>> {
    Map::new(
        |u: Uid| has_uid(tasks, u),
        |u: Uid| tasks[uid_index(tasks, u)].parent_uid,
    )
}

/// Some task in the sequence carries this uid.
pub open spec fn has_uid(tasks: Seq<TaskView>, u: Uid) -> bool {
    exists|i: int| 0 <= i < tasks.len() && tasks[i].uid == u
}

/// The index of the task carrying this uid (unique under [`uids_unique`]).
pub open spec fn uid_index(tasks: Seq<TaskView>, u: Uid) -> int {
    choose|i: int| 0 <= i < tasks.len() && tasks[i].uid == u
}

/// No two tasks share a uid.
pub open spec fn uids_unique(tasks: Seq<TaskView>) -> bool {
    forall|i: int, j: int|
        0 <= i < j < tasks.len() ==> tasks[i].uid != tasks[j].uid
}

/// Every parent reference names another existing task.
pub open spec fn parent_refs_ok(tasks: Seq<TaskView>) -> bool {
    forall|i: int|
        0 <= i < tasks.len() ==> match #[trigger] tasks[i].parent_uid {
            Option::None => true,
            Option::Some(p) => p != tasks[i].uid && has_uid(tasks, p),
        }
}

/// Every parent in the relation is itself in the relation's domain.
pub open spec fn parents_in_dom(m: Map<Uid, Option<Uid>>) -> bool {
    forall|u: Uid|
        m.dom().contains(u) ==> match #[trigger] m[u] {
            Option::None => true,
            Option::Some(p) => m.dom().contains(p),
        }
}

/// The parent chain above `u` reaches a root within `fuel` steps. A uid
/// outside the relation has no chain to follow.
pub open spec fn chain_terminates(m: Map<Uid, Option<Uid>>, u: Uid, fuel: nat) -> bool
    decreases fuel,
{
    if !m.dom().contains(u) {
        true
    } else if fuel == 0 {
        false
    } else {
        match m[u] {
            Option::None => true,
            Option::Some(p) => chain_terminates(m, p, (fuel - 1) as nat),
        }
    }
}

/// The parent chain above `u` is finite.
pub open spec fn chain_ok(m: Map<Uid, Option<Uid>>, u: Uid) -> bool {
    exists|fuel: nat| chain_terminates(m, u, fuel)
}

/// The relation is a forest: every chain of parents is finite, so no task
/// is reachable from itself.
pub open spec fn acyclic(m: Map<Uid, Option<Uid>>) -> bool {
    forall|u: Uid| m.dom().contains(u) ==> #[trigger] chain_ok(m, u)
}

/// `target` appears on the parent chain starting at (and including) `from`,
/// within `fuel` steps.
pub open spec fn chain_reaches(m: Map<Uid, Option<Uid>>, from: Uid, target: Uid, fuel: nat) -> bool
    decreases fuel,
{
    if fuel == 0 || !m.dom().contains(from) {
        false
    } else if from == target {
        true
    } else {
        match m[from] {
            Option::None => false,
            Option::Some(p) => chain_reaches(m, p, target, (fuel - 1) as nat),
        }
    }
}

/// `target` is `from` itself or one of its ancestors.
pub open spec fn reaches(m: Map<Uid, Option<Uid>>, from: Uid, target: Uid) -> bool {
    exists|fuel: nat| chain_reaches(m, from, target, fuel)
}

/// More fuel never hurts a terminating chain.
pub proof fn lemma_chain_monotone(m: Map<Uid, Option<Uid>>, u: Uid, f1: nat, f2: nat)
    requires
        chain_terminates(m, u, f1),
        f1 <= f2,
    ensures
        chain_terminates(m, u, f2),
    decreases f1,
{
    if m.dom().contains(u) {
        match m[u] {
            Option::None => {},
            Option::Some(p) => {
                lemma_chain_monotone(m, p, (f1 - 1) as nat, (f2 - 1) as nat);
            },
        }
    }
}

/// A sub-relation of a terminating relation terminates: dropping nodes, and
/// detaching any node from its parent, cannot create a cycle.
pub proof fn lemma_chain_restrict(
    m1: Map<Uid, Option<Uid>>,
    m2: Map<Uid, Option<Uid>>,
    u: Uid,
    fuel: nat,
)
    requires
        chain_terminates(m1, u, fuel),
        m2.dom().subset_of(m1.dom()),
        forall|w: Uid| m2.dom().contains(w) ==> #[trigger] m2[w] == m1[w] || m2[w] is None,
    ensures
        chain_terminates(m2, u, fuel),
    decreases fuel,
{
    if m2.dom().contains(u) {
        match m2[u] {
            Option::None => {},
            Option::Some(p) => {
                lemma_chain_restrict(m1, m2, p, (fuel - 1) as nat);
            },
        }
    }
}

/// Whole-relation form of [`lemma_chain_restrict`].
pub proof fn lemma_acyclic_restrict(m1: Map<Uid, Option<Uid>>, m2: Map<Uid, Option<Uid>>)
    requires
        acyclic(m1),
        m2.dom().subset_of(m1.dom()),
        forall|w: Uid| m2.dom().contains(w) ==> #[trigger] m2[w] == m1[w] || m2[w] is None,
    ensures
        acyclic(m2),
{
    assert forall|u: Uid| m2.dom().contains(u) implies #[trigger] chain_ok(m2, u) by {
        assert(chain_ok(m1, u));
        let fuel = choose|fuel: nat| chain_terminates(m1, u, fuel);
        lemma_chain_restrict(m1, m2, u, fuel);
    }
}

/// Inserting a binding for a uid unknown to the relation disturbs no
/// existing chain, provided every existing parent is in the domain.
pub proof fn lemma_chain_insert_fresh(
    m: Map<Uid, Option<Uid>>,
    w: Uid,
    pv: Option<Uid>,
    u: Uid,
    fuel: nat,
)
    requires
        chain_terminates(m, u, fuel),
        !m.dom().contains(w),
        parents_in_dom(m),
        u != w,
    ensures
        chain_terminates(m.insert(w, pv), u, fuel),
    decreases fuel,
{
    let m2 = m.insert(w, pv);
    if m2.dom().contains(u) {
        match m2[u] {
            Option::None => {},
            Option::Some(p) => {
                assert(m.dom().contains(u));
                assert(m[u] == Option::Some(p));
                assert(m.dom().contains(p));
                lemma_chain_insert_fresh(m, w, pv, p, (fuel - 1) as nat);
            },
        }
    }
}

/// Adding a task under a fresh uid, rooted or attached below an existing
/// task, keeps the relation a forest.
pub proof fn lemma_acyclic_insert_fresh(m: Map<Uid, Option<Uid>>, w: Uid, pv: Option<Uid>)
    requires
        acyclic(m),
        parents_in_dom(m),
        !m.dom().contains(w),
        pv is Some ==> m.dom().contains(pv.unwrap()),
    ensures
        acyclic(m.insert(w, pv)),
{
    let m2 = m.insert(w, pv);
    assert forall|u: Uid| m2.dom().contains(u) implies #[trigger] chain_ok(m2, u) by {
        if u == w {
            match pv {
                Option::None => {
                    assert(chain_terminates(m2, w, 1));
                },
                Option::Some(p) => {
                    assert(chain_ok(m, p));
                    let fp = choose|fp: nat| chain_terminates(m, p, fp);
                    lemma_chain_insert_fresh(m, w, pv, p, fp);
                    assert(chain_terminates(m2, w, fp + 1));
                },
            }
        } else {
            assert(chain_ok(m, u));
            let fu = choose|fu: nat| chain_terminates(m, u, fu);
            lemma_chain_insert_fresh(m, w, pv, u, fu);
        }
    }
}

/// A chain that terminates without passing through `x` still terminates
/// after `x` is re-bound.
pub proof fn lemma_chain_avoid(
    m: Map<Uid, Option<Uid>>,
    x: Uid,
    pv: Option<Uid>,
    y: Uid,
    fuel: nat,
)
    requires
        chain_terminates(m, y, fuel),
        m.dom().contains(x),
        !reaches(m, y, x),
    ensures
        chain_terminates(m.insert(x, pv), y, fuel),
    decreases fuel,
{
    let m2 = m.insert(x, pv);
    if m.dom().contains(y) {
        assert(fuel > 0);
        assert(y != x) by {
            if y == x {
                assert(chain_reaches(m, y, x, 1));
            }
        }
        assert(m2[y] == m[y]);
        match m[y] {
            Option::None => {
                assert(chain_terminates(m2, y, fuel));
            },
            Option::Some(p) => {
                assert(!reaches(m, p, x)) by {
                    if reaches(m, p, x) {
                        let fp = choose|fp: nat| chain_reaches(m, p, x, fp);
                        assert(chain_reaches(m, y, x, fp + 1));
                    }
                }
                if m.dom().contains(p) {
                    lemma_chain_avoid(m, x, pv, p, (fuel - 1) as nat);
                } else {
                    assert(p != x);
                    assert(!m2.dom().contains(p));
                    assert(chain_terminates(m2, p, (fuel - 1) as nat));
                }
                assert(chain_terminates(m2, y, fuel));
            },
        }
    } else {
        assert(y != x);
        assert(!m2.dom().contains(y));
    }
}

/// Every chain terminates after `x` is re-bound below `y`, given that the
/// chain above `y` terminates in the new relation.
proof fn lemma_chain_after_reparent(
    m: Map<Uid, Option<Uid>>,
    x: Uid,
    y: Uid,
    u: Uid,
    fu: nat,
    fy: nat,
)
    requires
        chain_terminates(m, u, fu),
        chain_terminates(m.insert(x, Option::Some(y)), y, fy),
        m.dom().contains(x),
    ensures
        chain_terminates(m.insert(x, Option::Some(y)), u, fu + fy + 1),
    decreases fu,
{
    let m2 = m.insert(x, Option::Some(y));
    if u == x {
        lemma_chain_monotone(m2, y, fy, (fu + fy) as nat);
    } else if m2.dom().contains(u) {
        match m2[u] {
            Option::None => {},
            Option::Some(p) => {
                lemma_chain_after_reparent(m, x, y, p, (fu - 1) as nat, fy);
                lemma_chain_monotone(m2, p, ((fu - 1) + fy + 1) as nat, (fu + fy) as nat);
            },
        }
    }
}

/// Reparenting `x` below `y` keeps the relation a forest exactly because
/// `x` is not `y` and not an ancestor of `y`.
pub proof fn lemma_acyclic_reparent(m: Map<Uid, Option<Uid>>, x: Uid, y: Uid)
    requires
        acyclic(m),
        m.dom().contains(x),
        m.dom().contains(y),
        !reaches(m, y, x),
    ensures
        acyclic(m.insert(x, Option::Some(y))),
{
    let m2 = m.insert(x, Option::Some(y));
    assert(chain_ok(m, y));
    let fy = choose|fy: nat| chain_terminates(m, y, fy);
    lemma_chain_avoid(m, x, Option::Some(y), y, fy);
    assert forall|u: Uid| m2.dom().contains(u) implies #[trigger] chain_ok(m2, u) by {
        assert(m.dom().contains(u));
        assert(chain_ok(m, u));
        let fu = choose|fu: nat| chain_terminates(m, u, fu);
        lemma_chain_after_reparent(m, x, y, u, fu, fy);
    }
}

/// Following one parent edge preserves what is reachable, once the start
/// itself has been ruled out.
pub proof fn lemma_reaches_step(m: Map<Uid, Option<Uid>>, from: Uid, p: Uid, target: Uid)
    requires
        m.dom().contains(from),
        from != target,
        m[from] == Option::Some(p),
    ensures
        reaches(m, from, target) == reaches(m, p, target),
{
    if reaches(m, from, target) {
        let f = choose|f: nat| chain_reaches(m, from, target, f);
        assert(chain_reaches(m, p, target, (f - 1) as nat));
    }
    if reaches(m, p, target) {
        let f = choose|f: nat| chain_reaches(m, p, target, f);
        assert(chain_reaches(m, from, target, f + 1));
    }
}

/// From a root, nothing but the root itself is reachable.
pub proof fn lemma_reaches_root(m: Map<Uid, Option<Uid>>, from: Uid, target: Uid)
    requires
        m.dom().contains(from),
        from != target,
        m[from] is None,
    ensures
        !reaches(m, from, target),
{
    if reaches(m, from, target) {
        let f = choose|f: nat| chain_reaches(m, from, target, f);
        assert(chain_reaches(m, from, target, f));
    }
}

/// A uid outside the relation reaches nothing.
pub proof fn lemma_reaches_outside(m: Map<Uid, Option<Uid>>, from: Uid, target: Uid)
    requires
        !m.dom().contains(from),
    ensures
        !reaches(m, from, target),
{
    if reaches(m, from, target) {
        let f = choose|f: nat| chain_reaches(m, from, target, f);
        assert(chain_reaches(m, from, target, f));
    }
}

/// A uid in the relation reaches itself.
pub proof fn lemma_reaches_self(m: Map<Uid, Option<Uid>>, from: Uid)
    requires
        m.dom().contains(from),
    ensures
        reaches(m, from, from),
{
    assert(chain_reaches(m, from, from, 1));
}

/// Whatever a terminating chain reaches has a terminating chain itself.
pub proof fn lemma_reaches_then_terminates(
    m: Map<Uid, Option<Uid>>,
    u: Uid,
    t: Uid,
    f: nat,
    n: nat,
)
    requires
        chain_reaches(m, u, t, f),
        chain_terminates(m, u, n),
    ensures
        chain_terminates(m, t, n),
    decreases f,
{
    if u == t {
    } else {
        match m[u] {
            Option::None => {
                assert(false);
            },
            Option::Some(q) => {
                lemma_reaches_then_terminates(m, q, t, (f - 1) as nat, (n - 1) as nat);
                lemma_chain_monotone(m, t, (n - 1) as nat, n);
            },
        }
    }
}

proof fn lemma_no_cycle_from(m: Map<Uid, Option<Uid>>, u: Uid, p: Uid, f: nat, n: nat)
    requires
        chain_terminates(m, u, n),
        m.dom().contains(u),
        m[u] == Option::Some(p),
    ensures
        !chain_reaches(m, p, u, f),
    decreases n,
{
    if chain_reaches(m, p, u, f) {
        assert(n > 0);
        assert(chain_terminates(m, p, (n - 1) as nat));
        lemma_reaches_then_terminates(m, p, u, f, (n - 1) as nat);
        lemma_no_cycle_from(m, u, p, f, (n - 1) as nat);
    }
}

/// In a forest no task descends from itself: a node's parent never reaches
/// the node again.
pub proof fn lemma_forest_no_self_ancestor(m: Map<Uid, Option<Uid>>, u: Uid)
    requires
        acyclic(m),
        m.dom().contains(u),
    ensures
        chain_ok(m, u),
        match m[u] {
            Option::None => true,
            Option::Some(p) => !reaches(m, p, u),
        },
{
    assert(chain_ok(m, u));
    match m[u] {
        Option::None => {},
        Option::Some(p) => {
            if reaches(m, p, u) {
                let f = choose|f: nat| chain_reaches(m, p, u, f);
                let n = choose|n: nat| chain_terminates(m, u, n);
                lemma_no_cycle_from(m, u, p, f, n);
                assert(chain_reaches(m, p, u, f));
            }
        },
    }
}

/// With unique uids, a found index is the chosen one.
pub proof fn lemma_uid_index_pins(tasks: Seq<TaskView>, i: int, u: Uid)
    requires
        uids_unique(tasks),
        0 <= i < tasks.len(),
        tasks[i].uid == u,
    ensures
        uid_index(tasks, u) == i,
        has_uid(tasks, u),
{
    let k = uid_index(tasks, u);
    assert(0 <= k < tasks.len() && tasks[k].uid == u);
    if k != i {
        assert(tasks[k].uid != tasks[i].uid);
    }
}

/// Task-level parent soundness gives relation-level parent soundness.
pub proof fn lemma_refs_give_parents_in_dom(tasks: Seq<TaskView>)
    requires
        parent_refs_ok(tasks),
    ensures
        parents_in_dom(parent_map(tasks)),
{
    let m = parent_map(tasks);
    assert forall|u: Uid| m.dom().contains(u) implies match m[u] {
        Option::None => true,
        Option::Some(p) => m.dom().contains(p),
    } by {
        let i = uid_index(tasks, u);
        assert(0 <= i < tasks.len() && tasks[i].uid == u);
        assert(m[u] == tasks[i].parent_uid);
    }
}

/// Two task sequences with the same uids and parents, position by position,
/// induce the same parent relation.
pub proof fn lemma_parent_map_congruent(a: Seq<TaskView>, b: Seq<TaskView>)
    requires
        a.len() == b.len(),
        uids_unique(a),
        forall|i: int| 0 <= i < a.len() ==> #[trigger] b[i].uid == a[i].uid,
        forall|i: int| 0 <= i < a.len() ==> #[trigger] b[i].parent_uid == a[i].parent_uid,
    ensures
        parent_map(b) == parent_map(a),
{
    assert forall|u: Uid| #[trigger] has_uid(a, u) implies has_uid(b, u) by {
        let i = choose|i: int| 0 <= i < a.len() && a[i].uid == u;
        assert(b[i].uid == u);
    }
    assert forall|u: Uid| #[trigger] has_uid(b, u) implies has_uid(a, u) by {
        let i = choose|i: int| 0 <= i < b.len() && b[i].uid == u;
        assert(a[i].uid == u);
    }
    assert forall|u: Uid| has_uid(a, u) implies #[trigger] parent_map(b)[u] == parent_map(a)[u] by {
        let ia = uid_index(a, u);
        let ib = uid_index(b, u);
        assert(0 <= ia < a.len() && a[ia].uid == u);
        assert(0 <= ib < b.len() && b[ib].uid == u);
        assert(a[ib].uid == u);
        assert(ia == ib) by {
            if ia != ib {
                assert(a[ia].uid != a[ib].uid);
            }
        }
    }
    assert(parent_map(b) =~= parent_map(a));
}

/// Appending a task under a fresh uid extends the parent relation by one
/// binding and nothing else.
pub proof fn lemma_parent_map_push(tasks: Seq<TaskView>, t: TaskView)
    requires
        uids_unique(tasks),
        !has_uid(tasks, t.uid),
    ensures
        parent_map(tasks.push(t)) == parent_map(tasks).insert(t.uid, t.parent_uid),
{
    let a = tasks;
    let b = tasks.push(t);
    assert(b.len() == a.len() + 1);
    assert(b[a.len() as int] == t);
    assert forall|u: Uid| #[trigger] has_uid(b, u) implies has_uid(a, u) || u == t.uid by {
        let i = choose|i: int| 0 <= i < b.len() && b[i].uid == u;
        if i < a.len() {
            assert(a[i].uid == u);
        }
    }
    assert forall|u: Uid| #[trigger] has_uid(a, u) implies has_uid(b, u) by {
        let i = choose|i: int| 0 <= i < a.len() && a[i].uid == u;
        assert(b[i].uid == u);
    }
    assert(has_uid(b, t.uid));
    assert forall|u: Uid| has_uid(a, u) implies #[trigger] parent_map(b)[u] == parent_map(a)[u] by {
        let ia = uid_index(a, u);
        let ib = uid_index(b, u);
        assert(0 <= ia < a.len() && a[ia].uid == u);
        assert(0 <= ib < b.len() && b[ib].uid == u);
        assert(u != t.uid);
        assert(ib < a.len());
        assert(ia == ib) by {
            if ia != ib {
                assert(a[ia].uid != a[ib].uid);
            }
        }
    }
    assert(parent_map(b)[t.uid] == t.parent_uid) by {
        let ib = uid_index(b, t.uid);
        assert(0 <= ib < b.len() && b[ib].uid == t.uid);
        if ib < a.len() {
            assert(has_uid(a, t.uid));
        }
        assert(ib == a.len() as int);
    }
    assert(parent_map(b) =~= parent_map(a).insert(t.uid, t.parent_uid));
}

/// Replacing a task in place, uid kept, re-binds exactly that uid in the
/// parent relation.
pub proof fn lemma_parent_map_update(tasks: Seq<TaskView>, i: int, t: TaskView)
    requires
        uids_unique(tasks),
        0 <= i < tasks.len(),
        t.uid == tasks[i].uid,
    ensures
        parent_map(tasks.update(i, t)) == parent_map(tasks).insert(t.uid, t.parent_uid),
{
    let a = tasks;
    let b = tasks.update(i, t);
    assert(b.len() == a.len());
    assert forall|u: Uid| #[trigger] has_uid(b, u) implies has_uid(a, u) by {
        let k = choose|k: int| 0 <= k < b.len() && b[k].uid == u;
        if k == i {
            assert(a[i].uid == u);
        } else {
            assert(a[k].uid == u);
        }
    }
    assert forall|u: Uid| #[trigger] has_uid(a, u) implies has_uid(b, u) by {
        let k = choose|k: int| 0 <= k < a.len() && a[k].uid == u;
        if k == i {
            assert(b[i].uid == u);
        } else {
            assert(b[k].uid == u);
        }
    }
    assert forall|u: Uid| has_uid(a, u) && u != t.uid implies #[trigger] parent_map(b)[u]
        == parent_map(a)[u] by {
        let ia = uid_index(a, u);
        let ib = uid_index(b, u);
        assert(0 <= ia < a.len() && a[ia].uid == u);
        assert(0 <= ib < b.len() && b[ib].uid == u);
        assert(ib != i);
        assert(a[ib].uid == u);
        assert(ia == ib) by {
            if ia != ib {
                assert(a[ia].uid != a[ib].uid);
            }
        }
    }
    assert(parent_map(b)[t.uid] == t.parent_uid) by {
        let ib = uid_index(b, t.uid);
        assert(0 <= ib < b.len() && b[ib].uid == t.uid);
        assert(ib == i) by {
            if ib != i {
                assert(a[ib].uid == t.uid);
                assert(a[ib].uid != a[i].uid);
            }
        }
    }
    assert(parent_map(b) =~= parent_map(a).insert(t.uid, t.parent_uid));
}

} // verus!
