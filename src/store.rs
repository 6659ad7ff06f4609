//! The commands applied to a model: each either changes it and keeps its
//! invariant, or fails and leaves it as it was.
use crate::model::{
    group_index, groups_sorted, has_group, listed, names_unique, sorted_by_key, sorted_by_key_at,
    task_views, wf,
    wf_links, Error, Group, GroupView, ListCommand, Model, ModelView, MoveCommand, NewCommand, opt_text, Prio, Task, TaskView,
    Timestamp, UpdateCommand, TID,
};
use crate::text::{decimal, decimal_text};
use crate::display::{listing, PrintGroup, PrintModel};
use crate::order::{lemma_sort_tids, sort_by_key, sort_tids};
use vstd::prelude::*;

verus! {

broadcast use vstd::std_specs::hash::group_hash_axioms;

/// Every group with its ids in the stable order by key.
pub open spec fn sort_all(v: ModelView) -> ModelView {
    ModelView {
        tasks: v.tasks,
        groups: v.groups.map_values(
            |g: GroupView| GroupView { name: g.name, tids: sort_tids(v.tasks, g.tids) },
        ),
    }
}

/// `gs` with `tid` appended to the group named `name`, which is created at
/// the end where missing.
pub open spec fn append_to_group(gs: Seq<GroupView>, name: Seq<char>, tid: TID) -> Seq<GroupView> {
    if has_group(gs, name) {
        let i = group_index(gs, name);
        gs.update(i, GroupView { name, tids: gs[i].tids.push(tid) })
    } else {
        gs.push(GroupView { name, tids: seq![tid] })
    }
}

/// `v` with task `t` stored under its id and listed by its group.
pub open spec fn add_task(v: ModelView, t: TaskView) -> ModelView {
    ModelView { tasks: v.tasks.insert(t.tid, t), groups: append_to_group(v.groups, t.group, t.tid) }
}

/// `tid` is the smallest id that no task holds.
pub open spec fn is_fresh_tid(v: ModelView, tid: TID) -> bool {
    &&& !v.tasks.contains_key(tid)
    &&& forall|j: TID| j < tid ==> #[trigger] v.tasks.contains_key(j)
}

/// The model after creating task `t`: stored, appended to its group, and the
/// groups put in order.
pub open spec fn created(v: ModelView, t: TaskView) -> ModelView {
    sort_all(add_task(v, t))
}

/// `gs` with `tid` taken out of the group at `i`, and that group dropped
/// where it is left empty.
pub open spec fn remove_from_group(gs: Seq<GroupView>, i: int, tid: TID) -> Seq<GroupView> {
    let ts = gs[i].tids.remove(gs[i].tids.index_of(tid));
    if ts.len() == 0 {
        gs.remove(i)
    } else {
        gs.update(i, GroupView { name: gs[i].name, tids: ts })
    }
}

/// `v` without task `tid`: gone from the tasks and from its group, which is
/// dropped where it is left empty. A missing id changes nothing.
pub open spec fn remove_task(v: ModelView, tid: TID) -> ModelView {
    if !v.tasks.contains_key(tid) {
        v
    } else {
        ModelView {
            tasks: v.tasks.remove(tid),
            groups: remove_from_group(v.groups, group_index(v.groups, v.tasks[tid].group), tid),
        }
    }
}

/// Task `tid` moved to the group named `dest`: nothing changes where it is
/// there already; else it leaves its group (dropped where left empty), is
/// appended to `dest` (created where missing), and records `dest`.
pub open spec fn relocate(v: ModelView, tid: TID, dest: Seq<char>) -> ModelView {
    let t = v.tasks[tid];
    if t.group == dest {
        v
    } else {
        add_task(remove_task(v, tid), TaskView { group: dest, ..t })
    }
}

/// The tasks of `ids` removed one after another.
pub open spec fn remove_all(v: ModelView, ids: Seq<TID>) -> ModelView
    decreases ids.len(),
{
    if ids.len() == 0 {
        v
    } else {
        remove_task(remove_all(v, ids.drop_last()), ids.last())
    }
}

/// Task `tid` with a new priority and a new name where they are given.
pub open spec fn edited(v: ModelView, tid: TID, prio: Option<Prio>, name: Option<Seq<char>>) -> ModelView {
    let t = v.tasks[tid];
    let p = match prio {
        Some(p) => p,
        None => t.prio,
    };
    let n = match name {
        Some(n) => n,
        None => t.name,
    };
    ModelView { tasks: v.tasks.insert(tid, TaskView { prio: p, name: n, ..t }), groups: v.groups }
}

/// The model after an update of task `tid`: edited, moved where a group is
/// given, and the groups put in order (only the task's own group can be out
/// of order before).
pub open spec fn updated(
    v: ModelView,
    tid: TID,
    group: Option<Seq<char>>,
    prio: Option<Prio>,
    name: Option<Seq<char>>,
) -> ModelView {
    let e = edited(v, tid, prio, name);
    sort_all(
        match group {
            Some(g) => relocate(e, tid, g),
            None => e,
        },
    )
}

/// Every task of `ids` given priority `p`.
pub open spec fn with_prio_all(v: ModelView, ids: Seq<TID>, p: Prio) -> ModelView
    decreases ids.len(),
{
    if ids.len() == 0 {
        v
    } else {
        edited(with_prio_all(v, ids.drop_last(), p), ids.last(), Some(p), None)
    }
}

/// Every task of `ids` moved to `dest`, one after another.
pub open spec fn relocate_all(v: ModelView, ids: Seq<TID>, dest: Seq<char>) -> ModelView
    decreases ids.len(),
{
    if ids.len() == 0 {
        v
    } else {
        relocate(relocate_all(v, ids.drop_last(), dest), ids.last(), dest)
    }
}

/// The model after moving the tasks of `ids`: the priority set first, where
/// given, then each moved to the group, where given, then all groups put in
/// order.
pub open spec fn moved(v: ModelView, ids: Seq<TID>, group: Option<Seq<char>>, prio: Option<Prio>) -> ModelView {
    let a = match prio {
        Some(p) => with_prio_all(v, ids, p),
        None => v,
    };
    sort_all(
        match group {
            Some(g) => relocate_all(a, ids, g),
            None => a,
        },
    )
}

/// The model without the group at `i` and without its tasks.
pub open spec fn group_deleted(v: ModelView, i: int) -> ModelView {
    ModelView { tasks: v.tasks.remove_keys(v.groups[i].tids.to_set()), groups: v.groups.remove(i) }
}

/// Every id of `ids` is a task of `v`.
pub open spec fn all_known(v: ModelView, ids: Seq<TID>) -> bool {
    forall|k: int| 0 <= k < ids.len() ==> v.tasks.contains_key(#[trigger] ids[k])
}

/// `ids[k]` is the first id of `ids` that is no task of `v`.
pub open spec fn first_unknown(v: ModelView, ids: Seq<TID>, k: int) -> bool {
    &&& 0 <= k < ids.len()
    &&& !v.tasks.contains_key(ids[k])
    &&& forall|j: int| 0 <= j < k ==> v.tasks.contains_key(#[trigger] ids[j])
}

/// `e` reports the task id written `s` as invalid.
pub open spec fn is_invalid_tid(e: Error, s: Seq<char>) -> bool {
    match e {
        Error::InvalidTID(t) => t@ == s,
        _ => false,
    }
}

/// `e` reports the group named `s` as unknown.
pub open spec fn is_invalid_group(e: Error, s: Seq<char>) -> bool {
    match e {
        Error::InvalidGroup(g) => g@ == s,
        _ => false,
    }
}

/// What completing the tasks of `ids` in `v` gives: `f` with all of them
/// removed, or, where one is unknown, the first such reported and `v` left.
pub open spec fn completes(v: ModelView, ids: Seq<TID>, r: Result<(), Error>, f: ModelView) -> bool {
    match r {
        Ok(()) => all_known(v, ids) && f == remove_all(v, ids),
        Err(e) => exists|k: int|
            first_unknown(v, ids, k) && is_invalid_tid(e, decimal(ids[k] as nat)) && f == v,
    }
}

/// What deleting the group named `name` gives: the group and its tasks gone,
/// or, where no group has that name, that reported and `v` left.
pub open spec fn deletes_group(v: ModelView, name: Seq<char>, r: Result<(), Error>, f: ModelView) -> bool {
    match r {
        Ok(()) => has_group(v.groups, name) && f == group_deleted(v, group_index(v.groups, name)),
        Err(e) => !has_group(v.groups, name) && is_invalid_group(e, name) && f == v,
    }
}

/// What updating task `tid` gives: as `updated` says, or, where it is
/// unknown, that reported and `v` left.
pub open spec fn updates(
    v: ModelView,
    tid: TID,
    group: Option<Seq<char>>,
    prio: Option<Prio>,
    name: Option<Seq<char>>,
    r: Result<(), Error>,
    f: ModelView,
) -> bool {
    match r {
        Ok(()) => v.tasks.contains_key(tid) && f == updated(v, tid, group, prio, name),
        Err(e) => !v.tasks.contains_key(tid) && is_invalid_tid(e, decimal(tid as nat)) && f == v,
    }
}

/// What moving the tasks of `ids` gives: as `moved` says, or, where one is
/// unknown, the first such reported and `v` left.
pub open spec fn moves(
    v: ModelView,
    ids: Seq<TID>,
    group: Option<Seq<char>>,
    prio: Option<Prio>,
    r: Result<(), Error>,
    f: ModelView,
) -> bool {
    match r {
        Ok(()) => all_known(v, ids) && f == moved(v, ids, group, prio),
        Err(e) => exists|k: int|
            first_unknown(v, ids, k) && is_invalid_tid(e, decimal(ids[k] as nat)) && f == v,
    }
}

/// What listing gives: the listing of `v` under the filter, or, where the
/// named group is unknown, that reported.
pub open spec fn lists(v: ModelView, group: Option<Seq<char>>, prio: Option<Prio>, r: Result<PrintModel, Error>) -> bool {
    match r {
        Ok(pm) => (group is None || has_group(v.groups, group->0)) && pm@ == listing(v, group, prio)
            && pm.prio == prio,
        Err(e) => group is Some && !has_group(v.groups, group->0) && is_invalid_group(e, group->0),
    }
}

/// Where the ids below `n` are all taken, at least `n` ids are.
proof fn lemma_taken_prefix(dom: Set<TID>, n: TID)
    requires
        dom.finite(),
        forall|j: TID| j < n ==> #[trigger] dom.contains(j),
    ensures
        dom.len() >= n,
    decreases n,
{
    if n > 0 {
        let d = dom.remove((n - 1) as TID);
        assert forall|j: TID| j < (n - 1) as TID implies #[trigger] d.contains(j) by {
            assert(dom.contains(j));
        }
        lemma_taken_prefix(d, (n - 1) as TID);
    }
}

/// Sorting every group restores the order and keeps the links.
pub proof fn lemma_sort_all_wf(v: ModelView)
    requires
        wf_links(v),
    ensures
        wf(sort_all(v)),
{
    broadcast use vstd::seq_lib::group_seq_properties;

    let s = sort_all(v);
    assert forall|i: int| 0 <= i < s.groups.len() implies #[trigger] s.groups[i].tids.len() > 0
        && s.groups[i].tids.no_duplicates() && sorted_by_key(
        s.tasks,
        s.groups[i].tids,
    ) by {
        lemma_sort_group(v, i);
    }
    assert forall|i: int, k: int|
        0 <= i < s.groups.len() && 0 <= k < s.groups[i].tids.len() implies {
        let t = #[trigger] s.groups[i].tids[k];
        s.tasks.contains_key(t) && s.tasks[t].group == s.groups[i].name
    } by {
        let t = s.groups[i].tids[k];
        lemma_sort_group(v, i);
        assert(s.groups[i].tids.contains(t));
        assert(v.groups[i].tids.contains(t));
        let k2 = choose|k2: int| 0 <= k2 < v.groups[i].tids.len() && v.groups[i].tids[k2] == t;
        assert(v.groups[i].tids[k2] == t);
    }
    assert forall|t: TID| #[trigger] s.tasks.contains_key(t) implies listed(s.groups, t) by {
        assert(listed(v.groups, t));
        let i = choose|i: int| 0 <= i < v.groups.len() && #[trigger] v.groups[i].tids.contains(t);
        lemma_sort_group(v, i);
        assert(s.groups[i].tids.contains(t));
    }
    assert(names_unique(s.groups)) by {
        assert forall|i: int, j: int|
            0 <= i < s.groups.len() && 0 <= j < s.groups.len() && i != j implies #[trigger] s.groups[i].name
            != #[trigger] s.groups[j].name by {
            assert(v.groups[i].name != v.groups[j].name);
        }
    }
}

/// One group after sorting: not empty, without repeats, in order, and with
/// the same ids as before.
proof fn lemma_sort_group(v: ModelView, i: int)
    requires
        wf_links(v),
        0 <= i < v.groups.len(),
    ensures
        sort_all(v).groups[i].tids.len() > 0,
        sort_all(v).groups[i].tids.no_duplicates(),
        sorted_by_key(v.tasks, sort_all(v).groups[i].tids),
        forall|t: TID| #[trigger]
            sort_all(v).groups[i].tids.contains(t) <==> v.groups[i].tids.contains(t),
{
    broadcast use vstd::seq_lib::group_seq_properties;

    let o = v.groups[i].tids;
    let n = sort_all(v).groups[i].tids;
    lemma_sort_tids(v.tasks, o);
    o.lemma_multiset_has_no_duplicates();
    n.lemma_multiset_has_no_duplicates_conv();
    assert forall|t: TID| n.contains(t) <==> o.contains(t) by {
        assert(n.contains(t) <==> n.to_multiset().count(t) > 0);
        assert(o.contains(t) <==> o.to_multiset().count(t) > 0);
    }
}

/// The group of a task is the one that lists it.
proof fn lemma_owner(v: ModelView, tid: TID) -> (i: int)
    requires
        wf_links(v),
        v.tasks.contains_key(tid),
    ensures
        has_group(v.groups, v.tasks[tid].group),
        i == group_index(v.groups, v.tasks[tid].group),
        0 <= i < v.groups.len(),
        v.groups[i].name == v.tasks[tid].group,
        v.groups[i].tids.contains(tid),
{
    assert(listed(v.groups, tid));
    let j = choose|j: int| 0 <= j < v.groups.len() && #[trigger] v.groups[j].tids.contains(tid);
    let k = choose|k: int| 0 <= k < v.groups[j].tids.len() && v.groups[j].tids[k] == tid;
    assert(v.groups[j].tids[k] == tid);
    assert(v.groups[j].name == v.tasks[tid].group);
    let i = group_index(v.groups, v.tasks[tid].group);
    assert(v.groups[i].name == v.tasks[tid].group);
    assert(i == j);
    i
}

/// The place of the group at `j` once the group at `gi` is gone, where it is.
spec fn shifted(j: int, gi: int, gone: bool) -> int {
    if gone && j > gi {
        j - 1
    } else {
        j
    }
}

/// Removing a task keeps the links, and the order of every group.
pub proof fn lemma_remove_task(v: ModelView, tid: TID)
    requires
        wf_links(v),
    ensures
        wf_links(remove_task(v, tid)),
        groups_sorted(v) ==> groups_sorted(remove_task(v, tid)),
        remove_task(v, tid).tasks.dom() == v.tasks.dom().remove(tid),
{
    if !v.tasks.contains_key(tid) {
        assert(v.tasks.dom() =~= v.tasks.dom().remove(tid));
        return;
    }
    let r = remove_task(v, tid);
    let gi = lemma_owner(v, tid);
    let o = v.groups[gi].tids;
    let k = o.index_of(tid);
    let ts = o.remove(k);
    assert(o[k] == tid);
    assert(r.tasks.dom() =~= v.tasks.dom().remove(tid));
    // the ids that stay in the group are the others, each once
    assert forall|a: int| 0 <= a < ts.len() implies #[trigger] ts[a] != tid && (a < k ==> ts[a]
        == o[a]) && (a >= k ==> ts[a] == o[a + 1]) by {}
    assert(ts.no_duplicates());
    // no other group lists the task
    assert forall|j: int, b: int|
        0 <= j < v.groups.len() && j != gi && 0 <= b < v.groups[j].tids.len() implies #[trigger] v.groups[j].tids[b]
        != tid by {
        assert(v.groups[j].name != v.groups[gi].name);
    }
    // the position of each group after the removal
    let gone = ts.len() == 0;
    assert forall|j: int| 0 <= j < v.groups.len() && !(ts.len() == 0 && j == gi) implies {
        let q = #[trigger] shifted(j, gi, gone);
        &&& 0 <= q < r.groups.len()
        &&& r.groups[q].name == v.groups[j].name
        &&& (j != gi ==> r.groups[q].tids == v.groups[j].tids)
        &&& (j == gi ==> r.groups[q].tids == ts)
    } by {}
    assert forall|q: int| #![trigger r.groups[q]] 0 <= q < r.groups.len() implies exists|j: int|
        0 <= j < v.groups.len() && !(ts.len() == 0 && j == gi) && #[trigger] shifted(j, gi, gone) == q by {
        if ts.len() == 0 && q >= gi {
            assert(shifted(q + 1, gi, gone) == q);
        } else {
            assert(shifted(q, gi, gone) == q);
        }
    }
    assert forall|q: int| 0 <= q < r.groups.len() implies #[trigger] r.groups[q].tids.len() > 0
        && r.groups[q].tids.no_duplicates() && (groups_sorted(v) ==> sorted_by_key(
        r.tasks,
        r.groups[q].tids,
    )) && forall|b: int|
        0 <= b < r.groups[q].tids.len() ==> {
            let u = #[trigger] r.groups[q].tids[b];
            r.tasks.contains_key(u) && r.tasks[u].group == r.groups[q].name
        } by {
        let j = choose|j: int|
            0 <= j < v.groups.len() && !(ts.len() == 0 && j == gi) && #[trigger] shifted(j, gi, gone) == q;
        if j != gi {
            assert forall|b: int| 0 <= b < r.groups[q].tids.len() implies {
                let u = #[trigger] r.groups[q].tids[b];
                r.tasks.contains_key(u) && r.tasks[u].group == r.groups[q].name
            } by {
                assert(v.groups[j].tids[b] == r.groups[q].tids[b]);
            }
            if groups_sorted(v) {
                assert(sorted_by_key(v.tasks, v.groups[j].tids));
                assert forall|a: int, b: int| 0 <= a < b < r.groups[q].tids.len() implies sorted_by_key_at(r.tasks, r.groups[q].tids, a, b) by {
                    assert(v.groups[j].tids[a] != tid && v.groups[j].tids[b] != tid);
                    assert(sorted_by_key_at(v.tasks, v.groups[j].tids, a, b));
                }
            }
        } else {
            assert forall|b: int| 0 <= b < ts.len() implies {
                let u = #[trigger] ts[b];
                r.tasks.contains_key(u) && r.tasks[u].group == r.groups[q].name
            } by {
                if b < k {
                    assert(o[b] == v.groups[gi].tids[b]);
                } else {
                    assert(o[b + 1] == v.groups[gi].tids[b + 1]);
                }
            }
            if groups_sorted(v) {
                assert(sorted_by_key(v.tasks, o));
                assert forall|a: int, b: int| 0 <= a < b < ts.len() implies sorted_by_key_at(r.tasks, ts, a, b) by {
                    let a2 = if a < k { a } else { a + 1 };
                    let b2 = if b < k { b } else { b + 1 };
                    assert(sorted_by_key_at(v.tasks, o, a2, b2));
                }
            }
        }
    }
    assert forall|u: TID| #[trigger] r.tasks.contains_key(u) implies listed(r.groups, u) by {
        assert(listed(v.groups, u));
        let j = choose|j: int| 0 <= j < v.groups.len() && #[trigger] v.groups[j].tids.contains(u);
        let b = choose|b: int| 0 <= b < v.groups[j].tids.len() && v.groups[j].tids[b] == u;
        if j == gi {
            assert(u != tid);
            let b2 = if b < k { b } else { b - 1 };
            assert(ts[b2] == u);
            assert(ts.len() > 0);
            assert(r.groups[shifted(j, gi, gone)].tids.contains(u));
        } else {
            assert(r.groups[shifted(j, gi, gone)].tids[b] == u);
            assert(r.groups[shifted(j, gi, gone)].tids.contains(u));
        }
    }
    assert(names_unique(r.groups)) by {
        assert forall|p: int, q: int|
            0 <= p < r.groups.len() && 0 <= q < r.groups.len() && p != q implies #[trigger] r.groups[p].name
            != #[trigger] r.groups[q].name by {
            let jp = if gone && p >= gi { p + 1 } else { p };
            let jq = if gone && q >= gi { q + 1 } else { q };
            assert(shifted(jp, gi, gone) == p && shifted(jq, gi, gone) == q);
            assert(v.groups[jp].name != v.groups[jq].name);
        }
    }
}

/// Adding a task under an id that is not taken keeps the links.
pub proof fn lemma_add_task_links(v: ModelView, t: TaskView)
    requires
        wf_links(v),
        !v.tasks.contains_key(t.tid),
    ensures
        wf_links(add_task(v, t)),
{
    let a = add_task(v, t);
    let x = t.tid;
    if has_group(v.groups, t.group) {
        let i = group_index(v.groups, t.group);
        assert(v.groups[i].name == t.group);
        let o = v.groups[i].tids;
        assert(!o.contains(x)) by {
            if o.contains(x) {
                let k = choose|k: int| 0 <= k < o.len() && o[k] == x;
                assert(v.groups[i].tids[k] == x);
            }
        }
        assert(a.groups[i].tids == o.push(x));
        assert forall|j: int| 0 <= j < a.groups.len() implies #[trigger] a.groups[j].tids.len() > 0
            && a.groups[j].tids.no_duplicates() by {
            if j == i {
                assert forall|p: int, q: int|
                    0 <= p < a.groups[j].tids.len() && 0 <= q < a.groups[j].tids.len() && p
                        != q implies a.groups[j].tids[p] != a.groups[j].tids[q] by {
                    if p < o.len() && q < o.len() {
                    } else if p < o.len() {
                        assert(o.contains(o[p]));
                    } else if q < o.len() {
                        assert(o.contains(o[q]));
                    }
                }
            }
        }
        assert forall|j: int, k: int|
            0 <= j < a.groups.len() && 0 <= k < a.groups[j].tids.len() implies {
            let u = #[trigger] a.groups[j].tids[k];
            a.tasks.contains_key(u) && a.tasks[u].group == a.groups[j].name
        } by {
            if j == i && k < o.len() {
                assert(v.groups[i].tids[k] == o[k]);
            } else if j != i {
                assert(v.groups[j].tids[k] == a.groups[j].tids[k]);
            }
        }
        assert forall|u: TID| #[trigger] a.tasks.contains_key(u) implies listed(a.groups, u) by {
            if u == x {
                assert(a.groups[i].tids[o.len() as int] == x);
                assert(a.groups[i].tids.contains(x));
            } else {
                assert(listed(v.groups, u));
                let j = choose|j: int| 0 <= j < v.groups.len() && #[trigger] v.groups[j].tids.contains(u);
                let k = choose|k: int| 0 <= k < v.groups[j].tids.len() && v.groups[j].tids[k] == u;
                assert(a.groups[j].tids[k] == u);
                assert(a.groups[j].tids.contains(u));
            }
        }
    } else {
        let n = v.groups.len() as int;
        assert forall|j: int| 0 <= j < a.groups.len() implies #[trigger] a.groups[j].tids.len() > 0
            && a.groups[j].tids.no_duplicates() by {
            if j < n {
                assert(a.groups[j] == v.groups[j]);
            }
        }
        assert forall|j: int, k: int|
            0 <= j < a.groups.len() && 0 <= k < a.groups[j].tids.len() implies {
            let u = #[trigger] a.groups[j].tids[k];
            a.tasks.contains_key(u) && a.tasks[u].group == a.groups[j].name
        } by {
            if j < n {
                assert(v.groups[j].tids[k] == a.groups[j].tids[k]);
            }
        }
        assert forall|u: TID| #[trigger] a.tasks.contains_key(u) implies listed(a.groups, u) by {
            if u == x {
                assert(a.groups[n].tids[0] == x);
                assert(a.groups[n].tids.contains(x));
            } else {
                assert(listed(v.groups, u));
                let j = choose|j: int| 0 <= j < v.groups.len() && #[trigger] v.groups[j].tids.contains(u);
                assert(a.groups[j] == v.groups[j]);
            }
        }
        assert(names_unique(a.groups)) by {
            assert forall|p: int, q: int|
                0 <= p < a.groups.len() && 0 <= q < a.groups.len() && p != q implies #[trigger] a.groups[p].name
                != #[trigger] a.groups[q].name by {
                if p < n && q < n {
                    assert(v.groups[p].name != v.groups[q].name);
                } else if p < n {
                    assert(v.groups[p].name != t.group);
                } else {
                    assert(v.groups[q].name != t.group);
                }
            }
        }
    }
}

/// A task's name and priority may change: the links stay.
pub proof fn lemma_edited(v: ModelView, tid: TID, prio: Option<Prio>, name: Option<Seq<char>>)
    requires
        wf_links(v),
        v.tasks.contains_key(tid),
    ensures
        wf_links(edited(v, tid, prio, name)),
        edited(v, tid, prio, name).tasks.dom() == v.tasks.dom(),
{
    let e = edited(v, tid, prio, name);
    assert(e.tasks.dom() =~= v.tasks.dom());
    assert forall|i: int, k: int| 0 <= i < e.groups.len() && 0 <= k < e.groups[i].tids.len() implies {
        let t = #[trigger] e.groups[i].tids[k];
        e.tasks.contains_key(t) && e.tasks[t].group == e.groups[i].name
    } by {
        assert(v.groups[i].tids[k] == e.groups[i].tids[k]);
    }
}

/// Moving a task keeps the links and the set of tasks.
pub proof fn lemma_relocate(v: ModelView, tid: TID, dest: Seq<char>)
    requires
        wf_links(v),
        v.tasks.contains_key(tid),
    ensures
        wf_links(relocate(v, tid, dest)),
        relocate(v, tid, dest).tasks.dom() == v.tasks.dom(),
{
    let t = v.tasks[tid];
    if t.group != dest {
        lemma_remove_task(v, tid);
        let r = remove_task(v, tid);
        lemma_add_task_links(r, TaskView { group: dest, ..t });
        assert(relocate(v, tid, dest).tasks.dom() =~= v.tasks.dom());
    }
}

/// Setting the priority of known tasks keeps the links and the set of tasks.
pub proof fn lemma_with_prio_all(v: ModelView, ids: Seq<TID>, p: Prio)
    requires
        wf_links(v),
        all_known(v, ids),
    ensures
        wf_links(with_prio_all(v, ids, p)),
        with_prio_all(v, ids, p).tasks.dom() == v.tasks.dom(),
    decreases ids.len(),
{
    if ids.len() > 0 {
        let d = ids.drop_last();
        assert(all_known(v, d)) by {
            assert forall|k: int| 0 <= k < d.len() implies v.tasks.contains_key(#[trigger] d[k]) by {
                assert(d[k] == ids[k]);
            }
        }
        lemma_with_prio_all(v, d, p);
        assert(v.tasks.contains_key(ids[ids.len() - 1]));
        lemma_edited(with_prio_all(v, d, p), ids.last(), Some(p), None);
    }
}

/// Moving known tasks keeps the links and the set of tasks.
pub proof fn lemma_relocate_all(v: ModelView, ids: Seq<TID>, dest: Seq<char>)
    requires
        wf_links(v),
        all_known(v, ids),
    ensures
        wf_links(relocate_all(v, ids, dest)),
        relocate_all(v, ids, dest).tasks.dom() == v.tasks.dom(),
    decreases ids.len(),
{
    if ids.len() > 0 {
        let d = ids.drop_last();
        assert(all_known(v, d)) by {
            assert forall|k: int| 0 <= k < d.len() implies v.tasks.contains_key(#[trigger] d[k]) by {
                assert(d[k] == ids[k]);
            }
        }
        lemma_relocate_all(v, d, dest);
        assert(v.tasks.contains_key(ids[ids.len() - 1]));
        lemma_relocate(relocate_all(v, d, dest), ids.last(), dest);
    }
}

/// Deleting a group with its tasks keeps the invariant.
pub proof fn lemma_group_deleted(v: ModelView, i: int)
    requires
        wf(v),
        0 <= i < v.groups.len(),
    ensures
        wf(group_deleted(v, i)),
{
    let r = group_deleted(v, i);
    let gone = v.groups[i].tids.to_set();
    // a task listed by another group is not one of the deleted
    assert forall|j: int, b: int| 0 <= j < v.groups.len() && j != i && 0 <= b < v.groups[j].tids.len() implies !gone.contains(#[trigger] v.groups[j].tids[b]) by {
        let u = v.groups[j].tids[b];
        if gone.contains(u) {
            let c = choose|c: int| 0 <= c < v.groups[i].tids.len() && v.groups[i].tids[c] == u;
            assert(v.groups[i].tids[c] == u);
            assert(v.groups[j].name != v.groups[i].name);
        }
    }
    assert forall|q: int| 0 <= q < r.groups.len() implies #[trigger] r.groups[q] == v.groups[if q < i { q } else { q + 1 }] by {}
    assert forall|q: int, b: int| 0 <= q < r.groups.len() && 0 <= b < r.groups[q].tids.len() implies {
        let u = #[trigger] r.groups[q].tids[b];
        r.tasks.contains_key(u) && r.tasks[u].group == r.groups[q].name
    } by {
        let j = if q < i { q } else { q + 1 };
        assert(r.groups[q] == v.groups[j]);
        assert(v.groups[j].tids[b] == r.groups[q].tids[b]);
    }
    assert forall|q: int| 0 <= q < r.groups.len() implies #[trigger] r.groups[q].tids.len() > 0 && r.groups[q].tids.no_duplicates() && sorted_by_key(r.tasks, r.groups[q].tids) by {
        let j = if q < i { q } else { q + 1 };
        assert(r.groups[q] == v.groups[j]);
        assert(sorted_by_key(v.tasks, v.groups[j].tids));
        assert forall|a: int, b: int| 0 <= a < b < r.groups[q].tids.len() implies #[trigger] sorted_by_key_at(r.tasks, r.groups[q].tids, a, b) by {
            assert(sorted_by_key_at(v.tasks, v.groups[j].tids, a, b));
            assert(!gone.contains(v.groups[j].tids[a]));
            assert(!gone.contains(v.groups[j].tids[b]));
        }
    }
    assert forall|u: TID| #[trigger] r.tasks.contains_key(u) implies listed(r.groups, u) by {
        assert(listed(v.groups, u));
        let j = choose|j: int| 0 <= j < v.groups.len() && #[trigger] v.groups[j].tids.contains(u);
        assert(j != i);
        let q = if j < i { j } else { j - 1 };
        assert(r.groups[q] == v.groups[j]);
    }
    assert(names_unique(r.groups)) by {
        assert forall|p: int, q: int| 0 <= p < r.groups.len() && 0 <= q < r.groups.len() && p != q implies #[trigger] r.groups[p].name != #[trigger] r.groups[q].name by {
            let jp = if p < i { p } else { p + 1 };
            let jq = if q < i { q } else { q + 1 };
            assert(r.groups[p] == v.groups[jp] && r.groups[q] == v.groups[jq]);
            assert(v.groups[jp].name != v.groups[jq].name);
        }
    }
}

/// Removing the tasks of `ids` one by one keeps the invariant.
pub proof fn lemma_remove_all(v: ModelView, ids: Seq<TID>)
    requires
        wf(v),
    ensures
        wf(remove_all(v, ids)),
    decreases ids.len(),
{
    if ids.len() > 0 {
        lemma_remove_all(v, ids.drop_last());
        lemma_remove_task(remove_all(v, ids.drop_last()), ids.last());
    }
}

impl Model {
    /// The position of the group named `name`, if there is one.
    pub fn find_group(&self, name: &String) -> (r: Option<usize>)
        requires
            names_unique(self@.groups),
        ensures
            match r {
                Some(i) => has_group(self@.groups, name@) && i as int == group_index(
                    self@.groups,
                    name@,
                ) && i < self.groups.len(),
                None => !has_group(self@.groups, name@),
            },
    {
        let ghost gs = self@.groups;
        let mut i: usize = 0;
        while i < self.groups.len()
            invariant
                0 <= i <= self.groups.len(),
                gs == self@.groups,
                names_unique(gs),
                forall|j: int| 0 <= j < i ==> #[trigger] gs[j].name != name@,
            decreases self.groups.len() - i,
        {
            if self.groups[i].name == *name {
                assert(gs[i as int].name == name@);
                let ghost c = group_index(gs, name@);
                assert(gs[c].name == name@);
                assert(c == i);
                return Some(i);
            }
            i = i + 1;
        }
        None
    }

    /// Stores `t` and appends its id to its group, created where missing.
    pub fn add_task(&mut self, t: Task)
        requires
            names_unique(old(self)@.groups),
        ensures
            final(self)@ == add_task(old(self)@, t@),
    {
        let ghost v = self@;
        let tid = t.tid;
        let name = t.group.clone();
        self.tasks.insert(tid, t);
        assert(self@.tasks =~= v.tasks.insert(tid, t@));
        match self.find_group(&name) {
            Some(i) => {
                let mut g = self.groups.remove(i);
                g.tids.push(tid);
                self.groups.insert(i, g);
                assert(self@.groups =~= append_to_group(v.groups, name@, tid));
            },
            None => {
                let mut tids: Vec<TID> = Vec::new();
                tids.push(tid);
                self.groups.push(Group { name, tids });
                assert(self@.groups =~= append_to_group(v.groups, name@, tid));
            },
        }
    }

    /// Takes task `tid` out: from the tasks and from its group, which is
    /// dropped where it is left empty.
    pub fn take_task(&mut self, tid: TID) -> (t: Task)
        requires
            wf_links(old(self)@),
            old(self)@.tasks.contains_key(tid),
        ensures
            final(self)@ == remove_task(old(self)@, tid),
            t@ == old(self)@.tasks[tid],
    {
        let ghost v = self@;
        let ghost gi = lemma_owner(v, tid);
        let t = self.tasks.remove(&tid).unwrap();
        assert(self@.tasks =~= v.tasks.remove(tid));
        let gi = self.find_group(&t.group).unwrap();
        let mut g = self.groups.remove(gi);
        let ghost o = g.tids@;
        assert(o == v.groups[gi as int].tids);
        let mut k: usize = 0;
        while k < g.tids.len()
            invariant
                0 <= k <= g.tids.len(),
                g.tids@ == o,
                o.contains(tid),
                forall|j: int| 0 <= j < k ==> #[trigger] o[j] != tid,
            ensures
                0 <= k <= g.tids.len(),
                g.tids@ == o,
                forall|j: int| 0 <= j < k ==> #[trigger] o[j] != tid,
                k < g.tids.len() ==> o[k as int] == tid,
            decreases g.tids.len() - k,
        {
            if g.tids[k] == tid {
                break;
            }
            k = k + 1;
        }
        assert(k < g.tids.len() && o[k as int] == tid) by {
            if k == g.tids.len() {
                let c = choose|c: int| 0 <= c < o.len() && o[c] == tid;
                assert(o[c] == tid);
            }
        }
        assert(k as int == o.index_of(tid)) by {
            let c = o.index_of(tid);
            assert(o.contains(tid));
            assert(o[c] == tid);
            assert(o.no_duplicates());
        }
        g.tids.remove(k);
        if g.tids.len() > 0 {
            self.groups.insert(gi, g);
        }
        assert(self@.groups =~= remove_from_group(v.groups, gi as int, tid));
        t
    }

    /// Moves task `tid` to the group named `dest`, as `relocate` says. The
    /// groups are left for the caller to put in order.
    pub fn move_task(&mut self, tid: TID, dest: &String)
        requires
            wf_links(old(self)@),
            old(self)@.tasks.contains_key(tid),
        ensures
            final(self)@ == relocate(old(self)@, tid, dest@),
    {
        let ghost v = self@;
        let same = {
            let t = self.tasks.get(&tid).unwrap();
            t.group == *dest
        };
        if same {
            return;
        }
        proof {
            lemma_remove_task(v, tid);
        }
        let mut t = self.take_task(tid);
        t.group = dest.clone();
        self.add_task(t);
    }

    /// The position of the first id of `ids` that is no task, if any.
    fn first_unknown_tid(&self, ids: &Vec<TID>) -> (r: Option<usize>)
        ensures
            match r {
                Some(k) => first_unknown(self@, ids@, k as int),
                None => all_known(self@, ids@),
            },
    {
        let mut k: usize = 0;
        while k < ids.len()
            invariant
                0 <= k <= ids.len(),
                forall|j: int| 0 <= j < k ==> self@.tasks.contains_key(#[trigger] ids@[j]),
            decreases ids.len() - k,
        {
            if !self.tasks.contains_key(&ids[k]) {
                return Some(k);
            }
            k = k + 1;
        }
        None
    }

    /// Creates a task from `cmd`, dated `date`, under the smallest free id,
    /// which it returns.
    pub fn create_task(&mut self, cmd: NewCommand, date: Timestamp) -> (r: TID)
        requires
            wf(old(self)@),
            old(self)@.tasks.len() < TID::MAX,
        ensures
            is_fresh_tid(old(self)@, r),
            final(self)@ == created(
                old(self)@,
                TaskView { tid: r, name: cmd.task@, prio: cmd.prio, date, group: cmd.group@ },
            ),
            wf(final(self)@),
    {
        let ghost v = self@;
        assert(self.tasks@.dom() =~= v.tasks.dom());
        let tid = self.find_new_tid();
        let t = Task { tid, name: cmd.task, prio: cmd.prio, date, group: cmd.group };
        proof {
            lemma_add_task_links(v, t@);
        }
        self.add_task(t);
        proof {
            lemma_sort_all_wf(self@);
        }
        self.sort_groups();
        tid
    }

    /// Completes the tasks of `tids`: all are removed, or, where one is
    /// unknown, none is and the first unknown id is reported.
    pub fn complete(&mut self, tids: &Vec<TID>) -> (r: Result<(), Error>)
        requires
            wf(old(self)@),
        ensures
            wf(final(self)@),
            completes(old(self)@, tids@, r, final(self)@),
    {
        let ghost v = self@;
        if let Some(k) = self.first_unknown_tid(tids) {
            return Err(Error::InvalidTID(decimal_text(tids[k])));
        }
        let mut i: usize = 0;
        assert(tids@.subrange(0, 0) =~= Seq::<TID>::empty());
        while i < tids.len()
            invariant
                0 <= i <= tids.len(),
                wf(v),
                self@ == remove_all(v, tids@.subrange(0, i as int)),
            decreases tids.len() - i,
        {
            proof {
                lemma_remove_all(v, tids@.subrange(0, i as int));
                assert(tids@.subrange(0, i + 1).drop_last() =~= tids@.subrange(0, i as int));
            }
            let tid = tids[i];
            if self.tasks.contains_key(&tid) {
                self.take_task(tid);
            }
            i = i + 1;
        }
        assert(tids@.subrange(0, tids.len() as int) =~= tids@);
        proof {
            lemma_remove_all(v, tids@);
        }
        Ok(())
    }

    /// Deletes the group named `name` and all its tasks.
    pub fn delete_group(&mut self, name: &String) -> (r: Result<(), Error>)
        requires
            wf(old(self)@),
        ensures
            wf(final(self)@),
            deletes_group(old(self)@, name@, r, final(self)@),
    {
        let ghost v = self@;
        let i = match self.find_group(name) {
            Some(i) => i,
            None => {
                return Err(Error::InvalidGroup(name.clone()));
            },
        };
        let g = self.groups.remove(i);
        let ghost rest = self.groups@;
        let mut k: usize = 0;
        assert(g.tids@.subrange(0, 0).to_set() =~= Set::<TID>::empty());
        assert(self.tasks@ =~= self.tasks@.remove_keys(Set::<TID>::empty()));
        while k < g.tids.len()
            invariant
                0 <= k <= g.tids.len(),
                self.tasks@ == old(self).tasks@.remove_keys(g.tids@.subrange(0, k as int).to_set()),
                self.groups@ == rest,
            decreases g.tids.len() - k,
        {
            let tid = g.tids[k];
            self.tasks.remove(&tid);
            assert(g.tids@.subrange(0, k + 1) =~= g.tids@.subrange(0, k as int).push(tid));
            proof {
                g.tids@.subrange(0, k as int).lemma_push_to_set_commute(tid);
            }
            assert(self.tasks@ =~= old(self).tasks@.remove_keys(g.tids@.subrange(0, k + 1).to_set()));
            k = k + 1;
        }
        assert(g.tids@.subrange(0, g.tids.len() as int) =~= g.tids@);
        assert(self@.tasks =~= group_deleted(v, i as int).tasks);
        assert(self@.groups =~= group_deleted(v, i as int).groups);
        proof {
            lemma_group_deleted(v, i as int);
        }
        Ok(())
    }

    /// Gives task `tid` a new priority and a new name, where they are given.
    pub fn edit_task(&mut self, tid: TID, prio: Option<Prio>, name: Option<String>)
        requires
            old(self)@.tasks.contains_key(tid),
        ensures
            final(self)@ == edited(old(self)@, tid, prio, opt_text(name)),
    {
        let ghost v = self@;
        let mut t = self.tasks.remove(&tid).unwrap();
        if let Some(p) = prio {
            t.prio = p;
        }
        if let Some(n) = name {
            t.name = n;
        }
        self.tasks.insert(tid, t);
        assert(self@.tasks =~= edited(v, tid, prio, opt_text(name)).tasks);
    }

    /// Updates the task that `cmd` names, as `updated` says.
    pub fn update(&mut self, cmd: UpdateCommand) -> (r: Result<(), Error>)
        requires
            wf(old(self)@),
        ensures
            wf(final(self)@),
            updates(old(self)@, cmd.tid, opt_text(cmd.group), cmd.prio, opt_text(cmd.task), r, final(self)@),
    {
        let ghost v = self@;
        let UpdateCommand { tid, group, prio, task } = cmd;
        if !self.tasks.contains_key(&tid) {
            return Err(Error::InvalidTID(decimal_text(tid)));
        }
        proof {
            lemma_edited(v, tid, prio, opt_text(task));
        }
        self.edit_task(tid, prio, task);
        if let Some(g) = group {
            proof {
                lemma_relocate(self@, tid, g@);
            }
            self.move_task(tid, &g);
        }
        proof {
            lemma_sort_all_wf(self@);
        }
        self.sort_groups();
        Ok(())
    }

    /// Moves the tasks that `cmd` names, as `moved` says: all of them, or,
    /// where one is unknown, none, and the first unknown id is reported.
    pub fn move_tasks(&mut self, cmd: MoveCommand) -> (r: Result<(), Error>)
        requires
            wf(old(self)@),
        ensures
            wf(final(self)@),
            moves(old(self)@, cmd.tids@, opt_text(cmd.group), cmd.prio, r, final(self)@),
    {
        let ghost v = self@;
        let MoveCommand { group, prio, tids } = cmd;
        if let Some(k) = self.first_unknown_tid(&tids) {
            return Err(Error::InvalidTID(decimal_text(tids[k])));
        }
        assert(tids@.subrange(0, 0) =~= Seq::<TID>::empty());
        if let Some(p) = prio {
            let mut i: usize = 0;
            while i < tids.len()
                invariant
                    0 <= i <= tids.len(),
                    wf_links(v),
                    all_known(v, tids@),
                    self@ == with_prio_all(v, tids@.subrange(0, i as int), p),
                decreases tids.len() - i,
            {
                proof {
                    let d = tids@.subrange(0, i as int);
                    assert(all_known(v, d)) by {
                        assert forall|k: int| 0 <= k < d.len() implies v.tasks.contains_key(#[trigger] d[k]) by {
                            assert(d[k] == tids@[k]);
                        }
                    }
                    lemma_with_prio_all(v, d, p);
                    assert(tids@.subrange(0, i + 1).drop_last() =~= d);
                    assert(v.tasks.contains_key(tids@[i as int]));
                }
                self.edit_task(tids[i], Some(p), None);
                i = i + 1;
            }
            assert(tids@.subrange(0, tids.len() as int) =~= tids@);
            proof {
                lemma_with_prio_all(v, tids@, p);
            }
        }
        let ghost a = self@;
        assert(wf_links(a) && a.tasks.dom() == v.tasks.dom());
        assert(all_known(a, tids@)) by {
            assert forall|k: int| 0 <= k < tids@.len() implies a.tasks.contains_key(#[trigger] tids@[k]) by {
                assert(v.tasks.contains_key(tids@[k]));
            }
        }
        if let Some(g) = &group {
            let mut i: usize = 0;
            while i < tids.len()
                invariant
                    0 <= i <= tids.len(),
                    wf_links(a),
                    all_known(a, tids@),
                    self@ == relocate_all(a, tids@.subrange(0, i as int), g@),
                decreases tids.len() - i,
            {
                proof {
                    let d = tids@.subrange(0, i as int);
                    assert(all_known(a, d)) by {
                        assert forall|k: int| 0 <= k < d.len() implies a.tasks.contains_key(#[trigger] d[k]) by {
                            assert(d[k] == tids@[k]);
                        }
                    }
                    lemma_relocate_all(a, d, g@);
                    assert(tids@.subrange(0, i + 1).drop_last() =~= d);
                    assert(a.tasks.contains_key(tids@[i as int]));
                }
                self.move_task(tids[i], g);
                i = i + 1;
            }
            assert(tids@.subrange(0, tids.len() as int) =~= tids@);
            proof {
                lemma_relocate_all(a, tids@, g@);
            }
        }
        proof {
            lemma_sort_all_wf(self@);
        }
        self.sort_groups();
        Ok(())
    }

    /// The listing that `cmd` asks for: every group, or the one named, under
    /// its priority filter; an unknown group name is reported.
    pub fn list(&self, cmd: &ListCommand) -> (r: Result<PrintModel, Error>)
        requires
            wf(self@),
        ensures
            lists(self@, opt_text(cmd.group), cmd.prio, r),
    {
        match &cmd.group {
            Some(name) => match self.find_group(name) {
                Some(i) => {
                    let g = &self.groups[i];
                    assert(self@.groups[i as int] == g@);
                    assert forall|k: int| 0 <= k < g.tids.len() implies self.tasks@.contains_key(#[trigger] g.tids@[k]) by {
                        assert(self@.groups[i as int].tids[k] == g.tids@[k]);
                    }
                    let mut groups: Vec<PrintGroup> = Vec::new();
                    groups.push(PrintGroup::new(g, self, cmd.prio));
                    let r = PrintModel { groups, prio: cmd.prio };
                    assert(r@ =~= listing(self@, opt_text(cmd.group), cmd.prio));
                    Ok(r)
                },
                None => Err(Error::InvalidGroup(name.clone())),
            },
            None => Ok(PrintModel::new(self, cmd.prio)),
        }
    }

    /// Puts every group in the stable order by key.
    pub fn sort_groups(&mut self)
        requires
            wf_links(old(self)@),
        ensures
            final(self)@ == sort_all(old(self)@),
    {
        let ghost v = self@;
        let mut i: usize = 0;
        while i < self.groups.len()
            invariant
                0 <= i <= self.groups.len(),
                self.groups.len() == v.groups.len(),
                self@.tasks == v.tasks,
                wf_links(v),
                forall|j: int| 0 <= j < i ==> #[trigger] self@.groups[j] == sort_all(v).groups[j],
                forall|j: int| i <= j < self.groups.len() ==> #[trigger] self@.groups[j] == v.groups[j],
            decreases self.groups.len() - i,
        {
            assert(self@.groups[i as int] == v.groups[i as int]);
            assert forall|t: TID| self.groups[i as int].tids@.contains(t) implies self.tasks@.contains_key(t) by {
                let k = choose|k: int| 0 <= k < v.groups[i as int].tids.len() && v.groups[i as int].tids[k] == t;
                assert(v.groups[i as int].tids[k] == t);
            }
            let tids = sort_by_key(&self.tasks, &self.groups[i].tids);
            let name = self.groups[i].name.clone();
            let ghost before = self@.groups;
            self.groups.set(i, Group { name, tids });
            assert(self@.groups == before.update(i as int, sort_all(v).groups[i as int]));
            i = i + 1;
        }
        assert(self@.groups =~= sort_all(v).groups);
    }

    /// The smallest id that no task holds.
    fn find_new_tid(&self) -> (r: TID)
        requires
            self.tasks@.len() < TID::MAX,
        ensures
            is_fresh_tid(self@, r),
    {
        let mut tid: TID = 0;
        while tid < TID::MAX
            invariant
                forall|j: TID| j < tid ==> #[trigger] self.tasks@.contains_key(j),
            decreases TID::MAX - tid,
        {
            if !self.tasks.contains_key(&tid) {
                return tid;
            }
            tid = tid + 1;
        }
        proof {
            lemma_taken_prefix(self.tasks@.dom(), TID::MAX);
        }
        tid
    }
}

} // verus!
