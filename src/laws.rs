//! Properties that relate several commands.
use crate::model::{key_le, sorted_by_key_at, wf, wf_links, ModelView, TaskView, TID};
use crate::store::{add_task, created, is_fresh_tid, remove_all, remove_task, sort_all};
use vstd::prelude::*;

verus! {

/// An id given to a new task is not given again while that task exists: the
/// next free id differs from it and from every id taken before.
pub proof fn lemma_ids_distinct(v: ModelView, t: TaskView, u: TID)
    requires
        is_fresh_tid(v, t.tid),
        is_fresh_tid(created(v, t), u),
    ensures
        u != t.tid,
        !v.tasks.contains_key(u),
{
    assert(created(v, t).tasks == add_task(v, t).tasks);
    assert(sort_all(add_task(v, t)).tasks == v.tasks.insert(t.tid, t));
}

/// Where task `k` is deleted and every id below it is taken, the next task
/// created gets id `k` back.
pub proof fn lemma_id_reused(v: ModelView, k: TID, u: TID)
    requires
        wf_links(v),
        v.tasks.contains_key(k),
        forall|j: TID| j < k ==> #[trigger] v.tasks.contains_key(j),
        is_fresh_tid(remove_all(v, seq![k]), u),
    ensures
        u == k,
{
    let r = remove_all(v, seq![k]);
    assert(seq![k].drop_last() =~= Seq::<TID>::empty());
    assert(remove_all(v, Seq::<TID>::empty()) == v);
    assert(seq![k].last() == k);
    assert(r == remove_task(v, k));
    assert(r.tasks == v.tasks.remove(k));
    if u < k {
        assert(v.tasks.contains_key(u));
        assert(r.tasks.contains_key(u));
    }
    if u > k {
        assert(r.tasks.contains_key(k));
    }
}

/// Within a group, an earlier task's (priority, date) is never greater than
/// a later one's, and a task whose key is strictly smaller stands earlier.
pub proof fn lemma_group_order(v: ModelView, i: int, a: int, b: int)
    requires
        wf(v),
        0 <= i < v.groups.len(),
        0 <= a < v.groups[i].tids.len(),
        0 <= b < v.groups[i].tids.len(),
        a != b,
    ensures
        a < b ==> key_le(v.tasks[v.groups[i].tids[a]], v.tasks[v.groups[i].tids[b]]),
        !key_le(v.tasks[v.groups[i].tids[b]], v.tasks[v.groups[i].tids[a]]) ==> a < b,
{
    let s = v.groups[i].tids;
    if a < b {
        assert(sorted_by_key_at(v.tasks, s, a, b));
    } else {
        assert(sorted_by_key_at(v.tasks, s, b, a));
    }
}

} // verus!
