//! The order of the ids within a group: by priority, then by date, stable.
use crate::model::{key_le, sorted_by_key, sorted_by_key_at, task_le, task_views, Task, TaskView, TID};
use std::collections::HashMap;
use vstd::multiset::Multiset;
use vstd::prelude::*;

verus! {

broadcast use vstd::std_specs::hash::group_hash_axioms;

/// `s` with `x` placed right after the last id whose task's key does not
/// exceed that of `x`'s task, or at the front where there is none.
pub open spec fn insert_sorted(tasks: Map<TID, TaskView>, s: Seq<TID>, x: TID) -> Seq<TID>
    decreases s.len(),
{
    if s.len() == 0 {
        seq![x]
    } else if key_le(tasks[s.last()], tasks[x]) {
        s.push(x)
    } else {
        insert_sorted(tasks, s.drop_last(), x).push(s.last())
    }
}

/// The stable ordering of `s` by key: each id, in the order of `s`, is placed
/// as `insert_sorted` says.
pub open spec fn sort_tids(tasks: Map<TID, TaskView>, s: Seq<TID>) -> Seq<TID>
    decreases s.len(),
{
    if s.len() == 0 {
        Seq::empty()
    } else {
        insert_sorted(tasks, sort_tids(tasks, s.drop_last()), s.last())
    }
}

/// Where the place of `x` has been found by scanning from the back, the
/// insertion is a plain `insert` at that place.
proof fn lemma_insert_at(tasks: Map<TID, TaskView>, s: Seq<TID>, x: TID, p: int)
    requires
        0 <= p <= s.len(),
        p > 0 ==> key_le(tasks[s[p - 1]], tasks[x]),
        forall|k: int| p <= k < s.len() ==> !key_le(#[trigger] tasks[s[k]], tasks[x]),
    ensures
        insert_sorted(tasks, s, x) == s.insert(p, x),
    decreases s.len(),
{
    if s.len() == 0 {
        assert(s.insert(p, x) =~= seq![x]);
    } else if p == s.len() {
        assert(s.insert(p, x) =~= s.push(x));
    } else {
        assert(!key_le(tasks[s[s.len() - 1]], tasks[x]));
        let d = s.drop_last();
        assert forall|k: int| p <= k < d.len() implies !key_le(#[trigger] tasks[d[k]], tasks[x]) by {
            assert(d[k] == s[k]);
        }
        lemma_insert_at(tasks, d, x, p);
        assert(d.insert(p, x).push(s.last()) =~= s.insert(p, x));
    }
}

/// Inserting adds `x` and nothing else.
pub proof fn lemma_insert_sorted_elems(tasks: Map<TID, TaskView>, s: Seq<TID>, x: TID)
    ensures
        insert_sorted(tasks, s, x).to_multiset() == s.to_multiset().insert(x),
        insert_sorted(tasks, s, x).len() == s.len() + 1,
        forall|t: TID| #[trigger] insert_sorted(tasks, s, x).contains(t) <==> (t == x || s.contains(t)),
    decreases s.len(),
{
    broadcast use vstd::seq_lib::group_seq_properties;
    broadcast use vstd::multiset::group_multiset_axioms;

    let r = insert_sorted(tasks, s, x);
    if s.len() == 0 {
        assert(seq![x] =~= Seq::<TID>::empty().push(x));
        assert(Seq::<TID>::empty().to_multiset() =~= Multiset::empty());
    } else if key_le(tasks[s.last()], tasks[x]) {
    } else {
        let d = s.drop_last();
        lemma_insert_sorted_elems(tasks, d, x);
        assert(d.push(s.last()) =~= s);
        assert(r.to_multiset() =~= s.to_multiset().insert(x));
    }
    assert forall|t: TID| #[trigger] r.contains(t) <==> (t == x || s.contains(t)) by {
        assert(r.contains(t) <==> r.to_multiset().count(t) > 0);
        assert(s.contains(t) <==> s.to_multiset().count(t) > 0);
    }
}

/// Inserting into an ordered sequence keeps it ordered.
pub proof fn lemma_insert_sorted_sorted(tasks: Map<TID, TaskView>, s: Seq<TID>, x: TID)
    requires
        sorted_by_key(tasks, s),
    ensures
        sorted_by_key(tasks, insert_sorted(tasks, s, x)),
    decreases s.len(),
{
    let r = insert_sorted(tasks, s, x);
    if s.len() == 0 {
    } else if key_le(tasks[s.last()], tasks[x]) {
        assert forall|a: int, b: int| 0 <= a < b < r.len() implies #[trigger] sorted_by_key_at(tasks, r, a, b) by {
            if b == s.len() {
                if a < s.len() - 1 {
                    assert(sorted_by_key_at(tasks, s, a, s.len() - 1));
                }
            } else {
                assert(sorted_by_key_at(tasks, s, a, b));
            }
        }
    } else {
        let d = s.drop_last();
        let l = s.last();
        assert(sorted_by_key(tasks, d)) by {
            assert forall|a: int, b: int| 0 <= a < b < d.len() implies #[trigger] sorted_by_key_at(tasks, d, a, b) by {
                assert(d[a] == s[a] && d[b] == s[b]);
                assert(sorted_by_key_at(tasks, s, a, b));
            }
        }
        lemma_insert_sorted_sorted(tasks, d, x);
        lemma_insert_sorted_elems(tasks, d, x);
        let r0 = insert_sorted(tasks, d, x);
        assert forall|a: int, b: int| 0 <= a < b < r.len() implies #[trigger] sorted_by_key_at(tasks, r, a, b) by {
            if b == r0.len() {
                assert(r0.contains(r0[a]));
                if r0[a] != x {
                    let j = choose|j: int| 0 <= j < d.len() && d[j] == r0[a];
                    assert(sorted_by_key_at(tasks, s, j, s.len() - 1));
                }
            } else {
                assert(r[a] == r0[a] && r[b] == r0[b]);
                assert(sorted_by_key_at(tasks, r0, a, b));
            }
        }
    }
}

/// The sort law: the stable ordering of any ids is in key order, and holds
/// the same ids as many times as they were given.
pub proof fn lemma_sort_tids(tasks: Map<TID, TaskView>, s: Seq<TID>)
    ensures
        sorted_by_key(tasks, sort_tids(tasks, s)),
        sort_tids(tasks, s).to_multiset() == s.to_multiset(),
        sort_tids(tasks, s).len() == s.len(),
    decreases s.len(),
{
    broadcast use vstd::seq_lib::group_seq_properties;

    if s.len() == 0 {
    } else {
        let d = s.drop_last();
        lemma_sort_tids(tasks, d);
        lemma_insert_sorted_sorted(tasks, sort_tids(tasks, d), s.last());
        lemma_insert_sorted_elems(tasks, sort_tids(tasks, d), s.last());
        assert(d.push(s.last()) =~= s);
    }
}

/// Places `x` into `v` as `insert_sorted` says.
pub fn insert_by_key(tasks: &HashMap<TID, Task>, v: &mut Vec<TID>, x: TID)
    requires
        tasks@.contains_key(x),
        forall|t: TID| old(v)@.contains(t) ==> tasks@.contains_key(t),
    ensures
        final(v)@ == insert_sorted(task_views(tasks@), old(v)@, x),
{
    let ghost tv = task_views(tasks@);
    let xt = tasks.get(&x).unwrap();
    let mut p: usize = v.len();
    while p > 0
        invariant
            0 <= p <= v.len(),
            v@ == old(v)@,
            tv == task_views(tasks@),
            tasks@.contains_key(x),
            *xt == tasks@[x],
            forall|t: TID| v@.contains(t) ==> tasks@.contains_key(t),
            forall|k: int| p <= k < v.len() ==> !key_le(#[trigger] tv[v@[k]], tv[x]),
        ensures
            0 <= p <= v.len(),
            v@ == old(v)@,
            forall|k: int| p <= k < v.len() ==> !key_le(#[trigger] tv[v@[k]], tv[x]),
            p > 0 ==> key_le(tv[v@[p - 1]], tv[x]),
        decreases p,
    {
        let y = v[p - 1];
        assert(v@.contains(y));
        let yt = tasks.get(&y).unwrap();
        assert(tv[y] == yt@ && tv[x] == xt@);
        if task_le(yt, xt) {
            break;
        }
        p = p - 1;
    }
    proof {
        lemma_insert_at(tv, v@, x, p as int);
    }
    v.insert(p, x);
}

/// The ids of `s` in the stable order by key.
pub fn sort_by_key(tasks: &HashMap<TID, Task>, s: &Vec<TID>) -> (r: Vec<TID>)
    requires
        forall|t: TID| s@.contains(t) ==> tasks@.contains_key(t),
    ensures
        r@ == sort_tids(task_views(tasks@), s@),
{
    let ghost tv = task_views(tasks@);
    let mut r: Vec<TID> = Vec::new();
    let mut i: usize = 0;
    assert(s@.subrange(0, 0) =~= Seq::<TID>::empty());
    while i < s.len()
        invariant
            0 <= i <= s.len(),
            r@ == sort_tids(tv, s@.subrange(0, i as int)),
            tv == task_views(tasks@),
            forall|t: TID| s@.contains(t) ==> tasks@.contains_key(t),
            forall|t: TID| r@.contains(t) ==> tasks@.contains_key(t),
        decreases s.len() - i,
    {
        let x = s[i];
        assert(s@.contains(x));
        let ghost r0 = r@;
        proof {
            lemma_insert_sorted_elems(tv, r@, x);
            assert(s@.subrange(0, i + 1).drop_last() =~= s@.subrange(0, i as int));
        }
        insert_by_key(tasks, &mut r, x);
        assert(r@ == insert_sorted(tv, r0, x));
        assert(sort_tids(tv, s@.subrange(0, i + 1)) == insert_sorted(
            tv,
            sort_tids(tv, s@.subrange(0, i as int)),
            x,
        ));
        i = i + 1;
    }
    assert(s@.subrange(0, s.len() as int) =~= s@);
    r
}

} // verus!
