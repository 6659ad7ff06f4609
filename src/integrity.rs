//! Whether a model, read from elsewhere, keeps the invariant that the
//! commands rely on.
use crate::model::{
    groups_sorted, listed, names_unique, sorted_by_key, sorted_by_key_at, task_le, wf, wf_links,
    Group, GroupView, Model, ModelView, TaskView, TID,
};
use vstd::prelude::*;
use vstd::set_lib::{lemma_len_subset, lemma_set_disjoint_lens, lemma_subset_equality};

verus! {

broadcast use vstd::std_specs::hash::group_hash_axioms;

/// The ids that the groups `gs` list.
pub open spec fn listed_ids(gs: Seq<GroupView>) -> Set<TID>
    decreases gs.len(),
{
    if gs.len() == 0 {
        Set::empty()
    } else {
        listed_ids(gs.drop_last()) + gs.last().tids.to_set()
    }
}

/// The number of ids that the groups `gs` list, counted group by group.
pub open spec fn total_listed(gs: Seq<GroupView>) -> nat
    decreases gs.len(),
{
    if gs.len() == 0 {
        0
    } else {
        total_listed(gs.drop_last()) + gs.last().tids.len()
    }
}

/// No id stands in two groups.
pub open spec fn apart(gs: Seq<GroupView>) -> bool {
    forall|i: int, j: int, a: int, b: int|
        0 <= i < gs.len() && 0 <= j < gs.len() && i != j && 0 <= a < gs[i].tids.len() && 0 <= b
            < gs[j].tids.len() ==> #[trigger] gs[i].tids[a] != #[trigger] gs[j].tids[b]
}

/// What one group must satisfy: not empty, no id twice, in key order, and
/// each id a task that names this group and carries this id.
pub open spec fn group_sound(tasks: Map<TID, TaskView>, g: GroupView) -> bool {
    &&& g.tids.len() > 0
    &&& g.tids.no_duplicates()
    &&& sorted_by_key(tasks, g.tids)
    &&& forall|k: int|
        0 <= k < g.tids.len() ==> {
            let t = #[trigger] g.tids[k];
            tasks.contains_key(t) && tasks[t].group == g.name && tasks[t].tid == t
        }
}

/// The conditions that `is_consistent` tests: names apart, every group
/// sound, and as many listings as tasks.
pub open spec fn sound(v: ModelView) -> bool {
    &&& names_unique(v.groups)
    &&& forall|i: int| 0 <= i < v.groups.len() ==> group_sound(v.tasks, #[trigger] v.groups[i])
    &&& total_listed(v.groups) == v.tasks.len()
}

proof fn lemma_listed_ids(gs: Seq<GroupView>)
    ensures
        listed_ids(gs).finite(),
        forall|t: TID| #[trigger] listed_ids(gs).contains(t) <==> listed(gs, t),
    decreases gs.len(),
{
    if gs.len() > 0 {
        let d = gs.drop_last();
        lemma_listed_ids(d);
        assert forall|t: TID| #[trigger] listed_ids(gs).contains(t) <==> listed(gs, t) by {
            if listed_ids(gs).contains(t) {
                if listed_ids(d).contains(t) {
                    let i = choose|i: int| 0 <= i < d.len() && #[trigger] d[i].tids.contains(t);
                    assert(gs[i] == d[i]);
                } else {
                    assert(gs[gs.len() - 1].tids.contains(t));
                }
            }
            if listed(gs, t) {
                let i = choose|i: int| 0 <= i < gs.len() && #[trigger] gs[i].tids.contains(t);
                if i < d.len() {
                    assert(d[i] == gs[i]);
                    assert(listed(d, t));
                } else {
                    assert(gs.last().tids.to_set().contains(t));
                }
            }
        }
    }
}

proof fn lemma_total_listed(gs: Seq<GroupView>)
    requires
        apart(gs),
        forall|i: int| 0 <= i < gs.len() ==> (#[trigger] gs[i]).tids.no_duplicates(),
    ensures
        listed_ids(gs).len() == total_listed(gs),
    decreases gs.len(),
{
    if gs.len() > 0 {
        let d = gs.drop_last();
        let l = gs.last().tids;
        assert(apart(d)) by {
            assert forall|i: int, j: int, a: int, b: int|
                0 <= i < d.len() && 0 <= j < d.len() && i != j && 0 <= a < d[i].tids.len() && 0 <= b
                    < d[j].tids.len() implies #[trigger] d[i].tids[a] != #[trigger] d[j].tids[b] by {
                assert(d[i] == gs[i] && d[j] == gs[j]);
                assert(gs[i].tids[a] != gs[j].tids[b]);
            }
        }
        assert forall|i: int| 0 <= i < d.len() implies (#[trigger] d[i]).tids.no_duplicates() by {
            assert(d[i] == gs[i]);
        }
        lemma_total_listed(d);
        lemma_listed_ids(d);
        l.unique_seq_to_set();
        assert(listed_ids(d).disjoint(l.to_set())) by {
            assert forall|t: TID| !(listed_ids(d).contains(t) && l.to_set().contains(t)) by {
                if listed_ids(d).contains(t) && l.to_set().contains(t) {
                    let i = choose|i: int| 0 <= i < d.len() && #[trigger] d[i].tids.contains(t);
                    let a = choose|a: int| 0 <= a < d[i].tids.len() && d[i].tids[a] == t;
                    let b = choose|b: int| 0 <= b < l.len() && l[b] == t;
                    assert(d[i] == gs[i]);
                    assert(gs[i].tids[a] != gs[gs.len() - 1].tids[b]);
                }
            }
        }
        lemma_set_disjoint_lens(listed_ids(d), l.to_set());
    }
}

/// The tests of `is_consistent` hold exactly when the invariant does.
pub proof fn lemma_sound_iff_wf(v: ModelView)
    requires
        v.tasks.dom().finite(),
    ensures
        sound(v) <==> wf(v),
{
    lemma_listed_ids(v.groups);
    let gs = v.groups;
    if wf(v) || sound(v) {
        // in either case ids in two groups would name both
        assert(apart(gs)) by {
            assert forall|i: int, j: int, a: int, b: int|
                0 <= i < gs.len() && 0 <= j < gs.len() && i != j && 0 <= a < gs[i].tids.len() && 0
                    <= b < gs[j].tids.len() implies #[trigger] gs[i].tids[a] != #[trigger] gs[j].tids[b] by {
                assert(gs[i].name != gs[j].name);
                if wf(v) {
                } else {
                    assert(group_sound(v.tasks, gs[i]) && group_sound(v.tasks, gs[j]));
                }
            }
        }
        assert forall|i: int| 0 <= i < gs.len() implies (#[trigger] gs[i]).tids.no_duplicates() by {
            if !wf(v) {
                assert(group_sound(v.tasks, gs[i]));
            }
        }
        lemma_total_listed(gs);
        assert(listed_ids(gs).subset_of(v.tasks.dom())) by {
            assert forall|t: TID| listed_ids(gs).contains(t) implies v.tasks.dom().contains(t) by {
                assert(listed(gs, t));
                let i = choose|i: int| 0 <= i < gs.len() && #[trigger] gs[i].tids.contains(t);
                let k = choose|k: int| 0 <= k < gs[i].tids.len() && gs[i].tids[k] == t;
                if !wf(v) {
                    assert(group_sound(v.tasks, gs[i]));
                }
                assert(gs[i].tids[k] == t);
            }
        }
    }
    if wf(v) {
        assert(listed_ids(gs) =~= v.tasks.dom()) by {
            assert forall|t: TID| v.tasks.dom().contains(t) implies listed_ids(gs).contains(t) by {
                assert(v.tasks.contains_key(t));
            }
        }
        assert forall|i: int| 0 <= i < gs.len() implies group_sound(v.tasks, #[trigger] gs[i]) by {
            assert forall|k: int| 0 <= k < gs[i].tids.len() implies {
                let t = #[trigger] gs[i].tids[k];
                v.tasks.contains_key(t) && v.tasks[t].group == gs[i].name && v.tasks[t].tid == t
            } by {
                let t = gs[i].tids[k];
                assert(v.tasks.contains_key(t));
            }
        }
        assert(sound(v));
    }
    if sound(v) {
        lemma_subset_equality(listed_ids(gs), v.tasks.dom());
        assert forall|t: TID| #[trigger] v.tasks.contains_key(t) implies v.tasks[t].tid == t && listed(gs, t) by {
            assert(listed_ids(gs).contains(t));
            let i = choose|i: int| 0 <= i < gs.len() && #[trigger] gs[i].tids.contains(t);
            let k = choose|k: int| 0 <= k < gs[i].tids.len() && gs[i].tids[k] == t;
            assert(group_sound(v.tasks, gs[i]));
            assert(gs[i].tids[k] == t);
        }
        assert forall|i: int, k: int| 0 <= i < gs.len() && 0 <= k < gs[i].tids.len() implies {
            let t = #[trigger] gs[i].tids[k];
            v.tasks.contains_key(t) && v.tasks[t].group == gs[i].name
        } by {
            assert(group_sound(v.tasks, gs[i]));
        }
        assert forall|i: int| 0 <= i < gs.len() implies #[trigger] gs[i].tids.len() > 0
            && gs[i].tids.no_duplicates() by {
            assert(group_sound(v.tasks, gs[i]));
        }
        assert(groups_sorted(v)) by {
            assert forall|i: int| 0 <= i < gs.len() implies sorted_by_key(v.tasks, #[trigger] gs[i].tids) by {
                assert(group_sound(v.tasks, gs[i]));
            }
        }
        assert(wf_links(v));
    }
}

proof fn lemma_total_prefix(gs: Seq<GroupView>, i: int)
    requires
        0 <= i <= gs.len(),
    ensures
        total_listed(gs.subrange(0, i)) <= total_listed(gs),
    decreases gs.len() - i,
{
    if i < gs.len() {
        lemma_total_prefix(gs, i + 1);
        assert(gs.subrange(0, i + 1).drop_last() =~= gs.subrange(0, i));
    } else {
        assert(gs.subrange(0, i) =~= gs);
    }
}

impl Model {
    /// Whether group `g` is sound in this model.
    fn group_is_sound(&self, g: &Group) -> (r: bool)
        ensures
            r == group_sound(self@.tasks, g@),
    {
        let n = g.tids.len();
        if n == 0 {
            return false;
        }
        let mut a: usize = 0;
        while a < n
            invariant
                0 <= a <= n,
                n == g.tids.len(),
                forall|k: int| 0 <= k < a ==> {
                    let t = #[trigger] g.tids@[k];
                    self@.tasks.contains_key(t) && self@.tasks[t].group == g.name@ && self@.tasks[t].tid == t
                },
                forall|p: int, q: int| 0 <= p < a && p < q < n ==> #[trigger] g.tids@[p] != #[trigger] g.tids@[q],
                forall|p: int, q: int| 0 <= p < a && p < q < n ==> #[trigger] sorted_by_key_at(self@.tasks, g.tids@, p, q),
            decreases n - a,
        {
            let t = g.tids[a];
            let ta = match self.tasks.get(&t) {
                Some(x) => x,
                None => {
                    return false;
                },
            };
            assert(g@.tids[a as int] == t);
            if ta.group != g.name || ta.tid != t {
                return false;
            }
            let mut b: usize = a + 1;
            while b < n
                invariant
                    a < n,
                    a + 1 <= b <= n,
                    n == g.tids.len(),
                    t == g.tids@[a as int],
                    self.tasks@.contains_key(t),
                    *ta == self.tasks@[t],
                    forall|q: int| a < q < b ==> #[trigger] g.tids@[q] != t,
                    forall|q: int| a < q < b ==> #[trigger] sorted_by_key_at(self@.tasks, g.tids@, a as int, q),
                decreases n - b,
            {
                let u = g.tids[b];
                assert(g@.tids[b as int] == u);
                if u == t {
                    assert(g@.tids[a as int] == g@.tids[b as int]);
                    return false;
                }
                let tb = match self.tasks.get(&u) {
                    Some(x) => x,
                    None => {
                        assert(!self@.tasks.contains_key(u));
                        return false;
                    },
                };
                if !task_le(ta, tb) {
                    assert(!sorted_by_key_at(self@.tasks, g@.tids, a as int, b as int));
                    return false;
                }
                b = b + 1;
            }
            a = a + 1;
        }
        true
    }

    /// Whether this model keeps the invariant, as a model read from a file
    /// may not.
    pub fn is_consistent(&self) -> (r: bool)
        ensures
            r == wf(self@),
    {
        assert(self@.tasks.dom() =~= self.tasks@.dom());
        proof {
            lemma_sound_iff_wf(self@);
        }
        let n = self.groups.len();
        let mut i: usize = 0;
        while i < n
            invariant
                0 <= i <= n,
                n == self.groups.len(),
                forall|p: int, q: int|
                    0 <= p < i && 0 <= q < n && p != q ==> #[trigger] self@.groups[p].name
                        != #[trigger] self@.groups[q].name,
            decreases n - i,
        {
            let mut j: usize = 0;
            while j < n
                invariant
                    0 <= i < n,
                    0 <= j <= n,
                    n == self.groups.len(),
                    forall|p: int, q: int|
                        0 <= p < i && 0 <= q < n && p != q ==> #[trigger] self@.groups[p].name
                            != #[trigger] self@.groups[q].name,
                    forall|q: int| 0 <= q < j && q != i ==> #[trigger] self@.groups[q].name != self@.groups[i as int].name,
                decreases n - j,
            {
                if j != i && self.groups[i].name == self.groups[j].name {
                    assert(self@.groups[i as int].name == self@.groups[j as int].name);
                    assert(!names_unique(self@.groups));
                    return false;
                }
                j = j + 1;
            }
            i = i + 1;
        }
        let mut total: usize = 0;
        let mut k: usize = 0;
        assert(self@.groups.subrange(0, 0) =~= Seq::<GroupView>::empty());
        while k < n
            invariant
                0 <= k <= n,
                n == self.groups.len(),
                names_unique(self@.groups),
                total <= self.tasks@.len(),
                self.tasks@.len() == self@.tasks.len(),
                sound(self@) <==> wf(self@),
                total == total_listed(self@.groups.subrange(0, k as int)),
                forall|p: int| 0 <= p < k ==> group_sound(self@.tasks, #[trigger] self@.groups[p]),
            decreases n - k,
        {
            let g = &self.groups[k];
            assert(self@.groups[k as int] == g@);
            if !self.group_is_sound(g) {
                return false;
            }
            assert(self@.groups.subrange(0, k + 1).drop_last() =~= self@.groups.subrange(0, k as int));
            if g.tids.len() > self.tasks.len() - total {
                proof {
                    lemma_total_prefix(self@.groups, k + 1);
                    assert(self@.groups.subrange(0, k + 1).last() == self@.groups[k as int]);
                }
                return false;
            }
            total = total + g.tids.len();
            k = k + 1;
        }
        assert(self@.groups.subrange(0, n as int) =~= self@.groups);
        total == self.tasks.len()
    }
}

} // verus!
