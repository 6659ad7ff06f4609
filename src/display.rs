//! What a listing shows: the groups, each with the tasks that pass a
//! priority filter, in stored order.
use crate::model::{group_index, has_group, opt_text, wf, Group, Model, ModelView, Prio, Task, TaskView, TID};
use vstd::prelude::*;

verus! {

broadcast use vstd::std_specs::hash::group_hash_axioms;

/// A group as listed: its name and the tasks that pass the filter.
pub struct PrintGroup {
    pub name: String,
    pub tasks: Vec<Task>,
}

/// A listing: the groups shown and the priority filter applied.
pub struct PrintModel {
    pub groups: Vec<PrintGroup>,
    pub prio: Option<Prio>,
}

pub struct PrintGroupView {
    pub name: Seq<char>,
    pub tasks: Seq<TaskView>,
}

/// What a listing says besides its groups.
pub enum ListNote {
    /// There are no groups at all.
    NothingToDo,
    /// There are groups, and no task passes the filter.
    NothingMatches,
    /// Some task is shown.
    Shown,
}

impl View for PrintGroup {
    type V = PrintGroupView;

    open spec fn view(&self) -> PrintGroupView {
        PrintGroupView { name: self.name@, tasks: self.tasks@.map_values(|t: Task| t@) }
    }
}

impl View for PrintModel {
    type V = Seq<PrintGroupView>;

    open spec fn view(&self) -> Seq<PrintGroupView> {
        self.groups@.map_values(|g: PrintGroup| g@)
    }
}

impl Clone for Task {
    fn clone(&self) -> (r: Task)
        ensures
            r@ == self@,
    {
        Task {
            tid: self.tid,
            name: self.name.clone(),
            prio: self.prio,
            date: self.date,
            group: self.group.clone(),
        }
    }
}

/// Task `t` passes the priority filter `prio`.
pub open spec fn passes(t: TaskView, prio: Option<Prio>) -> bool {
    match prio {
        Some(p) => t.prio == p,
        None => true,
    }
}

/// The tasks of the ids `s`, in that order, that pass the filter.
pub open spec fn shown(tasks: Map<TID, TaskView>, s: Seq<TID>, prio: Option<Prio>) -> Seq<TaskView> {
    s.map_values(|id: TID| tasks[id]).filter(|t: TaskView| passes(t, prio))
}

/// How a group of `v` is listed under the filter.
pub open spec fn group_shown(v: ModelView, name: Seq<char>, s: Seq<TID>, prio: Option<Prio>) -> PrintGroupView {
    PrintGroupView { name, tasks: shown(v.tasks, s, prio) }
}

/// The listing of `v`: every group, in stored order, or the one named.
pub open spec fn listing(v: ModelView, group: Option<Seq<char>>, prio: Option<Prio>) -> Seq<PrintGroupView> {
    match group {
        Some(n) => {
            let g = v.groups[group_index(v.groups, n)];
            seq![group_shown(v, g.name, g.tids, prio)]
        },
        None => v.groups.map_values(|g: crate::model::GroupView| group_shown(v, g.name, g.tids, prio)),
    }
}

/// The note that goes with a listing of groups `gs` made from a model with
/// `n` groups.
pub open spec fn note_of(n: int, gs: Seq<PrintGroupView>) -> ListNote {
    if n == 0 {
        ListNote::NothingToDo
    } else if forall|i: int| 0 <= i < gs.len() ==> #[trigger] gs[i].tasks.len() == 0 {
        ListNote::NothingMatches
    } else {
        ListNote::Shown
    }
}

/// The relative label of a date `days` days before today, where it has one:
/// "today", "yesterday", "2d ago" and "3d ago"; older dates are written out.
pub open spec fn age_label_of(days: i64) -> Option<Seq<char>> {
    if days == 0 {
        Some("today"@)
    } else if days == 1 {
        Some("yesterday"@)
    } else if days == 2 {
        Some("2d ago"@)
    } else if days == 3 {
        Some("3d ago"@)
    } else {
        None
    }
}

/// The relative label of a date `days` days before today, as `age_label_of` says.
pub fn age_label(days: i64) -> (r: Option<String>)
    ensures
        opt_text(r) == age_label_of(days),
{
    if days == 0 {
        Some(String::from_str("today"))
    } else if days == 1 {
        Some(String::from_str("yesterday"))
    } else if days == 2 {
        Some(String::from_str("2d ago"))
    } else if days == 3 {
        Some(String::from_str("3d ago"))
    } else {
        None
    }
}

impl PrintGroup {
    /// The listing of `group`, a group of `model`, under the filter `prio`.
    pub fn new(group: &Group, model: &Model, prio: Option<Prio>) -> (r: PrintGroup)
        requires
            forall|k: int| 0 <= k < group.tids.len() ==> model.tasks@.contains_key(#[trigger] group.tids@[k]),
        ensures
            r@ == group_shown(model@, group.name@, group.tids@, prio),
    {
        let ghost tv = model@.tasks;
        let ghost f = |t: TaskView| passes(t, prio);
        let ghost m = |id: TID| tv[id];
        let mut tasks: Vec<Task> = Vec::new();
        let mut k: usize = 0;
        assert(group.tids@.subrange(0, 0).map_values(m) =~= Seq::<TaskView>::empty());
        while k < group.tids.len()
            invariant
                0 <= k <= group.tids.len(),
                tv == model@.tasks,
                f == (|t: TaskView| passes(t, prio)),
                m == (|id: TID| tv[id]),
                forall|j: int| 0 <= j < group.tids.len() ==> model.tasks@.contains_key(#[trigger] group.tids@[j]),
                tasks@.map_values(|t: Task| t@) == group.tids@.subrange(0, k as int).map_values(m).filter(f),
            decreases group.tids.len() - k,
        {
            let tid = group.tids[k];
            assert(model.tasks@.contains_key(group.tids@[k as int]));
            let t = model.tasks.get(&tid).unwrap();
            assert(t@ == tv[tid]);
            let ghost before = group.tids@.subrange(0, k as int).map_values(m);
            assert(group.tids@.subrange(0, k + 1).map_values(m) =~= before.push(tv[tid]));
            proof {
                before.lemma_filter_push(tv[tid], f);
            }
            let keep = match prio {
                Some(p) => t.prio.same(&p),
                None => true,
            };
            if keep {
                let ghost old_tasks = tasks@;
                tasks.push(t.clone());
                assert(tasks@.map_values(|t: Task| t@) =~= old_tasks.map_values(|t: Task| t@).push(tv[tid]));
            }
            k = k + 1;
        }
        assert(group.tids@.subrange(0, group.tids.len() as int) =~= group.tids@);
        assert(group.tids@.map_values(m) =~= group.tids@.map_values(|id: TID| model@.tasks[id]));
        PrintGroup { name: group.name.clone(), tasks }
    }
}

impl PrintModel {
    /// The listing of every group of `model`, in stored order, under the
    /// filter `prio`.
    pub fn new(model: &Model, prio: Option<Prio>) -> (r: PrintModel)
        requires
            wf(model@),
        ensures
            r@ == listing(model@, None, prio),
            r.prio == prio,
    {
        let mut groups: Vec<PrintGroup> = Vec::new();
        let mut i: usize = 0;
        while i < model.groups.len()
            invariant
                0 <= i <= model.groups.len(),
                wf(model@),
                groups.len() == i,
                forall|j: int| 0 <= j < i ==> #[trigger] groups@[j]@ == listing(model@, None, prio)[j],
            decreases model.groups.len() - i,
        {
            let g = &model.groups[i];
            assert(model@.groups[i as int] == g@);
            assert forall|k: int| 0 <= k < g.tids.len() implies model.tasks@.contains_key(#[trigger] g.tids@[k]) by {
                assert(model@.groups[i as int].tids[k] == g.tids@[k]);
            }
            groups.push(PrintGroup::new(g, model, prio));
            i = i + 1;
        }
        let r = PrintModel { groups, prio };
        assert(r@ =~= listing(model@, None, prio));
        r
    }

    /// The note for this listing, made from a model with `n_groups` groups.
    pub fn note(&self, n_groups: usize) -> (r: ListNote)
        ensures
            r == note_of(n_groups as int, self@),
    {
        if n_groups == 0 {
            return ListNote::NothingToDo;
        }
        let mut i: usize = 0;
        while i < self.groups.len()
            invariant
                0 <= i <= self.groups.len(),
                n_groups > 0,
                forall|j: int| 0 <= j < i ==> #[trigger] self@[j].tasks.len() == 0,
            decreases self.groups.len() - i,
        {
            if self.groups[i].tasks.len() > 0 {
                assert(self@[i as int].tasks.len() > 0);
                return ListNote::Shown;
            }
            i = i + 1;
        }
        ListNote::NothingMatches
    }
}

} // verus!
