use std::collections::HashMap;
use vstd::prelude::*;

verus! {

/// Identifier of a task.
pub type TID = u32;

/// The three priority levels; `A` is the most urgent.
#[derive(Clone, Copy, PartialEq, Eq, PartialOrd, Ord, Debug, Structural)]
pub enum Prio {
    A,
    B,
    C,
}

/// An instant, as whole seconds since the Unix epoch and the nanoseconds after them.
#[derive(Clone, Copy, PartialEq, Eq, PartialOrd, Ord, Debug, Structural)]
pub struct Timestamp {
    pub secs: i64,
    pub nanos: u32,
}

pub struct NewCommand {
    pub task: String,
    pub group: String,
    pub prio: Prio,
}

pub struct ListCommand {
    pub group: Option<String>,
    pub prio: Option<Prio>,
}

pub struct DoneCommand {
    pub tids: Vec<TID>,
}

pub struct UpdateCommand {
    pub tid: TID,
    pub group: Option<String>,
    pub prio: Option<Prio>,
    pub task: Option<String>,
}

pub struct DeleteGroupCommand {
    pub group: String,
}

pub struct MoveCommand {
    pub group: Option<String>,
    pub prio: Option<Prio>,
    pub tids: Vec<TID>,
}

pub enum Command {
    New(NewCommand),
    List(ListCommand),
    Done(DoneCommand),
    Update(UpdateCommand),
    DeleteGroup(DeleteGroupCommand),
    Move(MoveCommand),
}

pub struct Task {
    pub tid: TID,
    pub name: String,
    pub prio: Prio,
    pub date: Timestamp,
    pub group: String,
}

pub struct Group {
    pub name: String,
    pub tids: Vec<TID>,
}

/// All tasks, by id, and all groups, in the order in which they were created.
pub struct Model {
    pub tasks: HashMap<TID, Task>,
    pub groups: Vec<Group>,
}

#[derive(Clone, Debug, PartialEq, Eq)]
pub enum Error {
    TIDMissing,
    TIDsMissing,
    InvalidTID(String),
    GroupMissing,
    InvalidArgument(String),
    CannotReadDataFile,
    InvalidDataFile,
    SerializationError,
    CannotWriteOpenDataFile,
    CannotWriteDataFile,
    NothingToUpdate,
    InvalidGroup(String),
    NothingToMove,
}

pub enum ErrorView {
    TIDMissing,
    TIDsMissing,
    InvalidTID(Seq<char>),
    GroupMissing,
    InvalidArgument(Seq<char>),
    CannotReadDataFile,
    InvalidDataFile,
    SerializationError,
    CannotWriteOpenDataFile,
    CannotWriteDataFile,
    NothingToUpdate,
    InvalidGroup(Seq<char>),
    NothingToMove,
}

impl View for Error {
    type V = ErrorView;

    open spec fn view(&self) -> ErrorView {
        match self {
            Error::TIDMissing => ErrorView::TIDMissing,
            Error::TIDsMissing => ErrorView::TIDsMissing,
            Error::InvalidTID(s) => ErrorView::InvalidTID(s@),
            Error::GroupMissing => ErrorView::GroupMissing,
            Error::InvalidArgument(s) => ErrorView::InvalidArgument(s@),
            Error::CannotReadDataFile => ErrorView::CannotReadDataFile,
            Error::InvalidDataFile => ErrorView::InvalidDataFile,
            Error::SerializationError => ErrorView::SerializationError,
            Error::CannotWriteOpenDataFile => ErrorView::CannotWriteOpenDataFile,
            Error::CannotWriteDataFile => ErrorView::CannotWriteDataFile,
            Error::NothingToUpdate => ErrorView::NothingToUpdate,
            Error::InvalidGroup(s) => ErrorView::InvalidGroup(s@),
            Error::NothingToMove => ErrorView::NothingToMove,
        }
    }
}

/// The message that reports an error to the user.
pub open spec fn message_of(e: ErrorView) -> Seq<char> {
    match e {
        ErrorView::TIDMissing => "Need to specify the ID of the task."@,
        ErrorView::InvalidTID(t) => "Task ID `"@ + t + "` is invalid."@,
        ErrorView::GroupMissing => "Need to specify the group name after -g."@,
        ErrorView::InvalidArgument(a) => "Invalid argument: `"@ + a + "`."@,
        ErrorView::CannotReadDataFile => "Cannot read data file."@,
        ErrorView::InvalidDataFile => "Data file has the wrong format."@,
        ErrorView::SerializationError => "Cannot serialize the data."@,
        ErrorView::CannotWriteOpenDataFile => "Cannot open data file for writing."@,
        ErrorView::CannotWriteDataFile => "Cannot write data file."@,
        ErrorView::NothingToUpdate => "Nothing to update."@,
        ErrorView::InvalidGroup(g) => "Invalid group name: `"@ + g + "`."@,
        ErrorView::TIDsMissing => "The list of task IDs is missing."@,
        ErrorView::NothingToMove => "Nothing to move."@,
    }
}

/// `pre`, then `s`, then `post`.
fn enclosed(pre: &str, s: &String, post: &str) -> (r: String)
    ensures
        r@ == pre@ + s@ + post@,
{
    let mut r = String::from_str(pre);
    r.append(s.as_str());
    r.append(post);
    r
}

impl Error {
    /// The message that reports this error to the user.
    pub fn message(&self) -> (r: String)
        ensures
            r@ == message_of(self@),
    {
        match self {
            Error::TIDMissing => String::from_str("Need to specify the ID of the task."),
            Error::InvalidTID(t) => enclosed("Task ID `", t, "` is invalid."),
            Error::GroupMissing => String::from_str("Need to specify the group name after -g."),
            Error::InvalidArgument(a) => enclosed("Invalid argument: `", a, "`."),
            Error::CannotReadDataFile => String::from_str("Cannot read data file."),
            Error::InvalidDataFile => String::from_str("Data file has the wrong format."),
            Error::SerializationError => String::from_str("Cannot serialize the data."),
            Error::CannotWriteOpenDataFile => String::from_str("Cannot open data file for writing."),
            Error::CannotWriteDataFile => String::from_str("Cannot write data file."),
            Error::NothingToUpdate => String::from_str("Nothing to update."),
            Error::InvalidGroup(g) => enclosed("Invalid group name: `", g, "`."),
            Error::TIDsMissing => String::from_str("The list of task IDs is missing."),
            Error::NothingToMove => String::from_str("Nothing to move."),
        }
    }
}

pub enum CommandView {
    New { task: Seq<char>, group: Seq<char>, prio: Prio },
    List { group: Option<Seq<char>>, prio: Option<Prio> },
    Done { tids: Seq<TID> },
    Update { tid: TID, group: Option<Seq<char>>, prio: Option<Prio>, task: Option<Seq<char>> },
    DeleteGroup { group: Seq<char> },
    Move { group: Option<Seq<char>>, prio: Option<Prio>, tids: Seq<TID> },
}

/// The text of an optional string.
pub open spec fn opt_text(o: Option<String>) -> Option<Seq<char>> {
    match o {
        Some(s) => Some(s@),
        None => None,
    }
}

impl View for Command {
    type V = CommandView;

    open spec fn view(&self) -> CommandView {
        match self {
            Command::New(c) => CommandView::New { task: c.task@, group: c.group@, prio: c.prio },
            Command::List(c) => CommandView::List { group: opt_text(c.group), prio: c.prio },
            Command::Done(c) => CommandView::Done { tids: c.tids@ },
            Command::Update(c) => CommandView::Update {
                tid: c.tid,
                group: opt_text(c.group),
                prio: c.prio,
                task: opt_text(c.task),
            },
            Command::DeleteGroup(c) => CommandView::DeleteGroup { group: c.group@ },
            Command::Move(c) => CommandView::Move {
                group: opt_text(c.group),
                prio: c.prio,
                tids: c.tids@,
            },
        }
    }
}

pub struct TaskView {
    pub tid: TID,
    pub name: Seq<char>,
    pub prio: Prio,
    pub date: Timestamp,
    pub group: Seq<char>,
}

pub struct GroupView {
    pub name: Seq<char>,
    pub tids: Seq<TID>,
}

pub struct ModelView {
    pub tasks: Map<TID, TaskView>,
    pub groups: Seq<GroupView>,
}

impl View for Task {
    type V = TaskView;

    open spec fn view(&self) -> TaskView {
        TaskView {
            tid: self.tid,
            name: self.name@,
            prio: self.prio,
            date: self.date,
            group: self.group@,
        }
    }
}

impl View for Group {
    type V = GroupView;

    open spec fn view(&self) -> GroupView {
        GroupView { name: self.name@, tids: self.tids@ }
    }
}

impl View for Model {
    type V = ModelView;

    open spec fn view(&self) -> ModelView {
        ModelView {
            tasks: task_views(self.tasks@),
            groups: self.groups@.map_values(|g: Group| g@),
        }
    }
}

/// The tasks of a map, each by its view.
pub open spec fn task_views(m: Map<TID, Task>) -> Map<TID, TaskView> {
    m.map_values(|t: Task| t@)
}

/// Whether some group carries the given name.
pub open spec fn has_group(gs: Seq<GroupView>, name: Seq<char>) -> bool {
    exists|i: int| 0 <= i < gs.len() && #[trigger] gs[i].name == name
}

/// The position of the group with the given name (meaningful where `has_group` holds).
pub open spec fn group_index(gs: Seq<GroupView>, name: Seq<char>) -> int {
    choose|i: int| 0 <= i < gs.len() && #[trigger] gs[i].name == name
}

/// No two groups share a name.
pub open spec fn names_unique(gs: Seq<GroupView>) -> bool {
    forall|i: int, j: int|
        0 <= i < gs.len() && 0 <= j < gs.len() && i != j ==> #[trigger] gs[i].name
            != #[trigger] gs[j].name
}

/// Task `t` is listed by some group.
pub open spec fn listed(gs: Seq<GroupView>, t: TID) -> bool {
    exists|i: int| 0 <= i < gs.len() && #[trigger] gs[i].tids.contains(t)
}

/// The links between tasks and groups: every listed id is a task that names
/// the listing group, every task is listed, each at most once per group, no
/// group is empty and no two groups share a name.
pub open spec fn wf_links(v: ModelView) -> bool {
    &&& forall|t: TID| #[trigger] v.tasks.contains_key(t) ==> v.tasks[t].tid == t
    &&& names_unique(v.groups)
    &&& forall|i: int|
        0 <= i < v.groups.len() ==> #[trigger] v.groups[i].tids.len() > 0
            && v.groups[i].tids.no_duplicates()
    &&& forall|i: int, k: int|
        0 <= i < v.groups.len() && 0 <= k < v.groups[i].tids.len() ==> {
            let t = #[trigger] v.groups[i].tids[k];
            v.tasks.contains_key(t) && v.tasks[t].group == v.groups[i].name
        }
    &&& forall|t: TID| #[trigger] v.tasks.contains_key(t) ==> listed(v.groups, t)
}

/// The rank of a priority: `A` first.
pub open spec fn rank(p: Prio) -> int {
    match p {
        Prio::A => 0,
        Prio::B => 1,
        Prio::C => 2,
    }
}

/// `a` may stand before `b` in a group: (priority, date) of `a` is not greater
/// than that of `b`, compared lexicographically.
pub open spec fn key_le(a: TaskView, b: TaskView) -> bool {
    ||| rank(a.prio) < rank(b.prio)
    ||| rank(a.prio) == rank(b.prio) && a.date.secs < b.date.secs
    ||| rank(a.prio) == rank(b.prio) && a.date.secs == b.date.secs && a.date.nanos
        <= b.date.nanos
}

/// The ids of `s` stand in order of their tasks' keys.
pub open spec fn sorted_by_key(tasks: Map<TID, TaskView>, s: Seq<TID>) -> bool {
    forall|a: int, b: int| 0 <= a < b < s.len() ==> #[trigger] sorted_by_key_at(tasks, s, a, b)
}

/// The ids at `a` and `b` of `s` stand in key order.
pub open spec fn sorted_by_key_at(tasks: Map<TID, TaskView>, s: Seq<TID>, a: int, b: int) -> bool {
    key_le(tasks[s[a]], tasks[s[b]])
}

/// Every group is in key order.
pub open spec fn groups_sorted(v: ModelView) -> bool {
    forall|i: int| 0 <= i < v.groups.len() ==> sorted_by_key(v.tasks, #[trigger] v.groups[i].tids)
}

/// The invariant of a model between commands.
pub open spec fn wf(v: ModelView) -> bool {
    wf_links(v) && groups_sorted(v)
}

impl Model {
    /// An empty model.
    pub fn new() -> (r: Model)
        ensures
            r@.tasks == Map::<TID, TaskView>::empty(),
            r@.groups == Seq::<GroupView>::empty(),
            wf(r@),
    {
        let r = Model { tasks: HashMap::new(), groups: Vec::new() };
        assert(r@.tasks =~= Map::<TID, TaskView>::empty());
        assert(r@.groups =~= Seq::<GroupView>::empty());
        r
    }
}

impl Prio {
    /// Whether two priorities are the same level.
    pub fn same(&self, other: &Prio) -> (r: bool)
        ensures
            r == (*self == *other),
    {
        match (self, other) {
            (Prio::A, Prio::A) | (Prio::B, Prio::B) | (Prio::C, Prio::C) => true,
            _ => false,
        }
    }
}

/// `a` is not greater than `b` in (priority, date) order.
pub fn task_le(a: &Task, b: &Task) -> (r: bool)
    ensures
        r == key_le(a@, b@),
{
    let ra: u8 = match a.prio {
        Prio::A => 0,
        Prio::B => 1,
        Prio::C => 2,
    };
    let rb: u8 = match b.prio {
        Prio::A => 0,
        Prio::B => 1,
        Prio::C => 2,
    };
    if ra != rb {
        ra < rb
    } else if a.date.secs != b.date.secs {
        a.date.secs < b.date.secs
    } else {
        a.date.nanos <= b.date.nanos
    }
}

} // verus!
