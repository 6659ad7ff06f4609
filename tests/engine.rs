use todotui::model::{
    Command, DeleteGroupCommand, DoneCommand, Error, ListCommand, Model, MoveCommand, NewCommand,
    Prio, Timestamp, UpdateCommand, TID,
};
use todotui::processing::{process_command, Outcome};
use todotui::display::{age_label, ListNote, PrintModel};

fn at(secs: i64) -> Timestamp {
    Timestamp { secs, nanos: 0 }
}

fn new_cmd(task: &str, group: &str, prio: Prio) -> NewCommand {
    NewCommand { task: task.to_string(), group: group.to_string(), prio }
}

fn group_tids(m: &Model, name: &str) -> Option<Vec<TID>> {
    m.groups.iter().find(|g| g.name == name).map(|g| g.tids.clone())
}

fn key(m: &Model, tid: TID) -> (Prio, i64, u32) {
    let t = &m.tasks[&tid];
    (t.prio, t.date.secs, t.date.nanos)
}

/// Checks the links between tasks and groups, the absence of empty groups
/// and the order within each group.
fn assert_consistent(m: &Model) {
    let mut names: Vec<&String> = m.groups.iter().map(|g| &g.name).collect();
    names.sort();
    names.dedup();
    assert_eq!(names.len(), m.groups.len());
    let mut listed = 0;
    for g in &m.groups {
        assert!(!g.tids.is_empty());
        for tid in &g.tids {
            let t = &m.tasks[tid];
            assert_eq!(&t.group, &g.name);
            assert_eq!(t.tid, *tid);
            assert_eq!(g.tids.iter().filter(|x| *x == tid).count(), 1);
        }
        for w in g.tids.windows(2) {
            assert!(key(m, w[0]) <= key(m, w[1]));
        }
        listed += g.tids.len();
    }
    assert_eq!(listed, m.tasks.len());
}

#[test]
fn new_task_goes_to_default_group() {
    let mut m = Model::new();
    let cmd = todotui::parse::parse(&["todo".to_string(), "buy".to_string(), "milk".to_string()]).unwrap();
    let r = process_command(&mut m, cmd);
    assert!(matches!(r, Ok(Outcome::Created(0))));
    assert_eq!(m.tasks.len(), 1);
    assert_eq!(m.groups.len(), 1);
    assert_eq!(m.groups[0].name, "Default");
    assert_eq!(m.groups[0].tids, vec![0]);
    let t = &m.tasks[&0];
    assert_eq!(t.name, "buy milk");
    assert_eq!(t.prio, Prio::B);
    assert_eq!(t.group, "Default");
    assert_consistent(&m);
}

#[test]
fn priority_a_sorts_before_c() {
    let mut m = Model::new();
    let c = m.create_task(new_cmd("later", "Default", Prio::C), at(100));
    let a = m.create_task(new_cmd("now", "Default", Prio::A), at(200));
    assert_eq!(group_tids(&m, "Default"), Some(vec![a, c]));
    assert_consistent(&m);
}

#[test]
fn equal_priority_sorts_by_date() {
    let mut m = Model::new();
    let late = m.create_task(new_cmd("late", "G", Prio::B), at(300));
    let early = m.create_task(new_cmd("early", "G", Prio::B), at(100));
    let same = m.create_task(new_cmd("same", "G", Prio::B), at(300));
    assert_eq!(group_tids(&m, "G"), Some(vec![early, late, same]));
    assert_consistent(&m);
}

#[test]
fn completing_only_task_removes_group() {
    let mut m = Model::new();
    let t = m.create_task(new_cmd("x", "Solo", Prio::B), at(1));
    m.create_task(new_cmd("y", "Other", Prio::B), at(2));
    let r = process_command(&mut m, Command::Done(DoneCommand { tids: vec![t] }));
    assert!(matches!(r, Ok(Outcome::Completed)));
    assert!(!m.tasks.contains_key(&t));
    assert_eq!(group_tids(&m, "Solo"), None);
    assert_eq!(m.groups.len(), 1);
    assert_consistent(&m);
}

#[test]
fn completing_with_unknown_id_changes_nothing() {
    let mut m = Model::new();
    let t = m.create_task(new_cmd("x", "G", Prio::B), at(1));
    let r = process_command(&mut m, Command::Done(DoneCommand { tids: vec![t, 42] }));
    assert_eq!(r.err(), Some(Error::InvalidTID("42".to_string())));
    assert!(m.tasks.contains_key(&t));
    assert_eq!(group_tids(&m, "G"), Some(vec![t]));
}

#[test]
fn completing_same_id_twice_removes_it_once() {
    let mut m = Model::new();
    let t = m.create_task(new_cmd("x", "G", Prio::B), at(1));
    let u = m.create_task(new_cmd("y", "G", Prio::B), at(2));
    assert!(m.complete(&vec![t, t]).is_ok());
    assert_eq!(group_tids(&m, "G"), Some(vec![u]));
    assert_consistent(&m);
}

#[test]
fn update_to_new_group_moves_task() {
    let mut m = Model::new();
    let t = m.create_task(new_cmd("x", "Old", Prio::B), at(1));
    let r = process_command(
        &mut m,
        Command::Update(UpdateCommand { tid: t, group: Some("New".to_string()), prio: None, task: None }),
    );
    assert!(matches!(r, Ok(Outcome::Updated(id)) if id == t));
    assert_eq!(group_tids(&m, "Old"), None);
    assert_eq!(group_tids(&m, "New"), Some(vec![t]));
    assert_eq!(m.tasks[&t].group, "New");
    assert_consistent(&m);
}

#[test]
fn update_priority_and_name_resorts_group() {
    let mut m = Model::new();
    let a = m.create_task(new_cmd("a", "G", Prio::A), at(1));
    let b = m.create_task(new_cmd("b", "G", Prio::B), at(2));
    let r = m.update(UpdateCommand { tid: a, group: None, prio: Some(Prio::C), task: Some("renamed".to_string()) });
    assert!(r.is_ok());
    assert_eq!(group_tids(&m, "G"), Some(vec![b, a]));
    assert_eq!(m.tasks[&a].name, "renamed");
    assert_eq!(m.tasks[&a].prio, Prio::C);
    assert_consistent(&m);
}

#[test]
fn update_unknown_task_fails() {
    let mut m = Model::new();
    m.create_task(new_cmd("a", "G", Prio::A), at(1));
    let r = m.update(UpdateCommand { tid: 7, group: None, prio: Some(Prio::C), task: None });
    assert_eq!(r, Err(Error::InvalidTID("7".to_string())));
    assert_eq!(m.tasks[&0].prio, Prio::A);
}

#[test]
fn delete_unknown_group_fails_and_keeps_model() {
    let mut m = Model::new();
    let t = m.create_task(new_cmd("x", "G", Prio::B), at(1));
    let r = process_command(&mut m, Command::DeleteGroup(DeleteGroupCommand { group: "Nope".to_string() }));
    assert_eq!(r.err(), Some(Error::InvalidGroup("Nope".to_string())));
    assert_eq!(m.tasks.len(), 1);
    assert_eq!(m.groups.len(), 1);
    assert_eq!(group_tids(&m, "G"), Some(vec![t]));
    assert_eq!(m.tasks[&t].date, at(1));
}

#[test]
fn delete_group_removes_its_tasks() {
    let mut m = Model::new();
    let a = m.create_task(new_cmd("a", "G", Prio::B), at(1));
    let b = m.create_task(new_cmd("b", "G", Prio::B), at(2));
    let c = m.create_task(new_cmd("c", "H", Prio::B), at(3));
    assert!(m.delete_group(&"G".to_string()).is_ok());
    assert!(!m.tasks.contains_key(&a) && !m.tasks.contains_key(&b));
    assert_eq!(group_tids(&m, "G"), None);
    assert_eq!(group_tids(&m, "H"), Some(vec![c]));
    assert_consistent(&m);
}

#[test]
fn move_two_tasks_to_work_with_priority_a() {
    let mut m = Model::new();
    let x = m.create_task(new_cmd("x", "Home", Prio::C), at(1));
    let y = m.create_task(new_cmd("y", "Home", Prio::B), at(2));
    let w = m.create_task(new_cmd("w", "Work", Prio::B), at(0));
    let r = process_command(
        &mut m,
        Command::Move(MoveCommand { group: Some("Work".to_string()), prio: Some(Prio::A), tids: vec![x, y] }),
    );
    assert!(matches!(r, Ok(Outcome::Moved)));
    assert_eq!(m.tasks[&x].prio, Prio::A);
    assert_eq!(m.tasks[&y].prio, Prio::A);
    assert_eq!(m.tasks[&x].group, "Work");
    assert_eq!(group_tids(&m, "Home"), None);
    assert_eq!(group_tids(&m, "Work"), Some(vec![x, y, w]));
    assert_consistent(&m);
}

#[test]
fn move_with_unknown_id_changes_nothing() {
    let mut m = Model::new();
    let x = m.create_task(new_cmd("x", "Home", Prio::C), at(1));
    let r = m.move_tasks(MoveCommand { group: Some("Work".to_string()), prio: None, tids: vec![x, 9] });
    assert_eq!(r, Err(Error::InvalidTID("9".to_string())));
    assert_eq!(group_tids(&m, "Home"), Some(vec![x]));
    assert_eq!(group_tids(&m, "Work"), None);
}

#[test]
fn ids_are_distinct_and_freed_ids_reused() {
    let mut m = Model::new();
    let ids: Vec<TID> = (0..4).map(|i| m.create_task(new_cmd("t", "G", Prio::B), at(i))).collect();
    assert_eq!(ids, vec![0, 1, 2, 3]);
    assert!(m.complete(&vec![1]).is_ok());
    let n = m.create_task(new_cmd("n", "G", Prio::B), at(9));
    assert_eq!(n, 1);
    let n2 = m.create_task(new_cmd("n2", "G", Prio::B), at(10));
    assert_eq!(n2, 4);
    assert_consistent(&m);
}

#[test]
fn groups_stay_ordered_through_a_session() {
    let mut m = Model::new();
    let prios = [Prio::C, Prio::A, Prio::B, Prio::A, Prio::C, Prio::B];
    for (i, p) in prios.iter().enumerate() {
        let g = if i % 2 == 0 { "Even" } else { "Odd" };
        m.create_task(new_cmd("t", g, *p), at(10 - i as i64));
        assert_consistent(&m);
    }
    assert!(m.move_tasks(MoveCommand { group: Some("Odd".to_string()), prio: None, tids: vec![0, 2] }).is_ok());
    assert_consistent(&m);
    assert!(m.update(UpdateCommand { tid: 1, group: Some("Even".to_string()), prio: Some(Prio::C), task: None }).is_ok());
    assert_consistent(&m);
    assert!(m.complete(&vec![3]).is_ok());
    assert_consistent(&m);
    assert!(m.delete_group(&"Even".to_string()).is_ok());
    assert_consistent(&m);
}

fn listing_of(m: &mut Model, group: Option<&str>, prio: Option<Prio>) -> Result<PrintModel, Error> {
    match process_command(m, Command::List(ListCommand { group: group.map(|g| g.to_string()), prio })) {
        Ok(Outcome::Listed(pm)) => Ok(pm),
        Ok(_) => panic!("a listing was asked for"),
        Err(e) => Err(e),
    }
}

fn shown(pm: &PrintModel) -> Vec<(String, Vec<TID>)> {
    pm.groups.iter().map(|g| (g.name.clone(), g.tasks.iter().map(|t| t.tid).collect())).collect()
}

#[test]
fn listing_twice_gives_same_result() {
    let mut m = Model::new();
    m.create_task(new_cmd("a", "G", Prio::A), at(1));
    m.create_task(new_cmd("b", "H", Prio::C), at(2));
    let first = listing_of(&mut m, None, None).unwrap();
    let second = listing_of(&mut m, None, None).unwrap();
    assert_eq!(shown(&first), shown(&second));
    assert_eq!(shown(&first), vec![("G".to_string(), vec![0]), ("H".to_string(), vec![1])]);
}

#[test]
fn listing_filters_by_priority_and_group() {
    let mut m = Model::new();
    m.create_task(new_cmd("a", "G", Prio::A), at(1));
    m.create_task(new_cmd("b", "G", Prio::C), at(2));
    m.create_task(new_cmd("c", "H", Prio::C), at(3));
    let pm = listing_of(&mut m, None, Some(Prio::C)).unwrap();
    assert_eq!(shown(&pm), vec![("G".to_string(), vec![1]), ("H".to_string(), vec![2])]);
    assert!(matches!(pm.note(m.groups.len()), ListNote::Shown));
    let pm = listing_of(&mut m, Some("G"), Some(Prio::A)).unwrap();
    assert_eq!(shown(&pm), vec![("G".to_string(), vec![0])]);
    let pm = listing_of(&mut m, None, Some(Prio::B)).unwrap();
    assert!(matches!(pm.note(m.groups.len()), ListNote::NothingMatches));
}

#[test]
fn listing_empty_model_says_nothing_to_do() {
    let mut m = Model::new();
    let pm = listing_of(&mut m, None, None).unwrap();
    assert!(pm.groups.is_empty());
    assert!(matches!(pm.note(m.groups.len()), ListNote::NothingToDo));
}

#[test]
fn listing_unknown_group_fails() {
    let mut m = Model::new();
    m.create_task(new_cmd("a", "G", Prio::A), at(1));
    assert_eq!(listing_of(&mut m, Some("X"), None).err(), Some(Error::InvalidGroup("X".to_string())));
}

#[test]
fn error_messages() {
    assert_eq!(Error::InvalidTID("12".to_string()).message(), "Task ID `12` is invalid.");
    assert_eq!(Error::InvalidGroup("Work".to_string()).message(), "Invalid group name: `Work`.");
    assert_eq!(Error::InvalidArgument("-x".to_string()).message(), "Invalid argument: `-x`.");
    assert_eq!(Error::NothingToMove.message(), "Nothing to move.");
    assert_eq!(Error::TIDsMissing.message(), "The list of task IDs is missing.");
}

#[test]
fn relative_date_labels() {
    assert_eq!(age_label(0), Some("today".to_string()));
    assert_eq!(age_label(1), Some("yesterday".to_string()));
    assert_eq!(age_label(2), Some("2d ago".to_string()));
    assert_eq!(age_label(3), Some("3d ago".to_string()));
    assert_eq!(age_label(4), None);
    assert_eq!(age_label(-1), None);
}
