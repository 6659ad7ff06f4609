use todotui::model::{Group, Model, NewCommand, Prio, Task, Timestamp};

fn task(tid: u32, group: &str, prio: Prio, secs: i64) -> Task {
    Task { tid, name: "t".to_string(), prio, date: Timestamp { secs, nanos: 0 }, group: group.to_string() }
}

fn sample() -> Model {
    let mut m = Model::new();
    m.tasks.insert(0, task(0, "G", Prio::A, 5));
    m.tasks.insert(1, task(1, "G", Prio::B, 1));
    m.tasks.insert(2, task(2, "H", Prio::C, 1));
    m.groups.push(Group { name: "G".to_string(), tids: vec![0, 1] });
    m.groups.push(Group { name: "H".to_string(), tids: vec![2] });
    m
}

#[test]
fn consistent_models_pass() {
    assert!(Model::new().is_consistent());
    assert!(sample().is_consistent());
    let mut m = Model::new();
    for i in 0..5 {
        let g = if i % 2 == 0 { "A" } else { "B" };
        m.create_task(NewCommand { task: "x".to_string(), group: g.to_string(), prio: Prio::B }, Timestamp { secs: 10 - i, nanos: 0 });
    }
    assert!(m.is_consistent());
}

#[test]
fn unlisted_task_fails() {
    let mut m = sample();
    m.tasks.insert(3, task(3, "H", Prio::C, 1));
    assert!(!m.is_consistent());
}

#[test]
fn unknown_listed_id_fails() {
    let mut m = sample();
    m.groups[1].tids.push(9);
    assert!(!m.is_consistent());
}

#[test]
fn wrong_group_field_fails() {
    let mut m = sample();
    m.tasks.insert(2, task(2, "G", Prio::C, 1));
    assert!(!m.is_consistent());
}

#[test]
fn wrong_order_fails() {
    let mut m = sample();
    m.groups[0].tids = vec![1, 0];
    assert!(!m.is_consistent());
}

#[test]
fn empty_or_twice_named_group_fails() {
    let mut m = sample();
    m.groups.push(Group { name: "E".to_string(), tids: vec![] });
    assert!(!m.is_consistent());
    let mut m = sample();
    m.groups[1].name = "G".to_string();
    m.tasks.insert(2, task(2, "G", Prio::C, 1));
    assert!(!m.is_consistent());
}

#[test]
fn id_listed_twice_fails() {
    let mut m = sample();
    m.groups[1].tids.push(2);
    assert!(!m.is_consistent());
}

#[test]
fn mismatched_id_field_fails() {
    let mut m = sample();
    m.tasks.insert(2, task(7, "H", Prio::C, 1));
    assert!(!m.is_consistent());
}
