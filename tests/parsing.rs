use todotui::model::{Command, Error, Prio};
use todotui::parse::{parse, parse_tid};

fn cli(xs: &[&str]) -> Result<Command, Error> {
    let mut args = vec!["todo".to_string()];
    args.extend(xs.iter().map(|s| s.to_string()));
    parse(&args)
}

#[test]
fn parses_new_with_group_and_priority() {
    match cli(&["-g", "Work", "write", "-a", "report"]) {
        Ok(Command::New(c)) => {
            assert_eq!(c.task, "write report");
            assert_eq!(c.group, "Work");
            assert_eq!(c.prio, Prio::A);
        },
        _ => panic!("expected a new task"),
    }
}

#[test]
fn parses_new_defaults() {
    match cli(&["buy", "milk"]) {
        Ok(Command::New(c)) => {
            assert_eq!(c.task, "buy milk");
            assert_eq!(c.group, "Default");
            assert_eq!(c.prio, Prio::B);
        },
        _ => panic!("expected a new task"),
    }
}

#[test]
fn parses_empty_line_as_listing() {
    match cli(&[]) {
        Ok(Command::List(c)) => {
            assert_eq!(c.group, None);
            assert_eq!(c.prio, None);
        },
        _ => panic!("expected a listing"),
    }
}

#[test]
fn parses_listing_with_filters() {
    match cli(&["-c", "-g", "Home"]) {
        Ok(Command::List(c)) => {
            assert_eq!(c.group, Some("Home".to_string()));
            assert_eq!(c.prio, Some(Prio::C));
        },
        _ => panic!("expected a listing"),
    }
}

#[test]
fn listing_group_without_name_fails() {
    assert_eq!(cli(&["-a", "-g"]).err(), Some(Error::GroupMissing));
}

#[test]
fn parses_done_list() {
    match cli(&["-d", "3,+4,0"]) {
        Ok(Command::Done(c)) => assert_eq!(c.tids, vec![3, 4, 0]),
        _ => panic!("expected done"),
    }
}

#[test]
fn done_errors() {
    assert_eq!(cli(&["-d"]).err(), Some(Error::TIDMissing));
    assert_eq!(cli(&["-d", "1,x"]).err(), Some(Error::InvalidTID("x".to_string())));
    assert_eq!(cli(&["-d", "1,"]).err(), Some(Error::InvalidTID("".to_string())));
    assert_eq!(cli(&["-d", "1", "extra", "words"]).err(), Some(Error::InvalidArgument("extra words".to_string())));
    assert_eq!(cli(&["-a", "-d", "1"]).err(), Some(Error::InvalidArgument("-a".to_string())));
}

#[test]
fn parses_update() {
    match cli(&["-u", "5", "-b", "new", "name"]) {
        Ok(Command::Update(c)) => {
            assert_eq!(c.tid, 5);
            assert_eq!(c.prio, Some(Prio::B));
            assert_eq!(c.group, None);
            assert_eq!(c.task, Some("new name".to_string()));
        },
        _ => panic!("expected update"),
    }
}

#[test]
fn update_errors() {
    assert_eq!(cli(&["-u", "5"]).err(), Some(Error::NothingToUpdate));
    assert_eq!(cli(&["-u"]).err(), Some(Error::TIDMissing));
    assert_eq!(cli(&["-u", "five", "-a"]).err(), Some(Error::InvalidTID("five".to_string())));
}

#[test]
fn parses_delete_group() {
    match cli(&["-dg", "Old"]) {
        Ok(Command::DeleteGroup(c)) => assert_eq!(c.group, "Old"),
        _ => panic!("expected group deletion"),
    }
    assert_eq!(cli(&["-dg"]).err(), Some(Error::GroupMissing));
    assert_eq!(cli(&["-a", "-dg", "Old"]).err(), Some(Error::InvalidArgument("-a".to_string())));
}

#[test]
fn parses_move() {
    match cli(&["-m", "1,2", "-g", "Work", "-a"]) {
        Ok(Command::Move(c)) => {
            assert_eq!(c.tids, vec![1, 2]);
            assert_eq!(c.group, Some("Work".to_string()));
            assert_eq!(c.prio, Some(Prio::A));
        },
        _ => panic!("expected move"),
    }
}

#[test]
fn move_errors() {
    assert_eq!(cli(&["-m", "1"]).err(), Some(Error::NothingToMove));
    assert_eq!(cli(&["-a", "-m"]).err(), Some(Error::TIDsMissing));
    assert_eq!(cli(&["-m", "1", "-g", "W", "x"]).err(), Some(Error::InvalidArgument("x".to_string())));
    assert_eq!(cli(&["-m", "1;2", "-c"]).err(), Some(Error::InvalidTID("1;2".to_string())));
}

#[test]
fn task_ids_read_as_decimal() {
    assert_eq!(parse_tid("0"), Some(0));
    assert_eq!(parse_tid("+17"), Some(17));
    assert_eq!(parse_tid("4294967295"), Some(4294967295));
    assert_eq!(parse_tid("4294967296"), None);
    assert_eq!(parse_tid(""), None);
    assert_eq!(parse_tid("+"), None);
    assert_eq!(parse_tid("-1"), None);
    assert_eq!(parse_tid("1a"), None);
}
