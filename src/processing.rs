//! One command applied to a model.
use crate::clock::now;
use crate::model::{opt_text, wf, Command, Error, Model, TaskView, Timestamp, TID};
use crate::store::{
    completes, created, deletes_group, is_fresh_tid, lists, moves, updates,
};
use crate::display::PrintModel;
use vstd::prelude::*;

verus! {

/// What a command that succeeded has to show.
pub enum Outcome {
    /// A task was created under this id.
    Created(TID),
    /// The listing asked for.
    Listed(PrintModel),
    /// The tasks were completed.
    Completed,
    /// The task of this id took the changes.
    Updated(TID),
    /// The tasks were moved.
    Moved,
    /// The group was deleted with its tasks.
    GroupDeleted,
}

/// A result without what it carries.
pub open spec fn plain(r: Result<Outcome, Error>) -> Result<(), Error> {
    match r {
        Ok(_) => Ok(()),
        Err(e) => Err(e),
    }
}

/// Applies `command` to `model`. A new task is dated now.
pub fn process_command(model: &mut Model, command: Command) -> (r: Result<Outcome, Error>)
    requires
        wf(old(model)@),
        command is New ==> old(model)@.tasks.len() < TID::MAX,
    ensures
        wf(final(model)@),
        match command {
            Command::New(c) => r is Ok && r->Ok_0 is Created && is_fresh_tid(
                old(model)@,
                r->Ok_0->Created_0,
            ) && exists|d: Timestamp|
                final(model)@ == created(
                    old(model)@,
                    TaskView {
                        tid: r->Ok_0->Created_0,
                        name: c.task@,
                        prio: c.prio,
                        date: d,
                        group: c.group@,
                    },
                ),
            Command::List(c) => final(model)@ == old(model)@ && match r {
                Ok(Outcome::Listed(pm)) => lists(old(model)@, opt_text(c.group), c.prio, Ok(pm)),
                Ok(_) => false,
                Err(e) => lists(old(model)@, opt_text(c.group), c.prio, Err(e)),
            },
            Command::Done(c) => completes(old(model)@, c.tids@, plain(r), final(model)@) && (r is Ok
                ==> r->Ok_0 is Completed),
            Command::Update(c) => updates(
                old(model)@,
                c.tid,
                opt_text(c.group),
                c.prio,
                opt_text(c.task),
                plain(r),
                final(model)@,
            ) && (r is Ok ==> r->Ok_0 is Updated && r->Ok_0->Updated_0 == c.tid),
            Command::DeleteGroup(c) => deletes_group(old(model)@, c.group@, plain(r), final(model)@)
                && (r is Ok ==> r->Ok_0 is GroupDeleted),
            Command::Move(c) => moves(
                old(model)@,
                c.tids@,
                opt_text(c.group),
                c.prio,
                plain(r),
                final(model)@,
            ) && (r is Ok ==> r->Ok_0 is Moved),
        },
{
    match command {
        Command::New(c) => {
            let date = now();
            let tid = model.create_task(c, date);
            Ok(Outcome::Created(tid))
        },
        Command::List(c) => match model.list(&c) {
            Ok(pm) => Ok(Outcome::Listed(pm)),
            Err(e) => Err(e),
        },
        Command::Done(c) => match model.complete(&c.tids) {
            Ok(()) => Ok(Outcome::Completed),
            Err(e) => Err(e),
        },
        Command::Update(c) => {
            let tid = c.tid;
            match model.update(c) {
                Ok(()) => Ok(Outcome::Updated(tid)),
                Err(e) => Err(e),
            }
        },
        Command::DeleteGroup(c) => match model.delete_group(&c.group) {
            Ok(()) => Ok(Outcome::GroupDeleted),
            Err(e) => Err(e),
        },
        Command::Move(c) => match model.move_tasks(c) {
            Ok(()) => Ok(Outcome::Moved),
            Err(e) => Err(e),
        },
    }
}

} // verus!
