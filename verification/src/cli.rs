//! The dispatcher's decisions: what each subcommand does to the active set,
//! whether the hosts file is re-rendered, and whether a profile file is
//! deleted. Running the plan (reading, writing, spawning the editor) is
//! left to the surrounding program.

use vstd::prelude::*;
use crate::active::{inserted, removed, lemma_removed_noop};
use crate::scan::name_views;

verus! {

/// One invocation's subcommand, with its profile name where it takes one.
pub enum Command {
    List,
    Show,
    Get(Vec<u8>),
    Edit(Vec<u8>),
    Use(Vec<u8>),
    Un(Vec<u8>),
    Rm(Vec<u8>),
}

/// What one invocation decides: the active set to persist, whether the
/// hosts file must be rewritten, and whether the profile file must be
/// deleted afterwards.
pub struct Outcome {
    pub active: Vec<Vec<u8>>,
    pub render: bool,
    pub delete: bool,
}

/// The state transition of one subcommand over the scanned active set.
///
/// `list`, `show` and `get` change nothing. `set` re-renders exactly when
/// the edited name was already active. `use` appends the name unless it is
/// present; `un` drops every occurrence; both re-render. `rm` drops the
/// name and re-renders only if it was active, and always asks for the file
/// to be deleted.
pub fn plan_command(cmd: Command, active: Vec<Vec<u8>>) -> (o: Outcome)
    ensures
        match cmd {
            Command::List | Command::Show | Command::Get(_) => o.active@ == active@ && !o.render
                && !o.delete,
            Command::Edit(n) => o.active@ == active@ && o.render == name_views(active@).contains(n@)
                && !o.delete,
            Command::Use(n) => name_views(o.active@) == inserted(name_views(active@), n@)
                && o.render && !o.delete,
            Command::Un(n) => name_views(o.active@) == removed(name_views(active@), n@) && o.render
                && !o.delete,
            Command::Rm(n) => name_views(o.active@) == removed(name_views(active@), n@) && o.render
                == name_views(active@).contains(n@) && o.delete,
        },
{
    match cmd {
        Command::List => Outcome { active, render: false, delete: false },
        Command::Show => Outcome { active, render: false, delete: false },
        Command::Get(_) => Outcome { active, render: false, delete: false },
        Command::Edit(n) => {
            let r = crate::scan::contains_name(&active, &n);
            Outcome { active, render: r, delete: false }
        },
        Command::Use(n) => {
            let mut a = active;
            crate::active::use_hostname(&mut a, n);
            Outcome { active: a, render: true, delete: false }
        },
        Command::Un(n) => {
            let a = crate::active::unuse_hostname(&active, &n);
            Outcome { active: a, render: true, delete: false }
        },
        Command::Rm(n) => {
            let present = crate::scan::contains_name(&active, &n);
            if present {
                let a = crate::active::unuse_hostname(&active, &n);
                Outcome { active: a, render: true, delete: true }
            } else {
                proof {
                    lemma_removed_noop(name_views(active@), n@);
                }
                Outcome { active, render: false, delete: true }
            }
        },
    }
}

} // verus!
