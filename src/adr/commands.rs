use vstd::prelude::*;
use super::directory::{Directory, IndexType};
use super::paths::{component_count, is_parent_path, path_is_parent, relative_to, without_components};
use super::state::{chosen_index, opt_string_view, AdrError, State};

verus! {

/// The directory a command is meant for: none while no directory is set up;
/// else the one named, or the current one, if there is one.
pub open spec fn selected(s: State, name: Option<Seq<char>>, cwd: Seq<char>) -> Result<int, AdrError> {
    if s.dirs@.len() == 0 {
        Err(AdrError::NotInitialized)
    } else {
        match chosen_index(s, name, cwd) {
            Some(k) => Ok(k),
            None => Err(AdrError::NoDirectory),
        }
    }
}

fn select_dir<'a>(state: &'a State, name: &Option<String>, cwd: &str) -> (r: Result<
    &'a Directory,
    AdrError,
>)
    ensures
        match selected(*state, opt_string_view(*name), cwd@) {
            Ok(k) => 0 <= k < state.dirs@.len() && r == Ok::<&Directory, AdrError>(&state.dirs@[k]),
            Err(e) => r == Err::<&Directory, AdrError>(e),
        },
{
    if state.dirs.len() == 0 {
        return Err(AdrError::NotInitialized);
    }
    match state.get_dir(name, cwd) {
        None => Err(AdrError::NoDirectory),
        Some(x) => Ok(x),
    }
}

/// Creating a record: its title, and the name of the directory it goes to.
#[derive(Debug)]
pub struct NewCmd {
    pub name: String,
    pub dir_name: Option<String>,
}

impl NewCmd {
    pub fn new(name: &str, dir: &str) -> (r: NewCmd)
        ensures
            r.name@ == name@,
            opt_string_view(r.dir_name) == Some(dir@),
    {
        NewCmd { name: String::from_str(name), dir_name: Some(String::from_str(dir)) }
    }

    /// The directory the new record goes to, `cwd` being the working
    /// directory.
    pub fn handle<'a>(&self, state: &'a State, cwd: &str) -> (r: Result<&'a Directory, AdrError>)
        ensures
            match selected(*state, opt_string_view(self.dir_name), cwd@) {
                Ok(k) => 0 <= k < state.dirs@.len() && r == Ok::<&Directory, AdrError>(&state.dirs@[k]),
                Err(e) => r == Err::<&Directory, AdrError>(e),
            },
    {
        select_dir(state, &self.dir_name, cwd)
    }
}

/// Listing the records of a directory, by its name.
#[derive(Debug)]
pub struct ListArgs {
    pub name: Option<String>,
}

impl ListArgs {
    /// The directory whose records are listed, `cwd` being the working
    /// directory.
    pub fn handle<'a>(&self, state: &'a State, cwd: &str) -> (r: Result<&'a Directory, AdrError>)
        ensures
            match selected(*state, opt_string_view(self.name), cwd@) {
                Ok(k) => 0 <= k < state.dirs@.len() && r == Ok::<&Directory, AdrError>(&state.dirs@[k]),
                Err(e) => r == Err::<&Directory, AdrError>(e),
            },
    {
        select_dir(state, &self.name, cwd)
    }
}

/// Setting up a directory of records.
#[derive(Debug)]
pub struct InitCmd {
    pub dir: String,
    pub name: String,
    pub index_type: IndexType,
}

/// What carries out an `init` command. Implemented outside the library,
/// where the files are; what it returns depends on the file system, so no
/// contract is stated for it.
pub trait InitHandler {
    fn handle_cmd(&self, cmd: InitCmd) -> Result<(), String>;
}

impl InitCmd {
    /// Hands the command, unchanged, to its handler and returns what the
    /// handler returns.
    pub fn handle<T: InitHandler>(self, h: T) -> (r: Result<(), String>) {
        h.handle_cmd(self)
    }
}

/// Registers a new directory at `canon_path`, which must lie under the
/// project root, unless its path relative to the root, or its name, is taken.
pub fn register_dir(state: &mut State, canon_path: &str, name: &str, index: IndexType) -> (r: Result<
    (),
    AdrError,
>)
    ensures
        !is_parent_path(old(state).path@, canon_path@) ==> r == Err::<(), AdrError>(AdrError::OutsideRoot)
            && final(state).dirs@ == old(state).dirs@,
        is_parent_path(old(state).path@, canon_path@) ==> {
            let relative = without_components(canon_path@, component_count(old(state).path@));
            match super::state::conflict(old(state).dirs@, relative, name@) {
                Some(e) => r == Err::<(), AdrError>(e) && final(state).dirs@ == old(state).dirs@,
                None => r is Ok && final(state).dirs@.len() == old(state).dirs@.len() + 1
                    && final(state).dirs@.take(old(state).dirs@.len() as int) == old(state).dirs@
                    && final(state).dirs@.last().path@ == relative
                    && final(state).dirs@.last().name@ == name@
                    && final(state).dirs@.last().index == index
                    && final(state).dirs@.last().full_path@ == canon_path@,
            }
        },
        final(state).path == old(state).path,
{
    if !path_is_parent(state.path.as_str(), canon_path) {
        return Err(AdrError::OutsideRoot);
    }
    let relative = relative_to(state.path.as_str(), canon_path);
    let d = Directory {
        path: relative,
        name: String::from_str(name),
        index,
        full_path: String::from_str(canon_path),
    };
    let r = state.add_dir(d);
    proof {
        if r is Ok {
            assert(final(state).dirs@.take(old(state).dirs@.len() as int) =~= old(state).dirs@);
        }
    }
    r
}

} // verus!
