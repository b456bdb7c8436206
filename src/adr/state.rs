use vstd::prelude::*;
use super::directory::Directory;
use super::paths::{join_paths, joined_path, paths_equal, same_path};

verus! {

/// Why an ADR command could not go on.
#[derive(Clone, Copy, Debug, PartialEq, Eq, Structural)]
pub enum AdrError {
    /// No directory has been set up yet.
    NotInitialized,
    /// No directory fits the name or the working directory.
    NoDirectory,
    /// A directory with this path is already registered.
    PathExists,
    /// A directory with this name is already registered.
    NameExists,
    /// The directory does not lie under the project root.
    OutsideRoot,
}

impl AdrError {
    /// The text the error is reported with.
    pub fn message(&self) -> (r: &'static str)
        ensures
            r@ == match *self {
                AdrError::NotInitialized => "please set up an adr dir using the `init` command"@,
                AdrError::NoDirectory => "no adr directory could be determined"@,
                AdrError::PathExists => "path already exists"@,
                AdrError::NameExists => "name already exists"@,
                AdrError::OutsideRoot => "path is not correct"@,
            },
    {
        match self {
            AdrError::NotInitialized => "please set up an adr dir using the `init` command",
            AdrError::NoDirectory => "no adr directory could be determined",
            AdrError::PathExists => "path already exists",
            AdrError::NameExists => "name already exists",
            AdrError::OutsideRoot => "path is not correct",
        }
    }
}

/// The registered record directories, and the project root they are
/// relative to.
#[derive(Debug)]
pub struct State {
    pub dirs: Vec<Directory>,
    pub path: String,
}

/// Index of the first directory named `name`.
pub open spec fn first_named(dirs: Seq<Directory>, name: Seq<char>, k: int) -> Option<int>
    decreases dirs.len() - k,
{
    if k < 0 || k >= dirs.len() {
        None
    } else if dirs[k].name@ == name {
        Some(k)
    } else {
        first_named(dirs, name, k + 1)
    }
}

/// Index of the first directory whose full path, under `root`, is `cwd`.
pub open spec fn first_at(dirs: Seq<Directory>, root: Seq<char>, cwd: Seq<char>, k: int) -> Option<int>
    decreases dirs.len() - k,
{
    if k < 0 || k >= dirs.len() {
        None
    } else if same_path(cwd, joined_path(root, dirs[k].path@)) {
        Some(k)
    } else {
        first_at(dirs, root, cwd, k + 1)
    }
}

/// The directory meant where none is named: the one the working directory
/// is, or else the only one there is.
pub open spec fn current_index(dirs: Seq<Directory>, root: Seq<char>, cwd: Seq<char>) -> Option<int> {
    match first_at(dirs, root, cwd, 0) {
        Some(k) => Some(k),
        None => if dirs.len() == 1 {
            Some(0)
        } else {
            None
        },
    }
}

/// The directory a command works on: the one named, or else the current one.
pub open spec fn chosen_index(s: State, name: Option<Seq<char>>, cwd: Seq<char>) -> Option<int> {
    match name {
        Some(n) => first_named(s.dirs@, n, 0),
        None => current_index(s.dirs@, s.path@, cwd),
    }
}

pub open spec fn opt_string_view(s: Option<String>) -> Option<Seq<char>> {
    match s {
        Some(x) => Some(x@),
        None => None,
    }
}

/// What refuses a new directory: a registered one with the same path, then
/// one with the same name.
pub open spec fn conflict(dirs: Seq<Directory>, path: Seq<char>, name: Seq<char>) -> Option<AdrError> {
    if exists|k: int| 0 <= k < dirs.len() && same_path(#[trigger] dirs[k].path@, path) {
        Some(AdrError::PathExists)
    } else if exists|k: int| 0 <= k < dirs.len() && #[trigger] dirs[k].name@ == name {
        Some(AdrError::NameExists)
    } else {
        None
    }
}

fn str_eq(a: &str, b: &str) -> (r: bool)
    ensures
        r == (a@ == b@),
{
    let x = crate::markdown::text::chars_of(a);
    let y = crate::markdown::text::chars_of(b);
    if x.len() != y.len() {
        return false;
    }
    let mut k: usize = 0;
    while k < x.len()
        invariant
            k <= x.len() == y.len(),
            x@ == a@,
            y@ == b@,
            forall|j: int| 0 <= j < k ==> x@[j] == y@[j],
        decreases x.len() - k,
    {
        if x[k] != y[k] {
            assert(x@[k as int] != y@[k as int]);
            return false;
        }
        k += 1;
    }
    assert(x@ =~= y@);
    true
}

impl State {
    pub fn new(path: String) -> (r: State)
        ensures
            r.dirs@.len() == 0,
            r.path@ == path@,
    {
        State { dirs: Vec::new(), path }
    }

    /// Sets the project root, and each directory's full path under it.
    pub fn set_path(&mut self, path: String)
        ensures
            final(self).path@ == path@,
            final(self).dirs@.len() == old(self).dirs@.len(),
            forall|k: int|
                0 <= k < old(self).dirs@.len() ==> {
                    let a = #[trigger] final(self).dirs@[k];
                    let b = old(self).dirs@[k];
                    &&& a.path@ == b.path@
                    &&& a.name@ == b.name@
                    &&& a.index == b.index
                    &&& a.full_path@ == joined_path(path@, b.path@)
                },
    {
        let mut dirs: Vec<Directory> = Vec::new();
        let mut k: usize = 0;
        while k < self.dirs.len()
            invariant
                k <= self.dirs.len(),
                self.dirs@ == old(self).dirs@,
                dirs@.len() == k,
                forall|j: int|
                    0 <= j < k ==> {
                        let a = #[trigger] dirs@[j];
                        let b = old(self).dirs@[j];
                        &&& a.path@ == b.path@
                        &&& a.name@ == b.name@
                        &&& a.index == b.index
                        &&& a.full_path@ == joined_path(path@, b.path@)
                    },
            decreases self.dirs.len() - k,
        {
            let d = &self.dirs[k];
            let full_path = join_paths(path.as_str(), d.path.as_str());
            dirs.push(
                Directory {
                    path: d.path.clone(),
                    name: d.name.clone(),
                    index: d.index,
                    full_path,
                },
            );
            k += 1;
        }
        self.dirs = dirs;
        self.path = path;
    }

    /// The directory a command works on: the one named, or else the one the
    /// working directory `cwd` is, or else the only one.
    pub fn get_dir(&self, name: &Option<String>, cwd: &str) -> (r: Option<&Directory>)
        ensures
            match chosen_index(*self, opt_string_view(*name), cwd@) {
                Some(k) => 0 <= k < self.dirs@.len() && r == Some(&self.dirs@[k]),
                None => r is None,
            },
    {
        match name {
            Some(x) => self.get_named_dir(x.as_str()),
            None => self.get_current_dir(cwd),
        }
    }

    /// The first directory named `name`.
    pub fn get_named_dir(&self, name: &str) -> (r: Option<&Directory>)
        ensures
            match first_named(self.dirs@, name@, 0) {
                Some(k) => 0 <= k < self.dirs@.len() && r == Some(&self.dirs@[k]),
                None => r is None,
            },
    {
        let mut k: usize = 0;
        while k < self.dirs.len()
            invariant
                k <= self.dirs.len(),
                first_named(self.dirs@, name@, k as int) == first_named(self.dirs@, name@, 0),
            decreases self.dirs.len() - k,
        {
            if str_eq(self.dirs[k].name.as_str(), name) {
                return Some(&self.dirs[k]);
            }
            k += 1;
        }
        None
    }

    /// The directory the working directory `cwd` is, or else the only one.
    pub fn get_current_dir(&self, cwd: &str) -> (r: Option<&Directory>)
        ensures
            match current_index(self.dirs@, self.path@, cwd@) {
                Some(k) => 0 <= k < self.dirs@.len() && r == Some(&self.dirs@[k]),
                None => r is None,
            },
    {
        let mut k: usize = 0;
        while k < self.dirs.len()
            invariant
                k <= self.dirs.len(),
                first_at(self.dirs@, self.path@, cwd@, k as int) == first_at(
                    self.dirs@,
                    self.path@,
                    cwd@,
                    0,
                ),
            decreases self.dirs.len() - k,
        {
            let full = join_paths(self.path.as_str(), self.dirs[k].path.as_str());
            if paths_equal(cwd, full.as_str()) {
                return Some(&self.dirs[k]);
            }
            k += 1;
        }
        if self.dirs.len() == 1 {
            return Some(&self.dirs[0]);
        }
        None
    }

    /// Refuses a directory whose path, or else whose name, is registered.
    pub fn validate_dir(&self, dir: &Directory) -> (r: Result<(), AdrError>)
        ensures
            match conflict(self.dirs@, dir.path@, dir.name@) {
                Some(e) => r == Err::<(), AdrError>(e),
                None => r is Ok,
            },
    {
        let mut k: usize = 0;
        while k < self.dirs.len()
            invariant
                k <= self.dirs.len(),
                forall|j: int| 0 <= j < k ==> !same_path(#[trigger] self.dirs@[j].path@, dir.path@),
            decreases self.dirs.len() - k,
        {
            if paths_equal(self.dirs[k].path.as_str(), dir.path.as_str()) {
                return Err(AdrError::PathExists);
            }
            k += 1;
        }
        let mut k: usize = 0;
        while k < self.dirs.len()
            invariant
                k <= self.dirs.len(),
                forall|j: int| 0 <= j < self.dirs@.len() ==> !same_path(#[trigger] self.dirs@[j].path@, dir.path@),
                forall|j: int| 0 <= j < k ==> #[trigger] self.dirs@[j].name@ != dir.name@,
            decreases self.dirs.len() - k,
        {
            if str_eq(self.dirs[k].name.as_str(), dir.name.as_str()) {
                return Err(AdrError::NameExists);
            }
            k += 1;
        }
        Ok(())
    }

    /// Registers a directory unless `validate_dir` refuses it.
    pub fn add_dir(&mut self, dir: Directory) -> (r: Result<(), AdrError>)
        ensures
            match conflict(old(self).dirs@, dir.path@, dir.name@) {
                Some(e) => r == Err::<(), AdrError>(e) && final(self).dirs@ == old(self).dirs@,
                None => r is Ok && final(self).dirs@ == old(self).dirs@.push(dir),
            },
            final(self).path == old(self).path,
    {
        match self.validate_dir(&dir) {
            Err(e) => Err(e),
            Ok(()) => {
                self.dirs.push(dir);
                Ok(())
            },
        }
    }
}

} // verus!
