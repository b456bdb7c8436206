use vstd::prelude::*;
use crate::adr;

verus! {

/// Everything the tool keeps about a project: its record directories and
/// the project root.
#[derive(Debug)]
pub struct State {
    pub adr: adr::state::State,
    pub path: String,
}

impl State {
    /// A state with no directories, rooted at `path`.
    pub fn new(path: String) -> (r: State)
        ensures
            r.adr.dirs@.len() == 0,
            r.adr.path@ == path@,
            r.path@ == path@,
    {
        let p = path.clone();
        State { adr: adr::state::State::new(p), path }
    }
}

} // verus!
