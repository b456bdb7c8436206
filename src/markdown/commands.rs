use vstd::prelude::*;

verus! {

/// Reflowing the markdown files at a path.
#[derive(Debug)]
pub struct FmtCmd {
    pub path: String,
    pub recursive: bool,
    pub dry_run: bool,
}

impl FmtCmd {
    /// Directories are not formatted yet: nothing is done.
    pub fn scan_dir(&self) -> (r: Result<(), String>)
        ensures
            r is Ok,
    {
        Ok(())
    }
}

/// Linting the markdown files at a path.
#[derive(Debug)]
pub struct LintArgs {
    pub path: String,
    pub recursive: bool,
}

impl LintArgs {
    /// The lint command is not wired to any linter yet: nothing is done.
    pub fn handle(self) -> (r: Result<(), String>)
        ensures
            r is Ok,
    {
        Ok(())
    }
}

} // verus!
