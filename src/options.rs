use vstd::prelude::*;

verus! {

/// Settings resolved once before a run.
#[derive(Clone, Copy, Debug)]
pub struct Options {
    /// Do not report each link as it is made.
    pub silent: bool,
    /// Always link to the source path itself, even where the source is a symbolic link.
    pub ignore_links: bool,
    /// Keep version-control metadata directories instead of leaving them out.
    pub with_rev_info: bool,
    /// How deep below each source root the walk goes; `None` for no bound.
    pub max_depth: Option<u32>,
}

impl Options {
    /// All flags off and no depth bound.
    pub open spec fn is_default(&self) -> bool {
        &&& !self.silent
        &&& !self.ignore_links
        &&& !self.with_rev_info
        &&& self.max_depth is None
    }

    pub fn new() -> (r: Self)
        ensures
            r.is_default(),
    {
        Options { silent: false, ignore_links: false, with_rev_info: false, max_depth: None }
    }
}

impl Default for Options {
    fn default() -> (r: Self)
        ensures
            r.is_default(),
    {
        Options::new()
    }
}

} // verus!
