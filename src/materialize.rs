use vstd::prelude::*;
use crate::options::Options;

verus! {

/// What a destination path holds before its link is made, read without
/// following a final symbolic link.
#[derive(PartialEq, Eq, Structural, Clone, Copy, Debug)]
pub enum Prior {
    Absent,
    Directory,
    Other,
}

/// How a destination path is cleared before its link is made.
#[derive(PartialEq, Eq, Structural, Clone, Copy, Debug)]
pub enum Clearing {
    Nothing,
    RemoveDirectory,
    RemoveFile,
}

/// Where a new link points.
#[derive(PartialEq, Eq, Structural, Clone, Copy, Debug)]
pub enum Target {
    /// The target text of the source's own symbolic link, as it is.
    SourceLinkText,
    /// The source path itself, made absolute and canonical.
    SourcePath,
}

/// A directory is removed as a directory (it can only be an empty one); any other
/// node, a symbolic link included, is removed as a file.
pub open spec fn clearing_spec(prior: Prior) -> Clearing {
    match prior {
        Prior::Absent => Clearing::Nothing,
        Prior::Directory => Clearing::RemoveDirectory,
        Prior::Other => Clearing::RemoveFile,
    }
}

pub fn clearing_for(prior: Prior) -> (r: Clearing)
    ensures
        r == clearing_spec(prior),
{
    match prior {
        Prior::Absent => Clearing::Nothing,
        Prior::Directory => Clearing::RemoveDirectory,
        Prior::Other => Clearing::RemoveFile,
    }
}

/// What a path holds after `c` was applied to it: a removal of the matching
/// kind leaves it empty.
pub open spec fn after_clearing(prior: Prior, c: Clearing) -> Prior {
    match (prior, c) {
        (Prior::Directory, Clearing::RemoveDirectory) => Prior::Absent,
        (Prior::Other, Clearing::RemoveFile) => Prior::Absent,
        _ => prior,
    }
}

/// Whether the kind of the source node has to be read: only where links in the
/// sources are kept as they are.
pub fn inspects_source_links(options: &Options) -> (r: bool)
    ensures
        r == !options.ignore_links,
{
    !options.ignore_links
}

pub open spec fn target_spec(options: Options, source_is_link: bool) -> Target {
    if !options.ignore_links && source_is_link {
        Target::SourceLinkText
    } else {
        Target::SourcePath
    }
}

/// A source that is itself a symbolic link is linked to with its own target text,
/// unless `ignore_links` is set; anything else is linked to by its canonical path.
pub fn target_for(options: &Options, source_is_link: bool) -> (r: Target)
    ensures
        r == target_spec(*options, source_is_link),
{
    if !options.ignore_links && source_is_link {
        Target::SourceLinkText
    } else {
        Target::SourcePath
    }
}

/// Whether a line is written for each link made.
pub fn reports_links(options: &Options) -> (r: bool)
    ensures
        r == !options.silent,
{
    !options.silent
}

} // verus!
