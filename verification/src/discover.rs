//! The rule by which a walk through a directory treats what it meets.

use vstd::prelude::*;

verus! {

/// What to do with an entry of a directory.
#[derive(Clone, Copy, Debug, PartialEq, Eq, Structural)]
pub enum Visit {
    /// A directory: walk through it.
    Descend,
    /// A file to list.
    Take,
    /// A file to pass over.
    Skip,
}

/// Whether `name` starts with a dot.
pub open spec fn is_dot_name(name: Seq<char>) -> bool {
    name.len() > 0 && name[0] == '.'
}

/// The rule: every directory is walked through, whatever its name; a file is
/// listed unless its name starts with a dot and dot files are left out.
pub open spec fn visit_of(is_dir: bool, name: Seq<char>, include_dot_files: bool) -> Visit {
    if is_dir {
        Visit::Descend
    } else if is_dot_name(name) && !include_dot_files {
        Visit::Skip
    } else {
        Visit::Take
    }
}

/// Decides what to do with the entry called `name`.
pub fn visit_entry(is_dir: bool, name: &str, include_dot_files: bool) -> (visit: Visit)
    ensures
        visit == visit_of(is_dir, name@, include_dot_files),
{
    if is_dir {
        Visit::Descend
    } else if !include_dot_files && !name.is_empty() && name.get_char(0) == '.' {
        Visit::Skip
    } else {
        Visit::Take
    }
}

} // verus!
