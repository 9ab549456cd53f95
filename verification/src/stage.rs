//! Staging paths for the reconstructed file bodies.
//!
//! Each change gets two paths under one run-scoped root: the "new" path is
//! named by the change's filename, and the "original" path by the change's
//! effective source name behind a fixed prefix, so the two can never
//! collide.  Paths are joined with `/`.  Creating the directories and
//! writing the bodies is the caller's work.

use crate::change_set::Change;
use vstd::prelude::*;

verus! {

/// The two staging paths of one change.
#[derive(Debug)]
pub struct StagedPair {
    pub original: String,
    pub new: String,
}

/// The name the pre-change body is staged under: the previous filename when
/// the change is a rename, and the filename otherwise.
pub open spec fn source_name(c: Change) -> Seq<char> {
    match c.previous_filename {
        Some(p) => p@,
        None => c.filename@,
    }
}

/// The staging path of the pre-change body.
pub open spec fn original_path(root: Seq<char>, c: Change) -> Seq<char> {
    root + seq!['/'] + "base_"@ + source_name(c)
}

/// The staging path of the post-change body.
pub open spec fn new_path(root: Seq<char>, c: Change) -> Seq<char> {
    root + seq!['/'] + c.filename@
}

/// The two staging paths of `change` under `root`.
pub fn staged_paths(root: &str, change: &Change) -> (r: StagedPair)
    ensures
        r.original@ == original_path(root@, *change),
        r.new@ == new_path(root@, *change),
{
    proof {
        reveal_strlit("/");
    }
    let mut original = root.to_owned();
    original.append("/");
    proof {
        assert("/"@ =~= seq!['/']);
    }
    original.append("base_");
    match &change.previous_filename {
        Some(p) => original.append(p.as_str()),
        None => original.append(change.filename.as_str()),
    }
    let mut new = root.to_owned();
    new.append("/");
    new.append(change.filename.as_str());
    proof {
        assert(original@ =~= original_path(root@, *change));
        assert(new@ =~= new_path(root@, *change));
    }
    StagedPair { original, new }
}

} // verus!
