//! Reason texts of planned actions, stable enough for tests and human output.

use vstd::prelude::*;

verus! {

pub const EQUAL: &'static str = "equal";

pub const LOCAL_ONLY: &'static str = "local_only";

pub const REMOTE_ONLY: &'static str = "remote_only";

pub const LOCAL_NEWER: &'static str = "local_newer";

pub const REMOTE_NEWER: &'static str = "remote_newer";

pub const CONFLICT_MTIME_SIZE: &'static str = "conflict_mtime_size";

pub const CONFLICT_UNKNOWN_MTIME: &'static str = "conflict_mtime_unknown";

pub const EQUAL_UNKNOWN_MTIME: &'static str = "equal_unknown_mtime";

pub const PATH_COLLISION: &'static str = "path_collision";

pub const CASE_COLLISION: &'static str = "case_collision";

pub const FOLDER: &'static str = "folder";

pub const FORCE_LOCAL: &'static str = "force_local";

pub const FORCE_REMOTE: &'static str = "force_remote";

pub const FOLLOWED_SYMLINK: &'static str = "followed_symlink";

} // verus!
