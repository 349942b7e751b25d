//! Deciding whether a directory holds a cgroup v2 unified hierarchy.
//!
//! The decision is made from what was found on disk: whether the root is a
//! directory, whether it has a `cgroup.controllers` file, and, for each
//! controller that a v1 host mounts separately, whether that controller's
//! directory has a `tasks` file.

use vstd::prelude::*;

use crate::text::push_str;

verus! {

/// Why a root was refused.
pub enum CgroupError {
    /// The root does not exist or is not a directory.
    NotADirectory { root: String },
    /// The root holds a cgroup v1 hierarchy.
    CgroupV1 { root: String },
    /// The root holds no `cgroup.controllers` file and looks like no v1 hierarchy.
    NotCgroupV2 { root: String },
}

/// The message that reports an error.
pub open spec fn error_text(e: CgroupError) -> Seq<char> {
    match e {
        CgroupError::NotADirectory { root } => root@ + " does not exist or is not a directory"@,
        CgroupError::CgroupV1 { root } => root@
            + " is a cgroup v1 hierarchy; cgtree only supports cgroup v2 (unified)"@,
        CgroupError::NotCgroupV2 { root } => root@
            + " does not look like a cgroup v2 hierarchy (no cgroup.controllers file)"@,
    }
}

impl CgroupError {
    /// The message that reports this error.
    pub fn message(&self) -> (r: String)
        ensures
            r@ == error_text(*self),
    {
        match self {
            CgroupError::NotADirectory { root } => {
                let mut s = root.clone();
                push_str(&mut s, " does not exist or is not a directory");
                s
            },
            CgroupError::CgroupV1 { root } => {
                let mut s = root.clone();
                push_str(
                    &mut s,
                    " is a cgroup v1 hierarchy; cgtree only supports cgroup v2 (unified)",
                );
                s
            },
            CgroupError::NotCgroupV2 { root } => {
                let mut s = root.clone();
                push_str(
                    &mut s,
                    " does not look like a cgroup v2 hierarchy (no cgroup.controllers file)",
                );
                s
            },
        }
    }
}

/// On a v1 host the root holds one hierarchy per controller, each with a
/// `tasks` file; these are the controllers whose directories are looked at.
pub fn v1_controllers() -> (r: Vec<&'static str>)
    ensures
        r@.len() == 6,
        r@[0]@ == "cpu"@,
        r@[1]@ == "memory"@,
        r@[2]@ == "cpuset"@,
        r@[3]@ == "pids"@,
        r@[4]@ == "blkio"@,
        r@[5]@ == "freezer"@,
{
    let mut r: Vec<&'static str> = Vec::new();
    r.push("cpu");
    r.push("memory");
    r.push("cpuset");
    r.push("pids");
    r.push("blkio");
    r.push("freezer");
    r
}

/// Errors unless the root looks like a cgroup v2 unified hierarchy.
///
/// `root` is the root as displayed; `v1_tasks[i]` tells whether the `i`-th of
/// [`v1_controllers`] has a `tasks` file under the root.
pub fn ensure_v2(root: &str, is_dir: bool, has_controllers: bool, v1_tasks: &[bool]) -> (r: Result<
    (),
    CgroupError,
>)
    ensures
        match r {
            Ok(()) => is_dir && has_controllers,
            Err(CgroupError::NotADirectory { root: shown }) => !is_dir && shown@ == root@,
            Err(CgroupError::CgroupV1 { root: shown }) => is_dir && !has_controllers
                && v1_tasks@.contains(true) && shown@ == root@,
            Err(CgroupError::NotCgroupV2 { root: shown }) => is_dir && !has_controllers
                && !v1_tasks@.contains(true) && shown@ == root@,
        },
{
    if !is_dir {
        return Err(CgroupError::NotADirectory { root: root.to_owned() });
    }
    if has_controllers {
        return Ok(());
    }
    let mut i: usize = 0;
    while i < v1_tasks.len()
        invariant
            i <= v1_tasks@.len(),
            is_dir,
            !has_controllers,
            forall|k: int| 0 <= k < i ==> !v1_tasks@[k],
        decreases v1_tasks@.len() - i,
    {
        if v1_tasks[i] {
            assert(v1_tasks@.contains(true)) by {
                assert(v1_tasks@[i as int] == true);
            }
            return Err(CgroupError::CgroupV1 { root: root.to_owned() });
        }
        i = i + 1;
    }
    assert(!v1_tasks@.contains(true));
    Err(CgroupError::NotCgroupV2 { root: root.to_owned() })
}

} // verus!
