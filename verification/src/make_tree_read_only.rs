//! Hardening a freshly fetched artifact tree.
//!
//! After a successful fetch, every entry under the artifact's directory
//! is made read-only so the cached payload cannot be silently edited
//! afterward: files and directories lose their write bits, children
//! before their parent directory. Symlinks are never followed and never
//! themselves modified, and the top folder's own permissions are left
//! alone so the caller can still rename within its parent. The
//! traversal decisions are verified; each metadata read, directory
//! listing and permission change is one trusted call, and the walk
//! returns a ghost trace of all three kinds of step, with its contract
//! tying them together.

use vstd::prelude::*;

use crate::dotslash_cache::is_path_ancestor;
use crate::paths::{join_path, spec_join};
use crate::sys::{lstat_path, read_dir_names, set_permissions_path, StatOutcome};

verus! {

/// What kind of entry a mode word describes, as far as the walk cares:
/// a symlink is skipped, a directory is walked then marked, anything
/// else is marked directly.
#[derive(Clone, Copy, Debug, PartialEq, Eq, Structural)]
pub enum EntryKind {
    Symlink,
    Directory,
    Other,
}

/// Classifies a raw mode word by its file-type bits.
pub open spec fn spec_entry_kind(mode: u32) -> EntryKind {
    if mode & 0o170000 == 0o120000 {
        EntryKind::Symlink
    } else if mode & 0o170000 == 0o040000 {
        EntryKind::Directory
    } else {
        EntryKind::Other
    }
}

/// Classifies a raw mode word by its file-type bits.
pub fn entry_kind(mode: u32) -> (k: EntryKind)
    ensures
        k == spec_entry_kind(mode),
{
    if mode & 0o170000 == 0o120000 {
        EntryKind::Symlink
    } else if mode & 0o170000 == 0o040000 {
        EntryKind::Directory
    } else {
        EntryKind::Other
    }
}

/// The permission bits of a mode word with every write bit removed.
pub open spec fn spec_readonly_bits(mode: u32) -> u32 {
    mode & 0o7555
}

/// Strips the write bits from a mode word's permission part: the result
/// has no write bit, and the read, execute and special bits are exactly
/// those of `mode`.
pub fn readonly_bits(mode: u32) -> (r: u32)
    ensures
        r == spec_readonly_bits(mode),
        r & 0o222 == 0,
        r & 0o555 == mode & 0o555,
        r & 0o7000 == mode & 0o7000,
{
    let r = mode & 0o7555;
    proof {
        assert((mode & 0o7555) & 0o222 == 0) by (bit_vector);
        assert((mode & 0o7555) & 0o555 == mode & 0o555) by (bit_vector);
        assert((mode & 0o7555) & 0o7000 == mode & 0o7000) by (bit_vector);
    }
    r
}

/// The two directory self-references that a raw directory listing
/// contains and the walk must not follow.
pub open spec fn is_dot_entry(name: Seq<char>) -> bool {
    name == seq!['.'] || name == seq!['.', '.']
}

/// Whether a directory entry name is `.` or `..`.
pub fn is_dot_name(name: &str) -> (r: bool)
    ensures
        r == is_dot_entry(name@),
{
    let n = name.unicode_len();
    if n == 1 {
        let c = name.get_char(0);
        proof {
            if c == '.' {
                assert(name@ =~= seq!['.']);
            }
        }
        c == '.'
    } else if n == 2 {
        let c0 = name.get_char(0);
        let c1 = name.get_char(1);
        proof {
            if c0 == '.' && c1 == '.' {
                assert(name@ =~= seq!['.', '.']);
            }
        }
        c0 == '.' && c1 == '.'
    } else {
        false
    }
}

/// Why hardening stopped: the metadata of an entry could not be read,
/// a directory could not be listed, permissions could not be set, or
/// the walk exceeded its step bound. The bound exists so that the walk
/// provably terminates; no real tree comes near it.
#[derive(Debug)]
pub enum TreeError {
    Metadata { path: String },
    ReadDir { path: String },
    SetPermissions { path: String },
    WalkLimit,
}

/// One step of the hardening walk, recorded in the ghost trace.
pub enum WalkEvent {
    /// A directory listing was read at `path`; `names` are the entry
    /// names it returned, dot entries included.
    Listed { path: Seq<char>, names: Seq<Seq<char>> },
    /// The metadata of `path` was read, without following symlinks;
    /// `mode` is the observed mode word.
    Observed { path: Seq<char>, mode: u32 },
    /// A permission change was attempted at `path`, whose observed mode
    /// word was `mode`, asking for the bits `bits`; `ok` is whether it
    /// succeeded.
    Chmod { path: Seq<char>, mode: u32, bits: u32, ok: bool },
}

/// The event records a metadata read at `p`.
pub open spec fn is_observation(e: WalkEvent, p: Seq<char>) -> bool {
    e matches WalkEvent::Observed { path, mode: _ } && path == p
}

/// The event records a metadata read at `p` that returned `mode`.
pub open spec fn is_mode_observation(e: WalkEvent, p: Seq<char>, m: u32) -> bool {
    e matches WalkEvent::Observed { path, mode } && path == p && mode == m
}

/// The event records a metadata read at `p` that reported a directory.
pub open spec fn is_dir_observation(e: WalkEvent, p: Seq<char>) -> bool {
    e matches WalkEvent::Observed { path, mode } && path == p && spec_entry_kind(mode)
        == EntryKind::Directory
}

/// The event records a permission change at `p` that succeeded.
pub open spec fn is_ok_chmod(e: WalkEvent, p: Seq<char>) -> bool {
    e matches WalkEvent::Chmod { path, mode: _, bits: _, ok } && path == p && ok
}

/// The event is a listing one of whose non-dot names, joined onto the
/// listed directory, gives `p`.
pub open spec fn lists_entry(e: WalkEvent, p: Seq<char>) -> bool {
    e matches WalkEvent::Listed { path, names } && exists|m: int|
        0 <= m < names.len() && !is_dot_entry(#[trigger] names[m]) && p == spec_join(
            path,
            names[m],
        )
}

/// A permission change is sound: it asks for exactly the observed mode
/// with its write bits stripped, the observed mode is not a symlink's,
/// and the path lies strictly inside the folder being hardened — never
/// the folder itself, never anything outside it.
pub open spec fn chmod_sound(folder: Seq<char>, e: WalkEvent) -> bool {
    e matches WalkEvent::Chmod { path, mode, bits, ok: _ } ==> bits == spec_readonly_bits(mode)
        && spec_entry_kind(mode) != EntryKind::Symlink && is_path_ancestor(folder, path)
}

/// A listing happened at the folder itself or at a path some earlier
/// metadata read reported to be a directory: the walk never lists
/// through a symlink.
pub open spec fn listing_justified(folder: Seq<char>, t: Seq<WalkEvent>, j: int) -> bool {
    t[j] matches WalkEvent::Listed { path, names: _ } ==> (path == folder || exists|i: int|
        0 <= i < j && is_dir_observation(#[trigger] t[i], path))
}

/// A metadata read happened only at a path that some earlier listing
/// named as a non-dot entry of a listed directory.
pub open spec fn observation_justified(t: Seq<WalkEvent>, j: int) -> bool {
    t[j] matches WalkEvent::Observed { path, mode: _ } ==> exists|i: int|
        0 <= i < j && lists_entry(#[trigger] t[i], path)
}

/// A permission change happened only at a path whose metadata was read
/// earlier, and it used exactly the mode that read reported.
pub open spec fn chmod_justified(t: Seq<WalkEvent>, j: int) -> bool {
    t[j] matches WalkEvent::Chmod { path, mode, bits: _, ok: _ } ==> exists|i: int|
        0 <= i < j && is_mode_observation(#[trigger] t[i], path, mode)
}

/// Every event of the trace is well-formed: permission changes are
/// sound, listings happen only at the folder or at directory-observed
/// paths, metadata reads only at listed entries, and permission changes
/// only at observed paths with the observed mode.
pub open spec fn walk_trace_wf(folder: Seq<char>, t: Seq<WalkEvent>) -> bool {
    &&& forall|j: int| 0 <= j < t.len() ==> chmod_sound(folder, #[trigger] t[j])
    &&& forall|j: int| 0 <= j < t.len() ==> #[trigger] listing_justified(folder, t, j)
    &&& forall|j: int| 0 <= j < t.len() ==> #[trigger] observation_justified(t, j)
    &&& forall|j: int| 0 <= j < t.len() ==> #[trigger] chmod_justified(t, j)
}

/// Every non-symlink metadata observation in the trace has a succeeding
/// permission change somewhere in it.
pub open spec fn observation_hardened(t: Seq<WalkEvent>, j: int) -> bool {
    t[j] matches WalkEvent::Observed { path, mode } ==> (spec_entry_kind(mode)
        != EntryKind::Symlink ==> exists|i: int|
        0 <= i < t.len() && is_ok_chmod(#[trigger] t[i], path))
}

/// The walk finished its work: every non-dot name of every recorded
/// listing had its metadata read, and every entry observed as a
/// non-symlink received a succeeding permission change.
pub open spec fn walk_trace_complete(t: Seq<WalkEvent>) -> bool {
    &&& forall|j: int, p: Seq<char>|
        0 <= j < t.len() && #[trigger] lists_entry(t[j], p) ==> exists|i: int|
            0 <= i < t.len() && is_observation(#[trigger] t[i], p)
    &&& forall|j: int| 0 <= j < t.len() ==> #[trigger] observation_hardened(t, j)
}

/// The event is not a failed permission change.
pub open spec fn event_ok(e: WalkEvent) -> bool {
    e matches WalkEvent::Chmod { path: _, mode: _, bits: _, ok } ==> ok
}

/// Appending a justified event keeps a trace well-formed.
proof fn lemma_wf_push(folder: Seq<char>, t: Seq<WalkEvent>, e: WalkEvent)
    requires
        walk_trace_wf(folder, t),
        chmod_sound(folder, e),
        e matches WalkEvent::Listed { path, names: _ } ==> (path == folder || exists|i: int|
            0 <= i < t.len() && is_dir_observation(#[trigger] t[i], path)),
        e matches WalkEvent::Observed { path, mode: _ } ==> exists|i: int|
            0 <= i < t.len() && lists_entry(#[trigger] t[i], path),
        e matches WalkEvent::Chmod { path, mode, bits: _, ok: _ } ==> exists|i: int|
            0 <= i < t.len() && is_mode_observation(#[trigger] t[i], path, mode),
    ensures
        walk_trace_wf(folder, t.push(e)),
{
    let t1 = t.push(e);
    assert forall|j: int| 0 <= j < t1.len() implies chmod_sound(folder, #[trigger] t1[j])
        && listing_justified(folder, t1, j) && observation_justified(t1, j) && chmod_justified(
        t1,
        j,
    ) by {
        if j < t.len() {
            assert(t1[j] == t[j]);
            assert(listing_justified(folder, t, j));
            assert(observation_justified(t, j));
            assert(chmod_justified(t, j));
            match t[j] {
                WalkEvent::Listed { path, names: _ } => {
                    if path != folder {
                        let i = choose|i: int| 0 <= i < j && is_dir_observation(#[trigger] t[i], path);
                        assert(t1[i] == t[i]);
                        assert(is_dir_observation(t1[i], path));
                    }
                },
                WalkEvent::Observed { path, mode: _ } => {
                    let i = choose|i: int| 0 <= i < j && lists_entry(#[trigger] t[i], path);
                    assert(t1[i] == t[i]);
                    assert(lists_entry(t1[i], path));
                },
                WalkEvent::Chmod { path, mode, bits: _, ok: _ } => {
                    let i = choose|i: int|
                        0 <= i < j && is_mode_observation(#[trigger] t[i], path, mode);
                    assert(t1[i] == t[i]);
                    assert(is_mode_observation(t1[i], path, mode));
                },
            }
        } else {
            assert(t1[j] == e);
            match e {
                WalkEvent::Listed { path, names: _ } => {
                    if path != folder {
                        let i = choose|i: int|
                            0 <= i < t.len() && is_dir_observation(#[trigger] t[i], path);
                        assert(t1[i] == t[i]);
                        assert(is_dir_observation(t1[i], path));
                    }
                },
                WalkEvent::Observed { path, mode: _ } => {
                    let i = choose|i: int| 0 <= i < t.len() && lists_entry(#[trigger] t[i], path);
                    assert(t1[i] == t[i]);
                    assert(lists_entry(t1[i], path));
                },
                WalkEvent::Chmod { path, mode, bits: _, ok: _ } => {
                    let i = choose|i: int|
                        0 <= i < t.len() && is_mode_observation(#[trigger] t[i], path, mode);
                    assert(t1[i] == t[i]);
                    assert(is_mode_observation(t1[i], path, mode));
                },
            }
        }
    }
}

enum TreeTask {
    Visit { path: String },
    MarkDir { path: String, mode: u32 },
}

/// A pending task's path lies strictly inside the folder being
/// hardened, and a directory still to be marked was observed as a
/// directory.
spec fn task_ok(folder: Seq<char>, t: TreeTask) -> bool {
    match t {
        TreeTask::Visit { path } => is_path_ancestor(folder, path@),
        TreeTask::MarkDir { path, mode } => is_path_ancestor(folder, path@) && spec_entry_kind(
            mode,
        ) == EntryKind::Directory,
    }
}

/// The task is a pending metadata read for `p`.
spec fn is_visit_for(tk: TreeTask, p: Seq<char>) -> bool {
    tk matches TreeTask::Visit { path } && path@ == p
}

/// The task is a pending directory mark for `p`.
spec fn is_markdir_for(tk: TreeTask, p: Seq<char>) -> bool {
    tk matches TreeTask::MarkDir { path, mode: _ } && path@ == p
}

/// Every listed entry has been observed already or has its metadata
/// read still pending as a task.
spec fn listed_entries_covered(t: Seq<WalkEvent>, stack: Seq<TreeTask>) -> bool {
    forall|j: int, p: Seq<char>|
        0 <= j < t.len() && #[trigger] lists_entry(t[j], p) ==> ((exists|i: int|
            0 <= i < t.len() && is_observation(#[trigger] t[i], p)) || (exists|k: int|
            0 <= k < stack.len() && is_visit_for(#[trigger] stack[k], p)))
}

/// Every non-symlink observation has been chmod'd already or has its
/// directory mark still pending as a task.
spec fn observation_covered(t: Seq<WalkEvent>, j: int, stack: Seq<TreeTask>) -> bool {
    t[j] matches WalkEvent::Observed { path, mode } ==> (spec_entry_kind(mode)
        != EntryKind::Symlink ==> ((exists|i: int|
        0 <= i < t.len() && is_ok_chmod(#[trigger] t[i], path)) || (exists|k: int|
        0 <= k < stack.len() && is_markdir_for(#[trigger] stack[k], path))))
}

/// Pending tasks stay justified when the trace grows at the end and
/// the stack keeps a prefix of its old self.
proof fn lemma_tasks_still_justified(
    t_pre: Seq<WalkEvent>,
    t: Seq<WalkEvent>,
    stack_pre: Seq<TreeTask>,
    stack: Seq<TreeTask>,
)
    requires
        t_pre.len() <= t.len(),
        forall|i: int| 0 <= i < t_pre.len() ==> t[i] == t_pre[i],
        stack.len() <= stack_pre.len(),
        forall|k: int| 0 <= k < stack.len() ==> stack[k] == stack_pre[k],
        forall|k: int|
            0 <= k < stack_pre.len() ==> ((#[trigger] stack_pre[k]) matches TreeTask::Visit { path }
                ==> exists|i2: int|
                0 <= i2 < t_pre.len() && lists_entry(#[trigger] t_pre[i2], path@)),
        forall|k: int|
            0 <= k < stack_pre.len() ==> ((#[trigger] stack_pre[k]) matches TreeTask::MarkDir {
                path,
                mode,
            } ==> exists|i2: int|
                0 <= i2 < t_pre.len() && is_mode_observation(#[trigger] t_pre[i2], path@, mode)),
    ensures
        forall|k: int|
            0 <= k < stack.len() ==> ((#[trigger] stack[k]) matches TreeTask::Visit { path }
                ==> exists|i2: int|
                0 <= i2 < t.len() && lists_entry(#[trigger] t[i2], path@)),
        forall|k: int|
            0 <= k < stack.len() ==> ((#[trigger] stack[k]) matches TreeTask::MarkDir { path, mode }
                ==> exists|i2: int|
                0 <= i2 < t.len() && is_mode_observation(#[trigger] t[i2], path@, mode)),
{
    assert forall|k: int| 0 <= k < stack.len() implies (((#[trigger] stack[k])
        matches TreeTask::Visit { path } ==> exists|i2: int|
        0 <= i2 < t.len() && lists_entry(#[trigger] t[i2], path@)) && (stack[k]
        matches TreeTask::MarkDir { path: mp, mode: mm } ==> exists|i2: int|
        0 <= i2 < t.len() && is_mode_observation(#[trigger] t[i2], mp@, mm))) by {
        assert(stack[k] == stack_pre[k]);
        match stack_pre[k] {
            TreeTask::Visit { path } => {
                let i2 = choose|i2: int|
                    0 <= i2 < t_pre.len() && lists_entry(#[trigger] t_pre[i2], path@);
                assert(t[i2] == t_pre[i2]);
                assert(lists_entry(t[i2], path@));
            },
            TreeTask::MarkDir { path, mode } => {
                let i2 = choose|i2: int|
                    0 <= i2 < t_pre.len() && is_mode_observation(#[trigger] t_pre[i2], path@, mode);
                assert(t[i2] == t_pre[i2]);
                assert(is_mode_observation(t[i2], path@, mode));
            },
        }
    }
}

/// Joining a component onto `base`, or onto a path inside `base`,
/// lands strictly inside `base`.
proof fn lemma_join_stays_inside(base: Seq<char>, a: Seq<char>, n: Seq<char>)
    requires
        a == base || is_path_ancestor(base, a),
    ensures
        is_path_ancestor(base, spec_join(a, n)),
{
    let p = spec_join(a, n);
    if a == base {
        assert(p.subrange(0, base.len() as int) =~= base);
        assert(p[base.len() as int] == '/');
    } else {
        assert(p.subrange(0, base.len() as int) =~= a.subrange(0, base.len() as int));
        assert(p[base.len() as int] == a[base.len() as int]);
    }
}

/// Recursively makes every entry inside `folder` read-only, children of
/// a directory before the directory itself, without changing `folder`'s
/// own permissions. A symlink is recognized by its own metadata, never
/// followed, and never modified. `folder` must point to a directory;
/// anything else fails on the first listing. Errors propagate at once,
/// so a partially hardened tree is reported to the caller.
///
/// The ghost trace records every directory listing, metadata read and
/// permission change. The contract says: the trace is well-formed
/// (listings only at the folder or at directory-observed paths, reads
/// only at listed entries, changes only at observed non-symlink paths
/// strictly inside the folder, stripping exactly the write bits); a
/// run that returns `Ok` begins by listing the folder, has read the
/// metadata of every non-dot name of every listing, and has given every
/// entry observed as a non-symlink a succeeding permission change; and
/// at most the final step can be a failed change, which is reported as
/// the matching error naming its path.
pub fn make_tree_entries_read_only(folder: &str) -> (r: (
    Result<(), TreeError>,
    Ghost<Seq<WalkEvent>>,
))
    ensures
        walk_trace_wf(folder@, r.1@),
        forall|j: int| 0 <= j < r.1@.len() - 1 ==> event_ok(#[trigger] r.1@[j]),
        r.0 is Ok ==> forall|j: int| 0 <= j < r.1@.len() ==> event_ok(#[trigger] r.1@[j]),
        r.0 is Ok ==> walk_trace_complete(r.1@),
        r.0 is Ok ==> r.1@.len() > 0,
        r.1@.len() > 0 ==> (r.1@[0] matches WalkEvent::Listed { path, names: _ } && path
            == folder@),
        r.0 matches Err(TreeError::SetPermissions { path }) ==> r.1@.len() > 0 && (r.1@.last()
            matches WalkEvent::Chmod { path: q, mode: _, bits: _, ok } && q == path@ && !ok),
        r.0 matches Err(TreeError::Metadata { path }) ==> is_path_ancestor(folder@, path@),
        r.0 matches Err(TreeError::ReadDir { path }) ==> (path@ == folder@ || is_path_ancestor(
            folder@,
            path@,
        )),
{
    let ghost mut t: Seq<WalkEvent> = Seq::empty();
    let names = match read_dir_names(folder) {
        Some(n) => n,
        None => {
            return (Err(TreeError::ReadDir { path: folder.to_owned() }), Ghost(t));
        },
    };
    proof {
        lemma_wf_push(folder@, t, WalkEvent::Listed { path: folder@, names: names.deep_view() });
        t = t.push(WalkEvent::Listed { path: folder@, names: names.deep_view() });
    }
    let mut stack: Vec<TreeTask> = Vec::new();
    let mut i: usize = 0;
    while i < names.len()
        invariant
            t.len() == 1,
            t[0] == (WalkEvent::Listed { path: folder@, names: names.deep_view() }),
            walk_trace_wf(folder@, t),
            i <= names@.len(),
            forall|k: int| 0 <= k < stack@.len() ==> task_ok(folder@, #[trigger] stack@[k]),
            forall|k: int|
                0 <= k < stack@.len() ==> (exists|m: int|
                    0 <= m < names.deep_view().len() && !is_dot_entry(names.deep_view()[m])
                        && is_visit_for(#[trigger] stack@[k], spec_join(
                        folder@,
                        #[trigger] names.deep_view()[m],
                    ))),
            forall|m: int|
                0 <= m < i && !is_dot_entry(names.deep_view()[m]) ==> exists|k: int|
                    0 <= k < stack@.len() && is_visit_for(#[trigger] stack@[k], spec_join(
                        folder@,
                        #[trigger] names.deep_view()[m],
                    )),
        decreases names@.len() - i,
    {
        let name = &names[i];
        let ghost stack_old = stack@;
        if !is_dot_name(name.as_str()) {
            proof {
                lemma_join_stays_inside(folder@, folder@, name@);
                assert(names.deep_view()[i as int] == name@);
            }
            stack.push(TreeTask::Visit { path: join_path(folder, name.as_str()) });
            proof {
                assert(is_visit_for(stack@[stack@.len() - 1], spec_join(
                    folder@,
                    names.deep_view()[i as int],
                )));
                assert forall|m: int|
                    0 <= m < i + 1 && !is_dot_entry(names.deep_view()[m]) implies exists|k: int|
                    0 <= k < stack@.len() && is_visit_for(#[trigger] stack@[k], spec_join(
                        folder@,
                        #[trigger] names.deep_view()[m],
                    )) by {
                    if m < i {
                        let k = choose|k: int|
                            0 <= k < stack_old.len() && is_visit_for(
                                #[trigger] stack_old[k],
                                spec_join(folder@, names.deep_view()[m]),
                            );
                        assert(is_visit_for(stack@[k], spec_join(
                            folder@,
                            names.deep_view()[m],
                        )));
                    } else {
                        assert(is_visit_for(stack@[stack@.len() - 1], spec_join(
                            folder@,
                            names.deep_view()[m],
                        )));
                    }
                }
            }
        }
        i += 1;
    }
    proof {
        assert forall|j: int, p: Seq<char>| 0 <= j < t.len() && #[trigger] lists_entry(
            t[j],
            p,
        ) implies ((exists|i2: int| 0 <= i2 < t.len() && is_observation(#[trigger] t[i2], p)) || (
        exists|k: int| 0 <= k < stack@.len() && is_visit_for(#[trigger] stack@[k], p))) by {
            let m = choose|m: int|
                0 <= m < names.deep_view().len() && !is_dot_entry(#[trigger] names.deep_view()[m])
                    && p == spec_join(folder@, names.deep_view()[m]);
            assert(exists|k: int|
                0 <= k < stack@.len() && is_visit_for(#[trigger] stack@[k], spec_join(
                    folder@,
                    names.deep_view()[m],
                )));
        }
        assert forall|k: int| 0 <= k < stack@.len() implies (((#[trigger] stack@[k])
            matches TreeTask::Visit { path } ==> exists|i2: int|
            0 <= i2 < t.len() && lists_entry(#[trigger] t[i2], path@)) && (stack@[k]
            matches TreeTask::MarkDir { path: mp, mode: _ } ==> false)) by {
            let m = choose|m: int|
                0 <= m < names.deep_view().len() && !is_dot_entry(#[trigger] names.deep_view()[m])
                    && is_visit_for(stack@[k], spec_join(folder@, names.deep_view()[m]));
            match stack@[k] {
                TreeTask::Visit { path } => {
                    assert(t[0] matches WalkEvent::Listed { path: lp, names: ln } && 0 <= m
                        < ln.len() && !is_dot_entry(ln[m]) && path@ == spec_join(lp, ln[m]));
                    assert(lists_entry(t[0], path@));
                },
                _ => {},
            }
        }
    }
    let mut fuel: u64 = u64::MAX;
    while stack.len() > 0
        invariant
            t.len() > 0,
            t[0] matches WalkEvent::Listed { path, names: _ } && path == folder@,
            walk_trace_wf(folder@, t),
            forall|j: int| 0 <= j < t.len() ==> event_ok(#[trigger] t[j]),
            forall|k: int| 0 <= k < stack@.len() ==> task_ok(folder@, #[trigger] stack@[k]),
            forall|k: int|
                0 <= k < stack@.len() ==> ((#[trigger] stack@[k]) matches TreeTask::Visit { path }
                    ==> exists|i2: int|
                    0 <= i2 < t.len() && lists_entry(#[trigger] t[i2], path@)),
            forall|k: int|
                0 <= k < stack@.len() ==> ((#[trigger] stack@[k]) matches TreeTask::MarkDir {
                    path,
                    mode,
                } ==> exists|i2: int|
                    0 <= i2 < t.len() && is_mode_observation(#[trigger] t[i2], path@, mode)),
            listed_entries_covered(t, stack@),
            forall|j: int| 0 <= j < t.len() ==> #[trigger] observation_covered(t, j, stack@),
        decreases fuel,
    {
        if fuel == 0 {
            return (Err(TreeError::WalkLimit), Ghost(t));
        }
        fuel = fuel - 1;
        let ghost stack_pre = stack@;
        let task = stack.pop().unwrap();
        match task {
            TreeTask::Visit { path } => {
                let mode = match lstat_path(path.as_str()) {
                    StatOutcome::Owner { uid: _, mode } => mode,
                    _ => {
                        return (Err(TreeError::Metadata { path }), Ghost(t));
                    },
                };
                let ghost t_pre = t;
                proof {
                    lemma_wf_push(folder@, t, WalkEvent::Observed { path: path@, mode });
                    t = t.push(WalkEvent::Observed { path: path@, mode });
                    assert forall|j: int, p: Seq<char>| 0 <= j < t.len() && #[trigger] lists_entry(
                        t[j],
                        p,
                    ) implies ((exists|i2: int|
                        0 <= i2 < t.len() && is_observation(#[trigger] t[i2], p)) || (exists|k: int|
                        0 <= k < stack@.len() && is_visit_for(#[trigger] stack@[k], p))) by {
                        assert(t[j] == t_pre[j]);
                        if p == path@ {
                            assert(is_observation(t[t.len() - 1], p));
                        } else {
                            assert(lists_entry(t_pre[j], p));
                            if exists|i2: int|
                                0 <= i2 < t_pre.len() && is_observation(#[trigger] t_pre[i2], p) {
                                let i2 = choose|i2: int|
                                    0 <= i2 < t_pre.len() && is_observation(
                                        #[trigger] t_pre[i2],
                                        p,
                                    );
                                assert(is_observation(t[i2], p));
                            } else {
                                let k = choose|k: int|
                                    0 <= k < stack_pre.len() && is_visit_for(
                                        #[trigger] stack_pre[k],
                                        p,
                                    );
                                assert(k < stack_pre.len() - 1);
                                assert(is_visit_for(stack@[k], p));
                            }
                        }
                    }
                }
                match entry_kind(mode) {
                    EntryKind::Symlink => {
                        proof {
                            assert(forall|k: int|
                                0 <= k < stack@.len() ==> stack@[k] == stack_pre[k]);
                            lemma_tasks_still_justified(t_pre, t, stack_pre, stack@);
                            assert forall|j: int| 0 <= j < t.len() implies #[trigger] observation_covered(
                                t,
                                j,
                                stack@,
                            ) by {
                                if j < t_pre.len() {
                                    assert(t[j] == t_pre[j]);
                                    restore_observation_covered(t_pre, t, j, stack_pre, stack@);
                                }
                            }
                        }
                    },
                    EntryKind::Directory => {
                        let children = match read_dir_names(path.as_str()) {
                            Some(n) => n,
                            None => {
                                return (Err(TreeError::ReadDir { path }), Ghost(t));
                            },
                        };
                        stack.push(TreeTask::MarkDir { path: path.clone(), mode });
                        let ghost stack_mid = stack@;
                        let ghost t_mid = t;
                        let mut j: usize = 0;
                        while j < children.len()
                            invariant
                                t == t_mid,
                                j <= children@.len(),
                                is_path_ancestor(folder@, path@),
                                stack@.len() >= stack_mid.len(),
                                stack@.subrange(0, stack_mid.len() as int) == stack_mid,
                                forall|k: int|
                                    stack_mid.len() <= k < stack@.len() ==> (exists|m: int|
                                        0 <= m < children.deep_view().len() && !is_dot_entry(
                                            children.deep_view()[m],
                                        ) && is_visit_for(#[trigger] stack@[k], spec_join(
                                            path@,
                                            #[trigger] children.deep_view()[m],
                                        ))),
                                forall|m: int|
                                    0 <= m < j && !is_dot_entry(children.deep_view()[m])
                                        ==> exists|k: int|
                                        0 <= k < stack@.len() && is_visit_for(
                                        #[trigger] stack@[k],
                                        spec_join(path@, #[trigger] children.deep_view()[m]),
                                    ),
                                forall|k: int|
                                    0 <= k < stack@.len() ==> task_ok(
                                        folder@,
                                        #[trigger] stack@[k],
                                    ),
                            decreases children@.len() - j,
                        {
                            let name = &children[j];
                            let ghost stack_old = stack@;
                            if !is_dot_name(name.as_str()) {
                                proof {
                                    lemma_join_stays_inside(folder@, path@, name@);
                                    assert(children.deep_view()[j as int] == name@);
                                }
                                stack.push(
                                    TreeTask::Visit {
                                        path: join_path(path.as_str(), name.as_str()),
                                    },
                                );
                                proof {
                                    assert(stack@.subrange(0, stack_mid.len() as int)
                                        =~= stack_mid);
                                    assert(is_visit_for(stack@[stack@.len() - 1], spec_join(
                                        path@,
                                        children.deep_view()[j as int],
                                    )));
                                    assert forall|m: int|
                                        0 <= m < j + 1 && !is_dot_entry(
                                            children.deep_view()[m],
                                        ) implies exists|k: int|
                                        0 <= k < stack@.len() && is_visit_for(
                                            #[trigger] stack@[k],
                                            spec_join(path@, #[trigger] children.deep_view()[m]),
                                        ) by {
                                        if m < j {
                                            let k = choose|k: int|
                                                0 <= k < stack_old.len() && is_visit_for(
                                                    #[trigger] stack_old[k],
                                                    spec_join(path@, children.deep_view()[m]),
                                                );
                                            assert(is_visit_for(stack@[k], spec_join(
                                                path@,
                                                children.deep_view()[m],
                                            )));
                                        } else {
                                            assert(is_visit_for(stack@[stack@.len() - 1],
                                                spec_join(path@, children.deep_view()[m])));
                                        }
                                    }
                                }
                            }
                            j += 1;
                        }
                        proof {
                            let listed = WalkEvent::Listed {
                                path: path@,
                                names: children.deep_view(),
                            };
                            assert(is_dir_observation(t[t.len() - 1], path@));
                            lemma_wf_push(folder@, t, listed);
                            t = t.push(listed);
                            let ghost stack_fin = stack@;
                            // every invariant, re-established over the new trace
                            assert(t[0] == t_mid[0]);
                            assert(is_markdir_for(stack_mid[stack_mid.len() - 1], path@));
                            assert forall|k: int| 0 <= k < stack_mid.len() implies stack_fin[k]
                                == stack_mid[k] by {
                                assert(stack_fin.subrange(0, stack_mid.len() as int)[k]
                                    == stack_fin[k]);
                            }
                            assert forall|k: int| 0 <= k < stack_fin.len() implies ((
                            #[trigger] stack_fin[k]) matches TreeTask::Visit { path: vp }
                                ==> exists|i2: int|
                                0 <= i2 < t.len() && lists_entry(#[trigger] t[i2], vp@)) by {
                                match stack_fin[k] {
                                    TreeTask::Visit { path: vp } => {
                                        if k < stack_mid.len() {
                                            assert(stack_fin[k] == stack_mid[k]);
                                            assert(k < stack_mid.len() - 1);
                                            assert(stack_fin[k] == stack_pre[k]);
                                            let i2 = choose|i2: int|
                                                0 <= i2 < t_pre.len() && lists_entry(
                                                    #[trigger] t_pre[i2],
                                                    vp@,
                                                );
                                            assert(t[i2] == t_pre[i2]);
                                            assert(lists_entry(t[i2], vp@));
                                        } else {
                                            let m = choose|m: int|
                                                0 <= m < children.deep_view().len()
                                                    && !is_dot_entry(
                                                    #[trigger] children.deep_view()[m],
                                                ) && is_visit_for(stack_fin[k], spec_join(
                                                    path@,
                                                    children.deep_view()[m],
                                                ));
                                            assert(t[t.len() - 1] matches WalkEvent::Listed {
                                                path: lp,
                                                names: ln,
                                            } && 0 <= m < ln.len() && !is_dot_entry(ln[m]) && vp@
                                                == spec_join(lp, ln[m]));
                                            assert(lists_entry(t[t.len() - 1], vp@));
                                        }
                                    },
                                    _ => {},
                                }
                            }
                            assert forall|k: int| 0 <= k < stack_fin.len() implies ((
                            #[trigger] stack_fin[k]) matches TreeTask::MarkDir { path: mp, mode: mm }
                                ==> exists|i2: int|
                                0 <= i2 < t.len() && is_mode_observation(
                                    #[trigger] t[i2],
                                    mp@,
                                    mm,
                                )) by {
                                match stack_fin[k] {
                                    TreeTask::MarkDir { path: mp, mode: mm } => {
                                        if k < stack_mid.len() - 1 {
                                            assert(stack_fin[k] == stack_mid[k]);
                                            assert(stack_fin[k] == stack_pre[k]);
                                            let i2 = choose|i2: int|
                                                0 <= i2 < t_pre.len() && is_mode_observation(
                                                    #[trigger] t_pre[i2],
                                                    mp@,
                                                    mm,
                                                );
                                            assert(t[i2] == t_pre[i2]);
                                            assert(is_mode_observation(t[i2], mp@, mm));
                                        } else if k == stack_mid.len() - 1 {
                                            assert(stack_fin[k] == stack_mid[k]);
                                            assert(t[t_pre.len() as int] == (WalkEvent::Observed {
                                                path: path@,
                                                mode,
                                            }));
                                            assert(is_mode_observation(
                                                t[t_pre.len() as int],
                                                mp@,
                                                mm,
                                            ));
                                        }
                                    },
                                    _ => {},
                                }
                            }
                            assert forall|j2: int, p: Seq<char>| 0 <= j2 < t.len()
                                && #[trigger] lists_entry(t[j2], p) implies ((exists|i2: int|
                                0 <= i2 < t.len() && is_observation(#[trigger] t[i2], p)) || (
                            exists|k: int|
                                0 <= k < stack_fin.len() && is_visit_for(
                                    #[trigger] stack_fin[k],
                                    p,
                                ))) by {
                                if j2 < t_mid.len() {
                                    assert(t[j2] == t_mid[j2]);
                                    assert(lists_entry(t_mid[j2], p));
                                    if exists|i2: int|
                                        0 <= i2 < t_mid.len() && is_observation(
                                            #[trigger] t_mid[i2],
                                            p,
                                        ) {
                                        let i2 = choose|i2: int|
                                            0 <= i2 < t_mid.len() && is_observation(
                                                #[trigger] t_mid[i2],
                                                p,
                                            );
                                        assert(is_observation(t[i2], p));
                                    } else {
                                        let popped = stack_pre.drop_last();
                                        let k = choose|k: int|
                                            0 <= k < popped.len() && is_visit_for(
                                                #[trigger] popped[k],
                                                p,
                                            );
                                        assert(k < stack_mid.len() - 1);
                                        assert(stack_fin[k] == stack_mid[k]);
                                        assert(stack_mid[k] == popped[k]);
                                        assert(is_visit_for(stack_fin[k], p));
                                    }
                                } else {
                                    // the new listing's entries are pending visits
                                    let m = choose|m: int|
                                        0 <= m < children.deep_view().len() && !is_dot_entry(
                                            #[trigger] children.deep_view()[m],
                                        ) && p == spec_join(path@, children.deep_view()[m]);
                                    let k = choose|k: int|
                                        0 <= k < stack_fin.len() && is_visit_for(
                                            #[trigger] stack_fin[k],
                                            spec_join(path@, children.deep_view()[m]),
                                        );
                                    assert(is_visit_for(stack_fin[k], p));
                                }
                            }
                            assert forall|j2: int| 0 <= j2 < t.len() implies #[trigger] observation_covered(
                                t,
                                j2,
                                stack_fin,
                            ) by {
                                if j2 < t_pre.len() {
                                    assert(t[j2] == t_pre[j2]);
                                    assert(forall|k: int|
                                        0 <= k < stack_mid.len() - 1 ==> stack_fin[k]
                                            == stack_pre[k]);
                                    restore_observation_covered_skip(
                                        t_pre,
                                        t,
                                        j2,
                                        stack_pre,
                                        stack_fin,
                                        stack_mid.len() - 1,
                                    );
                                } else if j2 == t_pre.len() {
                                    // the new observation's mark is pending
                                    assert(stack_fin[stack_mid.len() - 1] == stack_mid[stack_mid.len() - 1]);
                                    assert(is_markdir_for(
                                        stack_fin[stack_mid.len() - 1],
                                        path@,
                                    ));
                                }
                            }
                        }
                    },
                    EntryKind::Other => {
                        let bits = readonly_bits(mode);
                        let ok = set_permissions_path(path.as_str(), bits);
                        let ghost t_obs = t;
                        proof {
                            let ev = WalkEvent::Chmod { path: path@, mode, bits, ok };
                            assert(is_mode_observation(t[t.len() - 1], path@, mode));
                            lemma_wf_push(folder@, t, ev);
                            t = t.push(ev);
                        }
                        if !ok {
                            return (Err(TreeError::SetPermissions { path }), Ghost(t));
                        }
                        proof {
                            assert(forall|k: int|
                                0 <= k < stack@.len() ==> stack@[k] == stack_pre[k]);
                            lemma_tasks_still_justified(t_pre, t, stack_pre, stack@);
                            assert forall|j2: int, p: Seq<char>| 0 <= j2 < t.len()
                                && #[trigger] lists_entry(t[j2], p) implies ((exists|i2: int|
                                0 <= i2 < t.len() && is_observation(#[trigger] t[i2], p)) || (
                            exists|k: int|
                                0 <= k < stack@.len() && is_visit_for(
                                    #[trigger] stack@[k],
                                    p,
                                ))) by {
                                assert(t[j2] == t_obs[j2]);
                                assert(lists_entry(t_obs[j2], p));
                                if exists|i2: int|
                                    0 <= i2 < t_obs.len() && is_observation(
                                        #[trigger] t_obs[i2],
                                        p,
                                    ) {
                                    let i2 = choose|i2: int|
                                        0 <= i2 < t_obs.len() && is_observation(
                                            #[trigger] t_obs[i2],
                                            p,
                                        );
                                    assert(is_observation(t[i2], p));
                                }
                            }
                            assert forall|j2: int| 0 <= j2 < t.len() implies #[trigger] observation_covered(
                                t,
                                j2,
                                stack@,
                            ) by {
                                if j2 < t_obs.len() - 1 {
                                    assert(t[j2] == t_pre[j2]);
                                    restore_observation_covered(t_pre, t, j2, stack_pre, stack@);
                                } else if j2 == t_obs.len() - 1 {
                                    // the fresh observation was chmod'd just now
                                    assert(is_ok_chmod(t[t.len() - 1], path@));
                                }
                            }
                        }
                    },
                }
            },
            TreeTask::MarkDir { path, mode } => {
                let bits = readonly_bits(mode);
                let ok = set_permissions_path(path.as_str(), bits);
                let ghost t_pre = t;
                proof {
                    let ev = WalkEvent::Chmod { path: path@, mode, bits, ok };
                    let i2 = choose|i2: int|
                        0 <= i2 < t.len() && is_mode_observation(#[trigger] t[i2], path@, mode);
                    lemma_wf_push(folder@, t, ev);
                    t = t.push(ev);
                }
                if !ok {
                    return (Err(TreeError::SetPermissions { path }), Ghost(t));
                }
                proof {
                    assert(forall|k: int| 0 <= k < stack@.len() ==> stack@[k] == stack_pre[k]);
                    lemma_tasks_still_justified(t_pre, t, stack_pre, stack@);
                    assert forall|j2: int, p: Seq<char>| 0 <= j2 < t.len()
                        && #[trigger] lists_entry(t[j2], p) implies ((exists|i2: int|
                        0 <= i2 < t.len() && is_observation(#[trigger] t[i2], p)) || (exists|k: int|
                        0 <= k < stack@.len() && is_visit_for(#[trigger] stack@[k], p))) by {
                        assert(t[j2] == t_pre[j2]);
                        assert(lists_entry(t_pre[j2], p));
                        if exists|i2: int|
                            0 <= i2 < t_pre.len() && is_observation(#[trigger] t_pre[i2], p) {
                            let i2 = choose|i2: int|
                                0 <= i2 < t_pre.len() && is_observation(#[trigger] t_pre[i2], p);
                            assert(is_observation(t[i2], p));
                        } else {
                            let k = choose|k: int|
                                0 <= k < stack_pre.len() && is_visit_for(
                                    #[trigger] stack_pre[k],
                                    p,
                                );
                            assert(k < stack_pre.len() - 1);
                            assert(is_visit_for(stack@[k], p));
                        }
                    }
                    assert forall|j2: int| 0 <= j2 < t.len() implies #[trigger] observation_covered(
                        t,
                        j2,
                        stack@,
                    ) by {
                        if j2 < t_pre.len() {
                            assert(t[j2] == t_pre[j2]);
                            match t_pre[j2] {
                                WalkEvent::Observed { path: op, mode: om } => {
                                    if spec_entry_kind(om) != EntryKind::Symlink {
                                        assert(observation_covered(t_pre, j2, stack_pre));
                                        if op == path@ {
                                            assert(is_ok_chmod(t[t.len() - 1], op));
                                        } else if exists|i2: int|
                                            0 <= i2 < t_pre.len() && is_ok_chmod(
                                                #[trigger] t_pre[i2],
                                                op,
                                            ) {
                                            let i2 = choose|i2: int|
                                                0 <= i2 < t_pre.len() && is_ok_chmod(
                                                    #[trigger] t_pre[i2],
                                                    op,
                                                );
                                            assert(is_ok_chmod(t[i2], op));
                                        } else {
                                            let k = choose|k: int|
                                                0 <= k < stack_pre.len() && is_markdir_for(
                                                    #[trigger] stack_pre[k],
                                                    op,
                                                );
                                            assert(k < stack_pre.len() - 1);
                                            assert(is_markdir_for(stack@[k], op));
                                        }
                                    }
                                },
                                _ => {},
                            }
                        }
                    }
                }
            },
        }
    }
    proof {
        assert forall|j: int, p: Seq<char>| 0 <= j < t.len() && #[trigger] lists_entry(
            t[j],
            p,
        ) implies exists|i2: int| 0 <= i2 < t.len() && is_observation(#[trigger] t[i2], p) by {
            assert(listed_entries_covered(t, stack@));
        }
        assert forall|j: int| 0 <= j < t.len() implies #[trigger] observation_hardened(t, j) by {
            assert(observation_covered(t, j, stack@));
        }
    }
    (Ok(()), Ghost(t))
}

/// Transfers an observation's coverage across an append to the trace
/// and the removal of the top task, when neither was the covering
/// witness's mark.
proof fn restore_observation_covered(
    t_pre: Seq<WalkEvent>,
    t: Seq<WalkEvent>,
    j: int,
    stack_pre: Seq<TreeTask>,
    stack: Seq<TreeTask>,
)
    requires
        0 <= j < t_pre.len(),
        observation_covered(t_pre, j, stack_pre),
        t_pre.len() <= t.len(),
        forall|i: int| 0 <= i < t_pre.len() ==> t[i] == t_pre[i],
        stack.len() == stack_pre.len() - 1,
        forall|k: int| 0 <= k < stack.len() ==> stack[k] == stack_pre[k],
        !(stack_pre.last() matches TreeTask::MarkDir { path: _, mode: _ }),
        t[j] == t_pre[j],
    ensures
        observation_covered(t, j, stack),
{
    match t_pre[j] {
        WalkEvent::Observed { path, mode } => {
            if spec_entry_kind(mode) != EntryKind::Symlink {
                if exists|i: int| 0 <= i < t_pre.len() && is_ok_chmod(#[trigger] t_pre[i], path) {
                    let i = choose|i: int|
                        0 <= i < t_pre.len() && is_ok_chmod(#[trigger] t_pre[i], path);
                    assert(is_ok_chmod(t[i], path));
                } else {
                    let k = choose|k: int|
                        0 <= k < stack_pre.len() && is_markdir_for(#[trigger] stack_pre[k], path);
                    assert(k < stack_pre.len() - 1);
                    assert(is_markdir_for(stack[k], path));
                }
            }
        },
        _ => {},
    }
}

/// Transfers an observation's coverage across an append to the trace
/// when the top task of the stack was replaced in place by the mark for
/// the same path.
proof fn restore_observation_covered_skip(
    t_pre: Seq<WalkEvent>,
    t: Seq<WalkEvent>,
    j: int,
    stack_pre: Seq<TreeTask>,
    stack: Seq<TreeTask>,
    top: int,
)
    requires
        0 <= j < t_pre.len(),
        observation_covered(t_pre, j, stack_pre),
        t_pre.len() <= t.len(),
        forall|i: int| 0 <= i < t_pre.len() ==> t[i] == t_pre[i],
        top == stack_pre.len() - 1,
        stack.len() >= stack_pre.len(),
        forall|k: int| 0 <= k < top ==> stack[k] == stack_pre[k],
        !(stack_pre.last() matches TreeTask::MarkDir { path: _, mode: _ }),
        t[j] == t_pre[j],
    ensures
        observation_covered(t, j, stack),
{
    match t_pre[j] {
        WalkEvent::Observed { path, mode } => {
            if spec_entry_kind(mode) != EntryKind::Symlink {
                if exists|i: int| 0 <= i < t_pre.len() && is_ok_chmod(#[trigger] t_pre[i], path) {
                    let i = choose|i: int|
                        0 <= i < t_pre.len() && is_ok_chmod(#[trigger] t_pre[i], path);
                    assert(is_ok_chmod(t[i], path));
                } else {
                    let k = choose|k: int|
                        0 <= k < stack_pre.len() && is_markdir_for(#[trigger] stack_pre[k], path);
                    assert(k < stack_pre.len() - 1);
                    assert(is_markdir_for(stack[k], path));
                }
            }
        },
        _ => {},
    }
}

} // verus!
