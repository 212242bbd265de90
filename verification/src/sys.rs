//! Trusted boundary to the operating system.
//!
//! Each function here wraps one call into an outside crate. Their bodies
//! are not verified; everything a caller may conclude stands in the
//! contracts, and what an outcome means is decided by verified code in
//! the other modules. All results depend on the state of the filesystem
//! or the process environment, so the wrappers promise nothing about
//! which outcome comes back.

use vstd::prelude::*;

verus! {

/// What the filesystem said about one path when its own metadata was
/// read, symlinks not followed: either the entry exists, with its owner
/// and its mode word, or the reason it could not be inspected.
#[derive(Clone, Copy, Debug, PartialEq, Eq, Structural)]
pub enum StatOutcome {
    /// The entry exists (possibly as a broken symlink); `uid` is its
    /// owner and `mode` its raw mode word (file type and permissions).
    Owner { uid: u32, mode: u32 },
    /// No entry exists at this path.
    NotFound,
    /// A non-directory stands where a directory component was expected.
    NotDirectory,
    /// Permission was denied while inspecting the path.
    PermissionDenied,
    /// Any other failure.
    OtherError,
}

/// Relies on `nix::sys::stat::lstat`: reads the metadata of the link
/// itself, never of a symlink's target, so a broken symlink reports its
/// own owner rather than `NotFound`. The errno is folded into the
/// variants of `StatOutcome`, one arm each.
#[verifier::external_body]
pub(crate) fn lstat_path(path: &str) -> StatOutcome {
    match nix::sys::stat::lstat(path) {
        Ok(st) => StatOutcome::Owner { uid: st.st_uid, mode: st.st_mode as u32 },
        Err(nix::errno::Errno::ENOENT) => StatOutcome::NotFound,
        Err(nix::errno::Errno::ENOTDIR) => StatOutcome::NotDirectory,
        Err(nix::errno::Errno::EACCES) => StatOutcome::PermissionDenied,
        Err(_) => StatOutcome::OtherError,
    }
}

/// Relies on `nix::unistd::geteuid`: the numeric id of the current
/// effective user, the identity the ownership-safety check compares
/// owners against.
#[verifier::external_body]
pub(crate) fn current_uid() -> u32 {
    nix::unistd::geteuid().as_raw()
}

/// Relies on `dirs::cache_dir`: the platform-preferred per-user cache
/// directory, if one can be determined. A directory whose path is not
/// UTF-8 is treated as absent.
#[verifier::external_body]
pub(crate) fn platform_cache_dir() -> Option<String> {
    match dirs::cache_dir() {
        Some(p) => p.into_os_string().into_string().ok(),
        None => None,
    }
}

/// Relies on `nix::dir::Dir`: lists the names of the entries of a
/// directory, including `.` and `..`. `None` when the directory cannot
/// be opened or read. A name that is not UTF-8 is replaced lossily.
#[verifier::external_body]
pub(crate) fn read_dir_names(path: &str) -> Option<Vec<String>> {
    let flags = nix::fcntl::OFlag::O_RDONLY | nix::fcntl::OFlag::O_DIRECTORY;
    let mut dir = nix::dir::Dir::open(path, flags, nix::sys::stat::Mode::empty()).ok()?;
    let mut names: Vec<String> = Vec::new();
    for entry in dir.iter() {
        match entry {
            Ok(e) => names.push(e.file_name().to_string_lossy().into_owned()),
            Err(_) => return None,
        }
    }
    Some(names)
}

/// Relies on `nix::sys::stat::fchmodat`: sets the permission bits of the
/// entry at `path` (following a symlink, though verified callers never
/// pass one) to the low bits of `bits`. Returns whether the call
/// succeeded.
#[verifier::external_body]
pub(crate) fn set_permissions_path(path: &str, bits: u32) -> bool {
    nix::sys::stat::fchmodat(
        nix::fcntl::AT_FDCWD,
        path,
        nix::sys::stat::Mode::from_bits_truncate(bits),
        nix::sys::stat::FchmodatFlags::FollowSymlink,
    ).is_ok()
}

} // verus!
