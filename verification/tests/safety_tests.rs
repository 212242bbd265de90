use dotslash_cache::safety::{is_safe_to_own, safe_to_own_from_outcomes};
use dotslash_cache::sys::StatOutcome;

use nix::fcntl::AT_FDCWD;
use nix::sys::stat::lstat;
use nix::unistd::{fchownat, getuid, mkdtemp, symlinkat, Uid};

fn owner(uid: u32) -> StatOutcome {
    StatOutcome::Owner { uid, mode: 0o040755 }
}

#[test]
fn walk_with_only_absent_ancestors_is_unsafe() {
    assert!(!safe_to_own_from_outcomes(&vec![], 42));
    assert!(!safe_to_own_from_outcomes(
        &vec![StatOutcome::NotFound, StatOutcome::NotFound, StatOutcome::NotFound],
        42
    ));
}

#[test]
fn absent_ancestors_then_owned_root_is_safe() {
    let outcomes = vec![StatOutcome::NotFound, StatOutcome::NotFound, owner(42)];
    assert!(safe_to_own_from_outcomes(&outcomes, 42));
    assert!(!safe_to_own_from_outcomes(&outcomes, 41));
}

#[test]
fn first_existing_ancestor_decides_regardless_of_deeper_entries() {
    let outcomes = vec![StatOutcome::NotFound, owner(1), owner(42)];
    assert!(!safe_to_own_from_outcomes(&outcomes, 42));
    let outcomes = vec![owner(42), owner(1)];
    assert!(safe_to_own_from_outcomes(&outcomes, 42));
}

#[test]
fn blocking_file_is_skipped_like_an_absent_entry() {
    let outcomes = vec![StatOutcome::NotDirectory, owner(5)];
    assert!(safe_to_own_from_outcomes(&outcomes, 5));
}

#[test]
fn permission_denied_fails_closed() {
    let outcomes = vec![StatOutcome::NotFound, StatOutcome::PermissionDenied, owner(5)];
    assert!(!safe_to_own_from_outcomes(&outcomes, 5));
    let outcomes = vec![StatOutcome::OtherError, owner(5)];
    assert!(!safe_to_own_from_outcomes(&outcomes, 5));
}

#[test]
fn owned_base_with_absent_descendants_is_safe() {
    let base = mkdtemp("/tmp/ds-safety-XXXXXX").unwrap();
    let base = base.to_str().unwrap().to_string();
    let me = getuid().as_raw();
    let candidate = format!("{}/absent/deeper", base);
    assert!(is_safe_to_own(&candidate, me).0);
}

#[test]
fn foreign_existing_ancestor_is_unsafe() {
    if !getuid().is_root() {
        // Reassigning ownership needs privileges; nothing to check here.
        return;
    }
    let base = mkdtemp("/tmp/ds-safety-XXXXXX").unwrap();
    let base = base.to_str().unwrap().to_string();
    fchownat(
        AT_FDCWD,
        base.as_str(),
        Some(Uid::from_raw(12345)),
        None,
        nix::fcntl::AtFlags::empty(),
    )
    .unwrap();
    let me = getuid().as_raw();
    let candidate = format!("{}/absent/deeper", base);
    assert!(!is_safe_to_own(&candidate, me).0);
}

#[test]
fn broken_symlink_is_judged_by_the_link_itself() {
    let base = mkdtemp("/tmp/ds-safety-XXXXXX").unwrap();
    let base = base.to_str().unwrap().to_string();
    let link = format!("{}/link", base);
    symlinkat("/no-such-target-anywhere", AT_FDCWD, link.as_str()).unwrap();
    let me = getuid().as_raw();
    // The target does not exist, but the link entry does and is ours.
    assert!(is_safe_to_own(&link, me).0);
    if getuid().is_root() {
        fchownat(
            AT_FDCWD,
            link.as_str(),
            Some(Uid::from_raw(12345)),
            None,
            nix::fcntl::AtFlags::AT_SYMLINK_NOFOLLOW,
        )
        .unwrap();
        assert!(!is_safe_to_own(&link, me).0);
    }
}

#[test]
fn root_directory_safety_matches_its_owner() {
    let me = getuid().as_raw();
    let owner_of_root = lstat("/").unwrap().st_uid;
    assert_eq!(is_safe_to_own("/", me).0, owner_of_root == me);
}
