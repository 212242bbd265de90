use dotslash_cache::make_tree_read_only::{
    entry_kind, is_dot_name, make_tree_entries_read_only, readonly_bits, EntryKind, TreeError,
};

use nix::fcntl::{open, OFlag, AT_FDCWD};
use nix::sys::stat::{fchmodat, lstat, FchmodatFlags, Mode};
use nix::unistd::{mkdir, mkdtemp, symlinkat};

fn create_file(path: &str, mode: u32, payload: &[u8]) {
    let fd = open(path, OFlag::O_CREAT | OFlag::O_WRONLY, Mode::from_bits_truncate(mode)).unwrap();
    nix::unistd::write(&fd, payload).unwrap();
    drop(fd);
    fchmodat(AT_FDCWD, path, Mode::from_bits_truncate(mode), FchmodatFlags::FollowSymlink).unwrap();
}

fn perm_bits(path: &str) -> u32 {
    (lstat(path).unwrap().st_mode as u32) & 0o7777
}

#[test]
fn hardening_freezes_contents_but_not_the_folder() {
    let root = mkdtemp("/tmp/ds-harden-XXXXXX").unwrap();
    let root = root.to_str().unwrap().to_string();
    let folder = format!("{}/artifact", root);
    mkdir(folder.as_str(), Mode::from_bits_truncate(0o755)).unwrap();
    fchmodat(AT_FDCWD, folder.as_str(), Mode::from_bits_truncate(0o755), FchmodatFlags::FollowSymlink)
        .unwrap();

    let file = format!("{}/file", folder);
    create_file(&file, 0o644, b"hello");

    let sub = format!("{}/sub", folder);
    mkdir(sub.as_str(), Mode::from_bits_truncate(0o755)).unwrap();
    let nested = format!("{}/nested", sub);
    create_file(&nested, 0o600, b"nested");

    let link = format!("{}/link", folder);
    symlinkat("missing-target", AT_FDCWD, link.as_str()).unwrap();
    let link_mode_before = lstat(link.as_str()).unwrap().st_mode;
    let folder_mode_before = perm_bits(&folder);

    make_tree_entries_read_only(&folder).0.unwrap();

    assert_eq!(perm_bits(&file), 0o444);
    assert_eq!(perm_bits(&nested), 0o400);
    assert_eq!(perm_bits(&sub), 0o555);
    assert_eq!(lstat(link.as_str()).unwrap().st_mode, link_mode_before);
    assert_eq!(perm_bits(&folder), folder_mode_before);
    assert_ne!(perm_bits(&folder) & 0o200, 0);
}

#[test]
fn hardening_an_absent_folder_reports_the_listing_failure() {
    let r = make_tree_entries_read_only("/no/such/folder/anywhere").0;
    assert!(matches!(r, Err(TreeError::ReadDir { .. })));
}

#[test]
fn entry_kind_reads_the_file_type_bits() {
    assert_eq!(entry_kind(0o120777), EntryKind::Symlink);
    assert_eq!(entry_kind(0o040755), EntryKind::Directory);
    assert_eq!(entry_kind(0o100644), EntryKind::Other);
    assert_eq!(entry_kind(0o140644), EntryKind::Other);
}

#[test]
fn readonly_bits_strip_exactly_the_write_bits() {
    assert_eq!(readonly_bits(0o100644), 0o444);
    assert_eq!(readonly_bits(0o040755), 0o555);
    assert_eq!(readonly_bits(0o600), 0o400);
    assert_eq!(readonly_bits(0o4755), 0o4555);
    assert_eq!(readonly_bits(0o222), 0);
}

#[test]
fn dot_entries_are_recognized() {
    assert!(is_dot_name("."));
    assert!(is_dot_name(".."));
    assert!(!is_dot_name("..."));
    assert!(!is_dot_name(".hidden"));
    assert!(!is_dot_name("a"));
    assert!(!is_dot_name(""));
}
