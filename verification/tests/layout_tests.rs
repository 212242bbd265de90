use dotslash_cache::dotslash_cache::{
    get_dotslash_cache, named_cache_dir_at, CacheRootError, DOTSLASH_CACHE_ENV,
};
use dotslash_cache::paths::{join_path, parent_path, u32_decimal};
use dotslash_cache::DotslashCache;

#[test]
fn join_path_joins_with_separator() {
    assert_eq!(join_path("a", "b"), "a/b");
    assert_eq!(join_path("/root", "locks"), "/root/locks");
    assert_eq!(join_path("", "x"), "/x");
}

#[test]
fn cache_dir_is_the_wrapped_root() {
    let c = DotslashCache::new_in("/srv/cache".to_string());
    assert_eq!(c.cache_dir(), "/srv/cache");
}

#[test]
fn artifacts_dir_is_the_root_itself() {
    let c = DotslashCache::new_in("/srv/cache".to_string());
    assert_eq!(c.artifacts_dir(), "/srv/cache");
}

#[test]
fn locks_dir_nests_under_locks() {
    let c = DotslashCache::new_in("/srv/cache".to_string());
    assert_eq!(c.locks_dir("ab"), "/srv/cache/locks/ab");
    assert_eq!(c.locks_dir("00"), "/srv/cache/locks/00");
}

#[test]
fn locks_and_artifact_paths_never_overlap() {
    for root in ["/r", "/home/u/.cache/dotslash", "rel"] {
        let c = DotslashCache::new_in(root.to_string());
        for prefix in ["ab", "00", "ff", "9c"] {
            let lock = c.locks_dir(prefix);
            let artifact = join_path(c.artifacts_dir(), prefix);
            assert_ne!(lock, artifact);
            assert!(!lock.starts_with(&format!("{}/", artifact)));
            assert!(!artifact.starts_with(&format!("{}/", lock)));
        }
    }
}

#[test]
fn parent_path_walks_ancestors() {
    assert_eq!(parent_path("/a/b"), Some("/a".to_string()));
    assert_eq!(parent_path("/a"), Some("/".to_string()));
    assert_eq!(parent_path("/"), None);
    assert_eq!(parent_path(""), None);
    assert_eq!(parent_path("a"), Some("".to_string()));
    assert_eq!(parent_path("a/b"), Some("a".to_string()));
    assert_eq!(parent_path("/a/b/"), Some("/a".to_string()));
    assert_eq!(parent_path("a//b"), Some("a".to_string()));
    assert_eq!(parent_path("///"), None);
    assert_eq!(parent_path("//a"), Some("/".to_string()));
}

#[test]
fn parent_path_reaches_the_root_in_finitely_many_steps() {
    let mut cur = "/usr/local/share/dotslash/ab/artifact".to_string();
    let mut steps = 0;
    while let Some(p) = parent_path(&cur) {
        assert!(p.len() < cur.len());
        cur = p;
        steps += 1;
        assert!(steps < 100);
    }
    assert_eq!(steps, 6);
}

#[test]
fn decimal_rendering_is_exact() {
    assert_eq!(u32_decimal(0), "0");
    assert_eq!(u32_decimal(7), "7");
    assert_eq!(u32_decimal(10), "10");
    assert_eq!(u32_decimal(1000), "1000");
    assert_eq!(u32_decimal(1234567890), "1234567890");
    assert_eq!(u32_decimal(u32::MAX), "4294967295");
}

#[test]
fn named_cache_dir_uses_numeric_user_id() {
    assert_eq!(named_cache_dir_at("/tmp", 1234), "/tmp/dotslash-1234");
    assert_eq!(named_cache_dir_at("/var/tmp", 0), "/var/tmp/dotslash-0");
}

#[test]
fn override_value_is_used_verbatim() {
    let r = get_dotslash_cache(Some("/tmp/custom-cache".to_string()), "/tmp").0;
    assert_eq!(r, Ok("/tmp/custom-cache".to_string()));
    let c = DotslashCache::new(Some("/tmp/custom-cache".to_string()), "/tmp").0.unwrap();
    assert_eq!(c.cache_dir(), "/tmp/custom-cache");
}

#[test]
fn resolution_without_override_is_namespace_or_fallback() {
    match get_dotslash_cache(None, "/tmp").0 {
        Ok(root) => {
            assert!(root.ends_with("/dotslash") || root.starts_with("/tmp/dotslash-"));
        }
        Err(CacheRootError::NoCacheDir) => {
            // No platform cache directory could be determined here.
        }
    }
}

#[test]
fn fatal_error_message_names_the_override_variable() {
    assert_eq!(DOTSLASH_CACHE_ENV, "DOTSLASH_CACHE");
    let msg = CacheRootError::NoCacheDir.message();
    assert!(msg.contains("DOTSLASH_CACHE"));
    assert_eq!(msg, "could not find DotSlash root - specify $DOTSLASH_CACHE");
}
