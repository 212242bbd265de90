//! The on-disk layout of the cache.
//!
//! Artifacts are sharded directly under the cache root by the first two
//! lowercase hex characters of their content hash; lock metadata lives
//! under a separate `locks` subtree keyed by the same prefix, so the two
//! never overlap and the lock subtree can be deleted independently. The
//! root itself comes from an operator override, from the platform cache
//! directory, or — when that directory is not safe for the current user
//! to own — from a per-user-named directory under the temp directory.

use vstd::prelude::*;

use crate::paths::{join_path, spec_decimal, spec_join, u32_decimal};
use crate::safety::{is_safe_to_own, safe_given_outcomes};
use crate::sys::{current_uid, platform_cache_dir, StatOutcome};

verus! {

/// The environment variable whose value, when set, is used verbatim as
/// the cache root.
pub const DOTSLASH_CACHE_ENV: &'static str = "DOTSLASH_CACHE";

/// The name of the lock subtree, as characters.
pub open spec fn locks_component() -> Seq<char> {
    seq!['l', 'o', 'c', 'k', 's']
}

/// The tool's namespace component under the platform cache directory.
pub open spec fn dotslash_component() -> Seq<char> {
    seq!['d', 'o', 't', 's', 'l', 'a', 's', 'h']
}

/// The stem of the per-user fallback directory name.
pub open spec fn dotslash_dash() -> Seq<char> {
    seq!['d', 'o', 't', 's', 'l', 'a', 's', 'h', '-']
}

/// The lock directory for one shard prefix under a given root.
pub open spec fn spec_locks_dir(root: Seq<char>, prefix: Seq<char>) -> Seq<char> {
    spec_join(spec_join(root, locks_component()), prefix)
}

/// The per-user fallback cache directory under a temp directory.
pub open spec fn spec_named_cache_dir(dir: Seq<char>, uid: nat) -> Seq<char> {
    spec_join(dir, dotslash_dash() + spec_decimal(uid))
}

/// A lowercase hexadecimal digit.
pub open spec fn is_lower_hex_char(c: char) -> bool {
    ('0' <= c && c <= '9') || ('a' <= c && c <= 'f')
}

/// A valid shard prefix: exactly two lowercase hex characters.
pub open spec fn is_hash_prefix(p: Seq<char>) -> bool {
    p.len() == 2 && is_lower_hex_char(p[0]) && is_lower_hex_char(p[1])
}

/// `a` is a strict path ancestor of `b`: `b` continues `a` with a
/// separator and more.
pub open spec fn is_path_ancestor(a: Seq<char>, b: Seq<char>) -> bool {
    a.len() < b.len() && b.subrange(0, a.len() as int) == a && b[a.len() as int] == '/'
}

/// How the cache root came about, recorded as a ghost value so that the
/// resolver's contract can tie its result to what it observed: the
/// override was taken verbatim; or no platform cache directory could be
/// determined; or the platform directory `base` was seen, the safety
/// walk for the candidate under it returned `outcomes` for user `uid`,
/// and `safe` is the walk's decision.
pub enum RootTrace {
    Overridden,
    NoPlatform,
    Platform { base: Seq<char>, uid: u32, outcomes: Seq<StatOutcome>, safe: bool },
}

/// The error of root resolution: no override is set and the platform
/// offers no cache directory. The caller must abort with the message.
#[derive(Clone, Copy, Debug, PartialEq, Eq, Structural)]
pub enum CacheRootError {
    NoCacheDir,
}

impl CacheRootError {
    /// The diagnostic to abort with, naming the override variable the
    /// operator must set.
    pub fn message(&self) -> (m: String)
        ensures
            m@ == "could not find DotSlash root - specify $DOTSLASH_CACHE"@,
    {
        "could not find DotSlash root - specify $DOTSLASH_CACHE".to_owned()
    }
}

/// The root directory of the cache. All artifact storage and lock
/// metadata paths are derived from it by pure path arithmetic.
pub struct DotslashCache {
    cache_dir: String,
}

impl View for DotslashCache {
    type V = Seq<char>;

    closed spec fn view(&self) -> Seq<char> {
        self.cache_dir@
    }
}

impl DotslashCache {
    /// Resolves the cache root and wraps it. `override_val` is the value
    /// of the override environment variable, if set; `temp_dir` is the
    /// platform temp directory, used only for the unsafe-to-own
    /// fallback. The ghost trace ties the root to what was observed,
    /// exactly as in `get_dotslash_cache`.
    pub fn new(override_val: Option<String>, temp_dir: &str) -> (r: (
        Result<DotslashCache, CacheRootError>,
        Ghost<RootTrace>,
    ))
        ensures
            override_val matches Some(v) ==> r.0 matches Ok(c) && c@ == v@ && r.1@ is Overridden,
            override_val is None ==> !(r.1@ is Overridden),
            override_val is None ==> (r.0 is Err <==> r.1@ is NoPlatform),
            r.0 is Err ==> r.0 matches Err(CacheRootError::NoCacheDir),
            r.1@ matches RootTrace::Platform { base: _, uid, outcomes, safe } ==> safe
                == safe_given_outcomes(outcomes, uid) && r.0 is Ok,
            r.1@ matches RootTrace::Platform { base, uid, outcomes: _, safe } ==> (r.0 matches Ok(
                c,
            ) ==> ((safe ==> c@ == spec_join(base, dotslash_component())) && (!safe ==> c@
                == spec_named_cache_dir(temp_dir@, uid as nat)))),
    {
        let (root, trace) = get_dotslash_cache(override_val, temp_dir);
        match root {
            Ok(root) => (Ok(Self::new_in(root)), trace),
            Err(e) => (Err(e), trace),
        }
    }

    /// Wraps an already chosen root directory.
    pub fn new_in(p: String) -> (c: Self)
        ensures
            c@ == p@,
    {
        DotslashCache { cache_dir: p }
    }

    /// The cache root directory.
    pub fn cache_dir(&self) -> (r: &str)
        ensures
            r@ == self@,
    {
        self.cache_dir.as_str()
    }

    /// The artifact storage area: the cache root itself, under which
    /// each artifact lives in the shard named by the first two hex
    /// characters of its hash.
    pub fn artifacts_dir(&self) -> (r: &str)
        ensures
            r@ == self@,
    {
        self.cache_dir.as_str()
    }

    /// The lock directory for one shard: `<root>/locks/<prefix>`.
    /// `artifact_hash_prefix` should be two lowercase hex digits.
    pub fn locks_dir(&self, artifact_hash_prefix: &str) -> (r: String)
        ensures
            r@ == spec_locks_dir(self@, artifact_hash_prefix@),
    {
        proof {
            reveal_strlit("locks");
            assert("locks"@ =~= locks_component());
        }
        let base = join_path(self.cache_dir.as_str(), "locks");
        join_path(base.as_str(), artifact_hash_prefix)
    }
}

/// Computes the cache root. An operator override is used verbatim, with
/// no further checks. Otherwise the platform cache directory plus the
/// tool's namespace is the candidate; when the candidate is not safe for
/// the current user to own — as under a privilege-elevated run whose
/// home directory belongs to someone else — a directory named by the
/// numeric user id under `temp_dir` is used instead. No platform cache
/// directory at all is fatal to the caller. The ghost trace records
/// which of the three ways was taken, and the contract ties the result
/// to it: the candidate is adopted exactly when the safety walk over
/// the observed outcomes decides it is safe, and never otherwise.
pub fn get_dotslash_cache(override_val: Option<String>, temp_dir: &str) -> (r: (
    Result<String, CacheRootError>,
    Ghost<RootTrace>,
))
    ensures
        override_val matches Some(v) ==> r.0 matches Ok(root) && root@ == v@ && r.1@
            is Overridden,
        override_val is None ==> !(r.1@ is Overridden),
        override_val is None ==> (r.0 is Err <==> r.1@ is NoPlatform),
        r.0 is Err ==> r.0 matches Err(CacheRootError::NoCacheDir),
        r.1@ matches RootTrace::Platform { base: _, uid, outcomes, safe } ==> safe
            == safe_given_outcomes(outcomes, uid) && r.0 is Ok,
        r.1@ matches RootTrace::Platform { base, uid, outcomes: _, safe } ==> (r.0 matches Ok(
            root,
        ) ==> ((safe ==> root@ == spec_join(base, dotslash_component())) && (!safe ==> root@
            == spec_named_cache_dir(temp_dir@, uid as nat)))),
{
    match override_val {
        Some(v) => (Ok(v), Ghost(RootTrace::Overridden)),
        None => {
            match platform_cache_dir() {
                None => (Err(CacheRootError::NoCacheDir), Ghost(RootTrace::NoPlatform)),
                Some(base) => {
                    proof {
                        reveal_strlit("dotslash");
                        assert("dotslash"@ =~= dotslash_component());
                    }
                    let candidate = join_path(base.as_str(), "dotslash");
                    let uid = current_uid();
                    let (safe, walk) = is_safe_to_own(candidate.as_str(), uid);
                    let ghost trace = RootTrace::Platform {
                        base: base@,
                        uid,
                        outcomes: walk@,
                        safe,
                    };
                    if safe {
                        proof {
                            assert(candidate@ == spec_join(base@, dotslash_component()));
                        }
                        (Ok(candidate), Ghost(trace))
                    } else {
                        (Ok(named_cache_dir_at(temp_dir, uid)), Ghost(trace))
                    }
                },
            }
        },
    }
}

/// The per-user fallback directory under `dir`: `dotslash-` followed by
/// the decimal user id.
pub fn named_cache_dir_at(dir: &str, uid: u32) -> (r: String)
    ensures
        r@ == spec_named_cache_dir(dir@, uid as nat),
{
    proof {
        reveal_strlit("dotslash-");
        assert("dotslash-"@ =~= dotslash_dash());
    }
    let mut name = "dotslash-".to_owned();
    let digits = u32_decimal(uid);
    name.append(digits.as_str());
    join_path(dir, name.as_str())
}

/// The lock subtree never overlaps artifact storage: for any root, the
/// lock directory of a shard and the artifact directory of the same
/// shard are distinct, and neither is an ancestor of the other.
pub proof fn lemma_locks_and_artifacts_disjoint(root: Seq<char>, prefix: Seq<char>)
    requires
        is_hash_prefix(prefix),
    ensures
        spec_locks_dir(root, prefix) != spec_join(root, prefix),
        !is_path_ancestor(spec_join(root, prefix), spec_locks_dir(root, prefix)),
        !is_path_ancestor(spec_locks_dir(root, prefix), spec_join(root, prefix)),
{
    let lock = spec_locks_dir(root, prefix);
    let art = spec_join(root, prefix);
    let n = root.len() as int;
    assert(lock.len() == n + 9);
    assert(art.len() == n + 3);
    assert(lock[n + 1] == 'l');
    assert(art[n + 1] == prefix[0]);
    assert(prefix[0] != 'l');
    if is_path_ancestor(art, lock) {
        assert(lock.subrange(0, n + 3)[n + 1] == lock[n + 1]);
    }
}

/// The lock directory is keyed by the shard prefix alone: under one
/// root, two prefixes name the same lock directory exactly when they are
/// the same prefix. Fetches of artifacts in the same shard therefore
/// contend on one lock, and fetches in different shards never do.
pub proof fn lemma_lock_dir_keyed_by_prefix(root: Seq<char>, p1: Seq<char>, p2: Seq<char>)
    ensures
        (spec_locks_dir(root, p1) == spec_locks_dir(root, p2)) <==> p1 == p2,
{
    let n = root.len() as int;
    if spec_locks_dir(root, p1) == spec_locks_dir(root, p2) {
        assert(p1 =~= spec_locks_dir(root, p1).subrange(n + 7, n + 7 + p1.len()));
        assert(p2 =~= spec_locks_dir(root, p2).subrange(n + 7, n + 7 + p2.len()));
        assert(p1 =~= p2);
    }
}

} // verus!
