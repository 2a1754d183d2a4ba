//! The content-addressable artifact cache: a store keyed by digest in which
//! each unique content blob is fetched at most once and stored exactly once.
//! The disk directory is the store; this module holds its logic — the hit
//! test, the integrity check against the pinned digest, and the transition
//! `spec_ensure` every `ensure` call performs — and proves the cache laws.

use vstd::prelude::*;

use crate::errors::McError;
use crate::hash::{digest_of, hash_bytes};
use crate::text::str_eq;

verus! {

broadcast use vstd::std_specs::vec::group_vec_axioms, vstd::seq::group_seq_axioms;

/// The digests present in a cache directory listing.
pub open spec fn digest_set(v: Seq<String>) -> Set<Seq<char>> {
    Set::new(|d: Seq<char>| exists|i: int| 0 <= i < v.len() && v[i]@ == d)
}

/// The integrity gate of the cache: fetched bytes are accepted exactly when
/// their digest equals the pinned one; a mismatch names the artifact and is
/// never silently accepted or retried.
pub fn check_fetched_artifact(name: &String, bytes: &Vec<u8>, expected_digest: &String) -> (r:
    Result<(), McError>)
    ensures
        r is Ok <==> digest_of(bytes@) == expected_digest@,
        match r {
            Ok(u) => true,
            Err(e) => match e {
                McError::HashMismatch(n) => n@ == name@,
                _ => false,
            },
        },
{
    let actual = hash_bytes(bytes);
    if str_eq(actual.as_str(), expected_digest.as_str()) {
        Ok(())
    } else {
        Err(McError::HashMismatch(name.clone()))
    }
}

/// What one `ensure(name, locator, expectedDigest)` call does to the set of
/// cached digests, given the bytes a fetch would return: a hit changes
/// nothing and fetches nothing; a miss fetches, and stores the bytes exactly
/// when their digest is the expected one. The triple is (cache after,
/// fetched, accepted).
pub open spec fn spec_ensure(cache: Set<Seq<char>>, d: Seq<char>, payload: Seq<u8>) -> (
    Set<Seq<char>>,
    bool,
    bool,
) {
    if cache.contains(d) {
        (cache, false, true)
    } else if digest_of(payload) == d {
        (cache.insert(d), true, true)
    } else {
        (cache, true, false)
    }
}

/// Cache idempotence: once an ensure of a digest has succeeded, a second
/// ensure of the same digest performs no fetch and changes nothing — over
/// both calls the content is fetched at most once, and exactly once when the
/// digest was not cached before.
pub proof fn lemma_ensure_idempotent(
    cache: Set<Seq<char>>,
    d: Seq<char>,
    p1: Seq<u8>,
    p2: Seq<u8>,
)
    requires
        spec_ensure(cache, d, p1).2,
    ensures
        !spec_ensure(spec_ensure(cache, d, p1).0, d, p2).1,
        spec_ensure(spec_ensure(cache, d, p1).0, d, p2).0 == spec_ensure(cache, d, p1).0,
        spec_ensure(spec_ensure(cache, d, p1).0, d, p2).2,
        !cache.contains(d) ==> spec_ensure(cache, d, p1).1,
{
    assert(spec_ensure(cache, d, p1).0.contains(d));
}

/// Hash-mismatch rejection: an ensure whose fetched bytes do not hash to the
/// pinned digest is refused and stores nothing — in particular the digest's
/// cache path still does not exist afterwards.
pub proof fn lemma_ensure_mismatch(cache: Set<Seq<char>>, d: Seq<char>, p: Seq<u8>)
    requires
        !cache.contains(d),
        digest_of(p) != d,
    ensures
        !spec_ensure(cache, d, p).2,
        spec_ensure(cache, d, p).1,
        spec_ensure(cache, d, p).0 == cache,
        !spec_ensure(cache, d, p).0.contains(d),
{
}

/// An in-memory mirror of a cache directory: the digests whose blobs exist.
pub struct CacheDir {
    pub digests: Vec<String>,
}

impl CacheDir {
    /// An empty cache directory.
    pub fn new() -> (r: CacheDir)
        ensures
            r@ == Set::<Seq<char>>::empty(),
    {
        let r = CacheDir { digests: Vec::new() };
        proof {
            assert(digest_set(Seq::<String>::empty()) =~= Set::<Seq<char>>::empty());
        }
        r
    }

    /// Whether the blob of a digest is present.
    pub fn has(&self, digest: &String) -> (r: bool)
        ensures
            r == self@.contains(digest@),
    {
        let v = &self.digests;
        let mut i: usize = 0;
        while i < v.len()
            invariant
                v@ == self.digests@,
                i <= v@.len(),
                forall|l: int| 0 <= l < i ==> v@[l]@ != digest@,
            decreases v@.len() - i,
        {
            if str_eq(v[i].as_str(), digest.as_str()) {
                return true;
            }
            i = i + 1;
        }
        false
    }

    /// One `ensure` call over this mirror: `payload` stands for the bytes a
    /// fetch would return for the artifact. Returns whether a fetch happened,
    /// and the acceptance of the bytes — exactly the `spec_ensure`
    /// transition.
    pub fn ensure_artifact(
        &mut self,
        name: &String,
        expected_digest: &String,
        payload: &Vec<u8>,
    ) -> (r: (bool, Result<(), McError>))
        ensures
            (final(self)@, r.0, r.1 is Ok) == spec_ensure(old(self)@, expected_digest@, payload@),
            match r.1 {
                Ok(u) => true,
                Err(e) => match e {
                    McError::HashMismatch(n) => n@ == name@,
                    _ => false,
                },
            },
    {
        if self.has(expected_digest) {
            return (false, Ok(()));
        }
        match check_fetched_artifact(name, payload, expected_digest) {
            Ok(()) => {
                let ghost before = self.digests@;
                self.digests.push(expected_digest.clone());
                proof {
                    assert forall|d: Seq<char>| digest_set(self.digests@).contains(d) implies
                        digest_set(before).insert(expected_digest@).contains(d) by {
                        let i = choose|i: int|
                            0 <= i < self.digests@.len() && self.digests@[i]@ == d;
                        if i < before.len() {
                            assert(before[i]@ == d);
                        }
                    }
                    assert forall|d: Seq<char>| digest_set(before).insert(
                        expected_digest@,
                    ).contains(d) implies digest_set(self.digests@).contains(d) by {
                        if d == expected_digest@ {
                            assert(self.digests@[before.len() as int]@ == d);
                        } else {
                            let i = choose|i: int| 0 <= i < before.len() && before[i]@ == d;
                            assert(self.digests@[i]@ == d);
                        }
                    }
                    assert(digest_set(self.digests@) =~= digest_set(before).insert(
                        expected_digest@,
                    ));
                }
                (true, Ok(()))
            },
            Err(e) => (true, Err(e)),
        }
    }
}

impl View for CacheDir {
    type V = Set<Seq<char>>;

    open spec fn view(&self) -> Set<Seq<char>> {
        digest_set(self.digests@)
    }
}

} // verus!
