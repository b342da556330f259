//! The route cache: the live index, synchronization, and queries.
//!
//! The cache owns the index and replaces it wholesale on each successful
//! synchronization: a new index is built in full from a store listing and
//! then installed in one assignment, so a reader only ever observes a
//! complete build. A failed listing leaves the index and the last-success
//! timestamp untouched; only the last-attempt timestamp moves.

use vstd::prelude::*;
use vstd::string::*;
use crate::config::RouteConfig;
use crate::index::{Index, index_insert, views};
use crate::keys::{parse_key, parse_key_spec};

verus! {

/// Why a synchronization attempt failed. Every variant is recoverable:
/// the previous index snapshot stays authoritative.
#[derive(Clone, Copy, Debug, PartialEq, Eq, Structural)]
pub enum SyncError {
    ListingFailed,
    Timeout,
    AuthFailure,
}

/// Whether some key of the listing parses to the triple `(b, a, v)`.
pub open spec fn listing_has(keys: Seq<Seq<char>>, b: Seq<char>, a: Seq<char>, v: Seq<char>) -> bool {
    exists|i: int|
        0 <= i < keys.len() && parse_key_spec(#[trigger] keys[i]) == Option::Some((b, a, v))
}

/// Builds an index from a store listing. Malformed keys contribute
/// nothing; they never fail the build.
pub fn build_index(keys: &Vec<String>) -> (idx: Index)
    ensures
        idx.wf(),
        forall|b: Seq<char>, a: Seq<char>, v: Seq<char>|
            #[trigger] idx.contains_triple(b, a, v) <==> listing_has(views(keys@), b, a, v),
{
    let ghost kv = views(keys@);
    let mut idx = Index::new();
    let mut m: usize = 0;
    proof {
        assert forall|b: Seq<char>, a: Seq<char>, v: Seq<char>| #[trigger]
            idx.contains_triple(b, a, v) <==> listing_has(kv.take(0), b, a, v) by {
            assert(!idx.contains_triple(b, a, v));
            assert(kv.take(0).len() == 0);
        }
    }
    while m < keys.len()
        invariant
            kv == views(keys@),
            0 <= m <= keys@.len(),
            idx.wf(),
            forall|b: Seq<char>, a: Seq<char>, v: Seq<char>|
                #[trigger] idx.contains_triple(b, a, v) <==> listing_has(kv.take(m as int), b, a, v),
        decreases keys@.len() - m,
    {
        let ghost idx_before = idx;
        let parsed = parse_key(keys[m].as_str());
        proof {
            assert(kv[m as int] == keys@[m as int]@);
        }
        match parsed {
            Option::Some(t) => {
                index_insert(&mut idx, t.0.as_str(), t.1.as_str(), t.2.as_str());
            },
            Option::None => {},
        }
        proof {
            let pre = kv.take(m as int);
            let post = kv.take(m as int + 1);
            assert(post.len() == m + 1);
            assert(post[m as int] == kv[m as int]);
            assert(forall|j: int| 0 <= j < m ==> post[j] == kv[j] && pre[j] == kv[j]);
            assert forall|b: Seq<char>, a: Seq<char>, v: Seq<char>| #[trigger]
                idx.contains_triple(b, a, v) <==> listing_has(post, b, a, v) by {
                if idx.contains_triple(b, a, v) {
                    if idx_before.contains_triple(b, a, v) {
                        let j = choose|j: int|
                            0 <= j < pre.len() && parse_key_spec(#[trigger] pre[j])
                                == Option::Some((b, a, v));
                        assert(parse_key_spec(post[j]) == Option::Some((b, a, v)));
                    } else {
                        assert(parse_key_spec(post[m as int]) == Option::Some((b, a, v)));
                    }
                }
                if listing_has(post, b, a, v) {
                    let j = choose|j: int|
                        0 <= j < post.len() && parse_key_spec(#[trigger] post[j]) == Option::Some(
                            (b, a, v),
                        );
                    if j < m {
                        assert(parse_key_spec(pre[j]) == Option::Some((b, a, v)));
                        assert(idx_before.contains_triple(b, a, v));
                    }
                }
            }
        }
        m += 1;
    }
    proof {
        assert(kv.take(keys@.len() as int) =~= kv);
    }
    idx
}

/// The target a current-version request is redirected to:
/// `<prefix>/<branch>/<arch>/<version>/<path>`.
pub open spec fn spec_redirect(
    prefix: Seq<char>,
    branch: Seq<char>,
    arch: Seq<char>,
    version: Seq<char>,
    path: Seq<char>,
) -> Seq<char> {
    prefix + seq!['/'] + branch + seq!['/'] + arch + seq!['/'] + version + seq!['/'] + path
}

/// Builds a redirect target by joining the pieces with `/`.
pub fn redirect_target(
    prefix: &str,
    branch: &str,
    arch: &str,
    version: &str,
    path: &str,
) -> (r: String)
    ensures
        r@ == spec_redirect(prefix@, branch@, arch@, version@, path@),
{
    proof {
        reveal_strlit("/");
        assert("/"@ =~= seq!['/']);
    }
    let mut r = String::from_str(prefix);
    r.append("/");
    r.append(branch);
    r.append("/");
    r.append(arch);
    r.append("/");
    r.append(version);
    r.append("/");
    r.append(path);
    r
}

/// The route cache. Two states are observable: unsynced (empty index, no
/// success recorded; every query answers empty) and ready (the index of
/// the most recent successful synchronization).
pub struct RouteCache {
    pub config: RouteConfig,
    pub index: Index,
    pub last_attempt: Option<u64>,
    pub last_success: Option<u64>,
}

impl RouteCache {
    pub open spec fn wf(self) -> bool {
        self.index.wf()
    }

    /// A cache over `config` that has never synchronized: its index is
    /// empty and no timestamps are recorded. Never fails.
    pub fn new(config: RouteConfig) -> (c: RouteCache)
        ensures
            c.wf(),
            c.config == config,
            c.index.branches@.len() == 0,
            c.last_attempt is None,
            c.last_success is None,
            forall|b: Seq<char>, a: Seq<char>, v: Seq<char>| !(#[trigger] c.index.contains_triple(
                b,
                a,
                v,
            )),
    {
        RouteCache {
            config,
            index: Index::new(),
            last_attempt: Option::None,
            last_success: Option::None,
        }
    }

    /// Applies the outcome of one store listing taken at time `now`.
    ///
    /// On a successful listing, an index built in full from that listing
    /// replaces the live index in a single assignment and the success
    /// timestamp is recorded; the caller sees either the old or the
    /// complete new index, never a partial one. On a failed listing the
    /// error is returned and neither the index nor the last-success
    /// timestamp changes.
    pub fn sync(&mut self, listing: Result<Vec<String>, SyncError>, now: u64) -> (r: Result<
        (),
        SyncError,
    >)
        requires
            old(self).wf(),
        ensures
            final(self).wf(),
            final(self).config == old(self).config,
            final(self).last_attempt == Some(now),
            match listing {
                Result::Ok(keys) => r is Ok && final(self).last_success == Some(now) && (forall|
                    b: Seq<char>,
                    a: Seq<char>,
                    v: Seq<char>,
                |
                    #[trigger] final(self).index.contains_triple(b, a, v) <==> listing_has(
                        views(keys@),
                        b,
                        a,
                        v,
                    )),
                Result::Err(e) => r == Result::<(), SyncError>::Err(e) && final(self).index == old(
                    self,
                ).index && final(self).last_success == old(self).last_success,
            },
    {
        self.last_attempt = Option::Some(now);
        match listing {
            Result::Ok(keys) => {
                let idx = build_index(&keys);
                self.index = idx;
                self.last_success = Option::Some(now);
                Result::Ok(())
            },
            Result::Err(e) => Result::Err(e),
        }
    }

    /// All branch names in the live index, ascending.
    pub fn branches(&self) -> (r: Vec<String>)
        ensures
            views(r@) == self.index.branch_names(),
    {
        self.index.branches()
    }

    /// All architecture names under `branch`, ascending; empty if unknown.
    pub fn architectures(&self, branch: &str) -> (r: Vec<String>)
        ensures
            views(r@) == self.index.spec_arches(branch@),
    {
        self.index.architectures(branch)
    }

    /// All versions under `(branch, arch)`, ascending under the version
    /// order; empty if the pair is unknown.
    pub fn versions(&self, branch: &str, arch: &str) -> (r: Vec<String>)
        ensures
            views(r@) == self.index.spec_versions(branch@, arch@),
    {
        self.index.versions(branch, arch)
    }

    /// The greatest version under `(branch, arch)`, or `None` if the pair
    /// is unknown; absence is a normal outcome, never an error.
    pub fn latest_version(&self, branch: &str, arch: &str) -> (r: Option<String>)
        ensures
            match r {
                Option::None => self.index.spec_versions(branch@, arch@).len() == 0,
                Option::Some(v) => self.index.spec_versions(branch@, arch@).len() > 0 && v@
                    == self.index.spec_versions(branch@, arch@).last(),
            },
    {
        self.index.latest_version(branch, arch)
    }

    /// The base URL redirect targets are built from.
    pub fn public_prefix(&self) -> (r: &str)
        ensures
            r@ == self.config.public_prefix@,
    {
        self.config.public_prefix()
    }

    /// The redirect target for `GET /<branch>/<arch>/current/<path>`: the
    /// latest version's object path under the public prefix, or `None`
    /// (a not-found outcome) if no version resolves.
    pub fn current_redirect(&self, branch: &str, arch: &str, path: &str) -> (r: Option<String>)
        ensures
            match r {
                Option::None => self.index.spec_versions(branch@, arch@).len() == 0,
                Option::Some(u) => self.index.spec_versions(branch@, arch@).len() > 0 && u@
                    == spec_redirect(
                    self.config.public_prefix@,
                    branch@,
                    arch@,
                    self.index.spec_versions(branch@, arch@).last(),
                    path@,
                ),
            },
    {
        match self.latest_version(branch, arch) {
            Option::None => Option::None,
            Option::Some(v) => Option::Some(
                redirect_target(self.config.public_prefix(), branch, arch, v.as_str(), path),
            ),
        }
    }
}

} // verus!
