use vstd::prelude::*;
use crate::router::{NotFound, Route, Router, pair_views, params_of};
use crate::http::{Request, Response};
use crate::session::{Middleware, Session, Signal, run_chain, run_from};

verus! {

/// A mount path as the registry keys it: `"/"` stands for the empty prefix.
pub open spec fn normalize(p: Seq<char>) -> Seq<char> {
    if p == seq!['/'] {
        Seq::empty()
    } else {
        p
    }
}

/// Whether `p` starts `s`.
pub open spec fn is_prefix(p: Seq<char>, s: Seq<char>) -> bool {
    p.len() <= s.len() && s.subrange(0, p.len() as int) == p
}

/// What is left of `s` once a prefix of `n` characters is taken off.
pub open spec fn rest_of(s: Seq<char>, n: int) -> Seq<char> {
    s.subrange(n, s.len() as int)
}

/// Whether `p` starts `s`.
pub fn starts_with(s: &str, p: &str) -> (r: bool)
    ensures
        r == is_prefix(p@, s@),
{
    let n = s.unicode_len();
    let m = p.unicode_len();
    if m > n {
        return false;
    }
    let mut i: usize = 0;
    while i < m
        invariant
            m == p@.len(),
            n == s@.len(),
            m <= n,
            i <= m,
            s@.subrange(0, i as int) == p@.subrange(0, i as int),
        decreases m - i,
    {
        if s.get_char(i) != p.get_char(i) {
            return false;
        }
        i = i + 1;
        assert(s@.subrange(0, i as int) =~= s@.subrange(0, i - 1).push(s@[i - 1]));
        assert(p@.subrange(0, i as int) =~= p@.subrange(0, i - 1).push(p@[i - 1]));
    }
    assert(p@.subrange(0, m as int) =~= p@);
    true
}

/// A router together with the prefix it is mounted under.
pub struct Mount<H> {
    pub prefix: String,
    pub router: Router<H>,
}

/// The registry: mount prefixes, each with its router.
pub struct ServerInner<H> {
    pub mounts: Vec<Mount<H>>,
}

/// Routes requests to the router whose mount prefix is the longest that
/// starts the request path.
pub struct Server<H> {
    pub inner: ServerInner<H>,
}

/// The parameters a request holds once a route bound `bound` on it: a
/// route that binds nothing leaves them as they were.
pub open spec fn params_after(
    after: Option<Vec<(String, String)>>,
    before: Option<Vec<(String, String)>>,
    bound: Seq<(Seq<char>, Seq<char>)>,
) -> bool {
    if bound.len() == 0 {
        after == before
    } else {
        after matches Some(p) && pair_views(p@) == bound
    }
}

/// Where a request was resolved: the mount, the route within its router,
/// and what the route's pattern bound.
pub struct Found {
    pub mount: usize,
    pub route: usize,
    pub params: Vec<(String, String)>,
}

impl<H> Server<H> {
    pub open spec fn mounts(&self) -> Seq<Mount<H>> {
        self.inner.mounts@
    }

    pub open spec fn prefix(&self, j: int) -> Seq<char> {
        self.mounts()[j].prefix@
    }

    /// Every router is well formed and no prefix is mounted twice.
    pub open spec fn wf(&self) -> bool {
        &&& forall|j: int| 0 <= j < self.mounts().len() ==> (#[trigger] self.mounts()[j]).router.wf()
        &&& forall|i: int, j: int|
            0 <= i < j < self.mounts().len() ==> #[trigger] self.prefix(i) != #[trigger] self.prefix(j)
    }

    /// Whether some mount prefix starts `path`.
    pub open spec fn has_mount(&self, path: Seq<char>) -> bool {
        exists|j: int| 0 <= j < self.mounts().len() && is_prefix(#[trigger] self.prefix(j), path)
    }

    /// Whether mount `j` is the one chosen for `path`: its prefix starts the
    /// path, and no prefix that also starts it is longer.
    pub open spec fn selects(&self, j: int, path: Seq<char>) -> bool {
        &&& 0 <= j < self.mounts().len()
        &&& is_prefix(self.prefix(j), path)
        &&& forall|k: int|
            0 <= k < self.mounts().len() && is_prefix(#[trigger] self.prefix(k), path) ==> self.prefix(
                k,
            ).len() <= self.prefix(j).len()
    }

    /// The path that mount `j` is asked for.
    pub open spec fn rest(&self, j: int, path: Seq<char>) -> Seq<char> {
        rest_of(path, self.prefix(j).len() as int)
    }

    /// Route `k` of mount `j`.
    pub open spec fn route_at(&self, j: int, k: int) -> Route<H> {
        self.mounts()[j].router.routes@[k]
    }

    /// Whether route `k` of mount `j` is the one that answers `method` on
    /// `path`: mount `j` is chosen for the path, and `k` is the first route of
    /// its router that answers `method` on what follows the prefix.
    pub open spec fn serves(&self, j: int, k: int, method: Seq<char>, path: Seq<char>) -> bool {
        let router = self.mounts()[j].router;
        let rest = self.rest(j, path);
        &&& self.selects(j, path)
        &&& 0 <= k < router.routes@.len()
        &&& router.answers(k, method, rest)
        &&& forall|l: int| 0 <= l < k ==> !#[trigger] router.answers(l, method, rest)
    }

    /// Whether some mount is keyed by `p`.
    pub open spec fn has_prefix(&self, p: Seq<char>) -> bool {
        exists|j: int| 0 <= j < self.mounts().len() && #[trigger] self.prefix(j) == p
    }

    /// An empty registry.
    pub fn new() -> (r: Server<H>)
        ensures
            r.wf(),
            r.mounts().len() == 0,
    {
        Server { inner: ServerInner { mounts: Vec::new() } }
    }

    /// Mounts `router` under `path`, `"/"` standing for the empty prefix. A
    /// prefix already mounted keeps its place and takes the new router; any
    /// other is added at the end.
    pub fn register(&mut self, path: &str, router: Router<H>)
        requires
            old(self).wf(),
            router.wf(),
        ensures
            final(self).wf(),
            old(self).has_prefix(normalize(path@)) ==> final(self).mounts().len() == old(
                self,
            ).mounts().len(),
            !old(self).has_prefix(normalize(path@)) ==> final(self).mounts().len() == old(
                self,
            ).mounts().len() + 1 && final(self).mounts().last().prefix@ == normalize(path@)
                && final(self).mounts().last().router == router,
            forall|j: int|
                0 <= j < old(self).mounts().len() ==> if old(self).prefix(j) == normalize(path@) {
                    final(self).prefix(j) == normalize(path@) && final(self).mounts()[j].router
                        == router
                } else {
                    final(self).mounts()[j] == old(self).mounts()[j]
                },
    {
        let ghost given = router;
        let key = if path.unicode_len() == 1 && path.get_char(0) == '/' {
            proof {
                assert(path@ =~= seq!['/']);
            }
            String::new()
        } else {
            path.to_owned()
        };
        assert(key@ == normalize(path@));
        let mut j: usize = 0;
        while j < self.inner.mounts.len()
            invariant
                self.wf(),
                *self == *old(self),
                router == given,
                given.wf(),
                key@ == normalize(path@),
                j <= self.mounts().len(),
                forall|k: int| 0 <= k < j ==> #[trigger] self.prefix(k) != key@,
            decreases self.mounts().len() - j,
        {
            if self.inner.mounts[j].prefix == key {
                let ghost prev = self.mounts();
                self.inner.mounts[j] = Mount { prefix: key, router };
                proof {
                    assert(old(self).prefix(j as int) == key@);
                    assert forall|k: int| 0 <= k < prev.len() && k != j implies #[trigger] self.mounts()[k]
                        == prev[k] by {}
                    assert forall|k: int| 0 <= k < prev.len() implies #[trigger] self.prefix(k)
                        == old(self).prefix(k) && self.mounts()[k].router.wf() by {
                        assert(prev[k].router.wf());
                    }
                    assert forall|a: int, b: int|
                        0 <= a < b < self.mounts().len() implies #[trigger] self.prefix(a)
                        != #[trigger] self.prefix(b) by {
                        assert(old(self).prefix(a) != old(self).prefix(b));
                    }
                }
                return;
            }
            j = j + 1;
        }
        let ghost prev = self.mounts();
        self.inner.mounts.push(Mount { prefix: key, router });
        proof {
            assert forall|k: int| 0 <= k < prev.len() implies #[trigger] self.mounts()[k]
                == prev[k] by {}
            assert forall|a: int, b: int|
                0 <= a < b < self.mounts().len() implies #[trigger] self.prefix(a)
                != #[trigger] self.prefix(b) by {
                assert(self.mounts()[a] == prev[a]);
                if b == prev.len() {
                    assert(old(self).prefix(a) != key@);
                } else {
                    assert(self.mounts()[b] == prev[b]);
                    assert(old(self).prefix(a) != old(self).prefix(b));
                }
            }
        }
    }

    /// The mount chosen for `path`: the one with the longest prefix that
    /// starts it, if any prefix does.
    fn select_mount(&self, path: &String) -> (r: Option<usize>)
        requires
            self.wf(),
        ensures
            r is None <==> !self.has_mount(path@),
            r matches Some(j) ==> self.selects(j as int, path@),
    {
        let mut best: Option<usize> = None;
        let mut best_len: usize = 0;
        let mut j: usize = 0;
        while j < self.inner.mounts.len()
            invariant
                self.wf(),
                j <= self.mounts().len(),
                best is None ==> forall|k: int|
                    0 <= k < j ==> !is_prefix(#[trigger] self.prefix(k), path@),
                best matches Some(b) ==> {
                    &&& b < j
                    &&& best_len == self.prefix(b as int).len()
                    &&& is_prefix(self.prefix(b as int), path@)
                    &&& forall|k: int|
                        0 <= k < j && is_prefix(#[trigger] self.prefix(k), path@) ==> self.prefix(
                            k,
                        ).len() <= best_len
                },
            decreases self.mounts().len() - j,
        {
            let prefix = self.inner.mounts[j].prefix.as_str();
            if starts_with(path.as_str(), prefix) {
                let len = prefix.unicode_len();
                if best.is_none() || len > best_len {
                    best = Some(j);
                    best_len = len;
                }
            }
            j = j + 1;
        }
        best
    }

    /// Resolves `method` on `path`: the mount with the longest prefix that
    /// starts the path is asked for what follows that prefix, and its router
    /// answers with its first matching route; or why nothing answers.
    pub fn find_route(&self, method: &String, path: &String) -> (r: Result<Found, NotFound>)
        requires
            self.wf(),
        ensures
            r == Err::<Found, NotFound>(NotFound::NoMount) <==> !self.has_mount(path@),
            r matches Ok(m) ==> {
                let router = self.mounts()[m.mount as int].router;
                let rest = self.rest(m.mount as int, path@);
                &&& self.selects(m.mount as int, path@)
                &&& m.route < router.routes@.len()
                &&& router.answers(m.route as int, method@, rest)
                &&& forall|k: int| 0 <= k < m.route ==> !#[trigger] router.answers(k, method@, rest)
                &&& pair_views(m.params@) == params_of(router.routes@[m.route as int].pattern@, rest)
            },
            forall|j: int| #[trigger]
                self.selects(j, path@) ==> {
                    let router = self.mounts()[j].router;
                    let rest = self.rest(j, path@);
                    &&& (r is Ok <==> router.has_route(method@, rest))
                    &&& (r == Err::<Found, NotFound>(NotFound::NoPath) <==> !router.has_path(rest))
                    &&& (r == Err::<Found, NotFound>(NotFound::NoMethod) <==> router.has_path(rest)
                        && !router.has_route(method@, rest))
                },
    {
        match self.select_mount(path) {
            None => Err(NotFound::NoMount),
            Some(j) => {
                let mount = &self.inner.mounts[j];
                let plen = mount.prefix.as_str().unicode_len();
                let n = path.as_str().unicode_len();
                assert(self.selects(j as int, path@));
                let rest = path.as_str().substring_char(plen, n).to_owned();
                assert(mount.router.wf());
                proof {
                    assert forall|k: int| #[trigger] self.selects(k, path@) implies k == j by {
                        if k != j {
                            lemma_longest_prefix_wins(self, path@, j as int, k);
                        }
                    }
                }
                match mount.router.find_route(method, &rest) {
                    Ok(m) => Ok(Found { mount: j, route: m.route, params: m.params }),
                    Err(e) => Err(e),
                }
            },
        }
    }

    /// The chain of the route that `found` names.
    pub fn session(&self, found: &Found) -> (r: &Session<H>)
        requires
            found.mount < self.mounts().len(),
            found.route < self.mounts()[found.mount as int].router.routes@.len(),
        ensures
            *r == self.mounts()[found.mount as int].router.routes@[found.route as int].session,
    {
        &self.inner.mounts[found.mount].router.routes[found.route].session
    }
}

impl<H: Middleware> Server<H> {
    /// Handles one request: resolves its method and route, binds the route's
    /// parameters into it, and runs the route's chain on it and `response`.
    /// Returns what each handler that ran said, or why no route answered.
    pub fn dispatch(&self, request: &mut Request, response: &mut Response) -> (r: Result<
        Vec<Signal>,
        NotFound,
    >)
        requires
            self.wf(),
        ensures
            final(request).method == old(request).method,
            final(request).route == old(request).route,
            final(request).body == old(request).body,
            r == Err::<Vec<Signal>, NotFound>(NotFound::NoMount) <==> !self.has_mount(
                old(request).route@,
            ),
            forall|j: int| #[trigger]
                self.selects(j, old(request).route@) ==> {
                    let router = self.mounts()[j].router;
                    let rest = self.rest(j, old(request).route@);
                    let method = old(request).method@;
                    &&& (r is Ok <==> router.has_route(method, rest))
                    &&& (r == Err::<Vec<Signal>, NotFound>(NotFound::NoPath) <==> !router.has_path(
                        rest,
                    ))
                    &&& (r == Err::<Vec<Signal>, NotFound>(NotFound::NoMethod) <==> router.has_path(
                        rest,
                    ) && !router.has_route(method, rest))
                },
            r is Err ==> final(request).params == old(request).params && *final(response) == *old(
                response,
            ),
            r matches Ok(signals) ==> exists|j: int, k: int|
                {
                    &&& #[trigger] self.serves(j, k, old(request).method@, old(request).route@)
                    &&& params_after(
                        final(request).params,
                        old(request).params,
                        params_of(self.route_at(j, k).pattern@, self.rest(j, old(request).route@)),
                    )
                    &&& (signals@, *final(response)) == run_from(
                        self.route_at(j, k).session.chain@,
                        *final(request),
                        *old(response),
                        0,
                    )
                },
    {
        match self.find_route(&request.method, &request.route) {
            Err(e) => Err(e),
            Ok(found) => {
                let session = self.session(&found);
                let ghost bound = pair_views(found.params@);
                if found.params.len() > 0 {
                    request.params = Some(found.params);
                }
                let signals = run_chain(&session.chain, request, response);
                assert(bound.len() == 0 ==> found.params@.len() == 0);
                assert(self.serves(
                    found.mount as int,
                    found.route as int,
                    old(request).method@,
                    old(request).route@,
                ));
                Ok(signals)
            },
        }
    }
}

/// The mount chosen for a path has a prefix strictly longer than that of
/// any other mount whose prefix also starts the path: no shorter matching
/// prefix is ever chosen over a longer one, and the choice is unique.
pub proof fn lemma_longest_prefix_wins<H>(s: &Server<H>, path: Seq<char>, j: int, k: int)
    requires
        s.wf(),
        s.selects(j, path),
        0 <= k < s.mounts().len(),
        k != j,
        is_prefix(s.prefix(k), path),
    ensures
        s.prefix(k).len() < s.prefix(j).len(),
{
    if s.prefix(k).len() == s.prefix(j).len() {
        assert(s.prefix(k) =~= path.subrange(0, s.prefix(k).len() as int));
        assert(s.prefix(k) == s.prefix(j));
        if k < j {
            assert(s.prefix(k) != s.prefix(j));
        } else {
            assert(s.prefix(j) != s.prefix(k));
        }
    }
}

} // verus!
