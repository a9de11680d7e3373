use vstd::prelude::*;
use crate::path::{segments, split_segments, views};
use crate::session::Session;

verus! {

/// A pattern segment that names a parameter: it starts with `:`.
pub open spec fn is_param(seg: Seq<char>) -> bool {
    seg.len() > 0 && seg[0] == ':'
}

/// The name of a parameter segment: what follows the `:`.
pub open spec fn param_name(seg: Seq<char>) -> Seq<char> {
    seg.drop_first()
}

/// A parameter segment matches any non-empty path segment; a literal one
/// matches itself only.
pub open spec fn seg_matches(pat: Seq<char>, seg: Seq<char>) -> bool {
    if is_param(pat) {
        seg.len() > 0
    } else {
        pat == seg
    }
}

/// Full-path match: as many segments on both sides, each matching.
pub open spec fn segs_match(pat: Seq<Seq<char>>, path: Seq<Seq<char>>) -> bool {
    &&& pat.len() == path.len()
    &&& forall|i: int| 0 <= i < pat.len() ==> #[trigger] seg_matches(pat[i], path[i])
}

/// The pairs of `b` whose name is not `name`, in their order.
pub open spec fn without(b: Seq<(Seq<char>, Seq<char>)>, name: Seq<char>) -> Seq<
    (Seq<char>, Seq<char>),
>
    decreases b.len(),
{
    if b.len() == 0 {
        b
    } else {
        let r = without(b.drop_last(), name);
        if b.last().0 == name {
            r
        } else {
            r.push(b.last())
        }
    }
}

/// The (name, value) pairs that the first `n` segments of a pattern bind.
/// Each parameter segment binds its name to the path segment at its place,
/// in the order of the pattern; a name bound again drops its earlier
/// binding, so that the last segment of a name wins.
pub open spec fn bindings(pat: Seq<Seq<char>>, path: Seq<Seq<char>>, n: int) -> Seq<
    (Seq<char>, Seq<char>),
>
    decreases n,
{
    if n <= 0 {
        Seq::empty()
    } else {
        let b = bindings(pat, path, n - 1);
        if is_param(pat[n - 1]) {
            without(b, param_name(pat[n - 1])).push((param_name(pat[n - 1]), path[n - 1]))
        } else {
            b
        }
    }
}

/// What a pattern binds on a path, over all of its segments.
pub open spec fn params_of(pattern: Seq<char>, path: Seq<char>) -> Seq<(Seq<char>, Seq<char>)> {
    bindings(segments(pattern), segments(path), segments(pattern).len() as int)
}

/// Whether a pattern matches a path.
pub open spec fn pattern_matches(pattern: Seq<char>, path: Seq<char>) -> bool {
    segs_match(segments(pattern), segments(path))
}

/// The views of a list of (name, value) pairs.
pub open spec fn pair_views(v: Seq<(String, String)>) -> Seq<(Seq<char>, Seq<char>)> {
    v.map_values(|p: (String, String)| (p.0@, p.1@))
}

/// Drops the pairs named `name`.
fn drop_name(params: &Vec<(String, String)>, name: &String) -> (r: Vec<(String, String)>)
    ensures
        pair_views(r@) == without(pair_views(params@), name@),
{
    let mut r: Vec<(String, String)> = Vec::new();
    let mut j: usize = 0;
    while j < params.len()
        invariant
            j <= params@.len(),
            pair_views(r@) == without(pair_views(params@.subrange(0, j as int)), name@),
        decreases params@.len() - j,
    {
        let ghost prev = r@;
        proof {
            let b = pair_views(params@.subrange(0, j + 1));
            assert(b.drop_last() =~= pair_views(params@.subrange(0, j as int)));
            assert(b.last() == (params@[j as int].0@, params@[j as int].1@));
        }
        if !(params[j].0 == *name) {
            let pair = (params[j].0.clone(), params[j].1.clone());
            r.push(pair);
            assert(pair_views(r@) =~= pair_views(prev).push((pair.0@, pair.1@)));
        }
        j = j + 1;
    }
    assert(params@.subrange(0, params@.len() as int) =~= params@);
    r
}

/// Matches pattern segments against path segments, binding each parameter
/// segment to the path segment at its place; a name bound again keeps only
/// its last binding.
pub fn match_segments(pat: &Vec<String>, path: &Vec<String>) -> (r: Option<Vec<(String, String)>>)
    ensures
        r is Some <==> segs_match(views(pat@), views(path@)),
        r matches Some(p) ==> pair_views(p@) == bindings(
            views(pat@),
            views(path@),
            pat@.len() as int,
        ),
        r matches Some(p) ==> distinct_names(pair_views(p@)),
{
    proof {
        lemma_bindings_map(views(pat@), views(path@), pat@.len() as int);
    }
    if pat.len() != path.len() {
        return None;
    }
    let ghost ps = views(pat@);
    let ghost qs = views(path@);
    let mut params: Vec<(String, String)> = Vec::new();
    let mut i: usize = 0;
    while i < pat.len()
        invariant
            pat@.len() == path@.len(),
            ps == views(pat@),
            qs == views(path@),
            i <= pat@.len(),
            forall|k: int| 0 <= k < i ==> #[trigger] seg_matches(ps[k], qs[k]),
            pair_views(params@) == bindings(ps, qs, i as int),
        decreases pat@.len() - i,
    {
        let p: &str = pat[i].as_str();
        let q: &str = path[i].as_str();
        let plen = p.unicode_len();
        let qlen = q.unicode_len();
        assert(p@ == ps[i as int] && q@ == qs[i as int]);
        if plen > 0 && p.get_char(0) == ':' {
            if qlen == 0 {
                assert(!seg_matches(ps[i as int], qs[i as int]));
                return None;
            }
            let name = p.substring_char(1, plen).to_owned();
            let value = q.to_owned();
            assert(name@ =~= param_name(p@));
            params = drop_name(&params, &name);
            let ghost prev = params@;
            params.push((name, value));
            proof {
                assert(pair_views(params@) =~= pair_views(prev).push((name@, value@)));
            }
        } else {
            if !(pat[i] == path[i]) {
                assert(!seg_matches(ps[i as int], qs[i as int]));
                return None;
            }
        }
        i = i + 1;
    }
    Some(params)
}

/// One entry of a route table: a method, a path pattern, and its chain.
pub struct Route<H> {
    pub method: String,
    pub pattern: String,
    pub segments: Vec<String>,
    pub session: Session<H>,
}

impl<H> Route<H> {
    pub open spec fn wf(&self) -> bool {
        views(self.segments@) == segments(self.pattern@)
    }

    /// Whether this route answers `method` on `path`.
    pub open spec fn matches(&self, method: Seq<char>, path: Seq<char>) -> bool {
        self.method@ == method && pattern_matches(self.pattern@, path)
    }
}

/// Why a router, or a server, found no route.
#[derive(PartialEq, Eq, Structural, Clone, Copy, Debug)]
pub enum NotFound {
    /// No mount prefix starts the path.
    NoMount,
    /// No pattern matches the path.
    NoPath,
    /// Some pattern matches the path, but under other methods only.
    NoMethod,
}

/// A route that answered a request, and what its pattern bound.
pub struct RouteMatch {
    pub route: usize,
    pub params: Vec<(String, String)>,
}

/// The route table of one mount point, keyed by method and pattern.
pub struct Router<H> {
    pub routes: Vec<Route<H>>,
}

impl<H> Router<H> {
    /// Every route is well formed, and no two share method and pattern.
    pub open spec fn wf(&self) -> bool {
        &&& forall|i: int| 0 <= i < self.routes@.len() ==> #[trigger] self.routes@[i].wf()
        &&& forall|i: int, j: int|
            0 <= i < j < self.routes@.len() ==> !(#[trigger] self.routes@[i].method@
                == #[trigger] self.routes@[j].method@ && self.routes@[i].pattern@
                == self.routes@[j].pattern@)
    }

    /// Whether route `j` is keyed by `method` and `pattern`.
    pub open spec fn keyed(&self, j: int, method: Seq<char>, pattern: Seq<char>) -> bool {
        self.routes@[j].method@ == method && self.routes@[j].pattern@ == pattern
    }

    /// Whether some route is keyed by `method` and `pattern`.
    pub open spec fn has_key(&self, method: Seq<char>, pattern: Seq<char>) -> bool {
        exists|j: int| 0 <= j < self.routes@.len() && #[trigger] self.keyed(j, method, pattern)
    }

    /// Whether route `j` answers `method` on `path`.
    pub open spec fn answers(&self, j: int, method: Seq<char>, path: Seq<char>) -> bool {
        self.routes@[j].matches(method, path)
    }

    /// Whether some pattern of the table matches `path`, whatever its method.
    pub open spec fn has_path(&self, path: Seq<char>) -> bool {
        exists|j: int|
            0 <= j < self.routes@.len() && #[trigger] pattern_matches(self.routes@[j].pattern@, path)
    }

    /// Whether some route answers `method` on `path`.
    pub open spec fn has_route(&self, method: Seq<char>, path: Seq<char>) -> bool {
        exists|j: int| 0 <= j < self.routes@.len() && #[trigger] self.answers(j, method, path)
    }

    /// An empty route table.
    pub fn new() -> (r: Router<H>)
        ensures
            r.wf(),
            r.routes@.len() == 0,
    {
        Router { routes: Vec::new() }
    }

    /// Binds `session` to `method` on `pattern`. A route already keyed by the
    /// same method and pattern keeps its place and takes the new chain; any
    /// other key is added at the end.
    pub fn route(&mut self, method: &str, pattern: &str, session: Session<H>)
        requires
            old(self).wf(),
        ensures
            final(self).wf(),
            old(self).has_key(method@, pattern@) ==> final(self).routes@.len() == old(
                self,
            ).routes@.len(),
            !old(self).has_key(method@, pattern@) ==> final(self).routes@.len() == old(
                self,
            ).routes@.len() + 1 && final(self).keyed(
                old(self).routes@.len() as int,
                method@,
                pattern@,
            ) && final(self).routes@.last().session == session,
            forall|j: int|
                0 <= j < old(self).routes@.len() ==> if old(self).keyed(j, method@, pattern@) {
                    final(self).keyed(j, method@, pattern@) && final(self).routes@[j].session
                        == session
                } else {
                    final(self).routes@[j] == old(self).routes@[j]
                },
    {
        let m = method.to_owned();
        let p = pattern.to_owned();
        let mut j: usize = 0;
        while j < self.routes.len()
            invariant
                self.wf(),
                *self == *old(self),
                m@ == method@,
                p@ == pattern@,
                j <= self.routes@.len(),
                forall|k: int| 0 <= k < j ==> !#[trigger] self.keyed(k, method@, pattern@),
            decreases self.routes@.len() - j,
        {
            if self.routes[j].method == m && self.routes[j].pattern == p {
                let ghost prev = self.routes@;
                self.routes[j].session = session;
                proof {
                    assert(old(self).keyed(j as int, method@, pattern@));
                    assert(self.routes@[j as int].method == prev[j as int].method);
                    assert(self.routes@[j as int].pattern == prev[j as int].pattern);
                    assert(self.routes@[j as int].segments == prev[j as int].segments);
                    assert forall|k: int| 0 <= k < self.routes@.len() && k != j implies
                        #[trigger] self.routes@[k] == prev[k] by {}
                    assert forall|k: int| 0 <= k < self.routes@.len() implies (
                    #[trigger] self.routes@[k]).method == prev[k].method && self.routes@[k].pattern
                        == prev[k].pattern && self.routes@[k].wf() by {
                        assert(prev[k].wf());
                    }
                }
                return;
            }
            j = j + 1;
        }
        let segs = split_segments(pattern);
        let route = Route {
            method: m,
            pattern: p,
            segments: segs,
            session,
        };
        let ghost prev = self.routes@;
        self.routes.push(route);
        proof {
            assert(self.routes@ == prev.push(route));
            assert forall|k: int| 0 <= k < prev.len() implies !#[trigger] old(self).keyed(
                k,
                method@,
                pattern@,
            ) by {}
            assert(route.wf());
            assert forall|a: int, b: int|
                0 <= a < b < self.routes@.len() implies !(#[trigger] self.routes@[a].method@
                == #[trigger] self.routes@[b].method@ && self.routes@[a].pattern@
                == self.routes@[b].pattern@) by {
                if b == prev.len() {
                    assert(!old(self).keyed(a, method@, pattern@));
                }
            }
        }
    }

    /// The first route, in the order of the table, that answers `method` on
    /// `path`, with what its pattern binds; or why there is none.
    pub fn find_route(&self, method: &String, path: &String) -> (r: Result<RouteMatch, NotFound>)
        requires
            self.wf(),
        ensures
            r is Ok <==> self.has_route(method@, path@),
            r matches Ok(m) ==> {
                &&& m.route < self.routes@.len()
                &&& self.answers(m.route as int, method@, path@)
                &&& forall|j: int| 0 <= j < m.route ==> !#[trigger] self.answers(j, method@, path@)
                &&& pair_views(m.params@) == params_of(self.routes@[m.route as int].pattern@, path@)
            },
            r == Err::<RouteMatch, NotFound>(NotFound::NoPath) <==> !self.has_path(path@),
            r == Err::<RouteMatch, NotFound>(NotFound::NoMethod) <==> self.has_path(path@)
                && !self.has_route(method@, path@),
            r != Err::<RouteMatch, NotFound>(NotFound::NoMount),
    {
        let segs = split_segments(path.as_str());
        let mut saw_path = false;
        let mut j: usize = 0;
        while j < self.routes.len()
            invariant
                self.wf(),
                views(segs@) == segments(path@),
                j <= self.routes@.len(),
                forall|k: int| 0 <= k < j ==> !#[trigger] self.answers(k, method@, path@),
                saw_path <==> exists|k: int|
                    0 <= k < j && #[trigger] pattern_matches(self.routes@[k].pattern@, path@),
            decreases self.routes@.len() - j,
        {
            let route = &self.routes[j];
            assert(route.wf());
            match match_segments(&route.segments, &segs) {
                Some(params) => {
                    assert(pattern_matches(self.routes@[j as int].pattern@, path@));
                    saw_path = true;
                    if route.method == *method {
                        assert(self.answers(j as int, method@, path@));
                        return Ok(RouteMatch { route: j, params });
                    }
                },
                None => {
                    assert(!pattern_matches(self.routes@[j as int].pattern@, path@));
                },
            }
            j = j + 1;
        }
        if saw_path {
            Err(NotFound::NoMethod)
        } else {
            Err(NotFound::NoPath)
        }
    }
}

/// The mapping that a list of (name, value) pairs gives, a later pair
/// winning over an earlier one of the same name.
pub open spec fn to_map(b: Seq<(Seq<char>, Seq<char>)>) -> Map<Seq<char>, Seq<char>>
    decreases b.len(),
{
    if b.len() == 0 {
        Map::empty()
    } else {
        to_map(b.drop_last()).insert(b.last().0, b.last().1)
    }
}

/// No two pairs of `b` share a name.
pub open spec fn distinct_names(b: Seq<(Seq<char>, Seq<char>)>) -> bool {
    forall|x: int, y: int| 0 <= x < y < b.len() ==> #[trigger] b[x].0 != #[trigger] b[y].0
}

/// The names of the parameter segments among the first `n` of a pattern.
pub open spec fn declared(pat: Seq<Seq<char>>, n: int) -> Set<Seq<char>>
    decreases n,
{
    if n <= 0 {
        Set::empty()
    } else if is_param(pat[n - 1]) {
        declared(pat, n - 1).insert(param_name(pat[n - 1]))
    } else {
        declared(pat, n - 1)
    }
}

/// Whether segment `i` is the last parameter segment of its name among the
/// first `n` of a pattern.
pub open spec fn last_of_name(pat: Seq<Seq<char>>, n: int, i: int) -> bool {
    &&& 0 <= i < n
    &&& is_param(pat[i])
    &&& forall|j: int|
        i < j < n ==> !(#[trigger] is_param(pat[j]) && param_name(pat[j]) == param_name(pat[i]))
}

/// The place in `b` of pair `k` of `without(b, name)`.
pub open spec fn kept_at(b: Seq<(Seq<char>, Seq<char>)>, name: Seq<char>, k: int) -> int
    decreases b.len(),
{
    if b.len() == 0 {
        0
    } else if b.last().0 != name && k == without(b.drop_last(), name).len() {
        b.len() - 1
    } else {
        kept_at(b.drop_last(), name, k)
    }
}

proof fn lemma_without(b: Seq<(Seq<char>, Seq<char>)>, name: Seq<char>)
    ensures
        to_map(without(b, name)) == to_map(b).remove(name),
        forall|k: int|
            0 <= k < without(b, name).len() ==> {
                let j = #[trigger] kept_at(b, name, k);
                &&& 0 <= j < b.len()
                &&& without(b, name)[k] == b[j]
                &&& b[j].0 != name
            },
        distinct_names(b) ==> distinct_names(without(b, name)),
    decreases b.len(),
{
    if b.len() > 0 {
        let b0 = b.drop_last();
        lemma_without(b0, name);
        let w0 = without(b0, name);
        let w = without(b, name);
        if b.last().0 == name {
            assert(to_map(w) =~= to_map(b).remove(name));
            assert forall|k: int| 0 <= k < w.len() implies {
                let j = #[trigger] kept_at(b, name, k);
                &&& 0 <= j < b.len()
                &&& w[k] == b[j]
                &&& b[j].0 != name
            } by {
                assert(b[kept_at(b0, name, k)] == b0[kept_at(b0, name, k)]);
            }
            if distinct_names(b) {
                assert forall|x: int, y: int| 0 <= x < y < b0.len() implies #[trigger] b0[x].0
                    != #[trigger] b0[y].0 by {
                    assert(b[x] == b0[x] && b[y] == b0[y]);
                }
            }
        } else {
            assert(w.drop_last() =~= w0);
            assert(to_map(w) == to_map(w0).insert(b.last().0, b.last().1));
            assert(to_map(w) =~= to_map(b).remove(name));
            assert forall|k: int| 0 <= k < w.len() implies {
                let j = #[trigger] kept_at(b, name, k);
                &&& 0 <= j < b.len()
                &&& w[k] == b[j]
                &&& b[j].0 != name
            } by {
                if k < w0.len() {
                    assert(w[k] == w0[k]);
                    assert(b[kept_at(b0, name, k)] == b0[kept_at(b0, name, k)]);
                }
            }
            if distinct_names(b) {
                assert forall|x: int, y: int| 0 <= x < y < b0.len() implies #[trigger] b0[x].0
                    != #[trigger] b0[y].0 by {
                    assert(b[x] == b0[x] && b[y] == b0[y]);
                }
                assert forall|x: int, y: int| 0 <= x < y < w.len() implies #[trigger] w[x].0
                    != #[trigger] w[y].0 by {
                    if y == w0.len() {
                        let j = kept_at(b0, name, x);
                        assert(w[x] == w0[x] && w0[x] == b0[j] && b0[j] == b[j]);
                        assert(b[j].0 != b[b.len() - 1].0);
                    } else {
                        assert(w[x] == w0[x] && w[y] == w0[y]);
                    }
                }
            }
        }
    }
}

proof fn lemma_bindings_map(pat: Seq<Seq<char>>, path: Seq<Seq<char>>, n: int)
    requires
        0 <= n <= pat.len(),
    ensures
        distinct_names(bindings(pat, path, n)),
        to_map(bindings(pat, path, n)).dom() == declared(pat, n),
        forall|i: int| #[trigger]
            last_of_name(pat, n, i) ==> to_map(bindings(pat, path, n))[param_name(pat[i])]
                == path[i],
    decreases n,
{
    if n > 0 {
        lemma_bindings_map(pat, path, n - 1);
        let b0 = bindings(pat, path, n - 1);
        let b = bindings(pat, path, n);
        if is_param(pat[n - 1]) {
            let name = param_name(pat[n - 1]);
            lemma_without(b0, name);
            let w = without(b0, name);
            assert(b == w.push((name, path[n - 1])));
            assert(b.drop_last() =~= w);
            assert(to_map(b) == to_map(w).insert(name, path[n - 1]));
            assert(to_map(b) =~= to_map(b0).insert(name, path[n - 1]));
            assert(to_map(b).dom() =~= declared(pat, n));
            assert forall|x: int, y: int| 0 <= x < y < b.len() implies #[trigger] b[x].0
                != #[trigger] b[y].0 by {
                if y == w.len() {
                    let j = kept_at(b0, name, x);
                    assert(b[x] == w[x]);
                } else {
                    assert(b[x] == w[x] && b[y] == w[y]);
                }
            }
            assert forall|i: int| #[trigger] last_of_name(pat, n, i) implies to_map(b)[param_name(
                pat[i],
            )] == path[i] by {
                if i < n - 1 {
                    assert(last_of_name(pat, n - 1, i));
                }
            }
        } else {
            assert forall|i: int| #[trigger] last_of_name(pat, n, i) implies to_map(b)[param_name(
                pat[i],
            )] == path[i] by {
                assert(last_of_name(pat, n - 1, i));
            }
        }
    }
}

/// When a pattern matches a path, what it binds is a mapping with exactly
/// the parameter names that the pattern declares: no name is bound twice,
/// no other name is bound, and each name is bound to the path segment at
/// the place of the last parameter segment of that name.
pub proof fn lemma_params_exact(pattern: Seq<char>, path: Seq<char>)
    requires
        pattern_matches(pattern, path),
    ensures
        distinct_names(params_of(pattern, path)),
        to_map(params_of(pattern, path)).dom() == declared(
            segments(pattern),
            segments(pattern).len() as int,
        ),
        forall|i: int| #[trigger]
            last_of_name(segments(pattern), segments(pattern).len() as int, i) ==> to_map(
                params_of(pattern, path),
            )[param_name(segments(pattern)[i])] == segments(path)[i],
{
    lemma_bindings_map(segments(pattern), segments(path), segments(pattern).len() as int);
}

} // verus!
