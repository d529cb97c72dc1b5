//! Path patterns with parameters and wildcards, and a router that dispatches
//! a request to the first route whose pattern and method match it.
use vstd::prelude::*;

use crate::request::{Method, MethodView, Request, RequestView};
use crate::response::{status_only, Response};
use crate::string_map::StringMap;
use crate::text::{chars_eq, chars_of, split_nonempty, split_nonempty_chars, string_of};

verus! {

/// Extracted route path parameters, e.g. `{"filename": "foo.txt"}`
#[derive(Debug, Clone)]
pub struct Params {
    map: StringMap,
}

impl View for Params {
    type V = Map<Seq<char>, Seq<char>>;

    closed spec fn view(&self) -> Map<Seq<char>, Seq<char>> {
        self.map@
    }
}

impl Params {
    /// No parameters.
    pub fn new() -> (p: Self)
        ensures
            p@ == Map::<Seq<char>, Seq<char>>::empty(),
    {
        Params { map: StringMap::new() }
    }

    pub fn get(&self, key: &str) -> (r: Option<&str>)
        ensures
            match r {
                Some(v) => self@.contains_key(key@) && v@ == self@[key@],
                None => !self@.contains_key(key@),
            },
    {
        self.map.get(key)
    }

    pub fn insert(&mut self, key: String, val: String)
        ensures
            final(self)@ == old(self)@.insert(key@, val@),
    {
        self.map.insert(key, val);
    }
}

impl Default for Params {
    fn default() -> (p: Self)
        ensures
            p@ == Map::<Seq<char>, Seq<char>>::empty(),
    {
        Params::new()
    }
}

/// A segment in a path pattern, e.g. "echo" or "{str}"
#[derive(Debug, Clone)]
enum Segment {
    Static(String),
    Param(String),
    Wildcard,
}

pub ghost enum SegmentView {
    /// Matches exactly this text.
    Static(Seq<char>),
    /// Matches any one segment and records it under this name.
    Param(Seq<char>),
    /// Matches any one segment; as the last segment, also any number of
    /// further segments, or none.
    Wildcard,
}

impl View for Segment {
    type V = SegmentView;

    closed spec fn view(&self) -> SegmentView {
        match self {
            Segment::Static(s) => SegmentView::Static(s@),
            Segment::Param(s) => SegmentView::Param(s@),
            Segment::Wildcard => SegmentView::Wildcard,
        }
    }
}

/// The meaning of one non-empty piece of a pattern: `{name}` is a
/// parameter, `*` a wildcard, anything else literal text.
pub open spec fn classify(s: Seq<char>) -> SegmentView {
    if s.len() > 0 && s[0] == '{' && s.last() == '}' {
        SegmentView::Param(s.subrange(1, s.len() - 1))
    } else if s == "*"@ {
        SegmentView::Wildcard
    } else {
        SegmentView::Static(s)
    }
}

/// The segments of a pattern: its non-empty `/`-separated pieces, classified.
pub open spec fn pattern_segments(pattern: Seq<char>) -> Seq<SegmentView> {
    split_nonempty(pattern, '/').map_values(|s: Seq<char>| classify(s))
}

/// The non-empty `/`-separated pieces of a request path.
pub open spec fn path_segments(path: Seq<char>) -> Seq<Seq<char>> {
    split_nonempty(path, '/')
}

/// Matching the first `n` pattern segments against the first `n` path
/// segments: the parameters recorded, or `None` at a literal that differs.
pub open spec fn zip_params(segs: Seq<SegmentView>, ps: Seq<Seq<char>>, n: nat) -> Option<
    Map<Seq<char>, Seq<char>>,
>
    decreases n,
{
    if n == 0 {
        Some(Map::empty())
    } else {
        match zip_params(segs, ps, (n - 1) as nat) {
            None => None,
            Some(m) => match segs[n - 1] {
                SegmentView::Static(e) => if e == ps[n - 1] {
                    Some(m)
                } else {
                    None
                },
                SegmentView::Param(name) => Some(m.insert(name, ps[n - 1])),
                SegmentView::Wildcard => Some(m),
            },
        }
    }
}

pub open spec fn ends_in_wildcard(segs: Seq<SegmentView>) -> bool {
    segs.len() > 0 && segs.last() is Wildcard
}

/// The parameters with which a pattern matches path segments, if it does.
/// Segment counts must agree, except that a pattern ending in a wildcard
/// takes any path with at least all but its last segment.
pub open spec fn match_segments(segs: Seq<SegmentView>, ps: Seq<Seq<char>>) -> Option<
    Map<Seq<char>, Seq<char>>,
> {
    if segs.len() == 0 && ps.len() == 0 {
        Some(Map::empty())
    } else if segs.len() != ps.len() && (!ends_in_wildcard(segs) || ps.len() < segs.len() - 1) {
        None
    } else {
        zip_params(segs, ps, if segs.len() < ps.len() { segs.len() } else { ps.len() })
    }
}

/// A piece that reads as literal text.
pub open spec fn is_literal_piece(s: Seq<char>) -> bool {
    classify(s) == SegmentView::Static(s)
}

proof fn lemma_zip_literal(pieces: Seq<Seq<char>>, n: nat)
    requires
        n <= pieces.len(),
        forall|i: int| 0 <= i < pieces.len() ==> is_literal_piece(#[trigger] pieces[i]),
    ensures
        zip_params(pieces.map_values(|s: Seq<char>| classify(s)), pieces, n) == Some(
            Map::<Seq<char>, Seq<char>>::empty(),
        ),
    decreases n,
{
    if n > 0 {
        lemma_zip_literal(pieces, (n - 1) as nat);
        assert(is_literal_piece(pieces[n - 1]));
    }
}

/// A pattern made of literal text only matches its own path, with no
/// parameters.
pub proof fn law_literal_pattern_matches_itself(path: Seq<char>)
    requires
        forall|i: int|
            0 <= i < path_segments(path).len() ==> is_literal_piece(
                #[trigger] path_segments(path)[i],
            ),
    ensures
        match_segments(pattern_segments(path), path_segments(path)) == Some(
            Map::<Seq<char>, Seq<char>>::empty(),
        ),
{
    let pieces = path_segments(path);
    lemma_zip_literal(pieces, pieces.len());
}

#[derive(Debug, Clone)]
pub struct PathPattern {
    segments: Vec<Segment>,
}

impl View for PathPattern {
    type V = Seq<SegmentView>;

    closed spec fn view(&self) -> Seq<SegmentView> {
        self.segments@.map_values(|s: Segment| s@)
    }
}

fn classify_piece(s: &[char]) -> (r: Segment)
    ensures
        r@ == classify(s@),
{
    let n = s.len();
    if n > 0 && s[0] == '{' && s[n - 1] == '}' {
        let mut inner: Vec<char> = Vec::new();
        let mut i: usize = 1;
        while i < n - 1
            invariant
                n == s.len(),
                n > 0,
                1 <= i,
                i <= n - 1 || n == 1,
                inner@ == s@.subrange(1, i as int),
            decreases n - i,
        {
            inner.push(s[i]);
            i = i + 1;
            assert(inner@ =~= s@.subrange(1, i as int));
        }
        Segment::Param(string_of(inner.as_slice()))
    } else {
        let star = chars_of("*");
        if chars_eq(s, star.as_slice()) {
            Segment::Wildcard
        } else {
            Segment::Static(string_of(s))
        }
    }
}

impl PathPattern {
    pub fn parse(pattern: &str) -> (r: Self)
        ensures
            r@ == pattern_segments(pattern@),
    {
        let cs = chars_of(pattern);
        let pieces = split_nonempty_chars(cs.as_slice(), '/');
        let ghost want = split_nonempty(pattern@, '/');
        let mut segments: Vec<Segment> = Vec::new();
        let mut i: usize = 0;
        while i < pieces.len()
            invariant
                i <= pieces@.len(),
                pieces@.len() == want.len(),
                want == split_nonempty(pattern@, '/'),
                forall|k: int| 0 <= k < pieces@.len() ==> #[trigger] pieces@[k]@ == want[k],
                segments@.len() == i,
                forall|k: int|
                    0 <= k < i ==> (#[trigger] segments@[k])@ == classify(want[k]),
            decreases pieces@.len() - i,
        {
            let seg = classify_piece(pieces[i].as_slice());
            assert(pieces@[i as int]@ == want[i as int]);
            segments.push(seg);
            i = i + 1;
        }
        let r = Self { segments };
        assert(r@ =~= pattern_segments(pattern@));
        r
    }

    /// The parameters with which this pattern matches `path`, if it does.
    pub fn matches(&self, path: &str) -> (r: Option<Params>)
        ensures
            match match_segments(self@, path_segments(path@)) {
                Some(m) => r matches Some(p) && p@ == m,
                None => r is None,
            },
    {
        let cs = chars_of(path);
        let pieces = split_nonempty_chars(cs.as_slice(), '/');
        let ghost ps = path_segments(path@);
        let ghost segs = self@;
        let ns = self.segments.len();
        let np = pieces.len();
        assert(segs.len() == ns);
        if ns == 0 && np == 0 {
            return Some(Params::new());
        }
        if ns != np {
            let is_wildcard = ns > 0 && match self.segments[ns - 1] {
                Segment::Wildcard => true,
                _ => false,
            };
            assert(is_wildcard == ends_in_wildcard(segs));
            if !is_wildcard || np < ns - 1 {
                return None;
            }
        }
        let n = if ns < np {
            ns
        } else {
            np
        };
        assert(match_segments(segs, ps) == zip_params(segs, ps, n as nat));
        let mut params = Params::new();
        let mut i: usize = 0;
        while i < n
            invariant
                i <= n,
                match_segments(segs, ps) == zip_params(segs, ps, n as nat),
                n <= ns,
                n <= np,
                ns == self.segments@.len(),
                np == pieces@.len(),
                segs == self@,
                segs.len() == ns,
                ps == path_segments(path@),
                ps.len() == np,
                forall|k: int| 0 <= k < np ==> #[trigger] pieces@[k]@ == ps[k],
                zip_params(segs, ps, i as nat) == Some(params@),
            decreases n - i,
        {
            assert(pieces@[i as int]@ == ps[i as int]);
            assert(segs[i as int] == self.segments@[i as int]@);
            match &self.segments[i] {
                Segment::Static(expected) => {
                    let ex = chars_of(expected.as_str());
                    if !chars_eq(ex.as_slice(), pieces[i].as_slice()) {
                        assert(zip_params(segs, ps, (i + 1) as nat) is None);
                        proof {
                            lemma_zip_params_none_stays(segs, ps, (i + 1) as nat, n as nat);
                        }
                        return None;
                    }
                },
                Segment::Param(name) => {
                    params.insert(name.clone(), string_of(pieces[i].as_slice()));
                },
                Segment::Wildcard => {},
            }
            i = i + 1;
        }
        Some(params)
    }
}

/// Once a literal segment has failed to match, matching more segments fails
/// too.
proof fn lemma_zip_params_none_stays(
    segs: Seq<SegmentView>,
    ps: Seq<Seq<char>>,
    k: nat,
    n: nat,
)
    requires
        k <= n,
        zip_params(segs, ps, k) is None,
    ensures
        zip_params(segs, ps, n) is None,
    decreases n - k,
{
    if k < n {
        lemma_zip_params_none_stays(segs, ps, k, (n - 1) as nat);
    }
}

pub struct Route<H> {
    pub method: Method,
    pub pattern: PathPattern,
    pub handler: H,
}

pub struct Router<H> {
    routes: Vec<Route<H>>,
}

/// Where a request goes: the handler of a route (with the parameters its
/// pattern recorded), or no route for the method, or no route for the path.
pub ghost enum Dispatch {
    Handler(int, Map<Seq<char>, Seq<char>>),
    MethodNotAllowed,
    NotFound,
}

/// Scanning the route table from position `i`: the first route whose pattern
/// matches the path and whose method is the request's gets it; if only
/// routes with another method match the path, the method is not allowed.
pub open spec fn dispatch_from(
    table: Seq<(MethodView, Seq<SegmentView>)>,
    i: int,
    req: RequestView,
) -> Dispatch
    decreases table.len() - i,
{
    if i < 0 || i >= table.len() {
        Dispatch::NotFound
    } else {
        match match_segments(table[i].1, path_segments(req.path)) {
            Some(params) => if table[i].0 == req.method {
                Dispatch::Handler(i, params)
            } else {
                match dispatch_from(table, i + 1, req) {
                    Dispatch::NotFound => Dispatch::MethodNotAllowed,
                    other => other,
                }
            },
            None => dispatch_from(table, i + 1, req),
        }
    }
}

/// The route at `k` takes the path of `req`.
pub open spec fn path_matches(
    table: Seq<(MethodView, Seq<SegmentView>)>,
    k: int,
    req: RequestView,
) -> bool {
    match_segments(table[k].1, path_segments(req.path)) is Some
}

proof fn lemma_not_found_from(table: Seq<(MethodView, Seq<SegmentView>)>, i: int, req: RequestView)
    requires
        0 <= i <= table.len(),
    ensures
        (dispatch_from(table, i, req) is NotFound) <==> (forall|k: int|
            i <= k < table.len() ==> !#[trigger] path_matches(table, k, req)),
    decreases table.len() - i,
{
    if i < table.len() {
        lemma_not_found_from(table, i + 1, req);
        if !path_matches(table, i, req) {
            assert((forall|k: int| i <= k < table.len() ==> !#[trigger] path_matches(table, k, req))
                <== (forall|k: int|
                i + 1 <= k < table.len() ==> !#[trigger] path_matches(table, k, req)));
        }
    }
}

/// A request is answered 404 exactly when no route's pattern takes its path;
/// a path that some pattern takes goes to a handler or is refused with 405,
/// whatever the method.
pub proof fn law_not_found_iff_no_pattern_matches(
    table: Seq<(MethodView, Seq<SegmentView>)>,
    req: RequestView,
)
    ensures
        (dispatch_from(table, 0, req) is NotFound) <==> (forall|k: int|
            0 <= k < table.len() ==> !#[trigger] path_matches(table, k, req)),
{
    lemma_not_found_from(table, 0, req);
}

proof fn lemma_handler_from(
    table: Seq<(MethodView, Seq<SegmentView>)>,
    i: int,
    req: RequestView,
    j: int,
    params: Map<Seq<char>, Seq<char>>,
)
    requires
        0 <= i,
        dispatch_from(table, i, req) == Dispatch::Handler(j, params),
    ensures
        i <= j < table.len(),
        match_segments(table[j].1, path_segments(req.path)) == Some(params),
        table[j].0 == req.method,
        forall|k: int|
            i <= k < j ==> !(#[trigger] path_matches(table, k, req) && table[k].0 == req.method),
    decreases table.len() - i,
{
    if i < table.len() {
        match match_segments(table[i].1, path_segments(req.path)) {
            Some(p) => {
                if table[i].0 != req.method {
                    lemma_handler_from(table, i + 1, req, j, params);
                }
            },
            None => {
                lemma_handler_from(table, i + 1, req, j, params);
            },
        }
    }
}

/// The route that handles a request takes its path and method, with the
/// parameters it records, and no earlier route takes both: the first match
/// wins.
pub proof fn law_first_matching_route_handles(
    table: Seq<(MethodView, Seq<SegmentView>)>,
    req: RequestView,
    j: int,
    params: Map<Seq<char>, Seq<char>>,
)
    requires
        dispatch_from(table, 0, req) == Dispatch::Handler(j, params),
    ensures
        0 <= j < table.len(),
        match_segments(table[j].1, path_segments(req.path)) == Some(params),
        table[j].0 == req.method,
        forall|k: int|
            0 <= k < j ==> !(#[trigger] path_matches(table, k, req) && table[k].0 == req.method),
{
    lemma_handler_from(table, 0, req, j, params);
}

proof fn lemma_handled_from(
    table: Seq<(MethodView, Seq<SegmentView>)>,
    i: int,
    req: RequestView,
    k: int,
)
    requires
        0 <= i <= k < table.len(),
        path_matches(table, k, req),
        table[k].0 == req.method,
    ensures
        dispatch_from(table, i, req) matches Dispatch::Handler(j, _) && i <= j <= k,
    decreases k - i,
{
    if i < k {
        lemma_handled_from(table, i + 1, req, k);
    }
}

/// A request that some route takes by both path and method goes to a
/// handler, never to 405 or 404: to that route, or to an earlier one.
pub proof fn law_matching_route_gets_request(
    table: Seq<(MethodView, Seq<SegmentView>)>,
    req: RequestView,
    k: int,
)
    requires
        0 <= k < table.len(),
        path_matches(table, k, req),
        table[k].0 == req.method,
    ensures
        dispatch_from(table, 0, req) matches Dispatch::Handler(j, _) && j <= k,
{
    lemma_handled_from(table, 0, req, k);
}

pub open spec fn route_entry<H>(r: Route<H>) -> (MethodView, Seq<SegmentView>) {
    (r.method@, r.pattern@)
}

impl<H: Fn(&Request, &Params) -> Response> Router<H> {
    /// The routes, in the order they were added.
    pub closed spec fn route_list(&self) -> Seq<Route<H>> {
        self.routes@
    }

    /// Methods and patterns of the routes, in order.
    pub open spec fn table(&self) -> Seq<(MethodView, Seq<SegmentView>)> {
        self.route_list().map_values(|r: Route<H>| route_entry(r))
    }

    pub fn new() -> (r: Self)
        ensures
            r.route_list() == Seq::<Route<H>>::empty(),
    {
        Self { routes: Vec::new() }
    }

    /// Adds a route after all earlier ones.
    pub fn add_route(&mut self, method: Method, pattern_str: &str, handler: H)
        ensures
            final(self).route_list().len() == old(self).route_list().len() + 1,
            final(self).route_list().drop_last() == old(self).route_list(),
            final(self).route_list().last().method == method,
            final(self).route_list().last().pattern@ == pattern_segments(pattern_str@),
            final(self).route_list().last().handler == handler,
    {
        let pattern = PathPattern::parse(pattern_str);
        let ghost before = self.routes@;
        self.routes.push(Route { method, pattern, handler });
        assert(self.routes@.drop_last() =~= before);
    }

    /// Every handler accepts every request and parameter set.
    pub open spec fn handlers_total(&self) -> bool {
        forall|i: int, q: &Request, p: &Params|
            0 <= i < self.route_list().len() ==> #[trigger] call_requires(
                self.route_list()[i].handler,
                (q, p),
            )
    }

    /// Answers a request: the first route whose pattern and method match
    /// handles it; 405 when only routes of other methods match the path;
    /// 404 when none matches.
    pub fn handle(&self, req: &Request) -> (r: Response)
        requires
            self.handlers_total(),
        ensures
            match dispatch_from(self.table(), 0, req@) {
                Dispatch::Handler(i, params) => exists|p: Params|
                    p@ == params && call_ensures(self.route_list()[i].handler, (req, &p), r),
                Dispatch::MethodNotAllowed => r@ == status_only(
                    "HTTP/1.1"@,
                    405,
                    "Method Not Allowed"@,
                ),
                Dispatch::NotFound => r@ == status_only("HTTP/1.1"@, 404, "Not Found"@),
            },
    {
        let ghost table = self.table();
        let mut path_matched_but_wrong_method = false;
        let mut i: usize = 0;
        while i < self.routes.len()
            invariant
                i <= self.routes@.len(),
                table == self.table(),
                table.len() == self.routes@.len(),
                self.handlers_total(),
                forall|k: int| 0 <= k < table.len() ==> #[trigger] table[k] == route_entry(
                    self.routes@[k],
                ),
                self.route_list() == self.routes@,
                dispatch_from(table, 0, req@) == (if path_matched_but_wrong_method {
                    match dispatch_from(table, i as int, req@) {
                        Dispatch::NotFound => Dispatch::MethodNotAllowed,
                        other => other,
                    }
                } else {
                    dispatch_from(table, i as int, req@)
                }),
            decreases self.routes@.len() - i,
        {
            let route = &self.routes[i];
            assert(table[i as int] == route_entry(self.routes@[i as int]));
            if let Some(params) = route.pattern.matches(req.path.as_str()) {
                if route.method.same_as(&req.method) {
                    let r = (route.handler)(req, &params);
                    return r;
                } else {
                    path_matched_but_wrong_method = true;
                }
            }
            i = i + 1;
        }
        if path_matched_but_wrong_method {
            Response::method_not_allowed()
        } else {
            Response::not_found()
        }
    }
}

/// The server's endpoints, in the order they are tried: `GET /`,
/// `GET /echo/{str}`, `GET /user-agent`, `GET /files/{filename}`,
/// `POST /files/{filename}` and `DELETE /files/{filename}`, each with its
/// handler.
pub fn endpoint_router<H: Fn(&Request, &Params) -> Response>(
    root: H,
    echo: H,
    user_agent: H,
    get_file: H,
    post_file: H,
    delete_file: H,
) -> (r: Router<H>)
    ensures
        r.table() == seq![
            (MethodView::Get, pattern_segments("/"@)),
            (MethodView::Get, pattern_segments("/echo/{str}"@)),
            (MethodView::Get, pattern_segments("/user-agent"@)),
            (MethodView::Get, pattern_segments("/files/{filename}"@)),
            (MethodView::Post, pattern_segments("/files/{filename}"@)),
            (MethodView::Delete, pattern_segments("/files/{filename}"@)),
        ],
        r.route_list().len() == 6,
        r.route_list()[0].handler == root,
        r.route_list()[1].handler == echo,
        r.route_list()[2].handler == user_agent,
        r.route_list()[3].handler == get_file,
        r.route_list()[4].handler == post_file,
        r.route_list()[5].handler == delete_file,
{
    let mut router: Router<H> = Router::new();
    router.add_route(Method::Get, "/", root);
    let ghost l1 = router.route_list();
    router.add_route(Method::Get, "/echo/{str}", echo);
    let ghost l2 = router.route_list();
    router.add_route(Method::Get, "/user-agent", user_agent);
    let ghost l3 = router.route_list();
    router.add_route(Method::Get, "/files/{filename}", get_file);
    let ghost l4 = router.route_list();
    router.add_route(Method::Post, "/files/{filename}", post_file);
    let ghost l5 = router.route_list();
    router.add_route(Method::Delete, "/files/{filename}", delete_file);
    let ghost l6 = router.route_list();
    proof {
        assert(l5 == l6.drop_last());
        assert(l4 == l5.drop_last());
        assert(l3 == l4.drop_last());
        assert(l2 == l3.drop_last());
        assert(l1 == l2.drop_last());
        assert(l6[4] == l5[4]);
        assert(l6[3] == l5[3] && l5[3] == l4[3]);
        assert(l6[2] == l5[2] && l5[2] == l4[2] && l4[2] == l3[2]);
        assert(l6[1] == l5[1] && l5[1] == l4[1] && l4[1] == l3[1] && l3[1] == l2[1]);
        assert(l6[0] == l5[0] && l5[0] == l4[0] && l4[0] == l3[0] && l3[0] == l2[0] && l2[0]
            == l1[0]);
        assert(router.table() =~= seq![
            (MethodView::Get, pattern_segments("/"@)),
            (MethodView::Get, pattern_segments("/echo/{str}"@)),
            (MethodView::Get, pattern_segments("/user-agent"@)),
            (MethodView::Get, pattern_segments("/files/{filename}"@)),
            (MethodView::Post, pattern_segments("/files/{filename}"@)),
            (MethodView::Delete, pattern_segments("/files/{filename}"@)),
        ]);
    }
    router
}

} // verus!
