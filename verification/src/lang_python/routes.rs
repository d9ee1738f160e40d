//! HTTP routes declared in Python web applications: FastAPI route
//! decorators and Django URL confs.

use vstd::prelude::*;
use crate::syntax::{
    SyntaxNode, SyntaxNodeView, child_by_field, child_by_field_exec, kids, kids_exec, kind_is,
    named_child, named_child_exec, nodes_view, parse_python, python_syntax,
};
use crate::text::{
    chars_of, concat, ends_with, eq_lit, opt_string_view, starts_with, string_of, strip_prefix,
    strip_suffix, strip_prefix_range, strip_suffix_range,
};
use crate::lang_python::observe::{py_unquote, strip_string_quotes};

verus! {

/// A route of a web application.
#[derive(Debug, Clone)]
pub struct Route {
    /// The HTTP method in upper case (`GET`), or `ANY`.
    pub http_method: String,
    /// The route's path (`/items/{item_id}`, `users/:pk/`).
    pub path: String,
    /// The name of the function that handles the route.
    pub handler_name: String,
    /// The file that declares the route.
    pub file: String,
}

/// The mathematical content of a [`Route`].
pub struct RouteView {
    pub http_method: Seq<char>,
    pub path: Seq<char>,
    pub handler_name: Seq<char>,
    pub file: Seq<char>,
}

impl View for Route {
    type V = RouteView;

    open spec fn view(&self) -> RouteView {
        RouteView {
            http_method: self.http_method@,
            path: self.path@,
            handler_name: self.handler_name@,
            file: self.file@,
        }
    }
}

/// The views of a list of routes.
pub open spec fn routes_view(v: Seq<Route>) -> Seq<RouteView> {
    v.map_values(|r: Route| r@)
}

impl PartialEq for Route {
    fn eq(&self, other: &Self) -> (r: bool) {
        self.http_method == other.http_method && self.path == other.path && self.handler_name
            == other.handler_name && self.file == other.file
    }
}

impl vstd::std_specs::cmp::PartialEqSpecImpl for Route {
    open spec fn obeys_eq_spec() -> bool {
        true
    }

    open spec fn eq_spec(&self, other: &Self) -> bool {
        self.http_method@ == other.http_method@ && self.path@ == other.path@ && self.handler_name@
            == other.handler_name@ && self.file@ == other.file@
    }
}

// ---------------------------------------------------------------------------
// Regular-expression replacement
// ---------------------------------------------------------------------------

/// What `regex::Regex::new(pattern)` followed by `Regex::replace_all(text,
/// rep)` gives: `text` with every leftmost non-overlapping match of
/// `pattern` replaced by `rep`, where `$1` in `rep` stands for the first
/// capture group; `None` when `pattern` does not compile.
pub uninterp spec fn regex_replace_all(pattern: Seq<char>, text: Seq<char>, rep: Seq<char>) -> Option<
    Seq<char>,
>;

/// Compile `pattern` with `regex::Regex::new` and replace all its matches
/// in `text` by `rep` with `Regex::replace_all`.  The contract names the
/// result; it states nothing of how the regex engine matches.
#[verifier::external_body]
fn replace_all_matches(pattern: &str, text: &str, rep: &str) -> (r: Option<String>)
    ensures
        opt_string_view(r) == regex_replace_all(pattern@, text@, rep@),
{
    let re = regex::Regex::new(pattern).ok()?;
    Some(re.replace_all(text, rep).into_owned())
}

/// The pattern of a Django `path()` parameter: `<name>` or `<type:name>`.
pub open spec fn django_param_pattern() -> Seq<char> {
    "<(?:\\w+:)?(\\w+)>"@
}

/// The pattern of a named group of a Django `re_path()`: `(?P<name>...)`.
pub open spec fn re_path_group_pattern() -> Seq<char> {
    "\\(\\?P<(\\w+)>[^)]*\\)"@
}

/// `path` with each match of `pattern` replaced by `:` and the group's
/// name (`path` itself should the pattern not compile).
pub open spec fn params_to_colons(pattern: Seq<char>, path: Seq<char>) -> Seq<char> {
    match regex_replace_all(pattern, path, ":$1"@) {
        Some(out) => out,
        None => path,
    }
}

/// A Django `path()` pattern in `:param` notation.
pub open spec fn django_path_normalized(path: Seq<char>) -> Seq<char> {
    params_to_colons(django_param_pattern(), path)
}

/// A `re_path()` pattern without one leading `^` and one trailing `$`.
pub open spec fn strip_anchors(path: Seq<char>) -> Seq<char> {
    let s = match strip_prefix(path, "^"@) {
        Some(rest) => rest,
        None => path,
    };
    match strip_suffix(s, "$"@) {
        Some(rest) => rest,
        None => s,
    }
}

/// A Django `re_path()` pattern without its anchors, in `:param` notation.
pub open spec fn re_path_normalized(path: Seq<char>) -> Seq<char> {
    params_to_colons(re_path_group_pattern(), strip_anchors(path))
}

fn params_to_colons_exec(pattern: &str, path: &str) -> (r: String)
    ensures
        r@ == params_to_colons(pattern@, path@),
{
    match replace_all_matches(pattern, path, ":$1") {
        Some(out) => out,
        None => String::from_str(path),
    }
}

/// Normalize a Django `path()` URL pattern to `:param` notation:
/// `users/<int:pk>/` -> `users/:pk/`, `users/<pk>/` -> `users/:pk/`.
pub fn normalize_django_path(path: &str) -> (r: String)
    ensures
        r@ == django_path_normalized(path@),
{
    params_to_colons_exec("<(?:\\w+:)?(\\w+)>", path)
}

/// Normalize a Django `re_path()` URL pattern: strip a leading `^` and a
/// trailing `$`, then turn `(?P<name>...)` groups into `:name`.
pub fn normalize_re_path(path: &str) -> (r: String)
    ensures
        r@ == re_path_normalized(path@),
{
    let v = chars_of(path);
    let n = v.len();
    assert(v@.subrange(0, n as int) == v@);
    let a = match strip_prefix_range(v.as_slice(), 0, n, "^") {
        Some(k) => k,
        None => 0,
    };
    let b = match strip_suffix_range(v.as_slice(), a, n, "$") {
        Some(e) => e,
        None => n,
    };
    proof {
        if strip_prefix(v@, "^"@) is None {
            assert(v@.subrange(0, n as int) == v@);
        }
    }
    let s = string_of(vstd::slice::slice_subrange(v.as_slice(), a, b));
    params_to_colons_exec("\\(\\?P<(\\w+)>[^)]*\\)", s.as_str())
}

// ---------------------------------------------------------------------------
// Route lists
// ---------------------------------------------------------------------------

/// `rs` with the route `r` appended, unless no route is found or an equal
/// route is already listed (same method, path, handler and file).
pub open spec fn add_route(rs: Seq<RouteView>, r: Option<RouteView>) -> Seq<RouteView> {
    match r {
        Some(x) => if rs.contains(x) {
            rs
        } else {
            rs.push(x)
        },
        None => rs,
    }
}

fn same_route(a: &Route, b: &Route) -> (r: bool)
    ensures
        r == (a@ == b@),
{
    a.http_method == b.http_method && a.path == b.path && a.handler_name == b.handler_name
        && a.file == b.file
}

/// Append the route `r` to `rs` unless an equal route is already listed.
pub fn push_route(rs: &mut Vec<Route>, r: Option<Route>)
    ensures
        routes_view(final(rs)@) == add_route(
            routes_view(old(rs)@),
            match r {
                Some(x) => Some(x@),
                None => None,
            },
        ),
{
    match r {
        Some(x) => {
            let ghost before = routes_view(rs@);
            let mut i: usize = 0;
            let mut found = false;
            while i < rs.len() && !found
                invariant
                    before == routes_view(rs@),
                    i <= rs@.len(),
                    found ==> before.contains(x@),
                    !found ==> forall|j: int| 0 <= j < i ==> before[j] != x@,
                decreases rs@.len() - i + (if found { 0int } else { 1int }),
            {
                if same_route(&rs[i], &x) {
                    assert(before[i as int] == x@);
                    found = true;
                } else {
                    i = i + 1;
                }
            }
            if !found {
                let ghost xv = x@;
                rs.push(x);
                assert(routes_view(rs@) =~= before.push(xv));
            }
        },
        None => {},
    }
}

// ---------------------------------------------------------------------------
// FastAPI routes
// ---------------------------------------------------------------------------

/// The HTTP methods that route decorators name.
pub open spec fn is_http_method(m: Seq<char>) -> bool {
    m == "get"@ || m == "post"@ || m == "put"@ || m == "patch"@ || m == "delete"@ || m
        == "head"@ || m == "options"@
}

/// An HTTP method in upper case.
pub open spec fn upper_method(m: Seq<char>) -> Seq<char> {
    if m == "get"@ {
        "GET"@
    } else if m == "post"@ {
        "POST"@
    } else if m == "put"@ {
        "PUT"@
    } else if m == "patch"@ {
        "PATCH"@
    } else if m == "delete"@ {
        "DELETE"@
    } else if m == "head"@ {
        "HEAD"@
    } else if m == "options"@ {
        "OPTIONS"@
    } else {
        m
    }
}

/// The prefix that the keyword argument `k` gives: `prefix="..."`.
pub open spec fn keyword_prefix(t: Seq<SyntaxNodeView>, k: int) -> Option<Seq<char>> {
    if t[k].kind == "keyword_argument"@ {
        match (child_by_field(t, k, "name"@), child_by_field(t, k, "value"@)) {
            (Some(n), Some(v)) => if t[n].text == "prefix"@ && t[v].kind == "string"@ {
                Some(py_unquote(t[v].text))
            } else {
                None
            },
            _ => None,
        }
    } else {
        None
    }
}

/// The last prefix among the keyword arguments `ks`.
pub open spec fn last_prefix(t: Seq<SyntaxNodeView>, ks: Seq<int>) -> Option<Seq<char>>
    decreases ks.len(),
{
    if ks.len() == 0 {
        None
    } else {
        match keyword_prefix(t, ks.last()) {
            Some(p) => Some(p),
            None => last_prefix(t, ks.drop_last()),
        }
    }
}

/// For an assignment `var = APIRouter(...)` at `a`: the variable and the
/// last `prefix="..."` of the call, if any.
pub open spec fn router_assignment(t: Seq<SyntaxNodeView>, a: int) -> Option<
    (Seq<char>, Option<Seq<char>>),
> {
    if t[a].kind == "assignment"@ {
        match (child_by_field(t, a, "left"@), child_by_field(t, a, "right"@)) {
            (Some(l), Some(r)) => if t[l].kind == "identifier"@ && t[r].kind == "call"@ {
                match child_by_field(t, r, "function"@) {
                    Some(f) => if t[f].text == "APIRouter"@ {
                        Some(
                            (
                                t[l].text,
                                match child_by_field(t, r, "arguments"@) {
                                    Some(g) => last_prefix(t, kids(t, g)),
                                    None => None,
                                },
                            ),
                        )
                    } else {
                        None
                    },
                    None => None,
                }
            } else {
                None
            },
            _ => None,
        }
    } else {
        None
    }
}

/// The prefix of router `obj` after the first `n` nodes: the prefix of the
/// last `APIRouter` assigned to `obj` with one, else empty.
pub open spec fn prefix_upto(t: Seq<SyntaxNodeView>, obj: Seq<char>, n: int) -> Seq<char>
    decreases n,
{
    if n <= 0 {
        Seq::<char>::empty()
    } else {
        let prev = prefix_upto(t, obj, n - 1);
        match router_assignment(t, n - 1) {
            Some((v, Some(p))) => if v == obj {
                p
            } else {
                prev
            },
            _ => prev,
        }
    }
}

/// The path prefix of the router variable `obj` (empty when none is set).
pub open spec fn router_prefix(t: Seq<SyntaxNodeView>, obj: Seq<char>) -> Seq<char> {
    prefix_upto(t, obj, t.len() as int)
}

/// For a decorator `@obj.method(args)` at `d`: the object, the method and
/// the first named argument, if any.
pub open spec fn route_call(t: Seq<SyntaxNodeView>, d: int) -> Option<
    (Seq<char>, Seq<char>, Option<int>),
> {
    match named_child(t, d, 0) {
        Some(c) => if t[c].kind == "call"@ {
            match (child_by_field(t, c, "function"@), child_by_field(t, c, "arguments"@)) {
                (Some(f), Some(a)) => if t[f].kind == "attribute"@ && t[a].kind
                    == "argument_list"@ {
                    match (child_by_field(t, f, "object"@), child_by_field(t, f, "attribute"@)) {
                        (Some(o), Some(m)) => if t[o].kind == "identifier"@ {
                            Some((t[o].text, t[m].text, named_child(t, a, 0)))
                        } else {
                            None
                        },
                        _ => None,
                    }
                } else {
                    None
                },
                _ => None,
            }
        } else {
            None
        },
        None => None,
    }
}

/// The name of the function that the decorated definition at `i` defines.
pub open spec fn handler_of(t: Seq<SyntaxNodeView>, i: int) -> Option<Seq<char>> {
    match child_by_field(t, i, "definition"@) {
        Some(f) => if t[f].kind == "function_definition"@ {
            match child_by_field(t, f, "name"@) {
                Some(n) => Some(t[n].text),
                None => None,
            }
        } else {
            None
        },
        None => None,
    }
}

/// The path that a route decorator's first argument gives: a string
/// literal without its quotes, `<dynamic>` for anything else or nothing.
pub open spec fn decorator_path(t: Seq<SyntaxNodeView>, p: Option<int>) -> Seq<char> {
    match p {
        Some(x) => if t[x].kind == "string"@ {
            py_unquote(t[x].text)
        } else {
            "<dynamic>"@
        },
        None => "<dynamic>"@,
    }
}

/// The route that the child `d` of the decorated definition at `i`
/// declares: a decorator `@obj.method(path)` with an HTTP method, on a
/// function; the path follows the prefix of router `obj`.
pub open spec fn decorator_route(t: Seq<SyntaxNodeView>, i: int, d: int, file: Seq<char>) -> Option<
    RouteView,
> {
    if t[d].kind != "decorator"@ {
        None
    } else {
        match (route_call(t, d), handler_of(t, i)) {
            (Some((obj, method, p)), Some(h)) => if is_http_method(method) {
                Some(
                    RouteView {
                        http_method: upper_method(method),
                        path: router_prefix(t, obj) + decorator_path(t, p),
                        handler_name: h,
                        file: file,
                    },
                )
            } else {
                None
            },
            _ => None,
        }
    }
}

/// `rs` with the routes of the children `ks` of the decorated definition at
/// `i` added in order.
pub open spec fn definition_routes(
    t: Seq<SyntaxNodeView>,
    i: int,
    ks: Seq<int>,
    file: Seq<char>,
    rs: Seq<RouteView>,
) -> Seq<RouteView>
    decreases ks.len(),
{
    if ks.len() == 0 {
        rs
    } else {
        add_route(
            definition_routes(t, i, ks.drop_last(), file, rs),
            decorator_route(t, i, ks.last(), file),
        )
    }
}

/// The routes of the decorated definitions among the first `n` nodes.
pub open spec fn fastapi_routes_upto(t: Seq<SyntaxNodeView>, file: Seq<char>, n: int) -> Seq<
    RouteView,
>
    decreases n,
{
    if n <= 0 {
        Seq::<RouteView>::empty()
    } else {
        let prev = fastapi_routes_upto(t, file, n - 1);
        if t[n - 1].kind == "decorated_definition"@ {
            definition_routes(t, n - 1, kids(t, n - 1), file, prev)
        } else {
            prev
        }
    }
}

/// The FastAPI routes of a Python syntax tree, in source order, each once.
pub open spec fn fastapi_routes(t: Seq<SyntaxNodeView>, file: Seq<char>) -> Seq<RouteView> {
    fastapi_routes_upto(t, file, t.len() as int)
}

fn keyword_prefix_exec(t: &Vec<SyntaxNode>, k: usize) -> (r: Option<String>)
    requires
        k < t@.len(),
    ensures
        opt_string_view(r) == keyword_prefix(nodes_view(t@), k as int),
{
    if !kind_is(t, k, "keyword_argument") {
        return None;
    }
    match (child_by_field_exec(t, k, "name"), child_by_field_exec(t, k, "value")) {
        (Some(n), Some(v)) => {
            let nv = chars_of(t[n].text.as_str());
            if eq_lit(nv.as_slice(), "prefix") && kind_is(t, v, "string") {
                Some(strip_string_quotes(t[v].text.as_str()))
            } else {
                None
            }
        },
        _ => None,
    }
}

fn last_prefix_exec(t: &Vec<SyntaxNode>, g: usize) -> (r: Option<String>)
    requires
        g < t@.len(),
    ensures
        opt_string_view(r) == last_prefix(nodes_view(t@), kids(nodes_view(t@), g as int)),
{
    let ghost tv = nodes_view(t@);
    let ks = kids_exec(t, g);
    let ghost kv = ks@.map_values(|k: usize| k as int);
    let mut x = ks.len();
    assert(kv.take(x as int) =~= kv);
    while x > 0
        invariant
            tv == nodes_view(t@),
            kv == ks@.map_values(|k: usize| k as int),
            kv == kids(tv, g as int),
            x <= ks@.len(),
            forall|k: int| 0 <= k < ks@.len() ==> #[trigger] ks@[k] < t@.len(),
            last_prefix(tv, kv) == last_prefix(tv, kv.take(x as int)),
        decreases x,
    {
        let k = ks[x - 1];
        assert(kv.take(x as int).last() == k as int);
        assert(kv.take(x as int).drop_last() == kv.take(x - 1));
        match keyword_prefix_exec(t, k) {
            Some(p) => {
                return Some(p);
            },
            None => {},
        }
        x = x - 1;
    }
    assert(kv.take(0) =~= Seq::<int>::empty());
    None
}

fn router_assignment_exec(t: &Vec<SyntaxNode>, a: usize) -> (r: Option<(String, Option<String>)>)
    requires
        a < t@.len(),
    ensures
        match r {
            Some((v, p)) => router_assignment(nodes_view(t@), a as int) == Some(
                (v@, opt_string_view(p)),
            ),
            None => router_assignment(nodes_view(t@), a as int) is None,
        },
{
    let ghost tv = nodes_view(t@);
    if !kind_is(t, a, "assignment") {
        return None;
    }
    let (l, r) = match (child_by_field_exec(t, a, "left"), child_by_field_exec(t, a, "right")) {
        (Some(l), Some(r)) => (l, r),
        _ => {
            return None;
        },
    };
    if !(kind_is(t, l, "identifier") && kind_is(t, r, "call")) {
        return None;
    }
    let f = match child_by_field_exec(t, r, "function") {
        Some(f) => f,
        None => {
            return None;
        },
    };
    let fv = chars_of(t[f].text.as_str());
    if !eq_lit(fv.as_slice(), "APIRouter") {
        return None;
    }
    let prefix = match child_by_field_exec(t, r, "arguments") {
        Some(g) => last_prefix_exec(t, g),
        None => None,
    };
    Some((t[l].text.clone(), prefix))
}

/// The prefix of router `obj` (see [`router_prefix`]).
fn router_prefix_exec(t: &Vec<SyntaxNode>, obj: &String) -> (r: String)
    ensures
        r@ == router_prefix(nodes_view(t@), obj@),
{
    let ghost tv = nodes_view(t@);
    let mut prefix = String::new();
    let mut i: usize = 0;
    while i < t.len()
        invariant
            tv == nodes_view(t@),
            i <= t@.len(),
            prefix@ == prefix_upto(tv, obj@, i as int),
        decreases t@.len() - i,
    {
        match router_assignment_exec(t, i) {
            Some((v, Some(p))) => {
                if v == *obj {
                    prefix = p;
                }
            },
            _ => {},
        }
        i = i + 1;
    }
    prefix
}

fn route_call_exec(t: &Vec<SyntaxNode>, d: usize) -> (r: Option<(String, String, Option<usize>)>)
    requires
        d < t@.len(),
    ensures
        match r {
            Some((o, m, p)) => route_call(nodes_view(t@), d as int) == Some(
                (
                    o@,
                    m@,
                    match p {
                        Some(x) => Some(x as int),
                        None => None,
                    },
                ),
            ) && (p matches Some(x) ==> x < t@.len()),
            None => route_call(nodes_view(t@), d as int) is None,
        },
{
    let c = match named_child_exec(t, d, 0) {
        Some(c) => c,
        None => {
            return None;
        },
    };
    if !kind_is(t, c, "call") {
        return None;
    }
    let (f, a) = match (child_by_field_exec(t, c, "function"), child_by_field_exec(t, c, "arguments")) {
        (Some(f), Some(a)) => (f, a),
        _ => {
            return None;
        },
    };
    if !(kind_is(t, f, "attribute") && kind_is(t, a, "argument_list")) {
        return None;
    }
    match (child_by_field_exec(t, f, "object"), child_by_field_exec(t, f, "attribute")) {
        (Some(o), Some(m)) => {
            if kind_is(t, o, "identifier") {
                Some((t[o].text.clone(), t[m].text.clone(), named_child_exec(t, a, 0)))
            } else {
                None
            }
        },
        _ => None,
    }
}

fn handler_of_exec(t: &Vec<SyntaxNode>, i: usize) -> (r: Option<String>)
    requires
        i < t@.len(),
    ensures
        opt_string_view(r) == handler_of(nodes_view(t@), i as int),
{
    match child_by_field_exec(t, i, "definition") {
        Some(f) => {
            if kind_is(t, f, "function_definition") {
                match child_by_field_exec(t, f, "name") {
                    Some(n) => Some(t[n].text.clone()),
                    None => None,
                }
            } else {
                None
            }
        },
        None => None,
    }
}

fn http_method_exec(m: &String) -> (r: Option<String>)
    ensures
        match r {
            Some(u) => is_http_method(m@) && u@ == upper_method(m@),
            None => !is_http_method(m@),
        },
{
    let v = chars_of(m.as_str());
    if eq_lit(v.as_slice(), "get") {
        Some(String::from_str("GET"))
    } else if eq_lit(v.as_slice(), "post") {
        Some(String::from_str("POST"))
    } else if eq_lit(v.as_slice(), "put") {
        Some(String::from_str("PUT"))
    } else if eq_lit(v.as_slice(), "patch") {
        Some(String::from_str("PATCH"))
    } else if eq_lit(v.as_slice(), "delete") {
        Some(String::from_str("DELETE"))
    } else if eq_lit(v.as_slice(), "head") {
        Some(String::from_str("HEAD"))
    } else if eq_lit(v.as_slice(), "options") {
        Some(String::from_str("OPTIONS"))
    } else {
        None
    }
}

fn decorator_route_exec(t: &Vec<SyntaxNode>, i: usize, d: usize, file: &str) -> (r: Option<Route>)
    requires
        i < t@.len(),
        d < t@.len(),
    ensures
        match r {
            Some(x) => decorator_route(nodes_view(t@), i as int, d as int, file@) == Some(x@),
            None => decorator_route(nodes_view(t@), i as int, d as int, file@) is None,
        },
{
    if !kind_is(t, d, "decorator") {
        return None;
    }
    let (obj, method, p) = match route_call_exec(t, d) {
        Some(c) => c,
        None => {
            return None;
        },
    };
    let h = match handler_of_exec(t, i) {
        Some(h) => h,
        None => {
            return None;
        },
    };
    let upper = match http_method_exec(&method) {
        Some(u) => u,
        None => {
            return None;
        },
    };
    let sub = match p {
        Some(x) => {
            if kind_is(t, x, "string") {
                strip_string_quotes(t[x].text.as_str())
            } else {
                String::from_str("<dynamic>")
            }
        },
        None => String::from_str("<dynamic>"),
    };
    let prefix = router_prefix_exec(t, &obj);
    let pv = chars_of(prefix.as_str());
    let sv = chars_of(sub.as_str());
    let full = concat(pv.as_slice(), sv.as_slice());
    Some(
        Route {
            http_method: upper,
            path: string_of(full.as_slice()),
            handler_name: h,
            file: String::from_str(file),
        },
    )
}

/// The FastAPI routes of a Python syntax tree (see [`fastapi_routes`]).
pub fn fastapi_routes_from_syntax(t: &Vec<SyntaxNode>, file: &str) -> (r: Vec<Route>)
    ensures
        routes_view(r@) == fastapi_routes(nodes_view(t@), file@),
{
    let ghost tv = nodes_view(t@);
    let mut out: Vec<Route> = Vec::new();
    let mut i: usize = 0;
    while i < t.len()
        invariant
            tv == nodes_view(t@),
            i <= t@.len(),
            routes_view(out@) == fastapi_routes_upto(tv, file@, i as int),
        decreases t@.len() - i,
    {
        if kind_is(t, i, "decorated_definition") {
            let ks = kids_exec(t, i);
            let ghost kv = ks@.map_values(|k: usize| k as int);
            let ghost base = routes_view(out@);
            let mut x: usize = 0;
            assert(kv.take(0) =~= Seq::<int>::empty());
            while x < ks.len()
                invariant
                    tv == nodes_view(t@),
                    i < t@.len(),
                    kv == ks@.map_values(|k: usize| k as int),
                    kv == kids(tv, i as int),
                    x <= ks@.len(),
                    forall|k: int| 0 <= k < ks@.len() ==> #[trigger] ks@[k] < t@.len(),
                    routes_view(out@) == definition_routes(
                        tv,
                        i as int,
                        kv.take(x as int),
                        file@,
                        base,
                    ),
                decreases ks@.len() - x,
            {
                let d = ks[x];
                assert(kv.take(x + 1).drop_last() == kv.take(x as int));
                assert(kv.take(x + 1).last() == d as int);
                let found = decorator_route_exec(t, i, d, file);
                push_route(&mut out, found);
                x = x + 1;
            }
            assert(kv.take(ks@.len() as int) == kv);
        }
        i = i + 1;
    }
    out
}

/// The FastAPI routes of `source`: each function decorated with
/// `@obj.method(path)`, `method` an HTTP method, gives a route with the
/// method in upper case, the path after the prefix of `APIRouter`
/// variable `obj` (`<dynamic>` when the path is not a string literal), and
/// the function's name; repeated routes are listed once.
pub fn extract_routes(source: &str, file_path: &str) -> (r: Vec<Route>)
    ensures
        source@.len() == 0 ==> r@.len() == 0,
        source@.len() > 0 ==> match python_syntax(source@) {
            Some(t) => routes_view(r@) == fastapi_routes(t, file_path@),
            None => r@.len() == 0,
        },
{
    if source.is_empty() {
        return Vec::new();
    }
    match parse_python(source) {
        Some(t) => fastapi_routes_from_syntax(&t, file_path),
        None => Vec::new(),
    }
}

// ---------------------------------------------------------------------------
// Django URL confs
// ---------------------------------------------------------------------------

/// The name of the view that the argument at `h` names: an identifier, or
/// the last name of `module.view`.
pub open spec fn view_name(t: Seq<SyntaxNodeView>, h: int) -> Option<Seq<char>> {
    if t[h].kind == "identifier"@ {
        Some(t[h].text)
    } else if t[h].kind == "attribute"@ {
        match child_by_field(t, h, "attribute"@) {
            Some(a) => Some(t[a].text),
            None => None,
        }
    } else {
        None
    }
}

/// For a call `path("...", view)` or `re_path("...", view)` at `c`: the
/// function's name, the string literal and the view's name.
pub open spec fn url_pattern_call(t: Seq<SyntaxNodeView>, c: int) -> Option<
    (Seq<char>, Seq<char>, Seq<char>),
> {
    if t[c].kind == "call"@ {
        match (child_by_field(t, c, "function"@), child_by_field(t, c, "arguments"@)) {
            (Some(f), Some(a)) => if t[f].kind == "identifier"@ && (t[f].text == "path"@
                || t[f].text == "re_path"@) && t[a].kind == "argument_list"@ {
                match (named_child(t, a, 0), named_child(t, a, 1)) {
                    (Some(p), Some(h)) => if t[p].kind == "string"@ {
                        match view_name(t, h) {
                            Some(n) => Some((t[f].text, t[p].text, n)),
                            None => None,
                        }
                    } else {
                        None
                    },
                    _ => None,
                }
            } else {
                None
            },
            _ => None,
        }
    } else {
        None
    }
}

/// The route path of a URL pattern `raw` (a string literal) given to the
/// call `f`: unquoted, then normalized to `:param` notation as a regular
/// expression for `re_path`, as path converters otherwise.
pub open spec fn url_pattern_path(f: Seq<char>, raw: Seq<char>) -> Seq<char> {
    if f == "re_path"@ {
        re_path_normalized(py_unquote(raw))
    } else {
        django_path_normalized(py_unquote(raw))
    }
}

/// The URL-pattern call at `c` names the handler and path of `r`.
pub open spec fn url_conf_declares(t: Seq<SyntaxNodeView>, c: int, r: RouteView) -> bool {
    match url_pattern_call(t, c) {
        Some((f, raw, h)) => r.handler_name == h && r.path == url_pattern_path(f, raw),
        None => false,
    }
}

/// The route that the node at `c` declares in a URL conf: any method, the
/// pattern normalized to `:param` notation, the view's name.
pub open spec fn django_route(t: Seq<SyntaxNodeView>, c: int, file: Seq<char>) -> Option<
    RouteView,
> {
    match url_pattern_call(t, c) {
        Some((f, raw, h)) => Some(
            RouteView {
                http_method: "ANY"@,
                path: url_pattern_path(f, raw),
                handler_name: h,
                file: file,
            },
        ),
        None => None,
    }
}

/// The URL-conf routes among the first `n` nodes.
pub open spec fn django_routes_upto(t: Seq<SyntaxNodeView>, file: Seq<char>, n: int) -> Seq<
    RouteView,
>
    decreases n,
{
    if n <= 0 {
        Seq::<RouteView>::empty()
    } else {
        add_route(django_routes_upto(t, file, n - 1), django_route(t, n - 1, file))
    }
}

/// The Django URL-conf routes of a Python syntax tree, in source order,
/// each once.
pub open spec fn django_routes(t: Seq<SyntaxNodeView>, file: Seq<char>) -> Seq<RouteView> {
    django_routes_upto(t, file, t.len() as int)
}

fn view_name_exec(t: &Vec<SyntaxNode>, h: usize) -> (r: Option<String>)
    requires
        h < t@.len(),
    ensures
        opt_string_view(r) == view_name(nodes_view(t@), h as int),
{
    if kind_is(t, h, "identifier") {
        Some(t[h].text.clone())
    } else if kind_is(t, h, "attribute") {
        match child_by_field_exec(t, h, "attribute") {
            Some(a) => Some(t[a].text.clone()),
            None => None,
        }
    } else {
        None
    }
}

fn url_pattern_call_exec(t: &Vec<SyntaxNode>, c: usize) -> (r: Option<(String, String, String)>)
    requires
        c < t@.len(),
    ensures
        match r {
            Some((f, p, h)) => url_pattern_call(nodes_view(t@), c as int) == Some((f@, p@, h@)),
            None => url_pattern_call(nodes_view(t@), c as int) is None,
        },
{
    if !kind_is(t, c, "call") {
        return None;
    }
    let (f, a) = match (child_by_field_exec(t, c, "function"), child_by_field_exec(t, c, "arguments")) {
        (Some(f), Some(a)) => (f, a),
        _ => {
            return None;
        },
    };
    let fv = chars_of(t[f].text.as_str());
    if !(kind_is(t, f, "identifier") && (eq_lit(fv.as_slice(), "path") || eq_lit(
        fv.as_slice(),
        "re_path",
    )) && kind_is(t, a, "argument_list")) {
        return None;
    }
    match (named_child_exec(t, a, 0), named_child_exec(t, a, 1)) {
        (Some(p), Some(h)) => {
            if kind_is(t, p, "string") {
                match view_name_exec(t, h) {
                    Some(n) => Some((t[f].text.clone(), t[p].text.clone(), n)),
                    None => None,
                }
            } else {
                None
            }
        },
        _ => None,
    }
}

fn django_route_exec(t: &Vec<SyntaxNode>, c: usize, file: &str) -> (r: Option<Route>)
    requires
        c < t@.len(),
    ensures
        match r {
            Some(x) => django_route(nodes_view(t@), c as int, file@) == Some(x@),
            None => django_route(nodes_view(t@), c as int, file@) is None,
        },
{
    match url_pattern_call_exec(t, c) {
        Some((f, raw, h)) => {
            let inner = strip_string_quotes(raw.as_str());
            let fv = chars_of(f.as_str());
            let path = if eq_lit(fv.as_slice(), "re_path") {
                normalize_re_path(inner.as_str())
            } else {
                normalize_django_path(inner.as_str())
            };
            Some(
                Route {
                    http_method: String::from_str("ANY"),
                    path: path,
                    handler_name: h,
                    file: String::from_str(file),
                },
            )
        },
        None => None,
    }
}

/// The Django URL-conf routes of a Python syntax tree (see
/// [`django_routes`]).
pub fn django_routes_from_syntax(t: &Vec<SyntaxNode>, file: &str) -> (r: Vec<Route>)
    ensures
        routes_view(r@) == django_routes(nodes_view(t@), file@),
{
    let ghost tv = nodes_view(t@);
    let mut out: Vec<Route> = Vec::new();
    let mut i: usize = 0;
    while i < t.len()
        invariant
            tv == nodes_view(t@),
            i <= t@.len(),
            routes_view(out@) == django_routes_upto(tv, file@, i as int),
        decreases t@.len() - i,
    {
        let found = django_route_exec(t, i, file);
        push_route(&mut out, found);
        i = i + 1;
    }
    out
}

/// The Django URL-conf routes of `source`: each `path("pattern", view)` or
/// `re_path(r"pattern", view)` call gives a route for any method (`ANY`)
/// with the pattern normalized ([`normalize_django_path`],
/// [`normalize_re_path`]) and the view's name (`views.user_list` gives
/// `user_list`); `include(...)` views are not routes; repeated routes are
/// listed once.
pub fn extract_django_routes(source: &str, file_path: &str) -> (r: Vec<Route>)
    ensures
        source@.len() == 0 ==> r@.len() == 0,
        source@.len() > 0 ==> match python_syntax(source@) {
            Some(t) => routes_view(r@) == django_routes(t, file_path@),
            None => r@.len() == 0,
        },
{
    if source.is_empty() {
        return Vec::new();
    }
    match parse_python(source) {
        Some(t) => django_routes_from_syntax(&t, file_path),
        None => Vec::new(),
    }
}

// ---------------------------------------------------------------------------
// Laws
// ---------------------------------------------------------------------------

/// No route is listed twice.
pub open spec fn routes_distinct(rs: Seq<RouteView>) -> bool {
    forall|i: int, j: int| 0 <= i < j < rs.len() ==> rs[i] != rs[j]
}

/// An HTTP method as FastAPI routes report it.
pub open spec fn is_upper_http_method(m: Seq<char>) -> bool {
    m == "GET"@ || m == "POST"@ || m == "PUT"@ || m == "PATCH"@ || m == "DELETE"@ || m
        == "HEAD"@ || m == "OPTIONS"@
}

/// Every route of `rs` satisfies `p`.
pub open spec fn all_routes(rs: Seq<RouteView>, p: spec_fn(RouteView) -> bool) -> bool {
    forall|i: int| 0 <= i < rs.len() ==> p(#[trigger] rs[i])
}

proof fn lemma_add_route(rs: Seq<RouteView>, r: Option<RouteView>, p: spec_fn(RouteView) -> bool)
    requires
        routes_distinct(rs),
        all_routes(rs, p),
        r matches Some(x) ==> p(x),
    ensures
        routes_distinct(add_route(rs, r)),
        all_routes(add_route(rs, r), p),
{
    if let Some(x) = r {
        if !rs.contains(x) {
            let out = rs.push(x);
            assert forall|i: int, j: int| 0 <= i < j < out.len() implies out[i] != out[j] by {
                if j == rs.len() {
                    assert(rs[i] != x) by {
                        if rs[i] == x {
                            assert(rs.contains(x));
                        }
                    }
                }
            }
            assert forall|i: int| 0 <= i < out.len() implies p(#[trigger] out[i]) by {
                if i < rs.len() {
                    assert(out[i] == rs[i]);
                }
            }
        }
    }
}

/// The predicate that FastAPI routes of `file` meet: an upper-case HTTP
/// method, the file, and being the route that a decorator declares (see
/// [`decorator_route`]: the prefix of the decorator's own router followed
/// by the unquoted path literal, or by `<dynamic>` when the path is not a
/// literal).
pub open spec fn fastapi_route_shape(t: Seq<SyntaxNodeView>, file: Seq<char>) -> spec_fn(
    RouteView,
) -> bool {
    |r: RouteView|
        {
            &&& is_upper_http_method(r.http_method)
            &&& r.file == file
            &&& exists|i: int, d: int| #[trigger] decorator_route(t, i, d, file) == Some(r)
        }
}

/// The predicate that URL-conf routes of `file` meet: any method, the file,
/// and a path that is the route of some `path()`/`re_path()` call.
pub open spec fn django_route_shape(t: Seq<SyntaxNodeView>, file: Seq<char>) -> spec_fn(
    RouteView,
) -> bool {
    |r: RouteView|
        {
            &&& r.http_method == "ANY"@
            &&& r.file == file
            &&& exists|c: int| 0 <= c < t.len() && #[trigger] django_route(t, c, file) == Some(r)
        }
}

proof fn lemma_definition_routes(
    t: Seq<SyntaxNodeView>,
    i: int,
    ks: Seq<int>,
    file: Seq<char>,
    rs: Seq<RouteView>,
)
    requires
        routes_distinct(rs),
        all_routes(rs, fastapi_route_shape(t, file)),
    ensures
        routes_distinct(definition_routes(t, i, ks, file, rs)),
        all_routes(definition_routes(t, i, ks, file, rs), fastapi_route_shape(t, file)),
    decreases ks.len(),
{
    if ks.len() > 0 {
        lemma_definition_routes(t, i, ks.drop_last(), file, rs);
        let r = decorator_route(t, i, ks.last(), file);
        if let Some(x) = r {
            let (_, m, _) = route_call(t, ks.last())->0;
            assert(is_http_method(m));
            assert(is_upper_http_method(upper_method(m)));
            assert(decorator_route(t, i, ks.last(), file) == Some(x));
            assert(fastapi_route_shape(t, file)(x));
        }
        lemma_add_route(
            definition_routes(t, i, ks.drop_last(), file, rs),
            r,
            fastapi_route_shape(t, file),
        );
    }
}

proof fn lemma_fastapi_routes_upto(t: Seq<SyntaxNodeView>, file: Seq<char>, n: int)
    ensures
        routes_distinct(fastapi_routes_upto(t, file, n)),
        all_routes(fastapi_routes_upto(t, file, n), fastapi_route_shape(t, file)),
    decreases n,
{
    if n > 0 {
        lemma_fastapi_routes_upto(t, file, n - 1);
        if t[n - 1].kind == "decorated_definition"@ {
            lemma_definition_routes(t, n - 1, kids(t, n - 1), file, fastapi_routes_upto(t, file, n - 1));
        }
    }
}

proof fn lemma_django_routes_upto(t: Seq<SyntaxNodeView>, file: Seq<char>, n: int)
    requires
        n <= t.len(),
    ensures
        routes_distinct(django_routes_upto(t, file, n)),
        all_routes(django_routes_upto(t, file, n), django_route_shape(t, file)),
    decreases n,
{
    if n > 0 {
        lemma_django_routes_upto(t, file, n - 1);
        let r = django_route(t, n - 1, file);
        if let Some(x) = r {
            assert(0 <= n - 1 < t.len() && django_route(t, n - 1, file) == Some(x));
            assert(django_route_shape(t, file)(x));
        }
        lemma_add_route(django_routes_upto(t, file, n - 1), r, django_route_shape(t, file));
    }
}

/// FastAPI routes are listed once each; each has an upper-case HTTP method
/// (`GET`, `POST`, `PUT`, `PATCH`, `DELETE`, `HEAD`, `OPTIONS`), the given
/// file, and is the route that one of the tree's decorators declares: the
/// prefix of that decorator's own router object followed by the unquoted
/// path literal, or by `<dynamic>` when the path is not a literal.
pub proof fn law_fastapi_routes(t: Seq<SyntaxNodeView>, file: Seq<char>)
    ensures
        routes_distinct(fastapi_routes(t, file)),
        forall|q: int|
            0 <= q < fastapi_routes(t, file).len() ==> {
                let r = #[trigger] fastapi_routes(t, file)[q];
                &&& is_upper_http_method(r.http_method)
                &&& r.file == file
                &&& exists|i: int, d: int| #[trigger] decorator_route(t, i, d, file) == Some(r)
            },
{
    lemma_fastapi_routes_upto(t, file, t.len() as int);
    assert forall|q: int| 0 <= q < fastapi_routes(t, file).len() implies {
        let r = #[trigger] fastapi_routes(t, file)[q];
        &&& is_upper_http_method(r.http_method)
        &&& r.file == file
        &&& exists|i: int, d: int| #[trigger] decorator_route(t, i, d, file) == Some(r)
    } by {
        assert(fastapi_route_shape(t, file)(fastapi_routes(t, file)[q]));
    }
}

/// URL-conf routes are listed once each; each is for any method (`ANY`),
/// has the given file, and is the route of one `path()` or `re_path()`
/// call: its pattern unquoted and normalized to `:param` notation
/// (`re_path` patterns as regular expressions, others as path converters).
pub proof fn law_django_routes(t: Seq<SyntaxNodeView>, file: Seq<char>)
    ensures
        routes_distinct(django_routes(t, file)),
        forall|i: int|
            0 <= i < django_routes(t, file).len() ==> {
                let r = #[trigger] django_routes(t, file)[i];
                &&& r.http_method == "ANY"@
                &&& r.file == file
                &&& exists|c: int| 0 <= c < t.len() && #[trigger] url_conf_declares(t, c, r)
            },
{
    lemma_django_routes_upto(t, file, t.len() as int);
    assert forall|i: int| 0 <= i < django_routes(t, file).len() implies {
        let r = #[trigger] django_routes(t, file)[i];
        &&& r.http_method == "ANY"@
        &&& r.file == file
        &&& exists|c: int| 0 <= c < t.len() && #[trigger] url_conf_declares(t, c, r)
    } by {
        let r = django_routes(t, file)[i];
        assert(django_route_shape(t, file)(r));
        let c = choose|c: int| 0 <= c < t.len() && #[trigger] django_route(t, c, file) == Some(r);
        assert(url_conf_declares(t, c, r));
    }
}


/// A decorator `@obj.m(p)` on a function `h` declares a route exactly when
/// `m` is one of the seven lower-case HTTP methods `get`, `post`, `put`,
/// `patch`, `delete`, `head`, `options`; the route then has that method in
/// upper case, the path of router `obj` followed by the path argument, the
/// handler `h` and the file.
pub proof fn law_route_decorator_methods(
    t: Seq<SyntaxNodeView>,
    i: int,
    d: int,
    file: Seq<char>,
    obj: Seq<char>,
    m: Seq<char>,
    p: Option<int>,
    h: Seq<char>,
)
    requires
        0 <= d < t.len(),
        t[d].kind == "decorator"@,
        route_call(t, d) == Some((obj, m, p)),
        handler_of(t, i) == Some(h),
    ensures
        (decorator_route(t, i, d, file) is Some) == (m == "get"@ || m == "post"@ || m == "put"@ || m
            == "patch"@ || m == "delete"@ || m == "head"@ || m == "options"@),
        m == "get"@ ==> decorator_route(t, i, d, file) == Some(
            RouteView { http_method: "GET"@, path: router_prefix(t, obj) + decorator_path(t, p), handler_name: h, file: file },
        ),
        m == "post"@ ==> decorator_route(t, i, d, file) == Some(
            RouteView { http_method: "POST"@, path: router_prefix(t, obj) + decorator_path(t, p), handler_name: h, file: file },
        ),
        m == "put"@ ==> decorator_route(t, i, d, file) == Some(
            RouteView { http_method: "PUT"@, path: router_prefix(t, obj) + decorator_path(t, p), handler_name: h, file: file },
        ),
        m == "patch"@ ==> decorator_route(t, i, d, file) == Some(
            RouteView { http_method: "PATCH"@, path: router_prefix(t, obj) + decorator_path(t, p), handler_name: h, file: file },
        ),
        m == "delete"@ ==> decorator_route(t, i, d, file) == Some(
            RouteView { http_method: "DELETE"@, path: router_prefix(t, obj) + decorator_path(t, p), handler_name: h, file: file },
        ),
        m == "head"@ ==> decorator_route(t, i, d, file) == Some(
            RouteView { http_method: "HEAD"@, path: router_prefix(t, obj) + decorator_path(t, p), handler_name: h, file: file },
        ),
        m == "options"@ ==> decorator_route(t, i, d, file) == Some(
            RouteView { http_method: "OPTIONS"@, path: router_prefix(t, obj) + decorator_path(t, p), handler_name: h, file: file },
        ),
{
    reveal_strlit("get");
    reveal_strlit("post");
    reveal_strlit("put");
    reveal_strlit("patch");
    reveal_strlit("delete");
    reveal_strlit("head");
    reveal_strlit("options");
    assert("get"@.len() == 3 && "get"@[0] == 'g');
    assert("post"@.len() == 4 && "post"@[0] == 'p');
    assert("put"@.len() == 3 && "put"@[0] == 'p');
    assert("patch"@.len() == 5 && "patch"@[0] == 'p');
    assert("delete"@.len() == 6 && "delete"@[0] == 'd');
    assert("head"@.len() == 4 && "head"@[0] == 'h');
    assert("options"@.len() == 7 && "options"@[0] == 'o');
}


/// A `re_path()` pattern loses exactly one leading `^` and one trailing `$`
/// before its named groups are rewritten: `^s$` normalises as `s` does
/// without anchors, and so do `^s`, `s$` and `s` when `s` itself neither
/// begins with `^` nor ends with `$`.
pub proof fn law_re_path_anchors(s: Seq<char>)
    ensures
        re_path_normalized("^"@ + s + "$"@) == params_to_colons(re_path_group_pattern(), s),
        !starts_with(s, "^"@) && !ends_with(s, "$"@) ==> re_path_normalized(s) == params_to_colons(
            re_path_group_pattern(),
            s,
        ),
        !starts_with(s, "^"@) && !ends_with(s, "$"@) ==> re_path_normalized("^"@ + s)
            == params_to_colons(re_path_group_pattern(), s),
        !starts_with(s, "^"@) && !ends_with(s, "$"@) ==> re_path_normalized(s + "$"@)
            == params_to_colons(re_path_group_pattern(), s),
{
    reveal_strlit("^");
    reveal_strlit("$");
    let a = "^"@ + s + "$"@;
    assert(a.take(1) =~= "^"@);
    assert(a.skip(1) =~= s + "$"@);
    let b = s + "$"@;
    assert(b.skip(b.len() - 1) =~= "$"@);
    assert(b.take(b.len() - 1) =~= s);
    let c = "^"@ + s;
    assert(c.take(1) =~= "^"@);
    assert(c.skip(1) =~= s);
    if !starts_with(s, "^"@) && !ends_with(s, "$"@) {
        if starts_with(b, "^"@) {
            assert(b.take(1) == "^"@);
            if s.len() > 0 {
                assert(b.take(1) =~= s.take(1));
                assert(starts_with(s, "^"@));
            } else {
                assert(b.take(1)[0] == '$');
            }
        }
    }
}

} // verus!
