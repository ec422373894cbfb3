//! Requests and the frames of their answers.

use vstd::prelude::*;

use crate::ieee::Double;
use crate::text::{chars_of, cut, cut_at, lemma_append_part, lemma_cut, parts_from, str_eq};

verus! {

/// The key and the value of a query parameter, which stand before and after
/// its first equals sign; without one the value is empty.
pub open spec fn key_value(pair: Seq<char>) -> (Seq<char>, Seq<char>) {
    let eq = cut(pair, '=', 0);
    if eq >= pair.len() {
        (pair, Seq::empty())
    } else {
        (pair.subrange(0, eq), pair.subrange(eq + 1, pair.len() as int))
    }
}

/// The value of the last of the parameters that has the key.
pub open spec fn last_value(pairs: Seq<Seq<char>>, key: Seq<char>) -> Option<Seq<char>>
    decreases pairs.len(),
{
    if pairs.len() == 0 {
        None
    } else if key_value(pairs.last()).0 == key {
        Some(key_value(pairs.last()).1)
    } else {
        last_value(pairs.drop_last(), key)
    }
}

/// The value of a query's parameter; of several ones the last counts.
pub open spec fn param(query: Seq<char>, key: Seq<char>) -> Option<Seq<char>> {
    last_value(parts_from(query, '&', 0), key)
}

/// The query asks for GeoJSON.
pub open spec fn wants_geojson(query: Seq<char>) -> bool {
    param(query, "format"@) == Some("geojson"@)
}

/// `parse` may read `r` from the text; where there is no text, nothing is read.
pub open spec fn reads<F: Fn(&str) -> Option<Double>>(
    parse: F,
    text: Option<Seq<char>>,
    r: Option<Double>,
) -> bool {
    match text {
        Some(t) => exists|s: &str| s@ == t && #[trigger] call_ensures(parse, (s,), r),
        None => r is None,
    }
}

/// What is answered where a coordinate cannot be read.
pub open spec fn params_result(lng: Option<Double>, lat: Option<Double>, geojson: bool) -> Result<
    (Double, Double, bool),
    Seq<char>,
> {
    match (lng, lat) {
        (None, _) => Err("missing or invalid `lng` parameter"@),
        (Some(_), None) => Err("missing or invalid `lat` parameter"@),
        (Some(x), Some(y)) => Ok((x, y, geojson)),
    }
}

/// A result with the text of its error.
pub open spec fn with_text<T>(r: Result<T, String>) -> Result<T, Seq<char>> {
    match r {
        Ok(v) => Ok(v),
        Err(m) => Err(m@),
    }
}

/// Reads the parameters `lng`, `lat` and `format` of a query; `parse` reads a
/// number.
pub fn parse_params<F: Fn(&str) -> Option<Double>>(query: &str, parse: &F) -> (r: Result<
    (Double, Double, bool),
    String,
>)
    requires
        forall|s: &str| #[trigger] call_requires(*parse, (s,)),
    ensures
        exists|lng: Option<Double>, lat: Option<Double>|
            #[trigger] reads(*parse, param(query@, "lng"@), lng) && #[trigger] reads(
                *parse,
                param(query@, "lat"@),
                lat,
            ) && with_text(r) == params_result(lng, lat, wants_geojson(query@)),
{
    let text: Vec<char> = chars_of(query);
    let total: usize = text.len();
    let mut lng: Option<Double> = None;
    let mut lat: Option<Double> = None;
    let mut geojson: bool = false;
    let mut start: usize = 0;
    let ghost mut pairs: Seq<Seq<char>> = Seq::empty();
    assert(parts_from(query@, '&', 0) =~= pairs + parts_from(query@, '&', 0));
    loop
        invariant_except_break
            parts_from(query@, '&', 0) == pairs + parts_from(query@, '&', start as int),
        invariant
            text@ == query@,
            total == query@.len(),
            start <= total,
            forall|s: &str| #[trigger] call_requires(*parse, (s,)),
            reads(*parse, last_value(pairs, "lng"@), lng),
            reads(*parse, last_value(pairs, "lat"@), lat),
            geojson == (last_value(pairs, "format"@) == Some("geojson"@)),
        ensures
            reads(*parse, param(query@, "lng"@), lng),
            reads(*parse, param(query@, "lat"@), lat),
            geojson == wants_geojson(query@),
        decreases total - start,
    {
        let end: usize = cut_at(&text, '&', start);
        let pair: &str = query.substring_char(start, end);
        let (key, val) = split_pair(pair);
        let ghost known = pairs;
        proof {
            pairs = pairs.push(pair@);
            assert(pairs.drop_last() =~= known);
            lemma_keys_differ();
            if end < total {
                assert(pairs + parts_from(query@, '&', end + 1) =~= known + (seq![pair@]
                    + parts_from(query@, '&', end + 1)));
            } else {
                assert(known + seq![pair@] =~= pairs);
            }
        }
        if str_eq(key, "lng") {
            lng = parse(val);
        } else if str_eq(key, "lat") {
            lat = parse(val);
        } else if str_eq(key, "format") {
            geojson = str_eq(val, "geojson");
        }
        if end >= total {
            break;
        }
        start = end + 1;
    }
    match (lng, lat) {
        (None, _) => Err("missing or invalid `lng` parameter".to_string()),
        (Some(_), None) => Err("missing or invalid `lat` parameter".to_string()),
        (Some(x), Some(y)) => Ok((x, y, geojson)),
    }
}

/// The three keys are different.
proof fn lemma_keys_differ()
    ensures
        "lng"@ != "lat"@,
        "lng"@ != "format"@,
        "lat"@ != "format"@,
{
    reveal_strlit("lng");
    reveal_strlit("lat");
    reveal_strlit("format");
    assert("lng"@[1] != "lat"@[1]);
    assert("lng"@.len() != "format"@.len());
}

/// The key and the value of a query parameter.
fn split_pair<'a>(pair: &'a str) -> (r: (&'a str, &'a str))
    ensures
        (r.0@, r.1@) == key_value(pair@),
{
    let text: Vec<char> = chars_of(pair);
    let eq: usize = cut_at(&text, '=', 0);
    if eq >= text.len() {
        let empty: &str = "";
        proof {
            reveal_strlit("");
            assert(empty@ =~= Seq::empty());
        }
        (pair, empty)
    } else {
        (pair.substring_char(0, eq), pair.substring_char(eq + 1, text.len()))
    }
}

/// Pages that may read the answers.
pub open spec fn is_allowed(origin: Seq<char>) -> bool {
    origin == "https://ringsaturn.github.io"@ || origin == "http://localhost:9999"@
}

/// The origin that an answer names: the one that asks if it is allowed, else
/// none.
pub open spec fn granted(origin: Option<&str>) -> Seq<char> {
    match origin {
        Some(o) => if is_allowed(o@) {
            o@
        } else {
            Seq::empty()
        },
        None => Seq::empty(),
    }
}

/// The origin, where pages from it may read the answers.
pub fn allowed_origin(origin: Option<&str>) -> (r: Option<&'static str>)
    ensures
        match origin {
            Some(o) => if is_allowed(o@) {
                r matches Some(a) && a@ == o@
            } else {
                r is None
            },
            None => r is None,
        },
        origin_value(r) == granted(origin),
{
    match origin {
        Some(o) => if str_eq(o, "https://ringsaturn.github.io") {
            Some("https://ringsaturn.github.io")
        } else if str_eq(o, "http://localhost:9999") {
            Some("http://localhost:9999")
        } else {
            None
        },
        None => None,
    }
}

/// A header: its name and its value.
pub type Header = (&'static str, String);

/// Status and headers of an answer.
pub struct Head {
    pub status: u16,
    pub headers: Vec<Header>,
}

/// The text of the headers.
pub open spec fn headers_view(headers: Seq<Header>) -> Seq<(Seq<char>, Seq<char>)> {
    headers.map_values(|h: Header| (h.0@, h.1@))
}

/// The value of the header that names the origin: empty for no origin.
pub open spec fn origin_value(origin: Option<&str>) -> Seq<char> {
    match origin {
        Some(o) => o@,
        None => Seq::empty(),
    }
}

fn origin_header(origin: Option<&str>) -> (r: Header)
    ensures
        r.0@ == "access-control-allow-origin"@,
        r.1@ == origin_value(origin),
{
    let value: String = match origin {
        Some(o) => o.to_string(),
        None => String::new(),
    };
    ("access-control-allow-origin", value)
}

fn header(name: &'static str, value: &str) -> (r: Header)
    ensures
        r.0@ == name@,
        r.1@ == value@,
{
    (name, value.to_string())
}

/// The answer to a preflight request; it has no body.
pub fn cors_preflight(origin: Option<&str>) -> (r: Head)
    ensures
        r.status == 204,
        headers_view(r.headers@) == seq![
            ("access-control-allow-origin"@, origin_value(origin)),
            ("access-control-allow-methods"@, "GET, OPTIONS"@),
            ("access-control-allow-headers"@, "*"@),
            ("access-control-max-age"@, "86400"@),
            ("vary"@, "origin"@),
        ],
{
    let headers: Vec<Header> = vec![
        origin_header(origin),
        header("access-control-allow-methods", "GET, OPTIONS"),
        header("access-control-allow-headers", "*"),
        header("access-control-max-age", "86400"),
        header("vary", "origin"),
    ];
    Head { status: 204, headers }
}

/// Status and headers of the start page.
pub fn make_html(origin: Option<&str>) -> (r: Head)
    ensures
        r.status == 200,
        headers_view(r.headers@) == seq![
            ("access-control-allow-origin"@, origin_value(origin)),
            ("vary"@, "origin"@),
        ],
{
    let headers: Vec<Header> = vec![origin_header(origin), header("vary", "origin")];
    Head { status: 200, headers }
}

/// Status and headers of an answer in JSON.
pub fn make_json(status: u16, origin: Option<&str>) -> (r: Head)
    ensures
        r.status == status,
        headers_view(r.headers@) == seq![
            ("access-control-allow-origin"@, origin_value(origin)),
            ("access-control-allow-methods"@, "GET, OPTIONS"@),
            ("vary"@, "origin"@),
        ],
{
    let headers: Vec<Header> = vec![
        origin_header(origin),
        header("access-control-allow-methods", "GET, OPTIONS"),
        header("vary", "origin"),
    ];
    Head { status, headers }
}

/// An answer that reports an error.
pub struct ErrorReply {
    pub status: u16,
    pub message: String,
}

impl View for ErrorReply {
    type V = (u16, Seq<char>);

    open spec fn view(&self) -> (u16, Seq<char>) {
        (self.status, self.message@)
    }
}

/// What a request calls for.
pub enum Route {
    /// The answer to a preflight request.
    Preflight,
    /// The start page.
    Page,
    /// An error.
    Error(ErrorReply),
    /// The divisions that hold a point, with outlines or without.
    Query { lng: Double, lat: Double, geojson: bool },
}

/// What a request calls for, with the text of its error.
pub ghost enum RouteView {
    Preflight,
    Page,
    Error(u16, Seq<char>),
    Query(Double, Double, bool),
}

impl View for Route {
    type V = RouteView;

    open spec fn view(&self) -> RouteView {
        match self {
            Route::Preflight => RouteView::Preflight,
            Route::Page => RouteView::Page,
            Route::Error(e) => RouteView::Error(e.status, e.message@),
            Route::Query { lng, lat, geojson } => RouteView::Query(*lng, *lat, *geojson),
        }
    }
}

/// The path of the root, where the start page is shown to those who give no
/// point.
pub open spec fn is_root(path: Seq<char>) -> bool {
    path == "/"@ || path.len() == 0
}

/// The request is answered by its parameters.
pub open spec fn takes_params(method: Seq<char>, path: Seq<char>) -> bool {
    method == "GET"@ && (is_root(path) || path == "/api"@)
}

/// What a request calls for, given what its coordinates read as.
pub open spec fn route_of(
    method: Seq<char>,
    path: Seq<char>,
    params: Result<(Double, Double, bool), Seq<char>>,
) -> RouteView {
    if method == "OPTIONS"@ {
        RouteView::Preflight
    } else if method != "GET"@ {
        RouteView::Error(405, "method not allowed"@)
    } else if is_root(path) {
        match params {
            Ok((lng, lat, geojson)) => RouteView::Query(lng, lat, geojson),
            Err(_) => RouteView::Page,
        }
    } else if path != "/api"@ {
        RouteView::Error(404, "not found"@)
    } else {
        match params {
            Ok((lng, lat, geojson)) => RouteView::Query(lng, lat, geojson),
            Err(message) => RouteView::Error(400, message),
        }
    }
}

/// The text of a query, empty for none.
pub open spec fn query_text(query: Option<&str>) -> Seq<char> {
    match query {
        Some(q) => q@,
        None => Seq::empty(),
    }
}

fn failure(status: u16, message: &str) -> (r: ErrorReply)
    ensures
        r@ == (status, message@),
{
    ErrorReply { status, message: message.to_string() }
}

/// What a request calls for; `parse` reads a number.
pub fn route<F: Fn(&str) -> Option<Double>>(
    method: &str,
    path: &str,
    query: Option<&str>,
    parse: &F,
) -> (r: Route)
    requires
        forall|s: &str| #[trigger] call_requires(*parse, (s,)),
    ensures
        !takes_params(method@, path@) ==> r@ == route_of(method@, path@, Err(Seq::empty())),
        takes_params(method@, path@) ==> exists|lng: Option<Double>, lat: Option<Double>|
            #[trigger] reads(*parse, param(query_text(query), "lng"@), lng) && #[trigger] reads(
                *parse,
                param(query_text(query), "lat"@),
                lat,
            ) && r@ == route_of(
                method@,
                path@,
                params_result(lng, lat, wants_geojson(query_text(query))),
            ),
{
    proof {
        reveal_strlit("OPTIONS");
        reveal_strlit("GET");
        reveal_strlit("/");
        reveal_strlit("/api");
        reveal_strlit("");
        assert(""@ =~= Seq::empty());
        assert("OPTIONS"@.len() != "GET"@.len());
        assert("/"@.len() != "/api"@.len());
    }
    if str_eq(method, "OPTIONS") {
        return Route::Preflight;
    }
    if !str_eq(method, "GET") {
        return Route::Error(failure(405, "method not allowed"));
    }
    let root: bool = str_eq(path, "/") || path.is_empty();
    if !root && !str_eq(path, "/api") {
        return Route::Error(failure(404, "not found"));
    }
    let text: &str = match query {
        Some(q) => q,
        None => "",
    };
    match parse_params(text, parse) {
        Ok((lng, lat, geojson)) => Route::Query { lng, lat, geojson },
        Err(message) => if root {
            Route::Page
        } else {
            Route::Error(ErrorReply { status: 400, message })
        },
    }
}

/// The answer where the index cannot be loaded.
pub fn index_failure(cause: &str) -> (r: ErrorReply)
    ensures
        r@ == (500u16, "index init error: "@ + cause@),
{
    ErrorReply { status: 500, message: "index init error: ".to_string().concat(cause) }
}

/// The answer where a query cannot be completed.
pub fn query_failure(cause: &str) -> (r: ErrorReply)
    ensures
        r@ == (500u16, "query error: "@ + cause@),
{
    ErrorReply { status: 500, message: "query error: ".to_string().concat(cause) }
}

/// The name of the index file: the configured one, if any.
pub fn index_key(configured: Option<String>) -> (r: String)
    ensures
        r@ == match configured {
            Some(key) => key@,
            None => "divisions.xs-index.gz"@,
        },
{
    match configured {
        Some(key) => key,
        None => "divisions.xs-index.gz".to_string(),
    }
}

/// The name of the slab file: the configured one, if any.
pub fn slab_key(configured: Option<String>) -> (r: String)
    ensures
        r@ == match configured {
            Some(key) => key@,
            None => "divisions.xs-poly"@,
        },
{
    match configured {
        Some(key) => key,
        None => "divisions.xs-poly".to_string(),
    }
}

/// An answer names an origin only if it is the one that asks and is allowed.
pub proof fn law_only_allowed_origins_are_named(origin: Option<&str>)
    ensures
        granted(origin).len() > 0 ==> is_allowed(granted(origin)) && origin is Some && origin->0@
            == granted(origin),
        granted(None::<&str>) == Seq::<char>::empty(),
{
}

/// Of several parameters with the same key the last counts.
pub proof fn law_last_parameter_counts(query: Seq<char>, key: Seq<char>, value: Seq<char>)
    requires
        forall|k: int| 0 <= k < key.len() ==> key[k] != '&' && key[k] != '=',
        forall|k: int| 0 <= k < value.len() ==> value[k] != '&',
    ensures
        param(query + seq!['&'] + (key + seq!['='] + value), key) == Some(value),
{
    let pair = key + seq!['='] + value;
    assert forall|k: int| 0 <= k < pair.len() implies pair[k] != '&' by {
        if k < key.len() {
            assert(pair[k] == key[k]);
        } else if k > key.len() {
            assert(pair[k] == value[k - key.len() - 1]);
        }
    }
    lemma_append_part(query, '&', pair, 0);
    lemma_cut(pair, '=', 0);
    let eq = cut(pair, '=', 0);
    assert(eq == key.len()) by {
        assert(pair[key.len() as int] == '=');
        if eq < key.len() {
            assert(pair[eq] == key[eq]);
        }
    }
    assert(pair.subrange(0, eq) =~= key);
    assert(pair.subrange(eq + 1, pair.len() as int) =~= value);
}

/// A parameter with another key does not matter.
pub proof fn law_other_parameters_do_not_matter(query: Seq<char>, pair: Seq<char>, key: Seq<char>)
    requires
        forall|k: int| 0 <= k < pair.len() ==> pair[k] != '&',
        key_value(pair).0 != key,
    ensures
        param(query + seq!['&'] + pair, key) == param(query, key),
{
    lemma_append_part(query, '&', pair, 0);
    assert(parts_from(query, '&', 0).push(pair).drop_last() =~= parts_from(query, '&', 0));
}

/// What is refused, and how it is answered: any method but `GET` and `OPTIONS`,
/// whatever the path; any path but the page and the interface; and coordinates
/// that are missing or cannot be read, the longitude first.
pub proof fn law_refusals(
    method: Seq<char>,
    path: Seq<char>,
    lng: Option<Double>,
    lat: Option<Double>,
    geojson: bool,
)
    ensures
        method != "GET"@ && method != "OPTIONS"@ ==> route_of(
            method,
            path,
            params_result(lng, lat, geojson),
        ) == RouteView::Error(405, "method not allowed"@),
        method == "GET"@ && path != "/"@ && path.len() > 0 && path != "/api"@ ==> route_of(
            method,
            path,
            params_result(lng, lat, geojson),
        ) == RouteView::Error(404, "not found"@),
        method == "GET"@ && path == "/api"@ && lng is None ==> route_of(
            method,
            path,
            params_result(lng, lat, geojson),
        ) == RouteView::Error(400, "missing or invalid `lng` parameter"@),
        method == "GET"@ && path == "/api"@ && lng is Some && lat is None ==> route_of(
            method,
            path,
            params_result(lng, lat, geojson),
        ) == RouteView::Error(400, "missing or invalid `lat` parameter"@),
        method == "GET"@ && path == "/api"@ && lng is Some && lat is Some ==> route_of(
            method,
            path,
            params_result(lng, lat, geojson),
        ) == RouteView::Query(lng->0, lat->0, geojson),
{
    reveal_strlit("GET");
    reveal_strlit("OPTIONS");
    reveal_strlit("/");
    reveal_strlit("/api");
    assert("OPTIONS"@.len() != "GET"@.len());
    assert("/"@.len() != "/api"@.len());
}

/// At the root a point is looked up as it is at the interface; where no point
/// can be read, the start page is shown.
pub proof fn law_root_looks_up_or_shows_page(
    path: Seq<char>,
    lng: Option<Double>,
    lat: Option<Double>,
    geojson: bool,
)
    requires
        is_root(path),
    ensures
        lng is Some && lat is Some ==> route_of("GET"@, path, params_result(lng, lat, geojson))
            == RouteView::Query(lng->0, lat->0, geojson),
        lng is None || lat is None ==> route_of("GET"@, path, params_result(lng, lat, geojson))
            == RouteView::Page,
{
    reveal_strlit("GET");
    reveal_strlit("OPTIONS");
    assert("OPTIONS"@.len() != "GET"@.len());
}

} // verus!
