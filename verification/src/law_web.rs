//! Requests and answers, in terms of the texts that they are made of.

use vstd::prelude::*;

use crate::ieee::Double;
use crate::text::{cut, lemma_append_part, lemma_cut, parts_from};
use crate::web::{
    granted, headers_view, is_allowed, is_root, key_value, last_value, origin_value, param,
    params_result, query_text, reads, route_of, takes_params, wants_geojson, with_text, ErrorReply,
    Header, Route, RouteView,
};

verus! {

/// The parts of a text hold no separator.
pub proof fn law_parts_hold_no_separator(s: Seq<char>, sep: char, i: int)
    requires
        0 <= i <= s.len(),
    ensures
        forall|k: int, j: int|
            0 <= k < parts_from(s, sep, i).len() && 0 <= j < parts_from(s, sep, i)[k].len()
                ==> #[trigger] parts_from(s, sep, i)[k][j] != sep,
    decreases s.len() - i,
{
    lemma_cut(s, sep, i);
    let end = cut(s, sep, i);
    let parts = parts_from(s, sep, i);
    if end < s.len() {
        law_parts_hold_no_separator(s, sep, end + 1);
        let others = parts_from(s, sep, end + 1);
        assert forall|k: int, j: int|
            0 <= k < parts.len() && 0 <= j < parts[k].len() implies #[trigger] parts[k][j]
            != sep by {
            if k == 0 {
                assert(parts[0] == s.subrange(i, end));
                assert(parts[0][j] == s[i + j]);
            } else {
                assert(parts[k] == others[k - 1]);
                assert(others[k - 1][j] != sep);
            }
        }
    } else {
        assert forall|k: int, j: int|
            0 <= k < parts.len() && 0 <= j < parts[k].len() implies #[trigger] parts[k][j]
            != sep by {
            assert(parts[0][j] == s[i + j]);
        }
    }
}

/// A parameter is split at its first equals sign; without one it is all key.
pub proof fn law_key_and_value(key: Seq<char>, value: Seq<char>)
    requires
        forall|k: int| 0 <= k < key.len() ==> #[trigger] key[k] != '=',
    ensures
        key_value(key + seq!['='] + value) == (key, value),
        key_value(key) == (key, Seq::<char>::empty()),
{
    let pair = key + seq!['='] + value;
    lemma_cut(pair, '=', 0);
    let eq = cut(pair, '=', 0);
    assert(pair[key.len() as int] == '=');
    if eq < key.len() {
        assert(pair[eq] == key[eq]);
    }
    assert(eq == key.len());
    assert(pair.subrange(0, eq) =~= key);
    assert(pair.subrange(eq + 1, pair.len() as int) =~= value);
    lemma_cut(key, '=', 0);
    if cut(key, '=', 0) < key.len() {
        assert(key[cut(key, '=', 0)] == '=');
    }
}

/// What a query gives for a key: nothing but its only parameter counts if it has
/// one, and else the last parameter comes before all others.
pub proof fn law_parameters(query: Seq<char>, pair: Seq<char>, key: Seq<char>)
    requires
        forall|k: int| 0 <= k < pair.len() ==> #[trigger] pair[k] != '&',
    ensures
        param(pair, key) == if key_value(pair).0 == key {
            Some(key_value(pair).1)
        } else {
            None
        },
        param(query + seq!['&'] + pair, key) == if key_value(pair).0 == key {
            Some(key_value(pair).1)
        } else {
            param(query, key)
        },
{
    lemma_cut(pair, '&', 0);
    if cut(pair, '&', 0) < pair.len() {
        assert(pair[cut(pair, '&', 0)] == '&');
    }
    assert(pair.subrange(0, pair.len() as int) =~= pair);
    let one = parts_from(pair, '&', 0);
    assert(one == seq![pair]);
    assert(last_value(one.drop_last(), key) is None);
    lemma_append_part(query, '&', pair, 0);
    let parts = parts_from(query, '&', 0);
    assert(parts.push(pair).drop_last() =~= parts);
}

/// GeoJSON is asked for by the value `geojson` of the parameter `format`, and by
/// nothing else.
pub proof fn law_format(query: Seq<char>)
    ensures
        wants_geojson(query) <==> param(query, "format"@) == Some("geojson"@),
{
}

/// A coordinate is what the reader of numbers reads from its text, and nothing
/// where there is no text.
pub proof fn law_coordinates_are_read<F: Fn(&str) -> Option<Double>>(
    parse: F,
    text: Seq<char>,
    r: Option<Double>,
)
    ensures
        reads(parse, None, r) <==> r is None,
        reads(parse, Some(text), r) <==> exists|s: &str|
            s@ == text && #[trigger] call_ensures(parse, (s,), r),
{
}

/// Both coordinates are needed, and a missing longitude is reported first.
pub proof fn law_coordinates_are_needed(lng: Double, lat: Double, any: Option<Double>, g: bool)
    ensures
        params_result(Some(lng), Some(lat), g) == Ok::<(Double, Double, bool), Seq<char>>(
            (lng, lat, g),
        ),
        params_result(None, any, g) == Err::<(Double, Double, bool), Seq<char>>(
            "missing or invalid `lng` parameter"@,
        ),
        params_result(Some(lng), None, g) == Err::<(Double, Double, bool), Seq<char>>(
            "missing or invalid `lat` parameter"@,
        ),
{
}

/// What is done for each request.
pub proof fn law_routes(
    method: Seq<char>,
    path: Seq<char>,
    lng: Double,
    lat: Double,
    g: bool,
    message: Seq<char>,
)
    ensures
        ({
            let point = Ok::<(Double, Double, bool), Seq<char>>((lng, lat, g));
            let none = Err::<(Double, Double, bool), Seq<char>>(message);
            let root = path == "/"@ || path.len() == 0;
            &&& method == "OPTIONS"@ ==> route_of(method, path, point) == RouteView::Preflight
                && route_of(method, path, none) == RouteView::Preflight
            &&& method != "OPTIONS"@ && method != "GET"@ ==> route_of(method, path, point)
                == RouteView::Error(405, "method not allowed"@) && route_of(method, path, none)
                == RouteView::Error(405, "method not allowed"@)
            &&& method == "GET"@ && (root || path == "/api"@) ==> route_of(method, path, point)
                == RouteView::Query(lng, lat, g)
            &&& method == "GET"@ && root ==> route_of(method, path, none) == RouteView::Page
            &&& method == "GET"@ && path == "/api"@ ==> route_of(method, path, none)
                == RouteView::Error(400, message)
            &&& method == "GET"@ && !root && path != "/api"@ ==> route_of(method, path, point)
                == RouteView::Error(404, "not found"@) && route_of(method, path, none)
                == RouteView::Error(404, "not found"@)
            &&& is_root(path) <==> root
            &&& takes_params(method, path) <==> method == "GET"@ && (root || path == "/api"@)
        }),
{
    reveal_strlit("OPTIONS");
    reveal_strlit("GET");
    reveal_strlit("/");
    reveal_strlit("/api");
    assert("OPTIONS"@.len() != "GET"@.len());
    assert("/"@.len() != "/api"@.len());
}

/// The origins that answers may be read from, and what an answer names for them
/// and for the others.
pub proof fn law_origins(o: &str)
    ensures
        is_allowed(o@) <==> o@ == "https://ringsaturn.github.io"@ || o@
            == "http://localhost:9999"@,
        o@ == "https://ringsaturn.github.io"@ || o@ == "http://localhost:9999"@ ==> granted(Some(o))
            == o@,
        o@ != "https://ringsaturn.github.io"@ && o@ != "http://localhost:9999"@ ==> granted(Some(o))
            == Seq::<char>::empty(),
        granted(None) == Seq::<char>::empty(),
        origin_value(Some(o)) == o@,
        origin_value(None) == Seq::<char>::empty(),
{
}

/// What the parts of requests and answers stand for.
pub proof fn law_views_of_requests(
    q: &str,
    h: Seq<Header>,
    i: int,
    e: ErrorReply,
    lng: Double,
    lat: Double,
    geojson: bool,
    message: String,
    v: (Double, Double, bool),
)
    ensures
        query_text(Some(q)) == q@,
        query_text(None) == Seq::<char>::empty(),
        headers_view(h).len() == h.len(),
        0 <= i < h.len() ==> headers_view(h)[i].0 == h[i].0@ && headers_view(h)[i].1 == h[i].1@,
        e@.0 == e.status,
        e@.1 == e.message@,
        Route::Preflight@ == RouteView::Preflight,
        Route::Page@ == RouteView::Page,
        Route::Error(e)@ == RouteView::Error(e.status, e.message@),
        (Route::Query { lng, lat, geojson })@ == RouteView::Query(lng, lat, geojson),
        with_text(Ok::<(Double, Double, bool), String>(v)) == Ok::<
            (Double, Double, bool),
            Seq<char>,
        >(v),
        with_text(Err::<(Double, Double, bool), String>(message)) == Err::<
            (Double, Double, bool),
            Seq<char>,
        >(message@),
{
}

} // verus!
