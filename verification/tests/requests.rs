use xsgeo::ieee::Double;
use xsgeo::web::{
    allowed_origin, cors_preflight, index_failure, index_key, make_html, make_json, parse_params,
    query_failure, route, slab_key, Head, Route,
};

fn number(text: &str) -> Option<Double> {
    text.parse::<f64>().ok().map(|x| Double { bits: x.to_bits() })
}

fn params(query: &str) -> Result<(f64, f64, bool), String> {
    parse_params(query, &number)
        .map(|(lng, lat, geojson)| (f64::from_bits(lng.bits), f64::from_bits(lat.bits), geojson))
}

#[test]
fn parameters_are_read() {
    assert_eq!(params("lng=116.4&lat=39.9"), Ok((116.4, 39.9, false)));
    assert_eq!(params("format=geojson&lat=-1e1&lng=0&x=y"), Ok((0.0, -10.0, true)));
    assert_eq!(params("lng=1&lat=2&format=json"), Ok((1.0, 2.0, false)));
    assert_eq!(params("lng=1&lat=2&format"), Ok((1.0, 2.0, false)));
    assert_eq!(params("&&lng=1&&lat=2&"), Ok((1.0, 2.0, false)));
}

#[test]
fn last_parameter_counts() {
    assert_eq!(params("lng=1&lat=2&lng=3"), Ok((3.0, 2.0, false)));
    assert_eq!(params("format=geojson&lng=1&lat=2&format=x"), Ok((1.0, 2.0, false)));
    let lng = "missing or invalid `lng` parameter".to_string();
    assert_eq!(params("lng=1&lat=2&lng=x"), Err(lng.clone()));
    assert_eq!(params("lng=1&lat=2&lng"), Err(lng));
}

#[test]
fn other_parameters_do_not_matter() {
    assert_eq!(params("lng=1&lat=2&LNG=3&lng%20=4&=5"), Ok((1.0, 2.0, false)));
}

#[test]
fn value_starts_behind_the_first_equals_sign() {
    assert_eq!(
        params("lng==1&lat=2"),
        Err("missing or invalid `lng` parameter".to_string())
    );
    assert_eq!(params("lng=1&lat=2&format=geojson="), Ok((1.0, 2.0, false)));
}

#[test]
fn missing_coordinates_are_refused() {
    let lng = Err("missing or invalid `lng` parameter".to_string());
    let lat = Err("missing or invalid `lat` parameter".to_string());
    assert_eq!(params(""), lng);
    assert_eq!(params("lat=2"), lng);
    assert_eq!(params("lng=&lat=2"), lng);
    assert_eq!(params("lng=1"), lat);
    assert_eq!(params("lng=1&lat=north"), lat);
}

#[test]
fn origins_are_allowed_by_name() {
    assert_eq!(
        allowed_origin(Some("https://ringsaturn.github.io")),
        Some("https://ringsaturn.github.io")
    );
    assert_eq!(allowed_origin(Some("http://localhost:9999")), Some("http://localhost:9999"));
    assert_eq!(allowed_origin(Some("http://localhost:9998")), None);
    assert_eq!(allowed_origin(Some("https://ringsaturn.github.io/")), None);
    assert_eq!(allowed_origin(Some("")), None);
    assert_eq!(allowed_origin(None), None);
}

fn headers(head: &Head) -> Vec<(&str, &str)> {
    head.headers.iter().map(|(name, value)| (*name, value.as_str())).collect()
}

#[test]
fn preflight_head() {
    let head = cors_preflight(Some("http://localhost:9999"));
    assert_eq!(head.status, 204);
    assert_eq!(
        headers(&head),
        vec![
            ("access-control-allow-origin", "http://localhost:9999"),
            ("access-control-allow-methods", "GET, OPTIONS"),
            ("access-control-allow-headers", "*"),
            ("access-control-max-age", "86400"),
            ("vary", "origin"),
        ]
    );
}

#[test]
fn page_head() {
    let head = make_html(None);
    assert_eq!(head.status, 200);
    assert_eq!(headers(&head), vec![("access-control-allow-origin", ""), ("vary", "origin")]);
}

#[test]
fn json_head() {
    let head = make_json(404, allowed_origin(Some("https://elsewhere.example")));
    assert_eq!(head.status, 404);
    assert_eq!(
        headers(&head),
        vec![
            ("access-control-allow-origin", ""),
            ("access-control-allow-methods", "GET, OPTIONS"),
            ("vary", "origin"),
        ]
    );
}

fn error(r: Route) -> (u16, String) {
    match r {
        Route::Error(e) => (e.status, e.message),
        _ => panic!("not an error"),
    }
}

#[test]
fn requests_are_routed() {
    assert!(matches!(route("OPTIONS", "/anything", None, &number), Route::Preflight));
    assert!(matches!(route("GET", "/", None, &number), Route::Page));
    assert!(matches!(route("GET", "", Some("lng=1"), &number), Route::Page));
    match route("GET", "/api", Some("lng=1&lat=2&format=geojson"), &number) {
        Route::Query { lng, lat, geojson } => {
            assert_eq!(f64::from_bits(lng.bits), 1.0);
            assert_eq!(f64::from_bits(lat.bits), 2.0);
            assert!(geojson);
        }
        _ => panic!("not a query"),
    }
}

#[test]
fn root_looks_up_a_point_or_shows_the_page() {
    for path in ["/", ""] {
        match route("GET", path, Some("lng=116.4&lat=39.9"), &number) {
            Route::Query { lng, lat, geojson } => {
                assert_eq!(f64::from_bits(lng.bits), 116.4);
                assert_eq!(f64::from_bits(lat.bits), 39.9);
                assert!(!geojson);
            }
            _ => panic!("not a query"),
        }
        let geojson = route("GET", path, Some("lng=1&lat=2&format=geojson"), &number);
        assert!(matches!(geojson, Route::Query { geojson: true, .. }));
        assert!(matches!(route("GET", path, None, &number), Route::Page));
        assert!(matches!(route("GET", path, Some("lat=2"), &number), Route::Page));
        assert!(matches!(route("GET", path, Some("lng=1&lat=x"), &number), Route::Page));
        assert!(matches!(route("OPTIONS", path, Some("lng=1&lat=2"), &number), Route::Preflight));
        let posted = error(route("POST", path, Some("lng=1&lat=2"), &number));
        assert_eq!(posted, (405, "method not allowed".to_string()));
    }
}

#[test]
fn requests_are_refused() {
    let method = (405, "method not allowed".to_string());
    assert_eq!(error(route("POST", "/api", Some("lng=1&lat=2"), &number)), method);
    assert_eq!(error(route("get", "/", None, &number)), method);
    assert_eq!(error(route("HEAD", "/", None, &number)), method);
    let path = (404, "not found".to_string());
    assert_eq!(error(route("GET", "/api/", Some("lng=1&lat=2"), &number)), path);
    assert_eq!(error(route("GET", "/other", None, &number)), path);
    assert_eq!(
        error(route("GET", "/api", None, &number)),
        (400, "missing or invalid `lng` parameter".to_string())
    );
    assert_eq!(
        error(route("GET", "/api", Some("lng=1"), &number)),
        (400, "missing or invalid `lat` parameter".to_string())
    );
}

#[test]
fn failures_are_reported() {
    let index = index_failure("no such file");
    assert_eq!(index.status, 500);
    assert_eq!(index.message, "index init error: no such file");
    let query = query_failure("read slab: gone");
    assert_eq!(query.status, 500);
    assert_eq!(query.message, "query error: read slab: gone");
}

#[test]
fn files_have_default_names() {
    assert_eq!(index_key(None), "divisions.xs-index.gz");
    assert_eq!(index_key(Some("a.gz".to_string())), "a.gz");
    assert_eq!(slab_key(None), "divisions.xs-poly");
    assert_eq!(slab_key(Some(String::new())), "");
}
