use xsgeo::collect::{Collector, Fetch, MatchedDiv};
use xsgeo::finder::{
    XsFinder, SUBTYPE_COUNTRY, SUBTYPE_COUNTY, SUBTYPE_DEPENDENCY, SUBTYPE_LOCALITY,
    SUBTYPE_LOCAL_ADMIN, SUBTYPE_MACRO_COUNTY, SUBTYPE_MACRO_REGION, SUBTYPE_REGION,
};
use xsgeo::flatbuf::{
    contains_point, decode_polygon_at_table, decode_ring_at_table, field_data_pos, get_geometry,
    get_id, get_names_json, get_primary_name, lookup_i18n, polygon_table_contains_point,
    read_bytes_vec, read_str, read_table_field, read_table_vec, read_u32_field, resolve_name,
    root_table_pos, table_vec_elem, PolygonRings,
};
use xsgeo::ieee::{Double, Single};
use xsgeo::json::is_flat_object;
use xsgeo::levels::{coarse_level_for, fine_level_for, Level, LevelSet};
use xsgeo::cells::CellMap;
use xsgeo::report::{
    build_feature_collection, build_geo_result, get_names_map, DivisionInfo, GeoResult,
};
use xsgeo::ring::Point;
use xsgeo::xsci::{BBox, XsIndex};

// ----- chunks -----

type Corners = Vec<(i32, i32)>;

struct Outline {
    exterior: Corners,
    holes: Vec<Corners>,
}

struct Chunk {
    id: Option<&'static str>,
    name: Option<&'static str>,
    names: Option<&'static str>,
    polygons: Option<Vec<Outline>>,
}

/// Writes a vtable and a table with four bytes for each of the fields; gives
/// the table's position and those of the fields.
fn put_table(out: &mut Vec<u8>, width: usize, fields: &[usize]) -> (usize, Vec<usize>) {
    let vtable = 4 + 2 * width;
    out.extend_from_slice(&(vtable as u16).to_le_bytes());
    out.extend_from_slice(&(4 + 4 * fields.len() as u16).to_le_bytes());
    for f in 0..width {
        let offset = match fields.iter().position(|x| *x == f) {
            Some(k) => 4 + 4 * k as u16,
            None => 0,
        };
        out.extend_from_slice(&offset.to_le_bytes());
    }
    let table = out.len();
    out.extend_from_slice(&(vtable as i32).to_le_bytes());
    let slots: Vec<usize> = (0..fields.len()).map(|k| table + 4 + 4 * k).collect();
    out.resize(table + 4 + 4 * fields.len(), 0);
    (table, slots)
}

fn point_to(out: &mut [u8], slot: usize, target: usize) {
    out[slot..slot + 4].copy_from_slice(&((target - slot) as u32).to_le_bytes());
}

fn put_bytes(out: &mut Vec<u8>, slot: usize, bytes: &[u8]) {
    let target = out.len();
    point_to(out, slot, target);
    out.extend_from_slice(&(bytes.len() as u32).to_le_bytes());
    out.extend_from_slice(bytes);
}

/// Writes a vector of tables; gives the positions of its elements.
fn put_vector(out: &mut Vec<u8>, slot: usize, count: usize) -> Vec<usize> {
    let target = out.len();
    point_to(out, slot, target);
    out.extend_from_slice(&(count as u32).to_le_bytes());
    out.resize(target + 4 + 4 * count, 0);
    (0..count).map(|i| target + 4 + 4 * i).collect()
}

fn push_varint(out: &mut Vec<u8>, mut v: u32) {
    while v >= 0x80 {
        out.push((v % 0x80) as u8 | 0x80);
        v /= 0x80;
    }
    out.push(v as u8);
}

fn put_ring(out: &mut Vec<u8>, slot: usize, corners: &Corners) {
    let mut data = Vec::new();
    let mut last = (0i32, 0i32);
    for p in corners {
        let dx = p.0 - last.0;
        let dy = p.1 - last.1;
        push_varint(&mut data, ((dx << 1) ^ (dx >> 31)) as u32);
        push_varint(&mut data, ((dy << 1) ^ (dy >> 31)) as u32);
        last = *p;
    }
    let (table, slots) = put_table(out, 2, &[0, 1]);
    point_to(out, slot, table);
    out[slots[1]..slots[1] + 4].copy_from_slice(&(corners.len() as u32).to_le_bytes());
    put_bytes(out, slots[0], &data);
}

fn build(chunk: &Chunk) -> Vec<u8> {
    let mut out = vec![0; 8];
    let mut fields = Vec::new();
    for (f, present) in [
        (0, chunk.id.is_some()),
        (2, chunk.name.is_some()),
        (9, chunk.polygons.is_some()),
        (10, chunk.names.is_some()),
    ] {
        if present {
            fields.push(f);
        }
    }
    let (root, slots) = put_table(&mut out, 11, &fields);
    point_to(&mut out, 4, root);
    for (f, slot) in fields.iter().zip(slots) {
        match f {
            0 => put_bytes(&mut out, slot, chunk.id.unwrap().as_bytes()),
            2 => put_bytes(&mut out, slot, chunk.name.unwrap().as_bytes()),
            10 => put_bytes(&mut out, slot, chunk.names.unwrap().as_bytes()),
            _ => {
                let polygons = chunk.polygons.as_ref().unwrap();
                let elements = put_vector(&mut out, slot, polygons.len());
                for (polygon, element) in polygons.iter().zip(elements) {
                    let (table, parts) = put_table(&mut out, 2, &[0, 1]);
                    point_to(&mut out, element, table);
                    put_ring(&mut out, parts[0], &polygon.exterior);
                    let holes = put_vector(&mut out, parts[1], polygon.holes.len());
                    for (hole, h) in polygon.holes.iter().zip(holes) {
                        put_ring(&mut out, h, hole);
                    }
                }
            }
        }
    }
    let size = out.len() as u32 - 4;
    out[0..4].copy_from_slice(&size.to_le_bytes());
    out
}

fn square(x: i32, y: i32, side: i32) -> Corners {
    vec![(x, y), (x + side, y), (x + side, y + side), (x, y + side)]
}

fn closed(corners: &Corners) -> Vec<Point> {
    let mut points: Vec<Point> = corners.iter().map(|p| Point { x: p.0, y: p.1 }).collect();
    points.push(points[0]);
    points
}

fn sample() -> Chunk {
    Chunk {
        id: Some("div-1"),
        name: Some("北京市"),
        names: Some("{\"zh\" :\t\"北京\", \"en\":\"Beijing\", \"fr\":\"\"}"),
        polygons: Some(vec![
            Outline {
                exterior: square(0, 0, 1_000_000),
                holes: vec![square(200_000, 200_000, 100_000), square(500_000, 500_000, 100_000)],
            },
            Outline { exterior: square(-3_000_000, 0, 100_000), holes: vec![] },
        ]),
    }
}

fn empty() -> Chunk {
    Chunk { id: None, name: None, names: None, polygons: None }
}

fn at_degrees(lng: f64, lat: f64) -> impl Fn(&PolygonRings) -> bool {
    move |polygon: &PolygonRings| {
        let degrees = |points: &Vec<Point>| -> Vec<geometry_rs::Point> {
            points
                .iter()
                .map(|p| geometry_rs::Point {
                    x: p.x as f64 / 100_000.0,
                    y: p.y as f64 / 100_000.0,
                })
                .collect()
        };
        geometry_rs::Polygon::new(
            degrees(&polygon.exterior),
            polygon.holes.iter().map(degrees).collect(),
            None,
        )
        .contains_point(geometry_rs::Point { x: lng, y: lat })
    }
}

#[test]
fn chunk_tells_of_its_division() {
    let chunk = build(&sample());
    assert_eq!(get_id(&chunk), Some("div-1"));
    assert_eq!(get_primary_name(&chunk), Some("北京市".to_string()));
    assert_eq!(get_names_json(&chunk), sample().names);
}

#[test]
fn absent_fields_are_not_told() {
    let chunk = build(&empty());
    assert_eq!(get_id(&chunk), None);
    assert_eq!(get_primary_name(&chunk), None);
    assert_eq!(get_names_json(&chunk), None);
    assert_eq!(get_names_map(&chunk), None);
    assert!(get_geometry(&chunk).is_none());
    assert!(!contains_point(&chunk, |_: &PolygonRings| true));
}

#[test]
fn broken_chunks_tell_nothing() {
    let chunk = build(&sample());
    for n in 0..8 {
        assert_eq!(root_table_pos(&chunk[..n]), None);
        assert_eq!(get_id(&chunk[..n]), None);
        assert!(get_geometry(&chunk[..n]).is_none());
        assert!(!contains_point(&chunk[..n], |_: &PolygonRings| true));
        assert_eq!(DivisionInfo::from_chunk(&chunk[..n]).name, None);
    }
    // However a chunk is cut, nothing worse happens than that something is
    // not found.
    for n in 8..chunk.len() {
        let _ = resolve_name(&chunk[..n], "zh");
        let _ = get_geometry(&chunk[..n]);
        let _ = DivisionInfo::from_chunk(&chunk[..n]);
    }
    let mut wild = chunk.clone();
    wild[4..8].copy_from_slice(&u32::MAX.to_le_bytes());
    assert_eq!(get_id(&wild), None);
}

#[test]
fn vtable_may_stand_anywhere() {
    // Root table at 8, its vtable behind it.
    let mut chunk = vec![0, 0, 0, 0, 4, 0, 0, 0];
    chunk.extend_from_slice(&(-8i32).to_le_bytes());
    chunk.extend_from_slice(&(12u32).to_le_bytes());
    // vtable at 16: one field, at offset 4.
    chunk.extend_from_slice(&[6, 0, 8, 0, 4, 0, 0, 0]);
    chunk.extend_from_slice(&[2, 0, 0, 0, b'h', b'i']);
    assert_eq!(root_table_pos(&chunk), Some(8));
    assert_eq!(field_data_pos(&chunk, 8, 0), Some(12));
    assert_eq!(read_table_field(&chunk, 8, 0), Some(24));
    assert_eq!(read_str(&chunk, 8, 0), Some("hi"));
    assert_eq!(read_bytes_vec(&chunk, 8, 0), Some(&b"hi"[..]));
    assert_eq!(read_u32_field(&chunk, 8, 0), 12);
    // The vtable has no second field.
    assert_eq!(field_data_pos(&chunk, 8, 1), None);
    assert_eq!(read_u32_field(&chunk, 8, 1), 0);
    assert_eq!(read_table_vec(&chunk, 8, 0), Some((28, 2)));
    assert_eq!(table_vec_elem(&chunk, 4, 0), Some(8));
    assert_eq!(table_vec_elem(&chunk, 4, usize::MAX), None);
    // A vtable in front of the buffer is not there.
    chunk[8..12].copy_from_slice(&9i32.to_le_bytes());
    assert_eq!(field_data_pos(&chunk, 8, 0), None);
    // An offset of zero means that the field is absent.
    chunk[8..12].copy_from_slice(&(-8i32).to_le_bytes());
    chunk[20] = 0;
    assert_eq!(field_data_pos(&chunk, 8, 0), None);
}

#[test]
fn text_has_to_be_utf8() {
    let mut chunk = build(&sample());
    assert_eq!(get_primary_name(&chunk), Some("北京市".to_string()));
    let at = chunk.windows(3).position(|w| w == "北".as_bytes()).unwrap();
    chunk[at] = 0xff;
    assert_eq!(get_primary_name(&chunk), None);
    assert_eq!(resolve_name(&chunk, ""), None);
    assert_eq!(get_id(&chunk), Some("div-1"));
}

#[test]
fn names_are_looked_up_by_language() {
    let chunk = build(&sample());
    assert_eq!(resolve_name(&chunk, "zh"), Some("北京".to_string()));
    assert_eq!(resolve_name(&chunk, "en"), Some("Beijing".to_string()));
    assert_eq!(resolve_name(&chunk, "fr"), Some(String::new()));
    assert_eq!(resolve_name(&chunk, "de"), Some("北京市".to_string()));
    assert_eq!(resolve_name(&chunk, ""), Some("北京市".to_string()));
    let bare = build(&Chunk { name: Some("X"), ..empty() });
    assert_eq!(resolve_name(&bare, "en"), Some("X".to_string()));
    assert_eq!(resolve_name(&build(&empty()), "en"), None);
}

#[test]
fn lookup_takes_what_stands_between_quotes() {
    assert_eq!(lookup_i18n("{\"en\":\"A\",\"en\":\"B\"}", "en"), Some("A".to_string()));
    assert_eq!(lookup_i18n("{\"en\" \u{3000}:\n \"A\"}", "en"), Some("A".to_string()));
    assert_eq!(lookup_i18n("{\"en\":\"a\\\"b\"}", "en"), Some("a\\".to_string()));
    assert_eq!(lookup_i18n("{\"en\" \"A\"}", "en"), None);
    assert_eq!(lookup_i18n("{\"en\": 7}", "en"), None);
    assert_eq!(lookup_i18n("{\"en\":\"A", "en"), None);
    assert_eq!(lookup_i18n("{\"en\":", "en"), None);
    assert_eq!(lookup_i18n("\"en\"", "en"), None);
    assert_eq!(lookup_i18n("", "en"), None);
}

#[test]
fn values_are_not_keys() {
    let json = "{\"zh\":\"en\",\"en\":\"English\"}";
    assert_eq!(lookup_i18n(json, "en"), Some("English".to_string()));
    assert_eq!(lookup_i18n(json, "zh"), Some("en".to_string()));
    assert_eq!(lookup_i18n(json, "English"), None);
    assert_eq!(lookup_i18n("{\"x\":\"en\" }", "en"), None);
    assert_eq!(
        lookup_i18n("{\"a\":\"en\" , \"b\":\"en\",\n\"en\" : \"A\"}", "en"),
        Some("A".to_string())
    );
    assert_eq!(
        lookup_i18n("{\"a\":\"x\\\"en\",\"en\":\"A\"}", "en"),
        Some("A".to_string())
    );
    let chunk = build(&Chunk {
        name: Some("Primary"),
        names: Some("{\"zh\":\"en\",\"en\":\"English\"}"),
        ..empty()
    });
    assert_eq!(resolve_name(&chunk, "en"), Some("English".to_string()));
    assert_eq!(resolve_name(&chunk, "English"), Some("Primary".to_string()));
}

#[test]
fn first_occurrence_decides_in_other_texts() {
    for json in [
        "{\"en\" \"en\":\"A\"}",
        "{\"en\",\"en\":\"A\"}",
        "{\"x\":\"en\",\"en\":7,\"en\":\"A\"}",
        "{\"x\":[\"en\"],\"en\":\"A\"}",
        "{\"x\":{\"y\":\"en\"},\"en\":\"A\"}",
        "{\"x\":\"en\",\"en\":\"A\"",
        "{\"x\":\"en\",\"en\":\"A\"} more",
    ] {
        assert_eq!(lookup_i18n(json, "en"), None, "{json}");
    }
    assert_eq!(lookup_i18n("[\"en\":\"A\"", "en"), Some("A".to_string()));
}

#[test]
fn flat_objects_are_told_from_other_texts() {
    for json in [
        "{}",
        " {\t}\n",
        "{\"a\":\"b\"}",
        "\r{ \"a\" : \"b\" , \"\":\"\" } ",
        "{\"a\":\"\\\"\\\\\\/\\b\\f\\n\\r\\t\\u00eF\"}",
        "{\"\u{7f}中\":\"\u{3000}\"}",
        "{\"a\":\"b\",\"a\":\"c\"}",
        "",
        " ",
        "{",
        "}",
        "[]",
        "\"a\"",
        "{,}",
        "{\"a\"}",
        "{\"a\":}",
        "{\"a\":1}",
        "{\"a\":null}",
        "{\"a\":{}}",
        "{\"a\":\"b\",}",
        "{\"a\":\"b\" \"c\":\"d\"}",
        "{\"a\" \"b\"}",
        "{a:\"b\"}",
        "{\"a\":\"b\"",
        "{\"a\":\"b",
        "{\"a\":\"b\"}}",
        "{\"a\":\"b\"},",
        "{\"a\":\"\t\"}",
        "{\"a\":\"\\x\"}",
        "{\"a\":\"\\u00g0\"}",
        "{\"a\":\"\\u00",
        "{\"a\":\"\\",
        "{\u{3000}\"a\":\"b\"}",
    ] {
        let chars: Vec<char> = json.chars().collect();
        let parsed: Result<std::collections::BTreeMap<String, String>, serde_json::Error> =
            serde_json::from_str(json);
        assert_eq!(is_flat_object(&chars), parsed.is_ok(), "{json}");
    }
}

#[test]
fn outlines_are_read_back() {
    let chunk = build(&sample());
    let polygons = get_geometry(&chunk).unwrap();
    assert_eq!(polygons.len(), 2);
    assert_eq!(polygons[0].exterior, closed(&square(0, 0, 1_000_000)));
    assert_eq!(
        polygons[0].holes,
        vec![
            closed(&square(200_000, 200_000, 100_000)),
            closed(&square(500_000, 500_000, 100_000)),
        ]
    );
    assert_eq!(polygons[1].exterior, closed(&square(-3_000_000, 0, 100_000)));
    assert!(polygons[1].holes.is_empty());
}

#[test]
fn what_is_no_ring_is_left_out() {
    let chunk = build(&Chunk {
        polygons: Some(vec![
            Outline { exterior: vec![(0, 0), (1, 1)], holes: vec![] },
            Outline {
                exterior: square(0, 0, 10),
                holes: vec![vec![(1, 1)], square(1, 1, 2)],
            },
        ]),
        ..empty()
    });
    let polygons = get_geometry(&chunk).unwrap();
    assert_eq!(polygons.len(), 1);
    assert_eq!(polygons[0].exterior, closed(&square(0, 0, 10)));
    assert_eq!(polygons[0].holes, vec![closed(&square(1, 1, 2))]);
    let none = build(&Chunk { polygons: Some(vec![]), ..empty() });
    assert!(get_geometry(&none).is_none());
    let unusable = build(&Chunk {
        polygons: Some(vec![Outline { exterior: vec![(0, 0)], holes: vec![] }]),
        ..empty()
    });
    assert!(get_geometry(&unusable).is_none());
    assert!(!contains_point(&unusable, |_: &PolygonRings| true));
}

#[test]
fn tables_are_decoded_one_by_one() {
    let chunk = build(&sample());
    let root = root_table_pos(&chunk).unwrap();
    let (first, count) = read_table_vec(&chunk, root, 9).unwrap();
    assert_eq!(count, 2);
    let table = table_vec_elem(&chunk, first, 1).unwrap();
    let polygon = decode_polygon_at_table(&chunk, table).unwrap();
    assert_eq!(polygon.exterior, closed(&square(-3_000_000, 0, 100_000)));
    let ring = read_table_field(&chunk, table, 0).unwrap();
    assert_eq!(decode_ring_at_table(&chunk, ring), Some(polygon.exterior));
    assert!(polygon_table_contains_point(&chunk, table, &at_degrees(-29.5, 0.5)));
    assert!(!polygon_table_contains_point(&chunk, table, &at_degrees(1.0, 1.0)));
    // The root table has no ring in its first field.
    assert!(!polygon_table_contains_point(&chunk, root, &|_: &PolygonRings| true));
}

#[test]
fn chunk_holds_points_of_its_polygons() {
    let chunk = build(&sample());
    let holds = |lng: f64, lat: f64| contains_point(&chunk, at_degrees(lng, lat));
    assert!(holds(1.0, 1.0));
    assert!(holds(9.9, 9.9));
    assert!(holds(-29.5, 0.5));
    // In a hole, and outside.
    assert!(!holds(2.5, 2.5));
    assert!(!holds(5.5, 5.5));
    assert!(!holds(-1.0, 1.0));
    assert!(!holds(f64::NAN, 1.0));
}

#[test]
fn polygons_are_asked_about_in_order() {
    let chunk = build(&sample());
    let asked = std::cell::RefCell::new(Vec::new());
    let ask = |accept: i32| {
        contains_point(&chunk, |p: &PolygonRings| {
            asked.borrow_mut().push(p.exterior[0].x);
            p.exterior[0].x == accept
        })
    };
    assert!(ask(0));
    assert!(ask(-3_000_000));
    assert!(!ask(5));
    assert_eq!(
        asked.into_inner(),
        vec![0, 0, -3_000_000, 0, -3_000_000]
    );
}

// ----- answers -----

fn named(id: &'static str) -> Vec<u8> {
    build(&Chunk { id: Some(id), ..sample() })
}

fn id_of(info: &Option<DivisionInfo>) -> Option<&str> {
    info.as_ref().and_then(|i| i.id.as_deref())
}

fn pair(k: &str, v: &str) -> (String, String) {
    (k.to_string(), v.to_string())
}

#[test]
fn names_come_in_order_of_the_languages() {
    let chunk = build(&sample());
    assert_eq!(
        get_names_map(&chunk),
        Some(vec![pair("en", "Beijing"), pair("fr", ""), pair("zh", "北京")])
    );
    let escaped = build(&Chunk { names: Some("{\"en\":\"a\\\"\\u0062\"}"), ..empty() });
    assert_eq!(get_names_map(&escaped), Some(vec![pair("en", "a\"b")]));
    let twice = build(&Chunk { names: Some("{\"en\":\"A\",\"en\":\"B\"}"), ..empty() });
    assert_eq!(get_names_map(&twice), Some(vec![pair("en", "B")]));
    for json in ["{\"en\":1}", "[]", "", "{\"en\":\"A\"", "{} x"] {
        let other = build(&Chunk { names: Some(json), ..empty() });
        assert_eq!(get_names_map(&other), None, "{json}");
    }
    let none = build(&Chunk { names: Some(" {} "), ..empty() });
    assert_eq!(get_names_map(&none), Some(vec![]));
}

#[test]
fn division_is_told_of() {
    let info = DivisionInfo::from_chunk(&build(&sample()));
    assert_eq!(info.id.as_deref(), Some("div-1"));
    assert_eq!(info.name.as_deref(), Some("北京市"));
    assert_eq!(info.names.as_ref().map(|n| n.len()), Some(3));
    let copy = info.clone();
    assert_eq!(copy.id, info.id);
    assert_eq!(copy.name, info.name);
    assert_eq!(copy.names, info.names);
    let with = DivisionInfo::with_names(&build(&sample()), Some(vec![pair("a", "b")]));
    assert_eq!(with.names, Some(vec![pair("a", "b")]));
    assert_eq!(with.id.as_deref(), Some("div-1"));
}

fn matched(list: &[(Level, &'static str)]) -> Vec<MatchedDiv> {
    list.iter().map(|(level, id)| MatchedDiv { level: *level, chunk: named(id) }).collect()
}

#[test]
fn first_match_of_a_level_counts() {
    let result = build_geo_result(&matched(&[
        (Level::County, "c1"),
        (Level::Country, "n1"),
        (Level::County, "c2"),
        (Level::Locality, "l1"),
    ]));
    assert_eq!(id_of(&result.country), Some("n1"));
    assert_eq!(id_of(&result.region), None);
    assert!(result.region.is_none());
    assert_eq!(id_of(&result.county), Some("c1"));
    assert!(result.local_admin.is_none());
    assert_eq!(id_of(&result.locality), Some("l1"));
    let nothing = build_geo_result(&[]);
    assert!(nothing.country.is_none() && nothing.locality.is_none());
}

#[test]
fn every_level_can_be_told() {
    let mut result = GeoResult::default();
    for (level, id) in [
        (Level::Country, "1"),
        (Level::Region, "2"),
        (Level::County, "3"),
        (Level::LocalAdmin, "4"),
        (Level::Locality, "5"),
        (Level::Country, "6"),
        (Level::Region, "7"),
        (Level::County, "8"),
        (Level::LocalAdmin, "9"),
        (Level::Locality, "0"),
    ] {
        result.put(level, DivisionInfo::from_chunk(&named(id)));
    }
    assert_eq!(id_of(&result.country), Some("1"));
    assert_eq!(id_of(&result.region), Some("2"));
    assert_eq!(id_of(&result.county), Some("3"));
    assert_eq!(id_of(&result.local_admin), Some("4"));
    assert_eq!(id_of(&result.locality), Some("5"));
}

#[test]
fn features_are_the_matches_with_outlines() {
    let mut found = matched(&[(Level::Country, "n1"), (Level::County, "c1")]);
    found.insert(
        1,
        MatchedDiv { level: Level::Region, chunk: build(&Chunk { id: Some("r1"), ..empty() }) },
    );
    let collection = build_feature_collection(&found);
    let ids: Vec<_> =
        collection.features.iter().map(|f| (f.level, f.info.id.clone().unwrap())).collect();
    assert_eq!(
        ids,
        vec![(Level::Country, "n1".to_string()), (Level::County, "c1".to_string())]
    );
    assert_eq!(collection.features[0].geometry.len(), 2);
    assert_eq!(id_of(&collection.levels.region), Some("r1"));
    assert_eq!(id_of(&collection.levels.country), Some("n1"));
    assert_eq!(id_of(&collection.levels.county), Some("c1"));
    assert!(collection.levels.locality.is_none());
}

// ----- levels -----

#[test]
fn levels_have_names() {
    let names: Vec<&str> = [
        Level::Country,
        Level::Region,
        Level::County,
        Level::LocalAdmin,
        Level::Locality,
    ]
    .iter()
    .map(|l| l.name())
    .collect();
    assert_eq!(names, vec!["country", "region", "county", "local_admin", "locality"]);
}

#[test]
fn coarse_levels_are_filled_once() {
    let mut done = LevelSet::default();
    assert_eq!(coarse_level_for(SUBTYPE_DEPENDENCY, &mut done), Some(Level::Country));
    assert_eq!(coarse_level_for(SUBTYPE_COUNTRY, &mut done), None);
    assert_eq!(coarse_level_for(SUBTYPE_MACRO_REGION, &mut done), Some(Level::Region));
    assert_eq!(coarse_level_for(SUBTYPE_REGION, &mut done), None);
    assert_eq!(coarse_level_for(SUBTYPE_COUNTY, &mut done), None);
    assert_eq!(coarse_level_for(SUBTYPE_MACRO_COUNTY, &mut done), Some(Level::County));
    assert_eq!(coarse_level_for(SUBTYPE_MACRO_COUNTY, &mut done), None);
    assert!(done.country && done.region && done.county && !done.local_admin && !done.locality);
}

#[test]
fn fine_levels_are_filled_once() {
    let mut done = LevelSet::default();
    assert_eq!(fine_level_for(SUBTYPE_MACRO_COUNTY, &mut done), None);
    assert_eq!(fine_level_for(SUBTYPE_COUNTY, &mut done), Some(Level::County));
    assert_eq!(fine_level_for(SUBTYPE_COUNTY, &mut done), None);
    assert_eq!(fine_level_for(SUBTYPE_LOCAL_ADMIN, &mut done), Some(Level::LocalAdmin));
    assert_eq!(fine_level_for(SUBTYPE_LOCAL_ADMIN, &mut done), None);
    assert_eq!(fine_level_for(SUBTYPE_LOCALITY, &mut done), Some(Level::Locality));
    assert_eq!(fine_level_for(SUBTYPE_LOCALITY, &mut done), None);
    assert_eq!(fine_level_for(8, &mut done), None);
    assert!(!done.country && !done.region && done.county && done.local_admin && done.locality);
}

// ----- queries -----

fn single(x: f32) -> Single {
    Single { bits: x.to_bits() }
}

fn double(x: f64) -> Double {
    Double { bits: x.to_bits() }
}

/// A finder whose divisions have the given subtypes; the bounding box of each
/// reaches from 0 to 10 degrees, its offset is ten times its index and its
/// length is its index.
fn finder(
    subtypes: &[u8],
    cell: [i16; 2],
    coarse: &[u32],
    fine: &[u32],
    country: Option<u32>,
) -> XsFinder {
    let bbox =
        BBox { xmin: single(0.0), xmax: single(10.0), ymin: single(0.0), ymax: single(10.0) };
    let mut index = XsIndex {
        subtypes: subtypes.to_vec(),
        bboxes: vec![bbox; subtypes.len()],
        poly_offsets: (0..subtypes.len() as u64).map(|i| 10 * i).collect(),
        poly_lengths: (0..subtypes.len() as u32).collect(),
        grid_coarse: CellMap::new(),
        grid_fine: CellMap::new(),
        country_preindex: CellMap::new(),
    };
    index.grid_coarse.insert(cell, coarse.to_vec());
    index.grid_fine.insert([4 * cell[0], 4 * cell[1]], fine.to_vec());
    if let Some(idx) = country {
        index.country_preindex.insert(cell, idx);
    }
    XsFinder::new(index)
}

/// Runs a query in which the divisions in `inside` hold the point. Gives the
/// divisions fetched, with whether they had to be checked, and those matched.
fn run(
    finder: &XsFinder,
    lng: f64,
    lat: f64,
    inside: &[u64],
) -> (Vec<(u64, bool)>, Vec<(Level, u8)>) {
    assert!(finder.can_answer(double(lng), double(lat)));
    let mut collector = Collector::new(finder, double(lng), double(lat));
    let mut fetched = Vec::new();
    while let Some(Fetch { offset, length, check }) = collector.next_fetch() {
        assert_eq!(offset, 10 * length);
        fetched.push((length, check));
        collector.deliver(vec![length as u8], inside.contains(&length));
    }
    let found = collector.finish().iter().map(|m| (m.level, m.chunk[0])).collect();
    (fetched, found)
}

const ALL: [u8; 8] = [
    SUBTYPE_COUNTRY,
    SUBTYPE_DEPENDENCY,
    SUBTYPE_MACRO_REGION,
    SUBTYPE_REGION,
    SUBTYPE_MACRO_COUNTY,
    SUBTYPE_COUNTY,
    SUBTYPE_LOCAL_ADMIN,
    SUBTYPE_LOCALITY,
];

#[test]
fn query_finds_one_division_for_each_level() {
    let f = finder(&ALL, [1, 1], &[0, 3], &[5, 6, 7], None);
    let (fetched, found) = run(&f, 1.1, 1.1, &[0, 3, 5, 6, 7]);
    assert_eq!(fetched, vec![(0, true), (3, true), (5, true), (6, true), (7, true)]);
    assert_eq!(
        found,
        vec![
            (Level::Country, 0),
            (Level::Region, 3),
            (Level::County, 5),
            (Level::LocalAdmin, 6),
            (Level::Locality, 7),
        ]
    );
}

#[test]
fn query_takes_the_first_division_that_holds_the_point() {
    let f = finder(&ALL, [1, 1], &[1, 0, 2, 3], &[5, 6], None);
    let (fetched, found) = run(&f, 1.1, 1.1, &[0, 2, 3]);
    assert_eq!(fetched.len(), 6);
    assert_eq!(found, vec![(Level::Country, 0), (Level::Region, 2)]);
}

#[test]
fn country_of_the_preindex_comes_first() {
    let f = finder(&ALL, [1, 1], &[0, 1, 3], &[], Some(1));
    let (fetched, found) = run(&f, 1.1, 1.1, &[0, 3]);
    // Neither country nor dependency is checked once the country is known.
    assert_eq!(fetched, vec![(1, false), (3, true)]);
    assert_eq!(found, vec![(Level::Country, 1), (Level::Region, 3)]);
}

#[test]
fn single_candidate_needs_no_check() {
    let f = finder(&ALL, [1, 1], &[3], &[7], None);
    let (fetched, found) = run(&f, 1.1, 1.1, &[]);
    assert_eq!(fetched, vec![(3, false), (7, false)]);
    assert_eq!(found, vec![(Level::Region, 3), (Level::Locality, 7)]);
    // Its bounding box does not matter either.
    let f = finder(&ALL, [50, 50], &[3], &[7], None);
    assert_eq!(run(&f, 50.1, 50.1, &[]).1.len(), 2);
}

#[test]
fn single_candidate_near_the_antimeridian_is_checked() {
    let f = finder(&ALL, [179, 1], &[3], &[], None);
    assert_eq!(run(&f, 179.5, 1.1, &[3]), (vec![], vec![]));
    let f = finder(&ALL, [1, 89], &[3], &[], None);
    assert_eq!(run(&f, 1.5, 89.5, &[3]), (vec![], vec![]));
}

#[test]
fn single_country_is_fetched_even_if_known() {
    let f = finder(&ALL, [1, 1], &[0], &[], Some(1));
    let (fetched, found) = run(&f, 1.1, 1.1, &[]);
    assert_eq!(fetched, vec![(1, false), (0, false)]);
    assert_eq!(found, vec![(Level::Country, 1)]);
}

#[test]
fn full_tier_is_left() {
    let f = finder(&ALL, [1, 1], &[0, 2, 4, 3, 1], &[5, 6, 7, 5], None);
    let (fetched, found) = run(&f, 1.1, 1.1, &[0, 1, 2, 3, 4, 5, 6, 7]);
    // The coarse tier is full after three divisions. The county comes from it,
    // so that the fine tier is full after its third.
    assert_eq!(
        fetched,
        vec![(0, true), (2, true), (4, true), (5, true), (6, true), (7, true)]
    );
    assert_eq!(
        found,
        vec![
            (Level::Country, 0),
            (Level::Region, 2),
            (Level::County, 4),
            (Level::LocalAdmin, 6),
            (Level::Locality, 7),
        ]
    );
}

#[test]
fn candidates_outside_their_boxes_are_not_fetched() {
    let f = finder(&ALL, [11, 1], &[0, 3], &[5, 6], None);
    assert_eq!(run(&f, 11.1, 1.1, &[0, 3, 5, 6]), (vec![], vec![]));
}

#[test]
fn point_without_candidates_has_no_answer() {
    let f = finder(&ALL, [1, 1], &[0, 3], &[5, 6], Some(0));
    assert_eq!(run(&f, 5.0, 5.0, &[0, 3, 5, 6]), (vec![], vec![]));
    assert_eq!(run(&f, f64::NAN, 1.0, &[0]), (vec![], vec![]));
}

#[test]
fn index_that_names_unknown_divisions_cannot_answer() {
    let unknown_coarse = finder(&ALL, [1, 1], &[0, 8], &[], None);
    assert!(!unknown_coarse.can_answer(double(1.1), double(1.1)));
    assert!(unknown_coarse.can_answer(double(2.1), double(1.1)));
    let unknown_fine = finder(&ALL, [1, 1], &[], &[8], None);
    assert!(!unknown_fine.can_answer(double(1.1), double(1.1)));
    let unknown_country = finder(&ALL, [1, 1], &[], &[], Some(8));
    assert!(!unknown_country.can_answer(double(1.1), double(1.1)));
    let known = finder(&ALL, [1, 1], &[7], &[7], Some(7));
    assert!(known.can_answer(double(1.1), double(1.1)));
}

#[test]
fn query_and_answer_work_together() {
    let f = finder(&ALL, [1, 1], &[0, 3], &[5, 7], None);
    let slab = [
        named("n0"),
        named("d1"),
        named("m2"),
        build(&Chunk { id: Some("r3"), polygons: None, ..sample() }),
        named("m4"),
        named("c5"),
        named("a6"),
        named("l7"),
    ];
    let mut collector = Collector::new(&f, double(1.1), double(1.1));
    while let Some(fetch) = collector.next_fetch() {
        let chunk = slab[fetch.length as usize].clone();
        let inside = !fetch.check || contains_point(&chunk, at_degrees(1.1, 1.1));
        collector.deliver(chunk, inside);
    }
    let result = build_geo_result(&collector.finish());
    assert_eq!(id_of(&result.country), Some("n0"));
    assert_eq!(id_of(&result.region), None);
    assert_eq!(id_of(&result.county), Some("c5"));
    assert_eq!(id_of(&result.locality), Some("l7"));
}
