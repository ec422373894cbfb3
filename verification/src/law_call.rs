//! What calls return, in terms of what they are given.

use vstd::arithmetic::power2::pow2;
use vstd::prelude::*;

use crate::bytes::{i16_le, i32_le, u16_le, u32_le, u64_le};
use crate::chunk::{closed_polygon, law_chunk_round_trip, ChunkContents};
use crate::collect::{Collector, Fetch, MatchedDiv};
use crate::finder::{law_selected_members, selected, XsFinder};
use crate::flatbuf::{
    contains_point, geometry_of, get_geometry, get_id, get_names_json, get_primary_name,
    name_for, resolve_name, PolygonRings, PolygonView,
};
use crate::ieee::{Double, Number, Single};
use crate::json::{flat_members, is_flat_object, Member};
use crate::law_chunk::law_written_chunk_holds_points;
use crate::law_point::{law_number_order, law_point_lies_in_its_cells};
use crate::law_report::{law_features, lists_set, outlined};
use crate::law_text::{is_object, law_flat_objects};
use crate::levels::Level;
use crate::load::{finder_from_index, gunzipped, load_finder};
use crate::report::{
    build_feature_collection, build_geo_result, info_of, law_first_match_is_told,
    law_unmatched_level_is_left_out, matches_view, DivisionInfo, FeatureCollection, GeoFeature,
    GeoResult,
};
use crate::ring::{decode_ring, decode_zigzag, ring_points, Point};
use crate::web::{
    allowed_origin, cors_preflight, headers_view, index_failure, index_key, make_html, make_json,
    param, parse_params, query_failure, reads, route, slab_key, ErrorReply, Head, Route,
};
use crate::xsci::{index_of, parse, BBox, XsIndex};

verus! {

/// Numbers are read with the lowest byte first, and signed ones in two's
/// complement.
pub proof fn law_numbers_are_read(b: &[u8], v16: u16, v32: u32, v64: u64, s16: i16, s32: i32)
    requires
        b@.len() >= 8,
        call_ensures(u16_le, (b,), v16),
        call_ensures(u32_le, (b,), v32),
        call_ensures(u64_le, (b,), v64),
        call_ensures(i16_le, (b,), s16),
        call_ensures(i32_le, (b,), s32),
    ensures
        v16 == b@[0] + 0x100 * b@[1],
        v32 == v16 + 0x1_0000 * b@[2] + 0x100_0000 * b@[3],
        v64 == v32 + 0x1_0000_0000 * b@[4] + 0x100_0000_0000 * b@[5] + 0x1_0000_0000_0000 * b@[6]
            + 0x100_0000_0000_0000 * b@[7],
        s16 == if v16 < 0x8000 {
            v16 as int
        } else {
            v16 - 0x1_0000
        },
        s32 == if v32 < 0x8000_0000 {
            v32 as int
        } else {
            v32 - 0x1_0000_0000
        },
{
}

/// Comparisons go by the numbers, and never hold for what is none.
pub proof fn law_comparisons(a: Double, b: Double, le: bool, lt: bool)
    requires
        call_ensures(Double::le, (a, b), le),
        call_ensures(Double::lt, (a, b), lt),
    ensures
        a.number() is Nan || b.number() is Nan ==> !le && !lt,
        forall|x: int, y: int|
            a.number() == Number::Finite(x) && b.number() == Number::Finite(y) ==> (le <==> x <= y)
                && (lt <==> x < y),
        !(a.number() is Nan) && !(b.number() is Nan) ==> (le <==> lt || a.number() == b.number()),
{
    law_number_order(a.number(), b.number(), 0, 0);
}

/// A binary32 number keeps its value as a binary64 number.
pub proof fn law_widened(a: Single, r: Double)
    requires
        call_ensures(Single::widen, (a,), r),
    ensures
        r.number() == a.number(),
{
}

/// The keys of a point: the degree and the quarter of a degree that it lies in,
/// the longitude first. The outermost ones reach on without end.
pub proof fn law_keys(lng: Double, lat: Double, x: int, y: int, coarse: [i16; 2], fine: [i16; 2])
    requires
        lng.number() == Number::Finite(x),
        lat.number() == Number::Finite(y),
        call_ensures(XsFinder::coarse_key, (lng, lat), coarse),
        call_ensures(XsFinder::fine_key, (lng, lat), fine),
    ensures
        ({
            let degree = pow2(1074) as int;
            &&& coarse[0] > -32768 ==> coarse[0] * degree <= x
            &&& coarse[0] < 32767 ==> x < (coarse[0] + 1) * degree
            &&& coarse[1] > -32768 ==> coarse[1] * degree <= y
            &&& coarse[1] < 32767 ==> y < (coarse[1] + 1) * degree
            &&& fine[0] > -32768 ==> fine[0] * degree <= 4 * x
            &&& fine[0] < 32767 ==> 4 * x < (fine[0] + 1) * degree
            &&& fine[1] > -32768 ==> fine[1] * degree <= 4 * y
            &&& fine[1] < 32767 ==> 4 * y < (fine[1] + 1) * degree
        }),
{
    law_point_lies_in_its_cells(x, y);
}

/// A finder holds what the index holds.
pub proof fn law_finder_over_an_index(idx: XsIndex, f: XsFinder)
    requires
        call_ensures(XsFinder::new, (idx,), f),
    ensures
        f@.subtypes == idx.subtypes@,
        f@.bboxes == idx.bboxes@,
        f@.poly_offsets == idx.poly_offsets@,
        f@.poly_lengths == idx.poly_lengths@,
        f@.grid_coarse == idx.grid_coarse@,
        f@.grid_fine == idx.grid_fine@,
        f@.country_preindex == idx.country_preindex@,
{
}

/// What is recorded of a division.
pub proof fn law_records(f: XsFinder, idx: u32, subtype: u8, range: (u64, u64), known: bool)
    requires
        idx < f@.subtypes.len(),
        idx < f@.poly_offsets.len(),
        idx < f@.poly_lengths.len(),
        call_ensures(XsFinder::subtype, (&f, idx), subtype),
        call_ensures(XsFinder::slab_range, (&f, idx), range),
        call_ensures(XsFinder::knows, (&f, idx), known),
    ensures
        subtype == f@.subtypes[idx as int],
        range.0 == f@.poly_offsets[idx as int],
        range.1 == f@.poly_lengths[idx as int],
        known <==> idx < f@.bboxes.len(),
{
}

/// The country and the candidates of a point are those of its cells.
pub proof fn law_candidates_are_those_of_the_keys(
    f: XsFinder,
    lng: Double,
    lat: Double,
    coarse: [i16; 2],
    fine: [i16; 2],
    country: Option<u32>,
    far: &[u32],
    near: &[u32],
)
    requires
        call_ensures(XsFinder::coarse_key, (lng, lat), coarse),
        call_ensures(XsFinder::fine_key, (lng, lat), fine),
        call_ensures(XsFinder::country_for_cell, (&f, lng, lat), country),
        call_ensures(XsFinder::coarse_candidates, (&f, lng, lat), far),
        call_ensures(XsFinder::fine_candidates, (&f, lng, lat), near),
    ensures
        ({
            let a = (coarse[0], coarse[1]);
            let b = (fine[0], fine[1]);
            &&& country is Some <==> f@.country_preindex.dom().contains(a)
            &&& country is Some ==> country->0 == f@.country_preindex[a]
            &&& f@.grid_coarse.dom().contains(a) ==> far@ == f@.grid_coarse[a]
            &&& !f@.grid_coarse.dom().contains(a) ==> far@.len() == 0
            &&& f@.grid_fine.dom().contains(b) ==> near@ == f@.grid_fine[b]
            &&& !f@.grid_fine.dom().contains(b) ==> near@.len() == 0
        }),
{
}

/// A query can be answered exactly if the index has a record for the country and
/// for every candidate.
pub proof fn law_can_answer(
    f: XsFinder,
    lng: Double,
    lat: Double,
    country: Option<u32>,
    far: &[u32],
    near: &[u32],
    r: bool,
)
    requires
        f@.bboxes.len() == f@.subtypes.len(),
        f@.poly_offsets.len() == f@.subtypes.len(),
        f@.poly_lengths.len() == f@.subtypes.len(),
        call_ensures(XsFinder::country_for_cell, (&f, lng, lat), country),
        call_ensures(XsFinder::coarse_candidates, (&f, lng, lat), far),
        call_ensures(XsFinder::fine_candidates, (&f, lng, lat), near),
        call_ensures(XsFinder::can_answer, (&f, lng, lat), r),
    ensures
        r <==> (country is Some ==> country->0 < f@.subtypes.len()) && (forall|i: int|
            0 <= i < far@.len() ==> #[trigger] far@[i] < f@.subtypes.len()) && (forall|i: int|
            0 <= i < near@.len() ==> #[trigger] near@[i] < f@.subtypes.len()),
{
}

/// Whether a point lies far enough from the poles and the date line.
pub proof fn law_short_circuit(lng: Double, lat: Double, x: int, y: int, r: bool)
    requires
        call_ensures(XsFinder::can_short_circuit, (lng, lat), r),
    ensures
        lng.number() == Number::Finite(x) && lat.number() == Number::Finite(y) ==> (r <==> -179
            * pow2(1074) < x < 179 * pow2(1074) && -89 * pow2(1074) < y < 89 * pow2(1074)),
        !(lng.number() is Finite) || !(lat.number() is Finite) ==> !r,
{
}

/// The box has finite edges and the point lies between them.
pub open spec fn lies_in(bb: BBox, x: int, y: int) -> bool {
    &&& bb.xmin.number() is Finite && bb.xmin.number()->0 <= x
    &&& bb.xmax.number() is Finite && x <= bb.xmax.number()->0
    &&& bb.ymin.number() is Finite && bb.ymin.number()->0 <= y
    &&& bb.ymax.number() is Finite && y <= bb.ymax.number()->0
}

/// Of the candidates whose boxes have finite edges, those are kept in whose box
/// the point lies and that were not skipped.
pub proof fn law_kept_candidates<F: Fn(u32) -> bool>(
    f: XsFinder,
    indices: &[u32],
    lng: Double,
    lat: Double,
    skip_if: F,
    kept: Vec<u32>,
    x: int,
    y: int,
    idx: u32,
)
    requires
        lng.number() == Number::Finite(x),
        lat.number() == Number::Finite(y),
        f@.bboxes[idx as int].xmin.number() is Finite,
        f@.bboxes[idx as int].xmax.number() is Finite,
        f@.bboxes[idx as int].ymin.number() is Finite,
        f@.bboxes[idx as int].ymax.number() is Finite,
        call_ensures(XsFinder::bbox_filtered::<F>, (&f, indices, lng, lat, skip_if), kept),
    ensures
        kept@.len() <= indices@.len(),
        kept@.contains(idx) ==> indices@.contains(idx) && lies_in(f@.bboxes[idx as int], x, y)
            && call_ensures(skip_if, (idx,), false),
        indices@.contains(idx) && lies_in(f@.bboxes[idx as int], x, y) && !call_ensures(
            skip_if,
            (idx,),
            true,
        ) ==> kept@.contains(idx),
{
    let skipped = choose|skipped: Seq<bool>|
        skipped.len() == indices@.len() && (forall|i: int|
            0 <= i < indices@.len() ==> call_ensures(
                skip_if,
                (indices@[i],),
                #[trigger] skipped[i],
            )) && kept@ == #[trigger] selected(
            f@.bboxes,
            indices@,
            skipped,
            lng.number(),
            lat.number(),
        );
    law_selected_members(f@.bboxes, indices@, skipped, lng.number(), lat.number(), idx);
    if indices@.contains(idx) {
        let i = indices@.index_of(idx);
        assert(indices@[i] == idx);
        assert(call_ensures(skip_if, (indices@[i],), skipped[i]));
    }
    if kept@.contains(idx) {
        let i = choose|i: int|
            0 <= i < indices@.len() && #[trigger] indices@[i] == idx && !skipped[i];
        assert(call_ensures(skip_if, (indices@[i],), skipped[i]));
    }
}

/// The chunk to fetch next is that of the next division, it stands where the
/// record says, and it has to be checked unless the division is certain.
pub proof fn law_fetch<'a>(c: Collector<'a>, r: Option<Fetch>)
    requires
        c@.consistent(),
        call_ensures(Collector::next_fetch, (&c,), r),
    ensures
        r is None <==> c@.next == c@.tasks.len(),
        r matches Some(fetch) ==> {
            let task = c@.tasks[c@.next];
            &&& fetch.offset == c@.index.poly_offsets[task.idx as int]
            &&& fetch.length == c@.index.poly_lengths[task.idx as int]
            &&& fetch.check == !task.certain
        },
{
}

/// The matches are handed out as they were found.
pub proof fn law_matches_are_handed_out<'a>(c: Collector<'a>, r: Vec<MatchedDiv>, i: int)
    requires
        call_ensures(Collector::finish, (c,), r),
    ensures
        r@.len() == c@.matched.len(),
        0 <= i < r@.len() ==> r@[i].level == c@.matched[i].0 && r@[i].chunk@ == c@.matched[i].1,
{
    let m = r@.map_values(|m: MatchedDiv| m@);
    assert(m == c@.matched);
    if 0 <= i < r@.len() {
        assert(m[i] == r@[i]@);
    }
}

/// The text is the one that is expected.
pub open spec fn is_text(r: Option<String>, expected: Option<Seq<char>>) -> bool {
    match r {
        Some(s) => expected == Some(s@),
        None => expected is None,
    }
}

/// The text is the one that is expected.
pub open spec fn is_slice(r: Option<&str>, expected: Option<Seq<char>>) -> bool {
    match r {
        Some(s) => expected == Some(s@),
        None => expected is None,
    }
}

/// What is read from a written chunk: its identifier, its name, and its names by
/// language.
pub proof fn law_texts_of_a_written_chunk(
    c: ChunkContents,
    unread: Seq<u8>,
    behind: Seq<u8>,
    chunk: &[u8],
    id: Option<&str>,
    name: Option<String>,
    names: Option<&str>,
    lang: &str,
    shown: Option<String>,
    info: DivisionInfo,
)
    requires
        c.fits(),
        unread.len() == 4,
        chunk@ == c.chunk(unread) + behind,
        call_ensures(get_id, (chunk,), id),
        call_ensures(get_primary_name, (chunk,), name),
        call_ensures(get_names_json, (chunk,), names),
        call_ensures(resolve_name, (chunk, lang), shown),
        call_ensures(DivisionInfo::from_chunk, (chunk,), info),
    ensures
        is_slice(id, c.id),
        is_text(name, c.name),
        is_slice(names, c.names),
        lang@.len() == 0 || c.names is None || name_for(c.names->0, lang@) is None ==> is_text(
            shown,
            c.name,
        ),
        lang@.len() > 0 && c.names is Some && name_for(c.names->0, lang@) is Some ==> is_text(
            shown,
            name_for(c.names->0, lang@),
        ),
        is_text(info.id, c.id),
        is_text(info.name, c.name),
        c.names is None ==> info.names is None,
{
    law_chunk_round_trip(c, unread, behind);
    assert(info@.id == c.id);
    assert(info@.name == c.name);
}

/// The polygons of a written chunk are read with closed rings, and the chunk
/// holds a point exactly if one of them does.
pub proof fn law_outline_of_a_written_chunk<F: Fn(&PolygonRings) -> bool>(
    c: ChunkContents,
    unread: Seq<u8>,
    behind: Seq<u8>,
    chunk: &[u8],
    outline: Option<Vec<PolygonRings>>,
    covers: F,
    holds: spec_fn(PolygonView) -> bool,
    r: bool,
    i: int,
)
    requires
        c.fits(),
        unread.len() == 4,
        chunk@ == c.chunk(unread) + behind,
        call_ensures(get_geometry, (chunk,), outline),
        forall|p: PolygonRings, b: bool| #[trigger]
            call_ensures(covers, (&p,), b) ==> b == holds(p@),
        call_ensures(contains_point::<F>, (chunk, covers), r),
    ensures
        outline is None <==> c.polygons is None || c.polygons->0.len() == 0,
        outline matches Some(polygons) ==> polygons@.len() == c.polygons->0.len() && (0 <= i
            < polygons@.len() ==> polygons@[i]@ == closed_polygon(c.polygons->0[i])),
        r <==> c.polygons is Some && exists|k: int|
            0 <= k < c.polygons->0.len() && holds(closed_polygon(#[trigger] c.polygons->0[k])),
{
    law_chunk_round_trip(c, unread, behind);
    law_written_chunk_holds_points(c, unread, behind, covers, holds, r);
    if let Some(polygons) = outline {
        let views = polygons@.map_values(|p: PolygonRings| p@);
        assert(views.len() == polygons@.len());
        let expected = c.polygons->0.map_values(|p: PolygonView| closed_polygon(p));
        assert(views == expected);
        if 0 <= i < polygons@.len() {
            assert(views[i] == polygons@[i]@);
        }
    }
}

/// A result tells of each level what the chunk of the first match tells, and
/// nothing of a level without a match.
pub proof fn law_result_of_matches(
    matched: &[MatchedDiv],
    r: GeoResult,
    all: FeatureCollection,
    i: int,
    level: Level,
)
    requires
        call_ensures(build_geo_result, (matched,), r),
        call_ensures(build_feature_collection, (matched,), all),
    ensures
        0 <= i < matched@.len() && (forall|j: int|
            0 <= j < i ==> (#[trigger] matched@[j]).level != matched@[i].level) ==> r.at(
            matched@[i].level,
        ) == Some(info_of(matched@[i].chunk@)) && all.levels.at(matched@[i].level) == Some(
            info_of(matched@[i].chunk@),
        ),
        (forall|j: int| 0 <= j < matched@.len() ==> (#[trigger] matched@[j]).level != level)
            ==> r.at(level) is None && all.levels.at(level) is None,
{
    let views = matches_view(matched@);
    if 0 <= i < matched@.len() && (forall|j: int|
        0 <= j < i ==> (#[trigger] matched@[j]).level != matched@[i].level) {
        assert forall|j: int| 0 <= j < i implies (#[trigger] views[j]).0 != views[i].0 by {
            assert(views[j] == matched@[j]@);
            assert(matched@[j].level != matched@[i].level);
        }
        law_first_match_is_told(views, i);
    }
    if forall|j: int| 0 <= j < matched@.len() ==> (#[trigger] matched@[j]).level != level {
        assert forall|j: int| 0 <= j < views.len() implies (#[trigger] views[j]).0 != level by {
            assert(matched@[j].level != level);
        }
        law_unmatched_level_is_left_out(views, level);
    }
}

/// Each match with an outline gives one feature, whatever its level.
pub proof fn law_features_of_matches(
    matched: &[MatchedDiv],
    r: FeatureCollection,
    places: Seq<int>,
    k: int,
)
    requires
        call_ensures(build_feature_collection, (matched,), r),
        lists_set(outlined(matches_view(matched@)), places),
    ensures
        r.features@.len() == places.len(),
        0 <= k < places.len() ==> {
            let m = matched@[places[k]];
            let f = r.features@[k];
            &&& f.level == m.level
            &&& Some(f.geometry@.map_values(|p: PolygonRings| p@)) == geometry_of(m.chunk@)
            &&& f.info@ == info_of(m.chunk@)
        },
{
    let views = matches_view(matched@);
    law_features(views, places);
    let features = r.features@.map_values(|f: GeoFeature| f@);
    assert(features.len() == places.len());
    if 0 <= k < places.len() {
        assert(features[k] == r.features@[k]@);
        assert(views[places[k]] == matched@[places[k]]@);
    }
}

/// The codes 0, 1, 2, 3, … stand for 0, -1, 1, -2, …
pub proof fn law_zigzag(v: u32, r: i32)
    requires
        call_ensures(decode_zigzag, (v,), r),
    ensures
        r >= 0 ==> v == 2 * r,
        r < 0 ==> v == -2 * r - 1,
{
}

/// A ring has at least three points, and its first one stands at the end again.
pub proof fn law_rings_are_closed(data: &[u8], count: u32, r: Option<Vec<Point>>)
    requires
        call_ensures(decode_ring, (data, count), r),
    ensures
        count < 3 ==> r is None,
        r matches Some(points) ==> points@.len() == count + 1 && points@.first()
            == points@.last(),
{
    if let Some(points) = r {
        lemma_ring_len(data@, count as nat);
    }
}

proof fn lemma_ring_len(data: Seq<u8>, count: nat)
    ensures
        ring_points(data, count) matches Some((points, _)) ==> points.len() == count,
    decreases count,
{
    if count > 0 {
        lemma_ring_len(data, (count - 1) as nat);
    }
}

/// A text is a flat object exactly if it can be taken apart as one.
pub proof fn law_is_flat_object(s: Vec<char>, r: bool)
    requires
        call_ensures(is_flat_object, (&s,), r),
    ensures
        r <==> exists|open: int, close: int, members: Seq<Member>|
            #[trigger] is_object(s@, open, close, members),
{
    if r {
        let members = flat_members(s@)->0;
        law_flat_objects(s@, members);
        let (open, close) = choose|open: int, close: int|
            #[trigger] is_object(s@, open, close, members);
        assert(is_object(s@, open, close, members));
    }
    if exists|open: int, close: int, members: Seq<Member>|
        #[trigger] is_object(s@, open, close, members) {
        let (open, close, members) = choose|open: int, close: int, members: Seq<Member>|
            #[trigger] is_object(s@, open, close, members);
        law_flat_objects(s@, members);
    }
}

/// A file is read, or refused with the message of its error, whether it comes
/// compressed or not.
pub proof fn law_files_are_read(
    data: &[u8],
    gz: &[u8],
    r: Result<XsIndex, String>,
    plain: Result<XsFinder, String>,
    loaded: Result<XsFinder, String>,
)
    requires
        gunzipped(gz@) == Ok::<Seq<u8>, Seq<char>>(data@),
        call_ensures(parse, (data,), r),
        call_ensures(finder_from_index, (data,), plain),
        call_ensures(load_finder, (gz,), loaded),
    ensures
        r is Ok <==> index_of(data@) is Ok,
        plain is Ok <==> index_of(data@) is Ok,
        loaded is Ok <==> index_of(data@) is Ok,
        index_of(data@) matches Ok(index) ==> r->Ok_0@ == index && plain->Ok_0@ == index
            && loaded->Ok_0@ == index,
        index_of(data@) matches Err(e) ==> r->Err_0@ == e.text() && plain->Err_0@ == e.text()
            && loaded->Err_0@ == e.text(),
        data@.len() < 24 ==> r is Err && r->Err_0@ == "XSCI: file too short"@,
{
}

/// The headers of answers.
pub proof fn law_heads(
    origin: Option<&str>,
    status: u16,
    preflight: Head,
    page: Head,
    json: Head,
)
    requires
        call_ensures(cors_preflight, (origin,), preflight),
        call_ensures(make_html, (origin,), page),
        call_ensures(make_json, (status, origin), json),
    ensures
        preflight.status == 204 && page.status == 200 && json.status == status,
        headers_view(preflight.headers@).len() == 5,
        headers_view(page.headers@).len() == 2,
        headers_view(json.headers@).len() == 3,
        ({
            let named = (
                "access-control-allow-origin"@,
                match origin {
                    Some(o) => o@,
                    None => Seq::empty(),
                },
            );
            let methods = ("access-control-allow-methods"@, "GET, OPTIONS"@);
            let vary = ("vary"@, "origin"@);
            &&& headers_view(preflight.headers@)[0] == named
            &&& headers_view(page.headers@)[0] == named
            &&& headers_view(json.headers@)[0] == named
            &&& headers_view(preflight.headers@)[1] == methods
            &&& headers_view(json.headers@)[1] == methods
            &&& headers_view(preflight.headers@)[2] == ("access-control-allow-headers"@, "*"@)
            &&& headers_view(preflight.headers@)[3] == ("access-control-max-age"@, "86400"@)
            &&& headers_view(preflight.headers@).last() == vary
            &&& headers_view(page.headers@).last() == vary
            &&& headers_view(json.headers@).last() == vary
        }),
{
}

/// Only the two origins are allowed, and each is given back as it came.
pub proof fn law_allowed_origin(o: &str, r: Option<&'static str>, none: Option<&'static str>)
    requires
        call_ensures(allowed_origin, (Some(o),), r),
        call_ensures(allowed_origin, (None::<&str>,), none),
    ensures
        r is Some <==> o@ == "https://ringsaturn.github.io"@ || o@ == "http://localhost:9999"@,
        r matches Some(a) ==> a@ == o@,
        none is None,
{
}

/// The messages of failures, and the names of the files.
pub proof fn law_messages_and_keys(
    cause: &str,
    index: ErrorReply,
    query: ErrorReply,
    key: String,
    own_index: String,
    own_slab: String,
    index_name: String,
    slab_name: String,
)
    requires
        call_ensures(index_failure, (cause,), index),
        call_ensures(query_failure, (cause,), query),
        call_ensures(index_key, (Some(key),), own_index),
        call_ensures(slab_key, (Some(key),), own_slab),
        call_ensures(index_key, (None::<String>,), index_name),
        call_ensures(slab_key, (None::<String>,), slab_name),
    ensures
        index.status == 500 && index.message@ == "index init error: "@ + cause@,
        query.status == 500 && query.message@ == "query error: "@ + cause@,
        own_index@ == key@ && own_slab@ == key@,
        index_name@ == "divisions.xs-index.gz"@,
        slab_name@ == "divisions.xs-poly"@,
{
}

/// A query gives the coordinates that are read from its parameters `lng` and
/// `lat`, and asks for GeoJSON by its parameter `format`.
pub proof fn law_query_is_read<F: Fn(&str) -> Option<Double>>(
    query: &str,
    parse: F,
    r: Result<(Double, Double, bool), String>,
)
    requires
        call_ensures(parse_params::<F>, (query, &parse), r),
    ensures
        r matches Ok((x, y, g)) ==> reads(parse, param(query@, "lng"@), Some(x)) && reads(
            parse,
            param(query@, "lat"@),
            Some(y),
        ) && (g <==> param(query@, "format"@) == Some("geojson"@)),
        r matches Err(m) ==> (m@ == "missing or invalid `lng` parameter"@ && reads(
            parse,
            param(query@, "lng"@),
            None,
        )) || (m@ == "missing or invalid `lat` parameter"@ && reads(
            parse,
            param(query@, "lat"@),
            None,
        )),
{
}

/// A request is refused, shown the page, or answered by its method, its path and
/// its query.
pub proof fn law_requests_are_routed<F: Fn(&str) -> Option<Double>>(
    method: &str,
    path: &str,
    query: &str,
    parse: F,
    r: Route,
)
    requires
        call_ensures(route::<F>, (method, path, Some(query), &parse), r),
    ensures
        method@ == "OPTIONS"@ <==> r is Preflight,
        method@ != "OPTIONS"@ && method@ != "GET"@ <==> r is Error && r->Error_0.status
            == 405,
        method@ == "GET"@ && path@ != "/"@ && path@.len() > 0 && path@ != "/api"@ <==> r is Error
            && r->Error_0.status == 404,
        r is Page ==> method@ == "GET"@ && (path@ == "/"@ || path@.len() == 0),
        r is Error && r->Error_0.status == 400 ==> method@ == "GET"@ && path@ == "/api"@,
        r matches Route::Query { lng, lat, geojson } ==> method@ == "GET"@ && reads(
            parse,
            param(query@, "lng"@),
            Some(lng),
        ) && reads(parse, param(query@, "lat"@), Some(lat)) && (geojson <==> param(
            query@,
            "format"@,
        ) == Some("geojson"@)),
{
    reveal_strlit("OPTIONS");
    reveal_strlit("GET");
    reveal_strlit("/");
    reveal_strlit("/api");
    assert("OPTIONS"@.len() != "GET"@.len());
    assert("/"@.len() != "/api"@.len());
}

} // verus!
