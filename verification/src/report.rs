//! What is answered about the divisions found.

use std::collections::BTreeMap;

use vstd::prelude::*;

use crate::collect::{
    answerable, completed, found, hits, law_every_hit_level_is_matched, law_first_hit_counts,
    law_query_finds_all, plan, MatchedDiv, Progress,
};
use crate::flatbuf::{
    geometry_of, get_geometry, get_id, get_names_json, get_primary_name, root_table, root_text,
    PolygonRings, PolygonView, FIELD_ID, FIELD_NAME, FIELD_NAMES_COMMON,
};
use crate::ieee::Number;
use crate::levels::Level;
use crate::xsci::IndexView;

verus! {

/// Names by language, one for each language.
pub type Names = Vec<(String, String)>;

/// The text of the names.
pub open spec fn names_view(names: Seq<(String, String)>) -> Seq<(Seq<char>, Seq<char>)> {
    names.map_values(|n: (String, String)| (n.0@, n.1@))
}

/// No language occurs twice.
pub open spec fn distinct_languages(names: Seq<(Seq<char>, Seq<char>)>) -> bool {
    forall|i: int, j: int|
        0 <= i < j < names.len() ==> (#[trigger] names[i]).0 != (#[trigger] names[j]).0
}

/// What `serde_json::from_str` reads from a JSON text as an object whose
/// members are all strings: the members in ascending order of their keys.
pub uninterp spec fn string_members(json: Seq<char>) -> Option<Seq<(Seq<char>, Seq<char>)>>;

/// `serde_json::from_str` into an ordered map of strings: the members of the
/// object if the text is a JSON object of strings, and nothing if it is not.
/// The result depends on the text alone, and no key occurs in it twice.
#[verifier::external_body]
fn parse_string_members(json: &str) -> (r: Option<Names>)
    ensures
        match r {
            Some(names) => string_members(json@) == Some(names_view(names@)),
            None => string_members(json@) is None,
        },
        r matches Some(names) ==> distinct_languages(names_view(names@)),
{
    let members: BTreeMap<String, String> = serde_json::from_str(json).ok()?;
    Some(members.into_iter().collect())
}

/// What is told about a division.
pub struct DivisionInfo {
    pub id: Option<String>,
    pub name: Option<String>,
    pub names: Option<Names>,
}

/// The text of what is told about a division.
#[verifier::ext_equal]
pub ghost struct InfoView {
    pub id: Option<Seq<char>>,
    pub name: Option<Seq<char>>,
    pub names: Option<Seq<(Seq<char>, Seq<char>)>>,
}

/// The text of a string, where there is one.
pub open spec fn text_of(s: Option<String>) -> Option<Seq<char>> {
    match s {
        Some(s) => Some(s@),
        None => None,
    }
}

impl View for DivisionInfo {
    type V = InfoView;

    open spec fn view(&self) -> InfoView {
        InfoView {
            id: text_of(self.id),
            name: text_of(self.name),
            names: match self.names {
                Some(names) => Some(names_view(names@)),
                None => None,
            },
        }
    }
}

/// The names that are told hold no language twice.
pub open spec fn one_name_each(info: InfoView) -> bool {
    info.names matches Some(names) ==> distinct_languages(names)
}

/// What a chunk tells about its division, given its names by language.
pub open spec fn info_with(
    chunk: Seq<u8>,
    names: Option<Seq<(Seq<char>, Seq<char>)>>,
) -> InfoView {
    InfoView {
        id: root_text(chunk, FIELD_ID as int),
        name: root_text(chunk, FIELD_NAME as int),
        names,
    }
}

/// The names by language of a division.
pub open spec fn names_of(chunk: Seq<u8>) -> Option<Seq<(Seq<char>, Seq<char>)>> {
    match root_text(chunk, FIELD_NAMES_COMMON as int) {
        Some(json) => string_members(json),
        None => None,
    }
}

/// What a chunk tells about its division.
pub open spec fn info_of(chunk: Seq<u8>) -> InfoView {
    info_with(chunk, names_of(chunk))
}

fn clone_names(names: &Names) -> (r: Names)
    ensures
        names_view(r@) == names_view(names@),
{
    let mut copy: Names = Vec::new();
    let mut i: usize = 0;
    assert(names_view(copy@) =~= names_view(names@.take(0)));
    while i < names.len()
        invariant
            i <= names@.len(),
            names_view(copy@) == names_view(names@.take(i as int)),
        decreases names@.len() - i,
    {
        let ghost before = copy@;
        copy.push((names[i].0.clone(), names[i].1.clone()));
        proof {
            let next = (names@[i as int].0@, names@[i as int].1@);
            assert(names_view(copy@) =~= names_view(before).push(next));
            assert(names_view(names@.take(i + 1)) =~= names_view(names@.take(i as int)).push(
                next,
            ));
        }
        i = i + 1;
    }
    assert(names@.take(names@.len() as int) =~= names@);
    copy
}

fn clone_text(s: &Option<String>) -> (r: Option<String>)
    ensures
        text_of(r) == text_of(*s),
{
    match s {
        Some(s) => Some(s.clone()),
        None => None,
    }
}

impl Clone for DivisionInfo {
    fn clone(&self) -> (r: Self)
        ensures
            r@ == self@,
    {
        DivisionInfo {
            id: clone_text(&self.id),
            name: clone_text(&self.name),
            names: match &self.names {
                Some(names) => Some(clone_names(names)),
                None => None,
            },
        }
    }
}

/// The names by language of a division, one for each language.
pub fn get_names_map(chunk: &[u8]) -> (r: Option<Names>)
    ensures
        match r {
            Some(names) => names_of(chunk@) == Some(names_view(names@)) && distinct_languages(
                names_view(names@),
            ),
            None => names_of(chunk@) is None,
        },
{
    match get_names_json(chunk) {
        Some(json) => parse_string_members(json),
        None => None,
    }
}

impl DivisionInfo {
    /// What a chunk tells about its division.
    pub fn from_chunk(chunk: &[u8]) -> (r: Self)
        ensures
            r@ == info_of(chunk@),
            one_name_each(r@),
    {
        Self::with_names(chunk, get_names_map(chunk))
    }

    /// What a chunk tells about its division, given its names by language.
    pub fn with_names(chunk: &[u8], names: Option<Names>) -> (r: Self)
        ensures
            r@ == info_with(
                chunk@,
                match names {
                    Some(n) => Some(names_view(n@)),
                    None => None,
                },
            ),
    {
        DivisionInfo {
            id: match get_id(chunk) {
                Some(id) => Some(id.to_string()),
                None => None,
            },
            name: get_primary_name(chunk),
            names,
        }
    }
}

/// One division for each level, where one was found.
pub struct GeoResult {
    pub country: Option<DivisionInfo>,
    pub region: Option<DivisionInfo>,
    pub county: Option<DivisionInfo>,
    pub local_admin: Option<DivisionInfo>,
    pub locality: Option<DivisionInfo>,
}

/// What is told of a division, where there is one.
pub open spec fn view_of(info: Option<DivisionInfo>) -> Option<InfoView> {
    match info {
        Some(i) => Some(i@),
        None => None,
    }
}

impl Default for GeoResult {
    fn default() -> (r: Self)
        ensures
            forall|l: Level| (#[trigger] r.at(l)) is None,
    {
        GeoResult { country: None, region: None, county: None, local_admin: None, locality: None }
    }
}

impl GeoResult {
    /// What is told of a level.
    pub open spec fn at(self, level: Level) -> Option<InfoView> {
        match level {
            Level::Country => view_of(self.country),
            Level::Region => view_of(self.region),
            Level::County => view_of(self.county),
            Level::LocalAdmin => view_of(self.local_admin),
            Level::Locality => view_of(self.locality),
        }
    }

    /// Tells of a level, unless it has been told of already. Other levels stay
    /// as they are.
    pub fn put(&mut self, level: Level, info: DivisionInfo)
        ensures
            forall|l: Level| #[trigger]
                final(self).at(l) == if l == level && old(self).at(l) is None {
                    Some(info@)
                } else {
                    old(self).at(l)
                },
    {
        match level {
            Level::Country => {
                if self.country.is_none() {
                    self.country = Some(info);
                }
            },
            Level::Region => {
                if self.region.is_none() {
                    self.region = Some(info);
                }
            },
            Level::County => {
                if self.county.is_none() {
                    self.county = Some(info);
                }
            },
            Level::LocalAdmin => {
                if self.local_admin.is_none() {
                    self.local_admin = Some(info);
                }
            },
            Level::Locality => {
                if self.locality.is_none() {
                    self.locality = Some(info);
                }
            },
        }
    }
}

/// The text of the divisions found.
pub open spec fn matches_view(matched: Seq<MatchedDiv>) -> Seq<(Level, Seq<u8>)> {
    matched.map_values(|m: MatchedDiv| m@)
}

/// What the first match of a level tells.
pub open spec fn first_info(matched: Seq<(Level, Seq<u8>)>, level: Level) -> Option<InfoView>
    decreases matched.len(),
{
    if matched.len() == 0 {
        None
    } else {
        match first_info(matched.drop_last(), level) {
            Some(info) => Some(info),
            None => if matched.last().0 == level {
                Some(info_of(matched.last().1))
            } else {
                None
            },
        }
    }
}

/// For each level, what the first match of the level tells.
pub fn build_geo_result(matched: &[MatchedDiv]) -> (r: GeoResult)
    ensures
        forall|l: Level| #[trigger] r.at(l) == first_info(matches_view(matched@), l),
        forall|l: Level| (#[trigger] r.at(l)) matches Some(info) ==> one_name_each(info),
{
    let mut r = GeoResult::default();
    let mut i: usize = 0;
    while i < matched.len()
        invariant
            i <= matched@.len(),
            forall|l: Level| #[trigger]
                r.at(l) == first_info(matches_view(matched@.take(i as int)), l),
            forall|l: Level| (#[trigger] r.at(l)) matches Some(info) ==> one_name_each(info),
        decreases matched@.len() - i,
    {
        let info = DivisionInfo::from_chunk(matched[i].chunk.as_slice());
        r.put(matched[i].level, info);
        assert(matches_view(matched@.take(i + 1)).drop_last() =~= matches_view(
            matched@.take(i as int),
        ));
        i = i + 1;
    }
    assert(matched@.take(matched@.len() as int) =~= matched@);
    r
}

/// A division with its outline.
pub struct GeoFeature {
    pub geometry: Vec<PolygonRings>,
    pub level: Level,
    pub info: DivisionInfo,
}

/// The contents of a feature.
#[verifier::ext_equal]
pub ghost struct FeatureView {
    pub geometry: Seq<PolygonView>,
    pub level: Level,
    pub info: InfoView,
}

impl View for GeoFeature {
    type V = FeatureView;

    open spec fn view(&self) -> FeatureView {
        FeatureView {
            geometry: self.geometry@.map_values(|p: PolygonRings| p@),
            level: self.level,
            info: self.info@,
        }
    }
}

/// The divisions found with their outlines, and one division for each level.
pub struct FeatureCollection {
    pub features: Vec<GeoFeature>,
    pub levels: GeoResult,
}

/// The matches that have an outline, in order.
pub open spec fn features_of(matched: Seq<(Level, Seq<u8>)>) -> Seq<FeatureView>
    decreases matched.len(),
{
    if matched.len() == 0 {
        Seq::empty()
    } else {
        let before = features_of(matched.drop_last());
        let (level, chunk) = matched.last();
        match geometry_of(chunk) {
            Some(geometry) => before.push(
                FeatureView { geometry, level, info: info_of(chunk) },
            ),
            None => before,
        }
    }
}

/// The matches that have an outline, in order, and for each level what the
/// first match of the level tells.
pub fn build_feature_collection(matched: &[MatchedDiv]) -> (r: FeatureCollection)
    ensures
        r.features@.map_values(|f: GeoFeature| f@) == features_of(matches_view(matched@)),
        forall|l: Level| #[trigger] r.levels.at(l) == first_info(matches_view(matched@), l),
        forall|i: int|
            0 <= i < r.features@.len() ==> one_name_each((#[trigger] r.features@[i]).info@),
        forall|l: Level| (#[trigger] r.levels.at(l)) matches Some(info) ==> one_name_each(info),
{
    let mut features: Vec<GeoFeature> = Vec::new();
    let mut levels = GeoResult::default();
    let mut i: usize = 0;
    assert(features@.map_values(|f: GeoFeature| f@) =~= Seq::empty());
    while i < matched.len()
        invariant
            i <= matched@.len(),
            features@.map_values(|f: GeoFeature| f@) == features_of(
                matches_view(matched@.take(i as int)),
            ),
            forall|l: Level| #[trigger]
                levels.at(l) == first_info(matches_view(matched@.take(i as int)), l),
            forall|k: int|
                0 <= k < features@.len() ==> one_name_each((#[trigger] features@[k]).info@),
            forall|l: Level| (#[trigger] levels.at(l)) matches Some(info) ==> one_name_each(info),
        decreases matched@.len() - i,
    {
        let level: Level = matched[i].level;
        let chunk: &[u8] = matched[i].chunk.as_slice();
        let info = DivisionInfo::from_chunk(chunk);
        assert(matches_view(matched@.take(i + 1)).drop_last() =~= matches_view(
            matched@.take(i as int),
        ));
        if let Some(geometry) = get_geometry(chunk) {
            let ghost before = features@;
            let feature = GeoFeature { geometry, level, info: info.clone() };
            features.push(feature);
            assert(features@.map_values(|f: GeoFeature| f@) =~= before.map_values(
                |f: GeoFeature| f@,
            ).push(feature@));
        }
        levels.put(level, info);
        i = i + 1;
    }
    assert(matched@.take(matched@.len() as int) =~= matched@);
    FeatureCollection { features, levels }
}

/// What is told of a level is what its first match tells.
pub proof fn law_first_match_is_told(matched: Seq<(Level, Seq<u8>)>, i: int)
    requires
        0 <= i < matched.len(),
        forall|j: int| 0 <= j < i ==> (#[trigger] matched[j]).0 != matched[i].0,
    ensures
        first_info(matched, matched[i].0) == Some(info_of(matched[i].1)),
    decreases matched.len(),
{
    let before = matched.drop_last();
    if i < before.len() {
        assert forall|j: int| 0 <= j < i implies (#[trigger] before[j]).0 != before[i].0 by {
            assert(matched[j].0 != matched[i].0);
        }
        law_first_match_is_told(before, i);
    } else {
        assert forall|j: int| 0 <= j < before.len() implies (#[trigger] before[j]).0
            != matched[i].0 by {
            assert(matched[j].0 != matched[i].0);
        }
        law_unmatched_level_is_left_out(before, matched[i].0);
    }
}

/// Nothing is told of a level without a match.
pub proof fn law_unmatched_level_is_left_out(matched: Seq<(Level, Seq<u8>)>, level: Level)
    requires
        forall|j: int| 0 <= j < matched.len() ==> (#[trigger] matched[j]).0 != level,
    ensures
        first_info(matched, level) is None,
    decreases matched.len(),
{
    if matched.len() > 0 {
        let before = matched.drop_last();
        assert forall|j: int| 0 <= j < before.len() implies (#[trigger] before[j]).0 != level by {
            assert(matched[j].0 != level);
        }
        law_unmatched_level_is_left_out(before, level);
        assert(matched[matched.len() - 1].0 != level);
    }
}

/// A query answers for a level with what is told by the first division of the
/// plan that holds the point for the level.
pub proof fn law_answer_is_first_hit(
    index: IndexView,
    lng: Number,
    lat: Number,
    slab: spec_fn(u32) -> Seq<u8>,
    inside: spec_fn(Seq<u8>) -> bool,
    level: Level,
    i: int,
)
    requires
        answerable(index, lng, lat),
        hits(index, plan(index, lng, lat), slab, inside, i, level),
        forall|j: int|
            0 <= j < i ==> !#[trigger] hits(index, plan(index, lng, lat), slab, inside, j, level),
    ensures
        first_info(completed(Progress::start(index, lng, lat), slab, inside).matched, level)
            == Some(info_of(slab(plan(index, lng, lat)[i].idx))),
{
    let tasks = plan(index, lng, lat);
    law_query_finds_all(index, lng, lat, slab, inside);
    law_first_hit_counts(index, tasks, slab, inside, level, i);
    let p = completed(Progress::start(index, lng, lat), slab, inside);
    let k = p.matched.index_of((level, slab(tasks[i].idx)));
    assert(p.matched[k] == (level, slab(tasks[i].idx)));
    law_first_match_is_told(p.matched, k);
}

/// A query answers nothing for a level for which no division of the plan holds
/// the point.
pub proof fn law_no_answer_without_hit(
    index: IndexView,
    lng: Number,
    lat: Number,
    slab: spec_fn(u32) -> Seq<u8>,
    inside: spec_fn(Seq<u8>) -> bool,
    level: Level,
)
    requires
        answerable(index, lng, lat),
        forall|j: int| !#[trigger] hits(index, plan(index, lng, lat), slab, inside, j, level),
    ensures
        first_info(
            completed(Progress::start(index, lng, lat), slab, inside).matched,
            level,
        ) is None,
{
    let tasks = plan(index, lng, lat);
    law_query_finds_all(index, lng, lat, slab, inside);
    law_every_hit_level_is_matched(index, tasks, slab, inside, level);
    law_unmatched_level_is_left_out(found(index, tasks, slab, inside), level);
}

/// A chunk whose root table cannot be found tells nothing and has no outline.
pub proof fn law_unreadable_chunk_tells_nothing(chunk: Seq<u8>)
    requires
        root_table(chunk) is None,
    ensures
        info_of(chunk) == (InfoView { id: None, name: None, names: None }),
        geometry_of(chunk) is None,
{
}

} // verus!
