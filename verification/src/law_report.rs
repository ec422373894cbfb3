//! What is answered, in terms of the divisions found and of their chunks.

use vstd::prelude::*;

use crate::chunk::{law_chunk_round_trip, ChunkContents};
use crate::collect::{answerable, MatchedDiv};
use crate::flatbuf::{
    colon_follows, display_name, geometry_of, law_find_quote_first, name_for, name_from, quoted,
    root_text, value_behind, PolygonRings,
};
use crate::law_query::{
    law_match_is_first_offer, law_matched_levels, law_matches_keep_order, Setting,
};
use crate::levels::{coarse_level, filled, fine_level, unfilled, Level, LevelSet};
use crate::report::{
    distinct_languages, features_of, first_info, info_of, info_with, law_first_match_is_told,
    law_unmatched_level_is_left_out, matches_view, names_of, names_view, one_name_each,
    string_members, DivisionInfo, FeatureView, GeoFeature, GeoResult, InfoView,
};
use crate::text::{find_from, is_space, law_find_first, skip_space};
use crate::xsci::XsIndex;

verus! {

/// Which of the matches have an outline.
pub open spec fn outlined(matched: Seq<(Level, Seq<u8>)>) -> Seq<bool> {
    Seq::new(matched.len(), |i: int| geometry_of(matched[i].1) is Some)
}

/// `places` lists, in ascending order, where the flags are set.
pub open spec fn lists_set(flags: Seq<bool>, places: Seq<int>) -> bool {
    &&& forall|k: int|
        0 <= k < places.len() ==> 0 <= #[trigger] places[k] < flags.len() && flags[places[k]]
    &&& forall|j: int, k: int|
        0 <= j < k < places.len() ==> #[trigger] places[j] < #[trigger] places[k]
    &&& forall|i: int| 0 <= i < flags.len() && #[trigger] flags[i] ==> places.contains(i)
}

/// The feature is that of the match: its outline, its level, and what its chunk
/// tells.
pub open spec fn is_feature_of(f: FeatureView, m: (Level, Seq<u8>)) -> bool {
    &&& Some(f.geometry) == geometry_of(m.1)
    &&& f.level == m.0
    &&& f.info.id == root_text(m.1, 0)
    &&& f.info.name == root_text(m.1, 2)
    &&& f.info == info_of(m.1)
}

/// Every match that has an outline gives one feature, in the order of the
/// matches, and there are no others: the `k`-th feature is that of the `k`-th
/// match with an outline, whatever its level.
pub proof fn law_features(matched: Seq<(Level, Seq<u8>)>, places: Seq<int>)
    requires
        lists_set(outlined(matched), places),
    ensures
        features_of(matched).len() == places.len(),
        forall|k: int|
            0 <= k < places.len() ==> is_feature_of(
                #[trigger] features_of(matched)[k],
                matched[places[k]],
            ),
    decreases matched.len(),
{
    if matched.len() == 0 {
        if places.len() > 0 {
            let first = places[0];
            assert(0 <= first < outlined(matched).len());
        }
    } else {
        let before = matched.drop_last();
        assert(outlined(matched).drop_last() =~= outlined(before));
        let earlier = lemma_without_last(outlined(matched), places);
        law_features(before, earlier);
        lemma_feature_of_last(matched);
        let fewer = features_of(before);
        let all = features_of(matched);
        assert forall|k: int| 0 <= k < places.len() implies is_feature_of(
            #[trigger] all[k],
            matched[places[k]],
        ) by {
            if k < earlier.len() {
                assert(all[k] == fewer[k]);
                assert(earlier[k] == places[k]);
                assert(is_feature_of(fewer[k], before[earlier[k]]));
            }
        }
    }
}

/// What the last match adds.
proof fn lemma_feature_of_last(matched: Seq<(Level, Seq<u8>)>)
    requires
        matched.len() > 0,
    ensures
        geometry_of(matched.last().1) is None ==> features_of(matched) == features_of(
            matched.drop_last(),
        ),
        geometry_of(matched.last().1) is Some ==> features_of(matched).len() == features_of(
            matched.drop_last(),
        ).len() + 1 && features_of(matched).drop_last() == features_of(matched.drop_last())
            && is_feature_of(features_of(matched).last(), matched.last()),
{
    if geometry_of(matched.last().1) is Some {
        assert(features_of(matched).drop_last() =~= features_of(matched.drop_last()));
    }
}

/// The matches that have an outline can be listed.
pub proof fn law_outlined_matches_can_be_listed(matched: Seq<(Level, Seq<u8>)>)
    ensures
        exists|places: Seq<int>| #[trigger] lists_set(outlined(matched), places),
    decreases matched.len(),
{
    if matched.len() == 0 {
        assert(lists_set(outlined(matched), Seq::empty()));
    } else {
        let before = matched.drop_last();
        law_outlined_matches_can_be_listed(before);
        let some = choose|places: Seq<int>| #[trigger] lists_set(outlined(before), places);
        assert(outlined(matched).drop_last() =~= outlined(before));
        lemma_with_last(outlined(matched), some);
    }
}

proof fn lemma_with_last(flags: Seq<bool>, some: Seq<int>)
    requires
        flags.len() > 0,
        lists_set(flags.drop_last(), some),
    ensures
        lists_set(
            flags,
            if flags.last() {
                some.push(flags.len() - 1)
            } else {
                some
            },
        ),
{
    let before = flags.drop_last();
    let n = before.len() as int;
    let places = if flags.last() {
        some.push(n)
    } else {
        some
    };
    assert forall|k: int| 0 <= k < places.len() implies 0 <= #[trigger] places[k] < flags.len()
        && flags[places[k]] by {
        if k < some.len() {
            assert(places[k] == some[k]);
            assert(before[some[k]]);
        }
    }
    assert forall|j: int, k: int| 0 <= j < k < places.len() implies #[trigger] places[j]
        < #[trigger] places[k] by {
        assert(places[j] == some[j]);
        assert(0 <= some[j] < n);
        if k < some.len() {
            assert(some[j] < some[k]);
        }
    }
    assert forall|i: int| 0 <= i < flags.len() && #[trigger] flags[i] implies places.contains(
        i,
    ) by {
        if i < n {
            assert(before[i]);
            let k = some.index_of(i);
            assert(places[k] == i);
        } else {
            assert(places[some.len() as int] == n);
        }
    }
}

proof fn lemma_without_last(flags: Seq<bool>, a: Seq<int>) -> (x: Seq<int>)
    requires
        flags.len() > 0,
        lists_set(flags, a),
    ensures
        lists_set(flags.drop_last(), x),
        a == if flags.last() {
            x.push(flags.len() - 1)
        } else {
            x
        },
{
    let before = flags.drop_last();
    let n = before.len() as int;
    if flags.last() {
        assert(flags[n]);
        let k = a.index_of(n);
        assert(a[k] == n);
        if k < a.len() - 1 {
            assert(a[k] < a[a.len() - 1]);
        }
        let x = a.drop_last();
        assert(a =~= x.push(n));
        assert forall|j: int| 0 <= j < x.len() implies 0 <= #[trigger] x[j] < before.len()
            && before[x[j]] by {
            assert(a[j] == x[j]);
            assert(a[j] < a[k]);
        }
        assert forall|i: int, j: int| 0 <= i < j < x.len() implies #[trigger] x[i]
            < #[trigger] x[j] by {
            assert(a[i] < a[j]);
        }
        assert forall|i: int| 0 <= i < before.len() && #[trigger] before[i] implies x.contains(
            i,
        ) by {
            assert(flags[i]);
            let j = a.index_of(i);
            assert(x[j] == i);
        }
        x
    } else {
        assert forall|j: int| 0 <= j < a.len() implies 0 <= #[trigger] a[j] < before.len()
            && before[a[j]] by {
            assert(flags[a[j]]);
        }
        assert forall|i: int| 0 <= i < before.len() && #[trigger] before[i] implies a.contains(
            i,
        ) by {
            assert(flags[i]);
        }
        a
    }
}

/// The features of two lists of matches one after the other are those of the
/// first, then those of the second.
pub proof fn law_features_go_list_by_list(
    a: Seq<(Level, Seq<u8>)>,
    b: Seq<(Level, Seq<u8>)>,
)
    ensures
        features_of(a + b) == features_of(a) + features_of(b),
    decreases b.len(),
{
    if b.len() == 0 {
        assert(a + b =~= a);
        assert(features_of(a) + features_of(b) =~= features_of(a));
    } else {
        law_features_go_list_by_list(a, b.drop_last());
        assert((a + b).drop_last() =~= a + b.drop_last());
        assert(features_of(a + b) =~= features_of(a) + features_of(b));
    }
}

/// What is told of a written chunk: its identifier and its primary name as they
/// were written, whatever its names by language are, and the members of the
/// latter where they can be read.
pub proof fn law_told_of_a_written_chunk(c: ChunkContents, unread: Seq<u8>, behind: Seq<u8>)
    requires
        c.fits(),
        unread.len() == 4,
    ensures
        ({
            let info = info_of(c.chunk(unread) + behind);
            &&& info.id == c.id
            &&& info.name == c.name
            &&& c.names is None ==> info.names is None
            &&& c.names matches Some(json) ==> info.names == string_members(json)
        }),
{
    law_chunk_round_trip(c, unread, behind);
}

/// Identifier and primary name are the texts of the fields 0 and 2 of the root
/// table, and the names by language are read from that of field 10; none of
/// them depends on another one.
pub proof fn law_told_of_a_chunk(
    chunk: Seq<u8>,
    names: Option<Seq<(Seq<char>, Seq<char>)>>,
)
    ensures
        info_with(chunk, names).id == root_text(chunk, 0),
        info_with(chunk, names).name == root_text(chunk, 2),
        info_with(chunk, names).names == names,
        info_of(chunk).id == root_text(chunk, 0),
        info_of(chunk).name == root_text(chunk, 2),
        root_text(chunk, 10) is None ==> info_of(chunk).names is None && names_of(chunk) is None,
        root_text(chunk, 10) matches Some(json) ==> info_of(chunk).names == string_members(json)
            && names_of(chunk) == string_members(json),
{
}

/// No two names of a division are for the same language.
pub proof fn law_no_language_twice(
    info: InfoView,
    names: Seq<(Seq<char>, Seq<char>)>,
    i: int,
    j: int,
)
    requires
        one_name_each(info),
        info.names == Some(names),
        0 <= i < names.len(),
        0 <= j < names.len(),
        i != j,
    ensures
        names[i].0 != names[j].0,
        distinct_languages(names),
{
    if i < j {
        assert(names[i].0 != names[j].0);
    } else {
        assert(names[j].0 != names[i].0);
    }
}

/// Where a language is asked for and the names by language have a name for it,
/// that name is shown; else the primary name, the text of field 2.
pub proof fn law_shown_name(chunk: Seq<u8>, lang: Seq<char>, json: Seq<char>, name: Seq<char>)
    ensures
        lang.len() > 0 && root_text(chunk, 10) == Some(json) && name_for(json, lang) == Some(name)
            ==> display_name(chunk, lang) == Some(name),
        lang.len() == 0 ==> display_name(chunk, lang) == root_text(chunk, 2),
        root_text(chunk, 10) is None ==> display_name(chunk, lang) == root_text(chunk, 2),
        root_text(chunk, 10) == Some(json) && name_for(json, lang) is None ==> display_name(
            chunk,
            lang,
        ) == root_text(chunk, 2),
{
}

/// The name that is shown for a written chunk.
pub proof fn law_shown_name_of_a_written_chunk(
    c: ChunkContents,
    unread: Seq<u8>,
    behind: Seq<u8>,
    lang: Seq<char>,
)
    requires
        c.fits(),
        unread.len() == 4,
    ensures
        display_name(c.chunk(unread) + behind, lang) == if lang.len() > 0 && c.names is Some
            && name_for(c.names->0, lang) is Some {
            name_for(c.names->0, lang)
        } else {
            c.name
        },
{
    law_chunk_round_trip(c, unread, behind);
}

/// The name stands in the text: behind the quoted language, a colon with white
/// space around it, and a quote, up to the next quote.
pub open spec fn name_stands(
    json: Seq<char>,
    lang: Seq<char>,
    name: Seq<char>,
    start: int,
    colon: int,
    open: int,
) -> bool {
    &&& 0 <= start
    &&& start + lang.len() + 2 <= colon < open
    &&& open + 1 + name.len() < json.len()
    &&& json[start] == '"' && json[start + 1 + lang.len()] == '"'
    &&& json.subrange(start + 1, start + 1 + lang.len()) == lang
    &&& forall|k: int| start + lang.len() + 2 <= k < colon ==> is_space(#[trigger] json[k])
    &&& json[colon] == ':'
    &&& forall|k: int| colon < k < open ==> is_space(#[trigger] json[k])
    &&& json[open] == '"'
    &&& json.subrange(open + 1, open + 1 + name.len()) == name
    &&& forall|k: int| 0 <= k < name.len() ==> #[trigger] name[k] != '"'
    &&& json[open + 1 + name.len()] == '"'
}

proof fn lemma_skipped(s: Seq<char>, i: int)
    requires
        0 <= i <= s.len(),
    ensures
        i <= skip_space(s, i) <= s.len(),
        forall|k: int| i <= k < skip_space(s, i) ==> is_space(#[trigger] s[k]),
    decreases s.len() - i,
{
    if i < s.len() && is_space(s[i]) {
        lemma_skipped(s, i + 1);
    }
}

proof fn lemma_name_stands(json: Seq<char>, lang: Seq<char>, i: int)
    requires
        0 <= i,
    ensures
        name_from(json, lang, i) matches Some(name) ==> exists|start: int, colon: int, open: int|
            #[trigger] name_stands(json, lang, name, start, colon, open),
    decreases json.len() + 1 - i,
{
    let key = quoted(lang);
    law_find_first(json, key, i);
    if let Some(start) = find_from(json, key, i) {
        let behind = start + key.len();
        lemma_skipped(json, behind);
        if colon_follows(json, behind) {
            let colon = skip_space(json, behind);
            lemma_skipped(json, colon + 1);
            let open = skip_space(json, colon + 1);
            if let Some(name) = value_behind(json, colon) {
                law_find_quote_first(json, open + 1);
                let sub = json.subrange(start, behind);
                assert(sub[0] == json[start] && key[0] == '"');
                assert(sub[lang.len() as int + 1] == json[start + 1 + lang.len()]);
                assert(key[lang.len() as int + 1] == '"');
                assert(json.subrange(start + 1, start + 1 + lang.len()) =~= lang) by {
                    assert forall|k: int| 0 <= k < lang.len() implies json[start + 1 + k]
                        == lang[k] by {
                        assert(sub[k + 1] == json[start + 1 + k]);
                        assert(key[k + 1] == lang[k]);
                    }
                }
                assert(name_stands(json, lang, name, start, colon, open));
            }
        } else {
            lemma_name_stands(json, lang, start + 1);
        }
    }
}

/// A name that is found stands in the text behind its language.
pub proof fn law_found_name_stands_in_the_text(
    json: Seq<char>,
    lang: Seq<char>,
    name: Seq<char>,
)
    requires
        name_for(json, lang) == Some(name),
    ensures
        exists|start: int, colon: int, open: int| #[trigger]
            name_stands(json, lang, name, start, colon, open),
{
    lemma_name_stands(json, lang, 0);
}

/// A completed query answers for a level with what is told by the division of
/// the first place that offers a chunk for it, and leaves the level out where no
/// place does.
pub proof fn law_answer_of_a_query(q: Setting, level: Level, k: int)
    requires
        answerable(q.index, q.lng, q.lat),
    ensures
        q.offers_first(k, level) ==> first_info(q.matched(), level) == Some(
            info_of((q.slab)(q.division_at(k))),
        ),
        (forall|j: int| 0 <= j < q.places() ==> !#[trigger] q.offers_at(j, level)) ==> first_info(
            q.matched(),
            level,
        ) is None,
{
    law_matched_levels(q, level);
    let m = q.matched();
    if q.offers_first(k, level) {
        assert(q.offers_at(k, level));
        let a = choose|a: int| 0 <= a < m.len() && (#[trigger] m[a]).0 == level;
        law_match_is_first_offer(q, a, k);
        assert forall|b: int| 0 <= b < a implies (#[trigger] m[b]).0 != m[a].0 by {
            if m[b].0 == level {
                law_matches_keep_order(q, b, a, k, k);
            }
        }
        law_first_match_is_told(m, a);
    }
    if forall|j: int| 0 <= j < q.places() ==> !#[trigger] q.offers_at(j, level) {
        law_unmatched_level_is_left_out(m, level);
    }
}

/// The levels have the names that answers use.
pub proof fn law_level_names()
    ensures
        Level::Country.text() == "country"@,
        Level::Region.text() == "region"@,
        Level::County.text() == "county"@,
        Level::LocalAdmin.text() == "local_admin"@,
        Level::Locality.text() == "locality"@,
{
}

/// The subtypes and their levels.
pub proof fn law_levels_of_subtypes(subtype: u8)
    ensures
        coarse_level(subtype) == Some(Level::Country) <==> subtype == 0 || subtype == 1,
        coarse_level(subtype) == Some(Level::Region) <==> subtype == 2 || subtype == 3,
        coarse_level(subtype) == Some(Level::County) <==> subtype == 4,
        coarse_level(subtype) is None <==> subtype >= 5,
        fine_level(subtype) == Some(Level::County) <==> subtype == 5,
        fine_level(subtype) == Some(Level::LocalAdmin) <==> subtype == 6,
        fine_level(subtype) == Some(Level::Locality) <==> subtype == 7,
        fine_level(subtype) is None <==> subtype <= 4 || subtype >= 8,
{
}

/// Levels are filled one by one, and a level is filled once.
pub proof fn law_level_sets(done: LevelSet, a: Level, b: Level)
    ensures
        !LevelSet::none().holds(a),
        done.with(a).holds(b) <==> a == b || done.holds(b),
        unfilled(Some(a), done) is None <==> done.holds(a),
        unfilled(Some(a), done) is Some ==> unfilled(Some(a), done) == Some(a),
        unfilled(None, done) is None,
        filled(Some(a), done) == done.with(a),
        filled(None, done) == done,
        done.holds(Level::Country) == done.country,
        done.holds(Level::Region) == done.region,
        done.holds(Level::County) == done.county,
        done.holds(Level::LocalAdmin) == done.local_admin,
        done.holds(Level::Locality) == done.locality,
{
}

/// What the parts of an answer stand for.
pub proof fn law_views_of_answers(
    m: Seq<MatchedDiv>,
    i: int,
    info: DivisionInfo,
    names: Vec<(String, String)>,
    f: GeoFeature,
    r: GeoResult,
    p: PolygonRings,
)
    ensures
        matches_view(m).len() == m.len(),
        0 <= i < m.len() ==> matches_view(m)[i].0 == m[i].level && matches_view(m)[i].1
            == m[i].chunk@,
        info.id is None <==> info@.id is None,
        info.id matches Some(s) ==> info@.id == Some(s@),
        info.name is None <==> info@.name is None,
        info.name matches Some(s) ==> info@.name == Some(s@),
        info.names is None <==> info@.names is None,
        info.names matches Some(n) ==> info@.names == Some(names_view(n@)),
        names_view(names@).len() == names@.len(),
        0 <= i < names@.len() ==> names_view(names@)[i].0 == names@[i].0@ && names_view(
            names@,
        )[i].1 == names@[i].1@,
        f@.level == f.level,
        f@.info == f.info@,
        f@.geometry.len() == f.geometry@.len(),
        0 <= i < f.geometry@.len() ==> f@.geometry[i] == f.geometry@[i]@,
        p@.exterior == p.exterior@,
        p@.holes.len() == p.holes@.len(),
        0 <= i < p.holes@.len() ==> p@.holes[i] == p.holes@[i]@,
        r.country is None <==> r.at(Level::Country) is None,
        r.country matches Some(d) ==> r.at(Level::Country) == Some(d@),
        r.region is None <==> r.at(Level::Region) is None,
        r.region matches Some(d) ==> r.at(Level::Region) == Some(d@),
        r.county is None <==> r.at(Level::County) is None,
        r.county matches Some(d) ==> r.at(Level::County) == Some(d@),
        r.local_admin is None <==> r.at(Level::LocalAdmin) is None,
        r.local_admin matches Some(d) ==> r.at(Level::LocalAdmin) == Some(d@),
        r.locality is None <==> r.at(Level::Locality) is None,
        r.locality matches Some(d) ==> r.at(Level::Locality) == Some(d@),
{
}

/// What the parts of an index stand for.
pub proof fn law_view_of_an_index(x: XsIndex)
    ensures
        x@.subtypes == x.subtypes@,
        x@.bboxes == x.bboxes@,
        x@.poly_offsets == x.poly_offsets@,
        x@.poly_lengths == x.poly_lengths@,
        x@.grid_coarse == x.grid_coarse@,
        x@.grid_fine == x.grid_fine@,
        x@.country_preindex == x.country_preindex@,
{
}

} // verus!
