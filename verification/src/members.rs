//! Looking a language up in a flat JSON object of strings.
//!
//! The look-up is defined by [`crate::flatbuf::name_for`] and the grammar of the
//! object by [`crate::json::flat_members`]. Here the look-up is shown to give the
//! value of the first member with the key.

use vstd::prelude::*;

use crate::flatbuf::{
    colon_follows, lemma_find_quote, lemma_passes_by, lemma_skip_space, lemma_takes_value,
    name_for, name_from, occurs, quoted,
};
use crate::json::{
    closes_at, flat_members, is_json_space, lemma_member_from, lemma_past_space, member_from,
    members_from, past_space, Member,
};
use crate::text::{find_from, law_find_first};

verus! {

/// The character does not occur.
pub open spec fn lacks(s: Seq<char>, c: char) -> bool {
    forall|k: int| 0 <= k < s.len() ==> #[trigger] s[k] != c
}

/// Nothing but a colon or a comma and white space, as stands between the
/// strings of an object.
pub open spec fn is_separator(s: Seq<char>) -> bool {
    exists|i: int| #[trigger] separates(s, i)
}

/// A colon or a comma stands at `i`, and all else is white space.
pub open spec fn separates(s: Seq<char>, i: int) -> bool {
    &&& 0 <= i < s.len()
    &&& s[i] == ':' || s[i] == ','
    &&& forall|k: int| 0 <= k < s.len() && k != i ==> is_json_space(#[trigger] s[k])
}

/// The key of a member, as it is written.
pub open spec fn key_text(json: Seq<char>, m: Member) -> Seq<char> {
    json.subrange(m.key_open + 1, m.key_close)
}

/// The value of a member, as it is written.
pub open spec fn value_text(json: Seq<char>, m: Member) -> Seq<char> {
    json.subrange(m.value_open + 1, m.value_close)
}

/// No quote is escaped within the key or the value.
pub open spec fn plain(json: Seq<char>, m: Member) -> bool {
    lacks(key_text(json, m), '"') && lacks(value_text(json, m), '"')
}

/// The value of the first member with the key.
pub open spec fn value_of(json: Seq<char>, members: Seq<Member>, key: Seq<char>) -> Option<
    Seq<char>,
>
    decreases members.len(),
{
    if members.len() == 0 {
        None
    } else if key_text(json, members[0]) == key {
        Some(value_text(json, members[0]))
    } else {
        value_of(json, members.drop_first(), key)
    }
}

/// Without a quote there is no quoted text.
proof fn lemma_starts_with_quote(json: Seq<char>, lang: Seq<char>, k: int)
    requires
        occurs(json, quoted(lang), k),
    ensures
        json[k] == '"',
{
    assert(json.subrange(k, k + quoted(lang).len())[0] == json[k]);
    assert(quoted(lang)[0] == '"');
}

/// A quoted text without quotes reaches from its opening quote to the next one.
proof fn lemma_reaches_next_quote(json: Seq<char>, lang: Seq<char>, k: int, n: int)
    requires
        occurs(json, quoted(lang), k),
        lacks(lang, '"'),
        k < n < json.len(),
        json[n] == '"',
        forall|x: int| k < x < n ==> #[trigger] json[x] != '"',
    ensures
        lang == json.subrange(k + 1, n),
{
    let key = quoted(lang);
    let close = k + 1 + lang.len();
    assert forall|x: int| 0 <= x < key.len() implies json[k + x] == #[trigger] key[x] by {
        assert(json.subrange(k, k + key.len())[x] == json[k + x]);
    }
    assert(key[lang.len() as int + 1] == '"');
    assert(json[close] == '"');
    assert forall|x: int| 0 <= x < lang.len() implies json[k + 1 + x] == #[trigger] lang[x] by {
        assert(key[x + 1] == lang[x]);
    }
    if n < close {
        assert(lang[n - k - 1] == '"');
    }
    assert(lang =~= json.subrange(k + 1, n));
}

/// The last quote of a text opens no quoted text.
proof fn lemma_last_quote(json: Seq<char>, lang: Seq<char>, k: int)
    requires
        forall|x: int| k < x < json.len() ==> #[trigger] json[x] != '"',
    ensures
        !occurs(json, quoted(lang), k),
{
    let last = quoted(lang).len() - 1;
    assert(quoted(lang)[last] == '"');
    if occurs(json, quoted(lang), k) {
        assert(json.subrange(k, k + quoted(lang).len())[last] == json[k + last]);
    }
}

/// Key and value of a plain member hold no quote.
proof fn lemma_plain(json: Seq<char>, m: Member)
    requires
        plain(json, m),
        0 <= m.key_open < m.key_close < m.value_open < m.value_close < json.len(),
    ensures
        forall|x: int| m.key_open < x < m.key_close ==> #[trigger] json[x] != '"',
        forall|x: int| m.value_open < x < m.value_close ==> #[trigger] json[x] != '"',
{
    assert forall|x: int| m.key_open < x < m.key_close implies #[trigger] json[x] != '"' by {
        assert(key_text(json, m)[x - m.key_open - 1] == json[x]);
    }
    assert forall|x: int| m.value_open < x < m.value_close implies #[trigger] json[x] != '"' by {
        assert(value_text(json, m)[x - m.value_open - 1] == json[x]);
    }
}

/// Within a member whose key is another one the quoted language stands with no
/// colon behind it. The next quote, if there is one, opens the next key.
proof fn lemma_other_member(
    json: Seq<char>,
    lang: Seq<char>,
    i: int,
    k: int,
    next_quote: Option<int>,
)
    requires
        0 <= i,
        member_from(json, i) is Some,
        plain(json, member_from(json, i)->0),
        lacks(lang, '"'),
        !is_separator(lang),
        key_text(json, member_from(json, i)->0) != lang,
        ({
            let end = member_from(json, i)->0.end;
            &&& end < json.len()
            &&& match next_quote {
                Some(n) => json[end] == ',' && end < n < json.len() && json[n] == '"' && forall|
                    x: int,
                |
                    end < x < n ==> is_json_space(#[trigger] json[x]),
                None => json[end] == '}' && forall|x: int|
                    end < x < json.len() ==> is_json_space(#[trigger] json[x]),
            }
        }),
        i <= k <= member_from(json, i)->0.end,
        occurs(json, quoted(lang), k),
    ensures
        !colon_follows(json, k + quoted(lang).len()),
{
    let m = member_from(json, i)->0;
    lemma_member_from(json, i);
    lemma_plain(json, m);
    lemma_starts_with_quote(json, lang, k);
    if k == m.key_open {
        lemma_reaches_next_quote(json, lang, k, m.key_close);
    } else if k == m.key_close {
        lemma_reaches_next_quote(json, lang, k, m.value_open);
        assert(separates(lang, m.colon - k - 1));
    } else if k == m.value_close {
        match next_quote {
            Some(n) => {
                lemma_reaches_next_quote(json, lang, k, n);
                assert(separates(lang, m.end - k - 1));
            },
            None => {
                lemma_last_quote(json, lang, k);
            },
        }
    } else {
        assert(k == m.value_open);
        lemma_reaches_next_quote(json, lang, k, m.value_close);
        assert(k + quoted(lang).len() == m.value_close + 1);
        lemma_skip_space(json, m.value_close + 1, m.end);
    }
}

/// A member whose key is the language gives its value.
proof fn lemma_this_member(json: Seq<char>, lang: Seq<char>, i: int)
    requires
        0 <= i,
        member_from(json, i) is Some,
        plain(json, member_from(json, i)->0),
        key_text(json, member_from(json, i)->0) == lang,
    ensures
        name_from(json, lang, i) == Some(value_text(json, member_from(json, i)->0)),
{
    let m = member_from(json, i)->0;
    let key = quoted(lang);
    lemma_member_from(json, i);
    lemma_plain(json, m);
    assert forall|x: int| 0 <= x < key.len() implies json[m.key_open + x] == #[trigger] key[x] by {
        if 0 < x < key.len() - 1 {
            assert(key_text(json, m)[x - 1] == json[m.key_open + x]);
        }
    }
    assert(json.subrange(m.key_open, m.key_open + key.len()) =~= key);
    assert forall|k: int| i <= k < m.key_open implies !#[trigger] occurs(json, key, k) by {
        assert(is_json_space(json[k]));
        if occurs(json, key, k) {
            lemma_starts_with_quote(json, lang, k);
        }
    }
    lemma_passes_by(json, lang, i, m.key_open);
    lemma_skip_space(json, m.key_close + 1, m.colon);
    lemma_takes_value(json, lang, m.key_open);
    lemma_skip_space(json, m.colon + 1, m.value_open);
    lemma_find_quote(json, m.value_open + 1, m.value_close);
}

/// Where no quote follows, nothing is found.
proof fn lemma_nothing_left(json: Seq<char>, lang: Seq<char>, i: int)
    requires
        0 <= i,
        forall|x: int| i <= x < json.len() ==> #[trigger] json[x] != '"',
    ensures
        name_from(json, lang, i) is None,
{
    law_find_first(json, quoted(lang), i);
    if let Some(k) = find_from(json, quoted(lang), i) {
        assert(occurs(json, quoted(lang), k));
        lemma_starts_with_quote(json, lang, k);
    }
}

/// The members from `i` to the end of the object give what the look-up from `i`
/// on finds.
proof fn lemma_members(json: Seq<char>, lang: Seq<char>, i: int)
    requires
        0 <= i,
        flat_members(json) is Some,
        members_from(json, i) is Some,
        forall|j: int|
            0 <= j < members_from(json, i)->0.len() ==> plain(
                json,
                #[trigger] members_from(json, i)->0[j],
            ),
        lacks(lang, '"'),
        !is_separator(lang),
    ensures
        name_from(json, lang, i) == value_of(json, members_from(json, i)->0, lang),
    decreases json.len() - i,
{
    let members = members_from(json, i)->0;
    let m = member_from(json, i)->0;
    assert(members[0] == m);
    lemma_member_from(json, i);
    if key_text(json, m) == lang {
        lemma_this_member(json, lang, i);
    } else if closes_at(json, m.end) {
        lemma_past_space(json, m.end + 1);
        assert forall|k: int| i <= k < m.end + 1 && #[trigger] occurs(
            json,
            quoted(lang),
            k,
        ) implies !colon_follows(json, k + quoted(lang).len()) by {
            lemma_other_member(json, lang, i, k, None);
        }
        lemma_passes_by(json, lang, i, m.end + 1);
        lemma_nothing_left(json, lang, m.end + 1);
        assert(value_of(json, members.drop_first(), lang) is None);
    } else {
        let next = m.end + 1;
        let others = members_from(json, next)->0;
        let n = member_from(json, next)->0.key_open;
        lemma_member_from(json, next);
        assert forall|k: int| i <= k < next && #[trigger] occurs(
            json,
            quoted(lang),
            k,
        ) implies !colon_follows(json, k + quoted(lang).len()) by {
            lemma_other_member(json, lang, i, k, Some(n));
        }
        lemma_passes_by(json, lang, i, next);
        assert(members.drop_first() =~= others);
        assert forall|j: int| 0 <= j < others.len() implies plain(json, #[trigger] others[j]) by {
            assert(others[j] == members[j + 1]);
        }
        lemma_members(json, lang, next);
    }
}

/// A language is looked up among the keys of a flat JSON object of strings: the
/// value of the first member with that key is found, and nothing if there is
/// none. A value that equals the language does not matter. Objects with an
/// escaped quote are left out, and so are a language that holds a quote and one
/// that reads like what stands between the strings of an object.
pub proof fn law_object_is_looked_up(json: Seq<char>, members: Seq<Member>, lang: Seq<char>)
    requires
        flat_members(json) == Some(members),
        forall|j: int| 0 <= j < members.len() ==> plain(json, #[trigger] members[j]),
        lacks(lang, '"'),
        !is_separator(lang),
    ensures
        name_for(json, lang) == value_of(json, members, lang),
{
    let open = past_space(json, 0);
    lemma_past_space(json, 0);
    assert forall|k: int| 0 <= k < open + 1 implies !#[trigger] occurs(
        json,
        quoted(lang),
        k,
    ) by {
        assert(is_json_space(json[k]) || json[k] == '{');
        if occurs(json, quoted(lang), k) {
            lemma_starts_with_quote(json, lang, k);
        }
    }
    lemma_passes_by(json, lang, 0, open + 1);
    lemma_past_space(json, open + 1);
    let inner = past_space(json, open + 1);
    if closes_at(json, inner) {
        lemma_past_space(json, inner + 1);
        lemma_nothing_left(json, lang, open + 1);
    } else {
        lemma_members(json, lang, open + 1);
    }
}

} // verus!
