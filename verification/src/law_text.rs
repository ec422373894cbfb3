//! White space, and the texts that are flat objects of strings.

use vstd::prelude::*;

use crate::json::{
    closes_at, escape_len, flat_members, is_json_space, lemma_member_from, lemma_past_space,
    member_from, members_from, past_space, string_close, Member,
};
use crate::text::{is_space, skip_space};

verus! {

/// The characters that are white space.
pub proof fn law_white_space(c: char)
    ensures
        is_space(c) <==> c == '\t' || c == '\n' || c == '\u{b}' || c == '\u{c}' || c == '\r' || c
            == ' ' || c == '\u{85}' || c == '\u{a0}' || c == '\u{1680}' || c == '\u{2000}' || c
            == '\u{2001}' || c == '\u{2002}' || c == '\u{2003}' || c == '\u{2004}' || c
            == '\u{2005}' || c == '\u{2006}' || c == '\u{2007}' || c == '\u{2008}' || c
            == '\u{2009}' || c == '\u{200a}' || c == '\u{2028}' || c == '\u{2029}' || c
            == '\u{202f}' || c == '\u{205f}' || c == '\u{3000}',
{
}

/// White space is skipped up to the first character that is none.
pub proof fn law_white_space_is_skipped(s: Seq<char>, i: int)
    requires
        0 <= i <= s.len(),
    ensures
        i <= skip_space(s, i) <= s.len(),
        forall|k: int| i <= k < skip_space(s, i) ==> is_space(#[trigger] s[k]),
        skip_space(s, i) < s.len() ==> !is_space(s[skip_space(s, i)]),
    decreases s.len() - i,
{
    if i < s.len() && is_space(s[i]) {
        law_white_space_is_skipped(s, i + 1);
    }
}

/// A digit of a number in base sixteen.
pub open spec fn is_sixteenth(c: char) -> bool {
    '0' <= c <= '9' || 'A' <= c <= 'F' || 'a' <= c <= 'f'
}

/// What one character of a string is written with: the character itself, a
/// backslash and a letter or mark, or a backslash, a `u` and four hexadecimal
/// digits.
pub open spec fn is_piece(p: Seq<char>) -> bool {
    ||| p.len() == 1 && p[0] != '"' && p[0] != '\\' && p[0] as u32 >= 0x20
    ||| p.len() == 2 && p[0] == '\\' && (p[1] == '"' || p[1] == '\\' || p[1] == '/' || p[1] == 'b'
        || p[1] == 'f' || p[1] == 'n' || p[1] == 'r' || p[1] == 't')
    ||| p.len() == 6 && p[0] == '\\' && p[1] == 'u' && is_sixteenth(p[2]) && is_sixteenth(p[3])
        && is_sixteenth(p[4]) && is_sixteenth(p[5])
}

/// The pieces one behind the other.
pub open spec fn joined(pieces: Seq<Seq<char>>) -> Seq<char>
    decreases pieces.len(),
{
    if pieces.len() == 0 {
        Seq::empty()
    } else {
        pieces[0] + joined(pieces.drop_first())
    }
}

/// The text is made of these pieces.
pub open spec fn spells(pieces: Seq<Seq<char>>, text: Seq<char>) -> bool {
    joined(pieces) == text && forall|k: int|
        0 <= k < pieces.len() ==> is_piece(#[trigger] pieces[k])
}

/// The text can stand between the quotes of a string.
pub open spec fn is_string_text(text: Seq<char>) -> bool {
    exists|pieces: Seq<Seq<char>>| spells(pieces, text)
}

/// A string with its quotes at `open` and `close`.
pub open spec fn is_string(s: Seq<char>, open: int, close: int) -> bool {
    &&& 0 <= open < close < s.len()
    &&& s[open] == '"'
    &&& s[close] == '"'
    &&& is_string_text(s.subrange(open + 1, close))
}

/// Only white space stands from `i` up to `j`.
pub open spec fn only_space(s: Seq<char>, i: int, j: int) -> bool {
    &&& 0 <= i <= j <= s.len()
    &&& forall|k: int|
        i <= k < j ==> #[trigger] s[k] == ' ' || s[k] == '\t' || s[k] == '\n' || s[k] == '\r'
}

/// A key, a colon and a value, with nothing but white space around them, from
/// `i` on.
#[verifier::opaque]
pub open spec fn is_member(s: Seq<char>, i: int, m: Member) -> bool {
    &&& only_space(s, i, m.key_open)
    &&& is_string(s, m.key_open, m.key_close)
    &&& only_space(s, m.key_close + 1, m.colon)
    &&& m.colon < s.len()
    &&& s[m.colon] == ':'
    &&& only_space(s, m.colon + 1, m.value_open)
    &&& is_string(s, m.value_open, m.value_close)
    &&& only_space(s, m.value_close + 1, m.end)
}

/// Where the `k`th of the members starts, the first of them at `i`.
pub open spec fn member_start(i: int, members: Seq<Member>, k: int) -> int {
    if k == 0 {
        i
    } else {
        members[k - 1].end + 1
    }
}

/// Members from `i` on with commas between them, the brace behind them at
/// `close`, and nothing but white space behind that.
pub open spec fn are_members(s: Seq<char>, i: int, members: Seq<Member>, close: int) -> bool {
    &&& members.len() > 0
    &&& members.last().end == close
    &&& 0 <= close < s.len()
    &&& s[close] == '}'
    &&& only_space(s, close + 1, s.len() as int)
    &&& forall|k: int|
        0 <= k < members.len() ==> is_member(s, member_start(i, members, k), #[trigger] members[k])
    &&& forall|k: int|
        0 <= k < members.len() - 1 ==> (#[trigger] members[k]).end < s.len() && s[members[k].end]
            == ','
}

/// An object of these members, its braces at `open` and `close`.
pub open spec fn is_object(s: Seq<char>, open: int, close: int, members: Seq<Member>) -> bool {
    &&& open < close < s.len()
    &&& only_space(s, 0, open)
    &&& s[open] == '{'
    &&& if members.len() == 0 {
        only_space(s, open + 1, close) && s[close] == '}' && only_space(
            s,
            close + 1,
            s.len() as int,
        )
    } else {
        are_members(s, open + 1, members, close)
    }
}

/// A string is closed by the first quote behind whole pieces.
pub proof fn law_string_is_closed(s: Seq<char>, i: int, j: int, pieces: Seq<Seq<char>>)
    requires
        0 <= i <= j < s.len(),
        s[j] == '"',
        spells(pieces, s.subrange(i, j)),
    ensures
        string_close(s, i) == Some(j),
    decreases pieces.len(),
{
    let text = s.subrange(i, j);
    if pieces.len() == 0 {
        assert(text.len() == 0);
    } else {
        let p = pieces[0];
        let others = pieces.drop_first();
        let n = p.len() as int;
        assert(text == p + joined(others));
        assert(is_piece(p));
        assert forall|k: int| 0 <= k < n implies s[i + k] == #[trigger] p[k] by {
            assert(text[k] == s[i + k]);
        }
        assert(s[i] == p[0]);
        if n == 2 {
            assert(s[i + 1] == p[1]);
        }
        if n == 6 {
            assert(s[i + 1] == p[1] && s[i + 2] == p[2] && s[i + 3] == p[3] && s[i + 4] == p[4]
                && s[i + 5] == p[5]);
        }
        assert(s.subrange(i + n, j) =~= joined(others)) by {
            assert(text.len() == n + joined(others).len());
            assert forall|k: int| 0 <= k < joined(others).len() implies s[i + n + k]
                == #[trigger] joined(others)[k] by {
                assert(text[n + k] == s[i + n + k]);
            }
        }
        assert forall|k: int| 0 <= k < others.len() implies is_piece(#[trigger] others[k]) by {
            assert(others[k] == pieces[k + 1]);
        }
        law_string_is_closed(s, i + n, j, others);
    }
}

/// What stands before a closing quote is made of whole pieces.
proof fn lemma_pieces_of(s: Seq<char>, i: int) -> (pieces: Seq<Seq<char>>)
    requires
        0 <= i,
        string_close(s, i) is Some,
    ensures
        i <= string_close(s, i)->0 < s.len(),
        s[string_close(s, i)->0] == '"',
        spells(pieces, s.subrange(i, string_close(s, i)->0)),
    decreases s.len() - i,
{
    let j = string_close(s, i)->0;
    if s[i] == '"' {
        assert(s.subrange(i, j) =~= Seq::<char>::empty());
        Seq::empty()
    } else {
        let n: int = if s[i] == '\\' {
            escape_len(s, i)
        } else {
            1
        };
        let others = lemma_pieces_of(s, i + n);
        let p = s.subrange(i, i + n);
        let pieces = seq![p] + others;
        assert(pieces.drop_first() =~= others);
        assert(s.subrange(i, j) =~= p + s.subrange(i + n, j));
        assert(is_piece(p)) by {
            assert(p[0] == s[i]);
            if s[i] == '\\' {
                assert(p[1] == s[i + 1]);
                if n == 6 {
                    assert(p[2] == s[i + 2] && p[3] == s[i + 3] && p[4] == s[i + 4] && p[5] == s[i
                        + 5]);
                }
            }
        }
        assert forall|k: int| 0 <= k < pieces.len() implies is_piece(#[trigger] pieces[k]) by {
            if k > 0 {
                assert(pieces[k] == others[k - 1]);
            }
        }
        pieces
    }
}

proof fn lemma_space_ends(s: Seq<char>, i: int, j: int)
    requires
        only_space(s, i, j),
        j < s.len() ==> !is_json_space(s[j]),
    ensures
        past_space(s, i) == j,
    decreases j - i,
{
    if i < j {
        assert(is_json_space(s[i]));
        lemma_space_ends(s, i + 1, j);
    }
}

proof fn lemma_is_only_space(s: Seq<char>, i: int)
    requires
        0 <= i <= s.len(),
    ensures
        only_space(s, i, past_space(s, i)),
{
    lemma_past_space(s, i);
    assert forall|k: int| i <= k < past_space(s, i) implies #[trigger] s[k] == ' ' || s[k] == '\t'
        || s[k] == '\n' || s[k] == '\r' by {
        assert(is_json_space(s[k]));
    }
}

proof fn lemma_string_read(s: Seq<char>, open: int, close: int)
    requires
        is_string(s, open, close),
    ensures
        string_close(s, open + 1) == Some(close),
{
    let text = s.subrange(open + 1, close);
    let pieces = choose|pieces: Seq<Seq<char>>| spells(pieces, text);
    law_string_is_closed(s, open + 1, close, pieces);
}

proof fn lemma_string_written(s: Seq<char>, open: int)
    requires
        0 <= open < s.len(),
        s[open] == '"',
        string_close(s, open + 1) is Some,
    ensures
        is_string(s, open, string_close(s, open + 1)->0),
{
    let pieces = lemma_pieces_of(s, open + 1);
    assert(spells(pieces, s.subrange(open + 1, string_close(s, open + 1)->0)));
}

proof fn lemma_member_read(s: Seq<char>, i: int, m: Member)
    requires
        is_member(s, i, m),
        m.end < s.len(),
        !is_json_space(s[m.end]),
    ensures
        0 <= i < m.end,
        member_from(s, i) == Some(m),
{
    reveal(is_member);
    lemma_space_ends(s, i, m.key_open);
    lemma_string_read(s, m.key_open, m.key_close);
    lemma_space_ends(s, m.key_close + 1, m.colon);
    lemma_space_ends(s, m.colon + 1, m.value_open);
    lemma_string_read(s, m.value_open, m.value_close);
    lemma_space_ends(s, m.value_close + 1, m.end);
}

proof fn lemma_member_written(s: Seq<char>, i: int)
    requires
        0 <= i <= s.len(),
        member_from(s, i) is Some,
    ensures
        is_member(s, i, member_from(s, i)->0),
{
    reveal(is_member);
    let m = member_from(s, i)->0;
    lemma_member_from(s, i);
    lemma_is_only_space(s, i);
    lemma_string_written(s, m.key_open);
    lemma_is_only_space(s, m.key_close + 1);
    lemma_is_only_space(s, m.colon + 1);
    lemma_string_written(s, m.value_open);
    lemma_is_only_space(s, m.value_close + 1);
}

proof fn lemma_members_read(s: Seq<char>, i: int, members: Seq<Member>, close: int)
    requires
        are_members(s, i, members, close),
    ensures
        members_from(s, i) == Some(members),
    decreases members.len(),
{
    let m = members[0];
    assert(is_member(s, member_start(i, members, 0), members[0]));
    if members.len() == 1 {
        assert(members.last() == m);
        lemma_member_read(s, i, m);
        lemma_space_ends(s, close + 1, s.len() as int);
        assert(closes_at(s, m.end));
        assert(members =~= seq![m]);
    } else {
        lemma_member_read(s, i, m);
        let others = members.drop_first();
        assert forall|k: int| 0 <= k < others.len() implies is_member(
            s,
            member_start(m.end + 1, others, k),
            #[trigger] others[k],
        ) by {
            assert(others[k] == members[k + 1]);
            assert(member_start(m.end + 1, others, k) == member_start(i, members, k + 1));
        }
        assert forall|k: int| 0 <= k < others.len() - 1 implies (#[trigger] others[k]).end
            < s.len() && s[others[k].end] == ',' by {
            assert(others[k] == members[k + 1]);
        }
        assert(others.last() == members.last());
        lemma_members_read(s, m.end + 1, others, close);
        assert(members =~= seq![m] + others);
        assert(members[0].end < s.len() && s[m.end] == ',');
    }
}

proof fn lemma_members_written(s: Seq<char>, i: int) -> (close: int)
    requires
        0 <= i <= s.len(),
        members_from(s, i) is Some,
    ensures
        are_members(s, i, members_from(s, i)->0, close),
        i < close,
    decreases s.len() - i,
{
    let members = members_from(s, i)->0;
    let m = member_from(s, i)->0;
    lemma_member_from(s, i);
    lemma_member_written(s, i);
    if closes_at(s, m.end) {
        lemma_is_only_space(s, m.end + 1);
        lemma_past_space(s, m.end + 1);
        assert(members == seq![m]);
        m.end
    } else {
        let others = members_from(s, m.end + 1)->0;
        let close = lemma_members_written(s, m.end + 1);
        assert(members == seq![m] + others);
        assert(members.last() == others.last());
        assert forall|k: int| 0 <= k < members.len() implies is_member(
            s,
            member_start(i, members, k),
            #[trigger] members[k],
        ) by {
            if k > 0 {
                assert(members[k] == others[k - 1]);
                assert(is_member(s, member_start(m.end + 1, others, k - 1), others[k - 1]));
                assert(member_start(m.end + 1, others, k - 1) == member_start(i, members, k));
            }
        }
        assert forall|k: int| 0 <= k < members.len() - 1 implies (#[trigger] members[k]).end
            < s.len() && s[members[k].end] == ',' by {
            if k > 0 {
                assert(members[k] == others[k - 1]);
            }
        }
        close
    }
}

/// A text has members exactly if it is an object of strings: keys and values
/// with a colon between them, commas between the members, braces around them
/// all, and white space wherever no string goes on.
pub proof fn law_flat_objects(s: Seq<char>, members: Seq<Member>)
    ensures
        flat_members(s) == Some(members) <==> exists|open: int, close: int|
            #[trigger] is_object(s, open, close, members),
{
    if flat_members(s) == Some(members) {
        let open = past_space(s, 0);
        lemma_is_only_space(s, 0);
        lemma_is_only_space(s, open + 1);
        let next = past_space(s, open + 1);
        if closes_at(s, next) {
            lemma_is_only_space(s, next + 1);
            assert(is_object(s, open, next, members));
        } else {
            let close = lemma_members_written(s, open + 1);
            assert(is_object(s, open, close, members));
        }
    }
    if exists|open: int, close: int| #[trigger] is_object(s, open, close, members) {
        let (open, close) = choose|open: int, close: int|
            #[trigger] is_object(s, open, close, members);
        lemma_space_ends(s, 0, open);
        if members.len() == 0 {
            lemma_space_ends(s, open + 1, close);
            lemma_space_ends(s, close + 1, s.len() as int);
            assert(members =~= Seq::<Member>::empty());
        } else {
            assert(is_member(s, member_start(open + 1, members, 0), members[0]));
            reveal(is_member);
            lemma_space_ends(s, open + 1, members[0].key_open);
            lemma_members_read(s, open + 1, members, close);
        }
    }
}

} // verus!
