//! The grammar of flat JSON objects of strings, such as
//! `{"zh":"…","en":"…"}`.

use vstd::prelude::*;

verus! {

/// White space between JSON tokens.
pub open spec fn is_json_space(c: char) -> bool {
    c == ' ' || c == '\t' || c == '\n' || c == '\r'
}

/// The first position from `i` on that does not hold white space.
pub open spec fn past_space(s: Seq<char>, i: int) -> int
    decreases s.len() - i,
{
    if i < s.len() && is_json_space(s[i]) {
        past_space(s, i + 1)
    } else {
        i
    }
}

/// A hexadecimal digit.
pub open spec fn is_hex(c: char) -> bool {
    '0' <= c <= '9' || 'a' <= c <= 'f' || 'A' <= c <= 'F'
}

/// A character that stands for itself or for a control character behind a
/// backslash.
pub open spec fn is_escapable(c: char) -> bool {
    c == '"' || c == '\\' || c == '/' || c == 'b' || c == 'f' || c == 'n' || c == 'r' || c == 't'
}

/// The length of the escape whose backslash stands at `i`; zero for none.
pub open spec fn escape_len(s: Seq<char>, i: int) -> int {
    if i + 1 < s.len() && is_escapable(s[i + 1]) {
        2
    } else if i + 5 < s.len() && s[i + 1] == 'u' && is_hex(s[i + 2]) && is_hex(s[i + 3]) && is_hex(
        s[i + 4],
    ) && is_hex(s[i + 5]) {
        6
    } else {
        0
    }
}

/// The closing quote of a string, its characters from `i` on still to be read.
pub open spec fn string_close(s: Seq<char>, i: int) -> Option<int>
    decreases s.len() - i,
{
    if i >= s.len() {
        None
    } else if s[i] == '"' {
        Some(i)
    } else if s[i] == '\\' {
        if escape_len(s, i) == 0 {
            None
        } else {
            string_close(s, i + escape_len(s, i))
        }
    } else if (s[i] as u32) < 0x20 {
        None
    } else {
        string_close(s, i + 1)
    }
}

/// Where the tokens of a member stand: the quotes of its key, the colon, the
/// quotes of its value, and the token behind it.
pub ghost struct Member {
    pub key_open: int,
    pub key_close: int,
    pub colon: int,
    pub value_open: int,
    pub value_close: int,
    pub end: int,
}

/// The member from `i` on.
pub open spec fn member_from(s: Seq<char>, i: int) -> Option<Member> {
    let key_open = past_space(s, i);
    if key_open >= s.len() || s[key_open] != '"' {
        None
    } else {
        match string_close(s, key_open + 1) {
            None => None,
            Some(key_close) => {
                let colon = past_space(s, key_close + 1);
                let value_open = past_space(s, colon + 1);
                if colon >= s.len() || s[colon] != ':' {
                    None
                } else if value_open >= s.len() || s[value_open] != '"' {
                    None
                } else {
                    match string_close(s, value_open + 1) {
                        None => None,
                        Some(value_close) => Some(
                            Member {
                                key_open,
                                key_close,
                                colon,
                                value_open,
                                value_close,
                                end: past_space(s, value_close + 1),
                            },
                        ),
                    }
                }
            },
        }
    }
}

/// The object ends with the brace at `i`, and the text with the object.
pub open spec fn closes_at(s: Seq<char>, i: int) -> bool {
    i < s.len() && s[i] == '}' && past_space(s, i + 1) >= s.len()
}

/// The members from `i` to the end of the object, commas between them.
pub open spec fn members_from(s: Seq<char>, i: int) -> Option<Seq<Member>>
    decreases s.len() - i,
    when 0 <= i
    via members_from_decreases
{
    match member_from(s, i) {
        None => None,
        Some(m) => if closes_at(s, m.end) {
            Some(seq![m])
        } else if m.end < s.len() && s[m.end] == ',' {
            match members_from(s, m.end + 1) {
                Some(others) => Some(seq![m] + others),
                None => None,
            }
        } else {
            None
        },
    }
}

#[via_fn]
proof fn members_from_decreases(s: Seq<char>, i: int) {
    lemma_member_from(s, i);
}

/// The members of a flat object of strings; nothing for any other text.
pub open spec fn flat_members(s: Seq<char>) -> Option<Seq<Member>> {
    let open = past_space(s, 0);
    if open >= s.len() || s[open] != '{' {
        None
    } else if closes_at(s, past_space(s, open + 1)) {
        Some(Seq::empty())
    } else {
        members_from(s, open + 1)
    }
}

/// What is skipped is white space.
pub proof fn lemma_past_space(s: Seq<char>, i: int)
    requires
        0 <= i <= s.len(),
    ensures
        i <= past_space(s, i) <= s.len(),
        forall|k: int| i <= k < past_space(s, i) ==> is_json_space(#[trigger] s[k]),
    decreases s.len() - i,
{
    if i < s.len() && is_json_space(s[i]) {
        lemma_past_space(s, i + 1);
    }
}

proof fn lemma_string_close(s: Seq<char>, i: int)
    requires
        0 <= i,
    ensures
        string_close(s, i) matches Some(j) ==> i <= j < s.len() && s[j] == '"',
    decreases s.len() - i,
{
    if i < s.len() && s[i] != '"' {
        if s[i] == '\\' {
            if escape_len(s, i) != 0 {
                lemma_string_close(s, i + escape_len(s, i));
            }
        } else {
            lemma_string_close(s, i + 1);
        }
    }
}

/// The tokens of a member stand in order, with white space between them.
pub proof fn lemma_member_from(s: Seq<char>, i: int)
    requires
        0 <= i,
    ensures
        member_from(s, i) matches Some(m) ==> {
            &&& i <= m.key_open < m.key_close < m.colon < m.value_open < m.value_close < m.end
                <= s.len()
            &&& s[m.key_open] == '"'
            &&& s[m.key_close] == '"'
            &&& s[m.colon] == ':'
            &&& s[m.value_open] == '"'
            &&& s[m.value_close] == '"'
            &&& forall|k: int| i <= k < m.key_open ==> is_json_space(#[trigger] s[k])
            &&& forall|k: int| m.key_close < k < m.colon ==> is_json_space(#[trigger] s[k])
            &&& forall|k: int| m.colon < k < m.value_open ==> is_json_space(#[trigger] s[k])
            &&& forall|k: int| m.value_close < k < m.end ==> is_json_space(#[trigger] s[k])
        },
{
    if let Some(m) = member_from(s, i) {
        if i <= s.len() {
            lemma_past_space(s, i);
        }
        lemma_string_close(s, m.key_open + 1);
        lemma_past_space(s, m.key_close + 1);
        lemma_past_space(s, m.colon + 1);
        lemma_string_close(s, m.value_open + 1);
        lemma_past_space(s, m.value_close + 1);
    }
}

fn skip_json_space(s: &Vec<char>, from: usize) -> (r: usize)
    requires
        from <= s@.len(),
    ensures
        r == past_space(s@, from as int),
        from <= r <= s@.len(),
{
    let mut i: usize = from;
    while i < s.len() && (s[i] == ' ' || s[i] == '\t' || s[i] == '\n' || s[i] == '\r')
        invariant
            from <= i <= s@.len(),
            past_space(s@, from as int) == past_space(s@, i as int),
        decreases s@.len() - i,
    {
        i = i + 1;
    }
    i
}

fn is_hex_digit(c: char) -> (r: bool)
    ensures
        r == is_hex(c),
{
    ('0' <= c && c <= '9') || ('a' <= c && c <= 'f') || ('A' <= c && c <= 'F')
}

/// The length of the escape whose backslash stands at `i`; zero for none.
fn escape_at(s: &Vec<char>, i: usize) -> (r: usize)
    requires
        i < s@.len(),
    ensures
        r == escape_len(s@, i as int),
        i + r <= s@.len(),
{
    let left: usize = s.len() - i;
    if left < 2 {
        return 0;
    }
    let c: char = s[i + 1];
    if c == '"' || c == '\\' || c == '/' || c == 'b' || c == 'f' || c == 'n' || c == 'r' || c
        == 't' {
        2
    } else if left > 5 && c == 'u' && is_hex_digit(s[i + 2]) && is_hex_digit(s[i + 3])
        && is_hex_digit(s[i + 4]) && is_hex_digit(s[i + 5]) {
        6
    } else {
        0
    }
}

/// The closing quote of a string whose characters start at `from`.
fn find_close(s: &Vec<char>, from: usize) -> (r: Option<usize>)
    requires
        from <= s@.len(),
    ensures
        match r {
            Some(j) => string_close(s@, from as int) == Some(j as int) && j < s@.len(),
            None => string_close(s@, from as int) is None,
        },
{
    let mut i: usize = from;
    while i < s.len()
        invariant
            from <= i <= s@.len(),
            string_close(s@, from as int) == string_close(s@, i as int),
        decreases s@.len() - i,
    {
        let c: char = s[i];
        if c == '"' {
            return Some(i);
        }
        if c == '\\' {
            let n: usize = escape_at(s, i);
            if n == 0 {
                return None;
            }
            i = i + n;
        } else {
            if (c as u32) < 0x20 {
                return None;
            }
            i = i + 1;
        }
    }
    None
}

/// The string whose opening quote is the next token: its closing quote.
fn read_string(s: &Vec<char>, from: usize) -> (r: Option<usize>)
    requires
        from <= s@.len(),
    ensures
        ({
            let open = past_space(s@, from as int);
            let close = if open >= s@.len() || s@[open] != '"' {
                None
            } else {
                string_close(s@, open + 1)
            };
            match r {
                Some(j) => close == Some(j as int) && j < s@.len(),
                None => close is None,
            }
        }),
{
    let open: usize = skip_json_space(s, from);
    if open >= s.len() || s[open] != '"' {
        return None;
    }
    find_close(s, open + 1)
}

/// The token behind the member from `from` on.
fn member_end(s: &Vec<char>, from: usize) -> (r: Option<usize>)
    requires
        from <= s@.len(),
    ensures
        match r {
            Some(end) => member_from(s@, from as int) is Some && member_from(
                s@,
                from as int,
            )->0.end == end && from < end <= s@.len(),
            None => member_from(s@, from as int) is None,
        },
{
    proof {
        lemma_member_from(s@, from as int);
    }
    let total: usize = s.len();
    let key_close: usize = match read_string(s, from) {
        Some(i) => i,
        None => {
            return None;
        },
    };
    let colon: usize = skip_json_space(s, key_close + 1);
    if colon >= total || s[colon] != ':' {
        return None;
    }
    let value_close: usize = match read_string(s, colon + 1) {
        Some(i) => i,
        None => {
            return None;
        },
    };
    Some(skip_json_space(s, value_close + 1))
}

/// Whether the object ends with the brace at `i`, and the text with the object.
fn ends_at(s: &Vec<char>, i: usize) -> (r: bool)
    requires
        i <= s@.len(),
    ensures
        r == closes_at(s@, i as int),
{
    i < s.len() && s[i] == '}' && skip_json_space(s, i + 1) >= s.len()
}

/// Whether the text is a flat object of strings.
pub fn is_flat_object(s: &Vec<char>) -> (r: bool)
    ensures
        r == (flat_members(s@) is Some),
{
    let open: usize = skip_json_space(s, 0);
    if open >= s.len() || s[open] != '{' {
        return false;
    }
    if ends_at(s, skip_json_space(s, open + 1)) {
        return true;
    }
    let mut i: usize = open + 1;
    loop
        invariant
            i <= s@.len(),
            flat_members(s@) is Some == members_from(s@, i as int) is Some,
        decreases s@.len() - i,
    {
        let end: usize = match member_end(s, i) {
            Some(end) => end,
            None => {
                return false;
            },
        };
        if ends_at(s, end) {
            return true;
        }
        if end >= s.len() || s[end] != ',' {
            return false;
        }
        i = end + 1;
    }
}

} // verus!
