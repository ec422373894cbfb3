//! Text helpers.

use vstd::prelude::*;

verus! {

/// The number in decimal digits, without leading zeros.
pub open spec fn decimal(n: nat) -> Seq<char>
    decreases n,
{
    let digit = (('0' as u32 + n % 10) as u32) as char;
    if n < 10 {
        seq![digit]
    } else {
        decimal(n / 10).push(digit)
    }
}

/// [`String::push`]: appends the character at the end.
pub assume_specification[ String::push ](s: &mut String, c: char)
    ensures
        final(s)@ == old(s)@.push(c),
;

fn digit(d: u8) -> (c: char)
    requires
        d < 10,
    ensures
        c == (('0' as u32 + d) as u32) as char,
{
    (48 + d) as char
}

/// Appends the number in decimal.
pub fn push_decimal(out: &mut String, n: u8)
    ensures
        final(out)@ == old(out)@ + decimal(n as nat),
{
    proof {
        reveal_with_fuel(decimal, 3);
    }
    if n >= 100 {
        out.push(digit(n / 100));
    }
    if n >= 10 {
        out.push(digit(n / 10 % 10));
    }
    out.push(digit(n % 10));
}

/// The characters of a string slice.
pub fn chars_of(s: &str) -> (v: Vec<char>)
    ensures
        v@ == s@,
{
    let mut v: Vec<char> = Vec::new();
    for c in it: s.chars()
        invariant
            v@ == s@.take(it.index()),
            it.seq() == s@,
    {
        proof {
            assert(s@.take(it.index() + 1) =~= s@.take(it.index()).push(c));
        }
        v.push(c);
    }
    assert(s@.take(s@.len() as int) =~= s@);
    v
}

/// Whether two string slices hold the same text.
pub fn str_eq(a: &str, b: &str) -> (r: bool)
    ensures
        r == (a@ == b@),
{
    proof {
        vstd::utf8::encode_utf8_decode_utf8(a@);
        vstd::utf8::encode_utf8_decode_utf8(b@);
    }
    let x: &[u8] = a.as_bytes();
    let y: &[u8] = b.as_bytes();
    if x.len() != y.len() {
        return false;
    }
    let mut i: usize = 0;
    while i < x.len()
        invariant
            i <= x@.len(),
            x@.len() == y@.len(),
            x@ == vstd::utf8::encode_utf8(a@),
            y@ == vstd::utf8::encode_utf8(b@),
            forall|j: int| 0 <= j < i ==> x@[j] == y@[j],
        decreases x@.len() - i,
    {
        if x[i] != y[i] {
            return false;
        }
        i = i + 1;
    }
    assert(x@ =~= y@);
    true
}

/// Unicode white space.
pub open spec fn is_space(c: char) -> bool {
    let n = c as u32;
    ||| 0x9 <= n <= 0xd
    ||| n == 0x20 || n == 0x85 || n == 0xa0 || n == 0x1680
    ||| 0x2000 <= n <= 0x200a
    ||| n == 0x2028 || n == 0x2029 || n == 0x202f || n == 0x205f || n == 0x3000
}

/// The first position from `i` on that does not hold white space.
pub open spec fn skip_space(s: Seq<char>, i: int) -> int
    decreases s.len() - i,
{
    if i < s.len() && is_space(s[i]) {
        skip_space(s, i + 1)
    } else {
        i
    }
}

/// The first position from `i` on at which `needle` stands in `s`.
pub open spec fn find_from(s: Seq<char>, needle: Seq<char>, i: int) -> Option<int>
    decreases s.len() + 1 - i,
{
    if i + needle.len() > s.len() {
        None
    } else if s.subrange(i, i + needle.len()) == needle {
        Some(i)
    } else {
        find_from(s, needle, i + 1)
    }
}

/// Whether the character is Unicode white space.
pub fn is_white_space(c: char) -> (r: bool)
    ensures
        r == is_space(c),
{
    let n: u32 = c as u32;
    (0x9 <= n && n <= 0xd) || n == 0x20 || n == 0x85 || n == 0xa0 || n == 0x1680 || (0x2000 <= n
        && n <= 0x200a) || n == 0x2028 || n == 0x2029 || n == 0x202f || n == 0x205f || n == 0x3000
}

/// The first position from `from` on that does not hold white space.
pub fn skip_white_space(s: &Vec<char>, from: usize) -> (r: usize)
    requires
        from <= s@.len(),
    ensures
        r == skip_space(s@, from as int),
        from <= r <= s@.len(),
{
    let mut i: usize = from;
    while i < s.len() && is_white_space(s[i])
        invariant
            from <= i <= s@.len(),
            skip_space(s@, from as int) == skip_space(s@, i as int),
        decreases s@.len() - i,
    {
        i = i + 1;
    }
    i
}

/// Whether `needle` stands at position `i` of `s`.
fn stands_at(s: &Vec<char>, needle: &Vec<char>, i: usize) -> (r: bool)
    requires
        i + needle@.len() <= s@.len(),
    ensures
        r == (s@.subrange(i as int, i + needle@.len()) == needle@),
{
    let total: usize = s.len();
    let mut j: usize = 0;
    while j < needle.len()
        invariant
            j <= needle@.len(),
            i + needle@.len() <= s@.len() == total,
            forall|k: int| 0 <= k < j ==> s@[i + k] == needle@[k],
        decreases needle@.len() - j,
    {
        if s[i + j] != needle[j] {
            assert(s@.subrange(i as int, i + needle@.len())[j as int] != needle@[j as int]);
            return false;
        }
        j = j + 1;
    }
    assert(s@.subrange(i as int, i + needle@.len()) =~= needle@);
    true
}

/// The first position from `from` on at which `needle` stands in `s`.
pub fn find_chars(s: &Vec<char>, needle: &Vec<char>, from: usize) -> (r: Option<usize>)
    requires
        from <= s@.len(),
    ensures
        match r {
            Some(i) => find_from(s@, needle@, from as int) == Some(i as int) && from <= i && i
                + needle@.len() <= s@.len(),
            None => find_from(s@, needle@, from as int) is None,
        },
{
    let mut i: usize = from;
    while s.len() - i >= needle.len()
        invariant
            from <= i <= s@.len(),
            find_from(s@, needle@, from as int) == find_from(s@, needle@, i as int),
        decreases s@.len() - i,
    {
        if stands_at(s, needle, i) {
            return Some(i);
        }
        proof {
            if needle@.len() == 0 {
                assert(s@.subrange(i as int, i as int) =~= needle@);
            }
        }
        i = i + 1;
    }
    None
}

/// The first position from `i` on that holds the separator; the length of the
/// text if none does.
pub open spec fn cut(s: Seq<char>, sep: char, i: int) -> int
    decreases s.len() - i,
{
    if i < s.len() && s[i] != sep {
        cut(s, sep, i + 1)
    } else {
        i
    }
}

/// The parts of the text from `i` on, between separators.
pub open spec fn parts_from(s: Seq<char>, sep: char, i: int) -> Seq<Seq<char>>
    decreases s.len() - i,
    when i <= s.len()
    via parts_from_decreases
{
    let end = cut(s, sep, i);
    if end >= s.len() {
        seq![s.subrange(i, s.len() as int)]
    } else {
        seq![s.subrange(i, end)] + parts_from(s, sep, end + 1)
    }
}

#[via_fn]
proof fn parts_from_decreases(s: Seq<char>, sep: char, i: int) {
    lemma_cut(s, sep, i);
}

/// A cut does not lie before where the search starts, nor beyond the end.
pub proof fn lemma_cut(s: Seq<char>, sep: char, i: int)
    requires
        i <= s.len(),
    ensures
        i <= cut(s, sep, i) <= s.len(),
        cut(s, sep, i) < s.len() && 0 <= i ==> s[cut(s, sep, i)] == sep,
        forall|j: int| i <= j < cut(s, sep, i) ==> s[j] != sep,
    decreases s.len() - i,
{
    if i < s.len() && s[i] != sep {
        lemma_cut(s, sep, i + 1);
    }
}

/// The first position from `from` on that holds the separator; the length of
/// the text if none does.
pub fn cut_at(s: &Vec<char>, sep: char, from: usize) -> (r: usize)
    requires
        from <= s@.len(),
    ensures
        r == cut(s@, sep, from as int),
        from <= r <= s@.len(),
{
    let mut i: usize = from;
    while i < s.len() && s[i] != sep
        invariant
            from <= i <= s@.len(),
            cut(s@, sep, from as int) == cut(s@, sep, i as int),
        decreases s@.len() - i,
    {
        i = i + 1;
    }
    i
}

/// The search finds the first place at which the needle stands, if there is one.
pub proof fn law_find_first(s: Seq<char>, needle: Seq<char>, i: int)
    requires
        0 <= i,
    ensures
        match find_from(s, needle, i) {
            Some(j) => i <= j && j + needle.len() <= s.len() && s.subrange(j, j + needle.len())
                == needle && forall|k: int|
                i <= k < j ==> #[trigger] s.subrange(k, k + needle.len()) != needle,
            None => forall|k: int|
                i <= k && k + needle.len() <= s.len() ==> #[trigger] s.subrange(
                    k,
                    k + needle.len(),
                ) != needle,
        },
    decreases s.len() + 1 - i,
{
    if i + needle.len() <= s.len() && s.subrange(i, i + needle.len()) != needle {
        law_find_first(s, needle, i + 1);
    }
}

/// Text without the separator in front of a separator is the first part.
proof fn lemma_cut_found(s: Seq<char>, sep: char, i: int, j: int)
    requires
        0 <= i <= j <= s.len(),
        forall|k: int| i <= k < j ==> s[k] != sep,
        j < s.len() ==> s[j] == sep,
    ensures
        cut(s, sep, i) == j,
    decreases j - i,
{
    if i < j {
        lemma_cut_found(s, sep, i + 1, j);
    }
}

/// A part without separators that is put behind a text, with a separator
/// between, becomes the last part.
pub proof fn lemma_append_part(s: Seq<char>, sep: char, t: Seq<char>, i: int)
    requires
        0 <= i <= s.len(),
        forall|k: int| 0 <= k < t.len() ==> t[k] != sep,
    ensures
        parts_from(s + seq![sep] + t, sep, i) == parts_from(s, sep, i).push(t),
    decreases s.len() - i,
{
    let longer = s + seq![sep] + t;
    let n = s.len() as int;
    lemma_cut(s, sep, i);
    let end = cut(s, sep, i);
    lemma_cut_found(longer, sep, i, end);
    assert(longer.subrange(i, end) =~= s.subrange(i, end));
    if end < n {
        lemma_append_part(s, sep, t, end + 1);
        assert(parts_from(longer, sep, i) =~= parts_from(s, sep, i).push(t));
    } else {
        lemma_cut_found(longer, sep, n + 1, longer.len() as int);
        assert(longer.subrange(n + 1, longer.len() as int) =~= t);
        assert(parts_from(longer, sep, n + 1) == seq![t]);
        assert(parts_from(longer, sep, i) == seq![longer.subrange(i, n)] + parts_from(
            longer,
            sep,
            n + 1,
        ));
        assert(parts_from(s, sep, i) == seq![s.subrange(i, n)]);
        assert(parts_from(longer, sep, i) =~= parts_from(s, sep, i).push(t));
    }
}

/// The parts of a text, put together with separators, are the text.
pub proof fn law_parts_make_up_text(s: Seq<char>, sep: char, i: int)
    requires
        0 <= i <= s.len(),
    ensures
        joined(parts_from(s, sep, i), sep) == s.skip(i),
        parts_from(s, sep, i).len() >= 1,
    decreases s.len() - i,
{
    lemma_cut(s, sep, i);
    let end = cut(s, sep, i);
    let parts = parts_from(s, sep, i);
    if end < s.len() {
        law_parts_make_up_text(s, sep, end + 1);
        assert(parts.drop_first() =~= parts_from(s, sep, end + 1));
        assert(joined(parts, sep) =~= s.skip(i));
    } else {
        assert(parts[0] =~= s.skip(i));
    }
}

/// Texts put together, the separator between them.
pub open spec fn joined(parts: Seq<Seq<char>>, sep: char) -> Seq<char>
    decreases parts.len(),
{
    if parts.len() == 0 {
        Seq::empty()
    } else if parts.len() == 1 {
        parts[0]
    } else {
        parts[0] + seq![sep] + joined(parts.drop_first(), sep)
    }
}

} // verus!
