//! Reader for the FlatBuffers division chunks of the polygon slab.
//!
//! FlatBuffers binary layout (all integers little-endian):
//!
//! - size-prefixed root: buffer size (4), forward offset to the root table
//!   (4), counted from the offset's own position;
//! - table at position T: signed backward offset to its vtable (4);
//! - vtable: vtable size (2), object size (2), then for each field its offset
//!   from T (2), zero where the field is absent;
//! - string: length (4), bytes;
//! - vector: count (4), elements; in a vector of tables each element is a
//!   forward offset (4) from its own position.
//!
//! A read outside the buffer finds nothing, and so does a position that does
//! not fit in `usize`.

use vstd::prelude::*;
use vstd::utf8::{decode_utf8, valid_utf8};

use crate::bytes::{i32_le, le16, le32, signed32, u16_le, u32_le};
use crate::json::{flat_members, is_flat_object};
use crate::ring::{decode_ring, law_ring_is_closed, ring, Point};
use crate::text::{
    chars_of, find_chars, find_from, is_space, law_find_first, skip_space, skip_white_space,
};

verus! {

/// Field of a division that holds its identifier.
pub const FIELD_ID: u16 = 0;

/// Field of a division that holds its primary name.
pub const FIELD_NAME: u16 = 2;

/// Field of a division that holds its polygons.
pub const FIELD_POLYGONS: u16 = 9;

/// Field of a division that holds its names by language, a JSON object.
pub const FIELD_NAMES_COMMON: u16 = 10;

/// The `len` bytes from `pos` on, where all of them are in the buffer.
pub open spec fn bytes_at(buf: Seq<u8>, pos: int, len: int) -> Option<Seq<u8>> {
    if 0 <= pos && 0 <= len && pos + len <= buf.len() {
        Some(buf.subrange(pos, pos + len))
    } else {
        None
    }
}

/// The unsigned 16-bit integer at `pos`.
pub open spec fn u16_in(buf: Seq<u8>, pos: int) -> Option<int> {
    if 0 <= pos && pos + 2 <= buf.len() {
        Some(le16(buf, pos))
    } else {
        None
    }
}

/// The unsigned 32-bit integer at `pos`.
pub open spec fn u32_in(buf: Seq<u8>, pos: int) -> Option<int> {
    if 0 <= pos && pos + 4 <= buf.len() {
        Some(le32(buf, pos))
    } else {
        None
    }
}

/// A position that an index can express.
pub open spec fn position(p: int) -> Option<int> {
    if p <= usize::MAX {
        Some(p)
    } else {
        None
    }
}

/// Where the forward offset stored at `pos` leads.
pub open spec fn follow(buf: Seq<u8>, pos: int) -> Option<int> {
    match u32_in(buf, pos) {
        Some(offset) => position(pos + offset),
        None => None,
    }
}

/// Position of the root table.
pub open spec fn root_table(chunk: Seq<u8>) -> Option<int> {
    follow(chunk, 4)
}

/// Position of the data of a table's field, where the field is present.
pub open spec fn field_data(buf: Seq<u8>, table: int, field: int) -> Option<int> {
    match u32_in(buf, table) {
        None => None,
        Some(backward) => {
            let vtable = table - signed32(backward);
            let slot = 4 + 2 * field;
            match u16_in(buf, vtable) {
                None => None,
                Some(size) => if slot + 2 > size {
                    None
                } else {
                    match u16_in(buf, vtable + slot) {
                        None => None,
                        Some(offset) => if offset == 0 {
                            None
                        } else {
                            position(table + offset)
                        },
                    }
                },
            }
        },
    }
}

/// Position of the table, string or vector that a field refers to.
pub open spec fn field_target(buf: Seq<u8>, table: int, field: int) -> Option<int> {
    match field_data(buf, table, field) {
        Some(slot) => follow(buf, slot),
        None => None,
    }
}

/// The bytes of the string or byte vector that a field refers to.
pub open spec fn field_bytes(buf: Seq<u8>, table: int, field: int) -> Option<Seq<u8>> {
    match field_target(buf, table, field) {
        None => None,
        Some(pos) => match u32_in(buf, pos) {
            None => None,
            Some(len) => bytes_at(buf, pos + 4, len),
        },
    }
}

/// The text of the string that a field refers to; a string that is not UTF-8
/// has none.
pub open spec fn field_text(buf: Seq<u8>, table: int, field: int) -> Option<Seq<char>> {
    match field_bytes(buf, table, field) {
        Some(b) => if valid_utf8(b) {
            Some(decode_utf8(b))
        } else {
            None
        },
        None => None,
    }
}

/// The number that a field holds inline; zero where it cannot be read.
pub open spec fn field_number(buf: Seq<u8>, table: int, field: int) -> int {
    match field_data(buf, table, field) {
        Some(slot) => match u32_in(buf, slot) {
            Some(n) => n,
            None => 0,
        },
        None => 0,
    }
}

/// Position of the first element and number of elements of the vector of
/// tables that a field refers to.
pub open spec fn field_tables(buf: Seq<u8>, table: int, field: int) -> Option<(int, int)> {
    match field_target(buf, table, field) {
        None => None,
        Some(pos) => match u32_in(buf, pos) {
            None => None,
            Some(count) => Some((pos + 4, count)),
        },
    }
}

/// Position of the `i`-th table of a vector of tables.
pub open spec fn table_in_vec(buf: Seq<u8>, first: int, i: int) -> Option<int> {
    follow(buf, first + 4 * i)
}

/// A position that was read, as a mathematical integer.
pub open spec fn at(r: Option<usize>) -> Option<int> {
    match r {
        Some(p) => Some(p as int),
        None => None,
    }
}

fn read_u16(buf: &[u8], pos: usize) -> (r: Option<u16>)
    ensures
        match r {
            Some(v) => u16_in(buf@, pos as int) == Some(v as int),
            None => u16_in(buf@, pos as int) is None,
        },
{
    if buf.len() < 2 || pos > buf.len() - 2 {
        return None;
    }
    Some(u16_le(&buf[pos..pos + 2]))
}

fn read_u32(buf: &[u8], pos: usize) -> (r: Option<u32>)
    ensures
        match r {
            Some(v) => u32_in(buf@, pos as int) == Some(v as int) && pos + 4 <= usize::MAX,
            None => u32_in(buf@, pos as int) is None,
        },
{
    if buf.len() < 4 || pos > buf.len() - 4 {
        return None;
    }
    Some(u32_le(&buf[pos..pos + 4]))
}

fn read_offset(buf: &[u8], pos: usize) -> (r: Option<usize>)
    ensures
        at(r) == follow(buf@, pos as int),
{
    match read_u32(buf, pos) {
        Some(offset) => pos.checked_add(offset as usize),
        None => None,
    }
}

/// Position of the root table of a chunk.
pub fn root_table_pos(chunk: &[u8]) -> (r: Option<usize>)
    ensures
        at(r) == root_table(chunk@),
{
    read_offset(chunk, 4)
}

/// Position of the data of a table's field, where the field is present.
pub fn field_data_pos(buf: &[u8], table_pos: usize, field_idx: u16) -> (r: Option<usize>)
    ensures
        at(r) == field_data(buf@, table_pos as int, field_idx as int),
{
    let vtable_slot: usize = 4 + field_idx as usize * 2;
    if buf.len() < 4 || table_pos > buf.len() - 4 {
        return None;
    }
    let backward: i32 = i32_le(&buf[table_pos..table_pos + 4]);
    let vtable_pos: usize = if backward >= 0 {
        if table_pos < backward as usize {
            return None;
        }
        table_pos - backward as usize
    } else {
        match table_pos.checked_add((-(backward as i64)) as usize) {
            Some(p) => p,
            None => {
                return None;
            },
        }
    };
    let vt_size: usize = match read_u16(buf, vtable_pos) {
        Some(size) => size as usize,
        None => {
            return None;
        },
    };
    if vtable_slot + 2 > vt_size {
        return None;
    }
    let entry_pos: usize = match vtable_pos.checked_add(vtable_slot) {
        Some(p) => p,
        None => {
            return None;
        },
    };
    let field_off: usize = match read_u16(buf, entry_pos) {
        Some(offset) => offset as usize,
        None => {
            return None;
        },
    };
    if field_off == 0 {
        return None;
    }
    table_pos.checked_add(field_off)
}

/// Position of the table that a field refers to.
pub fn read_table_field(buf: &[u8], table_pos: usize, field_idx: u16) -> (r: Option<usize>)
    ensures
        at(r) == field_target(buf@, table_pos as int, field_idx as int),
{
    match field_data_pos(buf, table_pos, field_idx) {
        Some(slot) => read_offset(buf, slot),
        None => None,
    }
}

/// The bytes of the byte vector that a field refers to.
pub fn read_bytes_vec<'a>(buf: &'a [u8], table_pos: usize, field_idx: u16) -> (r: Option<&'a [u8]>)
    ensures
        match r {
            Some(b) => field_bytes(buf@, table_pos as int, field_idx as int) == Some(b@),
            None => field_bytes(buf@, table_pos as int, field_idx as int) is None,
        },
{
    let vec_pos: usize = match read_table_field(buf, table_pos, field_idx) {
        Some(p) => p,
        None => {
            return None;
        },
    };
    let len: usize = match read_u32(buf, vec_pos) {
        Some(n) => n as usize,
        None => {
            return None;
        },
    };
    let start: usize = vec_pos + 4;
    if buf.len() - start < len {
        return None;
    }
    Some(&buf[start..start + len])
}

/// `core::str::from_utf8`: gives the text that the bytes encode if they are
/// valid UTF-8, and nothing if they are not.
#[verifier::external_body]
fn utf8_text(v: &[u8]) -> (r: Option<&str>)
    ensures
        match r {
            Some(s) => valid_utf8(v@) && s@ == decode_utf8(v@),
            None => !valid_utf8(v@),
        },
{
    core::str::from_utf8(v).ok()
}

/// The string that a field refers to.
pub fn read_str<'a>(buf: &'a [u8], table_pos: usize, field_idx: u16) -> (r: Option<&'a str>)
    ensures
        match r {
            Some(s) => field_text(buf@, table_pos as int, field_idx as int) == Some(s@),
            None => field_text(buf@, table_pos as int, field_idx as int) is None,
        },
{
    match read_bytes_vec(buf, table_pos, field_idx) {
        Some(b) => utf8_text(b),
        None => None,
    }
}

/// The number that a field holds inline; zero where it cannot be read.
pub fn read_u32_field(buf: &[u8], table_pos: usize, field_idx: u16) -> (r: u32)
    ensures
        r as int == field_number(buf@, table_pos as int, field_idx as int),
{
    match field_data_pos(buf, table_pos, field_idx) {
        Some(slot) => match read_u32(buf, slot) {
            Some(n) => n,
            None => 0,
        },
        None => 0,
    }
}

/// Position of the first element and number of elements of the vector of
/// tables that a field refers to.
pub fn read_table_vec(buf: &[u8], table_pos: usize, field_idx: u16) -> (r: Option<(usize, usize)>)
    ensures
        match r {
            Some((first, count)) => field_tables(buf@, table_pos as int, field_idx as int) == Some(
                (first as int, count as int),
            ),
            None => field_tables(buf@, table_pos as int, field_idx as int) is None,
        },
{
    let vec_pos: usize = match read_table_field(buf, table_pos, field_idx) {
        Some(p) => p,
        None => {
            return None;
        },
    };
    match read_u32(buf, vec_pos) {
        Some(count) => Some((vec_pos + 4, count as usize)),
        None => None,
    }
}

/// Position of the `i`-th table of a vector of tables.
pub fn table_vec_elem(buf: &[u8], data_pos: usize, i: usize) -> (r: Option<usize>)
    ensures
        at(r) == table_in_vec(buf@, data_pos as int, i as int),
{
    if i > buf.len() / 4 {
        return None;
    }
    match data_pos.checked_add(i * 4) {
        Some(elem_pos) => read_offset(buf, elem_pos),
        None => None,
    }
}

/// A polygon: its exterior ring and the rings of its holes, all closed.
pub struct PolygonRings {
    pub exterior: Vec<Point>,
    pub holes: Vec<Vec<Point>>,
}

/// The points of a polygon.
#[verifier::ext_equal]
pub ghost struct PolygonView {
    pub exterior: Seq<Point>,
    pub holes: Seq<Seq<Point>>,
}

impl View for PolygonRings {
    type V = PolygonView;

    open spec fn view(&self) -> PolygonView {
        PolygonView {
            exterior: self.exterior@,
            holes: self.holes@.map_values(|h: Vec<Point>| h@),
        }
    }
}

/// The ring that a ring table describes.
pub open spec fn ring_at(buf: Seq<u8>, table: int) -> Option<Seq<Point>> {
    match field_bytes(buf, table, 0) {
        Some(data) => ring(data, field_number(buf, table, 1) as nat),
        None => None,
    }
}

/// The rings among the first `count` tables of a vector, in order; what does
/// not describe a ring is left out.
pub open spec fn rings_in(buf: Seq<u8>, first: int, count: nat) -> Seq<Seq<Point>>
    decreases count,
{
    if count == 0 {
        Seq::empty()
    } else {
        let before = rings_in(buf, first, (count - 1) as nat);
        match table_in_vec(buf, first, count - 1) {
            Some(table) => match ring_at(buf, table) {
                Some(points) => before.push(points),
                None => before,
            },
            None => before,
        }
    }
}

/// The polygon that a polygon table describes; it needs an exterior ring.
pub open spec fn polygon_at(buf: Seq<u8>, table: int) -> Option<PolygonView> {
    match field_target(buf, table, 0) {
        None => None,
        Some(exterior) => match ring_at(buf, exterior) {
            None => None,
            Some(points) => Some(
                PolygonView {
                    exterior: points,
                    holes: match field_tables(buf, table, 1) {
                        Some((first, count)) => rings_in(buf, first, count as nat),
                        None => Seq::empty(),
                    },
                },
            ),
        },
    }
}

/// Position of the first polygon table of a chunk, and the number of polygons.
pub open spec fn polygon_tables(chunk: Seq<u8>) -> Option<(int, int)> {
    match root_table(chunk) {
        Some(root) => field_tables(chunk, root, FIELD_POLYGONS as int),
        None => None,
    }
}

/// The `i`-th polygon of a vector of polygon tables.
pub open spec fn polygon_in(chunk: Seq<u8>, first: int, i: int) -> Option<PolygonView> {
    match table_in_vec(chunk, first, i) {
        Some(table) => polygon_at(chunk, table),
        None => None,
    }
}

/// The polygons among the first `count` of a vector, in order; what does not
/// describe a polygon is left out.
pub open spec fn polygons_in(chunk: Seq<u8>, first: int, count: nat) -> Seq<PolygonView>
    decreases count,
{
    if count == 0 {
        Seq::empty()
    } else {
        let before = polygons_in(chunk, first, (count - 1) as nat);
        match polygon_in(chunk, first, count - 1) {
            Some(polygon) => before.push(polygon),
            None => before,
        }
    }
}

/// The ring that a ring table describes.
pub fn decode_ring_at_table(buf: &[u8], ring_tp: usize) -> (r: Option<Vec<Point>>)
    ensures
        match r {
            Some(points) => ring_at(buf@, ring_tp as int) == Some(points@),
            None => ring_at(buf@, ring_tp as int) is None,
        },
{
    match read_bytes_vec(buf, ring_tp, 0) {
        Some(data) => decode_ring(data, read_u32_field(buf, ring_tp, 1)),
        None => None,
    }
}

fn decode_holes(buf: &[u8], first: usize, count: usize) -> (r: Vec<Vec<Point>>)
    ensures
        r@.map_values(|h: Vec<Point>| h@) == rings_in(buf@, first as int, count as nat),
{
    let mut holes: Vec<Vec<Point>> = Vec::new();
    let mut i: usize = 0;
    assert(holes@.map_values(|h: Vec<Point>| h@) =~= Seq::empty());
    while i < count
        invariant
            i <= count,
            holes@.map_values(|h: Vec<Point>| h@) == rings_in(buf@, first as int, i as nat),
        decreases count - i,
    {
        if let Some(hole_tp) = table_vec_elem(buf, first, i) {
            if let Some(points) = decode_ring_at_table(buf, hole_tp) {
                let ghost before = holes@;
                holes.push(points);
                assert(holes@.map_values(|h: Vec<Point>| h@) =~= before.map_values(
                    |h: Vec<Point>| h@,
                ).push(points@));
            }
        }
        i = i + 1;
    }
    holes
}

/// The polygon that a polygon table describes.
pub fn decode_polygon_at_table(buf: &[u8], poly_tp: usize) -> (r: Option<PolygonRings>)
    ensures
        match r {
            Some(polygon) => polygon_at(buf@, poly_tp as int) == Some(polygon@),
            None => polygon_at(buf@, poly_tp as int) is None,
        },
{
    let ext_tp: usize = match read_table_field(buf, poly_tp, 0) {
        Some(p) => p,
        None => {
            return None;
        },
    };
    let exterior: Vec<Point> = match decode_ring_at_table(buf, ext_tp) {
        Some(points) => points,
        None => {
            return None;
        },
    };
    let holes: Vec<Vec<Point>> = match read_table_vec(buf, poly_tp, 1) {
        Some((first, count)) => decode_holes(buf, first, count),
        None => {
            let none: Vec<Vec<Point>> = Vec::new();
            assert(none@.map_values(|h: Vec<Point>| h@) =~= Seq::empty());
            none
        },
    };
    Some(PolygonRings { exterior, holes })
}

/// Whether `covers` accepts the polygon that a polygon table describes; a
/// table that describes none is not asked about.
pub fn polygon_table_contains_point<F: Fn(&PolygonRings) -> bool>(
    buf: &[u8],
    poly_tp: usize,
    covers: &F,
) -> (r: bool)
    requires
        forall|p: PolygonRings| #[trigger] call_requires(*covers, (&p,)),
    ensures
        answer(*covers, polygon_at(buf@, poly_tp as int), r),
{
    match decode_polygon_at_table(buf, poly_tp) {
        Some(polygon) => covers(&polygon),
        None => false,
    }
}

/// `covers` may answer `r` about the polygon; where there is no polygon it is
/// not asked, and the answer is no.
pub open spec fn answer<F: Fn(&PolygonRings) -> bool>(
    covers: F,
    polygon: Option<PolygonView>,
    r: bool,
) -> bool {
    match polygon {
        Some(view) => exists|p: PolygonRings|
            p@ == view && #[trigger] call_ensures(covers, (&p,), r),
        None => !r,
    }
}

fn nth_polygon_contains_point<F: Fn(&PolygonRings) -> bool>(
    chunk: &[u8],
    first: usize,
    i: usize,
    covers: &F,
) -> (r: bool)
    requires
        forall|p: PolygonRings| #[trigger] call_requires(*covers, (&p,)),
    ensures
        answer(*covers, polygon_in(chunk@, first as int, i as int), r),
{
    match table_vec_elem(chunk, first, i) {
        Some(poly_tp) => polygon_table_contains_point(chunk, poly_tp, covers),
        None => false,
    }
}

/// `r` may be answered about the chunk: the polygons are asked about in order,
/// up to the first that is accepted, and the answer is whether one is.
pub open spec fn chunk_answer<F: Fn(&PolygonRings) -> bool>(
    covers: F,
    chunk: Seq<u8>,
    r: bool,
) -> bool {
    match polygon_tables(chunk) {
        None => !r,
        Some((first, count)) => if r {
            exists|i: int|
                0 <= i < count && #[trigger] answer(covers, polygon_in(chunk, first, i), true)
                    && forall|j: int|
                    0 <= j < i ==> #[trigger] answer(covers, polygon_in(chunk, first, j), false)
        } else {
            forall|j: int|
                0 <= j < count ==> #[trigger] answer(covers, polygon_in(chunk, first, j), false)
        },
    }
}

/// Whether `covers` accepts one of the chunk's polygons. They are asked about
/// in order, up to the first that is accepted.
pub fn contains_point<F: Fn(&PolygonRings) -> bool>(chunk: &[u8], covers: F) -> (r: bool)
    requires
        forall|p: PolygonRings| #[trigger] call_requires(covers, (&p,)),
    ensures
        chunk_answer(covers, chunk@, r),
{
    let tp: usize = match root_table_pos(chunk) {
        Some(p) => p,
        None => {
            return false;
        },
    };
    let (first, count): (usize, usize) = match read_table_vec(chunk, tp, FIELD_POLYGONS) {
        Some(v) => v,
        None => {
            return false;
        },
    };
    let mut i: usize = 0;
    while i < count
        invariant
            i <= count,
            polygon_tables(chunk@) == Some((first as int, count as int)),
            forall|p: PolygonRings| #[trigger] call_requires(covers, (&p,)),
            forall|j: int|
                0 <= j < i ==> #[trigger] answer(
                    covers,
                    polygon_in(chunk@, first as int, j),
                    false,
                ),
        decreases count - i,
    {
        if nth_polygon_contains_point(chunk, first, i, &covers) {
            return true;
        }
        i = i + 1;
    }
    false
}

/// A key as it is written in JSON: between quotes.
pub open spec fn quoted(text: Seq<char>) -> Seq<char> {
    seq!['"'] + text + seq!['"']
}

/// A colon stands at `i` or behind white space from `i` on.
pub open spec fn colon_follows(json: Seq<char>, i: int) -> bool {
    skip_space(json, i) < json.len() && json[skip_space(json, i)] == ':'
}

/// What stands between quotes behind the colon at `colon`, white space allowed
/// between them. Escapes are not interpreted.
pub open spec fn value_behind(json: Seq<char>, colon: int) -> Option<Seq<char>> {
    let open = skip_space(json, colon + 1);
    if open >= json.len() || json[open] != '"' {
        None
    } else {
        match find_from(json, seq!['"'], open + 1) {
            Some(end) => Some(json.subrange(open + 1, end)),
            None => None,
        }
    }
}

/// The name that a JSON object gives for a language, looked for from `i` on:
/// the value behind the first `"lang"`, which a colon has to follow. In a flat
/// object of strings a value may be the same text as a key; there an occurrence
/// that no colon follows is passed by.
pub open spec fn name_from(json: Seq<char>, lang: Seq<char>, i: int) -> Option<Seq<char>>
    decreases json.len() + 1 - i,
    when 0 <= i
    via name_from_decreases
{
    match find_from(json, quoted(lang), i) {
        None => None,
        Some(start) => if colon_follows(json, start + quoted(lang).len()) {
            value_behind(json, skip_space(json, start + quoted(lang).len()))
        } else if flat_members(json) is Some {
            name_from(json, lang, start + 1)
        } else {
            None
        },
    }
}

#[via_fn]
proof fn name_from_decreases(json: Seq<char>, lang: Seq<char>, i: int) {
    law_find_first(json, quoted(lang), i);
}

/// The name that a JSON object gives for a language.
pub open spec fn name_for(json: Seq<char>, lang: Seq<char>) -> Option<Seq<char>> {
    name_from(json, lang, 0)
}

/// The text of a field of the chunk's root table.
pub open spec fn root_text(chunk: Seq<u8>, field: int) -> Option<Seq<char>> {
    match root_table(chunk) {
        Some(root) => field_text(chunk, root, field),
        None => None,
    }
}

/// The name to show for a division: the one for the language, where a language
/// is asked for and has a name, else the primary name.
pub open spec fn display_name(chunk: Seq<u8>, lang: Seq<char>) -> Option<Seq<char>> {
    let localized = match root_text(chunk, FIELD_NAMES_COMMON as int) {
        Some(json) => name_for(json, lang),
        None => None,
    };
    if lang.len() > 0 && localized is Some {
        localized
    } else {
        root_text(chunk, FIELD_NAME as int)
    }
}

fn root_str(chunk: &[u8], field_idx: u16) -> (r: Option<&str>)
    ensures
        match r {
            Some(s) => root_text(chunk@, field_idx as int) == Some(s@),
            None => root_text(chunk@, field_idx as int) is None,
        },
{
    match root_table_pos(chunk) {
        Some(tp) => read_str(chunk, tp, field_idx),
        None => None,
    }
}

/// The identifier of a division.
pub fn get_id(chunk: &[u8]) -> (r: Option<&str>)
    ensures
        match r {
            Some(id) => root_text(chunk@, FIELD_ID as int) == Some(id@),
            None => root_text(chunk@, FIELD_ID as int) is None,
        },
{
    root_str(chunk, FIELD_ID)
}

/// The name to show for a division. A language other than the empty one is
/// looked up among the names by language before the primary name is taken.
pub fn resolve_name(chunk: &[u8], lang: &str) -> (r: Option<String>)
    ensures
        match r {
            Some(name) => display_name(chunk@, lang@) == Some(name@),
            None => display_name(chunk@, lang@) is None,
        },
{
    if !lang.is_empty() {
        if let Some(names_json) = root_str(chunk, FIELD_NAMES_COMMON) {
            if let Some(name) = lookup_i18n(names_json, lang) {
                return Some(name);
            }
        }
    }
    match root_str(chunk, FIELD_NAME) {
        Some(s) => Some(s.to_string()),
        None => None,
    }
}

/// The name that a JSON object gives for a language.
pub fn lookup_i18n(json: &str, lang: &str) -> (r: Option<String>)
    ensures
        match r {
            Some(name) => name_for(json@, lang@) == Some(name@),
            None => name_for(json@, lang@) is None,
        },
{
    let text: Vec<char> = chars_of(json);
    let total: usize = text.len();
    let lang_chars: Vec<char> = chars_of(lang);
    let quote: Vec<char> = vec!['"'];
    let mut key: Vec<char> = vec!['"'];
    key.extend_from_slice(lang_chars.as_slice());
    key.push('"');
    assert(key@ =~= quoted(lang@));
    assert(quote@ =~= seq!['"']);
    let mut from: usize = 0;
    let mut flat: bool = false;
    loop
        invariant
            text@ == json@,
            flat ==> flat_members(json@) is Some,
            total == json@.len(),
            key@ == quoted(lang@),
            quote@ == seq!['"'],
            from <= total,
            name_for(json@, lang@) == name_from(json@, lang@, from as int),
        decreases total - from,
    {
        let start: usize = match find_chars(&text, &key, from) {
            Some(i) => i,
            None => {
                return None;
            },
        };
        let colon: usize = skip_white_space(&text, start + key.len());
        if colon < total && text[colon] == ':' {
            let open: usize = skip_white_space(&text, colon + 1);
            if open >= total || text[open] != '"' {
                return None;
            }
            return match find_chars(&text, &quote, open + 1) {
                Some(end) => Some(json.substring_char(open + 1, end).to_string()),
                None => None,
            };
        }
        if !flat {
            if !is_flat_object(&text) {
                return None;
            }
            flat = true;
        }
        from = start + 1;
    }
}

/// The primary name of a division.
pub fn get_primary_name(chunk: &[u8]) -> (r: Option<String>)
    ensures
        match r {
            Some(name) => root_text(chunk@, FIELD_NAME as int) == Some(name@),
            None => root_text(chunk@, FIELD_NAME as int) is None,
        },
{
    match root_str(chunk, FIELD_NAME) {
        Some(s) => Some(s.to_string()),
        None => None,
    }
}

/// The names of a division by language, as the JSON object they are stored in.
pub fn get_names_json(chunk: &[u8]) -> (r: Option<&str>)
    ensures
        match r {
            Some(json) => root_text(chunk@, FIELD_NAMES_COMMON as int) == Some(json@),
            None => root_text(chunk@, FIELD_NAMES_COMMON as int) is None,
        },
{
    root_str(chunk, FIELD_NAMES_COMMON)
}

/// The polygons of a chunk; a chunk without polygons has no geometry.
pub open spec fn geometry_of(chunk: Seq<u8>) -> Option<Seq<PolygonView>> {
    match polygon_tables(chunk) {
        None => None,
        Some((first, count)) => {
            let polygons = polygons_in(chunk, first, count as nat);
            if polygons.len() == 0 {
                None
            } else {
                Some(polygons)
            }
        },
    }
}

/// The polygons of a chunk; a chunk without polygons has no geometry.
pub fn get_geometry(chunk: &[u8]) -> (r: Option<Vec<PolygonRings>>)
    ensures
        match r {
            Some(polygons) => geometry_of(chunk@) == Some(
                polygons@.map_values(|p: PolygonRings| p@),
            ),
            None => geometry_of(chunk@) is None,
        },
{
    let tp: usize = match root_table_pos(chunk) {
        Some(p) => p,
        None => {
            return None;
        },
    };
    let (first, count): (usize, usize) = match read_table_vec(chunk, tp, FIELD_POLYGONS) {
        Some(v) => v,
        None => {
            return None;
        },
    };
    let polygons: Vec<PolygonRings> = decode_polygons(chunk, first, count);
    if polygons.len() == 0 {
        return None;
    }
    Some(polygons)
}

fn decode_polygons(chunk: &[u8], first: usize, count: usize) -> (r: Vec<PolygonRings>)
    ensures
        r@.map_values(|p: PolygonRings| p@) == polygons_in(chunk@, first as int, count as nat),
{
    let mut polygons: Vec<PolygonRings> = Vec::new();
    let mut i: usize = 0;
    assert(polygons@.map_values(|p: PolygonRings| p@) =~= Seq::empty());
    while i < count
        invariant
            i <= count,
            polygons@.map_values(|p: PolygonRings| p@) == polygons_in(
                chunk@,
                first as int,
                i as nat,
            ),
        decreases count - i,
    {
        let polygon: Option<PolygonRings> = match table_vec_elem(chunk, first, i) {
            Some(poly_tp) => decode_polygon_at_table(chunk, poly_tp),
            None => None,
        };
        if let Some(polygon) = polygon {
            let ghost before = polygons@;
            polygons.push(polygon);
            assert(polygons@.map_values(|p: PolygonRings| p@) =~= before.map_values(
                |p: PolygonRings| p@,
            ).push(polygon@));
        }
        i = i + 1;
    }
    polygons
}

/// White space is skipped up to the first character that is none.
pub proof fn lemma_skip_space(s: Seq<char>, i: int, j: int)
    requires
        0 <= i <= j < s.len(),
        forall|k: int| i <= k < j ==> is_space(s[k]),
        !is_space(s[j]),
    ensures
        skip_space(s, i) == j,
    decreases j - i,
{
    if i < j {
        lemma_skip_space(s, i + 1, j);
    }
}

/// The search for a quote finds the first one.
pub proof fn lemma_find_quote(s: Seq<char>, i: int, j: int)
    requires
        0 <= i <= j < s.len(),
        forall|k: int| i <= k < j ==> s[k] != '"',
        s[j] == '"',
    ensures
        find_from(s, seq!['"'], i) == Some(j),
    decreases j - i,
{
    assert(s.subrange(i, i + 1)[0] == s[i]);
    if i < j {
        assert(s.subrange(i, i + 1) != seq!['"']);
        lemma_find_quote(s, i + 1, j);
    } else {
        assert(s.subrange(i, i + 1) =~= seq!['"']);
    }
}

/// The text stands in the JSON text at `k`.
pub open spec fn occurs(json: Seq<char>, text: Seq<char>, k: int) -> bool {
    0 <= k && k + text.len() <= json.len() && json.subrange(k, k + text.len()) == text
}

/// In a flat object of strings, occurrences of the quoted language that no
/// colon follows are passed by.
pub proof fn lemma_passes_by(json: Seq<char>, lang: Seq<char>, i: int, j: int)
    requires
        0 <= i <= j,
        forall|k: int|
            i <= k < j && #[trigger] occurs(json, quoted(lang), k) ==> flat_members(json) is Some
                && !colon_follows(json, k + quoted(lang).len()),
    ensures
        name_from(json, lang, i) == name_from(json, lang, j),
    decreases j - i,
{
    let key = quoted(lang);
    law_find_first(json, key, i);
    law_find_first(json, key, j);
    match find_from(json, key, i) {
        Some(s) => {
            assert(occurs(json, key, s));
            if s < j {
                lemma_passes_by(json, lang, s + 1, j);
            } else {
                assert(json.subrange(s, s + key.len()) == key);
                let t = find_from(json, key, j)->0;
                assert(find_from(json, key, j) is Some);
                assert(json.subrange(t, t + key.len()) == key);
                assert(s == t);
            }
        },
        None => {
            if let Some(t) = find_from(json, key, j) {
                assert(json.subrange(t, t + key.len()) == key);
            }
        },
    }
}

/// Where the quoted language stands with a colon behind it, the value behind
/// the colon is taken.
pub proof fn lemma_takes_value(json: Seq<char>, lang: Seq<char>, start: int)
    requires
        occurs(json, quoted(lang), start),
        colon_follows(json, start + quoted(lang).len()),
    ensures
        name_from(json, lang, start) == value_behind(
            json,
            skip_space(json, start + quoted(lang).len()),
        ),
{
}

/// The search for a quote finds the first one, and nothing where there is none.
pub proof fn law_find_quote_first(s: Seq<char>, i: int)
    requires
        0 <= i,
    ensures
        match find_from(s, seq!['"'], i) {
            Some(j) => i <= j < s.len() && s[j] == '"' && forall|k: int|
                i <= k < j ==> #[trigger] s[k] != '"',
            None => forall|k: int| i <= k < s.len() ==> #[trigger] s[k] != '"',
        },
    decreases s.len() - i,
{
    if i < s.len() {
        assert(s.subrange(i, i + 1)[0] == s[i]);
        if s[i] == '"' {
            assert(s.subrange(i, i + 1) =~= seq!['"']);
        } else {
            assert(s.subrange(i, i + 1) != seq!['"']);
            law_find_quote_first(s, i + 1);
        }
    }
}

/// A member of a JSON object is looked up by its key: where `"lang"` stands with
/// a colon behind it for the first time, and a string without quotes follows,
/// that string is found. White space is allowed around the colon. In a flat
/// object of strings `"lang"` may stand before in any place without a colon
/// behind it, such as that of a value.
pub proof fn law_member_is_looked_up(
    before: Seq<char>,
    lang: Seq<char>,
    space: Seq<char>,
    more_space: Seq<char>,
    name: Seq<char>,
    behind: Seq<char>,
)
    requires
        forall|k: int| 0 <= k < space.len() ==> is_space(#[trigger] space[k]),
        forall|k: int| 0 <= k < more_space.len() ==> is_space(#[trigger] more_space[k]),
        forall|k: int| 0 <= k < name.len() ==> #[trigger] name[k] != '"',
        ({
            let json = before + quoted(lang) + space + seq![':'] + more_space + seq!['"'] + name
                + seq!['"'] + behind;
            forall|k: int|
                0 <= k < before.len() && #[trigger] occurs(json, quoted(lang), k)
                    ==> flat_members(json) is Some && !colon_follows(
                    json,
                    k + quoted(lang).len(),
                )
        }),
    ensures
        name_for(
            before + quoted(lang) + space + seq![':'] + more_space + seq!['"'] + name + seq!['"']
                + behind,
            lang,
        ) == Some(name),
{
    let key = quoted(lang);
    let json = before + key + space + seq![':'] + more_space + seq!['"'] + name + seq!['"']
        + behind;
    let start = before.len() as int;
    let after_key = start + key.len();
    let colon = after_key + space.len();
    let open = colon + 1 + more_space.len();
    let end = open + 1 + name.len();
    assert(json.subrange(start, after_key) =~= key);
    assert forall|k: int| after_key <= k < colon implies is_space(json[k]) by {
        assert(json[k] == space[k - after_key]);
    }
    assert(json[colon] == ':');
    lemma_skip_space(json, after_key, colon);
    lemma_passes_by(json, lang, 0, start);
    lemma_takes_value(json, lang, start);
    assert forall|k: int| colon + 1 <= k < open implies is_space(json[k]) by {
        assert(json[k] == more_space[k - colon - 1]);
    }
    assert(json[open] == '"');
    lemma_skip_space(json, colon + 1, open);
    assert forall|k: int| open + 1 <= k < end implies json[k] != '"' by {
        assert(json[k] == name[k - open - 1]);
    }
    assert(json[end] == '"');
    lemma_find_quote(json, open + 1, end);
    assert(json.subrange(open + 1, end) =~= name);
}

/// In a text that is no flat object of strings, the first `"lang"` decides:
/// where no colon follows it, there is no name.
pub proof fn law_first_occurrence_decides(json: Seq<char>, lang: Seq<char>, start: int)
    requires
        flat_members(json) is None,
        occurs(json, quoted(lang), start),
        forall|k: int| 0 <= k < start ==> !#[trigger] occurs(json, quoted(lang), k),
    ensures
        name_for(json, lang) == if colon_follows(json, start + quoted(lang).len()) {
            value_behind(json, skip_space(json, start + quoted(lang).len()))
        } else {
            None
        },
{
    lemma_passes_by(json, lang, 0, start);
    assert(json.subrange(start, start + quoted(lang).len()) == quoted(lang));
}

/// Without a language, and where the language has no name, the primary name is
/// shown.
pub proof fn law_primary_name_is_the_fallback(chunk: Seq<u8>, lang: Seq<char>)
    requires
        lang.len() == 0 || (match root_text(chunk, FIELD_NAMES_COMMON as int) {
            Some(json) => name_for(json, lang) is None,
            None => true,
        }),
    ensures
        display_name(chunk, lang) == root_text(chunk, FIELD_NAME as int),
{
}

/// Every ring of every polygon of a chunk is closed and has at least four
/// points, the first one counted twice.
pub proof fn law_polygon_rings_are_closed(buf: Seq<u8>, table: int)
    ensures
        polygon_at(buf, table) matches Some(polygon) ==> is_closed(polygon.exterior) && (forall|
            i: int,
        |
            0 <= i < polygon.holes.len() ==> is_closed(#[trigger] polygon.holes[i])),
{
    if let Some(exterior) = field_target(buf, table, 0) {
        lemma_ring_closed(buf, exterior);
    }
    if let Some((first, count)) = field_tables(buf, table, 1) {
        lemma_rings_closed(buf, first, count as nat);
    }
}

/// The ring ends where it begins.
pub open spec fn is_closed(points: Seq<Point>) -> bool {
    points.len() >= 4 && points.first() == points.last()
}

proof fn lemma_ring_closed(buf: Seq<u8>, table: int)
    ensures
        ring_at(buf, table) matches Some(points) ==> is_closed(points),
{
    if let Some(data) = field_bytes(buf, table, 0) {
        law_ring_is_closed(data, field_number(buf, table, 1) as nat);
    }
}

proof fn lemma_rings_closed(buf: Seq<u8>, first: int, count: nat)
    ensures
        forall|i: int|
            0 <= i < rings_in(buf, first, count).len() ==> is_closed(
                #[trigger] rings_in(buf, first, count)[i],
            ),
    decreases count,
{
    if count > 0 {
        lemma_rings_closed(buf, first, (count - 1) as nat);
        let before = rings_in(buf, first, (count - 1) as nat);
        let all = rings_in(buf, first, count);
        if let Some(table) = table_in_vec(buf, first, count - 1) {
            lemma_ring_closed(buf, table);
        }
        assert forall|i: int| 0 <= i < all.len() implies is_closed(#[trigger] all[i]) by {
            if i < before.len() {
                assert(all[i] == before[i]);
            }
        }
    }
}

/// The chunk has an `i`-th polygon, and `holds` is true of it.
pub open spec fn polygon_holds(
    chunk: Seq<u8>,
    first: int,
    i: int,
    holds: spec_fn(PolygonView) -> bool,
) -> bool {
    match polygon_in(chunk, first, i) {
        Some(polygon) => holds(polygon),
        None => false,
    }
}

/// Where `covers` decides by the points of a polygon alone, the answer about a
/// chunk is whether one of its polygons is accepted.
pub proof fn law_chunk_answer_is_any<F: Fn(&PolygonRings) -> bool>(
    covers: F,
    holds: spec_fn(PolygonView) -> bool,
    chunk: Seq<u8>,
    r: bool,
)
    requires
        forall|p: PolygonRings, b: bool| #[trigger]
            call_ensures(covers, (&p,), b) ==> b == holds(p@),
        chunk_answer(covers, chunk, r),
    ensures
        r == match polygon_tables(chunk) {
            None => false,
            Some((first, count)) => exists|i: int|
                0 <= i < count && #[trigger] polygon_holds(chunk, first, i, holds),
        },
{
    if let Some((first, count)) = polygon_tables(chunk) {
        assert forall|i: int, b: bool| #[trigger]
            answer(covers, polygon_in(chunk, first, i), b) implies b == polygon_holds(
            chunk,
            first,
            i,
            holds,
        ) by {}
        if r {
            let i = choose|i: int|
                0 <= i < count && #[trigger] answer(covers, polygon_in(chunk, first, i), true);
            assert(polygon_holds(chunk, first, i, holds));
        } else {
            assert forall|i: int| 0 <= i < count implies !#[trigger] polygon_holds(
                chunk,
                first,
                i,
                holds,
            ) by {
                assert(answer(covers, polygon_in(chunk, first, i), false));
            }
        }
    }
}

proof fn lemma_no_polygons(chunk: Seq<u8>, first: int, count: nat, i: int)
    requires
        polygons_in(chunk, first, count).len() == 0,
        0 <= i < count,
    ensures
        polygon_in(chunk, first, i) is None,
    decreases count,
{
    if i < count - 1 {
        lemma_no_polygons(chunk, first, (count - 1) as nat, i);
    }
}

/// A chunk without an outline holds no point.
pub proof fn law_no_outline_holds_no_point<F: Fn(&PolygonRings) -> bool>(
    covers: F,
    chunk: Seq<u8>,
    r: bool,
)
    requires
        geometry_of(chunk) is None,
        chunk_answer(covers, chunk, r),
    ensures
        !r,
{
    if r {
        let (first, count) = polygon_tables(chunk)->0;
        let i = choose|i: int|
            0 <= i < count && #[trigger] answer(covers, polygon_in(chunk, first, i), true);
        lemma_no_polygons(chunk, first, count as nat, i);
    }
}

} // verus!
