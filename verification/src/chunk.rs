//! The layout of a division chunk, written out from its contents.
//!
//! Reading is defined in [`crate::flatbuf`]. Here a chunk is put together the
//! other way round, and reading is shown to give the contents back. A table
//! stands right behind its vtable, and what it refers to behind the table.

use vstd::prelude::*;
use vstd::utf8::{encode_utf8, encode_utf8_decode_utf8, encode_utf8_valid_utf8};

use crate::bytes::{bytes16, bytes32, lemma_read16, lemma_read32};
use crate::flatbuf::{
    field_bytes, field_data, field_number, field_tables, field_target, follow, geometry_of,
    polygon_at, polygon_in, polygon_tables, polygons_in, ring_at, rings_in, root_table, root_text,
    table_in_vec, u16_in, u32_in, PolygonView, FIELD_ID, FIELD_NAME, FIELD_NAMES_COMMON,
    FIELD_POLYGONS,
};
use crate::ring::{law_ring_round_trip, ring_bytes, Point};

verus! {

/// The bytes `b` stand in the buffer at `pos`.
pub open spec fn stands(buf: Seq<u8>, pos: int, b: Seq<u8>) -> bool {
    0 <= pos && pos + b.len() <= buf.len() && buf.subrange(pos, pos + b.len()) == b
}

/// What stands in the buffer stands there piece by piece.
pub proof fn lemma_pieces(buf: Seq<u8>, pos: int, a: Seq<u8>, b: Seq<u8>)
    requires
        stands(buf, pos, a + b),
    ensures
        stands(buf, pos, a),
        stands(buf, pos + a.len(), b),
{
    let whole = buf.subrange(pos, pos + (a + b).len());
    assert(buf.subrange(pos, pos + a.len()) =~= a) by {
        assert(whole.subrange(0, a.len() as int) =~= a);
    }
    assert(buf.subrange(pos + a.len(), pos + a.len() + b.len()) =~= b) by {
        assert(whole.subrange(a.len() as int, (a + b).len() as int) =~= b);
    }
}

pub proof fn lemma_u32(buf: Seq<u8>, pos: int, n: int)
    requires
        0 <= n <= u32::MAX,
        stands(buf, pos, bytes32(n)),
    ensures
        u32_in(buf, pos) == Some(n),
{
    lemma_read32(buf, pos, n);
}

proof fn lemma_u16(buf: Seq<u8>, pos: int, n: int)
    requires
        0 <= n <= u16::MAX,
        stands(buf, pos, bytes16(n)),
    ensures
        u16_in(buf, pos) == Some(n),
{
    lemma_read16(buf, pos, n);
}

/// 16-bit numbers one after the other.
pub open spec fn numbers16(list: Seq<int>) -> Seq<u8>
    decreases list.len(),
{
    if list.len() == 0 {
        Seq::empty()
    } else {
        numbers16(list.drop_last()) + bytes16(list.last())
    }
}

pub proof fn lemma_numbers16(buf: Seq<u8>, pos: int, list: Seq<int>)
    requires
        forall|i: int| 0 <= i < list.len() ==> 0 <= #[trigger] list[i] <= u16::MAX,
        stands(buf, pos, numbers16(list)),
    ensures
        numbers16(list).len() == 2 * list.len(),
        forall|i: int|
            0 <= i < list.len() ==> u16_in(buf, pos + 2 * i) == Some(#[trigger] list[i]),
    decreases list.len(),
{
    if list.len() > 0 {
        let before = list.drop_last();
        let n = before.len() as int;
        assert forall|i: int| 0 <= i < n implies 0 <= #[trigger] before[i] <= u16::MAX by {
            assert(before[i] == list[i]);
        }
        lemma_pieces(buf, pos, numbers16(before), bytes16(list.last()));
        lemma_numbers16(buf, pos, before);
        lemma_u16(buf, pos + 2 * n, list[n]);
        assert forall|i: int| 0 <= i < list.len() implies u16_in(buf, pos + 2 * i) == Some(
            #[trigger] list[i],
        ) by {
            if i < n {
                assert(before[i] == list[i]);
            }
        }
    }
}

/// A vtable and its table of fields of four bytes each: `offsets` are the
/// offsets of the fields from the table, `slots` is what the table holds.
pub open spec fn table_bytes(offsets: Seq<int>, slots: Seq<u8>) -> Seq<u8> {
    numbers16(vtable(offsets, slots.len() as int)) + bytes32(4 + 2 * offsets.len() as int) + slots
}

/// A vtable: its size, the size of the table, and the offsets of the fields.
pub open spec fn vtable(offsets: Seq<int>, slots_len: int) -> Seq<int> {
    seq![4 + 2 * offsets.len() as int, 4 + slots_len] + offsets
}

/// The fields of a table are found where its vtable says.
proof fn lemma_table(buf: Seq<u8>, start: int, offsets: Seq<int>, slots: Seq<u8>)
    requires
        stands(buf, start, table_bytes(offsets, slots)),
        start + table_bytes(offsets, slots).len() <= usize::MAX,
        offsets.len() <= 100,
        slots.len() <= 1000,
        forall|i: int|
            0 <= i < offsets.len() ==> 0 <= #[trigger] offsets[i] <= 4 + slots.len(),
    ensures
        table_bytes(offsets, slots).len() == 8 + 2 * offsets.len() + slots.len(),
        stands(buf, start + 8 + 2 * offsets.len(), slots),
        forall|f: int|
            #![trigger offsets[f]]
            0 <= f < offsets.len() ==> field_data(buf, start + 4 + 2 * offsets.len(), f)
                == if offsets[f] == 0 {
                None::<int>
            } else {
                Some(start + 4 + 2 * offsets.len() + offsets[f])
            },
{
    let size = 4 + 2 * offsets.len() as int;
    let list = vtable(offsets, slots.len() as int);
    let head = numbers16(list);
    let table = start + size;
    lemma_pieces(buf, start, head + bytes32(size), slots);
    lemma_pieces(buf, start, head, bytes32(size));
    assert forall|i: int| 0 <= i < list.len() implies 0 <= #[trigger] list[i] <= u16::MAX by {
        if i >= 2 {
            assert(list[i] == offsets[i - 2]);
        }
    }
    lemma_numbers16(buf, start, list);
    assert(head.len() == size);
    lemma_u32(buf, table, size);
    assert(list[0] == size);
    assert(u16_in(buf, start + 2 * 0) == Some(list[0]));
    assert forall|f: int|
        #![trigger offsets[f]]
        0 <= f < offsets.len() implies field_data(buf, table, f) == if offsets[f] == 0 {
        None::<int>
    } else {
        Some(table + offsets[f])
    } by {
        assert(list[f + 2] == offsets[f]);
        assert(u16_in(buf, start + 2 * (f + 2)) == Some(list[f + 2]));
    }
}

/// A table of two fields.
#[verifier::opaque]
pub open spec fn pair_table(first: int, second: int) -> Seq<u8> {
    table_bytes(seq![4int, 8], bytes32(first) + bytes32(second))
}

proof fn lemma_pair_table(buf: Seq<u8>, start: int, first: int, second: int)
    requires
        stands(buf, start, pair_table(first, second)),
        start + 20 <= usize::MAX,
        0 <= first <= u32::MAX,
        0 <= second <= u32::MAX,
    ensures
        pair_table(first, second).len() == 20,
        field_data(buf, start + 8, 0) == Some(start + 12),
        field_data(buf, start + 8, 1) == Some(start + 16),
        u32_in(buf, start + 12) == Some(first),
        u32_in(buf, start + 16) == Some(second),
{
    reveal(pair_table);
    let offsets = seq![4int, 8];
    let slots = bytes32(first) + bytes32(second);
    lemma_table_len(offsets, slots);
    lemma_table(buf, start, offsets, slots);
    assert(offsets[0] == 4 && offsets[1] == 8);
    lemma_pieces(buf, start + 12, bytes32(first), bytes32(second));
    lemma_u32(buf, start + 12, first);
    lemma_u32(buf, start + 16, second);
}

proof fn lemma_numbers16_len(list: Seq<int>)
    ensures
        numbers16(list).len() == 2 * list.len(),
    decreases list.len(),
{
    if list.len() > 0 {
        lemma_numbers16_len(list.drop_last());
    }
}

proof fn lemma_table_len(offsets: Seq<int>, slots: Seq<u8>)
    ensures
        table_bytes(offsets, slots).len() == 8 + 2 * offsets.len() + slots.len(),
{
    lemma_numbers16_len(vtable(offsets, slots.len() as int));
}

proof fn lemma_pair_table_len(first: int, second: int)
    ensures
        pair_table(first, second).len() == 20,
{
    reveal(pair_table);
    lemma_table_len(seq![4int, 8], bytes32(first) + bytes32(second));
}

/// Bytes behind their number.
pub open spec fn counted_bytes(b: Seq<u8>) -> Seq<u8> {
    bytes32(b.len() as int) + b
}

/// A ring: its table, then its data.
#[verifier::opaque]
pub open spec fn ring_table_bytes(points: Seq<Point>) -> Seq<u8> {
    pair_table(8, points.len() as int) + counted_bytes(ring_bytes(points))
}

/// The ring with its first point at the end again.
pub open spec fn closed_ring(points: Seq<Point>) -> Seq<Point> {
    points.push(points[0])
}

/// A ring is read back from its table.
proof fn lemma_ring_table(buf: Seq<u8>, start: int, points: Seq<Point>)
    requires
        stands(buf, start, ring_table_bytes(points)),
        start + ring_table_bytes(points).len() <= u32::MAX,
        3 <= points.len() <= u32::MAX,
    ensures
        ring_at(buf, start + 8) == Some(closed_ring(points)),
{
    reveal(ring_table_bytes);
    let data = ring_bytes(points);
    lemma_pair_table_len(8, points.len() as int);
    lemma_pieces(buf, start, pair_table(8, points.len() as int), counted_bytes(data));
    lemma_pair_table(buf, start, 8, points.len() as int);
    lemma_pieces(buf, start + 20, bytes32(data.len() as int), data);
    lemma_u32(buf, start + 20, data.len() as int);
    assert(follow(buf, start + 12) == Some(start + 20));
    assert(field_bytes(buf, start + 8, 0) == Some(data));
    assert(field_number(buf, start + 8, 1) == points.len());
    law_ring_round_trip(points, Seq::empty());
    assert(data + Seq::empty() =~= data);
}

proof fn lemma_ring_table_len(points: Seq<Point>)
    ensures
        ring_table_bytes(points).len() >= 20,
{
    reveal(ring_table_bytes);
    lemma_pair_table_len(8, points.len() as int);
}

/// Byte strings one after the other.
pub open spec fn joined(blobs: Seq<Seq<u8>>) -> Seq<u8>
    decreases blobs.len(),
{
    if blobs.len() == 0 {
        Seq::empty()
    } else {
        joined(blobs.drop_last()) + blobs.last()
    }
}

/// The forward offset of an element of a vector of tables of two fields: over
/// the offsets that follow and over the tables before, to behind the vtable.
pub open spec fn element_offset(blobs: Seq<Seq<u8>>, i: int) -> int {
    4 * (blobs.len() - i) + joined(blobs.take(i)).len() + 8
}

/// The first `count` offsets of a vector of tables.
pub open spec fn offset_bytes(blobs: Seq<Seq<u8>>, count: nat) -> Seq<u8>
    decreases count,
{
    if count == 0 {
        Seq::empty()
    } else {
        offset_bytes(blobs, (count - 1) as nat) + bytes32(element_offset(blobs, count - 1))
    }
}

/// A vector of tables of two fields, then the tables.
#[verifier::opaque]
pub open spec fn vector_bytes(blobs: Seq<Seq<u8>>) -> Seq<u8> {
    bytes32(blobs.len() as int) + offset_bytes(blobs, blobs.len()) + joined(blobs)
}

proof fn lemma_joined(buf: Seq<u8>, pos: int, blobs: Seq<Seq<u8>>, i: int)
    requires
        stands(buf, pos, joined(blobs)),
        0 <= i < blobs.len(),
    ensures
        joined(blobs.take(i)).len() + blobs[i].len() <= joined(blobs).len(),
        stands(buf, pos + joined(blobs.take(i)).len(), blobs[i]),
    decreases blobs.len(),
{
    let before = blobs.drop_last();
    lemma_pieces(buf, pos, joined(before), blobs.last());
    if i < before.len() {
        lemma_joined(buf, pos, before, i);
        assert(before.take(i) =~= blobs.take(i));
    } else {
        assert(blobs.take(i) =~= before);
    }
}

proof fn lemma_offset_bytes_len(blobs: Seq<Seq<u8>>, count: nat)
    ensures
        offset_bytes(blobs, count).len() == 4 * count,
    decreases count,
{
    if count > 0 {
        lemma_offset_bytes_len(blobs, (count - 1) as nat);
    }
}

proof fn lemma_offset(buf: Seq<u8>, pos: int, blobs: Seq<Seq<u8>>, count: nat, i: int)
    requires
        stands(buf, pos, offset_bytes(blobs, count)),
        0 <= i < count <= blobs.len(),
        0 <= element_offset(blobs, i) <= u32::MAX,
    ensures
        u32_in(buf, pos + 4 * i) == Some(element_offset(blobs, i)),
    decreases count,
{
    let fewer = (count - 1) as nat;
    lemma_offset_bytes_len(blobs, fewer);
    lemma_pieces(buf, pos, offset_bytes(blobs, fewer), bytes32(element_offset(blobs, count - 1)));
    if i < fewer {
        lemma_offset(buf, pos, blobs, fewer, i);
    } else {
        lemma_u32(buf, pos + 4 * i, element_offset(blobs, i));
    }
}

/// Where the `i`-th element of a vector at `pos` starts.
pub open spec fn element_start(pos: int, blobs: Seq<Seq<u8>>, i: int) -> int {
    pos + 4 + 4 * blobs.len() + joined(blobs.take(i)).len()
}

proof fn lemma_vector_count(buf: Seq<u8>, pos: int, blobs: Seq<Seq<u8>>)
    requires
        stands(buf, pos, vector_bytes(blobs)),
        blobs.len() <= u32::MAX,
    ensures
        u32_in(buf, pos) == Some(blobs.len() as int),
        stands(buf, pos + 4, offset_bytes(blobs, blobs.len())),
        stands(buf, pos + 4 + 4 * blobs.len(), joined(blobs)),
        vector_bytes(blobs).len() == 4 + 4 * blobs.len() + joined(blobs).len(),
{
    reveal(vector_bytes);
    let n = blobs.len();
    let head = bytes32(n as int);
    lemma_offset_bytes_len(blobs, n);
    lemma_pieces(buf, pos, head + offset_bytes(blobs, n), joined(blobs));
    lemma_pieces(buf, pos, head, offset_bytes(blobs, n));
    lemma_u32(buf, pos, n as int);
}

/// The elements of a vector are found by its offsets.
proof fn lemma_vector(buf: Seq<u8>, pos: int, blobs: Seq<Seq<u8>>, i: int)
    requires
        stands(buf, pos, vector_bytes(blobs)),
        pos + vector_bytes(blobs).len() <= u32::MAX,
        0 <= i < blobs.len() <= u32::MAX,
        blobs[i].len() >= 8,
    ensures
        table_in_vec(buf, pos + 4, i) == Some(element_start(pos, blobs, i) + 8),
        stands(buf, element_start(pos, blobs, i), blobs[i]),
        element_start(pos, blobs, i) + blobs[i].len() <= pos + vector_bytes(blobs).len(),
{
    let n = blobs.len();
    lemma_vector_count(buf, pos, blobs);
    lemma_joined(buf, pos + 4 + 4 * n, blobs, i);
    lemma_offset(buf, pos + 4, blobs, n, i);
}

/// The tables of rings, one for each.
pub open spec fn ring_blobs(rings: Seq<Seq<Point>>) -> Seq<Seq<u8>> {
    rings.map_values(|r: Seq<Point>| ring_table_bytes(r))
}

/// Every ring has at least three points, and not more than can be counted.
pub open spec fn rings_fit(rings: Seq<Seq<Point>>) -> bool {
    forall|i: int| 0 <= i < rings.len() ==> 3 <= (#[trigger] rings[i]).len() <= u32::MAX
}

/// The rings of a vector are read back in order.
proof fn lemma_rings(buf: Seq<u8>, pos: int, rings: Seq<Seq<Point>>, count: nat)
    requires
        stands(buf, pos, vector_bytes(ring_blobs(rings))),
        pos + vector_bytes(ring_blobs(rings)).len() <= u32::MAX,
        rings_fit(rings),
        count <= rings.len() <= u32::MAX,
    ensures
        rings_in(buf, pos + 4, count) == rings.take(count as int).map_values(
            |r: Seq<Point>| closed_ring(r),
        ),
    decreases count,
{
    let close = |r: Seq<Point>| closed_ring(r);
    if count == 0 {
        assert(rings.take(0).map_values(close) =~= Seq::empty());
    } else {
        let i = count - 1;
        let blobs = ring_blobs(rings);
        lemma_rings(buf, pos, rings, i as nat);
        assert(blobs[i] == ring_table_bytes(rings[i]));
        lemma_ring_table_len(rings[i]);
        lemma_vector(buf, pos, blobs, i);
        lemma_ring_table(buf, element_start(pos, blobs, i), rings[i]);
        assert(rings.take(count as int).map_values(close) =~= rings.take(i).map_values(close).push(
            closed_ring(rings[i]),
        ));
    }
}

/// A polygon: its table, its exterior ring, and the vector of its holes. The
/// points are those of the open rings.
#[verifier::opaque]
pub open spec fn polygon_bytes(p: PolygonView) -> Seq<u8> {
    let exterior = ring_table_bytes(p.exterior);
    pair_table(16, 4 + exterior.len() as int) + (exterior + vector_bytes(ring_blobs(p.holes)))
}

/// Every ring of the polygon has at least three points, and nothing is more
/// than can be counted.
pub open spec fn polygon_fits(p: PolygonView) -> bool {
    3 <= p.exterior.len() <= u32::MAX && rings_fit(p.holes) && p.holes.len() <= u32::MAX
}

/// The polygon with its rings closed.
pub open spec fn closed_polygon(p: PolygonView) -> PolygonView {
    PolygonView {
        exterior: closed_ring(p.exterior),
        holes: p.holes.map_values(|r: Seq<Point>| closed_ring(r)),
    }
}

/// A polygon is read back from its table.
proof fn lemma_polygon(buf: Seq<u8>, start: int, p: PolygonView)
    requires
        stands(buf, start, polygon_bytes(p)),
        start + polygon_bytes(p).len() <= u32::MAX,
        polygon_fits(p),
    ensures
        polygon_at(buf, start + 8) == Some(closed_polygon(p)),
{
    let exterior = ring_table_bytes(p.exterior);
    let holes = vector_bytes(ring_blobs(p.holes));
    let second = 4 + exterior.len() as int;
    reveal(polygon_bytes);
    lemma_pair_table_len(16, second);
    lemma_ring_table_len(p.exterior);
    lemma_pieces(buf, start, pair_table(16, second), exterior + holes);
    lemma_pair_table(buf, start, 16, second);
    lemma_pieces(buf, start + 20, exterior, holes);
    assert(field_target(buf, start + 8, 0) == Some(start + 28));
    lemma_ring_table(buf, start + 20, p.exterior);
    let vec_pos = start + 20 + exterior.len();
    assert(field_target(buf, start + 8, 1) == Some(vec_pos));
    lemma_vector_count(buf, vec_pos, ring_blobs(p.holes));
    assert(field_tables(buf, start + 8, 1) == Some((vec_pos + 4, p.holes.len() as int)));
    lemma_rings(buf, vec_pos, p.holes, p.holes.len());
    assert(p.holes.take(p.holes.len() as int) =~= p.holes);
}

proof fn lemma_polygon_len(p: PolygonView)
    ensures
        polygon_bytes(p).len() >= 20,
{
    reveal(polygon_bytes);
    lemma_pair_table_len(16, 4 + ring_table_bytes(p.exterior).len() as int);
}

/// The polygons, one after the other.
pub open spec fn polygon_blobs(polygons: Seq<PolygonView>) -> Seq<Seq<u8>> {
    polygons.map_values(|p: PolygonView| polygon_bytes(p))
}

/// The polygons of a vector are read back in order.
proof fn lemma_polygons(buf: Seq<u8>, pos: int, polygons: Seq<PolygonView>, count: nat)
    requires
        stands(buf, pos, vector_bytes(polygon_blobs(polygons))),
        pos + vector_bytes(polygon_blobs(polygons)).len() <= u32::MAX,
        forall|i: int| 0 <= i < polygons.len() ==> polygon_fits(#[trigger] polygons[i]),
        count <= polygons.len() <= u32::MAX,
    ensures
        polygons_in(buf, pos + 4, count) == polygons.take(count as int).map_values(
            |p: PolygonView| closed_polygon(p),
        ),
    decreases count,
{
    let close = |p: PolygonView| closed_polygon(p);
    if count == 0 {
        assert(polygons.take(0).map_values(close) =~= Seq::empty());
    } else {
        let i = count - 1;
        let blobs = polygon_blobs(polygons);
        let p = polygons[i];
        lemma_polygons(buf, pos, polygons, i as nat);
        assert(blobs[i] == polygon_bytes(p));
        lemma_polygon_len(p);
        lemma_vector(buf, pos, blobs, i);
        lemma_polygon(buf, element_start(pos, blobs, i), p);
        assert(polygon_in(buf, pos + 4, i) == Some(closed_polygon(p)));
        assert(polygons.take(count as int).map_values(close) =~= polygons.take(i).map_values(
            close,
        ).push(closed_polygon(p)));
    }
}

/// What a division chunk holds. The points of its polygons are those of the
/// open rings.
pub ghost struct ChunkContents {
    pub id: Option<Seq<char>>,
    pub name: Option<Seq<char>>,
    pub polygons: Option<Seq<PolygonView>>,
    pub names: Option<Seq<char>>,
}

/// A string, where there is one.
#[verifier::opaque]
pub open spec fn text_bytes(text: Option<Seq<char>>) -> Seq<u8> {
    match text {
        Some(t) => counted_bytes(encode_utf8(t)),
        None => Seq::empty(),
    }
}

/// The offset of a field, where the field is present.
pub open spec fn offset_if(present: bool, offset: int) -> int {
    if present {
        offset
    } else {
        0
    }
}

impl ChunkContents {
    /// The polygons, where there are any.
    pub open spec fn outline_bytes(self) -> Seq<u8> {
        match self.polygons {
            Some(polygons) => vector_bytes(polygon_blobs(polygons)),
            None => Seq::empty(),
        }
    }

    /// The offsets of the root table's fields.
    pub open spec fn offsets(self) -> Seq<int> {
        seq![
            offset_if(self.id is Some, 4),
            0,
            offset_if(self.name is Some, 8),
            0,
            0,
            0,
            0,
            0,
            0,
            offset_if(self.polygons is Some, 12),
            offset_if(self.names is Some, 16),
        ]
    }

    /// Where the identifier starts. The root table stands at 34, its four slots
    /// from 38 on, and what they refer to from 54 on.
    pub open spec fn id_start(self) -> int {
        54
    }

    /// Where the primary name starts.
    pub open spec fn name_start(self) -> int {
        self.id_start() + text_bytes(self.id).len()
    }

    /// Where the polygons start.
    pub open spec fn outline_start(self) -> int {
        self.name_start() + text_bytes(self.name).len()
    }

    /// Where the names by language start.
    pub open spec fn names_start(self) -> int {
        self.outline_start() + self.outline_bytes().len()
    }

    /// What the root table holds: forward offsets to the parts.
    #[verifier::opaque]
    pub open spec fn slots(self) -> Seq<u8> {
        bytes32(self.id_start() - 38) + bytes32(self.name_start() - 42) + bytes32(
            self.outline_start() - 46,
        ) + bytes32(self.names_start() - 50)
    }

    /// The chunk; its first four bytes are not read.
    #[verifier::opaque]
    pub open spec fn chunk(self, unread: Seq<u8>) -> Seq<u8> {
        unread + bytes32(30) + table_bytes(self.offsets(), self.slots()) + text_bytes(self.id)
            + text_bytes(self.name) + self.outline_bytes() + text_bytes(self.names)
    }

    /// Every ring has at least three points, and everything can be counted in
    /// 32 bits.
    pub open spec fn fits(self) -> bool {
        &&& self.chunk(seq![0, 0, 0, 0]).len() <= u32::MAX
        &&& self.polygons matches Some(polygons) ==> polygons.len() <= u32::MAX && forall|i: int|
            0 <= i < polygons.len() ==> polygon_fits(#[trigger] polygons[i])
    }
}

/// A text of the root table is read back through the field that refers to it.
proof fn lemma_text(buf: Seq<u8>, field: int, slot: int, pos: int, text: Option<Seq<char>>)
    requires
        root_table(buf) == Some(34int),
        field_data(buf, 34, field) == if text is Some {
            Some(slot)
        } else {
            None
        },
        u32_in(buf, slot) == Some(pos - slot),
        stands(buf, pos, text_bytes(text)),
        0 <= pos,
        pos + text_bytes(text).len() <= u32::MAX,
    ensures
        root_text(buf, field) == text,
{
    reveal(text_bytes);
    if let Some(t) = text {
        let b = encode_utf8(t);
        lemma_pieces(buf, pos, bytes32(b.len() as int), b);
        lemma_u32(buf, pos, b.len() as int);
        encode_utf8_valid_utf8(t);
        encode_utf8_decode_utf8(t);
        assert(field_bytes(buf, 34, field) == Some(b));
    }
}

/// The parts of a chunk stand where the root table says.
proof fn lemma_parts(c: ChunkContents, unread: Seq<u8>, buf: Seq<u8>)
    requires
        unread.len() == 4,
        stands(buf, 0, c.chunk(unread)),
    ensures
        stands(buf, 4, bytes32(30)),
        stands(buf, 8, table_bytes(c.offsets(), c.slots())),
        stands(buf, c.id_start(), text_bytes(c.id)),
        stands(buf, c.name_start(), text_bytes(c.name)),
        stands(buf, c.outline_start(), c.outline_bytes()),
        stands(buf, c.names_start(), text_bytes(c.names)),
        c.chunk(unread).len() == c.names_start() + text_bytes(c.names).len(),
{
    reveal(ChunkContents::chunk);
    let root = table_bytes(c.offsets(), c.slots());
    lemma_slots_len(c);
    lemma_table_len(c.offsets(), c.slots());
    let p1 = unread + bytes32(30);
    let p2 = p1 + root;
    let p3 = p2 + text_bytes(c.id);
    let p4 = p3 + text_bytes(c.name);
    let p5 = p4 + c.outline_bytes();
    assert(p2.len() == 54);
    lemma_pieces(buf, 0, p5, text_bytes(c.names));
    lemma_pieces(buf, 0, p4, c.outline_bytes());
    lemma_pieces(buf, 0, p3, text_bytes(c.name));
    lemma_pieces(buf, 0, p2, text_bytes(c.id));
    lemma_pieces(buf, 0, p1, root);
    lemma_pieces(buf, 0, unread, bytes32(30));
}

proof fn lemma_slots_len(c: ChunkContents)
    ensures
        c.slots().len() == 16,
{
    reveal(ChunkContents::slots);
}

proof fn lemma_slots(c: ChunkContents, buf: Seq<u8>)
    requires
        stands(buf, 38, c.slots()),
        c.names_start() <= u32::MAX,
    ensures
        u32_in(buf, 38) == Some(c.id_start() - 38),
        u32_in(buf, 42) == Some(c.name_start() - 42),
        u32_in(buf, 46) == Some(c.outline_start() - 46),
        u32_in(buf, 50) == Some(c.names_start() - 50),
{
    reveal(ChunkContents::slots);
    let a = bytes32(c.id_start() - 38);
    let b = bytes32(c.name_start() - 42);
    let d = bytes32(c.outline_start() - 46);
    let e = bytes32(c.names_start() - 50);
    lemma_pieces(buf, 38, a + b + d, e);
    lemma_pieces(buf, 38, a + b, d);
    lemma_pieces(buf, 38, a, b);
    lemma_u32(buf, 38, c.id_start() - 38);
    lemma_u32(buf, 42, c.name_start() - 42);
    lemma_u32(buf, 46, c.outline_start() - 46);
    lemma_u32(buf, 50, c.names_start() - 50);
}

/// The root table is found, and its fields where they are present.
proof fn lemma_root(c: ChunkContents, buf: Seq<u8>)
    requires
        stands(buf, 4, bytes32(30)),
        stands(buf, 8, table_bytes(c.offsets(), c.slots())),
    ensures
        root_table(buf) == Some(34int),
        stands(buf, 38, c.slots()),
        field_data(buf, 34, 0) == if c.id is Some {
            Some(38int)
        } else {
            None
        },
        field_data(buf, 34, 2) == if c.name is Some {
            Some(42int)
        } else {
            None
        },
        field_data(buf, 34, 9) == if c.polygons is Some {
            Some(46int)
        } else {
            None
        },
        field_data(buf, 34, 10) == if c.names is Some {
            Some(50int)
        } else {
            None
        },
{
    let offsets = c.offsets();
    lemma_slots_len(c);
    lemma_u32(buf, 4, 30);
    lemma_table_len(offsets, c.slots());
    lemma_table(buf, 8, offsets, c.slots());
    assert(offsets[0] == offset_if(c.id is Some, 4));
    assert(offsets[2] == offset_if(c.name is Some, 8));
    assert(offsets[9] == offset_if(c.polygons is Some, 12));
    assert(offsets[10] == offset_if(c.names is Some, 16));
}

/// The polygons of a chunk are read back through their field.
proof fn lemma_outline(c: ChunkContents, buf: Seq<u8>)
    requires
        root_table(buf) == Some(34int),
        field_data(buf, 34, 9) == if c.polygons is Some {
            Some(46int)
        } else {
            None
        },
        u32_in(buf, 46) == Some(c.outline_start() - 46),
        stands(buf, c.outline_start(), c.outline_bytes()),
        c.outline_start() + c.outline_bytes().len() <= u32::MAX,
        c.polygons matches Some(polygons) ==> polygons.len() <= u32::MAX && forall|i: int|
            0 <= i < polygons.len() ==> polygon_fits(#[trigger] polygons[i]),
    ensures
        geometry_of(buf) == match c.polygons {
            Some(polygons) => if polygons.len() > 0 {
                Some(polygons.map_values(|p: PolygonView| closed_polygon(p)))
            } else {
                None
            },
            None => None,
        },
{
    if let Some(polygons) = c.polygons {
        let pos = c.outline_start();
        lemma_vector_count(buf, pos, polygon_blobs(polygons));
        assert(field_target(buf, 34, FIELD_POLYGONS as int) == Some(pos));
        assert(field_tables(buf, 34, FIELD_POLYGONS as int) == Some(
            (pos + 4, polygons.len() as int),
        ));
        lemma_polygons(buf, pos, polygons, polygons.len());
        assert(polygons.take(polygons.len() as int) =~= polygons);
    }
}

/// The parts of a chunk are found through the root table.
proof fn lemma_chunk_fields(c: ChunkContents, unread: Seq<u8>, buf: Seq<u8>)
    requires
        unread.len() == 4,
        stands(buf, 0, c.chunk(unread)),
        c.chunk(unread).len() <= u32::MAX,
    ensures
        root_table(buf) == Some(34int),
        field_data(buf, 34, 0) == if c.id is Some {
            Some(38int)
        } else {
            None
        },
        field_data(buf, 34, 2) == if c.name is Some {
            Some(42int)
        } else {
            None
        },
        field_data(buf, 34, 9) == if c.polygons is Some {
            Some(46int)
        } else {
            None
        },
        field_data(buf, 34, 10) == if c.names is Some {
            Some(50int)
        } else {
            None
        },
        u32_in(buf, 38) == Some(c.id_start() - 38),
        u32_in(buf, 42) == Some(c.name_start() - 42),
        u32_in(buf, 46) == Some(c.outline_start() - 46),
        u32_in(buf, 50) == Some(c.names_start() - 50),
{
    lemma_parts(c, unread, buf);
    lemma_root(c, buf);
    lemma_slots(c, buf);
}

/// What is read from a chunk.
pub open spec fn reads_back(c: ChunkContents, buf: Seq<u8>) -> bool {
    &&& root_text(buf, FIELD_ID as int) == c.id
    &&& root_text(buf, FIELD_NAME as int) == c.name
    &&& root_text(buf, FIELD_NAMES_COMMON as int) == c.names
    &&& geometry_of(buf) == match c.polygons {
        Some(polygons) => if polygons.len() > 0 {
            Some(polygons.map_values(|p: PolygonView| closed_polygon(p)))
        } else {
            None
        },
        None => None,
    }
}

/// A division chunk is read back: its identifier, its names, and its polygons
/// with closed rings. What the first four bytes are and what follows the chunk
/// does not matter.
pub proof fn law_chunk_round_trip(c: ChunkContents, unread: Seq<u8>, behind: Seq<u8>)
    requires
        c.fits(),
        unread.len() == 4,
    ensures
        reads_back(c, c.chunk(unread) + behind),
{
    let buf = c.chunk(unread) + behind;
    assert(buf.subrange(0, c.chunk(unread).len() as int) =~= c.chunk(unread));
    lemma_unread_does_not_count(c, unread);
    lemma_chunk_fields(c, unread, buf);
    lemma_parts(c, unread, buf);
    lemma_text(buf, 0, 38, c.id_start(), c.id);
    lemma_text(buf, 2, 42, c.name_start(), c.name);
    lemma_text(buf, 10, 50, c.names_start(), c.names);
    lemma_outline(c, buf);
}

proof fn lemma_unread_does_not_count(c: ChunkContents, unread: Seq<u8>)
    requires
        unread.len() == 4,
    ensures
        c.chunk(unread).len() == c.chunk(seq![0, 0, 0, 0]).len(),
{
    reveal(ChunkContents::chunk);
}

/// The polygons of a written chunk are found one by one, with closed rings.
pub proof fn lemma_written_polygon(c: ChunkContents, unread: Seq<u8>, behind: Seq<u8>, i: int)
    requires
        c.fits(),
        unread.len() == 4,
    ensures
        ({
            let buf = c.chunk(unread) + behind;
            match c.polygons {
                None => polygon_tables(buf) is None,
                Some(polygons) => polygon_tables(buf) == Some(
                    (c.outline_start() + 4, polygons.len() as int),
                ) && (0 <= i < polygons.len() ==> polygon_in(buf, c.outline_start() + 4, i) == Some(
                    closed_polygon(polygons[i]),
                )),
            }
        }),
{
    let buf = c.chunk(unread) + behind;
    assert(buf.subrange(0, c.chunk(unread).len() as int) =~= c.chunk(unread));
    lemma_unread_does_not_count(c, unread);
    lemma_chunk_fields(c, unread, buf);
    lemma_parts(c, unread, buf);
    if let Some(polygons) = c.polygons {
        let pos = c.outline_start();
        let blobs = polygon_blobs(polygons);
        lemma_vector_count(buf, pos, blobs);
        assert(field_target(buf, 34, FIELD_POLYGONS as int) == Some(pos));
        if 0 <= i < polygons.len() {
            assert(blobs[i] == polygon_bytes(polygons[i]));
            lemma_polygon_len(polygons[i]);
            lemma_vector(buf, pos, blobs, i);
            lemma_polygon(buf, element_start(pos, blobs, i), polygons[i]);
        }
    }
}

} // verus!
