//! What is read from a chunk, in terms of the bytes that stand in it.

use vstd::arithmetic::power2::{lemma2_to64, lemma_pow2_adds, pow2};
use vstd::prelude::*;
use vstd::utf8::{
    decode_utf8, encode_utf8, encode_utf8_decode_utf8, encode_utf8_valid_utf8, valid_utf8,
};

use crate::bytes::{bytes32, signed32};
use crate::chunk::{
    closed_polygon, lemma_numbers16, lemma_pieces, lemma_u32, lemma_written_polygon, numbers16,
    stands, ChunkContents,
};
use crate::flatbuf::{
    answer, bytes_at, chunk_answer, field_bytes, field_data, field_number, field_tables,
    field_target, field_text, geometry_of, law_chunk_answer_is_any, polygon_at, polygon_holds,
    polygon_in, polygon_tables, polygons_in, ring_at, rings_in, root_table, root_text,
    table_in_vec, u16_in, PolygonRings, PolygonView,
};
use crate::ring::{ring, ring_points, unzigzag, varint_at, varint_from, Point};

verus! {

/// A signed number of 32 bits as it is stored.
pub open spec fn stored32(n: int) -> int {
    if n < 0 {
        n + 4294967296
    } else {
        n
    }
}

/// A field is found through the vtable, wherever the vtable stands: the table
/// holds the distance back to it, and it holds its size, the size of the table,
/// and the offsets of the fields. An offset of zero means that the field is
/// absent, and so does a vtable that ends before it.
pub proof fn law_field_is_found(
    buf: Seq<u8>,
    table: int,
    vtable: int,
    table_size: int,
    offsets: Seq<int>,
    field: int,
)
    requires
        stands(
            buf,
            vtable,
            numbers16(seq![4 + 2 * offsets.len() as int, table_size] + offsets),
        ),
        -2147483648 <= table - vtable <= 2147483647,
        stands(buf, table, bytes32(stored32(table - vtable))),
        offsets.len() <= 32765,
        0 <= table_size <= 65535,
        forall|i: int| 0 <= i < offsets.len() ==> 0 <= #[trigger] offsets[i] <= 65535,
        table + 65535 <= usize::MAX,
        0 <= field,
    ensures
        field_data(buf, table, field) == if field < offsets.len() && offsets[field] != 0 {
            Some(table + offsets[field])
        } else {
            None
        },
{
    let list = seq![4 + 2 * offsets.len() as int, table_size] + offsets;
    assert forall|i: int| 0 <= i < list.len() implies 0 <= #[trigger] list[i] <= u16::MAX by {
        if i >= 2 {
            assert(list[i] == offsets[i - 2]);
        }
    }
    lemma_numbers16(buf, vtable, list);
    lemma_u32(buf, table, stored32(table - vtable));
    assert(signed32(stored32(table - vtable)) == table - vtable);
    assert(list[0] == 4 + 2 * offsets.len());
    assert(u16_in(buf, vtable + 2 * 0) == Some(list[0]));
    if field < offsets.len() {
        assert(list[field + 2] == offsets[field]);
        assert(u16_in(buf, vtable + 2 * (field + 2)) == Some(list[field + 2]));
    }
}

/// Nothing is found in a table that does not lie in the buffer, nor through a
/// vtable that does not.
pub proof fn law_no_field_outside(buf: Seq<u8>, table: int, distance: int, field: int)
    ensures
        table < 0 || table + 4 > buf.len() ==> field_data(buf, table, field) is None,
        -2147483648 <= distance <= 2147483647 && stands(buf, table, bytes32(stored32(distance)))
            && (table - distance < 0 || table - distance + 2 > buf.len()) ==> field_data(
            buf,
            table,
            field,
        ) is None,
{
    if -2147483648 <= distance <= 2147483647 && stands(buf, table, bytes32(stored32(distance))) {
        lemma_u32(buf, table, stored32(distance));
        assert(signed32(stored32(distance)) == distance);
    }
}

/// The root table is where the second number of the chunk leads, counted from
/// the number itself.
pub proof fn law_root_is_found(buf: Seq<u8>, offset: int)
    ensures
        buf.len() < 8 ==> root_table(buf) is None,
        0 <= offset <= 4294967295 && stands(buf, 4, bytes32(offset)) && 4 + offset <= usize::MAX
            ==> root_table(buf) == Some(4 + offset),
{
    if 0 <= offset <= 4294967295 && stands(buf, 4, bytes32(offset)) {
        lemma_u32(buf, 4, offset);
    }
}

/// What a field refers to is where its number leads, counted from the number;
/// a string or vector there is read with its own length.
pub proof fn law_bytes_are_read(
    buf: Seq<u8>,
    table: int,
    field: int,
    slot: int,
    offset: int,
    b: Seq<u8>,
)
    requires
        field_data(buf, table, field) == Some(slot),
        0 <= offset <= 4294967295,
        stands(buf, slot, bytes32(offset)),
        slot + offset <= usize::MAX,
        b.len() <= 4294967295,
        stands(buf, slot + offset, bytes32(b.len() as int) + b),
    ensures
        field_target(buf, table, field) == Some(slot + offset),
        field_bytes(buf, table, field) == Some(b),
        valid_utf8(b) ==> field_text(buf, table, field) == Some(decode_utf8(b)),
        !valid_utf8(b) ==> field_text(buf, table, field) is None,
        forall|t: Seq<char>| b == #[trigger] encode_utf8(t) ==> field_text(buf, table, field)
            == Some(t),
{
    let pos = slot + offset;
    lemma_u32(buf, slot, offset);
    lemma_pieces(buf, pos, bytes32(b.len() as int), b);
    lemma_u32(buf, pos, b.len() as int);
    assert(bytes_at(buf, pos + 4, b.len() as int) == Some(b));
    assert forall|t: Seq<char>| b == #[trigger] encode_utf8(t) implies field_text(
        buf,
        table,
        field,
    ) == Some(t) by {
        encode_utf8_valid_utf8(t);
        encode_utf8_decode_utf8(t);
    }
}

/// A string or vector that does not lie in the buffer is not read, and nothing
/// is read through a field that is absent.
pub proof fn law_no_bytes_outside(
    buf: Seq<u8>,
    table: int,
    field: int,
    slot: int,
    offset: int,
    len: int,
)
    ensures
        field_data(buf, table, field) is None ==> field_bytes(buf, table, field) is None
            && field_text(buf, table, field) is None && field_tables(buf, table, field) is None
            && field_number(buf, table, field) == 0,
        field_data(buf, table, field) == Some(slot) && slot + 4 > buf.len() ==> field_bytes(
            buf,
            table,
            field,
        ) is None && field_text(buf, table, field) is None && field_number(buf, table, field) == 0,
        ({
            &&& field_data(buf, table, field) == Some(slot)
            &&& 0 <= offset <= 4294967295 && stands(buf, slot, bytes32(offset))
            &&& 0 <= len <= 4294967295 && stands(buf, slot + offset, bytes32(len))
            &&& slot + offset + 4 + len > buf.len()
        }) ==> field_bytes(buf, table, field) is None && field_text(buf, table, field) is None,
{
    if 0 <= offset <= 4294967295 && stands(buf, slot, bytes32(offset)) && 0 <= len <= 4294967295
        && stands(buf, slot + offset, bytes32(len)) {
        lemma_u32(buf, slot, offset);
        lemma_u32(buf, slot + offset, len);
    }
}

/// A number that a field holds is read where the field stands.
pub proof fn law_number_is_read(buf: Seq<u8>, table: int, field: int, slot: int, n: int)
    requires
        field_data(buf, table, field) == Some(slot),
        0 <= n <= 4294967295,
        stands(buf, slot, bytes32(n)),
    ensures
        field_number(buf, table, field) == n,
{
    lemma_u32(buf, slot, n);
}

/// The tables of a vector are where its offsets lead, each counted from itself.
pub proof fn law_tables_are_found(
    buf: Seq<u8>,
    table: int,
    field: int,
    pos: int,
    count: int,
    i: int,
    offset: int,
)
    ensures
        field_target(buf, table, field) == Some(pos) && 0 <= count <= 4294967295 && stands(
            buf,
            pos,
            bytes32(count),
        ) ==> field_tables(buf, table, field) == Some((pos + 4, count)),
        0 <= offset <= 4294967295 && stands(buf, pos + 4 * i, bytes32(offset)) && pos + 4 * i
            + offset <= usize::MAX ==> table_in_vec(buf, pos, i) == Some(pos + 4 * i + offset),
        pos + 4 * i + 4 > buf.len() || pos + 4 * i < 0 ==> table_in_vec(buf, pos, i) is None,
{
    if 0 <= count <= 4294967295 && stands(buf, pos, bytes32(count)) {
        lemma_u32(buf, pos, count);
    }
    if 0 <= offset <= 4294967295 && stands(buf, pos + 4 * i, bytes32(offset)) {
        lemma_u32(buf, pos + 4 * i, offset);
    }
}

/// A ring table gives the ring of its data, with the number of points that it
/// holds; a polygon table gives its exterior ring and those of its holes that
/// can be read, and nothing without an exterior.
pub proof fn law_polygon_of_a_table(buf: Seq<u8>, table: int, first: int, n: nat)
    ensures
        ring_at(buf, table) is None <==> (field_bytes(buf, table, 0) is None || ring(
            field_bytes(buf, table, 0)->0,
            field_number(buf, table, 1) as nat,
        ) is None),
        ring_at(buf, table) is Some ==> ring_at(buf, table) == ring(
            field_bytes(buf, table, 0)->0,
            field_number(buf, table, 1) as nat,
        ),
        polygon_at(buf, table) is Some <==> field_target(buf, table, 0) is Some && ring_at(
            buf,
            field_target(buf, table, 0)->0,
        ) is Some,
        polygon_at(buf, table) matches Some(p) ==> Some(p.exterior) == ring_at(
            buf,
            field_target(buf, table, 0)->0,
        ),
        polygon_at(buf, table) is Some && field_tables(buf, table, 1) is None ==> polygon_at(
            buf,
            table,
        )->0.holes.len() == 0,
        polygon_at(buf, table) is Some && field_tables(buf, table, 1) is Some ==> polygon_at(
            buf,
            table,
        )->0.holes == rings_in(
            buf,
            (field_tables(buf, table, 1)->0).0,
            (field_tables(buf, table, 1)->0).1 as nat,
        ),
        rings_in(buf, first, 0).len() == 0,
        rings_in(buf, first, n + 1) == if table_in_vec(buf, first, n as int) is Some && ring_at(
            buf,
            table_in_vec(buf, first, n as int)->0,
        ) is Some {
            rings_in(buf, first, n).push(ring_at(buf, table_in_vec(buf, first, n as int)->0)->0)
        } else {
            rings_in(buf, first, n)
        },
{
}

/// The outline of a chunk is made up of the polygons that the tables of its
/// tenth field describe, in order, those that cannot be read left out; without
/// one that can be read there is no outline.
pub proof fn law_outline_of_a_chunk(chunk: Seq<u8>, first: int, n: nat)
    ensures
        polygon_tables(chunk) == match root_table(chunk) {
            Some(root) => field_tables(chunk, root, 9),
            None => None,
        },
        geometry_of(chunk) is Some <==> polygon_tables(chunk) is Some && polygons_in(
            chunk,
            (polygon_tables(chunk)->0).0,
            (polygon_tables(chunk)->0).1 as nat,
        ).len() > 0,
        geometry_of(chunk) matches Some(g) ==> g == polygons_in(
            chunk,
            (polygon_tables(chunk)->0).0,
            (polygon_tables(chunk)->0).1 as nat,
        ),
        polygon_in(chunk, first, n as int) == match table_in_vec(chunk, first, n as int) {
            Some(table) => polygon_at(chunk, table),
            None => None,
        },
        polygons_in(chunk, first, 0).len() == 0,
        polygons_in(chunk, first, n + 1) == if polygon_in(chunk, first, n as int) is Some {
            polygons_in(chunk, first, n).push(polygon_in(chunk, first, n as int)->0)
        } else {
            polygons_in(chunk, first, n)
        },
{
}

/// The text of a field of the root table is that of the field of the table that
/// the chunk leads to.
pub proof fn law_text_of_the_root(chunk: Seq<u8>, field: int)
    ensures
        root_text(chunk, field) == match root_table(chunk) {
            Some(root) => field_text(chunk, root, field),
            None => None,
        },
{
}

/// Where a point is in a polygon is decided by its points alone, a chunk that
/// was written from contents holds it exactly if one of the written polygons
/// does.
pub proof fn law_written_chunk_holds_points<F: Fn(&PolygonRings) -> bool>(
    c: ChunkContents,
    unread: Seq<u8>,
    behind: Seq<u8>,
    covers: F,
    holds: spec_fn(PolygonView) -> bool,
    r: bool,
)
    requires
        c.fits(),
        unread.len() == 4,
        forall|p: PolygonRings, b: bool| #[trigger]
            call_ensures(covers, (&p,), b) ==> b == holds(p@),
        chunk_answer(covers, c.chunk(unread) + behind, r),
    ensures
        r <==> c.polygons is Some && exists|i: int|
            0 <= i < c.polygons->0.len() && holds(closed_polygon(#[trigger] c.polygons->0[i])),
{
    let buf = c.chunk(unread) + behind;
    law_chunk_answer_is_any(covers, holds, buf, r);
    lemma_written_polygon(c, unread, behind, 0);
    if let Some(polygons) = c.polygons {
        let (first, count) = polygon_tables(buf)->0;
        assert forall|i: int| 0 <= i < polygons.len() implies #[trigger] polygon_holds(
            buf,
            first,
            i,
            holds,
        ) == holds(closed_polygon(polygons[i])) by {
            lemma_written_polygon(c, unread, behind, i);
        }
        if r {
            let i = choose|i: int| 0 <= i < count && #[trigger] polygon_holds(buf, first, i, holds);
            assert(holds(closed_polygon(polygons[i])));
        }
        if exists|i: int| 0 <= i < polygons.len() && holds(closed_polygon(#[trigger] polygons[i])) {
            let i = choose|i: int|
                0 <= i < polygons.len() && holds(closed_polygon(#[trigger] polygons[i]));
            assert(polygon_holds(buf, first, i, holds));
        }
    }
}

/// A chunk without polygons that can be read, or without a root, holds no point,
/// and nothing is asked about a polygon that cannot be read.
pub proof fn law_answers<F: Fn(&PolygonRings) -> bool>(covers: F, r: bool, view: PolygonView)
    ensures
        answer(covers, None, r) <==> !r,
        answer(covers, Some(view), r) <==> exists|p: PolygonRings|
            p@ == view && #[trigger] call_ensures(covers, (&p,), r),
{
}

/// The number that groups of seven bits make up, the first one least.
pub open spec fn groups_value(groups: Seq<u8>) -> int
    decreases groups.len(),
{
    if groups.len() == 0 {
        0
    } else {
        groups[0] as int % 128 + 128 * groups_value(groups.drop_first())
    }
}

proof fn lemma_groups(data: Seq<u8>, pos: int, n: nat, done: nat, acc: int)
    requires
        1 <= n,
        done + n <= 10,
        0 <= pos,
        pos + n <= data.len(),
        forall|i: int| 0 <= i < n - 1 ==> #[trigger] data[pos + i] >= 128,
        data[pos + n - 1] < 128,
    ensures
        varint_from(data, pos, done, acc) == ({
            let value = (acc + groups_value(data.subrange(pos, pos + n)) * pow2(7 * done))
                % 18446744073709551616;
            if value <= 4294967295 {
                (Some(value as u32), pos + n)
            } else {
                (None, pos + n)
            }
        }),
    decreases n,
{
    let groups = data.subrange(pos, pos + n);
    let p = pow2(7 * done) as int;
    assert(groups[0] == data[pos]);
    let head = data[pos] as int % 128;
    let rest = groups.drop_first();
    assert(rest =~= data.subrange(pos + 1, pos + n));
    let tail = groups_value(rest);
    lemma2_to64();
    lemma_pow2_adds(7 * done, 7);
    assert(7 * done + 7 == 7 * (done + 1));
    assert((head + 128 * tail) * p == head * p + tail * (p * 128)) by (nonlinear_arith);
    if n > 1 {
        assert(data[pos + 0] >= 128);
        assert forall|i: int| 0 <= i < n - 2 implies #[trigger] data[pos + 1 + i] >= 128 by {
            assert(data[pos + (i + 1)] >= 128);
        }
        lemma_groups(data, pos + 1, (n - 1) as nat, done + 1, acc + head * p);
    } else {
        assert(rest =~= Seq::empty());
        assert(tail == 0);
        assert(tail * (p * 128) == 0) by (nonlinear_arith)
            requires
                tail == 0,
        ;
    }
}

/// A varint is the number of its groups of seven bits, up to the first byte
/// without the top bit. Ten groups are read at most; the number counts modulo
/// two to the power of 64 and has to fit in 32 bits.
pub proof fn law_varint_value(data: Seq<u8>, pos: int, n: nat)
    requires
        1 <= n <= 10,
        0 <= pos,
        pos + n <= data.len(),
        forall|i: int| 0 <= i < n - 1 ==> #[trigger] data[pos + i] >= 128,
        data[pos + n - 1] < 128,
    ensures
        ({
            let value = groups_value(data.subrange(pos, pos + n)) % 18446744073709551616;
            &&& varint_at(data, pos).0 == if value <= 4294967295 {
                Some(value as u32)
            } else {
                None
            }
            &&& varint_at(data, pos).1 == pos + n
        }),
{
    lemma2_to64();
    assert(pow2(7 * 0nat) == 1);
    lemma_groups(data, pos, n, 0, 0);
    let v = groups_value(data.subrange(pos, pos + n));
    assert(v * pow2(7 * 0nat) == v);
}

proof fn lemma_unfinished(data: Seq<u8>, pos: int, n: nat, done: nat, acc: int)
    requires
        done + n <= 10,
        0 <= pos,
        pos + n <= data.len(),
        forall|i: int| 0 <= i < n ==> #[trigger] data[pos + i] >= 128,
        pos + n == data.len() || (done + n == 10 && n > 0),
    ensures
        varint_from(data, pos, done, acc) == (None::<u32>, pos + n),
    decreases n,
{
    if n > 0 {
        assert(data[pos + 0] >= 128);
        if done + 1 < 10 {
            assert forall|i: int| 0 <= i < n - 1 implies #[trigger] data[pos + 1 + i] >= 128 by {
                assert(data[pos + (i + 1)] >= 128);
            }
            lemma_unfinished(
                data,
                pos + 1,
                (n - 1) as nat,
                done + 1,
                acc + (data[pos] as int % 0x80) * pow2(7 * done),
            );
        }
    }
}

/// A varint that the data end in, or that has more than ten groups, is none.
pub proof fn law_unfinished_varint(data: Seq<u8>, pos: int, n: nat)
    requires
        n <= 10,
        0 <= pos,
        pos + n <= data.len(),
        forall|i: int| 0 <= i < n ==> #[trigger] data[pos + i] >= 128,
        pos + n == data.len() || n == 10,
    ensures
        varint_at(data, pos) == (None::<u32>, pos + n),
{
    lemma_unfinished(data, pos, n, 0, 0);
}

/// The zigzag codes count 0, -1, 1, -2, 2 and so on.
pub proof fn law_zigzag_codes(v: u32)
    ensures
        v % 2 == 0 ==> 2 * unzigzag(v) == v,
        v % 2 == 1 ==> -2 * unzigzag(v) - 1 == v,
{
}

/// Where the `k`-th varint of the data starts.
pub open spec fn varint_start(data: Seq<u8>, k: nat) -> int
    decreases k,
{
    if k == 0 {
        0
    } else {
        varint_at(data, varint_start(data, (k - 1) as nat)).1
    }
}

/// The `k`-th varint of the data.
pub open spec fn nth_varint(data: Seq<u8>, k: int) -> Option<u32> {
    varint_at(data, varint_start(data, k as nat)).0
}

/// Both differences of the `i`-th point can be read.
pub open spec fn pair_read(data: Seq<u8>, i: int) -> bool {
    nth_varint(data, 2 * i) is Some && nth_varint(data, 2 * i + 1) is Some
}

/// The differences of the first `n` points can be read.
pub open spec fn pairs_read(data: Seq<u8>, n: nat) -> bool {
    forall|i: int| 0 <= i < n ==> #[trigger] pair_read(data, i)
}

/// A point is the one before it, moved by the decoded differences.
pub open spec fn moves(data: Seq<u8>, i: int, from: Point, to: Point) -> bool {
    &&& to.x == from.x.wrapping_add(unzigzag(nth_varint(data, 2 * i)->0))
    &&& to.y == from.y.wrapping_add(unzigzag(nth_varint(data, 2 * i + 1)->0))
}

/// The point before the `i`-th, for the first one the origin.
pub open spec fn point_before(points: Seq<Point>, i: int) -> Point {
    if i == 0 {
        Point { x: 0, y: 0 }
    } else {
        points[i - 1]
    }
}

/// The points follow one another by the decoded differences, from the origin on.
pub open spec fn points_follow(data: Seq<u8>, points: Seq<Point>) -> bool {
    forall|i: int|
        0 <= i < points.len() ==> moves(data, i, point_before(points, i), #[trigger] points[i])
}

/// One point more.
proof fn lemma_one_more_point(data: Seq<u8>, m: nat, before: Seq<Point>)
    requires
        ring_points(data, m) == Some((before, varint_start(data, 2 * m))),
        before.len() == m,
    ensures
        ring_points(data, m + 1) is Some <==> pair_read(data, m as int),
        ring_points(data, m + 1) matches Some((points, pos)) ==> points.len() == m + 1
            && points.drop_last() == before && pos == varint_start(data, 2 * (m + 1)) && moves(
            data,
            m as int,
            point_before(points, m as int),
            points.last(),
        ),
{
    let k = 2 * m;
    assert(varint_start(data, k + 1) == varint_at(data, varint_start(data, k)).1);
    assert(varint_start(data, k + 2) == varint_at(data, varint_start(data, k + 1)).1);
    assert(nth_varint(data, 2 * m as int) == varint_at(data, varint_start(data, k)).0);
    assert(nth_varint(data, 2 * m as int + 1) == varint_at(data, varint_start(data, k + 1)).0);
    assert(2 * (m + 1) == k + 2);
    if let Some((points, pos)) = ring_points(data, m + 1) {
        assert(points.drop_last() =~= before);
    }
}

proof fn lemma_points_follow(data: Seq<u8>, n: nat)
    ensures
        ring_points(data, n) is Some <==> pairs_read(data, n),
        ring_points(data, n) matches Some((points, pos)) ==> points.len() == n && pos
            == varint_start(data, 2 * n) && points_follow(data, points),
    decreases n,
{
    if n > 0 {
        let m = (n - 1) as nat;
        lemma_points_follow(data, m);
        assert(pairs_read(data, n) <==> pairs_read(data, m) && pair_read(data, m as int));
        if let Some((before, pos)) = ring_points(data, m) {
            lemma_one_more_point(data, m, before);
            if let Some((points, _)) = ring_points(data, n) {
                assert forall|i: int| 0 <= i < points.len() implies moves(
                    data,
                    i,
                    point_before(points, i),
                    #[trigger] points[i],
                ) by {
                    if i < m {
                        assert(points[i] == before[i]);
                        assert(point_before(points, i) == point_before(before, i));
                    }
                }
            }
        }
    }
}

/// A ring is made up of the points whose differences the data hold, two varints
/// for each point, longitude first; the first point stands at the end again.
/// There is no ring of fewer than three points, nor one of which a difference
/// cannot be read.
pub proof fn law_ring_follows_its_differences(data: Seq<u8>, count: nat)
    ensures
        ring(data, count) is Some <==> count >= 3 && pairs_read(data, count),
        ring(data, count) matches Some(points) ==> points.len() == count + 1 && points[count as int]
            == points[0] && points_follow(data, points.drop_last()),
{
    lemma_points_follow(data, count);
    if let Some(points) = ring(data, count) {
        assert(points.drop_last() =~= (ring_points(data, count)->0).0);
    }
}

} // verus!
