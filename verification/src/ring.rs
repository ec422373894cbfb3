//! Delta-varint coding of polygon rings.
//!
//! A ring is stored as the differences between successive points, longitude
//! before latitude. Each difference is zigzag coded, so that small numbers of
//! either sign become small unsigned numbers, and written in groups of seven
//! bits, the least significant group first, with the top bit set on every
//! byte but the last.

use vstd::arithmetic::power2::{
    lemma2_to64, lemma2_to64_rest, lemma_pow2_adds, lemma_pow2_pos, lemma_pow2_strictly_increases,
    pow2,
};
use vstd::prelude::*;

verus! {

/// A position in units of a hundred-thousandth of a degree.
#[derive(Clone, Copy, Debug, PartialEq, Eq, Structural)]
pub struct Point {
    pub x: i32,
    pub y: i32,
}

/// Continues to read a varint at `pos` after `groups` groups of seven bits
/// that make up `acc`: the number, and the position behind it.
///
/// A number has at most ten groups. It is taken modulo two to the power of 64
/// and has to fit in 32 bits.
pub open spec fn varint_from(data: Seq<u8>, pos: int, groups: nat, acc: int) -> (Option<u32>, int)
    decreases 10 - groups,
{
    if pos >= data.len() {
        (None, pos)
    } else {
        let sum = acc + (data[pos] as int % 0x80) * pow2(7 * groups);
        if data[pos] < 0x80 {
            let value = sum % 0x1_0000_0000_0000_0000;
            if value <= u32::MAX {
                (Some(value as u32), pos + 1)
            } else {
                (None, pos + 1)
            }
        } else if groups >= 9 {
            (None, pos + 1)
        } else {
            varint_from(data, pos + 1, groups + 1, sum)
        }
    }
}

/// The varint at `pos`, and the position behind it.
pub open spec fn varint_at(data: Seq<u8>, pos: int) -> (Option<u32>, int) {
    varint_from(data, pos, 0, 0)
}

/// The signed number that a zigzag code stands for.
pub open spec fn unzigzag(v: u32) -> i32 {
    if v % 2 == 0 {
        (v / 2) as i32
    } else {
        (-(v / 2) - 1) as i32
    }
}

/// The first `count` points of a ring, and the position behind them.
/// Coordinates wrap around at 32 bits.
pub open spec fn ring_points(data: Seq<u8>, count: nat) -> Option<(Seq<Point>, int)>
    decreases count,
{
    if count == 0 {
        Some((Seq::empty(), 0))
    } else {
        match ring_points(data, (count - 1) as nat) {
            None => None,
            Some((points, pos)) => {
                let (x, behind_x) = varint_at(data, pos);
                let (y, behind_y) = varint_at(data, behind_x);
                if x is None || y is None {
                    None
                } else {
                    let from = if points.len() == 0 {
                        Point { x: 0, y: 0 }
                    } else {
                        points.last()
                    };
                    let to = Point {
                        x: from.x.wrapping_add(unzigzag(x->0)),
                        y: from.y.wrapping_add(unzigzag(y->0)),
                    };
                    Some((points.push(to), behind_y))
                }
            },
        }
    }
}

/// The closed ring of `count` points: the first point stands at the end again.
/// Fewer than three points make no ring.
pub open spec fn ring(data: Seq<u8>, count: nat) -> Option<Seq<Point>> {
    if count < 3 {
        None
    } else {
        match ring_points(data, count) {
            Some((points, _)) => Some(points.push(points[0])),
            None => None,
        }
    }
}

/// Reads a varint at `pos` and moves `pos` behind what was read.
pub fn read_uvarint32(data: &[u8], pos: &mut usize) -> (r: Option<u32>)
    ensures
        r == varint_at(data@, *old(pos) as int).0,
        *final(pos) == varint_at(data@, *old(pos) as int).1,
        *old(pos) <= data@.len() ==> *final(pos) <= data@.len(),
{
    let mut result: u64 = 0;
    let mut shift: u32 = 0;
    let ghost start = *pos;
    let ghost mut groups: nat = 0;
    let ghost mut acc: int = 0;
    proof {
        lemma2_to64();
    }
    loop
        invariant
            start == *old(pos),
            start <= data@.len() ==> *pos <= data@.len(),
            shift == 7 * groups,
            groups <= 9,
            result == acc,
            0 <= acc < pow2(shift as nat),
            varint_at(data@, start as int) == varint_from(data@, *pos as int, groups, acc),
        decreases 10 - groups,
    {
        if *pos >= data.len() {
            return None;
        }
        let byte: u8 = data[*pos];
        *pos = *pos + 1;
        let low: u64 = (byte & 0x7f) as u64;
        let ghost sum = acc + (byte as int % 0x80) * pow2(7 * groups);
        proof {
            assert(byte & 0x7f == byte % 0x80) by (bit_vector);
            lemma_append_group(result, low, shift);
        }
        result = result | (low << shift);
        assert(result as int == sum % 0x1_0000_0000_0000_0000);
        if byte < 0x80 {
            if result <= 0xffff_ffff {
                return Some(result as u32);
            }
            return None;
        }
        shift = shift + 7;
        if shift >= 64 {
            return None;
        }
        proof {
            groups = groups + 1;
            acc = sum;
        }
    }
}

/// Adding a group of seven bits above the bits already read.
proof fn lemma_append_group(result: u64, low: u64, shift: u32)
    requires
        shift <= 63,
        shift % 7 == 0,
        low < 0x80,
        result < pow2(shift as nat),
    ensures
        (result | (low << shift)) as int == (result + low * pow2(shift as nat))
            % 0x1_0000_0000_0000_0000,
        shift <= 56 ==> result + low * pow2(shift as nat) < pow2((shift + 7) as nat)
            <= 0x8000_0000_0000_0000,
{
    lemma2_to64();
    lemma2_to64_rest();
    let p = pow2(shift as nat) as int;
    if shift <= 56 {
        lemma_pow2_adds(shift as nat, 7);
        lemma_pow2_strictly_increases(shift as nat, 64);
        if shift < 56 {
            lemma_pow2_strictly_increases((shift + 7) as nat, 63);
        }
        assert(result + low * p < p * 0x80) by (nonlinear_arith)
            requires
                low < 0x80,
                result < p,
        ;
        assert(low * p <= u64::MAX) by (nonlinear_arith)
            requires
                result + low * p < p * 0x80,
                p * 0x80 <= 0x8000_0000_0000_0000,
                result >= 0,
        ;
        vstd::bits::lemma_u64_shl_is_mul(low, shift as u64);
        vstd::bits::lemma_u64_shl_is_mul(1, shift as u64);
        assert(low << (shift as u64) == low << shift);
        let wide = shift as u64;
        assert((result | (low << wide)) == result + (low << wide)) by (bit_vector)
            requires
                wide <= 56,
                low < 0x80,
                result < (1u64 << wide),
        ;
    } else {
        assert(pow2(63) == 0x8000_0000_0000_0000);
        assert((result | (low << 63u32)) == result + (low % 2) * 0x8000_0000_0000_0000)
            by (bit_vector)
            requires
                result < 0x8000_0000_0000_0000,
        ;
    }
}

/// The signed number that a zigzag code stands for.
pub fn decode_zigzag(v: u32) -> (r: i32)
    ensures
        r == unzigzag(v),
{
    let half: i32 = (v / 2) as i32;
    if v % 2 == 0 {
        half
    } else {
        -half - 1
    }
}

/// A point that cannot be read ends the ring, whatever should follow.
proof fn lemma_ring_error_stays(data: Seq<u8>, done: nat, count: nat)
    requires
        done <= count,
        ring_points(data, done) is None,
    ensures
        ring_points(data, count) is None,
    decreases count,
{
    if done < count {
        lemma_ring_error_stays(data, done, (count - 1) as nat);
    }
}

/// Decodes a ring of `point_count` points and closes it.
pub fn decode_ring(data: &[u8], point_count: u32) -> (r: Option<Vec<Point>>)
    ensures
        match r {
            Some(points) => ring(data@, point_count as nat) == Some(points@),
            None => ring(data@, point_count as nat) is None,
        },
{
    if point_count < 3 {
        return None;
    }
    let mut points: Vec<Point> = Vec::new();
    let mut cursor: usize = 0;
    let mut x: i32 = 0;
    let mut y: i32 = 0;
    let mut done: u32 = 0;
    while done < point_count
        invariant
            done <= point_count,
            cursor <= data@.len(),
            points@.len() == done,
            ring_points(data@, done as nat) == Some((points@, cursor as int)),
            done == 0 ==> x == 0 && y == 0,
            done > 0 ==> points@.last() == (Point { x, y }),
        decreases point_count - done,
    {
        let dx: Option<u32> = read_uvarint32(data, &mut cursor);
        let dy: Option<u32> = read_uvarint32(data, &mut cursor);
        match (dx, dy) {
            (Some(dx), Some(dy)) => {
                x = x.wrapping_add(decode_zigzag(dx));
                y = y.wrapping_add(decode_zigzag(dy));
                points.push(Point { x, y });
                done = done + 1;
            },
            _ => {
                proof {
                    lemma_ring_error_stays(data@, done as nat + 1, point_count as nat);
                }
                return None;
            },
        }
    }
    let first: Point = points[0];
    points.push(first);
    Some(points)
}

/// The zigzag code of a signed number.
pub open spec fn zigzag(d: i32) -> u32 {
    if d >= 0 {
        (2 * d) as u32
    } else {
        (-2 * d - 1) as u32
    }
}

/// A number in groups of seven bits, the least significant first, the top bit
/// set on all bytes but the last.
pub open spec fn varint_bytes(v: nat) -> Seq<u8>
    decreases v,
{
    if v < 0x80 {
        seq![v as u8]
    } else {
        seq![(v % 0x80 + 0x80) as u8] + varint_bytes(v / 0x80)
    }
}

/// The bytes of an open ring: for each point the coded differences to the
/// point before, the first one's to the origin.
pub open spec fn ring_bytes(points: Seq<Point>) -> Seq<u8>
    decreases points.len(),
{
    if points.len() == 0 {
        Seq::empty()
    } else {
        let before = points.drop_last();
        let from = if before.len() == 0 {
            Point { x: 0, y: 0 }
        } else {
            before.last()
        };
        let to = points.last();
        ring_bytes(before) + varint_bytes(zigzag(to.x.wrapping_sub(from.x)) as nat) + varint_bytes(
            zigzag(to.y.wrapping_sub(from.y)) as nat,
        )
    }
}

/// Zigzag coding is one to one: decoding undoes it, and it undoes decoding.
pub proof fn law_zigzag_round_trip(d: i32, v: u32)
    ensures
        unzigzag(zigzag(d)) == d,
        zigzag(unzigzag(v)) == v,
{
}

/// A continued varint reads back what was written after the groups already read.
proof fn lemma_varint_from(data: Seq<u8>, pos: int, groups: nat, acc: int, v: nat)
    requires
        0 <= pos,
        pos + varint_bytes(v).len() <= data.len(),
        data.subrange(pos, pos + varint_bytes(v).len()) == varint_bytes(v),
        0 <= acc,
        acc + v * pow2(7 * groups) <= u32::MAX,
        groups > 0 ==> v > 0,
    ensures
        varint_from(data, pos, groups, acc) == (
            Some((acc + v * pow2(7 * groups)) as u32),
            pos + varint_bytes(v).len(),
        ),
    decreases v,
{
    let p = pow2(7 * groups) as int;
    lemma_pow2_pos(7 * groups);
    lemma2_to64();
    lemma2_to64_rest();
    assert(data[pos] == varint_bytes(v)[0]) by {
        assert(data.subrange(pos, pos + varint_bytes(v).len())[0] == data[pos]);
    }
    if v >= 0x80 {
        let q = v / 0x80;
        let tail = varint_bytes(q);
        if groups >= 9 {
            if groups > 9 {
                lemma_pow2_strictly_increases(63, 7 * groups);
            }
            assert(v * p >= 0x8000_0000_0000_0000) by (nonlinear_arith)
                requires
                    v >= 1,
                    p >= 0x8000_0000_0000_0000,
            ;
        }
        let sum = acc + (v % 0x80) * p;
        lemma_pow2_adds(7 * groups, 7);
        assert(7 * groups + 7 == 7 * (groups + 1));
        assert(sum + q * (p * 0x80) == acc + v * p) by (nonlinear_arith)
            requires
                sum == acc + (v % 0x80) * p,
                q == v / 0x80,
        ;
        assert(sum >= 0) by (nonlinear_arith)
            requires
                sum == acc + (v % 0x80) * p,
                acc >= 0,
                p >= 1,
        ;
        assert(data.subrange(pos + 1, pos + 1 + tail.len()) =~= tail) by {
            assert forall|i: int| 0 <= i < tail.len() implies data[pos + 1 + i] == tail[i] by {
                assert(data.subrange(pos, pos + varint_bytes(v).len())[i + 1] == data[pos + 1 + i]);
                assert(varint_bytes(v)[i + 1] == tail[i]);
            }
        }
        lemma_varint_from(data, pos + 1, groups + 1, sum, q);
    }
}

/// A varint reads back the number that was written, wherever it stands.
pub proof fn law_varint_round_trip(before: Seq<u8>, v: u32, behind: Seq<u8>)
    ensures
        varint_at(before + varint_bytes(v as nat) + behind, before.len() as int) == (
            Some(v),
            (before.len() + varint_bytes(v as nat).len()) as int,
        ),
{
    let data = before + varint_bytes(v as nat) + behind;
    assert(data.subrange(
        before.len() as int,
        (before.len() + varint_bytes(v as nat).len()) as int,
    ) =~= varint_bytes(v as nat));
    lemma2_to64();
    assert(pow2(7 * 0nat) == 1);
    assert(v as nat * pow2(7 * 0nat) == v);
    lemma_varint_from(data, before.len() as int, 0, 0, v as nat);
}

/// The points of a ring are read back from its bytes.
proof fn lemma_ring_points(points: Seq<Point>, behind: Seq<u8>)
    ensures
        ring_points(ring_bytes(points) + behind, points.len()) == Some(
            (points, ring_bytes(points).len() as int),
        ),
    decreases points.len(),
{
    if points.len() > 0 {
        let before = points.drop_last();
        let from = if before.len() == 0 {
            Point { x: 0, y: 0 }
        } else {
            before.last()
        };
        let to = points.last();
        let dx = zigzag(to.x.wrapping_sub(from.x));
        let dy = zigzag(to.y.wrapping_sub(from.y));
        let x_bytes = varint_bytes(dx as nat);
        let y_bytes = varint_bytes(dy as nat);
        let data = ring_bytes(points) + behind;
        assert(data =~= ring_bytes(before) + (x_bytes + y_bytes + behind));
        lemma_ring_points(before, x_bytes + y_bytes + behind);
        assert(data =~= ring_bytes(before) + x_bytes + (y_bytes + behind));
        law_varint_round_trip(ring_bytes(before), dx, y_bytes + behind);
        assert(data =~= (ring_bytes(before) + x_bytes) + y_bytes + behind);
        law_varint_round_trip(ring_bytes(before) + x_bytes, dy, behind);
        assert(from.x.wrapping_add(to.x.wrapping_sub(from.x)) == to.x);
        assert(from.y.wrapping_add(to.y.wrapping_sub(from.y)) == to.y);
        assert(before.push(to) =~= points);
    }
}

/// A ring of at least three points is read back from its bytes, closed; bytes
/// behind it do not matter.
pub proof fn law_ring_round_trip(points: Seq<Point>, behind: Seq<u8>)
    requires
        points.len() >= 3,
    ensures
        ring(ring_bytes(points) + behind, points.len()) == Some(points.push(points[0])),
{
    lemma_ring_points(points, behind);
}

/// Every decoded ring is closed and has one point more than were asked for.
pub proof fn law_ring_is_closed(data: Seq<u8>, count: nat)
    ensures
        ring(data, count) matches Some(points) ==> points.len() == count + 1 && points.first()
            == points.last(),
{
    lemma_ring_points_len(data, count);
}

proof fn lemma_ring_points_len(data: Seq<u8>, count: nat)
    ensures
        ring_points(data, count) matches Some((points, _)) ==> points.len() == count,
    decreases count,
{
    if count > 0 {
        lemma_ring_points_len(data, (count - 1) as nat);
    }
}

} // verus!
