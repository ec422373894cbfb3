//! Numbers, cells and boxes, in terms of integers.

use vstd::arithmetic::div_mod::lemma_fundamental_div_mod;
use vstd::arithmetic::power2::{
    lemma2_to64, lemma2_to64_rest, lemma_pow2_adds, lemma_pow2_pos, lemma_pow2_unfold, pow2,
};
use vstd::prelude::*;

use crate::bytes::{le16, le32, le64, signed16, signed32};
use crate::cells::{cell_id, Cell};
use crate::finder::{
    coarse_cell, fine_cell, has_division, in_bbox, inner_point, law_selected_members, listed,
    selected,
};
use crate::ieee::{
    double_magnitude, floor16, number_le, number_lt, saturate16, single_magnitude, unit, whole,
    Double, Number, Single,
};
use crate::xsci::{BBox, IndexView};

verus! {

/// The bytes of a number count with the powers of 256, the first one least.
pub proof fn law_little_endian(s: Seq<u8>, p: int)
    ensures
        le16(s, p) == s[p] + 256 * s[p + 1],
        le32(s, p) == s[p] + 256 * s[p + 1] + 65536 * s[p + 2] + 16777216 * s[p + 3],
        le64(s, p) == s[p] + 256 * s[p + 1] + 65536 * s[p + 2] + 16777216 * s[p + 3] + 4294967296
            * s[p + 4] + 1099511627776 * s[p + 5] + 281474976710656 * s[p + 6]
            + 72057594037927936 * s[p + 7],
{
}

/// The signed reading of a number differs from it by nothing or by the modulus,
/// and is the one that lies around zero.
pub proof fn law_twos_complement(v: int)
    ensures
        0 <= v < 65536 ==> -32768 <= signed16(v) <= 32767 && (signed16(v) == v || signed16(v) == v
            - 65536),
        0 <= v < 4294967296 ==> -2147483648 <= signed32(v) <= 2147483647 && (signed32(v) == v
            || signed32(v) == v - 4294967296),
{
}

/// Different cells are stored under different numbers.
pub proof fn law_cells_do_not_collide(a: Cell, b: Cell)
    ensures
        cell_id(a) == cell_id(b) ==> a == b,
        i32::MIN <= cell_id(a) <= i32::MAX,
{
}

/// The magnitudes of binary64 start at zero, and each differs from the next by
/// the spacing of its exponent.
pub proof fn law_double_spacing(b: int)
    requires
        0 <= b,
    ensures
        double_magnitude(0) == 0,
        b < 4503599627370496 ==> double_magnitude(b + 1) == double_magnitude(b) + 1,
        b >= 4503599627370496 ==> double_magnitude(b + 1) == double_magnitude(b) + pow2(
            (b / 4503599627370496 - 1) as nat,
        ),
{
    lemma2_to64();
    let e = b / 4503599627370496;
    let f = b % 4503599627370496;
    if e == 0 {
        assert(pow2(0) == 1);
        if f + 1 == 4503599627370496 {
            assert((b + 1) / 4503599627370496 == 1 && (b + 1) % 4503599627370496 == 0);
            assert(double_magnitude(b + 1) == 4503599627370496 * pow2(0));
        }
    } else {
        let p = pow2((e - 1) as nat) as int;
        if f + 1 == 4503599627370496 {
            assert((b + 1) / 4503599627370496 == e + 1 && (b + 1) % 4503599627370496 == 0);
            lemma_pow2_unfold(e as nat);
            let q = pow2(e as nat) as int;
            assert(4503599627370496 * q == (4503599627370496 + f) * p + p) by (nonlinear_arith)
                requires
                    q == 2 * p,
                    f + 1 == 4503599627370496,
            ;
        } else {
            assert((b + 1) / 4503599627370496 == e && (b + 1) % 4503599627370496 == f + 1);
            assert((4503599627370496 + (f + 1)) * p == (4503599627370496 + f) * p + p)
                by (nonlinear_arith);
        }
    }
}

/// The magnitudes of binary32, in the smallest units of binary64, start at zero,
/// and each differs from the next by the spacing of its exponent.
pub proof fn law_single_spacing(b: int)
    requires
        0 <= b,
    ensures
        single_magnitude(0) == 0,
        b < 8388608 ==> single_magnitude(b + 1) == single_magnitude(b) + pow2(925),
        b >= 8388608 ==> single_magnitude(b + 1) == single_magnitude(b) + pow2(
            (b / 8388608 - 1) as nat,
        ) * pow2(925),
{
    lemma2_to64();
    let e = b / 8388608;
    let f = b % 8388608;
    let u = pow2(925) as int;
    assert(0 * u == 0) by (nonlinear_arith);
    if e == 0 {
        assert(pow2(0) == 1);
        if f + 1 == 8388608 {
            assert((b + 1) / 8388608 == 1 && (b + 1) % 8388608 == 0);
            assert(single_magnitude(b + 1) == 8388608 * pow2(0) * u);
            assert(8388608 * u == f * u + u) by (nonlinear_arith)
                requires
                    f + 1 == 8388608,
            ;
        } else {
            assert((f + 1) * u == f * u + u) by (nonlinear_arith);
        }
    } else {
        let p = pow2((e - 1) as nat) as int;
        if f + 1 == 8388608 {
            assert((b + 1) / 8388608 == e + 1 && (b + 1) % 8388608 == 0);
            lemma_pow2_unfold(e as nat);
            let q = pow2(e as nat) as int;
            assert((8388608 * q) * u == ((8388608 + f) * p) * u + p * u) by (nonlinear_arith)
                requires
                    q == 2 * p,
                    f + 1 == 8388608,
            ;
        } else {
            assert((b + 1) / 8388608 == e && (b + 1) % 8388608 == f + 1);
            assert(((8388608 + (f + 1)) * p) * u == ((8388608 + f) * p) * u + p * u)
                by (nonlinear_arith);
        }
    }
}

/// Which patterns are numbers, which are infinite, and what the sign bit does.
pub proof fn law_double_patterns(d: Double)
    ensures
        ({
            let low = d.bits as int % 0x8000_0000_0000_0000;
            &&& d.number() is Nan <==> low > 0x7ff0_0000_0000_0000
            &&& d.number() is PosInf <==> d.bits == 0x7ff0_0000_0000_0000
            &&& d.number() is NegInf <==> d.bits == 0xfff0_0000_0000_0000
            &&& d.number() matches Number::Finite(n) ==> n == if d.bits
                >= 0x8000_0000_0000_0000 {
                -double_magnitude(low)
            } else {
                double_magnitude(low)
            }
        }),
{
}

/// Which patterns are numbers, which are infinite, and what the sign bit does.
pub proof fn law_single_patterns(s: Single)
    ensures
        ({
            let low = s.bits as int % 0x8000_0000;
            &&& s.number() is Nan <==> low > 0x7f80_0000
            &&& s.number() is PosInf <==> s.bits == 0x7f80_0000
            &&& s.number() is NegInf <==> s.bits == 0xff80_0000
            &&& s.number() matches Number::Finite(n) ==> n == if s.bits >= 0x8000_0000 {
                -single_magnitude(low)
            } else {
                single_magnitude(low)
            }
        }),
{
}

/// Numbers are ordered as the integers that stand for them, between the
/// infinities; what is not a number compares with nothing.
pub proof fn law_number_order(a: Number, b: Number, x: int, y: int)
    ensures
        number_le(Number::Finite(x), Number::Finite(y)) <==> x <= y,
        number_lt(Number::Finite(x), Number::Finite(y)) <==> x < y,
        !number_le(Number::Nan, b) && !number_le(a, Number::Nan),
        !number_lt(Number::Nan, b) && !number_lt(a, Number::Nan),
        !(b is Nan) ==> number_le(Number::NegInf, b) && number_le(b, Number::PosInf),
        number_le(a, Number::NegInf) ==> a is NegInf,
        number_le(Number::PosInf, b) ==> b is PosInf,
        number_lt(a, b) ==> !number_le(b, a),
        number_le(a, b) <==> number_lt(a, b) || (a == b && !(a is Nan)),
{
}

/// The floor is the largest whole number not above the number, unless it does
/// not fit in 16 bits; then it is the limit on that side.
pub proof fn law_floor(n: int, scale: int)
    requires
        scale > 0,
    ensures
        ({
            let r = floor16(Number::Finite(n), scale);
            &&& -32768 <= r <= 32767
            &&& r > -32768 ==> r * pow2(1074) <= n * scale
            &&& r < 32767 ==> n * scale < (r + 1) * pow2(1074)
        }),
        floor16(Number::Nan, scale) == 0,
        floor16(Number::NegInf, scale) == -32768,
        floor16(Number::PosInf, scale) == 32767,
{
    let u = pow2(1074) as int;
    lemma_pow2_pos(1074);
    let v = n * scale;
    lemma_fundamental_div_mod(v, u);
    let q = v / u;
    let m = v % u;
    let r = saturate16(q);
    assert(v == u * q + m);
    if r > -32768 {
        assert(r * u <= v) by (nonlinear_arith)
            requires
                v == u * q + m,
                0 <= m,
                r <= q,
                u > 0,
        ;
    }
    if r < 32767 {
        assert(v < (r + 1) * u) by (nonlinear_arith)
            requires
                v == u * q + m,
                m < u,
                q <= r,
                u > 0,
        ;
    }
}

/// A point of finite coordinates lies between the edges of its cells: a coarse
/// cell is a degree wide and high, a fine one a quarter of a degree. The
/// outermost cells reach on without end.
pub proof fn law_point_lies_in_its_cells(x: int, y: int)
    ensures
        ({
            let degree = pow2(1074) as int;
            let coarse = coarse_cell(Number::Finite(x), Number::Finite(y));
            let fine = fine_cell(Number::Finite(x), Number::Finite(y));
            &&& coarse.0 > -32768 ==> coarse.0 * degree <= x
            &&& coarse.0 < 32767 ==> x < (coarse.0 + 1) * degree
            &&& coarse.1 > -32768 ==> coarse.1 * degree <= y
            &&& coarse.1 < 32767 ==> y < (coarse.1 + 1) * degree
            &&& fine.0 > -32768 ==> fine.0 * degree <= 4 * x
            &&& fine.0 < 32767 ==> 4 * x < (fine.0 + 1) * degree
            &&& fine.1 > -32768 ==> fine.1 * degree <= 4 * y
            &&& fine.1 < 32767 ==> 4 * y < (fine.1 + 1) * degree
        }),
{
    law_floor(x, 1);
    law_floor(y, 1);
    law_floor(x, 4);
    law_floor(y, 4);
}

/// The cells of coordinates that are not finite: zero for what is not a number,
/// and the outermost cell on its side for an infinity.
pub proof fn law_cells_without_numbers(a: Number, b: Number)
    ensures
        coarse_cell(Number::Nan, b).0 == 0 && coarse_cell(a, Number::Nan).1 == 0,
        fine_cell(Number::Nan, b).0 == 0 && fine_cell(a, Number::Nan).1 == 0,
        coarse_cell(Number::NegInf, b).0 == -32768 && coarse_cell(a, Number::NegInf).1 == -32768,
        fine_cell(Number::NegInf, b).0 == -32768 && fine_cell(a, Number::NegInf).1 == -32768,
        coarse_cell(Number::PosInf, b).0 == 32767 && coarse_cell(a, Number::PosInf).1 == 32767,
        fine_cell(Number::PosInf, b).0 == 32767 && fine_cell(a, Number::PosInf).1 == 32767,
{
}

/// The longitude alone decides on the column of a cell, and the latitude alone
/// on its row.
pub proof fn law_coordinates_do_not_mix(a: Number, b: Number, c: Number)
    ensures
        coarse_cell(a, b).0 == coarse_cell(a, c).0,
        coarse_cell(b, a).1 == coarse_cell(c, a).1,
        fine_cell(a, b).0 == fine_cell(a, c).0,
        fine_cell(b, a).1 == fine_cell(c, a).1,
{
}

/// A point is well away from the antimeridian and the poles exactly if its
/// longitude lies between -179 and 179 degrees and its latitude between -89 and
/// 89, the limits left out; one of coordinates that are not finite is not.
pub proof fn law_inner_points(x: int, y: int, a: Number)
    ensures
        ({
            let degree = pow2(1074) as int;
            inner_point(Number::Finite(x), Number::Finite(y)) <==> -179 * degree < x < 179 * degree
                && -89 * degree < y < 89 * degree
        }),
        !(a is Finite) ==> forall|b: Number| !(#[trigger] inner_point(a, b)) && !inner_point(b, a),
{
}

/// A box holds a point exactly if its longitude lies between the western and the
/// eastern edge and its latitude between the southern and the northern one, the
/// edges counted in.
pub proof fn law_box_holds_points_between_its_edges(
    bb: BBox,
    west: int,
    east: int,
    south: int,
    north: int,
    x: int,
    y: int,
)
    requires
        bb.xmin.number() == Number::Finite(west),
        bb.xmax.number() == Number::Finite(east),
        bb.ymin.number() == Number::Finite(south),
        bb.ymax.number() == Number::Finite(north),
    ensures
        in_bbox(bb, Number::Finite(x), Number::Finite(y)) <==> west <= x <= east && south <= y
            <= north,
{
}

/// A box of any edges holds a point of any coordinates exactly if each
/// coordinate lies between its two edges, in the order of numbers.
pub proof fn law_box_edges(bb: BBox, lng: Number, lat: Number)
    ensures
        in_bbox(bb, lng, lat) <==> number_le(bb.xmin.number(), lng) && number_le(
            lng,
            bb.xmax.number(),
        ) && number_le(bb.ymin.number(), lat) && number_le(lat, bb.ymax.number()),
{
}

/// Of candidates whose boxes have finite edges, those are selected that are not
/// skipped and between whose edges the point lies.
pub proof fn law_candidate_is_kept_by_its_edges(
    bboxes: Seq<BBox>,
    idx: u32,
    west: int,
    east: int,
    south: int,
    north: int,
    x: int,
    y: int,
    before: Seq<u32>,
    behind: Seq<u32>,
    skipped: Seq<bool>,
)
    requires
        skipped.len() == before.len() + 1 + behind.len(),
        !before.contains(idx),
        !behind.contains(idx),
        bboxes[idx as int].xmin.number() == Number::Finite(west),
        bboxes[idx as int].xmax.number() == Number::Finite(east),
        bboxes[idx as int].ymin.number() == Number::Finite(south),
        bboxes[idx as int].ymax.number() == Number::Finite(north),
    ensures
        selected(
            bboxes,
            before.push(idx) + behind,
            skipped,
            Number::Finite(x),
            Number::Finite(y),
        ).contains(idx) <==> !skipped[before.len() as int] && west <= x <= east && south <= y
            <= north,
{
    let all = before.push(idx) + behind;
    law_selected_members(bboxes, all, skipped, Number::Finite(x), Number::Finite(y), idx);
    assert(all[before.len() as int] == idx);
    assert forall|i: int| 0 <= i < all.len() && #[trigger] all[i] == idx implies i
        == before.len() by {
        if i < before.len() {
            assert(before[i] == idx);
        } else if i > before.len() {
            assert(behind[i - before.len() - 1] == idx);
        }
    }
}

/// Selecting from two lists one after the other gives what is selected from the
/// first, then what is selected from the second.
pub proof fn law_selection_goes_list_by_list(
    bboxes: Seq<BBox>,
    a: Seq<u32>,
    b: Seq<u32>,
    skip_a: Seq<bool>,
    skip_b: Seq<bool>,
    lng: Number,
    lat: Number,
)
    requires
        skip_a.len() == a.len(),
        skip_b.len() == b.len(),
    ensures
        selected(bboxes, a + b, skip_a + skip_b, lng, lat) == selected(bboxes, a, skip_a, lng, lat)
            + selected(bboxes, b, skip_b, lng, lat),
    decreases b.len(),
{
    let first = selected(bboxes, a, skip_a, lng, lat);
    if b.len() == 0 {
        assert(a + b =~= a);
        assert(skip_a + skip_b =~= skip_a);
        assert(first + selected(bboxes, b, skip_b, lng, lat) =~= first);
    } else {
        law_selection_goes_list_by_list(
            bboxes,
            a,
            b.drop_last(),
            skip_a,
            skip_b.drop_last(),
            lng,
            lat,
        );
        assert((a + b).drop_last() =~= a + b.drop_last());
        assert((skip_a + skip_b).drop_last() =~= skip_a + skip_b.drop_last());
        assert(selected(bboxes, a + b, skip_a + skip_b, lng, lat) =~= first + selected(
            bboxes,
            b,
            skip_b,
            lng,
            lat,
        ));
    }
}

/// One candidate is selected, as it is, exactly if it is not skipped and its box
/// holds the point.
pub proof fn law_selection_of_one(
    bboxes: Seq<BBox>,
    idx: u32,
    skip: bool,
    lng: Number,
    lat: Number,
)
    ensures
        selected(bboxes, seq![idx], seq![skip], lng, lat) == if !skip && in_bbox(
            bboxes[idx as int],
            lng,
            lat,
        ) {
            seq![idx]
        } else {
            Seq::empty()
        },
{
    let none = seq![idx].drop_last();
    assert(none =~= Seq::empty());
    assert(selected(bboxes, none, seq![skip].drop_last(), lng, lat) =~= Seq::empty());
}

/// The candidates of a cell are those that the grid holds for it.
pub proof fn law_candidates_of_cells(grid: Map<Cell, Seq<u32>>, cell: Cell)
    ensures
        grid.dom().contains(cell) ==> listed(grid, cell) == grid[cell],
        !grid.dom().contains(cell) ==> listed(grid, cell).len() == 0,
{
}

/// An index knows exactly the divisions that it has a record for.
pub proof fn law_known_divisions(index: IndexView, idx: u32)
    requires
        index.bboxes.len() == index.subtypes.len(),
        index.poly_offsets.len() == index.subtypes.len(),
        index.poly_lengths.len() == index.subtypes.len(),
    ensures
        index.well_formed(),
        has_division(index, idx) <==> idx < index.subtypes.len(),
{
}

/// Whole numbers of degrees, and one degree.
pub proof fn law_degrees(n: int)
    ensures
        unit() == pow2(1074),
        whole(n) == Number::Finite(n * pow2(1074)),
        (Double { bits: 0x3ff0_0000_0000_0000 }).number() == whole(1),
        (Double { bits: 0xbff0_0000_0000_0000 }).number() == whole(-1),
{
    lemma2_to64_rest();
    lemma_pow2_adds(52, 1022);
    assert(double_magnitude(0x3ff0_0000_0000_0000) == 0x10_0000_0000_0000 * pow2(1022));
    let u = pow2(1074) as int;
    assert(1 * u == u && -1 * u == -u) by (nonlinear_arith);
}

} // verus!
