//! In-memory index for point queries.
//!
//! Holds the subtypes, bounding boxes and slab ranges of the divisions and the
//! maps from grid cells to candidate divisions. The chunks of the slab are
//! fetched by the caller.

use vstd::arithmetic::div_mod::{lemma_fundamental_div_mod, lemma_fundamental_div_mod_converse};
use vstd::arithmetic::power2::{
    lemma2_to64, lemma2_to64_rest, lemma_pow2_adds, lemma_pow2_pos, pow2,
};
use vstd::prelude::*;

use crate::cells::{Cell, CellMap};
use crate::ieee::{
    double_magnitude, floor16, number_le, number_lt, unit, whole, Double, Number,
};
use crate::xsci::{BBox, IndexView, XsIndex};

verus! {

pub const SUBTYPE_COUNTRY: u8 = 0;

pub const SUBTYPE_DEPENDENCY: u8 = 1;

pub const SUBTYPE_MACRO_REGION: u8 = 2;

pub const SUBTYPE_REGION: u8 = 3;

pub const SUBTYPE_MACRO_COUNTY: u8 = 4;

pub const SUBTYPE_COUNTY: u8 = 5;

pub const SUBTYPE_LOCAL_ADMIN: u8 = 6;

pub const SUBTYPE_LOCALITY: u8 = 7;

/// The coarse cell (one degree wide and high) of a point.
pub open spec fn coarse_cell(lng: Number, lat: Number) -> Cell {
    (floor16(lng, 1) as i16, floor16(lat, 1) as i16)
}

/// The fine cell (a quarter of a degree wide and high) of a point.
pub open spec fn fine_cell(lng: Number, lat: Number) -> Cell {
    (floor16(lng, 4) as i16, floor16(lat, 4) as i16)
}

/// The point is more than a degree away from the antimeridian and the poles.
pub open spec fn inner_point(lng: Number, lat: Number) -> bool {
    &&& number_lt(whole(-179), lng)
    &&& number_lt(lng, whole(179))
    &&& number_lt(whole(-89), lat)
    &&& number_lt(lat, whole(89))
}

/// The point lies in the box or on its border.
pub open spec fn in_bbox(bb: BBox, lng: Number, lat: Number) -> bool {
    &&& number_le(bb.xmin.number(), lng)
    &&& number_le(lng, bb.xmax.number())
    &&& number_le(bb.ymin.number(), lat)
    &&& number_le(lat, bb.ymax.number())
}

/// The divisions that a grid lists for a cell; none if it lacks the cell.
pub open spec fn listed(grid: Map<Cell, Seq<u32>>, cell: Cell) -> Seq<u32> {
    if grid.contains_key(cell) {
        grid[cell]
    } else {
        Seq::empty()
    }
}

/// Those of the divisions, in order, that are not skipped and whose bounding
/// box holds the point.
pub open spec fn selected(
    bboxes: Seq<BBox>,
    indices: Seq<u32>,
    skipped: Seq<bool>,
    lng: Number,
    lat: Number,
) -> Seq<u32>
    decreases indices.len(),
{
    if indices.len() == 0 {
        Seq::empty()
    } else {
        let before = selected(bboxes, indices.drop_last(), skipped.drop_last(), lng, lat);
        if !skipped.last() && in_bbox(bboxes[indices.last() as int], lng, lat) {
            before.push(indices.last())
        } else {
            before
        }
    }
}

/// The index has everything about the division.
pub open spec fn has_division(index: IndexView, idx: u32) -> bool {
    &&& idx < index.subtypes.len()
    &&& idx < index.bboxes.len()
    &&& idx < index.poly_offsets.len()
    &&& idx < index.poly_lengths.len()
}

/// The index of all divisions.
pub struct XsFinder {
    subtypes: Vec<u8>,
    bboxes: Vec<BBox>,
    poly_offsets: Vec<u64>,
    poly_lengths: Vec<u32>,
    grid_coarse: CellMap<Vec<u32>>,
    grid_fine: CellMap<Vec<u32>>,
    country_preindex: CellMap<u32>,
}

impl View for XsFinder {
    type V = IndexView;

    closed spec fn view(&self) -> IndexView {
        IndexView {
            subtypes: self.subtypes@,
            bboxes: self.bboxes@,
            poly_offsets: self.poly_offsets@,
            poly_lengths: self.poly_lengths@,
            grid_coarse: self.grid_coarse@,
            grid_fine: self.grid_fine@,
            country_preindex: self.country_preindex@,
        }
    }
}

/// The pattern of exponent 1023 + `e` and a significand of `n` times two to
/// the power of `52 - e` is the whole number `n`.
proof fn lemma_whole_bits(bits: int, n: int, e: nat)
    requires
        e <= 52,
        pow2(e) <= n < 2 * pow2(e),
        bits == (1023 + e) * 0x10_0000_0000_0000 + n * pow2((52 - e) as nat) - 0x10_0000_0000_0000,
        0x10_0000_0000_0000 <= n * pow2((52 - e) as nat) < 0x20_0000_0000_0000,
    ensures
        double_magnitude(bits) == n * unit(),
        bits / 0x10_0000_0000_0000 == 1023 + e,
{
    let g = n * pow2((52 - e) as nat);
    assert(bits / 0x10_0000_0000_0000 == 1023 + e);
    assert(bits % 0x10_0000_0000_0000 == g - 0x10_0000_0000_0000);
    lemma_pow2_adds((52 - e) as nat, (1022 + e) as nat);
    let p = pow2((52 - e) as nat) as int;
    let q = pow2((1022 + e) as nat) as int;
    assert((n * p) * q == n * (p * q)) by (nonlinear_arith);
}

impl XsFinder {
    /// Takes over an index.
    pub fn new(idx: XsIndex) -> (r: Self)
        ensures
            r@ == idx@,
    {
        XsFinder {
            subtypes: idx.subtypes,
            bboxes: idx.bboxes,
            poly_offsets: idx.poly_offsets,
            poly_lengths: idx.poly_lengths,
            grid_coarse: idx.grid_coarse,
            grid_fine: idx.grid_fine,
            country_preindex: idx.country_preindex,
        }
    }

    /// Offset and length of a division's chunk in the slab.
    pub fn slab_range(&self, idx: u32) -> (r: (u64, u64))
        requires
            idx < self@.poly_offsets.len(),
            idx < self@.poly_lengths.len(),
        ensures
            r == (self@.poly_offsets[idx as int], self@.poly_lengths[idx as int] as u64),
    {
        let i: usize = idx as usize;
        (self.poly_offsets[i], self.poly_lengths[i] as u64)
    }

    /// The subtype of a division.
    pub fn subtype(&self, idx: u32) -> (r: u8)
        requires
            idx < self@.subtypes.len(),
        ensures
            r == self@.subtypes[idx as int],
    {
        self.subtypes[idx as usize]
    }

    /// Whether the index has everything about the division.
    pub fn knows(&self, idx: u32) -> (r: bool)
        ensures
            r == has_division(self@, idx),
    {
        let i: usize = idx as usize;
        i < self.subtypes.len() && i < self.bboxes.len() && i < self.poly_offsets.len() && i
            < self.poly_lengths.len()
    }

    /// The coarse cell (one degree wide and high) of a point.
    pub fn coarse_key(lng: Double, lat: Double) -> (r: [i16; 2])
        ensures
            (r[0], r[1]) == coarse_cell(lng.number(), lat.number()),
    {
        [lng.floor(), lat.floor()]
    }

    /// The fine cell (a quarter of a degree wide and high) of a point.
    pub fn fine_key(lng: Double, lat: Double) -> (r: [i16; 2])
        ensures
            (r[0], r[1]) == fine_cell(lng.number(), lat.number()),
    {
        [lng.floor_quarters(), lat.floor_quarters()]
    }

    /// Whether the point is well away from the antimeridian and the poles.
    pub fn can_short_circuit(lng: Double, lat: Double) -> (r: bool)
        ensures
            r == inner_point(lng.number(), lat.number()),
    {
        let east = Double { bits: 0x4066_6000_0000_0000 };
        let west = Double { bits: 0xc066_6000_0000_0000 };
        let north = Double { bits: 0x4056_4000_0000_0000 };
        let south = Double { bits: 0xc056_4000_0000_0000 };
        proof {
            lemma2_to64();
            lemma2_to64_rest();
            lemma_whole_bits(0x4066_6000_0000_0000, 179, 7);
            lemma_whole_bits(0x4056_4000_0000_0000, 89, 6);
            assert(-(179 * unit()) == -179 * unit()) by (nonlinear_arith);
            assert(-(89 * unit()) == -89 * unit()) by (nonlinear_arith);
        }
        west.lt(lng) && lng.lt(east) && south.lt(lat) && lat.lt(north)
    }

    /// The divisions that the coarse grid lists for the point's cell.
    pub fn coarse_candidates(&self, lng: Double, lat: Double) -> (r: &[u32])
        ensures
            r@ == listed(self@.grid_coarse, coarse_cell(lng.number(), lat.number())),
    {
        match self.grid_coarse.get(Self::coarse_key(lng, lat)) {
            Some(v) => v.as_slice(),
            None => &[],
        }
    }

    /// The divisions that the fine grid lists for the point's cell.
    pub fn fine_candidates(&self, lng: Double, lat: Double) -> (r: &[u32])
        ensures
            r@ == listed(self@.grid_fine, fine_cell(lng.number(), lat.number())),
    {
        match self.grid_fine.get(Self::fine_key(lng, lat)) {
            Some(v) => v.as_slice(),
            None => &[],
        }
    }

    /// The country that the preindex gives for the point's coarse cell.
    pub fn country_for_cell(&self, lng: Double, lat: Double) -> (r: Option<u32>)
        ensures
            r == if self@.country_preindex.contains_key(
                coarse_cell(lng.number(), lat.number()),
            ) {
                Some(self@.country_preindex[coarse_cell(lng.number(), lat.number())])
            } else {
                None
            },
    {
        match self.country_preindex.get(Self::coarse_key(lng, lat)) {
            Some(idx) => Some(*idx),
            None => None,
        }
    }

    fn bbox_contains(&self, idx: u32, lng: Double, lat: Double) -> (r: bool)
        requires
            idx < self@.bboxes.len(),
        ensures
            r == in_bbox(self@.bboxes[idx as int], lng.number(), lat.number()),
    {
        let bb: BBox = self.bboxes[idx as usize];
        bb.xmin.widen().le(lng) && lng.le(bb.xmax.widen()) && bb.ymin.widen().le(lat) && lat.le(
            bb.ymax.widen(),
        )
    }

    /// Those of `indices`, in order, whose bounding box holds the point. One
    /// for which `skip_if` returns true is left out whatever its bounding box.
    pub fn bbox_filtered<F: Fn(u32) -> bool>(
        &self,
        indices: &[u32],
        lng: Double,
        lat: Double,
        skip_if: F,
    ) -> (r: Vec<u32>)
        requires
            forall|i: int|
                0 <= i < indices@.len() ==> #[trigger] call_requires(skip_if, (indices@[i],)),
            forall|i: int|
                0 <= i < indices@.len() && #[trigger] call_ensures(skip_if, (indices@[i],), false)
                    ==> indices@[i] < self@.bboxes.len(),
        ensures
            exists|skipped: Seq<bool>|
                skipped.len() == indices@.len() && (forall|i: int|
                    0 <= i < indices@.len() ==> call_ensures(
                        skip_if,
                        (indices@[i],),
                        #[trigger] skipped[i],
                    )) && r@ == #[trigger] selected(
                    self@.bboxes,
                    indices@,
                    skipped,
                    lng.number(),
                    lat.number(),
                ),
    {
        let mut kept: Vec<u32> = Vec::new();
        let ghost mut skipped: Seq<bool> = Seq::empty();
        let mut i: usize = 0;
        assert(indices@.take(0) =~= Seq::empty());
        while i < indices.len()
            invariant
                i <= indices@.len(),
                skipped.len() == i,
                forall|j: int|
                    0 <= j < indices@.len() ==> #[trigger] call_requires(skip_if, (indices@[j],)),
                forall|j: int|
                    0 <= j < indices@.len() && #[trigger] call_ensures(
                        skip_if,
                        (indices@[j],),
                        false,
                    ) ==> indices@[j] < self@.bboxes.len(),
                forall|j: int|
                    0 <= j < i ==> call_ensures(skip_if, (indices@[j],), #[trigger] skipped[j]),
                kept@ == selected(
                    self@.bboxes,
                    indices@.take(i as int),
                    skipped,
                    lng.number(),
                    lat.number(),
                ),
            decreases indices@.len() - i,
        {
            let idx: u32 = indices[i];
            let skip: bool = skip_if(idx);
            proof {
                assert(indices@.take(i + 1).drop_last() =~= indices@.take(i as int));
                assert(skipped.push(skip).drop_last() =~= skipped);
                skipped = skipped.push(skip);
            }
            if !skip {
                if self.bbox_contains(idx, lng, lat) {
                    kept.push(idx);
                }
            }
            i = i + 1;
        }
        assert(indices@.take(indices@.len() as int) =~= indices@);
        kept
    }
}

/// The floor of a quarter of the floor of four times a number is the number's
/// floor.
proof fn lemma_quarter_floor(n: int)
    ensures
        ((n * 4) / unit()) / 4 == n / unit(),
{
    let u = unit();
    lemma_pow2_pos(1074);
    lemma_fundamental_div_mod(n * 4, u);
    let q = (n * 4) / u;
    let r = (n * 4) % u;
    let k = q / 4;
    let rest = n - k * u;
    assert(0 <= rest < u) by (nonlinear_arith)
        requires
            n * 4 == u * q + r,
            0 <= r < u,
            rest == n - k * u,
            4 * k <= q <= 4 * k + 3,
    ;
    lemma_fundamental_div_mod_converse(n, u, k, rest);
}

proof fn lemma_quarter_cell(a: Number)
    requires
        number_le(whole(-0x2000), a),
        number_lt(a, whole(0x2000)),
    ensures
        floor16(a, 1) == floor16(a, 4) / 4,
{
    let n = a->Finite_0;
    let u = unit();
    lemma_pow2_pos(1074);
    lemma_quarter_floor(n);
    let q = (n * 4) / u;
    lemma_fundamental_div_mod(n * 4, u);
    let r = (n * 4) % u;
    assert(-0x8000 <= q < 0x8000) by (nonlinear_arith)
        requires
            n * 4 == u * q + r,
            0 <= r < u,
            -0x2000 * u <= n < 0x2000 * u,
    ;
}

/// The fine cell of a point lies in its coarse cell: sixteen fine cells make up
/// a coarse one. Coordinates beyond plus or minus 8192 degrees saturate and are
/// left out.
pub proof fn law_fine_cell_in_coarse_cell(lng: Number, lat: Number)
    requires
        number_le(whole(-0x2000), lng),
        number_lt(lng, whole(0x2000)),
        number_le(whole(-0x2000), lat),
        number_lt(lat, whole(0x2000)),
    ensures
        coarse_cell(lng, lat).0 == fine_cell(lng, lat).0 as int / 4,
        coarse_cell(lng, lat).1 == fine_cell(lng, lat).1 as int / 4,
{
    lemma_quarter_cell(lng);
    lemma_quarter_cell(lat);
}

/// The floor of a number between two whole numbers.
proof fn lemma_floor_between(a: Number, low: int, high: int)
    requires
        -0x8000 <= low < high <= 0x8000,
        number_le(whole(low), a),
        number_lt(a, whole(high)),
    ensures
        low <= floor16(a, 1) < high,
{
    let n = a->Finite_0;
    let u = unit();
    lemma_pow2_pos(1074);
    lemma_fundamental_div_mod(n, u);
    let q = n / u;
    let r = n % u;
    assert(low <= q < high) by (nonlinear_arith)
        requires
            n == u * q + r,
            0 <= r < u,
            low * u <= n < high * u,
    ;
    assert(n * 1 == n);
}

/// A point that is well away from the antimeridian and the poles lies in a
/// coarse cell that does not touch them.
pub proof fn law_inner_point_cell(lng: Number, lat: Number)
    requires
        inner_point(lng, lat),
    ensures
        -179 <= coarse_cell(lng, lat).0 <= 178,
        -89 <= coarse_cell(lng, lat).1 <= 88,
{
    lemma_floor_between(lng, -179, 179);
    lemma_floor_between(lat, -89, 89);
}

/// A division is selected exactly if it stands among the candidates at a place
/// where it is not skipped, and its bounding box holds the point.
pub proof fn law_selected_members(
    bboxes: Seq<BBox>,
    indices: Seq<u32>,
    skipped: Seq<bool>,
    lng: Number,
    lat: Number,
    idx: u32,
)
    requires
        skipped.len() == indices.len(),
    ensures
        selected(bboxes, indices, skipped, lng, lat).contains(idx) <==> in_bbox(
            bboxes[idx as int],
            lng,
            lat,
        ) && exists|i: int|
            0 <= i < indices.len() && #[trigger] indices[i] == idx && !skipped[i],
        selected(bboxes, indices, skipped, lng, lat).len() <= indices.len(),
    decreases indices.len(),
{
    let all = selected(bboxes, indices, skipped, lng, lat);
    if indices.len() > 0 {
        let n = indices.len() - 1;
        let fewer = indices.drop_last();
        let before = selected(bboxes, fewer, skipped.drop_last(), lng, lat);
        law_selected_members(bboxes, fewer, skipped.drop_last(), lng, lat, idx);
        if all.contains(idx) {
            let k = all.index_of(idx);
            if k < before.len() {
                assert(before[k] == idx);
                let i = choose|i: int|
                    0 <= i < fewer.len() && #[trigger] fewer[i] == idx && !skipped.drop_last()[i];
                assert(indices[i] == idx && !skipped[i]);
            } else {
                assert(indices[n] == idx && !skipped[n]);
            }
        }
        if in_bbox(bboxes[idx as int], lng, lat) && exists|i: int|
            0 <= i < indices.len() && #[trigger] indices[i] == idx && !skipped[i] {
            let i = choose|i: int|
                0 <= i < indices.len() && #[trigger] indices[i] == idx && !skipped[i];
            if i < n {
                assert(fewer[i] == idx && !skipped.drop_last()[i]);
                let k = before.index_of(idx);
                assert(all[k] == idx);
            } else {
                assert(all[before.len() as int] == idx);
            }
        }
    }
}

/// No bounding box holds a point with a coordinate that is not a number, and
/// such a point is not well away from the antimeridian and the poles.
pub proof fn law_nan_is_nowhere(bb: BBox, lng: Number, lat: Number)
    requires
        lng is Nan || lat is Nan,
    ensures
        !in_bbox(bb, lng, lat),
        !inner_point(lng, lat),
{
}

} // verus!
