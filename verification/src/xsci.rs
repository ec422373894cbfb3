//! XSCI compact index format.
//!
//! Binary layout (all integers little-endian):
//!
//! - header, 24 bytes: the magic `XSCI`, a version byte, three bytes that are
//!   not read, then the numbers of divisions, coarse cells, fine cells and
//!   preindex entries, four bytes each;
//! - division records, 29 bytes each: subtype (1), bounding box (16), slab
//!   offset (8), slab length (4);
//! - coarse grid cells, then fine grid cells: longitude index (2), latitude
//!   index (2), number of division indices (2), the indices (4 each);
//! - country preindex, 8 bytes each: longitude index (2), latitude index (2),
//!   division index (4).

use vstd::prelude::*;

use crate::bytes::{i16_le, le16, le32, le64, signed16, u16_le, u32_le, u64_le};
use crate::cells::{Cell, CellMap};
use crate::ieee::Single;
use crate::text::{decimal, push_decimal};

verus! {

/// Length of the header.
pub const HEADER_LEN: usize = 24;

/// Length of a division record.
pub const RECORD_LEN: usize = 29;

/// The version this reader understands.
pub const VERSION: u8 = 1;

/// A bounding box in degrees.
#[derive(Clone, Copy, Debug, PartialEq, Eq, Structural)]
pub struct BBox {
    pub xmin: Single,
    pub xmax: Single,
    pub ymin: Single,
    pub ymax: Single,
}

/// The contents of an index file.
pub struct XsIndex {
    pub subtypes: Vec<u8>,
    pub bboxes: Vec<BBox>,
    pub poly_offsets: Vec<u64>,
    pub poly_lengths: Vec<u32>,
    pub grid_coarse: CellMap<Vec<u32>>,
    pub grid_fine: CellMap<Vec<u32>>,
    pub country_preindex: CellMap<u32>,
}

/// What an index holds.
#[verifier::ext_equal]
pub ghost struct IndexView {
    pub subtypes: Seq<u8>,
    pub bboxes: Seq<BBox>,
    pub poly_offsets: Seq<u64>,
    pub poly_lengths: Seq<u32>,
    pub grid_coarse: Map<Cell, Seq<u32>>,
    pub grid_fine: Map<Cell, Seq<u32>>,
    pub country_preindex: Map<Cell, u32>,
}

impl View for XsIndex {
    type V = IndexView;

    open spec fn view(&self) -> IndexView {
        IndexView {
            subtypes: self.subtypes@,
            bboxes: self.bboxes@,
            poly_offsets: self.poly_offsets@,
            poly_lengths: self.poly_lengths@,
            grid_coarse: self.grid_coarse@,
            grid_fine: self.grid_fine@,
            country_preindex: self.country_preindex@,
        }
    }
}

impl IndexView {
    /// Every division has a subtype, a bounding box and a slab range.
    pub open spec fn well_formed(self) -> bool {
        &&& self.bboxes.len() == self.subtypes.len()
        &&& self.poly_offsets.len() == self.subtypes.len()
        &&& self.poly_lengths.len() == self.subtypes.len()
    }
}

/// Why a file is not an index.
#[derive(Clone, Copy, Debug, PartialEq, Eq, Structural)]
pub enum XsciError {
    TooShort,
    BadMagic(u8, u8, u8, u8),
    UnsupportedVersion(u8),
    TruncatedDivisions,
    TruncatedCellHeader,
    TruncatedCellIndices,
    TruncatedPreindex,
}

impl XsciError {
    /// The message shown for the error.
    pub open spec fn text(self) -> Seq<char> {
        match self {
            XsciError::TooShort => "XSCI: file too short"@,
            XsciError::BadMagic(a, b, c, d) => {
                "XSCI: bad magic ["@ + decimal(a as nat) + ", "@ + decimal(b as nat) + ", "@
                    + decimal(c as nat) + ", "@ + decimal(d as nat) + "]"@
            },
            XsciError::UnsupportedVersion(v) => "XSCI: unsupported version "@ + decimal(v as nat),
            XsciError::TruncatedDivisions => "XSCI: truncated division section"@,
            XsciError::TruncatedCellHeader => "XSCI: truncated grid cell header"@,
            XsciError::TruncatedCellIndices => "XSCI: truncated grid indices"@,
            XsciError::TruncatedPreindex => "XSCI: truncated preindex"@,
        }
    }

    /// The message shown for the error.
    pub fn message(self) -> (m: String)
        ensures
            m@ == self.text(),
    {
        match self {
            XsciError::TooShort => "XSCI: file too short".to_string(),
            XsciError::BadMagic(a, b, c, d) => {
                let mut m = "XSCI: bad magic [".to_string();
                push_decimal(&mut m, a);
                m.append(", ");
                push_decimal(&mut m, b);
                m.append(", ");
                push_decimal(&mut m, c);
                m.append(", ");
                push_decimal(&mut m, d);
                m.append("]");
                m
            },
            XsciError::UnsupportedVersion(v) => {
                let mut m = "XSCI: unsupported version ".to_string();
                push_decimal(&mut m, v);
                m
            },
            XsciError::TruncatedDivisions => "XSCI: truncated division section".to_string(),
            XsciError::TruncatedCellHeader => "XSCI: truncated grid cell header".to_string(),
            XsciError::TruncatedCellIndices => "XSCI: truncated grid indices".to_string(),
            XsciError::TruncatedPreindex => "XSCI: truncated preindex".to_string(),
        }
    }
}

/// The cell whose two indices stand at `pos`.
pub open spec fn cell_at(data: Seq<u8>, pos: int) -> Cell {
    (signed16(le16(data, pos)) as i16, signed16(le16(data, pos + 2)) as i16)
}

/// The binary32 number at `pos`.
pub open spec fn single_at(data: Seq<u8>, pos: int) -> Single {
    Single { bits: le32(data, pos) as u32 }
}

/// The bounding box at `pos`.
pub open spec fn bbox_at(data: Seq<u8>, pos: int) -> BBox {
    BBox {
        xmin: single_at(data, pos),
        xmax: single_at(data, pos + 4),
        ymin: single_at(data, pos + 8),
        ymax: single_at(data, pos + 12),
    }
}

/// `count` division indices from `pos` on.
pub open spec fn indices_at(data: Seq<u8>, pos: int, count: nat) -> Seq<u32> {
    Seq::new(count, |j: int| le32(data, pos + 4 * j) as u32)
}

/// The first `count` cells of a grid section with their division indices, in
/// file order, and the number of bytes they take.
pub open spec fn grid_section(data: Seq<u8>, count: nat) -> Result<
    (Seq<(Cell, Seq<u32>)>, int),
    XsciError,
>
    decreases count,
{
    if count == 0 {
        Ok((Seq::empty(), 0))
    } else {
        match grid_section(data, (count - 1) as nat) {
            Err(e) => Err(e),
            Ok((cells, pos)) => {
                if pos + 6 > data.len() {
                    Err(XsciError::TruncatedCellHeader)
                } else if pos + 6 + 4 * le16(data, pos + 4) > data.len() {
                    Err(XsciError::TruncatedCellIndices)
                } else {
                    let n = le16(data, pos + 4) as nat;
                    Ok(
                        (
                            cells.push((cell_at(data, pos), indices_at(data, pos + 6, n))),
                            pos + 6 + 4 * n,
                        ),
                    )
                }
            },
        }
    }
}

/// The entries of a preindex section of `count` entries, in file order.
pub open spec fn preindex_section(data: Seq<u8>, count: nat) -> Result<
    Seq<(Cell, u32)>,
    XsciError,
> {
    if 8 * count > data.len() {
        Err(XsciError::TruncatedPreindex)
    } else {
        Ok(Seq::new(count, |i: int| (cell_at(data, 8 * i), le32(data, 8 * i + 4) as u32)))
    }
}

/// The map that holds the entries; of several entries for one cell the last
/// one counts.
pub open spec fn entries_map<V>(entries: Seq<(Cell, V)>) -> Map<Cell, V>
    decreases entries.len(),
{
    if entries.len() == 0 {
        Map::empty()
    } else {
        entries_map(entries.drop_last()).insert(entries.last().0, entries.last().1)
    }
}

/// A cell has an entry in the map exactly if one of the entries is for it, and
/// then holds what the last of them gives.
pub proof fn law_last_entry_counts<V>(entries: Seq<(Cell, V)>, cell: Cell)
    ensures
        entries_map(entries).contains_key(cell) <==> exists|i: int|
            0 <= i < entries.len() && (#[trigger] entries[i]).0 == cell,
        forall|i: int|
            0 <= i < entries.len() && (#[trigger] entries[i]).0 == cell && (forall|j: int|
                i < j < entries.len() ==> (#[trigger] entries[j]).0 != cell) ==> entries_map(
                entries,
            )[cell] == entries[i].1,
    decreases entries.len(),
{
    if entries.len() > 0 {
        let before = entries.drop_last();
        let n = before.len() as int;
        law_last_entry_counts(before, cell);
        assert(entries[n] == entries.last());
        assert forall|i: int| 0 <= i < n implies #[trigger] before[i] == entries[i] by {}
        if exists|i: int| 0 <= i < entries.len() && (#[trigger] entries[i]).0 == cell {
            let i = choose|i: int| 0 <= i < entries.len() && (#[trigger] entries[i]).0 == cell;
            if i < n {
                assert(before[i].0 == cell);
            }
        }
        assert forall|i: int|
            0 <= i < entries.len() && (#[trigger] entries[i]).0 == cell && (forall|j: int|
                i < j < entries.len() ==> (#[trigger] entries[j]).0 != cell) implies entries_map(
            entries,
        )[cell] == entries[i].1 by {
            if i < n {
                assert(entries[n].0 != cell);
                assert(before[i].0 == cell);
            }
        }
    }
}

/// The first four bytes spell `XSCI`.
pub open spec fn has_magic(data: Seq<u8>) -> bool {
    data[0] == 0x58 && data[1] == 0x53 && data[2] == 0x43 && data[3] == 0x49
}

/// Where the division records end, by the header's count.
pub open spec fn records_end(data: Seq<u8>) -> int {
    HEADER_LEN + RECORD_LEN * le32(data, 8)
}

/// The index a file holds, or what is wrong with the file.
pub open spec fn index_of(data: Seq<u8>) -> Result<IndexView, XsciError> {
    if data.len() < HEADER_LEN {
        Err(XsciError::TooShort)
    } else if !has_magic(data) {
        Err(XsciError::BadMagic(data[0], data[1], data[2], data[3]))
    } else if data[4] != VERSION {
        Err(XsciError::UnsupportedVersion(data[4]))
    } else if records_end(data) > data.len() {
        Err(XsciError::TruncatedDivisions)
    } else {
        let rest = data.skip(records_end(data));
        match grid_section(rest, le32(data, 12) as nat) {
            Err(e) => Err(e),
            Ok((coarse, coarse_len)) => match grid_section(
                rest.skip(coarse_len),
                le32(data, 16) as nat,
            ) {
                Err(e) => Err(e),
                Ok((fine, fine_len)) => match preindex_section(
                    rest.skip(coarse_len).skip(fine_len),
                    le32(data, 20) as nat,
                ) {
                    Err(e) => Err(e),
                    Ok(countries) => {
                        let n = le32(data, 8) as nat;
                        Ok(
                            IndexView {
                                subtypes: Seq::new(n, |i: int| data[HEADER_LEN + RECORD_LEN * i]),
                                bboxes: Seq::new(
                                    n,
                                    |i: int| bbox_at(data, HEADER_LEN + RECORD_LEN * i + 1),
                                ),
                                poly_offsets: Seq::new(
                                    n,
                                    |i: int|
                                        le64(data, HEADER_LEN + RECORD_LEN * i + 17) as u64,
                                ),
                                poly_lengths: Seq::new(
                                    n,
                                    |i: int|
                                        le32(data, HEADER_LEN + RECORD_LEN * i + 25) as u32,
                                ),
                                grid_coarse: entries_map(coarse),
                                grid_fine: entries_map(fine),
                                country_preindex: entries_map(countries),
                            },
                        )
                    },
                },
            },
        }
    }
}

/// Reads the binary32 number at the front of `b`.
fn f32_le(b: &[u8]) -> (v: Single)
    requires
        b@.len() >= 4,
    ensures
        v == single_at(b@, 0),
{
    Single { bits: u32_le(b) }
}

/// A cell that cannot be read ends the section, whatever should follow.
proof fn lemma_grid_error_stays(data: Seq<u8>, done: nat, count: nat)
    requires
        done <= count,
        grid_section(data, done) is Err,
    ensures
        grid_section(data, count) == grid_section(data, done),
    decreases count,
{
    if done < count {
        lemma_grid_error_stays(data, done, (count - 1) as nat);
    }
}

/// A section that can be read lies within the data.
pub proof fn lemma_grid_section_len(data: Seq<u8>, count: nat)
    ensures
        grid_section(data, count) matches Ok((cells, len)) ==> cells.len() == count && 0 <= len
            <= data.len(),
    decreases count,
{
    if count > 0 {
        lemma_grid_section_len(data, (count - 1) as nat);
    }
}

/// Reads the `count` cells of a grid section at the front of `data`: the map
/// they make up and the number of bytes they take.
pub fn parse_grid(data: &[u8], count: usize) -> (r: Result<
    (CellMap<Vec<u32>>, usize),
    XsciError,
>)
    ensures
        match grid_section(data@, count as nat) {
            Ok((cells, len)) => r matches Ok((map, consumed)) && map@ == entries_map(cells)
                && consumed == len,
            Err(e) => r == Err::<(CellMap<Vec<u32>>, usize), XsciError>(e),
        },
{
    let len: usize = data.len();
    let mut map: CellMap<Vec<u32>> = CellMap::new();
    let mut pos: usize = 0;
    let mut done: usize = 0;
    let ghost mut cells: Seq<(Cell, Seq<u32>)> = Seq::empty();
    while done < count
        invariant
            done <= count,
            len == data@.len(),
            pos <= len,
            grid_section(data@, done as nat) == Ok::<(Seq<(Cell, Seq<u32>)>, int), XsciError>(
                (cells, pos as int),
            ),
            map@ == entries_map(cells),
        decreases count - done,
    {
        if len - pos < 6 {
            proof {
                lemma_grid_error_stays(data@, done as nat + 1, count as nat);
            }
            return Err(XsciError::TruncatedCellHeader);
        }
        let lng: i16 = i16_le(&data[pos..pos + 2]);
        let lat: i16 = i16_le(&data[pos + 2..pos + 4]);
        let n: usize = u16_le(&data[pos + 4..pos + 6]) as usize;
        let first: usize = pos + 6;
        if len - first < n * 4 {
            proof {
                lemma_grid_error_stays(data@, done as nat + 1, count as nat);
            }
            return Err(XsciError::TruncatedCellIndices);
        }
        let mut indices: Vec<u32> = Vec::with_capacity(n);
        let mut j: usize = 0;
        while j < n
            invariant
                j <= n,
                first + 4 * n <= data@.len() <= usize::MAX,
                indices@ == indices_at(data@, first as int, j as nat),
            decreases n - j,
        {
            let at: usize = first + j * 4;
            indices.push(u32_le(&data[at..at + 4]));
            j = j + 1;
            assert(indices@ =~= indices_at(data@, first as int, j as nat));
        }
        proof {
            let next = (cell_at(data@, pos as int), indices@);
            assert(cells.push(next).drop_last() =~= cells);
            cells = cells.push(next);
        }
        map.insert([lng, lat], indices);
        pos = first + n * 4;
        done = done + 1;
    }
    Ok((map, pos))
}

/// Reads a preindex section of `count` entries at the front of `data`.
pub fn parse_preindex(data: &[u8], count: usize) -> (r: Result<CellMap<u32>, XsciError>)
    ensures
        match preindex_section(data@, count as nat) {
            Ok(entries) => r matches Ok(map) && map@ == entries_map(entries),
            Err(e) => r == Err::<CellMap<u32>, XsciError>(e),
        },
{
    if data.len() / 8 < count {
        return Err(XsciError::TruncatedPreindex);
    }
    let mut map: CellMap<u32> = CellMap::new();
    let mut i: usize = 0;
    let ghost entries = preindex_section(data@, count as nat)->Ok_0;
    assert(entries.take(0) =~= Seq::empty());
    while i < count
        invariant
            i <= count,
            8 * count <= data@.len() <= usize::MAX,
            preindex_section(data@, count as nat) == Ok::<Seq<(Cell, u32)>, XsciError>(entries),
            map@ == entries_map(entries.take(i as int)),
        decreases count - i,
    {
        let base: usize = i * 8;
        let lng: i16 = i16_le(&data[base..base + 2]);
        let lat: i16 = i16_le(&data[base + 2..base + 4]);
        let idx: u32 = u32_le(&data[base + 4..base + 8]);
        map.insert([lng, lat], idx);
        assert(entries.take(i + 1).drop_last() =~= entries.take(i as int));
        assert(entries.take(i + 1).last() == (cell_at(data@, 8 * i), idx));
        i = i + 1;
    }
    assert(entries.take(count as int) =~= entries);
    Ok(map)
}

/// The four columns of the division records.
struct Divisions {
    subtypes: Vec<u8>,
    bboxes: Vec<BBox>,
    poly_offsets: Vec<u64>,
    poly_lengths: Vec<u32>,
}

/// Reads `count` division records that follow the header.
fn parse_divisions(data: &[u8], count: usize) -> (r: Divisions)
    requires
        HEADER_LEN + RECORD_LEN * count <= data@.len() <= usize::MAX,
    ensures
        r.subtypes@ == Seq::new(count as nat, |i: int| data@[HEADER_LEN + RECORD_LEN * i]),
        r.bboxes@ == Seq::new(
            count as nat,
            |i: int| bbox_at(data@, HEADER_LEN + RECORD_LEN * i + 1),
        ),
        r.poly_offsets@ == Seq::new(
            count as nat,
            |i: int| le64(data@, HEADER_LEN + RECORD_LEN * i + 17) as u64,
        ),
        r.poly_lengths@ == Seq::new(
            count as nat,
            |i: int| le32(data@, HEADER_LEN + RECORD_LEN * i + 25) as u32,
        ),
{
    let mut subtypes: Vec<u8> = Vec::with_capacity(count);
    let mut bboxes: Vec<BBox> = Vec::with_capacity(count);
    let mut poly_offsets: Vec<u64> = Vec::with_capacity(count);
    let mut poly_lengths: Vec<u32> = Vec::with_capacity(count);
    let mut i: usize = 0;
    while i < count
        invariant
            i <= count,
            HEADER_LEN + RECORD_LEN * count <= data@.len() <= usize::MAX,
            subtypes@ == Seq::new(i as nat, |i: int| data@[HEADER_LEN + RECORD_LEN * i]),
            bboxes@ == Seq::new(
                i as nat,
                |i: int| bbox_at(data@, HEADER_LEN + RECORD_LEN * i + 1),
            ),
            poly_offsets@ == Seq::new(
                i as nat,
                |i: int| le64(data@, HEADER_LEN + RECORD_LEN * i + 17) as u64,
            ),
            poly_lengths@ == Seq::new(
                i as nat,
                |i: int| le32(data@, HEADER_LEN + RECORD_LEN * i + 25) as u32,
            ),
        decreases count - i,
    {
        let pos: usize = HEADER_LEN + i * RECORD_LEN;
        subtypes.push(data[pos]);
        bboxes.push(
            BBox {
                xmin: f32_le(&data[pos + 1..pos + 5]),
                xmax: f32_le(&data[pos + 5..pos + 9]),
                ymin: f32_le(&data[pos + 9..pos + 13]),
                ymax: f32_le(&data[pos + 13..pos + 17]),
            },
        );
        poly_offsets.push(u64_le(&data[pos + 17..pos + 25]));
        poly_lengths.push(u32_le(&data[pos + 25..pos + 29]));
        i = i + 1;
    }
    Divisions { subtypes, bboxes, poly_offsets, poly_lengths }
}

/// Reads an index file.
pub fn parse(data: &[u8]) -> (r: Result<XsIndex, String>)
    ensures
        match index_of(data@) {
            Ok(index) => r matches Ok(x) && x@ == index && index.well_formed(),
            Err(e) => r matches Err(message) && message@ == e.text(),
        },
{
    match parse_index(data) {
        Ok(index) => Ok(index),
        Err(e) => Err(e.message()),
    }
}

fn parse_index(data: &[u8]) -> (r: Result<XsIndex, XsciError>)
    ensures
        match index_of(data@) {
            Ok(index) => r matches Ok(x) && x@ == index && index.well_formed(),
            Err(e) => r == Err::<XsIndex, XsciError>(e),
        },
{
    if data.len() < HEADER_LEN {
        return Err(XsciError::TooShort);
    }
    if data[0] != 0x58 || data[1] != 0x53 || data[2] != 0x43 || data[3] != 0x49 {
        return Err(XsciError::BadMagic(data[0], data[1], data[2], data[3]));
    }
    if data[4] != VERSION {
        return Err(XsciError::UnsupportedVersion(data[4]));
    }
    let div_count: usize = u32_le(&data[8..12]) as usize;
    let coarse_count: usize = u32_le(&data[12..16]) as usize;
    let fine_count: usize = u32_le(&data[16..20]) as usize;
    let preindex_count: usize = u32_le(&data[20..24]) as usize;
    if (data.len() - HEADER_LEN) / RECORD_LEN < div_count {
        return Err(XsciError::TruncatedDivisions);
    }
    let divisions = parse_divisions(data, div_count);
    let pos: usize = HEADER_LEN + div_count * RECORD_LEN;
    let rest: &[u8] = &data[pos..data.len()];
    assert(rest@ =~= data@.skip(records_end(data@)));
    proof {
        lemma_grid_section_len(rest@, coarse_count as nat);
    }
    let (grid_coarse, coarse_len) = match parse_grid(rest, coarse_count) {
        Ok(grid) => grid,
        Err(e) => {
            return Err(e);
        },
    };
    let after_coarse: &[u8] = &rest[coarse_len..rest.len()];
    assert(after_coarse@ =~= rest@.skip(coarse_len as int));
    proof {
        lemma_grid_section_len(after_coarse@, fine_count as nat);
    }
    let (grid_fine, fine_len) = match parse_grid(after_coarse, fine_count) {
        Ok(grid) => grid,
        Err(e) => {
            return Err(e);
        },
    };
    let after_fine: &[u8] = &after_coarse[fine_len..after_coarse.len()];
    assert(after_fine@ =~= after_coarse@.skip(fine_len as int));
    let country_preindex = match parse_preindex(after_fine, preindex_count) {
        Ok(map) => map,
        Err(e) => {
            return Err(e);
        },
    };
    Ok(
        XsIndex {
            subtypes: divisions.subtypes,
            bboxes: divisions.bboxes,
            poly_offsets: divisions.poly_offsets,
            poly_lengths: divisions.poly_lengths,
            grid_coarse,
            grid_fine,
            country_preindex,
        },
    )
}

} // verus!
