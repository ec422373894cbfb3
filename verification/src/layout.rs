//! The layout of an index file, written out from its contents.
//!
//! Reading is defined by [`crate::xsci::index_of`]. Here the file is put
//! together the other way round, and reading is shown to give the contents
//! back.

use vstd::prelude::*;

use crate::bytes::{
    bytes16, bytes32, bytes64, le16, le32, le64, lemma_read16, lemma_read32, lemma_read64,
};
use crate::cells::Cell;
use crate::xsci::{
    bbox_at, cell_at, entries_map, grid_section, has_magic, index_of, indices_at,
    lemma_grid_section_len, preindex_section, records_end, BBox, IndexView, XsciError, HEADER_LEN,
    RECORD_LEN, VERSION,
};

verus! {

/// The two's complement pattern of a 16-bit number.
pub open spec fn pattern16(n: i16) -> int {
    if n < 0 {
        n + 0x1_0000
    } else {
        n as int
    }
}

/// The two indices of a cell.
pub open spec fn cell_bytes(cell: Cell) -> Seq<u8> {
    bytes16(pattern16(cell.0)) + bytes16(pattern16(cell.1))
}

/// Division indices one after the other.
pub open spec fn indices_bytes(indices: Seq<u32>) -> Seq<u8>
    decreases indices.len(),
{
    if indices.len() == 0 {
        Seq::empty()
    } else {
        indices_bytes(indices.drop_last()) + bytes32(indices.last() as int)
    }
}

/// A grid cell: its indices, the number of its divisions, the divisions.
pub open spec fn entry_bytes(entry: (Cell, Seq<u32>)) -> Seq<u8> {
    cell_bytes(entry.0) + bytes16(entry.1.len() as int) + indices_bytes(entry.1)
}

/// A grid section.
pub open spec fn grid_bytes(entries: Seq<(Cell, Seq<u32>)>) -> Seq<u8>
    decreases entries.len(),
{
    if entries.len() == 0 {
        Seq::empty()
    } else {
        grid_bytes(entries.drop_last()) + entry_bytes(entries.last())
    }
}

/// A preindex section.
pub open spec fn preindex_bytes(entries: Seq<(Cell, u32)>) -> Seq<u8>
    decreases entries.len(),
{
    if entries.len() == 0 {
        Seq::empty()
    } else {
        preindex_bytes(entries.drop_last()) + cell_bytes(entries.last().0) + bytes32(
            entries.last().1 as int,
        )
    }
}

/// What a division record holds.
pub ghost struct Division {
    pub subtype: u8,
    pub bbox: BBox,
    pub offset: u64,
    pub length: u32,
}

/// A division record.
pub open spec fn record_bytes(d: Division) -> Seq<u8> {
    seq![d.subtype] + bytes32(d.bbox.xmin.bits as int) + bytes32(d.bbox.xmax.bits as int)
        + bytes32(d.bbox.ymin.bits as int) + bytes32(d.bbox.ymax.bits as int) + bytes64(
        d.offset as int,
    ) + bytes32(d.length as int)
}

/// The division records one after the other.
pub open spec fn records_bytes(divisions: Seq<Division>) -> Seq<u8>
    decreases divisions.len(),
{
    if divisions.len() == 0 {
        Seq::empty()
    } else {
        records_bytes(divisions.drop_last()) + record_bytes(divisions.last())
    }
}

/// What an index file holds, in file order.
pub ghost struct Contents {
    pub divisions: Seq<Division>,
    pub coarse: Seq<(Cell, Seq<u32>)>,
    pub fine: Seq<(Cell, Seq<u32>)>,
    pub countries: Seq<(Cell, u32)>,
}

impl Contents {
    /// The counts fit in the fields that hold them.
    pub open spec fn fits(self) -> bool {
        &&& self.divisions.len() <= u32::MAX
        &&& self.coarse.len() <= u32::MAX
        &&& self.fine.len() <= u32::MAX
        &&& self.countries.len() <= u32::MAX
        &&& cells_fit(self.coarse)
        &&& cells_fit(self.fine)
    }

    /// The index that the contents make up.
    pub open spec fn index(self) -> IndexView {
        IndexView {
            subtypes: self.divisions.map_values(|d: Division| d.subtype),
            bboxes: self.divisions.map_values(|d: Division| d.bbox),
            poly_offsets: self.divisions.map_values(|d: Division| d.offset),
            poly_lengths: self.divisions.map_values(|d: Division| d.length),
            grid_coarse: entries_map(self.coarse),
            grid_fine: entries_map(self.fine),
            country_preindex: entries_map(self.countries),
        }
    }

    /// The header; three of its bytes are not used.
    pub open spec fn header(self, unused: Seq<u8>) -> Seq<u8> {
        seq![0x58u8, 0x53, 0x43, 0x49, VERSION] + unused + bytes32(self.divisions.len() as int)
            + bytes32(self.coarse.len() as int) + bytes32(self.fine.len() as int) + bytes32(
            self.countries.len() as int,
        )
    }

    /// The file.
    pub open spec fn file(self, unused: Seq<u8>) -> Seq<u8> {
        self.header(unused) + records_bytes(self.divisions) + grid_bytes(self.coarse) + grid_bytes(
            self.fine,
        ) + preindex_bytes(self.countries)
    }
}

/// The number of divisions of every cell fits in 16 bits.
pub open spec fn cells_fit(entries: Seq<(Cell, Seq<u32>)>) -> bool {
    forall|i: int| 0 <= i < entries.len() ==> (#[trigger] entries[i]).1.len() <= u16::MAX
}

/// The number of bytes that an index takes up in a file that holds one.
pub open spec fn index_len(data: Seq<u8>) -> int {
    let rest = data.skip(records_end(data));
    let coarse_len = grid_section(rest, le32(data, 12) as nat)->Ok_0.1;
    let fine_len = grid_section(rest.skip(coarse_len), le32(data, 16) as nat)->Ok_0.1;
    records_end(data) + coarse_len + fine_len + 8 * le32(data, 20)
}

proof fn lemma_read_cell(data: Seq<u8>, pos: int, cell: Cell)
    requires
        0 <= pos,
        pos + 4 <= data.len(),
        data.subrange(pos, pos + 4) == cell_bytes(cell),
    ensures
        cell_at(data, pos) == cell,
{
    let b = cell_bytes(cell);
    assert(data.subrange(pos, pos + 2) =~= b.subrange(0, 2));
    assert(data.subrange(pos + 2, pos + 4) =~= b.subrange(2, 4));
    assert(b.subrange(0, 2) =~= bytes16(pattern16(cell.0)));
    assert(b.subrange(2, 4) =~= bytes16(pattern16(cell.1)));
    lemma_read16(data, pos, pattern16(cell.0));
    lemma_read16(data, pos + 2, pattern16(cell.1));
}

proof fn lemma_read_indices(data: Seq<u8>, pos: int, indices: Seq<u32>)
    requires
        0 <= pos,
        pos + indices_bytes(indices).len() <= data.len(),
        data.subrange(pos, pos + indices_bytes(indices).len()) == indices_bytes(indices),
    ensures
        indices_bytes(indices).len() == 4 * indices.len(),
        indices_at(data, pos, indices.len()) == indices,
    decreases indices.len(),
{
    if indices.len() > 0 {
        let before = indices.drop_last();
        let n = indices_bytes(before).len() as int;
        let all = indices_bytes(indices);
        assert(data.subrange(pos, pos + n) =~= all.subrange(0, n));
        assert(all.subrange(0, n) =~= indices_bytes(before));
        lemma_read_indices(data, pos, before);
        assert(data.subrange(pos + n, pos + n + 4) =~= all.subrange(n, n + 4));
        assert(all.subrange(n, n + 4) =~= bytes32(indices.last() as int));
        lemma_read32(data, pos + n, indices.last() as int);
        assert forall|j: int| 0 <= j < indices.len() implies indices_at(
            data,
            pos,
            indices.len(),
        )[j] == indices[j] by {
            if j < before.len() {
                assert(indices_at(data, pos, before.len())[j] == before[j]);
            }
        }
    }
    assert(indices_at(data, pos, indices.len()) =~= indices);
}

/// A grid section is read back; bytes behind it do not matter.
proof fn lemma_read_grid(entries: Seq<(Cell, Seq<u32>)>, behind: Seq<u8>)
    requires
        cells_fit(entries),
    ensures
        grid_section(grid_bytes(entries) + behind, entries.len()) == Ok::<
            (Seq<(Cell, Seq<u32>)>, int),
            XsciError,
        >((entries, grid_bytes(entries).len() as int)),
    decreases entries.len(),
{
    if entries.len() > 0 {
        let before = entries.drop_last();
        let (cell, indices) = entries.last();
        let data = grid_bytes(entries) + behind;
        let last = entry_bytes(entries.last());
        assert(data =~= grid_bytes(before) + (last + behind));
        assert(cells_fit(before)) by {
            assert forall|i: int| 0 <= i < before.len() implies (#[trigger] before[i]).1.len()
                <= u16::MAX by {
                assert(entries[i].1.len() <= u16::MAX);
            }
        }
        lemma_read_grid(before, last + behind);
        let pos = grid_bytes(before).len() as int;
        assert(entries[entries.len() - 1].1.len() <= u16::MAX);
        assert(last.subrange(0, 4) =~= cell_bytes(cell));
        assert(last.subrange(4, 6) =~= bytes16(indices.len() as int));
        assert(last.subrange(6, last.len() as int) =~= indices_bytes(indices));
        assert(data.subrange(pos, pos + 4) =~= last.subrange(0, 4));
        assert(data.subrange(pos + 4, pos + 6) =~= last.subrange(4, 6));
        assert(data.subrange(pos + 6, pos + last.len()) =~= last.subrange(6, last.len() as int));
        lemma_read_cell(data, pos, cell);
        lemma_read16(data, pos + 4, indices.len() as int);
        lemma_read_indices(data, pos + 6, indices);
        assert(before.push((cell, indices)) =~= entries);
        assert(indices_at(data, pos + 6, indices.len()) == indices);
    } else {
        assert(entries =~= Seq::empty());
    }
}

proof fn lemma_preindex_len(entries: Seq<(Cell, u32)>)
    ensures
        preindex_bytes(entries).len() == 8 * entries.len(),
    decreases entries.len(),
{
    if entries.len() > 0 {
        lemma_preindex_len(entries.drop_last());
    }
}

proof fn lemma_preindex_entry(entries: Seq<(Cell, u32)>, i: int)
    requires
        0 <= i < entries.len(),
    ensures
        preindex_bytes(entries).len() == 8 * entries.len(),
        preindex_bytes(entries).subrange(8 * i, 8 * i + 8) == cell_bytes(entries[i].0) + bytes32(
            entries[i].1 as int,
        ),
    decreases entries.len(),
{
    lemma_preindex_len(entries);
    let before = entries.drop_last();
    lemma_preindex_len(before);
    let all = preindex_bytes(entries);
    if i == entries.len() - 1 {
        assert(all.subrange(8 * i, 8 * i + 8) =~= cell_bytes(entries[i].0) + bytes32(
            entries[i].1 as int,
        ));
    } else {
        lemma_preindex_entry(before, i);
        assert(all.subrange(8 * i, 8 * i + 8) =~= preindex_bytes(before).subrange(
            8 * i,
            8 * i + 8,
        ));
    }
}

/// A preindex section is read back; bytes behind it do not matter.
proof fn lemma_read_preindex(entries: Seq<(Cell, u32)>, behind: Seq<u8>)
    ensures
        preindex_section(preindex_bytes(entries) + behind, entries.len()) == Ok::<
            Seq<(Cell, u32)>,
            XsciError,
        >(entries),
{
    lemma_preindex_len(entries);
    let data = preindex_bytes(entries) + behind;
    let read = Seq::new(
        entries.len(),
        |i: int| (cell_at(data, 8 * i), le32(data, 8 * i + 4) as u32),
    );
    assert forall|i: int| 0 <= i < entries.len() implies read[i] == entries[i] by {
        lemma_preindex_entry(entries, i);
        let b = preindex_bytes(entries).subrange(8 * i, 8 * i + 8);
        assert(data.subrange(8 * i, 8 * i + 4) =~= b.subrange(0, 4));
        assert(data.subrange(8 * i + 4, 8 * i + 8) =~= b.subrange(4, 8));
        assert(b.subrange(0, 4) =~= cell_bytes(entries[i].0));
        assert(b.subrange(4, 8) =~= bytes32(entries[i].1 as int));
        lemma_read_cell(data, 8 * i, entries[i].0);
        lemma_read32(data, 8 * i + 4, entries[i].1 as int);
    }
    assert(read =~= entries);
}

proof fn lemma_records_len(divisions: Seq<Division>)
    ensures
        records_bytes(divisions).len() == RECORD_LEN * divisions.len(),
    decreases divisions.len(),
{
    if divisions.len() > 0 {
        lemma_records_len(divisions.drop_last());
    }
}

proof fn lemma_records_entry(divisions: Seq<Division>, i: int)
    requires
        0 <= i < divisions.len(),
    ensures
        records_bytes(divisions).len() == RECORD_LEN * divisions.len(),
        records_bytes(divisions).subrange(RECORD_LEN * i, RECORD_LEN * i + RECORD_LEN)
            == record_bytes(divisions[i]),
    decreases divisions.len(),
{
    lemma_records_len(divisions);
    let before = divisions.drop_last();
    lemma_records_len(before);
    let all = records_bytes(divisions);
    if i == divisions.len() - 1 {
        assert(all.subrange(RECORD_LEN * i, RECORD_LEN * i + RECORD_LEN) =~= record_bytes(
            divisions[i],
        ));
    } else {
        lemma_records_entry(before, i);
        assert(all.subrange(RECORD_LEN * i, RECORD_LEN * i + RECORD_LEN) =~= records_bytes(
            before,
        ).subrange(RECORD_LEN * i, RECORD_LEN * i + RECORD_LEN));
    }
}

/// A division record is read back, wherever it stands.
proof fn lemma_read_record(data: Seq<u8>, pos: int, d: Division)
    requires
        0 <= pos,
        pos + RECORD_LEN <= data.len(),
        data.subrange(pos, pos + RECORD_LEN) == record_bytes(d),
    ensures
        data[pos] == d.subtype,
        bbox_at(data, pos + 1) == d.bbox,
        le64(data, pos + 17) == d.offset,
        le32(data, pos + 25) == d.length,
{
    let b = record_bytes(d);
    assert(data.subrange(pos, pos + RECORD_LEN)[0] == data[pos]);
    assert(data.subrange(pos + 1, pos + 5) =~= b.subrange(1, 5));
    assert(data.subrange(pos + 5, pos + 9) =~= b.subrange(5, 9));
    assert(data.subrange(pos + 9, pos + 13) =~= b.subrange(9, 13));
    assert(data.subrange(pos + 13, pos + 17) =~= b.subrange(13, 17));
    assert(data.subrange(pos + 17, pos + 25) =~= b.subrange(17, 25));
    assert(data.subrange(pos + 25, pos + 29) =~= b.subrange(25, 29));
    assert(b.subrange(1, 5) =~= bytes32(d.bbox.xmin.bits as int));
    assert(b.subrange(5, 9) =~= bytes32(d.bbox.xmax.bits as int));
    assert(b.subrange(9, 13) =~= bytes32(d.bbox.ymin.bits as int));
    assert(b.subrange(13, 17) =~= bytes32(d.bbox.ymax.bits as int));
    assert(b.subrange(17, 25) =~= bytes64(d.offset as int));
    assert(b.subrange(25, 29) =~= bytes32(d.length as int));
    lemma_read32(data, pos + 1, d.bbox.xmin.bits as int);
    lemma_read32(data, pos + 5, d.bbox.xmax.bits as int);
    lemma_read32(data, pos + 9, d.bbox.ymin.bits as int);
    lemma_read32(data, pos + 13, d.bbox.ymax.bits as int);
    lemma_read64(data, pos + 17, d.offset as int);
    lemma_read32(data, pos + 25, d.length as int);
}

/// The header is read back.
proof fn lemma_read_header(c: Contents, unused: Seq<u8>, behind: Seq<u8>)
    requires
        c.fits(),
        unused.len() == 3,
    ensures
        c.header(unused).len() == HEADER_LEN,
        has_magic(c.header(unused) + behind),
        (c.header(unused) + behind)[4] == VERSION,
        le32(c.header(unused) + behind, 8) == c.divisions.len(),
        le32(c.header(unused) + behind, 12) == c.coarse.len(),
        le32(c.header(unused) + behind, 16) == c.fine.len(),
        le32(c.header(unused) + behind, 20) == c.countries.len(),
{
    let h = c.header(unused);
    let data = h + behind;
    assert(data.subrange(8, 12) =~= bytes32(c.divisions.len() as int));
    assert(data.subrange(12, 16) =~= bytes32(c.coarse.len() as int));
    assert(data.subrange(16, 20) =~= bytes32(c.fine.len() as int));
    assert(data.subrange(20, 24) =~= bytes32(c.countries.len() as int));
    lemma_read32(data, 8, c.divisions.len() as int);
    lemma_read32(data, 12, c.coarse.len() as int);
    lemma_read32(data, 16, c.fine.len() as int);
    lemma_read32(data, 20, c.countries.len() as int);
}

/// The division records are read back from behind a header.
proof fn lemma_read_records(header: Seq<u8>, divisions: Seq<Division>, behind: Seq<u8>, i: int)
    requires
        header.len() == HEADER_LEN,
        0 <= i < divisions.len(),
    ensures
        ({
            let data = header + (records_bytes(divisions) + behind);
            let pos = HEADER_LEN + RECORD_LEN * i;
            &&& data[pos] == divisions[i].subtype
            &&& bbox_at(data, pos + 1) == divisions[i].bbox
            &&& le64(data, pos + 17) == divisions[i].offset
            &&& le32(data, pos + 25) == divisions[i].length
        }),
{
    let data = header + (records_bytes(divisions) + behind);
    let pos = HEADER_LEN + RECORD_LEN * i;
    lemma_records_entry(divisions, i);
    assert(RECORD_LEN * i + RECORD_LEN <= RECORD_LEN * divisions.len());
    assert(data.subrange(pos, pos + RECORD_LEN) =~= records_bytes(divisions).subrange(
        RECORD_LEN * i,
        RECORD_LEN * i + RECORD_LEN,
    ));
    lemma_read_record(data, pos, divisions[i]);
}

/// The columns of the division records are those of the contents.
proof fn lemma_read_columns(c: Contents, header: Seq<u8>, behind: Seq<u8>)
    requires
        header.len() == HEADER_LEN,
    ensures
        ({
            let data = header + (records_bytes(c.divisions) + behind);
            let n = c.divisions.len();
            &&& Seq::new(n, |i: int| data[HEADER_LEN + RECORD_LEN * i]) == c.index().subtypes
            &&& Seq::new(n, |i: int| bbox_at(data, HEADER_LEN + RECORD_LEN * i + 1))
                == c.index().bboxes
            &&& Seq::new(n, |i: int| le64(data, HEADER_LEN + RECORD_LEN * i + 17) as u64)
                == c.index().poly_offsets
            &&& Seq::new(n, |i: int| le32(data, HEADER_LEN + RECORD_LEN * i + 25) as u32)
                == c.index().poly_lengths
        }),
{
    let data = header + (records_bytes(c.divisions) + behind);
    let n = c.divisions.len();
    assert forall|i: int|
        #![trigger c.divisions[i]]
        0 <= i < n implies data[HEADER_LEN + RECORD_LEN * i] == c.divisions[i].subtype && bbox_at(
        data,
        HEADER_LEN + RECORD_LEN * i + 1,
    ) == c.divisions[i].bbox && le64(data, HEADER_LEN + RECORD_LEN * i + 17)
        == c.divisions[i].offset && le32(data, HEADER_LEN + RECORD_LEN * i + 25)
        == c.divisions[i].length by {
        lemma_read_records(header, c.divisions, behind, i);
    }
    assert(Seq::new(n, |i: int| data[HEADER_LEN + RECORD_LEN * i]) =~= c.index().subtypes);
    assert(Seq::new(n, |i: int| bbox_at(data, HEADER_LEN + RECORD_LEN * i + 1))
        =~= c.index().bboxes);
    assert(Seq::new(n, |i: int| le64(data, HEADER_LEN + RECORD_LEN * i + 17) as u64)
        =~= c.index().poly_offsets);
    assert(Seq::new(n, |i: int| le32(data, HEADER_LEN + RECORD_LEN * i + 25) as u32)
        =~= c.index().poly_lengths);
}

proof fn lemma_skip_front(a: Seq<u8>, b: Seq<u8>)
    ensures
        (a + b).skip(a.len() as int) == b,
{
    assert((a + b).skip(a.len() as int) =~= b);
}

/// What follows a header that gives the right counts is read back.
proof fn lemma_read_sections(c: Contents, header: Seq<u8>, behind: Seq<u8>)
    requires
        c.fits(),
        header.len() == HEADER_LEN,
        ({
            let data = header + (records_bytes(c.divisions) + (grid_bytes(c.coarse) + (grid_bytes(
                c.fine,
            ) + (preindex_bytes(c.countries) + behind))));
            &&& has_magic(data)
            &&& data[4] == VERSION
            &&& le32(data, 8) == c.divisions.len()
            &&& le32(data, 12) == c.coarse.len()
            &&& le32(data, 16) == c.fine.len()
            &&& le32(data, 20) == c.countries.len()
        }),
    ensures
        index_of(
            header + (records_bytes(c.divisions) + (grid_bytes(c.coarse) + (grid_bytes(c.fine) + (
            preindex_bytes(c.countries) + behind)))),
        ) == Ok::<IndexView, XsciError>(c.index()),
        index_len(
            header + (records_bytes(c.divisions) + (grid_bytes(c.coarse) + (grid_bytes(c.fine) + (
            preindex_bytes(c.countries) + behind)))),
        ) == header.len() + records_bytes(c.divisions).len() + grid_bytes(c.coarse).len()
            + grid_bytes(c.fine).len() + preindex_bytes(c.countries).len(),
{
    let records = records_bytes(c.divisions);
    let coarse = grid_bytes(c.coarse);
    let fine = grid_bytes(c.fine);
    let after_fine = preindex_bytes(c.countries) + behind;
    let after_coarse = fine + after_fine;
    let rest = coarse + after_coarse;
    let data = header + (records + rest);
    lemma_records_len(c.divisions);
    lemma_read_columns(c, header, rest);
    assert(data.skip(records_end(data)) == rest) by {
        assert(data =~= (header + records) + rest);
        lemma_skip_front(header + records, rest);
    }
    lemma_read_grid(c.coarse, after_coarse);
    lemma_skip_front(coarse, after_coarse);
    lemma_read_grid(c.fine, after_fine);
    lemma_skip_front(fine, after_fine);
    lemma_read_preindex(c.countries, behind);
    lemma_preindex_len(c.countries);
    assert(data.len() == header.len() + records.len() + rest.len());
    lemma_index_of_sections(
        data,
        rest,
        c.coarse,
        coarse.len() as int,
        c.fine,
        fine.len() as int,
        c.countries,
        c.index(),
    );
}

/// What [`index_of`] gives, from what its sections give.
proof fn lemma_index_of_sections(
    data: Seq<u8>,
    rest: Seq<u8>,
    coarse: Seq<(Cell, Seq<u32>)>,
    coarse_len: int,
    fine: Seq<(Cell, Seq<u32>)>,
    fine_len: int,
    countries: Seq<(Cell, u32)>,
    index: IndexView,
)
    requires
        data.len() >= HEADER_LEN,
        has_magic(data),
        data[4] == VERSION,
        records_end(data) <= data.len(),
        rest == data.skip(records_end(data)),
        grid_section(rest, le32(data, 12) as nat) == Ok::<
            (Seq<(Cell, Seq<u32>)>, int),
            XsciError,
        >((coarse, coarse_len)),
        grid_section(rest.skip(coarse_len), le32(data, 16) as nat) == Ok::<
            (Seq<(Cell, Seq<u32>)>, int),
            XsciError,
        >((fine, fine_len)),
        preindex_section(rest.skip(coarse_len).skip(fine_len), le32(data, 20) as nat) == Ok::<
            Seq<(Cell, u32)>,
            XsciError,
        >(countries),
        index.subtypes == Seq::new(
            le32(data, 8) as nat,
            |i: int| data[HEADER_LEN + RECORD_LEN * i],
        ),
        index.bboxes == Seq::new(
            le32(data, 8) as nat,
            |i: int| bbox_at(data, HEADER_LEN + RECORD_LEN * i + 1),
        ),
        index.poly_offsets == Seq::new(
            le32(data, 8) as nat,
            |i: int| le64(data, HEADER_LEN + RECORD_LEN * i + 17) as u64,
        ),
        index.poly_lengths == Seq::new(
            le32(data, 8) as nat,
            |i: int| le32(data, HEADER_LEN + RECORD_LEN * i + 25) as u32,
        ),
        index.grid_coarse == entries_map(coarse),
        index.grid_fine == entries_map(fine),
        index.country_preindex == entries_map(countries),
    ensures
        index_of(data) == Ok::<IndexView, XsciError>(index),
        index_len(data) == records_end(data) + coarse_len + fine_len + 8 * le32(data, 20),
{
    assert(index_of(data)->Ok_0 =~= index);
}

proof fn lemma_regroup(
    a: Seq<u8>,
    b: Seq<u8>,
    c: Seq<u8>,
    d: Seq<u8>,
    e: Seq<u8>,
    f: Seq<u8>,
)
    ensures
        a + b + c + d + e + f == a + (b + (c + (d + (e + f)))),
{
    assert(a + b + c + d + e + f =~= a + (b + (c + (d + (e + f)))));
}

/// An index file is read back as the index that its contents make up, whatever
/// the unused bytes of the header are and whatever follows the file; the index
/// takes up the whole file and none of what follows.
pub proof fn law_index_round_trip(c: Contents, unused: Seq<u8>, behind: Seq<u8>)
    requires
        c.fits(),
        unused.len() == 3,
    ensures
        index_of(c.file(unused) + behind) == Ok::<IndexView, XsciError>(c.index()),
        index_len(c.file(unused) + behind) == c.file(unused).len(),
{
    lemma_regroup(
        c.header(unused),
        records_bytes(c.divisions),
        grid_bytes(c.coarse),
        grid_bytes(c.fine),
        preindex_bytes(c.countries),
        behind,
    );
    lemma_read_header(
        c,
        unused,
        records_bytes(c.divisions) + (grid_bytes(c.coarse) + (grid_bytes(c.fine) + (preindex_bytes(
            c.countries,
        ) + behind))),
    );
    lemma_read_sections(c, c.header(unused), behind);
}

/// A section that can be read is read the same with more bytes behind it.
proof fn lemma_grid_extends(data: Seq<u8>, extra: Seq<u8>, count: nat)
    requires
        grid_section(data, count) is Ok,
    ensures
        grid_section(data + extra, count) == grid_section(data, count),
    decreases count,
{
    if count > 0 {
        let longer = data + extra;
        let n = (count - 1) as nat;
        lemma_grid_extends(data, extra, n);
        lemma_grid_section_len(data, n);
        let (cells, pos) = grid_section(data, n)->Ok_0;
        assert(le16(longer, pos + 4) == le16(data, pos + 4));
        assert(cell_at(longer, pos) == cell_at(data, pos));
        let k = le16(data, pos + 4) as nat;
        assert(indices_at(longer, pos + 6, k) =~= indices_at(data, pos + 6, k));
    }
}

proof fn lemma_preindex_extends(data: Seq<u8>, extra: Seq<u8>, count: nat)
    requires
        preindex_section(data, count) is Ok,
    ensures
        preindex_section(data + extra, count) == preindex_section(data, count),
{
    assert(preindex_section(data + extra, count)->Ok_0 =~= preindex_section(data, count)->Ok_0);
}

/// The columns of the division records do not depend on what follows them.
proof fn lemma_columns_extend(data: Seq<u8>, extra: Seq<u8>)
    requires
        data.len() >= HEADER_LEN,
        records_end(data) <= data.len(),
    ensures
        ({
            let longer = data + extra;
            let n = le32(data, 8) as nat;
            &&& Seq::new(n, |i: int| longer[HEADER_LEN + RECORD_LEN * i]) == Seq::new(
                n,
                |i: int| data[HEADER_LEN + RECORD_LEN * i],
            )
            &&& Seq::new(n, |i: int| bbox_at(longer, HEADER_LEN + RECORD_LEN * i + 1))
                == Seq::new(n, |i: int| bbox_at(data, HEADER_LEN + RECORD_LEN * i + 1))
            &&& Seq::new(n, |i: int| le64(longer, HEADER_LEN + RECORD_LEN * i + 17) as u64)
                == Seq::new(n, |i: int| le64(data, HEADER_LEN + RECORD_LEN * i + 17) as u64)
            &&& Seq::new(n, |i: int| le32(longer, HEADER_LEN + RECORD_LEN * i + 25) as u32)
                == Seq::new(n, |i: int| le32(data, HEADER_LEN + RECORD_LEN * i + 25) as u32)
        }),
{
    let longer = data + extra;
    let n = le32(data, 8) as nat;
    assert forall|p: int| 0 <= p < data.len() implies longer[p] == data[p] by {}
    assert(Seq::new(n, |i: int| longer[HEADER_LEN + RECORD_LEN * i]) =~= Seq::new(
        n,
        |i: int| data[HEADER_LEN + RECORD_LEN * i],
    ));
    assert(Seq::new(n, |i: int| bbox_at(longer, HEADER_LEN + RECORD_LEN * i + 1)) =~= Seq::new(
        n,
        |i: int| bbox_at(data, HEADER_LEN + RECORD_LEN * i + 1),
    ));
    assert(Seq::new(n, |i: int| le64(longer, HEADER_LEN + RECORD_LEN * i + 17) as u64)
        =~= Seq::new(n, |i: int| le64(data, HEADER_LEN + RECORD_LEN * i + 17) as u64));
    assert(Seq::new(n, |i: int| le32(longer, HEADER_LEN + RECORD_LEN * i + 25) as u32)
        =~= Seq::new(n, |i: int| le32(data, HEADER_LEN + RECORD_LEN * i + 25) as u32));
}

/// What follows an index in its file does not matter.
pub proof fn law_trailing_bytes_do_not_matter(data: Seq<u8>, extra: Seq<u8>)
    requires
        index_of(data) is Ok,
    ensures
        index_of(data + extra) == index_of(data),
        index_len(data + extra) == index_len(data),
        index_len(data) <= data.len(),
{
    let longer = data + extra;
    let end = records_end(data);
    let rest = data.skip(end);
    let coarse_count = le32(data, 12) as nat;
    let fine_count = le32(data, 16) as nat;
    let country_count = le32(data, 20) as nat;
    lemma_grid_section_len(rest, coarse_count);
    let (coarse, coarse_len) = grid_section(rest, coarse_count)->Ok_0;
    let after_coarse = rest.skip(coarse_len);
    lemma_grid_section_len(after_coarse, fine_count);
    let (fine, fine_len) = grid_section(after_coarse, fine_count)->Ok_0;
    let after_fine = after_coarse.skip(fine_len);
    let countries = preindex_section(after_fine, country_count)->Ok_0;
    assert forall|p: int| 0 <= p < HEADER_LEN implies longer[p] == data[p] by {}
    assert(longer.skip(end) =~= rest + extra);
    lemma_grid_extends(rest, extra, coarse_count);
    assert((rest + extra).skip(coarse_len) =~= after_coarse + extra);
    lemma_grid_extends(after_coarse, extra, fine_count);
    assert((after_coarse + extra).skip(fine_len) =~= after_fine + extra);
    lemma_preindex_extends(after_fine, extra, country_count);
    lemma_columns_extend(data, extra);
    lemma_index_of_sections(
        longer,
        rest + extra,
        coarse,
        coarse_len,
        fine,
        fine_len,
        countries,
        index_of(data)->Ok_0,
    );
}

/// A file that is cut short within its index is refused.
pub proof fn law_cut_file_is_refused(data: Seq<u8>, n: int)
    requires
        index_of(data) is Ok,
        0 <= n < index_len(data),
        n <= data.len(),
    ensures
        index_of(data.take(n)) is Err,
{
    if index_of(data.take(n)) is Ok {
        law_trailing_bytes_do_not_matter(data.take(n), data.skip(n));
        assert(data.take(n) + data.skip(n) =~= data);
    }
}

} // verus!
