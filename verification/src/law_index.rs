//! Which files hold an index, and what is wrong with the others.

use vstd::prelude::*;

use crate::bytes::{bytes16, bytes32, bytes64, le16, le32, le64, signed16};
use crate::cells::Cell;
use crate::layout::{
    cell_bytes, cells_fit, entry_bytes, grid_bytes, index_len, indices_bytes,
    law_index_round_trip, pattern16, preindex_bytes, record_bytes, records_bytes, Contents,
    Division,
};
use crate::text::decimal;
use crate::xsci::{
    bbox_at, cell_at, entries_map, grid_section, index_of, indices_at, lemma_grid_section_len,
    preindex_section, records_end, IndexView, XsciError, VERSION,
};

verus! {

/// What is wrong with a file whose header or records are not as they should be:
/// it is shorter than a header, it does not begin with `XSCI`, its version is
/// not 1, or it ends within the records that the header announces.
pub proof fn law_header_errors(data: Seq<u8>)
    ensures
        ({
            let magic = data[0] == 88 && data[1] == 83 && data[2] == 67 && data[3] == 73;
            let end = 24 + 29 * (data[8] + 256 * data[9] + 65536 * data[10] + 16777216 * data[11]);
            let r = index_of(data);
            &&& r == Err::<IndexView, XsciError>(XsciError::TooShort) <==> data.len() < 24
            &&& data.len() >= 24 && !magic <==> r == Err::<IndexView, XsciError>(
                XsciError::BadMagic(data[0], data[1], data[2], data[3]),
            )
            &&& data.len() >= 24 && magic && data[4] != 1 <==> r == Err::<IndexView, XsciError>(
                XsciError::UnsupportedVersion(data[4]),
            )
            &&& data.len() >= 24 && magic && data[4] == 1 && end > data.len() <==> r == Err::<
                IndexView,
                XsciError,
            >(XsciError::TruncatedDivisions)
            &&& records_end(data) == end
        }),
{
    if data.len() >= 24 {
        let rest = data.skip(records_end(data));
        lemma_grid_errors(rest, le32(data, 12) as nat);
        if let Ok((_, coarse_len)) = grid_section(rest, le32(data, 12) as nat) {
            lemma_grid_errors(rest.skip(coarse_len), le32(data, 16) as nat);
        }
    }
}

proof fn lemma_grid_errors(data: Seq<u8>, count: nat)
    ensures
        grid_section(data, count) matches Err(e) ==> e is TruncatedCellHeader
            || e is TruncatedCellIndices,
    decreases count,
{
    if count > 0 {
        lemma_grid_errors(data, (count - 1) as nat);
    }
}

proof fn lemma_stays_refused(data: Seq<u8>, done: nat, count: nat)
    requires
        done <= count,
        grid_section(data, done) is Err,
    ensures
        grid_section(data, count) == grid_section(data, done),
    decreases count,
{
    if done < count {
        lemma_stays_refused(data, done, (count - 1) as nat);
    }
}

/// A grid section is refused where it ends: within the six bytes in front of a
/// cell's divisions, or within the divisions.
pub proof fn law_grid_errors(data: Seq<u8>, done: nat, count: nat)
    requires
        done < count,
        grid_section(data, done) is Ok,
    ensures
        ({
            let pos = (grid_section(data, done)->Ok_0).1;
            let n = data[pos + 4] + 256 * data[pos + 5];
            if pos + 6 > data.len() {
                grid_section(data, count) == Err::<(Seq<(Cell, Seq<u32>)>, int), XsciError>(
                    XsciError::TruncatedCellHeader,
                )
            } else if pos + 6 + 4 * n > data.len() {
                grid_section(data, count) == Err::<(Seq<(Cell, Seq<u32>)>, int), XsciError>(
                    XsciError::TruncatedCellIndices,
                )
            } else {
                grid_section(data, done + 1) is Ok && (grid_section(data, done + 1)->Ok_0).1 == pos
                    + 6 + 4 * n
            }
        }),
{
    if grid_section(data, done + 1) is Err {
        lemma_stays_refused(data, done + 1, count);
    }
}

/// The first `done` cells of a grid section can be read, and the next one cannot.
pub open spec fn stops_behind(data: Seq<u8>, done: nat) -> bool {
    grid_section(data, done) is Ok && grid_section(data, done + 1) is Err
}

/// A grid section is refused only for a cell that cannot be read.
pub proof fn law_grid_is_refused_for_a_cell(data: Seq<u8>, count: nat)
    ensures
        grid_section(data, count) is Err <==> exists|done: nat|
            done < count && #[trigger] stops_behind(data, done),
    decreases count,
{
    if grid_section(data, count) is Err {
        let m = (count - 1) as nat;
        if grid_section(data, m) is Ok {
            assert(stops_behind(data, m));
        } else {
            law_grid_is_refused_for_a_cell(data, m);
        }
    }
    if exists|done: nat| done < count && #[trigger] stops_behind(data, done) {
        let done = choose|done: nat| done < count && #[trigger] stops_behind(data, done);
        lemma_stays_refused(data, done + 1, count);
    }
}

proof fn lemma_bytes16(data: Seq<u8>, p: int)
    requires
        0 <= p,
        p + 2 <= data.len(),
    ensures
        bytes16(le16(data, p)) == data.subrange(p, p + 2),
        0 <= le16(data, p) <= 65535,
{
    assert(bytes16(le16(data, p)) =~= data.subrange(p, p + 2));
}

proof fn lemma_halves(low: int, high: int)
    ensures
        0 <= low < 65536 ==> (low + 65536 * high) % 65536 == low && (low + 65536 * high) / 65536
            == high,
        0 <= low < 4294967296 ==> (low + 4294967296 * high) % 4294967296 == low && (low
            + 4294967296 * high) / 4294967296 == high,
{
}

proof fn lemma_bytes32(data: Seq<u8>, p: int)
    requires
        0 <= p,
        p + 4 <= data.len(),
    ensures
        bytes32(le32(data, p)) == data.subrange(p, p + 4),
        0 <= le32(data, p) <= 4294967295,
{
    lemma_bytes16(data, p);
    lemma_bytes16(data, p + 2);
    lemma_halves(le16(data, p), le16(data, p + 2));
    lemma_glue(data, p, p + 2, p + 4);
}

proof fn lemma_bytes64(data: Seq<u8>, p: int)
    requires
        0 <= p,
        p + 8 <= data.len(),
    ensures
        bytes64(le64(data, p)) == data.subrange(p, p + 8),
        0 <= le64(data, p) <= 18446744073709551615,
{
    lemma_bytes32(data, p);
    lemma_bytes32(data, p + 4);
    let low = le32(data, p);
    let high = le32(data, p + 4);
    lemma_halves(low, high);
    lemma_glue(data, p, p + 4, p + 8);
    assert(le64(data, p) == low + 4294967296 * high);
    assert(bytes64(low + 4294967296 * high) == bytes32(low) + bytes32(high));
}

proof fn lemma_cell(data: Seq<u8>, p: int)
    requires
        0 <= p,
        p + 4 <= data.len(),
    ensures
        cell_bytes(cell_at(data, p)) == data.subrange(p, p + 4),
{
    lemma_bytes16(data, p);
    lemma_bytes16(data, p + 2);
    assert(pattern16(signed16(le16(data, p)) as i16) == le16(data, p));
    assert(pattern16(signed16(le16(data, p + 2)) as i16) == le16(data, p + 2));
    assert(cell_bytes(cell_at(data, p)) =~= data.subrange(p, p + 4));
}

proof fn lemma_indices(data: Seq<u8>, p: int, n: nat)
    requires
        0 <= p,
        p + 4 * n <= data.len(),
    ensures
        indices_bytes(indices_at(data, p, n)) == data.subrange(p, p + 4 * n),
    decreases n,
{
    let all = indices_at(data, p, n);
    if n > 0 {
        let m = (n - 1) as nat;
        lemma_indices(data, p, m);
        assert(all.drop_last() =~= indices_at(data, p, m));
        lemma_bytes32(data, p + 4 * m);
        assert(all.last() as int == le32(data, p + 4 * m));
    }
    assert(indices_bytes(all) =~= data.subrange(p, p + 4 * n));
}

/// What is read of a grid section is what stands in it: written out again, the
/// cells with their divisions are the bytes that were read.
pub proof fn law_grid_is_what_stands_there(data: Seq<u8>, count: nat)
    ensures
        grid_section(data, count) matches Ok((cells, len)) ==> cells.len() == count && 0 <= len
            <= data.len() && cells_fit(cells) && grid_bytes(cells) == data.take(len),
    decreases count,
{
    if count == 0 {
        assert(grid_bytes(Seq::empty()) =~= data.take(0));
    } else {
        let m = (count - 1) as nat;
        law_grid_is_what_stands_there(data, m);
        if let Ok((cells, len)) = grid_section(data, count) {
            let (before, pos) = grid_section(data, m)->Ok_0;
            let n = le16(data, pos + 4) as nat;
            lemma_cell(data, pos);
            lemma_bytes16(data, pos + 4);
            lemma_indices(data, pos + 6, n);
            assert(cells.drop_last() =~= before);
            let last = cells.last();
            assert(last.1.len() == n);
            assert(cells_fit(cells)) by {
                assert forall|i: int| 0 <= i < cells.len() implies (#[trigger] cells[i]).1.len()
                    <= u16::MAX by {
                    if i < m {
                        assert(cells[i] == before[i]);
                    }
                }
            }
            assert(entry_bytes(last) =~= data.subrange(pos, len));
            assert(grid_bytes(cells) =~= data.take(len));
        }
    }
}

/// What is read of a preindex section is what stands in it; it is read exactly
/// if all of its entries are there.
pub proof fn law_preindex_is_what_stands_there(data: Seq<u8>, count: nat)
    ensures
        preindex_section(data, count) is Ok <==> 8 * count <= data.len(),
        preindex_section(data, count) is Err ==> preindex_section(data, count)
            == Err::<Seq<(Cell, u32)>, XsciError>(XsciError::TruncatedPreindex),
        preindex_section(data, count) matches Ok(entries) ==> entries.len() == count
            && preindex_bytes(entries) == data.take(8 * count as int),
    decreases count,
{
    if let Ok(entries) = preindex_section(data, count) {
        if count == 0 {
            assert(preindex_bytes(entries) =~= data.take(0));
        } else {
            let m = (count - 1) as nat;
            law_preindex_is_what_stands_there(data, m);
            assert(entries.drop_last() =~= preindex_section(data, m)->Ok_0);
            lemma_cell(data, 8 * m as int);
            lemma_bytes32(data, 8 * m as int + 4);
            assert(preindex_bytes(entries) =~= data.take(8 * count as int));
        }
    }
}

/// The division records of a file.
pub open spec fn divisions_of(data: Seq<u8>, n: nat) -> Seq<Division> {
    Seq::new(
        n,
        |i: int|
            Division {
                subtype: data[24 + 29 * i],
                bbox: bbox_at(data, 24 + 29 * i + 1),
                offset: le64(data, 24 + 29 * i + 17) as u64,
                length: le32(data, 24 + 29 * i + 25) as u32,
            },
    )
}

proof fn lemma_glue(data: Seq<u8>, a: int, b: int, c: int)
    requires
        0 <= a <= b <= c <= data.len(),
    ensures
        data.subrange(a, b) + data.subrange(b, c) == data.subrange(a, c),
{
    assert(data.subrange(a, b) + data.subrange(b, c) =~= data.subrange(a, c));
}

proof fn lemma_record_pieces(data: Seq<u8>, p: int)
    requires
        0 <= p,
        p + 29 <= data.len(),
    ensures
        data.subrange(p, p + 1) + data.subrange(p + 1, p + 5) + data.subrange(p + 5, p + 9)
            + data.subrange(p + 9, p + 13) + data.subrange(p + 13, p + 17) + data.subrange(
            p + 17,
            p + 25,
        ) + data.subrange(p + 25, p + 29) == data.subrange(p, p + 29),
{
    lemma_glue(data, p, p + 1, p + 5);
    lemma_glue(data, p, p + 5, p + 9);
    lemma_glue(data, p, p + 9, p + 13);
    lemma_glue(data, p, p + 13, p + 17);
    lemma_glue(data, p, p + 17, p + 25);
    lemma_glue(data, p, p + 25, p + 29);
}

proof fn lemma_record(data: Seq<u8>, p: int, d: Division)
    requires
        0 <= p,
        p + 29 <= data.len(),
        seq![d.subtype] == data.subrange(p, p + 1),
        bytes32(d.bbox.xmin.bits as int) == data.subrange(p + 1, p + 5),
        bytes32(d.bbox.xmax.bits as int) == data.subrange(p + 5, p + 9),
        bytes32(d.bbox.ymin.bits as int) == data.subrange(p + 9, p + 13),
        bytes32(d.bbox.ymax.bits as int) == data.subrange(p + 13, p + 17),
        bytes64(d.offset as int) == data.subrange(p + 17, p + 25),
        bytes32(d.length as int) == data.subrange(p + 25, p + 29),
    ensures
        record_bytes(d) == data.subrange(p, p + 29),
{
    lemma_record_pieces(data, p);
}

proof fn lemma_record_at(data: Seq<u8>, p: int, d: Division)
    requires
        0 <= p,
        p + 29 <= data.len(),
        d.subtype == data[p],
        d.bbox == bbox_at(data, p + 1),
        d.offset == le64(data, p + 17) as u64,
        d.length == le32(data, p + 25) as u32,
    ensures
        record_bytes(d) == data.subrange(p, p + 29),
{
    lemma_bytes32(data, p + 1);
    lemma_bytes32(data, p + 5);
    lemma_bytes32(data, p + 9);
    lemma_bytes32(data, p + 13);
    lemma_bytes64(data, p + 17);
    lemma_bytes32(data, p + 25);
    assert(d.bbox.xmin.bits as int == le32(data, p + 1));
    assert(d.bbox.xmax.bits as int == le32(data, p + 5));
    assert(d.bbox.ymin.bits as int == le32(data, p + 9));
    assert(d.bbox.ymax.bits as int == le32(data, p + 13));
    assert(seq![d.subtype] =~= data.subrange(p, p + 1));
    lemma_record(data, p, d);
}

proof fn lemma_records(data: Seq<u8>, n: nat)
    requires
        24 + 29 * n <= data.len(),
    ensures
        records_bytes(divisions_of(data, n)) == data.subrange(24, 24 + 29 * n as int),
    decreases n,
{
    let all = divisions_of(data, n);
    if n == 0 {
        assert(records_bytes(all) =~= data.subrange(24, 24));
    } else {
        let m = (n - 1) as nat;
        let p = 24 + 29 * m as int;
        lemma_records(data, m);
        assert(all.drop_last() =~= divisions_of(data, m));
        let d = all[m as int];
        lemma_record_at(data, p, d);
        lemma_glue(data, 24, p, p + 29);
        assert(all.last() == d);
    }
}

proof fn lemma_header(c: Contents, data: Seq<u8>)
    requires
        data.len() >= 24,
        data[0] == 88 && data[1] == 83 && data[2] == 67 && data[3] == 73 && data[4] == 1,
        c.divisions.len() == le32(data, 8),
        c.coarse.len() == le32(data, 12),
        c.fine.len() == le32(data, 16),
        c.countries.len() == le32(data, 20),
    ensures
        c.header(data.subrange(5, 8)) == data.take(24),
{
    lemma_bytes32(data, 8);
    lemma_bytes32(data, 12);
    lemma_bytes32(data, 16);
    lemma_bytes32(data, 20);
    let a = seq![0x58u8, 0x53, 0x43, 0x49, VERSION];
    let u = data.subrange(5, 8);
    let b = bytes32(c.divisions.len() as int);
    let d = bytes32(c.coarse.len() as int);
    let e = bytes32(c.fine.len() as int);
    let f = bytes32(c.countries.len() as int);
    assert(a + u =~= data.take(8));
    assert(a + u + b =~= data.take(12));
    assert(a + u + b + d =~= data.take(16));
    assert(a + u + b + d + e =~= data.take(20));
    assert(a + u + b + d + e + f =~= data.take(24));
}

/// The contents of the sections behind the records.
#[verifier::rlimit(40)]
proof fn lemma_sections(data: Seq<u8>, rest: Seq<u8>, end: int, n: nat, m: nat, k: nat) -> (r: (
    Seq<(Cell, Seq<u32>)>,
    Seq<(Cell, Seq<u32>)>,
    Seq<(Cell, u32)>,
    int,
    int,
    int,
))
    requires
        0 <= end <= data.len(),
        rest == data.skip(end),
        grid_section(rest, n) is Ok,
        grid_section(rest.skip((grid_section(rest, n)->Ok_0).1), m) is Ok,
        preindex_section(
            rest.skip((grid_section(rest, n)->Ok_0).1).skip(
                (grid_section(rest.skip((grid_section(rest, n)->Ok_0).1), m)->Ok_0).1,
            ),
            k,
        ) is Ok,
    ensures
        end <= r.3 <= r.4 <= r.5 <= data.len(),
        r.3 == end + (grid_section(rest, n)->Ok_0).1,
        r.4 == r.3 + (grid_section(rest.skip((grid_section(rest, n)->Ok_0).1), m)->Ok_0).1,
        r.5 == r.4 + 8 * k,
        r.0.len() == n && r.1.len() == m && r.2.len() == k,
        cells_fit(r.0) && cells_fit(r.1),
        grid_bytes(r.0) == data.subrange(end, r.3),
        grid_bytes(r.1) == data.subrange(r.3, r.4),
        preindex_bytes(r.2) == data.subrange(r.4, r.5),
{
    law_grid_is_what_stands_there(rest, n);
    let (coarse, coarse_len) = grid_section(rest, n)->Ok_0;
    let after_coarse = rest.skip(coarse_len);
    law_grid_is_what_stands_there(after_coarse, m);
    let (fine, fine_len) = grid_section(after_coarse, m)->Ok_0;
    let after_fine = after_coarse.skip(fine_len);
    law_preindex_is_what_stands_there(after_fine, k);
    let countries = preindex_section(after_fine, k)->Ok_0;
    let to_coarse = end + coarse_len;
    let to_fine = to_coarse + fine_len;
    let total = to_fine + 8 * k;
    assert(rest.take(coarse_len) =~= data.subrange(end, to_coarse));
    assert(after_coarse.take(fine_len) =~= data.subrange(to_coarse, to_fine));
    assert(after_fine.take(8 * k as int) =~= data.subrange(to_fine, total));
    (coarse, fine, countries, to_coarse, to_fine, total)
}

/// The contents that a file was written from.
proof fn lemma_contents(data: Seq<u8>) -> (c: Contents)
    requires
        index_of(data) is Ok,
    ensures
        c.fits(),
        24 <= data.len(),
        0 <= index_len(data) <= data.len(),
        c.file(data.subrange(5, 8)) == data.take(index_len(data)),
{
    lemma_index_len(data);
    law_header_errors(data);
    let n = le32(data, 8) as nat;
    lemma_bytes32(data, 8);
    lemma_bytes32(data, 12);
    lemma_bytes32(data, 16);
    lemma_bytes32(data, 20);
    let end = records_end(data);
    let r = lemma_sections(
        data,
        data.skip(end),
        end,
        le32(data, 12) as nat,
        le32(data, 16) as nat,
        le32(data, 20) as nat,
    );
    let c = Contents { divisions: divisions_of(data, n), coarse: r.0, fine: r.1, countries: r.2 };
    lemma_records(data, n);
    lemma_header(c, data);
    lemma_file(c, data, end, r.3, r.4, r.5);
    c
}

/// The file was written from the contents, up to what follows it.
pub open spec fn is_written(data: Seq<u8>, c: Contents) -> bool {
    &&& c.fits()
    &&& data == c.file(data.subrange(5, 8)) + data.skip(index_len(data))
}

proof fn lemma_is_written(data: Seq<u8>, c: Contents, total: int)
    requires
        c.fits(),
        0 <= total <= data.len(),
        total == index_len(data),
        c.file(data.subrange(5, 8)) == data.take(total),
    ensures
        is_written(data, c),
{
    assert(data =~= data.take(total) + data.skip(total));
}

/// A file holds an index only if it is written as an index file is, up to what
/// follows it; the index is then that of its contents.
pub proof fn law_only_index_files_are_read(data: Seq<u8>)
    requires
        index_of(data) is Ok,
    ensures
        exists|c: Contents| #[trigger] is_written(data, c) && index_of(data)->Ok_0 == c.index(),
{
    let c = lemma_contents(data);
    lemma_is_written(data, c, index_len(data));
    lemma_written_is_read(data, c);
}

proof fn lemma_written_is_read(data: Seq<u8>, c: Contents)
    requires
        is_written(data, c),
        24 <= data.len(),
    ensures
        index_of(data) == Ok::<IndexView, XsciError>(c.index()),
{
    law_index_round_trip(c, data.subrange(5, 8), data.skip(index_len(data)));
}

proof fn lemma_index_len(data: Seq<u8>)
    requires
        index_of(data) is Ok,
    ensures
        0 <= index_len(data),
{
    let rest = data.skip(records_end(data));
    lemma_grid_section_len(rest, le32(data, 12) as nat);
    lemma_grid_section_len(
        rest.skip((grid_section(rest, le32(data, 12) as nat)->Ok_0).1),
        le32(data, 16) as nat,
    );
}

proof fn lemma_file(c: Contents, data: Seq<u8>, a: int, b: int, d: int, e: int)
    requires
        24 <= a <= b <= d <= e <= data.len(),
        c.header(data.subrange(5, 8)) == data.take(24),
        records_bytes(c.divisions) == data.subrange(24, a),
        grid_bytes(c.coarse) == data.subrange(a, b),
        grid_bytes(c.fine) == data.subrange(b, d),
        preindex_bytes(c.countries) == data.subrange(d, e),
    ensures
        c.file(data.subrange(5, 8)) == data.take(e),
{
    assert(data.take(24) =~= data.subrange(0, 24));
    assert(data.take(e) =~= data.subrange(0, e));
    lemma_glue(data, 0, 24, a);
    lemma_glue(data, 0, a, b);
    lemma_glue(data, 0, b, d);
    lemma_glue(data, 0, d, e);
}

/// The record of a division takes 29 bytes behind the header: its subtype, the
/// western, eastern, southern and northern edge of its box, and where its chunk
/// starts in the slab and how long it is.
pub proof fn law_records_are_read(data: Seq<u8>, i: int)
    requires
        index_of(data) is Ok,
        0 <= i < index_of(data)->Ok_0.subtypes.len(),
    ensures
        ({
            let x = index_of(data)->Ok_0;
            let p = 24 + 29 * i;
            &&& x.subtypes.len() == le32(data, 8)
            &&& x.bboxes.len() == le32(data, 8)
            &&& x.poly_offsets.len() == le32(data, 8)
            &&& x.poly_lengths.len() == le32(data, 8)
            &&& p + 29 <= data.len()
            &&& x.subtypes[i] == data[p]
            &&& x.bboxes[i].xmin.bits == le32(data, p + 1)
            &&& x.bboxes[i].xmax.bits == le32(data, p + 5)
            &&& x.bboxes[i].ymin.bits == le32(data, p + 9)
            &&& x.bboxes[i].ymax.bits == le32(data, p + 13)
            &&& x.poly_offsets[i] == le64(data, p + 17)
            &&& x.poly_lengths[i] == le32(data, p + 25)
        }),
{
    law_header_errors(data);
    let p = 24 + 29 * i;
    lemma_bytes32(data, 8);
    lemma_bytes32(data, p + 1);
    lemma_bytes32(data, p + 5);
    lemma_bytes32(data, p + 9);
    lemma_bytes32(data, p + 13);
    lemma_bytes64(data, p + 17);
    lemma_bytes32(data, p + 25);
}

/// The contents of a file make up its index: the records column by column, and
/// the entries of the three maps.
pub proof fn law_contents_make_up_the_index(c: Contents, i: int)
    ensures
        c.index().subtypes.len() == c.divisions.len(),
        0 <= i < c.divisions.len() ==> c.index().subtypes[i] == c.divisions[i].subtype
            && c.index().bboxes[i] == c.divisions[i].bbox && c.index().poly_offsets[i]
            == c.divisions[i].offset && c.index().poly_lengths[i] == c.divisions[i].length,
        c.index().grid_coarse == entries_map(c.coarse),
        c.index().grid_fine == entries_map(c.fine),
        c.index().country_preindex == entries_map(c.countries),
{
}

/// A cell is read from two signed numbers, the column first.
pub proof fn law_cell_is_read(data: Seq<u8>, p: int)
    requires
        0 <= p,
        p + 4 <= data.len(),
    ensures
        cell_at(data, p).0 == le16(data, p) || cell_at(data, p).0 == le16(data, p) - 65536,
        cell_at(data, p).1 == le16(data, p + 2) || cell_at(data, p).1 == le16(data, p + 2) - 65536,
{
    lemma_bytes16(data, p);
    lemma_bytes16(data, p + 2);
}

/// The number that decimal digits stand for.
pub open spec fn digits_value(digits: Seq<char>) -> int
    decreases digits.len(),
{
    if digits.len() == 0 {
        0
    } else {
        10 * digits_value(digits.drop_last()) + (digits.last() as int - '0' as int)
    }
}

/// Numbers are written in decimal digits that stand for them, with no zero in
/// front.
pub proof fn law_decimal(n: nat)
    ensures
        decimal(n).len() > 0,
        digits_value(decimal(n)) == n,
        forall|i: int| 0 <= i < decimal(n).len() ==> '0' <= #[trigger] decimal(n)[i] <= '9',
        n > 0 ==> decimal(n)[0] != '0',
    decreases n,
{
    let digit = (('0' as u32 + n % 10) as u32) as char;
    if n < 10 {
        assert(seq![digit].drop_last() =~= Seq::empty());
        assert(digits_value(Seq::empty()) == 0);
        assert(digits_value(seq![digit]) == n);
    } else {
        law_decimal(n / 10);
        let all = decimal(n);
        let before = decimal(n / 10);
        assert(all.drop_last() =~= before);
        assert forall|i: int| 0 <= i < all.len() implies '0' <= #[trigger] all[i] <= '9' by {
            if i < before.len() {
                assert(all[i] == before[i]);
            }
        }
        assert(all[0] == before[0]);
    }
}

/// The messages of the errors.
pub proof fn law_error_messages(a: u8, b: u8, c: u8, d: u8)
    ensures
        XsciError::TooShort.text() == "XSCI: file too short"@,
        XsciError::BadMagic(a, b, c, d).text() == "XSCI: bad magic ["@ + decimal(a as nat) + ", "@
            + decimal(b as nat) + ", "@ + decimal(c as nat) + ", "@ + decimal(d as nat) + "]"@,
        XsciError::UnsupportedVersion(a).text() == "XSCI: unsupported version "@ + decimal(
            a as nat,
        ),
        XsciError::TruncatedDivisions.text() == "XSCI: truncated division section"@,
        XsciError::TruncatedCellHeader.text() == "XSCI: truncated grid cell header"@,
        XsciError::TruncatedCellIndices.text() == "XSCI: truncated grid indices"@,
        XsciError::TruncatedPreindex.text() == "XSCI: truncated preindex"@,
{
}

} // verus!
