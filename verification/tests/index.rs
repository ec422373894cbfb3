use std::io::Write;

use xsgeo::cells::CellMap;
use xsgeo::finder::{XsFinder, SUBTYPE_COUNTRY, SUBTYPE_COUNTY, SUBTYPE_REGION};
use xsgeo::ieee::Double;
use xsgeo::load::{finder_from_index, load_finder};
use xsgeo::xsci::{parse, parse_grid, parse_preindex, XsciError};

struct Division {
    subtype: u8,
    bbox: [f32; 4],
    offset: u64,
    length: u32,
}

type Grid = Vec<([i16; 2], Vec<u32>)>;

fn grid_bytes(out: &mut Vec<u8>, grid: &Grid) {
    for (cell, indices) in grid {
        out.extend_from_slice(&cell[0].to_le_bytes());
        out.extend_from_slice(&cell[1].to_le_bytes());
        out.extend_from_slice(&(indices.len() as u16).to_le_bytes());
        for i in indices {
            out.extend_from_slice(&i.to_le_bytes());
        }
    }
}

fn file(
    divisions: &[Division],
    coarse: &Grid,
    fine: &Grid,
    countries: &[([i16; 2], u32)],
) -> Vec<u8> {
    let mut out = b"XSCI\x01\xaa\xbb\xcc".to_vec();
    for n in [divisions.len(), coarse.len(), fine.len(), countries.len()] {
        out.extend_from_slice(&(n as u32).to_le_bytes());
    }
    for d in divisions {
        out.push(d.subtype);
        for x in d.bbox {
            out.extend_from_slice(&x.to_le_bytes());
        }
        out.extend_from_slice(&d.offset.to_le_bytes());
        out.extend_from_slice(&d.length.to_le_bytes());
    }
    grid_bytes(&mut out, coarse);
    grid_bytes(&mut out, fine);
    for (cell, idx) in countries {
        out.extend_from_slice(&cell[0].to_le_bytes());
        out.extend_from_slice(&cell[1].to_le_bytes());
        out.extend_from_slice(&idx.to_le_bytes());
    }
    out
}

fn sample() -> Vec<u8> {
    file(
        &[
            Division {
                subtype: SUBTYPE_COUNTRY,
                bbox: [73.5, 134.75, 18.25, 53.5],
                offset: 0x1_0000_0002,
                length: 77,
            },
            Division {
                subtype: SUBTYPE_REGION,
                bbox: [115.5, 117.5, 39.5, 41.0],
                offset: 5,
                length: u32::MAX,
            },
            Division {
                subtype: SUBTYPE_COUNTY,
                bbox: [-0.5, 0.5, -0.5, 0.5],
                offset: 6,
                length: 0,
            },
        ],
        &vec![([116, 39], vec![0, 1]), ([-1, -1], vec![2]), ([7, 7], vec![])],
        &vec![([465, 159], vec![1, 2])],
        &[([116, 39], 0)],
    )
}

fn at(x: f64) -> Double {
    Double { bits: x.to_bits() }
}

#[test]
fn index_is_read_back() {
    let index = parse(&sample()).ok().unwrap();
    assert_eq!(index.subtypes, vec![SUBTYPE_COUNTRY, SUBTYPE_REGION, SUBTYPE_COUNTY]);
    assert_eq!(index.poly_offsets, vec![0x1_0000_0002, 5, 6]);
    assert_eq!(index.poly_lengths, vec![77, u32::MAX, 0]);
    assert_eq!(index.bboxes[0].xmin.bits, 73.5f32.to_bits());
    assert_eq!(index.bboxes[0].xmax.bits, 134.75f32.to_bits());
    assert_eq!(index.bboxes[0].ymin.bits, 18.25f32.to_bits());
    assert_eq!(index.bboxes[0].ymax.bits, 53.5f32.to_bits());
    assert_eq!(index.grid_coarse.get([116, 39]), Some(&vec![0, 1]));
    assert_eq!(index.grid_coarse.get([-1, -1]), Some(&vec![2]));
    assert_eq!(index.grid_coarse.get([7, 7]), Some(&vec![]));
    assert_eq!(index.grid_coarse.get([39, 116]), None);
    assert_eq!(index.grid_fine.get([465, 159]), Some(&vec![1, 2]));
    assert_eq!(index.grid_fine.get([116, 39]), None);
    assert_eq!(index.country_preindex.get([116, 39]), Some(&0));
    assert_eq!(index.country_preindex.get([-1, -1]), None);
}

#[test]
fn bytes_behind_an_index_do_not_matter() {
    let mut data = sample();
    data.extend_from_slice(b"more");
    let index = parse(&data).ok().unwrap();
    assert_eq!(index.subtypes.len(), 3);
    assert_eq!(index.country_preindex.get([116, 39]), Some(&0));
}

#[test]
fn every_cut_is_refused() {
    let data = sample();
    for n in 0..data.len() {
        assert!(parse(&data[..n]).is_err(), "{n}");
    }
    assert!(parse(&data).is_ok());
}

#[test]
fn last_entry_for_a_cell_counts() {
    let data = file(
        &[],
        &vec![([1, 2], vec![3]), ([4, 5], vec![6]), ([1, 2], vec![7, 8])],
        &vec![],
        &[([1, 2], 9), ([1, 2], 10)],
    );
    let index = parse(&data).ok().unwrap();
    assert_eq!(index.grid_coarse.get([1, 2]), Some(&vec![7, 8]));
    assert_eq!(index.grid_coarse.get([4, 5]), Some(&vec![6]));
    assert_eq!(index.country_preindex.get([1, 2]), Some(&10));
}

#[test]
fn short_file_is_refused() {
    assert_eq!(parse(&[]).err().unwrap(), "XSCI: file too short");
    assert_eq!(parse(&sample()[..23]).err().unwrap(), "XSCI: file too short");
}

#[test]
fn other_magic_is_refused() {
    let mut data = sample();
    data[0] = 0;
    data[3] = 255;
    assert_eq!(parse(&data).err().unwrap(), "XSCI: bad magic [0, 83, 67, 255]");
    assert_eq!(XsciError::BadMagic(9, 10, 99, 100).message(), "XSCI: bad magic [9, 10, 99, 100]");
}

#[test]
fn other_version_is_refused() {
    let mut data = sample();
    data[4] = 12;
    assert_eq!(parse(&data).err().unwrap(), "XSCI: unsupported version 12");
}

#[test]
fn missing_division_is_refused() {
    let mut data = file(&[], &vec![], &vec![], &[]);
    assert!(parse(&data).is_ok());
    data[8] = 1;
    assert_eq!(parse(&data).err().unwrap(), "XSCI: truncated division section");
    data[11] = 0xff;
    assert_eq!(parse(&data).err().unwrap(), "XSCI: truncated division section");
}

#[test]
fn missing_cells_are_refused() {
    let data = file(&[], &vec![([1, 2], vec![3])], &vec![], &[]);
    assert_eq!(parse(&data[..data.len() - 1]).err().unwrap(), "XSCI: truncated grid indices");
    assert_eq!(parse(&data[..29]).err().unwrap(), "XSCI: truncated grid cell header");
    let data = file(&[], &vec![], &vec![([1, 2], vec![3])], &[]);
    assert_eq!(parse(&data[..data.len() - 1]).err().unwrap(), "XSCI: truncated grid indices");
    assert_eq!(parse(&data[..29]).err().unwrap(), "XSCI: truncated grid cell header");
}

#[test]
fn missing_preindex_is_refused() {
    let data = file(&[], &vec![], &vec![], &[([1, 2], 3)]);
    assert_eq!(parse(&data[..31]).err().unwrap(), "XSCI: truncated preindex");
}

#[test]
fn sections_report_their_errors() {
    let mut section = Vec::new();
    grid_bytes(&mut section, &vec![([1, 2], vec![3, 4])]);
    let (map, consumed) = parse_grid(&section, 1).ok().unwrap();
    assert_eq!(consumed, 14);
    assert_eq!(map.get([1, 2]), Some(&vec![3, 4]));
    assert_eq!(parse_grid(&section, 2).err(), Some(XsciError::TruncatedCellHeader));
    assert_eq!(parse_grid(&section[..13], 1).err(), Some(XsciError::TruncatedCellIndices));
    assert_eq!(parse_grid(&[], 0).ok().unwrap().1, 0);
    assert_eq!(parse_preindex(&[0; 15], 2).err(), Some(XsciError::TruncatedPreindex));
    assert!(parse_preindex(&[0; 16], 2).is_ok());
    assert_eq!(parse_preindex(&[], usize::MAX).err(), Some(XsciError::TruncatedPreindex));
}

#[test]
fn cells_at_the_limits_are_told_apart() {
    let mut map: CellMap<u32> = CellMap::new();
    map.insert([i16::MIN, i16::MAX], 1);
    map.insert([i16::MAX, i16::MIN], 2);
    map.insert([0, -1], 3);
    map.insert([-1, 0], 4);
    map.insert([-1, 0], 5);
    assert_eq!(map.get([i16::MIN, i16::MAX]), Some(&1));
    assert_eq!(map.get([i16::MAX, i16::MIN]), Some(&2));
    assert_eq!(map.get([0, -1]), Some(&3));
    assert_eq!(map.get([-1, 0]), Some(&5));
    assert_eq!(map.get([0, 0]), None);
}

#[test]
fn compressed_index_is_loaded() {
    let mut encoder = flate2::write::GzEncoder::new(Vec::new(), flate2::Compression::default());
    encoder.write_all(&sample()).unwrap();
    let gz = encoder.finish().unwrap();
    let finder = load_finder(&gz).ok().unwrap();
    assert_eq!(finder.subtype(1), SUBTYPE_REGION);
    assert_eq!(finder.slab_range(0), (0x1_0000_0002, 77));
    assert_eq!(finder.slab_range(1), (5, u32::MAX as u64));
}

#[test]
fn compressed_index_that_is_none_is_refused() {
    let mut encoder = flate2::write::GzEncoder::new(Vec::new(), flate2::Compression::fast());
    encoder.write_all(b"XSCX not an index, but long enough").unwrap();
    let gz = encoder.finish().unwrap();
    assert_eq!(load_finder(&gz).err().unwrap(), "XSCI: bad magic [88, 83, 67, 88]");
    assert_eq!(load_finder(b"not gzip at all").err().unwrap(), "invalid gzip header");
    assert!(load_finder(&gz[..gz.len() - 12]).is_err());
}

#[test]
fn finder_lists_candidates_by_cell() {
    let finder = finder_from_index(&sample()).ok().unwrap();
    assert_eq!(finder.coarse_candidates(at(116.4), at(39.9)), &[0, 1]);
    assert_eq!(finder.coarse_candidates(at(-0.1), at(-0.9)), &[2]);
    assert!(finder.coarse_candidates(at(50.0), at(50.0)).is_empty());
    assert_eq!(finder.fine_candidates(at(116.4), at(39.9)), &[1, 2]);
    assert!(finder.fine_candidates(at(116.6), at(39.9)).is_empty());
    assert_eq!(finder.country_for_cell(at(116.9), at(39.0)), Some(0));
    assert_eq!(finder.country_for_cell(at(117.0), at(39.0)), None);
    assert!(finder.knows(2));
    assert!(!finder.knows(3));
}

#[test]
fn cells_of_points() {
    assert_eq!(XsFinder::coarse_key(at(116.4), at(39.9)), [116, 39]);
    assert_eq!(XsFinder::fine_key(at(116.4), at(39.9)), [465, 159]);
    assert_eq!(XsFinder::coarse_key(at(-0.25), at(-90.0)), [-1, -90]);
    assert_eq!(XsFinder::fine_key(at(-0.25), at(-90.0)), [-1, -360]);
    assert_eq!(XsFinder::coarse_key(at(1e9), at(f64::NAN)), [i16::MAX, 0]);
}

#[test]
fn fine_cells_lie_in_coarse_cells() {
    for x in [-180.0, -179.9, -0.26, -0.25, 0.0, 0.74, 0.75, 116.4, 179.99, -8_192.0, 8_191.9] {
        for y in [-90.0, -0.1, 0.3, 89.9] {
            let coarse = XsFinder::coarse_key(at(x), at(y));
            let fine = XsFinder::fine_key(at(x), at(y));
            assert_eq!(coarse[0], fine[0].div_euclid(4), "{x}");
            assert_eq!(coarse[1], fine[1].div_euclid(4), "{y}");
        }
    }
    // Beyond what a fine cell can express the two part company.
    assert_eq!(XsFinder::coarse_key(at(9_000.0), at(0.0)), [9_000, 0]);
    assert_eq!(XsFinder::fine_key(at(9_000.0), at(0.0)), [i16::MAX, 0]);
}

#[test]
fn inner_points() {
    assert!(XsFinder::can_short_circuit(at(0.0), at(0.0)));
    assert!(XsFinder::can_short_circuit(at(178.999), at(-88.999)));
    assert!(!XsFinder::can_short_circuit(at(179.0), at(0.0)));
    assert!(!XsFinder::can_short_circuit(at(-179.0), at(0.0)));
    assert!(!XsFinder::can_short_circuit(at(0.0), at(89.0)));
    assert!(!XsFinder::can_short_circuit(at(0.0), at(-89.0)));
    assert!(!XsFinder::can_short_circuit(at(f64::NAN), at(0.0)));
    assert!(!XsFinder::can_short_circuit(at(0.0), at(f64::NAN)));
}

#[test]
fn bounding_boxes_select() {
    let finder = finder_from_index(&sample()).ok().unwrap();
    let keep = |_: u32| false;
    assert_eq!(finder.bbox_filtered(&[1, 0, 2], at(116.4), at(39.9), keep), vec![1, 0]);
    assert_eq!(finder.bbox_filtered(&[0, 1, 0], at(116.4), at(39.9), keep), vec![0, 1, 0]);
    // The border belongs to the box.
    assert_eq!(finder.bbox_filtered(&[1], at(115.5), at(41.0), keep), vec![1]);
    assert!(finder.bbox_filtered(&[1], at(115.499_999), at(41.0), keep).is_empty());
    assert!(finder.bbox_filtered(&[1], at(115.5), at(41.000_001), keep).is_empty());
    assert!(finder.bbox_filtered(&[0, 1, 2], at(f64::NAN), at(0.0), keep).is_empty());
}

#[test]
fn skipped_divisions_are_left_out() {
    let finder = finder_from_index(&sample()).ok().unwrap();
    let skip = |idx: u32| finder.subtype(idx) == SUBTYPE_COUNTRY;
    assert_eq!(finder.bbox_filtered(&[0, 1], at(116.4), at(39.9), skip), vec![1]);
    // A skipped division is not looked up.
    assert_eq!(finder.bbox_filtered(&[99, 1], at(116.4), at(39.9), |i| i == 99), vec![1]);
}
