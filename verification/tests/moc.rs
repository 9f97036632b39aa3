use boom_moc_index::fits::{readable_form, FitsForm};
use boom_moc_index::hpx_moc::{
    degraded_cells_at_depth, is_in_moc, moc_from_fits_bytes, moc_from_fits_content,
    moc_to_fits_bytes, next_skymap_format, FitsContent, HpxMoc, MocError, SkymapFormat,
};
use std::ops::Range;

/// The pixels of a cell.
fn pixels(depth: u8, cell: u64) -> Range<u64> {
    let width = 1u64 << (2 * (29 - depth));
    cell * width..(cell + 1) * width
}

fn moc_of(depth_max: u8, ranges: Vec<Range<u64>>) -> HpxMoc {
    HpxMoc { depth_max, ranges }
}

#[test]
fn degraded_cells_are_those_touched() {
    // Cells 17 and 40 of depth 3 lie in cells 4 and 10 of depth 2, 1 and 2 of depth 1.
    let moc = moc_of(3, vec![pixels(3, 17), pixels(3, 40)]);
    assert!(moc.is_consistent());
    assert_eq!(degraded_cells_at_depth(&moc, 3), vec![17, 40]);
    assert_eq!(degraded_cells_at_depth(&moc, 2), vec![4, 10]);
    assert_eq!(degraded_cells_at_depth(&moc, 1), vec![1, 2]);
    assert_eq!(degraded_cells_at_depth(&moc, 0), vec![0]);
}

#[test]
fn degraded_cells_merge_neighbours() {
    let moc = moc_of(3, vec![pixels(3, 16), pixels(3, 18), pixels(3, 21)]);
    assert_eq!(degraded_cells_at_depth(&moc, 2), vec![4, 5]);
}

#[test]
fn degraded_cells_below_the_native_depth() {
    let moc = moc_of(2, vec![pixels(2, 5)]);
    assert_eq!(degraded_cells_at_depth(&moc, 3), vec![20, 21, 22, 23]);
    assert_eq!(degraded_cells_at_depth(&moc, 4).len(), 16);
}

#[test]
fn degraded_cells_grow_with_the_depth() {
    let moc = moc_of(8, vec![pixels(8, 1000).start..pixels(8, 3333).end, pixels(8, 700_000)]);
    let cells_d4 = degraded_cells_at_depth(&moc, 4);
    let cells_d6 = degraded_cells_at_depth(&moc, 6);
    assert!(cells_d6.len() >= cells_d4.len());
    assert!(!cells_d4.is_empty());
}

#[test]
fn degraded_cells_of_the_full_sky_and_of_nothing() {
    let all = moc_of(0, vec![0..12 << 58]);
    assert!(all.is_consistent());
    assert_eq!(degraded_cells_at_depth(&all, 0), (0..12).collect::<Vec<u64>>());
    assert_eq!(degraded_cells_at_depth(&all, 6).len(), 49_152);
    let none = moc_of(5, vec![]);
    assert!(none.is_consistent());
    assert!(degraded_cells_at_depth(&none, 6).is_empty());
}

#[test]
fn consistency() {
    assert!(moc_of(29, vec![0..1, 2..3]).is_consistent());
    assert!(!moc_of(30, vec![]).is_consistent());
    assert!(!moc_of(29, vec![0..1, 1..3]).is_consistent());
    assert!(!moc_of(29, vec![4..5, 1..3]).is_consistent());
    assert!(!moc_of(29, vec![4..4]).is_consistent());
    assert!(!moc_of(29, vec![0..(12 << 58) + 1]).is_consistent());
}

#[test]
fn point_in_moc() {
    let moc = moc_of(6, vec![pixels(6, 100).start..pixels(6, 102).end, pixels(6, 900)]);
    for cell in [100, 101, 102, 900] {
        assert!(is_in_moc(&moc, cell));
    }
    for cell in [0, 99, 103, 899, 901, 49_151] {
        assert!(!is_in_moc(&moc, cell));
    }
}

#[test]
fn contained_positions_are_indexed() {
    let moc = moc_of(7, vec![pixels(7, 1234), pixels(7, 5000).start..pixels(7, 5020).end]);
    for depth in 0..12u8 {
        let cells = degraded_cells_at_depth(&moc, depth);
        for cell in [1234u64, 5000, 5013, 5020] {
            assert!(is_in_moc(&moc, cell));
            let pixel = pixels(7, cell).start;
            assert!(cells.contains(&(pixel >> (2 * (29 - depth)))));
        }
    }
}

#[test]
fn fits_round_trip() {
    let mocs = [
        moc_of(6, vec![pixels(6, 100), pixels(6, 900)]),
        moc_of(0, vec![0..12 << 58]),
        moc_of(29, vec![]),
        moc_of(29, (0..500).map(|i| 3 * i..3 * i + 1).collect()),
        moc_of(12, vec![9..10, 1..2]),
    ];
    for moc in mocs {
        let bytes = moc_to_fits_bytes(&moc).unwrap();
        assert_eq!(bytes.len() % 2880, 0);
        assert!(bytes.starts_with(b"SIMPLE  ="));
        let back = moc_from_fits_bytes(&bytes).unwrap();
        assert_eq!(back.depth_max, moc.depth_max);
        assert_eq!(back.ranges, moc.ranges);
    }
}

#[test]
fn fits_errors() {
    assert!(matches!(moc_from_fits_bytes(b""), Err(MocError::Parse(_))));
    assert!(matches!(moc_from_fits_bytes(&[b'x'; 2880]), Err(MocError::Parse(_))));
    assert!(matches!(moc_from_fits_bytes(&[b' '; 2880]), Err(MocError::Parse(_))));
    let mut bytes = moc_to_fits_bytes(&moc_of(6, vec![pixels(6, 100)])).unwrap();
    bytes.truncate(2880);
    assert!(matches!(moc_from_fits_bytes(&bytes), Err(MocError::Parse(_))));
}

/// The file with something else in place of a card's value.
fn with_value(bytes: &[u8], keyword: &str, value: &str) -> Vec<u8> {
    let mut bytes = bytes.to_vec();
    let at = bytes.windows(8).rposition(|w| w == format!("{:<8}", keyword).as_bytes()).unwrap();
    bytes[at + 10..at + 80].copy_from_slice(format!("{:<70}", value).as_bytes());
    bytes
}

#[test]
fn fits_headers_that_the_reader_panics_on() {
    let plain = moc_to_fits_bytes(&moc_of(6, vec![pixels(6, 100)])).unwrap();
    assert!(matches!(readable_form(&plain), FitsForm::Plain));
    for keyword in ["SIMPLE", "XTENSION", "BITPIX", "NAXIS", "PCOUNT", "GCOUNT", "TFIELDS"] {
        let bytes = with_value(&plain, keyword, "");
        assert!(matches!(readable_form(&bytes), FitsForm::Unreadable));
        assert!(matches!(moc_from_fits_bytes(&bytes), Err(MocError::Malformed)));
    }
    // Without the indicator of a value, or after a card that is wrong, it comes to an error first.
    let mut bytes = with_value(&plain, "GCOUNT", "");
    let at = bytes.windows(8).position(|w| w == b"GCOUNT  ").unwrap();
    bytes[at + 8] = b' ';
    assert!(matches!(moc_from_fits_bytes(&bytes), Err(MocError::Parse(_))));
    let bytes = with_value(&with_value(&plain, "GCOUNT", ""), "PCOUNT", "7");
    assert!(matches!(moc_from_fits_bytes(&bytes), Err(MocError::Parse(_))));
    let bytes = with_value(&with_value(&plain, "GCOUNT", ""), "NAXIS2", "many");
    assert!(matches!(moc_from_fits_bytes(&bytes), Err(MocError::Parse(_))));
}

#[test]
fn fits_files_that_declare_too_many_rows() {
    let plain = moc_to_fits_bytes(&moc_of(6, vec![pixels(6, 100)])).unwrap();
    let huge = (1u64 << 60).to_string();
    // Intervals: there is no room for so many.
    let bytes = with_value(&plain, "NAXIS2", &huge);
    assert!(matches!(readable_form(&bytes), FitsForm::Uncounted { nuniq: false, .. }));
    assert!(matches!(moc_from_fits_bytes(&bytes), Err(MocError::Malformed)));
    // None of them is there.
    let none = moc_from_fits_bytes(&bytes[..2 * 2880]).unwrap();
    assert_eq!((none.depth_max, none.ranges), (6, vec![]));
    // Not a number of 64 bits.
    let bytes = with_value(&plain, "NAXIS2", "99999999999999999999");
    assert!(matches!(moc_from_fits_bytes(&bytes), Err(MocError::Parse(_))));
    // Another error comes first.
    let bytes = with_value(&with_value(&plain, "NAXIS2", &huge), "ORDERING", "'RING'");
    assert!(matches!(moc_from_fits_bytes(&bytes), Err(MocError::Parse(_))));
    // Cells.
    let bytes = with_value(&nuniq_file(6, &[4 * 4096 + 100]), "NAXIS2", &huge);
    assert!(matches!(readable_form(&bytes), FitsForm::Uncounted { nuniq: true, .. }));
    assert!(matches!(moc_from_fits_bytes(&bytes), Err(MocError::Malformed)));
}

#[test]
fn fits_files_of_other_kinds() {
    let time = |rows: &str| {
        let plain = moc_to_fits_bytes(&moc_of(6, vec![pixels(6, 100)])).unwrap();
        let mut bytes = with_value(&plain, "MOCDIM", "'TIME'");
        let at = bytes.windows(8).position(|w| w == b"COORDSYS").unwrap();
        bytes[at..at + 80].copy_from_slice(format!("{:<80}", "TIMESYS = 'TCB'").as_bytes());
        let at = bytes.windows(8).position(|w| w == b"MOCORD_S").unwrap();
        bytes[at..at + 8].copy_from_slice(b"MOCORD_T");
        with_value(&bytes, "NAXIS2", rows)
    };
    for rows in ["2", "0", "1152921504606846976"] {
        let res = moc_from_fits_bytes(&time(rows));
        assert!(matches!(res, Err(MocError::UnexpectedType)));
    }
}

#[test]
fn fits_content() {
    let content = FitsContent::Moc { depth: 200, ranges: vec![1..2] };
    let moc = moc_from_fits_content(content).unwrap();
    assert_eq!((moc.depth_max, moc.ranges), (29, vec![1..2]));
    let content = FitsContent::Moc { depth: 3, ranges: vec![] };
    assert_eq!(moc_from_fits_content(content).unwrap().depth_max, 3);
    let other = moc_from_fits_content(FitsContent::Other);
    assert!(matches!(other, Err(MocError::UnexpectedType)));
}

#[test]
fn skymap_formats_in_order() {
    assert_eq!(next_skymap_format(None), Some(SkymapFormat::MultiOrder));
    assert_eq!(next_skymap_format(Some(SkymapFormat::MultiOrder)), Some(SkymapFormat::Implicit));
    assert_eq!(next_skymap_format(Some(SkymapFormat::Implicit)), None);
}

#[test]
fn mocs_contain_their_cells_of_deeper_depths() {
    let moc = moc_of(5, vec![pixels(5, 77), pixels(5, 500).start..pixels(5, 503).end]);
    let cells = degraded_cells_at_depth(&moc, 7);
    assert_eq!(cells.len(), 5 * 16);
    for cell in cells {
        assert!(is_in_moc(&moc, cell >> 4));
    }
}

#[test]
fn unordered_intervals_are_put_in_order() {
    let moc = moc_of(9, vec![20..30, 5..6, 7..7, 1..5, 29..40, 50..60, (12 << 58) - 1..u64::MAX]);
    assert!(!moc.is_consistent());
    let ordered = moc.ordered();
    assert!(ordered.is_consistent());
    assert_eq!(ordered.depth_max, 9);
    assert_eq!(ordered.ranges, vec![1..6, 20..40, 50..60, (12 << 58) - 1..12 << 58]);
    let moc = moc_of(3, vec![pixels(3, 40), pixels(3, 17), pixels(3, 17)]).ordered();
    assert_eq!(degraded_cells_at_depth(&moc, 2), vec![4, 10]);
    let moc = moc_of(3, vec![1..2, 4..5, 7..8, 0..9]).ordered();
    assert_eq!(moc.ranges, vec![0..9]);
    assert!(moc_of(0, vec![]).ordered().ranges.is_empty());
}

/// A FITS file with these NUNIQ rows.
fn nuniq_file(depth: u8, rows: &[u64]) -> Vec<u8> {
    let card = |text: &str| format!("{:<80}", text);
    let mut file = [
        "SIMPLE  =                    T",
        "BITPIX  =                    8",
        "NAXIS   =                    0",
        "EXTEND  =                    T",
        "END",
    ]
    .map(card)
    .concat();
    file = format!("{:<2880}", file);
    let header = [
        "XTENSION= 'BINTABLE'".to_string(),
        "BITPIX  =                    8".to_string(),
        "NAXIS   =                    2".to_string(),
        "NAXIS1  =                    8".to_string(),
        format!("NAXIS2  = {:>20}", rows.len()),
        "PCOUNT  =                    0".to_string(),
        "GCOUNT  =                    1".to_string(),
        "TFIELDS =                    1".to_string(),
        "TTYPE1  = 'UNIQ    '".to_string(),
        "TFORM1  = '1K      '".to_string(),
        "PIXTYPE = 'HEALPIX '".to_string(),
        "ORDERING= 'NUNIQ   '".to_string(),
        "COORDSYS= 'C       '".to_string(),
        format!("MOCORDER= {:>20}", depth),
        "END".to_string(),
    ]
    .map(|text| card(&text))
    .concat();
    file = format!("{}{:<2880}", file, header);
    let mut bytes = file.into_bytes();
    for row in rows {
        bytes.extend_from_slice(&row.to_be_bytes());
    }
    bytes.resize(3 * 2880, 0);
    bytes
}

#[test]
fn nuniq_rows_that_code_no_cell_are_skipped() {
    // Cell 100 of depth 6 has the number 4 * 4^6 + 100.
    let cell = 4 * 4096 + 100;
    let plain = nuniq_file(6, &[cell, cell + 1]);
    assert!(matches!(readable_form(&plain), FitsForm::Plain));
    let moc = moc_from_fits_bytes(&plain).unwrap();
    assert_eq!(moc.depth_max, 6);
    assert_eq!(moc.ranges, vec![pixels(6, 100).start..pixels(6, 101).end]);
    let odd = nuniq_file(6, &[1, cell, 0, 2, cell + 1, 3]);
    let mended = nuniq_file(6, &[0, cell, 0, 0, cell + 1, 0]);
    assert!(matches!(readable_form(&odd), FitsForm::Mended(form) if form == mended));
    let moc = moc_from_fits_bytes(&odd).unwrap();
    assert_eq!((moc.depth_max, moc.ranges), (6, vec![pixels(6, 100).start..pixels(6, 101).end]));
}
