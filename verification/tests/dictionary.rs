use rapidtag::dictionary::{
    count_ones, get_predefined_dictionary, predefined_dictionary_names, slice_rows, CellBitMasks, Dictionary,
    PredefinedTables,
};

const TABLE_BYTES: usize = 152_324;

fn cells_of(bytes: &[u8], n: usize) -> Vec<bool> {
    (0..n).map(|i| bytes[i / 8] & (0x80 >> (i % 8)) != 0).collect()
}

#[test]
fn popcount() {
    assert_eq!(count_ones(0), 0);
    assert_eq!(count_ones(0xff), 8);
    assert_eq!(count_ones(0xa5), 4);
}

#[test]
fn tables_need_exact_length() {
    assert!(PredefinedTables::from_bytes(&vec![0u8; TABLE_BYTES - 1]).is_none());
    assert!(PredefinedTables::from_bytes(&vec![0u8; TABLE_BYTES + 1]).is_none());
    assert!(PredefinedTables::from_bytes(&vec![0u8; TABLE_BYTES]).is_some());
}

#[test]
fn predefined_names_case_and_prefix() {
    let mut data = vec![0u8; TABLE_BYTES];
    // First 4x4 marker: first rotation bytes.
    data[0] = 0xb5;
    data[1] = 0x0a;
    let tables = PredefinedTables::from_bytes(&data).unwrap();
    let d = get_predefined_dictionary("DICT_4X4_50", &tables).unwrap();
    assert_eq!(d.marker_size, 4);
    assert_eq!(d.max_correction_bits, 1);
    assert_eq!(d.bytes_list.len(), 50);
    assert_eq!(d.bytes_list[0][..2], [0xb5, 0x0a]);
    assert_eq!(d.bytes_list[0].len(), 8);
    for name in ["dict_4x4_50", "4X4_50", "Dict_4x4_50"] {
        let e = get_predefined_dictionary(name, &tables).unwrap();
        assert_eq!(e.bytes_list, d.bytes_list);
        assert_eq!(e.max_correction_bits, d.max_correction_bits);
    }
    assert!(get_predefined_dictionary("DICT_DICT_4X4_50", &tables).is_none());
    assert!(get_predefined_dictionary("DICT_4X4_51", &tables).is_none());
    let april = get_predefined_dictionary("DICT_APRILTAG_36h11", &tables).unwrap();
    assert_eq!((april.marker_size, april.max_correction_bits, april.bytes_list.len()), (6, 5, 587));
    let aruco = get_predefined_dictionary("aruco_original", &tables).unwrap();
    assert_eq!((aruco.marker_size, aruco.max_correction_bits, aruco.bytes_list.len()), (5, 1, 1024));
}

#[test]
fn rows_and_bytes_per_rotation() {
    let rows = vec![vec![1u8], vec![2u8], vec![3u8]];
    assert_eq!(slice_rows(&rows, 2), &rows[..2]);
    let d = Dictionary::from_table(&rows, 6, 3);
    assert_eq!(d.s(), 5);
    assert_eq!(d.bytes_list, rows);
    let d4 = Dictionary::from_table(&rows, 4, 1);
    assert_eq!(d4.s(), 2);
}

#[test]
fn hamming_distance_over_rotations() {
    let marker = [0xa5u8, 0x0f];
    let bits = cells_of(&marker, 16);
    let not1: Vec<bool> = bits.iter().map(|b| !b).collect();
    let masks = CellBitMasks::from_cells(&bits, &not1, 4);
    assert_eq!(masks.total_cells, 16);
    let row = [0xffu8, 0xff, 0xa5, 0x0f, 0x00, 0x00, 0x12, 0x34];
    assert_eq!(masks.hamming_to_id(&row, 2), (0, 1));
    let far = [0xffu8, 0xff, 0x5a, 0xf0, 0xff, 0xff, 0x5a, 0xf0];
    assert_eq!(masks.hamming_to_id(&far, 2), (8, 0));
}

#[test]
fn identification_picks_first_close_marker() {
    let marker = [0xa5u8, 0x0f];
    let bits = cells_of(&marker, 16);
    let not1: Vec<bool> = bits.iter().map(|b| !b).collect();
    let masks = CellBitMasks::from_cells(&bits, &not1, 4);
    let other = vec![0xffu8, 0xff, 0xff, 0xff, 0xff, 0xff, 0xff, 0xff];
    let near = vec![0x00u8, 0x00, 0x00, 0x00, 0xa5, 0x0e, 0x00, 0x00];
    let exact = vec![0xa5u8, 0x0f, 0, 0, 0, 0, 0, 0];
    let dict = Dictionary::from_table(&[other.clone(), near, exact], 4, 1);
    assert_eq!(dict.identify_masks(&masks, 1), Some((1, 2)));
    assert_eq!(dict.identify_masks(&masks, 0), Some((2, 0)));
    let none = Dictionary::from_table(&[other], 4, 1);
    assert_eq!(none.identify_masks(&masks, 3), None);
}

#[test]
fn unclassified_cells_never_count() {
    // Cells that are neither clearly black nor white match anything.
    let unsure = vec![false; 16];
    let masks = CellBitMasks::from_cells(&unsure, &unsure, 4);
    assert_eq!(masks.hamming_to_id(&[0x12, 0x34, 0, 0, 0, 0, 0, 0], 2), (0, 0));
}

#[test]
fn every_listed_dictionary_is_accepted() {
    let tables = PredefinedTables::from_bytes(&vec![0u8; TABLE_BYTES]).unwrap();
    let names = predefined_dictionary_names();
    assert_eq!(names.len(), 22);
    assert_eq!(names[0], "DICT_4X4_50");
    assert_eq!(names[21], "DICT_APRILTAG_36h11");
    for name in names {
        assert!(get_predefined_dictionary(name, &tables).is_some(), "{name}");
    }
}

#[test]
fn dictionary_names_are_the_predefined_list() {
    let names = predefined_dictionary_names();
    assert_eq!(names.len(), 22);
    assert_eq!(names[0], "DICT_4X4_50");
    assert_eq!(names[17], "DICT_ARUCO_MIP_36h12");
    assert_eq!(names[21], "DICT_APRILTAG_36h11");
    for i in 0..names.len() {
        for j in i + 1..names.len() {
            assert_ne!(names[i].to_ascii_uppercase(), names[j].to_ascii_uppercase());
        }
    }
}

#[test]
fn smaller_dictionaries_are_prefixes_of_their_table() {
    let data: Vec<u8> = (0..TABLE_BYTES).map(|i| (i * 7 % 251) as u8).collect();
    let tables = PredefinedTables::from_bytes(&data).unwrap();
    for n in 4..=7 {
        let base = get_predefined_dictionary(&format!("DICT_{n}X{n}_1000"), &tables).unwrap();
        for m in [50usize, 100, 250] {
            let small = get_predefined_dictionary(&format!("DICT_{n}X{n}_{m}"), &tables).unwrap();
            assert_eq!(small.bytes_list[..], base.bytes_list[..m]);
            assert_eq!(small.marker_size, base.marker_size);
            assert!(small.max_correction_bits >= base.max_correction_bits);
        }
    }
}
