use geosot::spatial::{compactness, GeoSotCell, GeoSotRegion};
use geosot::utils::{get_cell_size_in_degree, GridError};
use geosot::{
    code2dec, dec2code, decode_by_geomgrid, get_code, merge_by_bits, split_by_bits, to_string,
    un_magic_bits,
};

/// Scaled coordinate units (1/7372800 degree) of a decimal degree value.
fn scaled(deg: f64) -> i64 {
    let mag = (deg.abs() * 7372800.0).round() as i64;
    if deg < 0.0 {
        -mag
    } else {
        mag
    }
}

/// Decimal degrees of a scaled coordinate.
fn degrees(units: i64) -> f64 {
    units as f64 / 7372800.0
}

#[test]
fn test_dec2code_known_value() {
    assert_eq!(dec2code(scaled(76.233), 32), 639358566);
}

#[test]
fn test_code2dec_known_value() {
    let dec = code2dec(639358566);
    assert!((degrees(dec) - 76.23299994574653).abs() < 1e-12);
}

#[test]
fn test_axis_codec_round_trip_exact() {
    for &deg in &[0.0, 76.233, -76.233, 179.999999, -180.0, 0.0000001, 89.5] {
        let units = scaled(deg);
        assert_eq!(code2dec(dec2code(units, 32)), units);
    }
}

#[test]
fn test_un_magic_bits_known_value() {
    let m: u64 = 339638376531246140;
    let (lng, lat) = un_magic_bits(m);
    assert_eq!(lng, 639358566);
    assert_eq!(lat, 231900774);
}

#[test]
fn test_interleave_round_trip() {
    let samples: [u32; 6] = [0, 1, 0xFFFF_FFFF, 0xDEAD_BEEF, 639358566, 0x8000_0001];
    for &a in &samples {
        for &b in &samples {
            let m = split_by_bits(a) | (split_by_bits(b) << 1);
            assert_eq!(un_magic_bits(m), (a, b));
            assert_eq!(merge_by_bits(m), a);
        }
    }
}

#[test]
fn test_encode_decode_round_trip() {
    let points = [(116.397, 39.916), (-76.233, -27.688), (0.0, 0.0), (179.9, -89.9)];
    for &(lng, lat) in &points {
        let code = get_code(scaled(lng), scaled(lat), 32);
        let (dec_lng, dec_lat) = decode_by_geomgrid(code);
        assert_eq!(dec_lng, scaled(lng));
        assert_eq!(dec_lat, scaled(lat));
        assert!((degrees(dec_lng) - lng).abs() < 1e-6);
        assert!((degrees(dec_lat) - lat).abs() < 1e-6);
    }
}

#[test]
fn test_truncation_monotonicity() {
    let (lng, lat) = (scaled(116.397), scaled(39.916));
    for p1 in 1..32usize {
        for p2 in (p1 + 1)..=32usize {
            let coarse = get_code(lng, lat, p1);
            let fine = get_code(lng, lat, p2);
            let shift = 2 * (32 - p1) as u64;
            assert_eq!(coarse, (fine >> shift) << shift);
        }
    }
}

#[test]
fn test_to_string_format() {
    let code = get_code(scaled(116.397), scaled(39.916), 20);
    assert_eq!(code, 526548387063922688);
    assert_eq!(to_string(code, 20), "G001310322-230331-33200");

    let one_one = get_code(scaled(1.0), scaled(1.0), 9);
    assert_eq!(to_string(one_one, 9), "G000000003");
    let one_one_10 = get_code(scaled(1.0), scaled(1.0), 10);
    assert_eq!(to_string(one_one_10, 10), "G0000000030");
    let one_one_11 = get_code(scaled(1.0), scaled(1.0), 11);
    assert_eq!(to_string(one_one_11, 11), "G000000003-00");
}

#[test]
fn test_cell_size_values() {
    assert_eq!(get_cell_size_in_degree(0), Ok((512, 1)));
    assert_eq!(get_cell_size_in_degree(9), Ok((1, 1)));
    assert_eq!(get_cell_size_in_degree(10), Ok((32, 60)));
    assert_eq!(get_cell_size_in_degree(16), Ok((32, 3600)));
    assert_eq!(get_cell_size_in_degree(32), Ok((1, 3600 * 2048)));
    assert_eq!(get_cell_size_in_degree(33), Err(GridError::LevelOutOfRange));
    assert_eq!(get_cell_size_in_degree(-1), Err(GridError::LevelOutOfRange));

    let (num, den) = get_cell_size_in_degree(0).unwrap();
    assert_eq!(num as f64 / den as f64, 512.0);
    let (num, den) = get_cell_size_in_degree(10).unwrap();
    assert_eq!(num as f64 / den as f64, 32.0 / 60.0);
    let (num, den) = get_cell_size_in_degree(16).unwrap();
    assert_eq!(num as f64 / den as f64, 32.0 / 3600.0);
}

#[test]
fn test_set_algebra_scenario() {
    let a = GeoSotRegion::from_codes(vec![1, 2, 3, 4], 20);
    let b = GeoSotRegion::from_codes(vec![3, 4, 5, 6], 20);

    let inter = a.intersection(&b).unwrap();
    assert_eq!(inter.size(), 2);
    assert!(inter.contains(3) && inter.contains(4));

    assert_eq!(a.union(&b).unwrap().size(), 6);

    let diff = a.difference(&b).unwrap();
    assert_eq!(diff.size(), 2);
    assert!(diff.contains(1) && diff.contains(2));

    assert_eq!(a.symmetric_difference(&b).unwrap().size(), 4);
}

#[test]
fn test_cross_level_operations() {
    let a = GeoSotRegion::from_codes(vec![1, 2, 3], 20);
    let b = GeoSotRegion::from_codes(vec![1, 2, 3], 21);

    assert!(matches!(a.intersection(&b), Err(GridError::LevelMismatch)));
    assert!(matches!(a.union(&b), Err(GridError::LevelMismatch)));
    assert!(matches!(a.difference(&b), Err(GridError::LevelMismatch)));
    assert!(matches!(a.symmetric_difference(&b), Err(GridError::LevelMismatch)));
    assert!(matches!(a.complement(&b), Err(GridError::LevelMismatch)));

    assert!(a.is_disjoint(&b));
    assert!(!a.is_subset(&b));
    assert!(!a.is_superset(&b));
    assert!(!a.intersects(&b));
}

#[test]
fn test_cell_hierarchy() {
    let cell = GeoSotCell::new(0b1101, 4);
    let children = cell.children();
    assert_eq!(children.len(), 4);
    for (k, child) in children.iter().enumerate() {
        assert_eq!(child.level, 5);
        assert_eq!(child.code, (cell.code << 2) | k as u64);
        assert!(child.is_descendant_of(&cell));
        assert!(cell.is_ancestor_of(child));
    }

    let deepest = GeoSotCell::new(1, 32);
    assert_eq!(deepest.children().len(), 0);

    let top = GeoSotCell::new(0, 1);
    assert!(top.parent().is_none());

    let cell = GeoSotCell::new(0b11, 2);
    let parent = cell.parent().unwrap();
    assert_eq!(parent.level, 1);
    assert_eq!(parent.code, 0);
    assert!(parent.is_ancestor_of(&cell));
}

#[test]
fn test_cell_adjacency_heuristic() {
    let a = GeoSotCell::new(5, 10);
    assert!(a.is_adjacent_to(&GeoSotCell::new(6, 10)));
    assert!(a.is_adjacent_to(&GeoSotCell::new(3, 10)));
    assert!(a.is_adjacent_to(&GeoSotCell::new(9, 10)));
    assert!(a.is_adjacent_to(&GeoSotCell::new(13, 10)));
    assert!(!a.is_adjacent_to(&GeoSotCell::new(8, 10)));
    assert!(!a.is_adjacent_to(&GeoSotCell::new(6, 11)));
}

#[test]
fn test_compactness_values() {
    let tight = GeoSotRegion::from_codes(vec![1, 2, 3], 20);
    assert_eq!(compactness(&tight), (3, 3));

    let spread = GeoSotRegion::from_codes(vec![0, 100], 20);
    assert_eq!(compactness(&spread), (0, 1));

    let single = GeoSotRegion::from_codes(vec![42], 20);
    assert_eq!(compactness(&single), (1, 1));
}

#[test]
fn test_from_rectangle_membership() {
    let region = GeoSotRegion::from_rectangle(scaled(0.0), scaled(0.0), scaled(2.0), scaled(2.0), 9);
    assert_eq!(region.size(), 9);
    for lng in 0..3 {
        for lat in 0..3 {
            let code = get_code(scaled(lng as f64), scaled(lat as f64), 9);
            assert!(region.contains(code));
        }
    }
    assert!(!region.contains(get_code(scaled(3.0), scaled(0.0), 9)));

    let empty = GeoSotRegion::from_rectangle(scaled(2.0), scaled(2.0), scaled(1.0), scaled(1.0), 9);
    assert_eq!(empty.size(), 0);
    assert!(empty.is_empty());
}

#[test]
fn test_to_strings_ordered() {
    let lo = get_code(scaled(1.0), scaled(1.0), 9);
    let hi = get_code(scaled(2.0), scaled(2.0), 9);
    assert!(lo < hi);
    let region = GeoSotRegion::from_codes(vec![hi, lo], 9);
    let strings = region.to_strings();
    assert_eq!(strings.len(), 2);
    assert_eq!(strings[0], to_string(lo, 9));
    assert_eq!(strings[1], to_string(hi, 9));
}

#[test]
fn test_metrics_edge_cases() {
    let empty_a = GeoSotRegion::new(20);
    let empty_b = GeoSotRegion::new(20);
    let (num, den) = geosot::spatial::jaccard_similarity(&empty_a, &empty_b);
    assert_eq!(num as f64 / den as f64, 1.0);

    let full = GeoSotRegion::from_codes(vec![1, 2, 3], 20);
    let (num, den) = geosot::spatial::overlap_ratio(&empty_a, &full);
    assert_eq!(num as f64 / den as f64, 0.0);

    let other_level = GeoSotRegion::from_codes(vec![1, 2, 3], 21);
    let (num, den) = geosot::spatial::jaccard_similarity(&full, &other_level);
    assert_eq!(num as f64 / den as f64, 0.0);
    let (num, den) = geosot::spatial::overlap_ratio(&full, &other_level);
    assert_eq!(num as f64 / den as f64, 0.0);
}

#[test]
fn test_codes_deduplicated() {
    let region = GeoSotRegion::from_codes(vec![5, 5, 5, 2, 2], 20);
    assert_eq!(region.size(), 2);
    assert!(region.contains(2) && region.contains(5));
    assert!(!region.is_empty());
    assert!(GeoSotRegion::new(20).is_empty());
}
