use geosot::get_code;
use geosot::spatial::{compactness, jaccard_similarity, overlap_ratio, GeoSotCell, GeoSotRegion};

/// Scaled coordinate units (1/7372800 degree) of a decimal degree value.
fn scaled(deg: f64) -> i64 {
    let mag = (deg.abs() * 7372800.0).round() as i64;
    if deg < 0.0 {
        -mag
    } else {
        mag
    }
}

/// Decimal degrees of a scaled coordinate.
fn degrees(units: i64) -> f64 {
    units as f64 / 7372800.0
}

#[test]
fn test_geosot_cell_creation() {
    let cell = GeoSotCell::from_coords(scaled(116.397), scaled(39.916), 20);
    assert_eq!(cell.level, 20);
    println!("Cell: {}", cell.to_string_py());
}

#[test]
fn test_parent_child_relationship() {
    let cell = GeoSotCell::from_coords(scaled(116.397), scaled(39.916), 20);
    let parent = cell.parent().unwrap();
    assert_eq!(parent.level, 19);

    let children = parent.children();
    assert_eq!(children.len(), 4);
    assert!(children.iter().any(|c| c.is_descendant_of(&parent)));
}

#[test]
fn test_region_creation() {
    let mut region = GeoSotRegion::new(20);
    region.add_point(scaled(116.0), scaled(39.0));
    region.add_point(scaled(121.0), scaled(31.0));

    assert_eq!(region.size(), 2);
    assert!(region.contains_point(scaled(116.0), scaled(39.0)));
}

#[test]
fn test_intersection() {
    let region1 = GeoSotRegion::from_codes(vec![1, 2, 3, 4], 20);
    let region2 = GeoSotRegion::from_codes(vec![3, 4, 5, 6], 20);

    let intersection = region1.intersection(&region2).unwrap();
    assert_eq!(intersection.size(), 2);
    assert!(intersection.contains(3));
    assert!(intersection.contains(4));
}

#[test]
fn test_union() {
    let region1 = GeoSotRegion::from_codes(vec![1, 2, 3], 20);
    let region2 = GeoSotRegion::from_codes(vec![3, 4, 5], 20);

    let union = region1.union(&region2).unwrap();
    assert_eq!(union.size(), 5);
}

#[test]
fn test_difference() {
    let region1 = GeoSotRegion::from_codes(vec![1, 2, 3, 4], 20);
    let region2 = GeoSotRegion::from_codes(vec![2, 3], 20);

    let difference = region1.difference(&region2).unwrap();
    assert_eq!(difference.size(), 2);
    assert!(difference.contains(1));
    assert!(difference.contains(4));
}

#[test]
fn spatial_test_spatial_relationships() {
    let region1 = GeoSotRegion::from_codes(vec![1, 2, 3], 20);
    let region2 = GeoSotRegion::from_codes(vec![2, 3, 4], 20);
    let region3 = GeoSotRegion::from_codes(vec![1, 2], 20);

    assert!(region1.intersects(&region2));
    assert!(region3.is_subset(&region1));
    assert!(region1.is_superset(&region3));
}

#[test]
fn test_jaccard_similarity() {
    let region1 = GeoSotRegion::from_codes(vec![1, 2, 3], 20);
    let region2 = GeoSotRegion::from_codes(vec![2, 3, 4], 20);

    let (num, den) = jaccard_similarity(&region1, &region2);
    let similarity = num as f64 / den as f64;
    assert!((similarity - 0.5).abs() < 1e-10);
}

#[test]
fn test_basic_spatial_operations() {
    let level = 20;
    let region_a = GeoSotRegion::from_codes(
        vec![
            get_code(scaled(116.0), scaled(39.0), level),
            get_code(scaled(116.1), scaled(39.0), level),
            get_code(scaled(116.0), scaled(39.1), level),
        ],
        level,
    );

    let region_b = GeoSotRegion::from_codes(
        vec![
            get_code(scaled(116.0), scaled(39.0), level),
            get_code(scaled(116.2), scaled(39.0), level),
            get_code(scaled(121.0), scaled(31.0), level),
        ],
        level,
    );

    println!("region A size: {}", region_a.size());
    println!("region B size: {}", region_b.size());

    let intersection = region_a.intersection(&region_b).unwrap();
    assert_eq!(intersection.size(), 1);

    let union = region_a.union(&region_b).unwrap();
    assert_eq!(union.size(), 5);

    let diff_a_b = region_a.difference(&region_b).unwrap();
    let diff_b_a = region_b.difference(&region_a).unwrap();
    assert_eq!(diff_a_b.size(), 2);
    assert_eq!(diff_b_a.size(), 2);

    let sym_diff = region_a.symmetric_difference(&region_b).unwrap();
    assert_eq!(sym_diff.size(), 4);
}

#[test]
fn spatial_test_test_spatial_relationships() {
    let level = 18;

    let large_region =
        GeoSotRegion::from_rectangle(scaled(115.5), scaled(38.5), scaled(116.5), scaled(39.5), level);

    let small_region =
        GeoSotRegion::from_rectangle(scaled(115.8), scaled(38.8), scaled(116.2), scaled(39.2), level);

    let distant_region =
        GeoSotRegion::from_rectangle(scaled(120.0), scaled(30.0), scaled(121.0), scaled(31.0), level);

    println!("large region size: {}", large_region.size());
    println!("small region size: {}", small_region.size());
    println!("distant region size: {}", distant_region.size());

    assert!(small_region.is_subset(&large_region));
    assert!(large_region.is_superset(&small_region));

    assert!(large_region.intersects(&small_region));
    assert!(!large_region.intersects(&distant_region));
    assert!(large_region.is_disjoint(&distant_region));
}

#[test]
fn test_spatial_analysis_metrics() {
    let level = 20;

    let codes_a = vec![1u64, 2, 3, 4, 5];
    let codes_b = vec![3u64, 4, 5, 6, 7];

    let region_a = GeoSotRegion::from_codes(codes_a, level);
    let region_b = GeoSotRegion::from_codes(codes_b, level);

    let (jn, jd) = jaccard_similarity(&region_a, &region_b);
    let jaccard = jn as f64 / jd as f64;
    assert!((jaccard - 3.0 / 7.0).abs() < 1e-10);

    let (on, od) = overlap_ratio(&region_a, &region_b);
    let overlap = on as f64 / od as f64;
    assert!((overlap - 0.6).abs() < 1e-10);

    let (cn, cd) = compactness(&region_a);
    let compact = cn as f64 / cd as f64;
    assert!(compact >= 0.0 && compact <= 1.0);
}

#[test]
fn test_complement_operation() {
    let level = 20;
    let universe_codes = vec![1u64, 2, 3, 4, 5, 6, 7, 8, 9, 10];
    let region_codes = vec![2u64, 4, 6, 8];

    let universe = GeoSotRegion::from_codes(universe_codes, level);
    let region = GeoSotRegion::from_codes(region_codes, level);

    let complement = region.complement(&universe).unwrap();

    assert_eq!(complement.size(), 6);

    let expected_complement_codes = vec![1u64, 3, 5, 7, 9, 10];
    for code in expected_complement_codes {
        assert!(complement.contains(code), "complement misses code {}", code);
    }
}

#[test]
fn test_region_creation_methods() {
    let level = 18;

    let mut point_region = GeoSotRegion::new(level);
    point_region.add_point(scaled(116.0), scaled(39.0));
    point_region.add_point(scaled(121.0), scaled(31.0));
    assert_eq!(point_region.size(), 2);

    let rect_region =
        GeoSotRegion::from_rectangle(scaled(115.9), scaled(38.9), scaled(116.1), scaled(39.1), level);
    println!("rectangle region size: {}", rect_region.size());
    assert!(rect_region.size() > 0);

    let polygon_points = vec![
        (scaled(115.9), scaled(38.9)),
        (scaled(116.1), scaled(38.9)),
        (scaled(116.1), scaled(39.1)),
        (scaled(115.9), scaled(39.1)),
    ];
    let polygon_region = GeoSotRegion::from_polygon(polygon_points, level);
    println!("polygon region size: {}", polygon_region.size());
    assert!(polygon_region.size() > 0);

    assert_eq!(rect_region.size(), polygon_region.size());
}

#[test]
fn test_coordinate_conversion() {
    let level = 20;
    let mut region = GeoSotRegion::new(level);
    let mut original_points = vec![(116.0, 39.0), (121.0, 31.0), (113.0, 23.0)];

    for (lng, lat) in &original_points {
        region.add_point(scaled(*lng), scaled(*lat));
    }

    let converted_coords = region.to_coordinates();
    println!("original points: {}", original_points.len());
    println!("converted points: {}", converted_coords.len());

    assert_eq!(converted_coords.len(), original_points.len());

    original_points.reverse();
    for (i, (orig_lng, orig_lat)) in original_points.iter().enumerate() {
        let (conv_lng, conv_lat) = converted_coords[i];
        let (conv_lng, conv_lat) = (degrees(conv_lng), degrees(conv_lat));
        println!(
            "original: ({:.6}, {:.6}) -> converted: ({:.6}, {:.6})",
            orig_lng, orig_lat, conv_lng, conv_lat
        );

        assert!((orig_lng - conv_lng).abs() < 0.01);
        assert!((orig_lat - conv_lat).abs() < 0.01);
    }
}
