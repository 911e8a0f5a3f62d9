use orbital_sim::debris::DebrisGen;
use orbital_sim::hud::{
    burn_direction, burn_target, count_assets, drawn_bodies, origin_label, search_results,
    trail_segment_counts, type_label, BurnDirection, BurnTarget, DRAW_CAP, MAX_TRAIL_SEGMENTS,
    SEARCH_RESULTS,
};
use orbital_sim::body::BodyType;
use orbital_sim::mesh::sphere_indices;
use orbital_sim::names::{contains, is_cosmos_fragment, is_iridium_fragment, is_scenario_object};
use orbital_sim::octree::{child_offsets, octant_index, MAX_TREE_DEPTH};
use orbital_sim::records::{aer_rows, bracket_start, ephemeris_rows, velocity_stencil};
use orbital_sim::scenario::{
    admit_new_bodies, catalog_label, find_cosmos_primary, find_iridium_primary, strided_indices,
    tle_assignment, COSMOS_PIECES, IRIDIUM_PIECES, MAX_DEBRIS,
};

fn s(v: &[u8]) -> String {
    String::from_utf8(v.to_vec()).unwrap()
}

#[test]
fn aer_rows_from_csv() {
    let csv = "Time (UTCG),Azimuth (deg),Elevation (deg),Range (km)\n\"23 Apr 2026 06:30:00.000\", 12.5 ,-3.25, 100.0\nbad,row\n\"23 Apr 2026 06:31:00.000\",1,2,3\n";
    let rows = aer_rows(csv.as_bytes());
    assert_eq!(rows.len(), 2);
    let r0: Vec<String> = rows[0].iter().map(|f| s(f)).collect();
    assert_eq!(r0, vec!["23 Apr 2026 06:30:00.000", "12.5", "-3.25", "100.0"]);
}

#[test]
fn ephemeris_rows_need_seven_fields() {
    let csv = "t,lat,lon,alt,vx,vy,vz\n\"1 Jan 2026 00:00:00\",1,2,3,4,5,6\n\"1 Jan 2026 00:01:00\",1,2,3\n";
    let rows = ephemeris_rows(csv.as_bytes());
    assert_eq!(rows.len(), 1);
    assert_eq!(s(&rows[0][6]), "6");
}

#[test]
fn finite_difference_stencils() {
    assert_eq!(velocity_stencil(0, 1), None);
    assert_eq!(velocity_stencil(0, 2), Some((0, 1)));
    assert_eq!(velocity_stencil(1, 2), Some((0, 1)));
    assert_eq!(velocity_stencil(2, 5), Some((1, 3)));
    assert_eq!(velocity_stencil(4, 5), Some((3, 4)));
}

#[test]
fn interpolation_brackets() {
    assert_eq!(bracket_start(0, 5), 0);
    assert_eq!(bracket_start(3, 5), 2);
    assert_eq!(bracket_start(5, 5), 3);
}

#[test]
fn name_families() {
    assert!(contains("COSMOS 2251 DEB", "2251"));
    assert!(!contains("abc", "abcd"));
    assert!(contains("abc", ""));
    assert!(is_cosmos_fragment("COSMOS 2251 DEB"));
    assert!(is_cosmos_fragment("OBJECT 2251"));
    assert!(!is_cosmos_fragment("cosmos"));
    assert!(is_iridium_fragment("IRIDIUM 33 DEB"));
    assert!(!is_iridium_fragment("Iridium"));
}

#[test]
fn scenario_objects_compared_in_upper_case() {
    assert!(is_scenario_object("iss zarya"));
    assert!(is_scenario_object("Iridium 33"));
    assert!(is_scenario_object("cosmos 2251"));
    assert!(!is_scenario_object("starlink-1007"));
}

#[test]
fn search_ignores_case_and_groups_debris_by_name() {
    let alive = vec![true, true, true, true, true, false, true];
    let names: Vec<String> = [
        "ISS Zarya",
        "COSMOS 2251 DEB",
        "Cosmos-2251",
        "cosmos 2251 deb",
        "COSMOS 2251 DEB",
        "COSMOS 2251 DEB",
        "Iridium-33",
    ]
    .iter()
    .map(|n| n.to_string())
    .collect();
    let types = vec![
        BodyType::Zarya,
        BodyType::CollisionDebris,
        BodyType::Russs,
        BodyType::CollisionDebris,
        BodyType::CollisionDebris,
        BodyType::CollisionDebris,
        BodyType::Iridium33,
    ];
    let (sats, groups) = search_results(&alive, &names, &types, "Cosmos");
    assert_eq!(sats, vec![2]);
    // the dead piece at index 5 is not counted
    assert_eq!(groups, vec![(1, 2), (3, 1)]);

    let (sats, groups) = search_results(&alive, &names, &types, "IRIDIUM");
    assert_eq!(sats, vec![6]);
    assert!(groups.is_empty());

    let (sats, groups) = search_results(&alive, &names, &types, "starlink");
    assert!(sats.is_empty() && groups.is_empty());
}

#[test]
fn search_stops_after_twenty_satellites() {
    let mut names: Vec<String> = vec!["SAT DEB".to_string()];
    names.extend((0..25).map(|k| format!("SAT {}", k)));
    names.push("SAT DEB".to_string());
    let mut types = vec![BodyType::CollisionDebris];
    types.extend((0..25).map(|_| BodyType::LiveSatellite));
    types.push(BodyType::CollisionDebris);
    let alive = vec![true; names.len()];
    let (sats, groups) = search_results(&alive, &names, &types, "sat");
    assert_eq!(SEARCH_RESULTS, 20);
    assert_eq!(sats, (1..21).collect::<Vec<usize>>());
    // the debris after the twentieth satellite is never looked at
    assert_eq!(groups, vec![(0, 1)]);
}

#[test]
fn population_cap() {
    let mut bodies = vec![1, 2, 3];
    admit_new_bodies(&mut bodies, vec![4, 5, 6], 5);
    assert_eq!(bodies, vec![1, 2, 3, 4, 5]);
    admit_new_bodies(&mut bodies, vec![7], 5);
    assert_eq!(bodies, vec![1, 2, 3, 4, 5]);
    let mut more = vec![0u8; 10];
    admit_new_bodies(&mut more, vec![1, 2], 4);
    assert_eq!(more.len(), 10);
    assert_eq!(MAX_DEBRIS, 50000);
    assert_eq!(COSMOS_PIECES + IRIDIUM_PIECES, 1259);
}

#[test]
fn strided_samples() {
    assert_eq!(strided_indices(1000, 500, 10).len(), 50);
    assert_eq!(strided_indices(25, 500, 10), vec![0, 10, 20]);
    assert_eq!(strided_indices(41, usize::MAX, 20), vec![0, 20, 40]);
    assert!(strided_indices(0, 500, 10).is_empty());
}

#[test]
fn fragment_tles_assigned_in_order() {
    let names: Vec<String> = ["COSMOS 2251 DEB", "IRIDIUM 33 DEB", "FENGYUN", "COSMOS 2251 DEB B", "IRIDIUM 33 DEB B"]
        .iter()
        .map(|n| n.to_string())
        .collect();
    assert_eq!(tle_assignment(&names, false, 893), vec![0, 3]);
    assert_eq!(tle_assignment(&names, true, 1), vec![1]);
    assert!(tle_assignment(&names, true, 0).is_empty());
}

#[test]
fn primary_satellites_found_by_name() {
    let names: Vec<String> = ["STARLINK", "COSMOS 2251", "IRIDIUM 33", "OTHER 22675"].iter().map(|n| n.to_string()).collect();
    assert_eq!(find_cosmos_primary(&names), Some(1));
    assert_eq!(find_iridium_primary(&names), Some(2));
    let none: Vec<String> = vec!["A".to_string()];
    assert_eq!(find_cosmos_primary(&none), None);
}

#[test]
fn catalogue_labels() {
    assert_eq!(catalog_label(BodyType::Zarya), "SATELLITE");
    assert_eq!(catalog_label(BodyType::LiveSatellite), "SATELLITE");
    assert_eq!(catalog_label(BodyType::CollisionDebris), "DEBRIS");
}

#[test]
fn fragment_names() {
    assert_eq!(DebrisGen::fragment_name(42, 0), "DEB-42-0");
    assert_eq!(DebrisGen::fragment_name(18446744073709551615, 1259), "DEB-18446744073709551615-1259");
    assert_eq!(DebrisGen::cascade_fragment_name("Iridium-33"), "Iridium-33 FRAG");
}

#[test]
fn sphere_mesh_indices() {
    let idx = sphere_indices(2, 3);
    assert_eq!(idx.len(), 36);
    assert_eq!(&idx[0..6], &[0, 4, 1, 4, 5, 1]);
    assert_eq!(&idx[30..36], &[6, 10, 7, 10, 11, 7]);
    assert!(idx.iter().all(|&i| i < 12));
    assert!(sphere_indices(0, 5).is_empty());
}

#[test]
fn octants() {
    assert_eq!(octant_index(false, false, false), 0);
    assert_eq!(octant_index(true, false, true), 5);
    assert_eq!(octant_index(true, true, true), 7);
    for i in 0..8 {
        let (x, y, z) = child_offsets(i);
        assert_eq!(octant_index(x, y, z), i);
    }
    assert_eq!(MAX_TREE_DEPTH, 20);
}

#[test]
fn drawn_bodies_filter() {
    let alive = vec![true, false, true, true];
    let types = vec![BodyType::LiveSatellite, BodyType::Zarya, BodyType::CollisionDebris, BodyType::Iridium33];
    assert_eq!(drawn_bodies(&alive, &types, true, DRAW_CAP), vec![0, 2, 3]);
    assert_eq!(drawn_bodies(&alive, &types, false, DRAW_CAP), vec![0, 3]);
    assert_eq!(drawn_bodies(&alive, &types, true, 2), vec![0, 2]);
}

#[test]
fn asset_counts() {
    let types = vec![BodyType::LiveSatellite, BodyType::Zarya, BodyType::CollisionDebris, BodyType::PreExistingDebris];
    assert_eq!(count_assets(&types), (2, 2));
}

#[test]
fn trail_budget() {
    assert_eq!(trail_segment_counts(&vec![0, 1, 2, 10]), vec![0, 0, 1, 9]);
    let lens = vec![300_000usize, 300_000, 5];
    let counts = trail_segment_counts(&lens);
    assert_eq!(counts, vec![299_999, MAX_TRAIL_SEGMENTS - 299_999, 0]);
    assert_eq!(MAX_TRAIL_SEGMENTS * 14 > 7_900_000, true);
    assert_eq!((MAX_TRAIL_SEGMENTS - 1) * 14 > 7_900_000, false);
}

#[test]
fn labels_and_burns() {
    assert_eq!(type_label(BodyType::Zarya), "🏰 STATION MODULE");
    assert_eq!(type_label(BodyType::PreExistingDebris), "⚙️ LEGACY DEBRIS");
    assert_eq!(origin_label(BodyType::CollisionDebris, "iridium 33 deb"), "Fragment of Iridium 33 (United States)");
    assert_eq!(origin_label(BodyType::CollisionDebris, "Cosmos 2251 FRAG"), "Fragment of Cosmos 2251 (Russia)");
    assert_eq!(origin_label(BodyType::PreExistingDebris, "zarya bits"), "Fragment of ISS Zarya");
    assert_eq!(origin_label(BodyType::PreExistingDebris, "DEB-1"), "Unknown Orbital Debris");
    assert_eq!(origin_label(BodyType::Russs, "anything"), "Russia (Cosmos)");
    assert_eq!(burn_target(BodyType::CollisionDebris, BodyType::LiveSatellite), Some(BurnTarget::Second));
    assert_eq!(burn_target(BodyType::Zarya, BodyType::LiveSatellite), Some(BurnTarget::First));
    assert_eq!(burn_target(BodyType::CollisionDebris, BodyType::PreExistingDebris), None);
    assert_eq!(burn_direction(4), BurnDirection::Prograde);
    assert_eq!(burn_direction(7), BurnDirection::Normal);
}
