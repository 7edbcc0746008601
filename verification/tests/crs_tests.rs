use envi::crs::{utm_proj_string, zone_central_meridian, zone_for_band, CrsError, ProjectCrs};

#[test]
fn from_zone_rejects_invalid_zone() {
    assert!(matches!(
        ProjectCrs::from_zone(0, false),
        Err(CrsError::BadZone { .. })
    ));
    assert!(matches!(
        ProjectCrs::from_zone(61, false),
        Err(CrsError::BadZone { .. })
    ));
}

#[test]
fn bad_zone_carries_the_central_meridian() {
    assert!(matches!(
        ProjectCrs::from_zone(0, false),
        Err(CrsError::BadZone { lon: -183 })
    ));
    assert!(matches!(
        ProjectCrs::from_zone(61, true),
        Err(CrsError::BadZone { lon: 183 })
    ));
    assert_eq!(zone_central_meridian(31), 3);
    assert_eq!(zone_central_meridian(1), -177);
    assert_eq!(zone_central_meridian(60), 177);
}

#[test]
fn pinned_zone_labels_and_hemisphere() {
    // Amsterdam: zone 31 north.
    let dam = ProjectCrs::from_zone(31, false).expect("valid zone");
    assert_eq!(dam.utm_zone, 31);
    assert!(!dam.south);
    assert_eq!(dam.label(), "utm-31n");
    assert!(!dam.proj_string().contains("+south"));

    // Sydney: zone 56 south.
    let syd = ProjectCrs::from_zone(56, true).expect("valid zone");
    assert_eq!(syd.utm_zone, 56);
    assert!(syd.south);
    assert_eq!(syd.label(), "utm-56s");
    assert!(syd.proj_string().contains("+south"));
}

#[test]
fn single_digit_and_edge_zones_render() {
    assert_eq!(ProjectCrs::from_zone(1, false).unwrap().label(), "utm-1n");
    assert_eq!(ProjectCrs::from_zone(60, true).unwrap().label(), "utm-60s");
    assert_eq!(ProjectCrs::from_zone(9, true).unwrap().label(), "utm-9s");
}

#[test]
fn utm_proj_string_exact_text() {
    assert_eq!(
        utm_proj_string(31, false),
        "+proj=utm +zone=31 +ellps=WGS84 +units=m +no_defs"
    );
    assert_eq!(
        utm_proj_string(56, true),
        "+proj=utm +zone=56 +south +ellps=WGS84 +units=m +no_defs"
    );
    assert_eq!(
        utm_proj_string(200, false),
        "+proj=utm +zone=200 +ellps=WGS84 +units=m +no_defs"
    );
    let crs = ProjectCrs::from_zone(33, true).unwrap();
    assert_eq!(crs.proj_string(), utm_proj_string(33, true));
}

#[test]
fn built_projections_are_utm_and_longlat() {
    let crs = ProjectCrs::from_zone(31, false).unwrap();
    assert_eq!(crs.proj().projname(), "utm");
    assert_eq!(crs.wgs84().projname(), "longlat");
}

#[test]
fn utm_zone_selection_edges_from_band_index() {
    // band = floor((lon + 180) / 6): lon = -180 -> band 0 -> zone 1;
    // lon = +180 -> band 60 -> zone 60 (clamped edge); lon = 0 -> band 30 -> 31.
    assert_eq!(zone_for_band(0), 1);
    assert_eq!(zone_for_band(60), 60);
    assert_eq!(zone_for_band(30), 31);
    // Dam Square, 4.8936 E -> band 30 -> zone 31.
    assert_eq!(zone_for_band(30), 31);
    // Sydney, 151.2093 E -> band 55 -> zone 56.
    assert_eq!(zone_for_band(55), 56);
    assert_eq!(zone_for_band(-5), 1);
    assert_eq!(zone_for_band(100), 60);
    assert_eq!(zone_for_band(59), 60);
}
