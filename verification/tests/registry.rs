use road_topo::errors::TopoError;
use road_topo::registry::{select_utm_zone_codes, CrsRecord};

fn rec(name: &str, code: &str) -> CrsRecord {
    CrsRecord { name: name.as_bytes().to_vec(), code: code.as_bytes().to_vec() }
}

#[test]
fn test_select_utm_zone_codes_by_datum() {
    // Registry rows a point query over Tokyo might return: only names
    // containing "UTM zone" count, and the datum prefix (before the slash,
    // spaces removed) must match exactly.
    let records = vec![
        rec("WGS 84 / UTM zone 54N", "32654"),
        rec("Tokyo / UTM zone 54N", "3095"),
        rec("WGS 84 / Pseudo-Mercator", "3857"),
        rec("JGD2000 / Japan Plane Rectangular CS IX", "2451"),
    ];
    let wgs84 = b"WGS84".to_vec();
    assert_eq!(select_utm_zone_codes(&records, Some(&wgs84)).unwrap(), vec![32654]);
    let tokyo = b"Tokyo".to_vec();
    assert_eq!(select_utm_zone_codes(&records, Some(&tokyo)).unwrap(), vec![3095]);
    let nad83 = b"NAD83".to_vec();
    assert_eq!(select_utm_zone_codes(&records, Some(&nad83)).unwrap(), vec![]);
    // Without a datum restriction, every UTM zone row is kept, in order.
    assert_eq!(select_utm_zone_codes(&records, None).unwrap(), vec![32654, 3095]);
}

#[test]
fn test_select_utm_zone_codes_bad_code() {
    // A selected row whose code is not a decimal number is a failure; an
    // unselected row's code is never looked at.
    let bad_selected = vec![rec("WGS 84 / UTM zone 54N", "32654N")];
    assert_eq!(
        select_utm_zone_codes(&bad_selected, None),
        Err(TopoError::InvalidCrsAuthority)
    );
    let bad_unselected = vec![rec("WGS 84 / Pseudo-Mercator", "not-a-code")];
    assert_eq!(select_utm_zone_codes(&bad_unselected, None).unwrap(), vec![]);
}

#[test]
fn test_select_utm_zone_codes_name_without_slash() {
    // A name without a datum separator compares its whole text, spaces
    // removed, against the datum.
    let records = vec![rec("WGS 84 UTM zone 54N", "32654")];
    let datum = b"WGS84UTMzone54N".to_vec();
    assert_eq!(select_utm_zone_codes(&records, Some(&datum)).unwrap(), vec![32654]);
}
