use cabrillo_log::{build_index, enrich_callsign, enrich_callsign2, get_all_prefixes_descending};
use cabrillo_log::{parse_milli, parse_u32, CabrilloError};

fn master_rows() -> Vec<String> {
    vec![
        "1A,Sov Mil Order of Malta,246,EU,15,28,41.90,-12.43,-1.0,1A;".to_string(),
        "3B6,Agalega & St. Brandon,4,AF,39,53,-10.45,-56.67,-4.0,3B6 3B7;".to_string(),
        "4J,Azerbaijan,18,AS,21,29,40.45,-47.37,-4.0,4J 4K;".to_string(),
        "K,United States,291,NA,5,8,37.53,91.67,5.0,K W N AA;".to_string(),
        "3D2,Fiji,176,OC,32,56,-17.78,-177.92,-12.0,3D2;".to_string(),
        "SP,Poland,269,EU,15,28,52.28,-21.00,-1.0,3Z SN SO SP SQ SR HF;".to_string(),
        "SV,Greece,236,EU,20,28,38.00,-23.73,-2.0,SV SW SX SY SZ J4;".to_string(),
        "*4U1V,Vienna Intl Ctr,206,EU,15,28,48.20,-16.30,-1.0,=4U0IARU =4U1A =4U1VIC;".to_string(),
        "*TA1,European Turkey,390,EU,20,39,41.01,-28.97,-2.0,TA1 TB1 TC1 YM1;".to_string(),
    ]
}

#[test]
fn test_enrich_prefix_correctness() {
    let index = build_index(&master_rows()).unwrap();
    let test_cases = vec![
        ("1A", "1A", "Sov Mil Order of Malta", 15, 246),
        ("3B6", "3B6", "Agalega & St. Brandon", 39, 4),
        ("4J", "4J", "Azerbaijan", 21, 18),
        ("K", "K", "United States", 5, 291),
        ("W", "K", "United States", 5, 291),
        ("3D2/c", "3D2", "Fiji", 32, 176),
        ("SP5TLS", "SP", "Poland", 15, 269),
        ("SN0K", "SP", "Poland", 15, 269),
        ("SW6ALL", "SV", "Greece", 20, 236),
        ("4U0IARU", "*4U1V", "Vienna Intl Ctr", 15, 206),
        ("TC1A", "*TA1", "European Turkey", 20, 390),
    ];

    for (callsign, expected_main_prefix, expected_country, expected_cq_zone, expected_dxcc) in
        test_cases
    {
        let entity = enrich_callsign(&index, callsign)
            .unwrap_or_else(|| panic!("No entity found for callsign: {}", callsign));
        assert_eq!(
            entity.main_prefix, expected_main_prefix,
            "Main prefix mismatch for {}",
            callsign
        );
        assert_eq!(
            entity.country, expected_country,
            "Country mismatch for {}",
            callsign
        );
        assert_eq!(
            entity.cq_zone, expected_cq_zone,
            "CQ zone mismatch for {}",
            callsign
        );
        assert_eq!(entity.dxcc, expected_dxcc, "DXCC mismatch for {}", callsign);
    }
}

#[test]
fn both_resolvers_agree() {
    let index = build_index(&master_rows()).unwrap();
    for callsign in ["SN0K", "W1AW", "TC1A", "4U0IARU", "ZZ9ZZ", "3D2/c"] {
        let by_scan = enrich_callsign2(&index, callsign);
        let by_probe = enrich_callsign(&index, callsign);
        assert_eq!(by_scan.as_ref(), by_probe, "resolver mismatch for {}", callsign);
    }
}

#[test]
fn longest_prefix_shadows_shorter() {
    let rows = vec![
        "S,Short,1,EU,1,1,0.0,0.0,0.0,S;".to_string(),
        "SN,Long,2,EU,2,2,0.0,0.0,0.0,SN;".to_string(),
    ];
    let index = build_index(&rows).unwrap();
    let entity = enrich_callsign(&index, "SN0K").unwrap();
    assert_eq!(entity.country, "Long");
    let entity = enrich_callsign(&index, "SA1X").unwrap();
    assert_eq!(entity.country, "Short");
}

#[test]
fn no_match_is_none_not_error() {
    let index = build_index(&master_rows()).unwrap();
    assert!(enrich_callsign(&index, "ZZ9ZZ").is_none());
    assert!(enrich_callsign(&index, "").is_none());
    let empty = build_index(&Vec::<String>::new()).unwrap();
    assert!(enrich_callsign(&empty, "W1AW").is_none());
}

#[test]
fn country_part_qualifier_is_split() {
    let rows = vec!["3D2,Fiji/Rotuma,460,OC,32,56,-12.48,-177.08,-12.0,3D2;".to_string()];
    let index = build_index(&rows).unwrap();
    let entity = enrich_callsign(&index, "3D2AG").unwrap();
    assert_eq!(entity.country, "Fiji");
    assert_eq!(entity.part, Some("Rotuma".to_string()));
    assert_eq!(entity.main_prefix, "3D2");
    assert_eq!(entity.itu_zone, 56);
    assert_eq!(entity.continent, "OC");
    assert_eq!(entity.latitude, -12_480);
    assert_eq!(entity.longitude, -177_080);
    assert_eq!(entity.time_offset, -12_000);
}

#[test]
fn later_row_overrides_earlier_prefix() {
    let rows = vec![
        "A,First,1,EU,1,1,0.0,0.0,0.0,AB;".to_string(),
        "B,Second,2,EU,2,2,0.0,0.0,0.0,AB;".to_string(),
    ];
    let index = build_index(&rows).unwrap();
    let entity = enrich_callsign(&index, "AB1CD").unwrap();
    assert_eq!(entity.country, "Second");
}

#[test]
fn short_row_fails_the_build() {
    let rows = vec!["SP,Poland,269,EU,15,28,52.28".to_string()];
    assert_eq!(
        build_index(&rows),
        Err(CabrilloError::MissingRequiredField(
            "SP,Poland,269,EU,15,28,52.28".to_string()
        ))
    );
}

#[test]
fn bad_numeric_field_fails_the_build() {
    let rows = vec!["SP,Poland,notanumber,EU,15,28,52.28,-21.00,-1.0,SP;".to_string()];
    assert_eq!(
        build_index(&rows),
        Err(CabrilloError::InvalidFormat("notanumber".to_string()))
    );
    let rows = vec!["SP,Poland,269,EU,15,28,52.2x,-21.00,-1.0,SP;".to_string()];
    assert_eq!(
        build_index(&rows),
        Err(CabrilloError::InvalidFormat("52.2x".to_string()))
    );
}

#[test]
fn blank_rows_are_skipped() {
    let rows = vec![
        "".to_string(),
        "   ".to_string(),
        "K,United States,291,NA,5,8,37.53,91.67,5.0,K;".to_string(),
    ];
    let index = build_index(&rows).unwrap();
    assert!(enrich_callsign(&index, "K1AB").is_some());
}

#[test]
fn prefixes_descend_from_whole_string() {
    let prefixes = get_all_prefixes_descending("SN0K");
    assert_eq!(prefixes, vec!["SN0K", "SN0", "SN", "S"]);
    assert!(get_all_prefixes_descending("").is_empty());
}

#[test]
fn numeric_fields_parse_exactly() {
    assert_eq!(parse_u32("269"), Some(269));
    assert_eq!(parse_u32("+5"), Some(5));
    assert_eq!(parse_u32("4294967295"), Some(u32::MAX));
    assert_eq!(parse_u32("4294967296"), None);
    assert_eq!(parse_u32(""), None);
    assert_eq!(parse_u32("1.0"), None);
    assert_eq!(parse_milli("52.28"), Some(52_280));
    assert_eq!(parse_milli("-21.00"), Some(-21_000));
    assert_eq!(parse_milli("-1.0"), Some(-1_000));
    assert_eq!(parse_milli("3."), Some(3_000));
    assert_eq!(parse_milli(".5"), Some(500));
    assert_eq!(parse_milli("1.2345"), Some(1_234));
    assert_eq!(parse_milli("."), None);
    assert_eq!(parse_milli("inf"), None);
    assert_eq!(parse_milli("1e5"), None);
}
