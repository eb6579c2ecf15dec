use cabrillo_log::{CabrilloError, CabrilloLog, Date, QSO, Time};
use cabrillo_log::{is_valid_band, is_valid_callsign, is_valid_mode};

#[test]
fn test_parse_simple_log() {
    let content = "START-OF-LOG: 3.0\nCALLSIGN: N1MM\nQSO: 14000 CW 2023-10-01 1200 N1MM 599 001 W1AW 599 001 0\nEND-OF-LOG: 3.0\n";
    let log = CabrilloLog::parse(content).unwrap();
    assert_eq!(log.get_header("CALLSIGN").unwrap().as_str(), "N1MM");
    assert_eq!(log.qsos.len(), 1);
    assert_eq!(log.qsos[0].freq, "14000");
    assert_eq!(log.qsos[0].mode, "CW");
    assert_eq!(log.qsos[0].tx, Some("0".to_string()));
}

#[test]
fn test_parse_multi_exchange() {
    let content = "START-OF-LOG: 3.0\nQSO: 14042 CW 2023-10-01 0101 N5KO 1211 B 74 SCV VE3/KA5WSS 1071 A 74 ON 0\nEND-OF-LOG: 3.0\n";
    let log = CabrilloLog::parse(content).unwrap();
    assert_eq!(log.qsos[0].sent_rst_exch, "1211 B 74 SCV");
    assert_eq!(log.qsos[0].rcvd_rst_exch, "1071 A 74 ON");
    assert_eq!(log.qsos[0].tx, Some("0".to_string()));
}

#[test]
fn test_validate_log() {
    let content = "START-OF-LOG: 3.0\nCALLSIGN: N1MM\nQSO: 14000 CW 2023-10-01 1200 N1MM 599 001 W1AW 599 001 0\nEND-OF-LOG: 3.0\n";
    let log = CabrilloLog::parse(content).unwrap();
    assert!(log.validate().is_ok());
}

#[test]
fn test_invalid_callsign() {
    let content = "START-OF-LOG: 3.0\nCALLSIGN: N1MM\nQSO: 14000 CW 2023-10-01 1200 invalid 599 001 W1AW 599 001 0\nEND-OF-LOG: 3.0\n";
    let log = CabrilloLog::parse(content).unwrap();
    assert!(log.validate().is_err());
}

#[test]
fn test_to_string() {
    let content = "START-OF-LOG: 3.0\nCALLSIGN: N1MM\nQSO: 14000 CW 2023-10-01 1200 N1MM 599 001 W1AW 599 001 0\nEND-OF-LOG: 3.0\n";
    let log = CabrilloLog::parse(content).unwrap();
    let output = log.serialize();
    assert!(output.contains("CALLSIGN: N1MM"));
    assert!(output.contains(
        "QSO: 14000 CW 2023-10-01 1200 N1MM          599 001  W1AW          599 001  0"
    ));
}

#[test]
fn test_parse_without_tx() {
    let content = "START-OF-LOG: 3.0\nCALLSIGN: N1MM\nQSO: 14000 CW 2023-10-01 1200 N1MM 599 001 W1AW 599 001\nEND-OF-LOG: 3.0\n";
    let log = CabrilloLog::parse(content).unwrap();
    assert_eq!(log.qsos.len(), 1);
    assert_eq!(log.qsos[0].freq, "14000");
    assert_eq!(log.qsos[0].mode, "CW");
    assert_eq!(log.qsos[0].tx, None);
    assert_eq!(log.qsos[0].sent_rst_exch, "599 001");
    assert_eq!(log.qsos[0].rcvd_rst_exch, "599 001");
    let output = log.serialize();
    assert!(output.contains(
        "QSO: 14000 CW 2023-10-01 1200 N1MM          599 001  W1AW          599 001 "
    ));
}

#[test]
fn test_parse_exchange_with_zero() {
    let content = "START-OF-LOG: 3.0\nQSO: 14000 CW 2023-10-01 1200 N1MM 599 001 W1AW 599 001 0\nEND-OF-LOG: 3.0\n";
    let log = CabrilloLog::parse(content).unwrap();
    assert_eq!(log.qsos[0].sent_rst_exch, "599 001");
    assert_eq!(log.qsos[0].tx, Some("0".to_string()));
}

#[test]
fn test_parse_exchange_with_one() {
    let content = "START-OF-LOG: 3.0\nQSO: 14000 CW 2023-10-01 1200 N1MM 599 001 W1AW 599 001 1\nEND-OF-LOG: 3.0\n";
    let log = CabrilloLog::parse(content).unwrap();
    assert_eq!(log.qsos[0].sent_rst_exch, "599 001");
    assert_eq!(log.qsos[0].tx, Some("1".to_string()));
}

#[test]
fn test_is_valid_callsign() {
    assert!(is_valid_callsign("N1MM"));
    assert!(is_valid_callsign("VE3/KA5WSS"));
    assert!(!is_valid_callsign("invalid"));
}

#[test]
fn test_is_valid_band() {
    assert!(is_valid_band("20"));
    assert!(is_valid_band("14000"));
    assert!(!is_valid_band("invalid"));
}

#[test]
fn test_is_valid_mode() {
    assert!(is_valid_mode("CW"));
    assert!(!is_valid_mode("invalid"));
}

#[test]
fn parse_fills_every_field() {
    let content = "QSO: 14000 CW 2023-10-01 1200 N1MM 599 001 W1AW 599 001 0\n";
    let log = CabrilloLog::parse(content).unwrap();
    assert_eq!(log.qsos.len(), 1);
    let q = &log.qsos[0];
    assert_eq!(q.freq, "14000");
    assert_eq!(q.mode, "CW");
    assert_eq!(q.date, Date { year: 2023, month: 10, day: 1 });
    assert_eq!(q.time, Time { hour: 12, minute: 0 });
    assert_eq!(q.sent_call, "N1MM");
    assert_eq!(q.sent_rst_exch, "599 001");
    assert_eq!(q.rcvd_call, "W1AW");
    assert_eq!(q.rcvd_rst_exch, "599 001");
    assert_eq!(q.tx, Some("0".to_string()));
}

#[test]
fn serialize_exact_text() {
    let content = "START-OF-LOG: 3.0\nCONTEST: ARRL-10\nCALLSIGN: N1MM\nQSO: 14000 CW 2023-10-01 1200 N1MM 599 001 W1AW 599 001 0\nEND-OF-LOG: 3.0\n";
    let log = CabrilloLog::parse(content).unwrap();
    assert_eq!(
        log.serialize(),
        "START-OF-LOG: 3.0\nCALLSIGN: N1MM\nCONTEST: ARRL-10\nQSO: 14000 CW 2023-10-01 1200 N1MM          599 001  W1AW          599 001  0\nEND-OF-LOG:\n"
    );
}

#[test]
fn round_trip_reproduces_log() {
    let content = "START-OF-LOG: 3.0\nCALLSIGN: N1MM\nCONTEST: ARRL-10\nQSO: 14042 CW 2023-10-01 0101 N5KO 1211 B 74 SCV VE3/KA5WSS 1071 A 74 ON 0\nQSO: 14000 CW 2023-10-01 1200 N1MM 599 001 W1AW 599 001\nEND-OF-LOG: 3.0\n";
    let log = CabrilloLog::parse(content).unwrap();
    let log2 = CabrilloLog::parse(&log.serialize()).unwrap();
    assert_eq!(log.qsos, log2.qsos);
    assert_eq!(
        log.get_header("CALLSIGN").unwrap(),
        log2.get_header("CALLSIGN").unwrap()
    );
    assert_eq!(
        log.get_header("CONTEST").unwrap(),
        log2.get_header("CONTEST").unwrap()
    );
    assert_eq!(log.headers.len(), log2.headers.len());
}

#[test]
fn header_last_occurrence_wins() {
    let content = "ADDRESS: 123 Main St\nADDRESS: Anytown, USA\nQSO: 14000 CW 2023-10-01 1200 N1MM 599 001 W1AW 599 001 0\n";
    let log = CabrilloLog::parse(content).unwrap();
    assert_eq!(log.get_header("ADDRESS").unwrap().as_str(), "Anytown, USA");
    assert_eq!(log.headers.len(), 1);
    assert!(log.get_header("MISSING").is_none());
}

#[test]
fn comments_markers_and_late_headers_are_dropped() {
    let content = "# a comment\n\nCALLSIGN: N1MM\nX-QSO: 14000 CW 2023-10-01 1200 N1MM 599 001 W1AW 599 001 0\nQSO: 14000 CW 2023-10-01 1200 N1MM 599 001 W1AW 599 001 0\nLATE: too late\nEND-OF-LOG:\n";
    let log = CabrilloLog::parse(content).unwrap();
    assert_eq!(log.qsos.len(), 1);
    assert_eq!(log.get_header("CALLSIGN").unwrap().as_str(), "N1MM");
    assert!(log.get_header("LATE").is_none());
}

#[test]
fn empty_key_and_value_round_trip() {
    let content = ": anonymous\nEMPTY:\nQSO: 14000 CW 2023-10-01 1200 N1MM 599 001 W1AW 599 001 0\n";
    let log = CabrilloLog::parse(content).unwrap();
    assert_eq!(log.get_header("").unwrap().as_str(), "anonymous");
    assert_eq!(log.get_header("EMPTY").unwrap().as_str(), "");
    let log2 = CabrilloLog::parse(&log.serialize()).unwrap();
    assert_eq!(log2.get_header("").unwrap().as_str(), "anonymous");
    assert_eq!(log2.get_header("EMPTY").unwrap().as_str(), "");
    assert_eq!(log.qsos, log2.qsos);
}

#[test]
fn x_qso_ends_the_header_section() {
    let content = "CLUB: Test Club\nX-QSO: 14000 CW 2023-10-01 1200 N1MM 599 001 W1AW 599 001 0\nCALLSIGN: N1MM\nQSO: 14000 CW 2023-10-01 1200 N1MM 599 001 W1AW 599 001 0\n";
    let log = CabrilloLog::parse(content).unwrap();
    assert_eq!(log.get_header("CLUB").unwrap().as_str(), "Test Club");
    assert!(log.get_header("CALLSIGN").is_none());
    assert_eq!(log.qsos.len(), 1);
}

#[test]
fn too_few_tokens_is_invalid_format() {
    let content = "QSO: 14000 CW 2023-10-01 1200 N1MM 599 W1AW 599\n";
    assert_eq!(
        CabrilloLog::parse(content),
        Err(CabrilloError::InvalidFormat("Invalid QSO line".to_string()))
    );
}

#[test]
fn bad_date_is_invalid_date() {
    let content = "QSO: 14000 CW 2023-13-01 1200 N1MM 599 001 W1AW 599 001 0\n";
    assert_eq!(
        CabrilloLog::parse(content),
        Err(CabrilloError::InvalidDate("2023-13-01".to_string()))
    );
    let leap = "QSO: 14000 CW 2023-02-29 1200 N1MM 599 001 W1AW 599 001 0\n";
    assert_eq!(
        CabrilloLog::parse(leap),
        Err(CabrilloError::InvalidDate("2023-02-29".to_string()))
    );
    let leap_ok = "QSO: 14000 CW 2024-02-29 1200 N1MM 599 001 W1AW 599 001 0\n";
    assert!(CabrilloLog::parse(leap_ok).is_ok());
}

#[test]
fn bad_time_is_invalid_time() {
    let content = "QSO: 14000 CW 2023-10-01 2460 N1MM 599 001 W1AW 599 001 0\n";
    assert_eq!(
        CabrilloLog::parse(content),
        Err(CabrilloError::InvalidTime("2460".to_string()))
    );
}

#[test]
fn no_received_callsign_is_invalid_format() {
    let content = "QSO: 14000 CW 2023-10-01 1200 N1MM 599 001 599 001 59\n";
    assert_eq!(
        CabrilloLog::parse(content),
        Err(CabrilloError::InvalidFormat(
            "No valid received callsign found".to_string()
        ))
    );
}

#[test]
fn missing_received_exchange_is_invalid_format() {
    let content = "QSO: 14000 CW 2023-10-01 1200 N1MM 599 001 002 003 W1AW\n";
    assert_eq!(
        CabrilloLog::parse(content),
        Err(CabrilloError::InvalidFormat(
            "Missing received RST/EXCH".to_string()
        ))
    );
}

#[test]
fn validate_reports_first_violation() {
    let good = QSO {
        freq: "14000".to_string(),
        mode: "CW".to_string(),
        date: Date { year: 2023, month: 10, day: 1 },
        time: Time { hour: 12, minute: 0 },
        sent_call: "N1MM".to_string(),
        sent_rst_exch: "599 001".to_string(),
        rcvd_call: "W1AW".to_string(),
        rcvd_rst_exch: "599 001".to_string(),
        tx: None,
    };
    let mut bad_band = good.clone();
    bad_band.freq = "badband".to_string();
    let mut bad_mode = good.clone();
    bad_mode.mode = "SSB".to_string();
    let mut bad_tx = good.clone();
    bad_tx.tx = Some("2".to_string());
    let log = CabrilloLog { headers: Vec::new(), qsos: vec![good, bad_band] };
    assert_eq!(
        log.validate(),
        Err(CabrilloError::InvalidFormat(
            "Invalid band/freq: badband".to_string()
        ))
    );
    let log = CabrilloLog { headers: Vec::new(), qsos: vec![bad_mode] };
    assert_eq!(
        log.validate(),
        Err(CabrilloError::InvalidFormat("Invalid mode: SSB".to_string()))
    );
    let log = CabrilloLog { headers: Vec::new(), qsos: vec![bad_tx] };
    assert_eq!(
        log.validate(),
        Err(CabrilloError::InvalidFormat(
            "Invalid transmitter: 2".to_string()
        ))
    );
}

#[test]
fn validate_twice_gives_same_result() {
    let content = "QSO: 14000 CW 2023-10-01 1200 invalid 599 001 W1AW 599 001 0\n";
    let log = CabrilloLog::parse(content).unwrap();
    let first = log.validate();
    let second = log.validate();
    assert_eq!(first, second);
    assert_eq!(
        first,
        Err(CabrilloError::InvalidCallsign("invalid".to_string()))
    );
}

#[test]
fn band_accepts_float_frequencies() {
    assert!(is_valid_band("14000.5"));
    assert!(is_valid_band("-3.5"));
    assert!(is_valid_band("1e5"));
    assert!(is_valid_band("3."));
    assert!(is_valid_band(".5"));
    assert!(is_valid_band("inf"));
    assert!(is_valid_band("NaN"));
    assert!(is_valid_band("LIGHT"));
    assert!(!is_valid_band("1.2.3"));
    assert!(!is_valid_band(""));
    assert!(!is_valid_band("."));
    assert!(!is_valid_band("1e"));
    assert!(!is_valid_band("--5"));
}

#[test]
fn times_ok_guards_rendering() {
    let content = "QSO: 14000 CW 2023-10-01 1200 N1MM 599 001 W1AW 599 001 0\n";
    let log = CabrilloLog::parse(content).unwrap();
    assert!(log.times_ok());
    let mut broken = log.clone();
    broken.qsos[0].date = Date { year: 2023, month: 2, day: 30 };
    assert!(!broken.times_ok());
}

#[test]
fn error_messages_render() {
    let e = CabrilloError::InvalidDate("2023-13-01".to_string());
    assert_eq!(e.message(), "Invalid date: 2023-13-01");
    let e = CabrilloError::InvalidCallsign("xx".to_string());
    assert_eq!(e.message(), "Invalid callsign: xx");
}
