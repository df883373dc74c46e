use dumpscan::driver::{scan_source, ScanConfig, ScanDriver, ScanState, DEFAULT_MAX_RUN_LENGTH};
use dumpscan::error::{ConfigFault, ScanError};
use dumpscan::finding::Finding;
use dumpscan::signature::Signature;
use dumpscan::window::{ByteWindowSource, Window};

fn signature(name: &str, bytes: &[u8]) -> Signature {
    Signature { name: name.to_string(), bytes: bytes.to_vec() }
}

fn config(window_size: usize, bytes_per_row: usize, min: usize) -> ScanConfig {
    ScanConfig::new(window_size, bytes_per_row, min, vec![signature("PDF", b"%PDF")])
}

#[test]
fn windows_cover_the_source_in_order() {
    let data: Vec<u8> = (0u8..10).collect();
    let mut source = ByteWindowSource::new(&data, 4).unwrap();
    assert_eq!(source.remaining(), 10);
    let first = source.next_window().unwrap();
    assert_eq!((first.offset, first.data), (0, &data[0..4]));
    let second = source.next_window().unwrap();
    assert_eq!((second.offset, second.data), (4, &data[4..8]));
    let third = source.next_window().unwrap();
    assert_eq!((third.offset, third.data), (8, &data[8..10]));
    assert_eq!(source.remaining(), 0);
    assert!(source.next_window().is_none());
    assert!(source.next_window().is_none());
}

#[test]
fn exact_multiple_ends_with_a_full_window() {
    let data = [7u8; 8];
    let mut source = ByteWindowSource::new(&data, 4).unwrap();
    assert_eq!(source.next_window().unwrap().data.len(), 4);
    let last = source.next_window().unwrap();
    assert_eq!((last.offset, last.data.len()), (4, 4));
    assert!(source.next_window().is_none());
}

#[test]
fn empty_source_has_no_window() {
    let mut source = ByteWindowSource::new(&[], 16).unwrap();
    assert_eq!(source.remaining(), 0);
    assert!(source.next_window().is_none());
}

#[test]
fn zero_window_size_is_refused() {
    assert_eq!(
        ByteWindowSource::new(b"abc", 0).err(),
        Some(ScanError::InvalidConfiguration(ConfigFault::ZeroWindowSize))
    );
}

#[test]
fn configuration_faults_in_the_order_of_the_settings() {
    let mut bad = ScanConfig {
        window_size: 0,
        bytes_per_row: 0,
        min_string_length: 9,
        max_run_length: 8,
        signatures: vec![signature("PDF", b"%PDF"), signature("NONE", b"")],
    };
    let fault = |config: &ScanConfig| match scan_source(b"abc", config) {
        Err(ScanError::InvalidConfiguration(fault)) => fault,
        other => panic!("not refused: {:?}", other),
    };
    assert_eq!(fault(&bad), ConfigFault::ZeroWindowSize);
    bad.window_size = 8;
    assert_eq!(fault(&bad), ConfigFault::ZeroBytesPerRow);
    bad.bytes_per_row = 8;
    assert_eq!(fault(&bad), ConfigFault::RunLimitBelowMinimum);
    bad.max_run_length = 9;
    assert_eq!(fault(&bad), ConfigFault::EmptySignature(1));
    assert!(ScanDriver::new(&bad).is_err());
    bad.signatures.pop();
    assert!(scan_source(b"abc", &bad).is_ok());
}

#[test]
fn default_run_limit() {
    let config = config(1024, 16, 4);
    assert_eq!(config.max_run_length, DEFAULT_MAX_RUN_LENGTH);
    assert_eq!(config.window_size, 1024);
    assert_eq!(config.bytes_per_row, 16);
    assert_eq!(config.min_string_length, 4);
    assert_eq!(config.signatures.len(), 1);
}

#[test]
fn driver_goes_from_idle_to_scanning_to_done() {
    let config = config(4, 4, 3);
    let mut driver = ScanDriver::new(&config).unwrap();
    assert_eq!(driver.current_state(), ScanState::Idle);
    assert!(driver.is_active());
    assert_eq!(driver.next_offset(), 0);

    let first = Window { offset: 0, data: b"ab%P" };
    assert!(driver.accepts(&first));
    let output = driver.feed(&first);
    assert_eq!(driver.current_state(), ScanState::Scanning);
    assert_eq!(driver.next_offset(), 4);
    assert_eq!(output.hex_lines, vec!["00000000  61 62 25 50  |ab%P|".to_string()]);
    assert!(output.runs.is_empty());
    assert!(output.signatures.is_empty());

    assert!(!driver.accepts(&Window { offset: 5, data: b"DF\x00" }));
    let second = Window { offset: 4, data: b"DF\x00" };
    assert!(driver.accepts(&second));
    let output = driver.feed(&second);
    assert_eq!(output.hex_lines, vec!["00000004  44 46 00     |DF.|".to_string()]);
    assert_eq!(
        output.runs,
        vec![Finding::PrintableRun { text: "ab%PDF".to_string(), offset: 0, length: 6 }]
    );
    assert_eq!(output.signatures, vec![Finding::Signature { name: "PDF".to_string(), offset: 2 }]);

    let third = Window { offset: 7, data: b"end" };
    let output = driver.feed(&third);
    assert!(output.runs.is_empty());
    let last = driver.finish();
    assert_eq!(last, vec![Finding::PrintableRun { text: "end".to_string(), offset: 7, length: 3 }]);
    assert_eq!(driver.current_state(), ScanState::Done);
    assert!(!driver.is_active());
    assert!(!driver.accepts(&Window { offset: 10, data: b"more" }));
}

#[test]
fn finish_drops_a_short_open_run() {
    let config = config(4, 4, 3);
    let mut driver = ScanDriver::new(&config).unwrap();
    driver.feed(&Window { offset: 0, data: b"\x00\x00ab" });
    assert!(driver.finish().is_empty());
}

#[test]
fn failed_scan_stays_failed() {
    let config = config(4, 4, 3);
    let mut driver = ScanDriver::new(&config).unwrap();
    driver.feed(&Window { offset: 0, data: b"abcd" });
    let error = driver.fail("disk gone".to_string());
    assert_eq!(error, ScanError::SourceUnavailable { cause: "disk gone".to_string() });
    assert_eq!(driver.current_state(), ScanState::Failed);
    assert!(!driver.is_active());
    assert!(!driver.accepts(&Window { offset: 4, data: b"efgh" }));
    driver.fail("again".to_string());
    assert_eq!(driver.current_state(), ScanState::Failed);
}

#[test]
fn done_scan_does_not_fail() {
    let config = config(4, 4, 3);
    let mut driver = ScanDriver::new(&config).unwrap();
    driver.finish();
    driver.fail("too late".to_string());
    assert_eq!(driver.current_state(), ScanState::Done);
}

#[test]
fn listing_restarts_with_each_window() {
    let config = config(6, 4, 4);
    let report = scan_source(b"0123456789", &config).unwrap();
    assert_eq!(
        report.hex_lines,
        vec![
            "00000000  30 31 32 33  |0123|".to_string(),
            "00000004  34 35        |45|".to_string(),
            "00000006  36 37 38 39  |6789|".to_string(),
        ]
    );
}

#[test]
fn long_run_is_reported_in_pieces_of_the_cap() {
    let mut config = config(5, 16, 2);
    config.max_run_length = 4;
    let report = scan_source(b"abcdefghij", &config).unwrap();
    let run = |text: &str, offset: usize| Finding::PrintableRun {
        text: text.to_string(),
        offset,
        length: text.len(),
    };
    assert_eq!(report.runs, vec![run("abcd", 0), run("efgh", 4), run("ij", 8)]);
}

#[test]
fn findings_describe_themselves() {
    let hit = Finding::Signature { name: "PNG".to_string(), offset: 500 };
    assert_eq!(hit.describe(), "Pattern 'PNG' found at 0x1F4");
    assert_eq!(hit.offset(), 500);
    let run = Finding::PrintableRun { text: "TEST".to_string(), offset: 20, length: 4 };
    assert_eq!(run.describe(), "ASCII String 'TEST' found at 0x14");
    assert_eq!(run.offset(), 20);
    let first = Finding::PrintableRun { text: "it's".to_string(), offset: 0, length: 4 };
    assert_eq!(first.describe(), "ASCII String 'it's' found at 0x0");
    let far = Finding::Signature { name: "ZIP".to_string(), offset: 0xABCDEF012 };
    assert_eq!(far.describe(), "Pattern 'ZIP' found at 0xABCDEF012");
}
