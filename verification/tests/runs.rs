use dumpscan::error::{ConfigFault, ScanError};
use dumpscan::finding::Finding;
use dumpscan::printable::{find_ascii_strings, is_printable_byte, OpenRun, PrintableRunExtractor};
use dumpscan::window::Window;

fn run(text: &str, offset: usize) -> Finding {
    Finding::PrintableRun { text: text.to_string(), offset, length: text.len() }
}

fn pair(text: &str, offset: usize) -> (String, usize) {
    (text.to_string(), offset)
}

#[test]
fn printable_is_graphic_or_space() {
    assert!(is_printable_byte(b' '));
    assert!(is_printable_byte(b'~'));
    assert!(is_printable_byte(b'0'));
    assert!(!is_printable_byte(0x1f));
    assert!(!is_printable_byte(0x7f));
    assert!(!is_printable_byte(0x80));
    assert!(!is_printable_byte(0xff));
    assert!(!is_printable_byte(b'\n'));
}

#[test]
fn strings_with_their_offsets() {
    let found = find_ascii_strings(b"\x00\x01hello\x02ab\x03world wide\xff", 0x100, 4);
    assert_eq!(found, vec![pair("hello", 0x102), pair("world wide", 0x10b)]);
}

#[test]
fn string_at_the_end_is_flushed() {
    assert_eq!(find_ascii_strings(b"\x00tail", 0, 4), vec![pair("tail", 1)]);
    assert_eq!(find_ascii_strings(b"\x00end", 0, 4), Vec::<(String, usize)>::new());
}

#[test]
fn whole_chunk_is_one_string() {
    assert_eq!(find_ascii_strings(b"all of it", 7, 1), vec![pair("all of it", 7)]);
}

#[test]
fn high_bytes_end_a_run() {
    assert_eq!(
        find_ascii_strings(b"caf\xc3\xa9 noir", 0, 3),
        vec![pair("caf", 0), pair(" noir", 5)]
    );
}

#[test]
fn minimum_zero_reports_no_empty_string() {
    let zero = find_ascii_strings(b"\x00\x00a\x00", 0, 0);
    assert_eq!(zero, vec![pair("a", 2)]);
    assert_eq!(zero, find_ascii_strings(b"\x00\x00a\x00", 0, 1));
    assert!(find_ascii_strings(b"\x00\x00\x00", 0, 0).is_empty());
    assert!(find_ascii_strings(b"", 0, 0).is_empty());
}

#[test]
fn run_is_carried_across_windows() {
    let extractor = PrintableRunExtractor::new(4, 100).unwrap();
    let (first, open) = extractor.scan(&Window { offset: 0, data: b"\x00\x00TE" }, None);
    assert!(first.is_empty());
    assert_eq!(open, Some(OpenRun { bytes: b"TE".to_vec(), start: 2 }));
    let (second, open) = extractor.scan(&Window { offset: 4, data: b"ST\x00x" }, open);
    assert_eq!(second, vec![run("TEST", 2)]);
    assert_eq!(open, Some(OpenRun { bytes: b"x".to_vec(), start: 7 }));
    assert_eq!(extractor.finish(open), None);
}

#[test]
fn halves_that_are_too_short_alone_make_one_run() {
    let extractor = PrintableRunExtractor::new(4, 100).unwrap();
    let (first, open) = extractor.scan(&Window { offset: 10, data: b"ab" }, None);
    assert!(first.is_empty());
    let (second, open) = extractor.scan(&Window { offset: 12, data: b"cd" }, open);
    assert!(second.is_empty());
    assert_eq!(extractor.finish(open), Some(run("abcd", 10)));
}

#[test]
fn open_run_is_not_flushed_at_the_end_of_a_window() {
    let extractor = PrintableRunExtractor::new(2, 100).unwrap();
    let (found, open) = extractor.scan(&Window { offset: 0, data: b"long enough" }, None);
    assert!(found.is_empty());
    assert_eq!(open, Some(OpenRun { bytes: b"long enough".to_vec(), start: 0 }));
}

#[test]
fn run_at_the_cap_is_reported_and_a_new_one_starts() {
    let extractor = PrintableRunExtractor::new(2, 4).unwrap();
    let (found, open) = extractor.scan(&Window { offset: 0, data: b"abcdefghij\x00" }, None);
    assert_eq!(found, vec![run("abcd", 0), run("efgh", 4), run("ij", 8)]);
    assert_eq!(open, None);
    let (found, open) = extractor.scan(&Window { offset: 0, data: b"abcde" }, None);
    assert_eq!(found, vec![run("abcd", 0)]);
    assert_eq!(open, Some(OpenRun { bytes: b"e".to_vec(), start: 4 }));
    assert_eq!(extractor.finish(open), None);
}

#[test]
fn cap_splits_the_same_way_across_windows() {
    let extractor = PrintableRunExtractor::new(1, 3).unwrap();
    let (first, open) = extractor.scan(&Window { offset: 0, data: b"ab" }, None);
    assert!(first.is_empty());
    let (second, open) = extractor.scan(&Window { offset: 2, data: b"cdefg" }, open);
    assert_eq!(second, vec![run("abc", 0), run("def", 3)]);
    assert_eq!(extractor.finish(open), Some(run("g", 6)));
}

#[test]
fn cap_below_the_minimum_is_refused() {
    assert_eq!(
        PrintableRunExtractor::new(5, 4).err(),
        Some(ScanError::InvalidConfiguration(ConfigFault::RunLimitBelowMinimum))
    );
    assert_eq!(
        PrintableRunExtractor::new(0, 0).err(),
        Some(ScanError::InvalidConfiguration(ConfigFault::RunLimitBelowMinimum))
    );
    assert!(PrintableRunExtractor::new(0, 1).is_ok());
    assert!(PrintableRunExtractor::new(4, 4).is_ok());
}

#[test]
fn unbounded_extractor_never_splits() {
    let extractor = PrintableRunExtractor::unbounded(0);
    let long = vec![b'x'; 5000];
    let (found, open) = extractor.scan(&Window { offset: 0, data: &long }, None);
    assert!(found.is_empty());
    let last = extractor.finish(open).unwrap();
    assert_eq!(last.offset(), 0);
    assert_eq!(
        last,
        Finding::PrintableRun { text: "x".repeat(5000), offset: 0, length: 5000 }
    );
}
