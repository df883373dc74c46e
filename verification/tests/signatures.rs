use dumpscan::error::{ConfigFault, ScanError};
use dumpscan::finding::Finding;
use dumpscan::signature::{detect_patterns, Signature, SignatureMatcher};
use dumpscan::window::Window;

fn signature(name: &str, bytes: &[u8]) -> Signature {
    Signature { name: name.to_string(), bytes: bytes.to_vec() }
}

fn hit(name: &str, offset: usize) -> Finding {
    Finding::Signature { name: name.to_string(), offset }
}

fn pair(name: &str, offset: usize) -> (String, usize) {
    (name.to_string(), offset)
}

#[test]
fn overlapping_occurrences_are_all_reported() {
    let found = detect_patterns(b"AAA", 0, &[signature("PAIR", b"AA")]).unwrap();
    assert_eq!(found, vec![pair("PAIR", 0), pair("PAIR", 1)]);
}

#[test]
fn offsets_are_absolute() {
    let found = detect_patterns(b"..%PDF..", 0x1000, &[signature("PDF", b"%PDF")]).unwrap();
    assert_eq!(found, vec![pair("PDF", 0x1002)]);
}

#[test]
fn same_bytes_under_two_names_are_both_reported() {
    let patterns = [signature("ZIP", b"PK"), signature("JAR", b"PK")];
    let found = detect_patterns(b"xPKxxPK", 0, &patterns).unwrap();
    assert_eq!(found, vec![pair("ZIP", 1), pair("JAR", 1), pair("ZIP", 5), pair("JAR", 5)]);
}

#[test]
fn findings_come_by_offset_then_declaration_order() {
    let patterns = [signature("C", b"c"), signature("AB", b"ab"), signature("A", b"a")];
    let found = detect_patterns(b"abcab", 10, &patterns).unwrap();
    assert_eq!(
        found,
        vec![pair("AB", 10), pair("A", 10), pair("C", 12), pair("AB", 13), pair("A", 13)]
    );
}

#[test]
fn pattern_not_present() {
    let found = detect_patterns(b"nothing to see", 0, &[signature("PNG", &[0x89, 0x50])]).unwrap();
    assert!(found.is_empty());
}

#[test]
fn pattern_longer_than_the_chunk() {
    let found = detect_patterns(b"%P", 0, &[signature("PDF", b"%PDF")]).unwrap();
    assert!(found.is_empty());
}

#[test]
fn no_patterns() {
    assert_eq!(detect_patterns(b"%PDF", 0, &[]).unwrap(), Vec::<(String, usize)>::new());
}

#[test]
fn empty_pattern_is_refused_with_its_place() {
    let patterns = [signature("PDF", b"%PDF"), signature("NONE", b""), signature("ALSO", b"")];
    assert_eq!(
        detect_patterns(b"%PDF", 0, &patterns),
        Err(ScanError::InvalidConfiguration(ConfigFault::EmptySignature(1)))
    );
    assert!(SignatureMatcher::new(&patterns).is_err());
}

#[test]
fn carry_is_one_less_than_the_longest_signature() {
    let patterns = [signature("PDF", b"%PDF"), signature("LONG", b"123456"), signature("S", b"x")];
    let matcher = SignatureMatcher::new(&patterns).unwrap();
    assert_eq!(matcher.carry_len(), 5);
    let none: [Signature; 0] = [];
    assert_eq!(SignatureMatcher::new(&none).unwrap().carry_len(), 0);
}

#[test]
fn matcher_threads_the_carry() {
    let patterns = [signature("PDF", b"%PDF")];
    let matcher = SignatureMatcher::new(&patterns).unwrap();
    let (first, carry) = matcher.scan(&Window { offset: 0, data: b"ab%P" }, &[]);
    assert!(first.is_empty());
    assert_eq!(carry, b"b%P".to_vec());
    let (second, carry) = matcher.scan(&Window { offset: 4, data: b"DF%P" }, &carry);
    assert_eq!(second, vec![hit("PDF", 2)]);
    assert_eq!(carry, b"F%P".to_vec());
    let (third, carry) = matcher.scan(&Window { offset: 8, data: b"D" }, &carry);
    assert!(third.is_empty());
    assert_eq!(carry, b"%PD".to_vec());
}

#[test]
fn occurrence_inside_the_carry_is_not_reported_again() {
    let patterns = [signature("AB", b"AB"), signature("ABCD", b"ABCD")];
    let matcher = SignatureMatcher::new(&patterns).unwrap();
    let (first, carry) = matcher.scan(&Window { offset: 0, data: b"xxAB" }, &[]);
    assert_eq!(first, vec![hit("AB", 2)]);
    assert_eq!(carry, b"xAB".to_vec());
    let (second, _) = matcher.scan(&Window { offset: 4, data: b"CDAB" }, &carry);
    assert_eq!(second, vec![hit("ABCD", 2), hit("AB", 6)]);
}

#[test]
fn short_window_keeps_the_older_carry() {
    let patterns = [signature("LONG", b"abcdef")];
    let matcher = SignatureMatcher::new(&patterns).unwrap();
    let (_, carry) = matcher.scan(&Window { offset: 0, data: b"..abc" }, &[]);
    assert_eq!(carry, b"..abc".to_vec());
    let (found, carry) = matcher.scan(&Window { offset: 5, data: b"d" }, &carry);
    assert!(found.is_empty());
    assert_eq!(carry, b".abcd".to_vec());
    let (found, carry) = matcher.scan(&Window { offset: 6, data: b"e" }, &carry);
    assert!(found.is_empty());
    let (found, _) = matcher.scan(&Window { offset: 7, data: b"f" }, &carry);
    assert_eq!(found, vec![hit("LONG", 2)]);
}

#[test]
fn carry_that_is_too_short_misses_a_crossing_occurrence() {
    let patterns = [signature("PDF", b"%PDF")];
    let matcher = SignatureMatcher::new(&patterns).unwrap();
    let window = Window { offset: 3, data: b"F.." };
    let (found, _) = matcher.scan(&window, b"PD");
    assert!(found.is_empty());
    let (found, _) = matcher.scan(&window, b"%PD");
    assert_eq!(found, vec![hit("PDF", 0)]);
}
