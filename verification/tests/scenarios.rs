use dumpscan::driver::{scan_source, ScanConfig, ScanReport};
use dumpscan::finding::Finding;
use dumpscan::signature::Signature;

fn signature(name: &str, bytes: &[u8]) -> Signature {
    Signature { name: name.to_string(), bytes: bytes.to_vec() }
}

fn formats() -> Vec<Signature> {
    vec![
        signature("PDF", b"%PDF"),
        signature("JPEG", &[0xFF, 0xD8, 0xFF, 0xE0]),
        signature("ZIP", &[0x50, 0x4B, 0x03, 0x04]),
        signature("PNG", &[0x89, 0x50, 0x4E, 0x47]),
    ]
}

fn scan(source: &[u8], window_size: usize, min: usize, signatures: Vec<Signature>) -> ScanReport {
    let config = ScanConfig::new(window_size, 16, min, signatures);
    scan_source(source, &config).unwrap()
}

fn hit(name: &str, offset: usize) -> Finding {
    Finding::Signature { name: name.to_string(), offset }
}

fn run(text: &str, offset: usize) -> Finding {
    Finding::PrintableRun { text: text.to_string(), offset, length: text.len() }
}

fn sorted(findings: &[Finding]) -> Vec<(usize, String)> {
    let mut keys: Vec<(usize, String)> = findings
        .iter()
        .map(|f| match f {
            Finding::Signature { name, offset } => (*offset, name.clone()),
            Finding::PrintableRun { text, offset, .. } => (*offset, text.clone()),
        })
        .collect();
    keys.sort();
    keys
}

/// A source with text and signatures spread over it, some of them close together.
fn sample() -> Vec<u8> {
    let mut source: Vec<u8> = Vec::new();
    for i in 0..300usize {
        source.push((i % 7) as u8);
    }
    source[5..9].copy_from_slice(b"%PDF");
    source[9..13].copy_from_slice(b"%PDF");
    source[62..66].copy_from_slice(&[0x89, 0x50, 0x4E, 0x47]);
    source[127..131].copy_from_slice(&[0x50, 0x4B, 0x03, 0x04]);
    source[200..216].copy_from_slice(b"forensic triage!");
    source[255..259].copy_from_slice(&[0xFF, 0xD8, 0xFF, 0xE0]);
    source[296..300].copy_from_slice(b"tail");
    source
}

#[test]
fn signature_across_window_boundary_is_found() {
    let mut source: Vec<u8> = vec![0, 0];
    source.extend_from_slice(b"AA");
    source.extend_from_slice(b"AA");
    source.extend_from_slice(&[0, 0]);
    let report = scan(&source, 4, 4, vec![signature("QUAD", b"AAAA")]);
    assert_eq!(report.signatures, vec![hit("QUAD", 2)]);
}

#[test]
fn single_text_between_zero_bytes() {
    let mut source: Vec<u8> = vec![0u8; 20];
    source.extend_from_slice(b"TEST");
    source.extend_from_slice(&[0u8; 10]);
    let report = scan(&source, 1024, 4, formats());
    assert_eq!(
        report.runs,
        vec![Finding::PrintableRun { text: "TEST".to_string(), offset: 20, length: 4 }]
    );
    assert!(report.signatures.is_empty());
}

#[test]
fn single_text_is_found_whatever_the_window_size() {
    let mut source: Vec<u8> = vec![0u8; 20];
    source.extend_from_slice(b"TEST");
    source.extend_from_slice(&[0u8; 10]);
    for window_size in 1..40usize {
        let report = scan(&source, window_size, 4, Vec::new());
        assert_eq!(report.runs, vec![run("TEST", 20)], "window size {}", window_size);
    }
}

#[test]
fn pdf_then_png_in_one_window() {
    let mut source: Vec<u8> = vec![0u8; 1024];
    source[100..104].copy_from_slice(b"%PDF");
    source[500..504].copy_from_slice(&[0x89, 0x50, 0x4E, 0x47]);
    let report = scan(&source, 1024, 4, formats());
    assert_eq!(report.signatures, vec![hit("PDF", 100), hit("PNG", 500)]);
}

#[test]
fn pdf_then_png_in_a_longer_source() {
    let mut source: Vec<u8> = vec![0u8; 3000];
    source[100..104].copy_from_slice(b"%PDF");
    source[500..504].copy_from_slice(&[0x89, 0x50, 0x4E, 0x47]);
    let report = scan(&source, 1024, 4, formats());
    assert_eq!(report.signatures, vec![hit("PDF", 100), hit("PNG", 500)]);
}

#[test]
fn minimum_zero_is_minimum_one() {
    let source = b"\x00a\x00\x00bc\x01 \x7f~".to_vec();
    let zero = scan(&source, 3, 0, Vec::new());
    let one = scan(&source, 3, 1, Vec::new());
    assert_eq!(zero, one);
    assert_eq!(zero.runs, vec![run("a", 1), run("bc", 4), run(" ", 7), run("~", 9)]);
}

#[test]
fn empty_source_gives_empty_report() {
    let report = scan(&[], 1024, 4, formats());
    assert!(report.hex_lines.is_empty());
    assert!(report.runs.is_empty());
    assert!(report.signatures.is_empty());
}

#[test]
fn signatures_do_not_depend_on_window_size() {
    let source = sample();
    let whole = sorted(&scan(&source, 4096, 4, formats()).signatures);
    assert_eq!(
        whole,
        vec![
            (5, "PDF".to_string()),
            (9, "PDF".to_string()),
            (62, "PNG".to_string()),
            (127, "ZIP".to_string()),
            (255, "JPEG".to_string()),
        ]
    );
    for window_size in 1..70usize {
        let report = scan(&source, window_size, 4, formats());
        assert_eq!(sorted(&report.signatures), whole, "window size {}", window_size);
    }
}

#[test]
fn runs_do_not_depend_on_window_size() {
    let source = sample();
    let whole = scan(&source, 4096, 4, formats()).runs;
    assert_eq!(
        whole,
        vec![run("%PDF%PDF", 5), run("forensic triage!", 200), run("tail", 296)]
    );
    for window_size in 1..70usize {
        let report = scan(&source, window_size, 4, formats());
        assert_eq!(report.runs, whole, "window size {}", window_size);
    }
}

#[test]
fn scanning_twice_gives_the_same_report() {
    let source = sample();
    let first = scan(&source, 64, 4, formats());
    let second = scan(&source, 64, 4, formats());
    assert_eq!(first, second);
    assert_eq!(first.hex_lines, second.hex_lines);
}

#[test]
fn findings_can_be_read_back_from_the_source() {
    let source = sample();
    let signatures = formats();
    let report = scan(&source, 10, 2, formats());
    assert!(!report.runs.is_empty());
    assert!(!report.signatures.is_empty());
    for finding in report.runs.iter() {
        match finding {
            Finding::PrintableRun { text, offset, length } => {
                assert_eq!(text.as_bytes(), &source[*offset..*offset + *length]);
            }
            Finding::Signature { .. } => panic!("a signature among the runs"),
        }
    }
    for finding in report.signatures.iter() {
        match finding {
            Finding::Signature { name, offset } => {
                let signature = signatures.iter().find(|s| &s.name == name).unwrap();
                assert_eq!(
                    &source[*offset..*offset + signature.bytes.len()],
                    signature.bytes.as_slice()
                );
            }
            Finding::PrintableRun { .. } => panic!("a run among the signatures"),
        }
    }
}

#[test]
fn signature_longer_than_the_window_is_found_through_the_carry() {
    let mut source: Vec<u8> = vec![1u8; 9];
    source[3..7].copy_from_slice(&[0x89, 0x50, 0x4E, 0x47]);
    for window_size in 1..4usize {
        let report = scan(&source, window_size, 4, formats());
        assert_eq!(report.signatures, vec![hit("PNG", 3)], "window size {}", window_size);
    }
}

#[test]
fn no_signatures_means_no_findings() {
    let report = scan(b"%PDF-1.7", 3, 4, Vec::new());
    assert!(report.signatures.is_empty());
    assert_eq!(report.runs, vec![run("%PDF-1.7", 0)]);
}

#[test]
fn short_signature_in_front_of_a_long_one_that_crosses() {
    let signatures = vec![signature("LONG", b"ABCD"), signature("SHORT", b"BC")];
    let report = scan(b"ABCD", 3, 4, signatures.clone());
    assert_eq!(report.signatures, vec![hit("SHORT", 1), hit("LONG", 0)]);
    let whole = scan(b"ABCD", 8, 4, signatures);
    assert_eq!(whole.signatures, vec![hit("LONG", 0), hit("SHORT", 1)]);
}
