//! What holds of every scan, proved from the definitions that the contracts use.
use vstd::prelude::*;
use vstd::seq_lib::lemma_no_dup_in_concat;
use crate::driver::{
    expected_report, stream_matches, stream_runs, ScanConfig, ScanReport, ScanReportView,
};
use crate::finding::FindingView;
use crate::printable::{
    all_printable, all_runs, closed_by, effective_min, flushed, is_printable,
    lemma_open_start_bound, lemma_runs_prefix, lemma_runs_split, open_start, run_finding,
    runs_between,
};
use crate::signature::{
    all_nonempty, is_new_at, matches_at, matches_upto, occurrence_findings, occurs_at,
    Occurrence, SignatureView,
};
use crate::text::ascii_text;
use crate::window::{window_end, windows_from};

verus! {

/// An element of a concatenation is an element of one of its parts.
proof fn lemma_contains_concat<A>(a: Seq<A>, b: Seq<A>, x: A)
    ensures
        (a + b).contains(x) <==> a.contains(x) || b.contains(x),
{
    if a.contains(x) {
        let i = choose|i: int| 0 <= i < a.len() && a[i] == x;
        assert((a + b)[i] == x);
    }
    if b.contains(x) {
        let i = choose|i: int| 0 <= i < b.len() && b[i] == x;
        assert((a + b)[a.len() + i] == x);
    }
    if (a + b).contains(x) {
        let i = choose|i: int| 0 <= i < (a + b).len() && (a + b)[i] == x;
        if i < a.len() {
            assert(a[i] == x);
        } else {
            assert(b[i - a.len()] == x);
        }
    }
}

/// `hit` is among the occurrences reported at `pos` exactly where it names one of
/// the first `k` signatures, which stands anew at `pos`.
pub proof fn lemma_matches_at_contains(
    text: Seq<u8>,
    signatures: Seq<SignatureView>,
    base: int,
    seen: int,
    pos: int,
    k: int,
    hit: Occurrence,
)
    requires
        0 <= k <= signatures.len(),
    ensures
        matches_at(text, signatures, base, seen, pos, k).contains(hit) <==> {
            &&& 0 <= hit.index < k
            &&& hit.offset == base + pos
            &&& is_new_at(text, signatures[hit.index].bytes, seen, pos)
        },
    decreases k,
{
    if k > 0 {
        lemma_matches_at_contains(text, signatures, base, seen, pos, k - 1, hit);
        let earlier = matches_at(text, signatures, base, seen, pos, k - 1);
        if is_new_at(text, signatures[k - 1].bytes, seen, pos) {
            let last = Occurrence { index: k - 1, offset: base + pos };
            assert(earlier.push(last) =~= earlier + seq![last]);
            lemma_contains_concat(earlier, seq![last], hit);
            assert(seq![last].contains(hit) <==> hit == last) by {
                if hit == last {
                    assert(seq![last][0] == hit);
                }
            }
        }
    }
}

/// `hit` is among the occurrences reported below position `n` exactly where it
/// names a signature that stands anew at its offset, and that offset lies below
/// `n`.
pub proof fn lemma_matches_upto_contains(
    text: Seq<u8>,
    signatures: Seq<SignatureView>,
    base: int,
    seen: int,
    n: int,
    hit: Occurrence,
)
    requires
        0 <= n,
    ensures
        matches_upto(text, signatures, base, seen, n).contains(hit) <==> {
            &&& 0 <= hit.index < signatures.len()
            &&& 0 <= hit.offset - base < n
            &&& is_new_at(text, signatures[hit.index].bytes, seen, hit.offset - base)
        },
    decreases n,
{
    if n > 0 {
        lemma_matches_upto_contains(text, signatures, base, seen, n - 1, hit);
        lemma_matches_at_contains(
            text,
            signatures,
            base,
            seen,
            n - 1,
            signatures.len() as int,
            hit,
        );
        lemma_contains_concat(
            matches_upto(text, signatures, base, seen, n - 1),
            matches_at(text, signatures, base, seen, n - 1, signatures.len() as int),
            hit,
        );
    }
}

/// An empty list of signatures finds nothing.
pub proof fn lemma_no_signatures_no_matches(text: Seq<u8>, base: int, seen: int, n: int)
    ensures
        matches_upto(text, Seq::<SignatureView>::empty(), base, seen, n) == Seq::<
            Occurrence,
        >::empty(),
    decreases n,
{
    if n > 0 {
        lemma_no_signatures_no_matches(text, base, seen, n - 1);
    }
}

/// `a` comes before `b`: at a lower offset, or at the same offset and earlier in
/// the declaration order.
pub open spec fn precedes(a: Occurrence, b: Occurrence) -> bool {
    a.offset < b.offset || (a.offset == b.offset && a.index < b.index)
}

/// Every element of `hits` comes before each later one.
pub open spec fn strictly_ordered(hits: Seq<Occurrence>) -> bool {
    forall|i: int, j: int| 0 <= i < j < hits.len() ==> precedes(#[trigger] hits[i], #[trigger] hits[j])
}

proof fn lemma_matches_at_ordered(
    text: Seq<u8>,
    signatures: Seq<SignatureView>,
    base: int,
    seen: int,
    pos: int,
    k: int,
)
    requires
        0 <= k <= signatures.len(),
    ensures
        strictly_ordered(matches_at(text, signatures, base, seen, pos, k)),
    decreases k,
{
    if k > 0 {
        lemma_matches_at_ordered(text, signatures, base, seen, pos, k - 1);
        let earlier = matches_at(text, signatures, base, seen, pos, k - 1);
        let all = matches_at(text, signatures, base, seen, pos, k);
        assert forall|i: int, j: int| 0 <= i < j < all.len() implies precedes(
            #[trigger] all[i],
            #[trigger] all[j],
        ) by {
            if j == earlier.len() {
                assert(earlier.contains(earlier[i]));
                lemma_matches_at_contains(text, signatures, base, seen, pos, k - 1, earlier[i]);
            }
        }
    }
}

/// Ordering and tie-break: what one search reports comes by ascending offset, and
/// at one offset in the declaration order of the signatures.
pub proof fn lemma_matches_upto_ordered(
    text: Seq<u8>,
    signatures: Seq<SignatureView>,
    base: int,
    seen: int,
    n: int,
)
    requires
        0 <= n,
    ensures
        strictly_ordered(matches_upto(text, signatures, base, seen, n)),
    decreases n,
{
    if n > 0 {
        lemma_matches_upto_ordered(text, signatures, base, seen, n - 1);
        lemma_matches_at_ordered(text, signatures, base, seen, n - 1, signatures.len() as int);
        let earlier = matches_upto(text, signatures, base, seen, n - 1);
        let here = matches_at(text, signatures, base, seen, n - 1, signatures.len() as int);
        let all = matches_upto(text, signatures, base, seen, n);
        assert forall|i: int, j: int| 0 <= i < j < all.len() implies precedes(
            #[trigger] all[i],
            #[trigger] all[j],
        ) by {
            if i < earlier.len() && j >= earlier.len() {
                assert(earlier.contains(earlier[i]));
                lemma_matches_upto_contains(text, signatures, base, seen, n - 1, earlier[i]);
                let at = here[j - earlier.len()];
                assert(here.contains(at));
                lemma_matches_at_contains(
                    text,
                    signatures,
                    base,
                    seen,
                    n - 1,
                    signatures.len() as int,
                    at,
                );
            } else if i >= earlier.len() {
                assert(all[i] == here[i - earlier.len()]);
                assert(all[j] == here[j - earlier.len()]);
            }
        }
    }
}

/// A strictly ordered list holds nothing twice.
proof fn lemma_ordered_no_duplicates(hits: Seq<Occurrence>)
    requires
        strictly_ordered(hits),
    ensures
        hits.no_duplicates(),
{
    assert forall|i: int, j: int| 0 <= i < hits.len() && 0 <= j < hits.len() && i != j implies hits[i]
        != hits[j] by {
        if i < j {
            assert(precedes(hits[i], hits[j]));
        } else {
            assert(precedes(hits[j], hits[i]));
        }
    }
}

/// A signature stands in the first `end` bytes exactly where it stands in the whole
/// text and ends at or before `end`.
proof fn lemma_occurs_take(text: Seq<u8>, needle: Seq<u8>, end: int, pos: int)
    requires
        0 <= end <= text.len(),
    ensures
        occurs_at(text.take(end), needle, pos) <==> occurs_at(text, needle, pos) && pos
            + needle.len() <= end,
{
    if 0 <= pos && pos + needle.len() <= end {
        assert(text.take(end).subrange(pos, pos + needle.len()) =~= text.subrange(
            pos,
            pos + needle.len(),
        ));
    }
}

/// Nothing missed, nothing invented: a scan in windows reports, from the window at
/// `pos` on, exactly the occurrences in the source that end behind `pos`.
pub proof fn lemma_stream_matches_contains(
    source: Seq<u8>,
    signatures: Seq<SignatureView>,
    window_size: nat,
    pos: int,
    hit: Occurrence,
)
    requires
        window_size > 0,
        0 <= pos <= source.len(),
        all_nonempty(signatures),
    ensures
        stream_matches(source, signatures, window_size, pos).contains(hit) <==> {
            &&& 0 <= hit.index < signatures.len()
            &&& occurs_at(source, signatures[hit.index].bytes, hit.offset)
            &&& hit.offset + signatures[hit.index].bytes.len() > pos
        },
    decreases source.len() - pos,
{
    if pos < source.len() {
        let end = window_end(source.len(), window_size, pos as nat) as int;
        let here = matches_upto(source.take(end), signatures, 0, pos, end);
        let rest = stream_matches(source, signatures, window_size, end);
        lemma_stream_matches_contains(source, signatures, window_size, end, hit);
        lemma_matches_upto_contains(source.take(end), signatures, 0, pos, end, hit);
        lemma_contains_concat(here, rest, hit);
        if 0 <= hit.index < signatures.len() {
            lemma_occurs_take(source, signatures[hit.index].bytes, end, hit.offset);
        }
    }
}

/// No double report: a scan in windows reports no occurrence twice.
pub proof fn lemma_stream_matches_no_duplicates(
    source: Seq<u8>,
    signatures: Seq<SignatureView>,
    window_size: nat,
    pos: int,
)
    requires
        window_size > 0,
        0 <= pos <= source.len(),
        all_nonempty(signatures),
    ensures
        stream_matches(source, signatures, window_size, pos).no_duplicates(),
    decreases source.len() - pos,
{
    if pos < source.len() {
        let end = window_end(source.len(), window_size, pos as nat) as int;
        let here = matches_upto(source.take(end), signatures, 0, pos, end);
        let rest = stream_matches(source, signatures, window_size, end);
        lemma_stream_matches_no_duplicates(source, signatures, window_size, end);
        lemma_matches_upto_ordered(source.take(end), signatures, 0, pos, end);
        lemma_ordered_no_duplicates(here);
        assert forall|i: int, j: int| 0 <= i < here.len() && 0 <= j < rest.len() implies here[i]
            != rest[j] by {
            assert(here.contains(here[i]));
            assert(rest.contains(rest[j]));
            lemma_matches_upto_contains(source.take(end), signatures, 0, pos, end, here[i]);
            lemma_stream_matches_contains(source, signatures, window_size, end, rest[j]);
            lemma_occurs_take(source, signatures[here[i].index].bytes, end, here[i].offset);
        }
        lemma_no_dup_in_concat(here, rest);
    }
}

/// Window-size independence of the signature search: whatever the window size, a
/// scan reports the same set of occurrences, namely every place at which a
/// signature stands in the source, each once.
pub proof fn lemma_signatures_window_independent(
    source: Seq<u8>,
    signatures: Seq<SignatureView>,
    first_size: nat,
    second_size: nat,
)
    requires
        first_size > 0,
        second_size > 0,
        all_nonempty(signatures),
    ensures
        stream_matches(source, signatures, first_size, 0).to_set() == stream_matches(
            source,
            signatures,
            second_size,
            0,
        ).to_set(),
        occurrence_findings(signatures, stream_matches(source, signatures, first_size, 0)).to_set()
            == occurrence_findings(
            signatures,
            stream_matches(source, signatures, second_size, 0),
        ).to_set(),
        stream_matches(source, signatures, first_size, 0).no_duplicates(),
        stream_matches(source, signatures, second_size, 0).no_duplicates(),
{
    let a = stream_matches(source, signatures, first_size, 0);
    let b = stream_matches(source, signatures, second_size, 0);
    assert forall|hit: Occurrence| a.contains(hit) <==> b.contains(hit) by {
        lemma_stream_matches_contains(source, signatures, first_size, 0, hit);
        lemma_stream_matches_contains(source, signatures, second_size, 0, hit);
    }
    assert(a.to_set() =~= b.to_set());
    lemma_findings_of_same_occurrences(signatures, a, b);
    lemma_findings_of_same_occurrences(signatures, b, a);
    assert(occurrence_findings(signatures, a).to_set() =~= occurrence_findings(
        signatures,
        b,
    ).to_set());
    lemma_stream_matches_no_duplicates(source, signatures, first_size, 0);
    lemma_stream_matches_no_duplicates(source, signatures, second_size, 0);
}

/// Where every occurrence of `a` is one of `b`, every finding of `a` is one of `b`.
proof fn lemma_findings_of_same_occurrences(
    signatures: Seq<SignatureView>,
    a: Seq<Occurrence>,
    b: Seq<Occurrence>,
)
    requires
        forall|hit: Occurrence| a.contains(hit) ==> b.contains(hit),
    ensures
        forall|finding: FindingView|
            occurrence_findings(signatures, a).contains(finding) ==> occurrence_findings(
                signatures,
                b,
            ).contains(finding),
{
    assert forall|finding: FindingView|
        occurrence_findings(signatures, a).contains(finding) implies occurrence_findings(
        signatures,
        b,
    ).contains(finding) by {
        let i = choose|i: int|
            0 <= i < a.len() && occurrence_findings(signatures, a)[i] == finding;
        assert(a.contains(a[i]));
        let j = choose|j: int| 0 <= j < b.len() && b[j] == a[i];
        assert(occurrence_findings(signatures, b)[j] == finding);
    }
}

/// Round trip for signatures: each occurrence that a scan reports names a
/// signature of the list, and the source holds that signature's bytes at the
/// reported offset.
pub proof fn lemma_signature_findings_verifiable(
    source: Seq<u8>,
    signatures: Seq<SignatureView>,
    window_size: nat,
    i: int,
)
    requires
        window_size > 0,
        all_nonempty(signatures),
        0 <= i < stream_matches(source, signatures, window_size, 0).len(),
    ensures
        ({
            let hit = stream_matches(source, signatures, window_size, 0)[i];
            &&& 0 <= hit.index < signatures.len()
            &&& 0 <= hit.offset
            &&& hit.offset + signatures[hit.index].bytes.len() <= source.len()
            &&& source.subrange(hit.offset, hit.offset + signatures[hit.index].bytes.len())
                == signatures[hit.index].bytes
        }),
{
    let all = stream_matches(source, signatures, window_size, 0);
    assert(all.contains(all[i]));
    lemma_stream_matches_contains(source, signatures, window_size, 0, all[i]);
}

/// Boundary-crossing correctness of the run extractor: whatever the window size, a
/// scan reports the runs of the whole source, in the same order.
pub proof fn lemma_stream_runs_from(
    source: Seq<u8>,
    min_length: nat,
    cap: nat,
    window_size: nat,
    pos: int,
)
    requires
        window_size > 0,
        0 <= pos <= source.len(),
    ensures
        runs_between(source, 0, min_length, cap, 0, pos) + stream_runs(
            source,
            min_length,
            cap,
            window_size,
            pos,
        ) == all_runs(source, 0, min_length, cap),
    decreases source.len() - pos,
{
    if pos < source.len() {
        let end = window_end(source.len(), window_size, pos as nat) as int;
        lemma_stream_runs_from(source, min_length, cap, window_size, end);
        assert(source.take(end).take(end) =~= source.take(end));
        lemma_runs_prefix(source.take(end), source, 0, min_length, cap, pos, end);
        lemma_runs_split(source, 0, min_length, cap, 0, pos, end);
        assert(runs_between(source, 0, min_length, cap, 0, pos) + (runs_between(
            source,
            0,
            min_length,
            cap,
            pos,
            end,
        ) + stream_runs(source, min_length, cap, window_size, end)) =~= runs_between(
            source,
            0,
            min_length,
            cap,
            0,
            end,
        ) + stream_runs(source, min_length, cap, window_size, end));
    }
}

/// Window-size independence of the run extractor: two scans of one source with
/// different window sizes report the same runs.
pub proof fn lemma_runs_window_independent(
    source: Seq<u8>,
    min_length: nat,
    cap: nat,
    first_size: nat,
    second_size: nat,
)
    requires
        first_size > 0,
        second_size > 0,
    ensures
        stream_runs(source, min_length, cap, first_size, 0) == stream_runs(
            source,
            min_length,
            cap,
            second_size,
            0,
        ),
        stream_runs(source, min_length, cap, first_size, 0) == all_runs(
            source,
            0,
            min_length,
            cap,
        ),
{
    lemma_stream_runs_from(source, min_length, cap, first_size, 0);
    lemma_stream_runs_from(source, min_length, cap, second_size, 0);
    assert(runs_between(source, 0, min_length, cap, 0, 0) + stream_runs(
        source,
        min_length,
        cap,
        first_size,
        0,
    ) =~= stream_runs(source, min_length, cap, first_size, 0));
    assert(runs_between(source, 0, min_length, cap, 0, 0) + stream_runs(
        source,
        min_length,
        cap,
        second_size,
        0,
    ) =~= stream_runs(source, min_length, cap, second_size, 0));
}

/// A scan is a function of the source and the configuration: two reports of the
/// same scan are equal, channel by channel and byte for byte.
pub proof fn lemma_scan_repeatable(
    first: ScanReport,
    second: ScanReport,
    source: Seq<u8>,
    config: &ScanConfig,
)
    requires
        first@ == expected_report(source, config),
        second@ == expected_report(source, config),
    ensures
        first@ == second@,
{
}

/// A minimum length of zero is a minimum length of one: both give the same runs,
/// none of them empty.
pub proof fn lemma_zero_minimum_is_one(source: Seq<u8>, base: int, cap: nat)
    ensures
        all_runs(source, base, 0, cap) == all_runs(source, base, 1, cap),
{
    lemma_same_minimum(source, base, 0, 1, cap, source.len() as int);
}

proof fn lemma_same_minimum(source: Seq<u8>, base: int, a: nat, b: nat, cap: nat, to: int)
    requires
        effective_min(a) == effective_min(b),
    ensures
        runs_between(source, base, a, cap, 0, to) == runs_between(source, base, b, cap, 0, to),
    decreases to,
{
    if to > 0 {
        lemma_same_minimum(source, base, a, b, cap, to - 1);
    }
}

/// An empty source has no window and gives an empty report on every channel.
pub proof fn lemma_empty_source(config: &ScanConfig)
    ensures
        expected_report(Seq::<u8>::empty(), config) == (ScanReportView {
            hex_lines: Seq::empty(),
            runs: Seq::empty(),
            signatures: Seq::empty(),
        }),
{
    let source = Seq::<u8>::empty();
    let report = expected_report(source, config);
    assert(report.hex_lines =~= Seq::<Seq<char>>::empty());
    assert(report.runs =~= Seq::<FindingView>::empty());
    assert(report.signatures =~= Seq::<FindingView>::empty());
}

/// The windows cover the source without gap or overlap: put end to end, the windows
/// from position `pos` on are the source from `pos` on.
pub proof fn lemma_windows_cover(source: Seq<u8>, window_size: nat, pos: int)
    requires
        window_size > 0,
        0 <= pos <= source.len(),
    ensures
        windows_from(source, window_size, pos).flatten() == source.skip(pos),
    decreases source.len() - pos,
{
    let windows = windows_from(source, window_size, pos);
    if pos < source.len() {
        let end = window_end(source.len(), window_size, pos as nat) as int;
        let rest = windows_from(source, window_size, end);
        lemma_windows_cover(source, window_size, end);
        assert(windows.drop_first() =~= rest);
        assert(windows.flatten() =~= source.subrange(pos, end) + rest.flatten());
        assert(source.subrange(pos, end) + source.skip(end) =~= source.skip(pos));
    } else {
        assert(windows.flatten() =~= source.skip(pos));
    }
}

/// Every window but the last holds `window_size` bytes, and the last holds what is
/// left: at least one byte and at most `window_size`.  So a source of `n` windows
/// behind `pos` has more than `(n - 1) * window_size` bytes there and at most
/// `n * window_size`.
pub proof fn lemma_window_lengths(source: Seq<u8>, window_size: nat, pos: int)
    requires
        window_size > 0,
        0 <= pos <= source.len(),
    ensures
        ({
            let windows = windows_from(source, window_size, pos);
            let n = windows.len() as int;
            &&& forall|i: int| 0 <= i < n - 1 ==> (#[trigger] windows[i]).len() == window_size
            &&& n > 0 ==> 0 < windows[n - 1].len() <= window_size
            &&& n > 0 ==> windows[n - 1].len() == source.len() - pos - (n - 1) * window_size
            &&& n == 0 <==> pos == source.len()
        }),
    decreases source.len() - pos,
{
    let windows = windows_from(source, window_size, pos);
    let n = windows.len() as int;
    if pos < source.len() {
        let end = window_end(source.len(), window_size, pos as nat) as int;
        let rest = windows_from(source, window_size, end);
        lemma_window_lengths(source, window_size, end);
        assert(windows.drop_first() =~= rest);
        assert forall|i: int| 0 <= i < n - 1 implies (#[trigger] windows[i]).len()
            == window_size by {
            if i > 0 {
                assert(windows[i] == rest[i - 1]);
            }
        }
        if n > 1 {
            assert(windows[n - 1] == rest[n - 2]);
            assert((n - 1) * window_size == (n - 2) * window_size + window_size)
                by (nonlinear_arith);
        } else {
            assert((n - 1) * window_size == 0) by (nonlinear_arith)
                requires
                    n == 1,
            ;
        }
    }
}

/// Every byte of an open run is printable.
pub proof fn lemma_open_run_printable(text: Seq<u8>, cap: nat, n: int, i: int)
    requires
        0 <= n <= text.len(),
        open_start(text, cap, n) <= i < n,
    ensures
        is_printable(text[i]),
    decreases n,
{
    if i < n - 1 {
        lemma_open_run_printable(text, cap, n - 1, i);
    }
}

/// `finding` is a run that can be read from `source`: its bytes stand at its offset,
/// they are printable and they are its text; it is neither shorter than the minimum
/// nor longer than the cap; and it ends where the source ends, in front of a byte
/// that is not printable, or at the cap.
pub open spec fn is_run_of(source: Seq<u8>, finding: FindingView, min_length: nat, cap: nat) -> bool {
    finding matches FindingView::PrintableRun { text, offset, length } && {
        &&& offset + length <= source.len()
        &&& effective_min(min_length) <= length <= cap
        &&& all_printable(source.subrange(offset as int, (offset + length) as int))
        &&& text == ascii_text(source.subrange(offset as int, (offset + length) as int))
        &&& (offset + length == source.len() || !is_printable(source[(offset + length) as int])
            || length == cap)
    }
}

proof fn lemma_closed_run(source: Seq<u8>, min_length: nat, cap: nat, start: int, end: int)
    requires
        0 <= start <= end <= source.len(),
        forall|i: int| start <= i < end ==> is_printable(source[i]),
        effective_min(min_length) <= end - start <= cap,
        end == source.len() || !is_printable(source[end]) || end - start == cap,
    ensures
        is_run_of(source, run_finding(source, 0, start, end), min_length, cap),
{
    let bytes = source.subrange(start, end);
    assert forall|i: int| 0 <= i < bytes.len() implies is_printable(#[trigger] bytes[i]) by {
        assert(bytes[i] == source[start + i]);
    }
}

/// Round trip for printable runs: every run that the bytes up to `to` close can be
/// read from the source at its offset, byte for byte.
pub proof fn lemma_closed_runs_verifiable(
    source: Seq<u8>,
    min_length: nat,
    cap: nat,
    to: int,
    i: int,
)
    requires
        cap > 0,
        0 <= to <= source.len(),
        0 <= i < runs_between(source, 0, min_length, cap, 0, to).len(),
    ensures
        is_run_of(source, runs_between(source, 0, min_length, cap, 0, to)[i], min_length, cap),
    decreases to,
{
    let earlier = runs_between(source, 0, min_length, cap, 0, to - 1);
    if i < earlier.len() {
        lemma_closed_runs_verifiable(source, min_length, cap, to - 1, i);
    } else {
        let start = open_start(source, cap, to - 1);
        let end = if is_printable(source[to - 1]) {
            to
        } else {
            to - 1
        };
        lemma_open_start_bound(source, cap, to - 1);
        assert forall|j: int| start <= j < end implies is_printable(source[j]) by {
            if j < to - 1 {
                lemma_open_run_printable(source, cap, to - 1, j);
            }
        }
        lemma_closed_run(source, min_length, cap, start, end);
    }
}

/// Round trip for printable runs: every run that a scan reports can be read from
/// the source at its offset, byte for byte, and is a run of printable bytes within
/// the limits.
pub proof fn lemma_run_findings_verifiable(source: Seq<u8>, min_length: nat, cap: nat, i: int)
    requires
        cap > 0,
        0 <= i < all_runs(source, 0, min_length, cap).len(),
    ensures
        is_run_of(source, all_runs(source, 0, min_length, cap)[i], min_length, cap),
{
    let closed = runs_between(source, 0, min_length, cap, 0, source.len() as int);
    if i < closed.len() {
        lemma_closed_runs_verifiable(source, min_length, cap, source.len() as int, i);
    } else {
        let start = open_start(source, cap, source.len() as int);
        lemma_open_start_bound(source, cap, source.len() as int);
        assert forall|j: int| start <= j < source.len() implies is_printable(source[j]) by {
            lemma_open_run_printable(source, cap, source.len() as int, j);
        }
        lemma_closed_run(source, min_length, cap, start, source.len() as int);
    }
}

/// A run that starts where no printable byte stands in front of it stays open
/// while it is shorter than the cap.
proof fn lemma_run_stays_open(source: Seq<u8>, cap: nat, start: int, n: int)
    requires
        0 <= start <= n <= source.len(),
        start == 0 || !is_printable(source[start - 1]),
        forall|i: int| start <= i < n ==> is_printable(source[i]),
        n - start < cap,
    ensures
        open_start(source, cap, n) == start,
    decreases n - start,
{
    if start < n {
        lemma_run_stays_open(source, cap, start, n - 1);
    }
}

/// What byte `n - 1` closes is among the runs closed from `from` up to `to`.
proof fn lemma_closed_run_reported(
    source: Seq<u8>,
    min_length: nat,
    cap: nat,
    from: int,
    to: int,
    n: int,
    finding: FindingView,
)
    requires
        from < n <= to,
        closed_by(source, 0, min_length, cap, n).contains(finding),
    ensures
        runs_between(source, 0, min_length, cap, from, to).contains(finding),
    decreases to - n,
{
    let earlier = runs_between(source, 0, min_length, cap, from, to - 1);
    let last = closed_by(source, 0, min_length, cap, to);
    if n < to {
        lemma_closed_run_reported(source, min_length, cap, from, to - 1, n, finding);
    }
    lemma_contains_concat(earlier, last, finding);
}

/// Nothing missed: a maximal run of printable bytes, one that neither follows nor
/// precedes a printable byte, is reported whole where its length lies between the
/// minimum and the cap.
pub proof fn lemma_maximal_run_reported(
    source: Seq<u8>,
    min_length: nat,
    cap: nat,
    start: int,
    end: int,
)
    requires
        0 <= start < end <= source.len(),
        forall|i: int| start <= i < end ==> is_printable(source[i]),
        start == 0 || !is_printable(source[start - 1]),
        end == source.len() || !is_printable(source[end]),
        effective_min(min_length) <= end - start <= cap,
    ensures
        all_runs(source, 0, min_length, cap).contains(run_finding(source, 0, start, end)),
{
    let len = source.len() as int;
    let finding = run_finding(source, 0, start, end);
    let closed = runs_between(source, 0, min_length, cap, 0, len);
    let last = flushed(source, 0, min_length, cap);
    lemma_contains_concat(closed, last, finding);
    if end - start == cap {
        lemma_run_stays_open(source, cap, start, end - 1);
        assert(closed_by(source, 0, min_length, cap, end)[0] == finding);
        lemma_closed_run_reported(source, min_length, cap, 0, len, end, finding);
    } else {
        lemma_run_stays_open(source, cap, start, end);
        if end == len {
            assert(last[0] == finding);
        } else {
            assert(closed_by(source, 0, min_length, cap, end + 1)[0] == finding);
            lemma_closed_run_reported(source, min_length, cap, 0, len, end + 1, finding);
        }
    }
}

/// Where a finding starts.
pub open spec fn start_of(finding: FindingView) -> nat {
    match finding {
        FindingView::Signature { offset, .. } => offset,
        FindingView::PrintableRun { offset, .. } => offset,
    }
}

/// Where a printable run ends: the position behind its last byte.
pub open spec fn end_of(finding: FindingView) -> nat {
    match finding {
        FindingView::Signature { offset, .. } => offset,
        FindingView::PrintableRun { offset, length, .. } => offset + length,
    }
}

/// The runs closed so far end at or before the start of the open run.
proof fn lemma_closed_runs_bounded(source: Seq<u8>, min_length: nat, cap: nat, to: int, i: int)
    requires
        0 <= to,
        0 <= i < runs_between(source, 0, min_length, cap, 0, to).len(),
    ensures
        start_of(runs_between(source, 0, min_length, cap, 0, to)[i]) < end_of(
            runs_between(source, 0, min_length, cap, 0, to)[i],
        ) <= open_start(source, cap, to),
    decreases to,
{
    let earlier = runs_between(source, 0, min_length, cap, 0, to - 1);
    lemma_open_start_bound(source, cap, to - 1);
    if i < earlier.len() {
        lemma_closed_runs_bounded(source, min_length, cap, to - 1, i);
    }
}

/// The runs closed so far come by ascending offset and do not overlap.
proof fn lemma_closed_runs_ascending(
    source: Seq<u8>,
    min_length: nat,
    cap: nat,
    to: int,
    i: int,
    j: int,
)
    requires
        0 <= to,
        0 <= i < j < runs_between(source, 0, min_length, cap, 0, to).len(),
    ensures
        end_of(runs_between(source, 0, min_length, cap, 0, to)[i]) <= start_of(
            runs_between(source, 0, min_length, cap, 0, to)[j],
        ),
    decreases to,
{
    let earlier = runs_between(source, 0, min_length, cap, 0, to - 1);
    if j < earlier.len() {
        lemma_closed_runs_ascending(source, min_length, cap, to - 1, i, j);
    } else {
        lemma_closed_runs_bounded(source, min_length, cap, to - 1, i);
        lemma_open_start_bound(source, cap, to - 1);
    }
}

/// Order of the printable runs: a scan reports them by ascending offset, and each
/// run ends at or before the start of the next.
pub proof fn lemma_runs_ascending(source: Seq<u8>, min_length: nat, cap: nat, i: int, j: int)
    requires
        0 <= i < j < all_runs(source, 0, min_length, cap).len(),
    ensures
        start_of(all_runs(source, 0, min_length, cap)[i]) < end_of(
            all_runs(source, 0, min_length, cap)[i],
        ) <= start_of(all_runs(source, 0, min_length, cap)[j]),
{
    let len = source.len() as int;
    let closed = runs_between(source, 0, min_length, cap, 0, len);
    lemma_closed_runs_bounded(source, min_length, cap, len, i);
    lemma_open_start_bound(source, cap, len);
    if j < closed.len() {
        lemma_closed_runs_ascending(source, min_length, cap, len, i, j);
    }
}

/// All signatures have the same length.
pub open spec fn same_length(signatures: Seq<SignatureView>) -> bool {
    forall|i: int, j: int|
        0 <= i < signatures.len() && 0 <= j < signatures.len() ==> (#[trigger] signatures[i]).bytes.len()
            == (#[trigger] signatures[j]).bytes.len()
}

/// Order of the signature findings: where all signatures have the same length, a
/// scan reports the occurrences by ascending offset throughout, and at one offset
/// in declaration order.  (With signatures of different lengths the order holds
/// within each window: a long signature that ends in the next window is reported
/// behind a short one that ends in this one.)
pub proof fn lemma_stream_matches_ordered(
    source: Seq<u8>,
    signatures: Seq<SignatureView>,
    window_size: nat,
    pos: int,
)
    requires
        window_size > 0,
        0 <= pos <= source.len(),
        all_nonempty(signatures),
        same_length(signatures),
    ensures
        strictly_ordered(stream_matches(source, signatures, window_size, pos)),
    decreases source.len() - pos,
{
    if pos < source.len() {
        let end = window_end(source.len(), window_size, pos as nat) as int;
        let here = matches_upto(source.take(end), signatures, 0, pos, end);
        let rest = stream_matches(source, signatures, window_size, end);
        let all = stream_matches(source, signatures, window_size, pos);
        lemma_stream_matches_ordered(source, signatures, window_size, end);
        lemma_matches_upto_ordered(source.take(end), signatures, 0, pos, end);
        assert forall|i: int, j: int| 0 <= i < j < all.len() implies precedes(
            #[trigger] all[i],
            #[trigger] all[j],
        ) by {
            if i < here.len() && j >= here.len() {
                let late = rest[j - here.len()];
                assert(here.contains(here[i]));
                assert(rest.contains(late));
                lemma_matches_upto_contains(source.take(end), signatures, 0, pos, end, here[i]);
                lemma_stream_matches_contains(source, signatures, window_size, end, late);
                lemma_occurs_take(source, signatures[here[i].index].bytes, end, here[i].offset);
            } else if i >= here.len() {
                assert(all[i] == rest[i - here.len()]);
                assert(all[j] == rest[j - here.len()]);
            }
        }
    }
}

} // verus!
