//! Runs of printable text.
use vstd::prelude::*;
use crate::error::{ConfigFault, ScanError};
use crate::finding::{into_pairs, pair_views, places, views, Finding, FindingView};
use crate::text::{all_ascii, ascii_text, decode_ascii};
use crate::window::Window;

verus! {

/// A printable byte: a graphic ASCII character or the space.
pub open spec fn is_printable(b: u8) -> bool {
    0x20 <= b <= 0x7e
}

/// Every byte is printable.
pub open spec fn all_printable(bytes: Seq<u8>) -> bool {
    forall|i: int| 0 <= i < bytes.len() ==> is_printable(#[trigger] bytes[i])
}

/// The minimum that is applied: a minimum of zero counts as one, so that no empty
/// run is ever reported.
pub open spec fn effective_min(min_length: nat) -> nat {
    if min_length == 0 {
        1
    } else {
        min_length
    }
}

/// Where the run that is open after the first `n` bytes of `text` starts; `n` itself
/// where none is open.  A byte that is not printable closes the run before it, and
/// a run that reaches `cap` bytes is closed at once.
pub open spec fn open_start(text: Seq<u8>, cap: nat, n: int) -> int
    decreases n,
{
    if n <= 0 {
        0
    } else {
        let start = open_start(text, cap, n - 1);
        if is_printable(text[n - 1]) && n - start < cap {
            start
        } else {
            n
        }
    }
}

/// The run of `text` from `start` to `end`, as a finding; `base` is the position of
/// `text[0]` in the source.
pub open spec fn run_finding(text: Seq<u8>, base: int, start: int, end: int) -> FindingView {
    FindingView::PrintableRun {
        text: ascii_text(text.subrange(start, end)),
        offset: (base + start) as nat,
        length: (end - start) as nat,
    }
}

/// What byte `n - 1` brings: where it closes the open run, that run, if it is long
/// enough.  A printable byte that fills the run to `cap` belongs to it.
pub open spec fn closed_by(text: Seq<u8>, base: int, min_length: nat, cap: nat, n: int) -> Seq<
    FindingView,
> {
    let start = open_start(text, cap, n - 1);
    let end = if is_printable(text[n - 1]) {
        n
    } else {
        n - 1
    };
    if open_start(text, cap, n) == n && end - start >= effective_min(min_length) {
        seq![run_finding(text, base, start, end)]
    } else {
        Seq::empty()
    }
}

/// The runs that the bytes of `text` from position `from` up to `to` close, in
/// order.
pub open spec fn runs_between(
    text: Seq<u8>,
    base: int,
    min_length: nat,
    cap: nat,
    from: int,
    to: int,
) -> Seq<FindingView>
    decreases to - from,
{
    if to <= from {
        Seq::empty()
    } else {
        runs_between(text, base, min_length, cap, from, to - 1) + closed_by(
            text,
            base,
            min_length,
            cap,
            to,
        )
    }
}

/// The run that is still open at the end of `text`, if it is long enough.
pub open spec fn flushed(text: Seq<u8>, base: int, min_length: nat, cap: nat) -> Seq<FindingView> {
    let start = open_start(text, cap, text.len() as int);
    if text.len() - start >= effective_min(min_length) {
        seq![run_finding(text, base, start, text.len() as int)]
    } else {
        Seq::empty()
    }
}

/// Every run of a complete source `text`.
pub open spec fn all_runs(text: Seq<u8>, base: int, min_length: nat, cap: nat) -> Seq<FindingView> {
    runs_between(text, base, min_length, cap, 0, text.len() as int) + flushed(text, base, min_length, cap)
}

/// A run that has not been closed yet: its bytes so far and where it starts.
#[derive(Debug, Clone, PartialEq, Eq)]
pub struct OpenRun {
    pub bytes: Vec<u8>,
    pub start: usize,
}

impl OpenRun {
    /// The run is not empty, is shorter than `cap`, holds printable bytes only and
    /// ends at a position that a `usize` can hold.
    pub open spec fn wf(&self, cap: nat) -> bool {
        &&& 0 < self.bytes@.len() < cap
        &&& all_printable(self.bytes@)
        &&& self.start + self.bytes@.len() <= usize::MAX
    }
}

/// The bytes that an open run carries into the next window.
pub open spec fn carried(open_run: Option<OpenRun>) -> Seq<u8> {
    match open_run {
        Some(run) => run.bytes@,
        None => Seq::empty(),
    }
}

/// `open_run` is the run that is open at the end of `text`, which starts at `base`.
pub open spec fn is_open_run_of(open_run: Option<OpenRun>, text: Seq<u8>, base: int, cap: nat) -> bool {
    let start = open_start(text, cap, text.len() as int);
    match open_run {
        Some(run) => {
            &&& start < text.len()
            &&& run.bytes@ == text.subrange(start, text.len() as int)
            &&& run.start == base + start
        },
        None => start == text.len(),
    }
}

/// Whether `b` is printable.
pub fn is_printable_byte(b: u8) -> (r: bool)
    ensures
        r == is_printable(b),
{
    0x20 <= b && b <= 0x7e
}

/// While a run of printable bytes is shorter than `cap`, it stays open from its
/// first byte and closes nothing.
pub proof fn lemma_open_prefix(text: Seq<u8>, base: int, min_length: nat, cap: nat, n: int)
    requires
        0 <= n <= text.len(),
        n < cap,
        all_printable(text.take(n)),
    ensures
        n > 0 ==> open_start(text, cap, n) == 0,
        open_start(text, cap, n) <= n,
        runs_between(text, base, min_length, cap, 0, n) == Seq::<FindingView>::empty(),
    decreases n,
{
    if n > 0 {
        assert(all_printable(text.take(n - 1))) by {
            assert forall|i: int| 0 <= i < n - 1 implies is_printable(
                #[trigger] text.take(n - 1)[i],
            ) by {
                assert(text.take(n)[i] == text[i]);
            }
        }
        lemma_open_prefix(text, base, min_length, cap, n - 1);
        assert(text.take(n)[n - 1] == text[n - 1]);
    }
}

/// A minimum of zero is a minimum of one, and the applied minimum is its own.
pub proof fn lemma_effective_min_between(
    text: Seq<u8>,
    base: int,
    min_length: nat,
    cap: nat,
    from: int,
    to: int,
)
    ensures
        runs_between(text, base, effective_min(min_length), cap, from, to) == runs_between(
            text,
            base,
            min_length,
            cap,
            from,
            to,
        ),
    decreases to - from,
{
    if from < to {
        lemma_effective_min_between(text, base, min_length, cap, from, to - 1);
    }
}

/// The open run never starts behind the position that was reached.
pub proof fn lemma_open_start_bound(text: Seq<u8>, cap: nat, n: int)
    requires
        0 <= n,
    ensures
        0 <= open_start(text, cap, n) <= n,
        cap > 0 && n > 0 ==> n - open_start(text, cap, n) < cap,
    decreases n,
{
    if n > 0 {
        lemma_open_start_bound(text, cap, n - 1);
    }
}

/// From the start of the open run on, that run stays the open one.
pub proof fn lemma_open_start_stable(text: Seq<u8>, cap: nat, pos: int, m: int)
    requires
        0 <= pos,
        open_start(text, cap, pos) <= m <= pos,
    ensures
        open_start(text, cap, m) == open_start(text, cap, pos),
    decreases pos,
{
    lemma_open_start_bound(text, cap, pos);
    if m < pos {
        lemma_open_start_stable(text, cap, pos - 1, m);
    } else if pos > 0 {
        lemma_open_start_bound(text, cap, pos - 1);
    }
}

/// The open run and the closed runs depend on the bytes walked so far only.
pub proof fn lemma_runs_prefix(
    a: Seq<u8>,
    b: Seq<u8>,
    base: int,
    min_length: nat,
    cap: nat,
    from: int,
    n: int,
)
    requires
        0 <= from,
        0 <= n <= a.len(),
        n <= b.len(),
        a.take(n) == b.take(n),
    ensures
        open_start(a, cap, n) == open_start(b, cap, n),
        runs_between(a, base, min_length, cap, from, n) == runs_between(
            b,
            base,
            min_length,
            cap,
            from,
            n,
        ),
    decreases n,
{
    if n > 0 {
        assert(a.take(n - 1) =~= a.take(n).take(n - 1));
        assert(b.take(n - 1) =~= b.take(n).take(n - 1));
        lemma_runs_prefix(a, b, base, min_length, cap, from, n - 1);
        assert(a[n - 1] == a.take(n)[n - 1]);
        assert(b[n - 1] == b.take(n)[n - 1]);
        lemma_open_start_bound(a, cap, n - 1);
        let start = open_start(a, cap, n - 1);
        assert forall|end: int| start <= end <= n implies a.subrange(start, end) == b.subrange(
            start,
            end,
        ) by {
            assert(a.subrange(start, end) =~= a.take(n).subrange(start, end));
            assert(b.subrange(start, end) =~= b.take(n).subrange(start, end));
        }
        if from < n {
            assert(closed_by(a, base, min_length, cap, n) == closed_by(b, base, min_length, cap, n));
        }
    }
}

/// The runs closed up to `mid` and those closed from there up to `to` are the runs
/// closed up to `to`.
pub proof fn lemma_runs_split(
    text: Seq<u8>,
    base: int,
    min_length: nat,
    cap: nat,
    from: int,
    mid: int,
    to: int,
)
    requires
        from <= mid <= to,
    ensures
        runs_between(text, base, min_length, cap, from, mid) + runs_between(
            text,
            base,
            min_length,
            cap,
            mid,
            to,
        ) == runs_between(text, base, min_length, cap, from, to),
    decreases to - mid,
{
    if mid < to {
        lemma_runs_split(text, base, min_length, cap, from, mid, to - 1);
        assert(runs_between(text, base, min_length, cap, from, mid) + runs_between(
            text,
            base,
            min_length,
            cap,
            mid,
            to,
        ) =~= runs_between(text, base, min_length, cap, from, to));
    } else {
        assert(runs_between(text, base, min_length, cap, from, mid) + runs_between(
            text,
            base,
            min_length,
            cap,
            mid,
            to,
        ) =~= runs_between(text, base, min_length, cap, from, to));
    }
}

/// While a run stays open, nothing is closed.
pub proof fn lemma_open_run_closes_nothing(
    text: Seq<u8>,
    base: int,
    min_length: nat,
    cap: nat,
    pos: int,
    to: int,
)
    requires
        0 <= pos,
        open_start(text, cap, pos) <= to <= pos,
    ensures
        runs_between(text, base, min_length, cap, open_start(text, cap, pos), to) == Seq::<
            FindingView,
        >::empty(),
    decreases to,
{
    let start = open_start(text, cap, pos);
    lemma_open_start_bound(text, cap, pos);
    if start < to {
        lemma_open_run_closes_nothing(text, base, min_length, cap, pos, to - 1);
        lemma_open_start_stable(text, cap, pos, to);
    }
}

/// Walking the text again from the start of the open run gives what walking the
/// whole source gives: `text` holds the bytes of `source` from `start` on, where a
/// run of `source` starts or none is open.
pub proof fn lemma_runs_restart(
    source: Seq<u8>,
    text: Seq<u8>,
    min_length: nat,
    cap: nat,
    start: int,
    n: int,
)
    requires
        0 <= start,
        0 <= n <= text.len(),
        start + n <= source.len(),
        forall|i: int| 0 <= i < n ==> text[i] == source[start + i],
        open_start(source, cap, start) == start,
    ensures
        open_start(text, cap, n) + start == open_start(source, cap, start + n),
        runs_between(text, start, min_length, cap, 0, n) == runs_between(
            source,
            0,
            min_length,
            cap,
            start,
            start + n,
        ),
    decreases n,
{
    if n > 0 {
        lemma_runs_restart(source, text, min_length, cap, start, n - 1);
        lemma_open_start_bound(text, cap, n - 1);
        let local = open_start(text, cap, n - 1);
        assert(text[n - 1] == source[start + n - 1]);
        assert forall|end: int| local <= end <= n implies run_finding(text, start, local, end)
            == run_finding(source, 0, start + local, start + end) by {
            assert(text.subrange(local, end) =~= source.subrange(start + local, start + end));
        }
        assert(closed_by(text, start, min_length, cap, n) == closed_by(
            source,
            0,
            min_length,
            cap,
            start + n,
        ));
    }
}

/// Finds the runs of printable bytes that are at least `min_length` long, window by
/// window.  A run that a window's end leaves open is carried into the next window;
/// one that grows to `max_length` bytes is reported at that length and a new run
/// starts behind it.
#[derive(Debug, Clone, Copy)]
pub struct PrintableRunExtractor {
    min_length: usize,
    max_length: usize,
}

impl PrintableRunExtractor {
    /// The shortest run that is reported; never zero.
    pub closed spec fn min_length(&self) -> nat {
        self.min_length as nat
    }

    /// The longest run that is reported in one piece.
    pub closed spec fn max_length(&self) -> nat {
        self.max_length as nat
    }

    /// `1 <= min_length <= max_length`.
    pub closed spec fn wf(&self) -> bool {
        1 <= self.min_length <= self.max_length
    }

    /// An extractor for runs of at least `min_length` bytes, zero counting as one,
    /// that splits runs at `max_length` bytes.  A cap below the minimum is refused.
    pub fn new(min_length: usize, max_length: usize) -> (result: Result<Self, ScanError>)
        ensures
            max_length < effective_min(min_length as nat) <==> result is Err,
            result is Err ==> result->Err_0 == ScanError::InvalidConfiguration(
                ConfigFault::RunLimitBelowMinimum,
            ),
            result is Ok ==> {
                &&& result->Ok_0.wf()
                &&& result->Ok_0.min_length() == effective_min(min_length as nat)
                &&& result->Ok_0.max_length() == max_length
            },
    {
        let min: usize = if min_length == 0 { 1 } else { min_length };
        if max_length < min {
            Err(ScanError::InvalidConfiguration(ConfigFault::RunLimitBelowMinimum))
        } else {
            Ok(PrintableRunExtractor { min_length: min, max_length })
        }
    }

    /// An extractor for runs of at least `min_length` bytes, zero counting as one,
    /// that never splits a run: the cap is the largest length there is.
    pub fn unbounded(min_length: usize) -> (extractor: Self)
        ensures
            extractor.wf(),
            extractor.min_length() == effective_min(min_length as nat),
            extractor.max_length() == usize::MAX,
    {
        let min: usize = if min_length == 0 { 1 } else { min_length };
        PrintableRunExtractor { min_length: min, max_length: usize::MAX }
    }

    /// Walks one window.  `open_run` is the run that the windows before left open;
    /// its bytes count as standing in front of the window's.  Returns the runs that
    /// this window closes, and the run that it leaves open.
    pub fn scan(&self, window: &Window, open_run: Option<OpenRun>) -> (result: (
        Vec<Finding>,
        Option<OpenRun>,
    ))
        requires
            self.wf(),
            window.wf(),
            open_run is Some ==> {
                &&& open_run->Some_0.wf(self.max_length())
                &&& open_run->Some_0.start + open_run->Some_0.bytes@.len() == window.offset
            },
        ensures
            ({
                let text = carried(open_run) + window.data@;
                let base = window.offset - carried(open_run).len();
                &&& views(result.0@) == runs_between(
                    text,
                    base,
                    self.min_length(),
                    self.max_length(),
                    0,
                    text.len() as int,
                )
                &&& is_open_run_of(result.1, text, base, self.max_length())
                &&& result.1 is Some ==> result.1->Some_0.wf(self.max_length())
            }),
    {
        let ghost text = carried(open_run) + window.data@;
        let ghost kept = carried(open_run).len() as int;
        let ghost base = window.offset - kept;
        let ghost min = self.min_length();
        let ghost cap = self.max_length();
        let mut findings: Vec<Finding> = Vec::new();
        let mut bytes: Vec<u8> = Vec::new();
        let mut start: usize = window.offset;
        match open_run {
            Some(run) => {
                bytes = run.bytes;
                start = run.start;
            },
            None => {},
        }
        proof {
            assert(text.take(kept) =~= carried(open_run));
            lemma_open_prefix(text, base, min, cap, kept);
            assert(text.subrange(0, kept) =~= bytes@);
        }
        let mut i: usize = 0;
        while i < window.data.len()
            invariant
                self.wf(),
                window.wf(),
                min == self.min_length(),
                cap == self.max_length(),
                i <= window.data@.len(),
                text.len() == kept + window.data@.len(),
                forall|j: int| 0 <= j < window.data@.len() ==> text[kept + j] == window.data@[j],
                base + kept == window.offset,
                bytes@ == text.subrange(open_start(text, cap, kept + i), kept + i),
                0 <= open_start(text, cap, kept + i) <= kept + i,
                0 <= kept,
                bytes@.len() > 0 ==> start == base + open_start(text, cap, kept + i),
                bytes@.len() < cap,
                all_printable(bytes@),
                views(findings@) == runs_between(text, base, min, cap, 0, kept + i),
            decreases window.data@.len() - i,
        {
            let b: u8 = window.data[i];
            let ghost n = kept + i + 1;
            let ghost before = open_start(text, cap, n - 1);
            let ghost earlier = views(findings@);
            assert(text[n - 1] == b);
            if is_printable_byte(b) {
                if bytes.len() == 0 {
                    start = window.offset + i;
                }
                bytes.push(b);
                assert(bytes@ =~= text.subrange(before, n));
                if bytes.len() >= self.max_length {
                    let found = self.report(&bytes, start);
                    findings.push(found);
                    bytes = Vec::new();
                    proof {
                        assert(open_start(text, cap, n) == n);
                        assert(views(findings@) =~= earlier + seq![
                            run_finding(text, base, before, n),
                        ]);
                        assert(bytes@ =~= text.subrange(n, n));
                    }
                } else {
                    proof {
                        assert(open_start(text, cap, n) == before);
                        assert(views(findings@) =~= earlier + closed_by(text, base, min, cap, n));
                    }
                }
            } else {
                if bytes.len() >= self.min_length {
                    let found = self.report(&bytes, start);
                    findings.push(found);
                    proof {
                        assert(views(findings@) =~= earlier + seq![
                            run_finding(text, base, before, n - 1),
                        ]);
                    }
                } else {
                    proof {
                        assert(views(findings@) =~= earlier + closed_by(text, base, min, cap, n));
                    }
                }
                bytes = Vec::new();
                proof {
                    assert(bytes@ =~= text.subrange(n, n));
                }
            }
            i += 1;
        }
        let open: Option<OpenRun> = if bytes.len() > 0 {
            Some(OpenRun { bytes, start })
        } else {
            None
        };
        (findings, open)
    }

    /// The finding for a closed run.
    fn report(&self, bytes: &Vec<u8>, start: usize) -> (found: Finding)
        requires
            all_printable(bytes@),
        ensures
            found@ == (FindingView::PrintableRun {
                text: ascii_text(bytes@),
                offset: start as nat,
                length: bytes@.len(),
            }),
    {
        proof {
            assert(all_ascii(bytes@));
        }
        let text = decode_ascii(bytes.as_slice());
        Finding::PrintableRun { text, offset: start, length: bytes.len() }
    }

    /// Ends the scan: the run that the last window left open is reported if it is
    /// long enough, and nothing is carried on.
    pub fn finish(&self, open_run: Option<OpenRun>) -> (last: Option<Finding>)
        requires
            self.wf(),
            open_run is Some ==> all_printable(open_run->Some_0.bytes@),
        ensures
            last is Some <==> open_run is Some && open_run->Some_0.bytes@.len()
                >= self.min_length(),
            last is Some ==> last->Some_0@ == (FindingView::PrintableRun {
                text: ascii_text(open_run->Some_0.bytes@),
                offset: open_run->Some_0.start as nat,
                length: open_run->Some_0.bytes@.len(),
            }),
    {
        match open_run {
            Some(run) => {
                if run.bytes.len() >= self.min_length {
                    Some(self.report(&run.bytes, run.start))
                } else {
                    None
                }
            },
            None => None,
        }
    }
}

/// Finds the runs of printable bytes in `chunk`, a complete source that starts at
/// `chunk_offset`: each run of at least `min_length` bytes, zero counting as one,
/// with its text and the offset of its first byte, in ascending order.
pub fn find_ascii_strings(chunk: &[u8], chunk_offset: usize, min_length: usize) -> (found: Vec<
    (String, usize),
>)
    requires
        chunk_offset + chunk@.len() <= usize::MAX,
    ensures
        pair_views(found@) == places(
            all_runs(chunk@, chunk_offset as int, min_length as nat, usize::MAX as nat),
        ),
{
    let extractor = PrintableRunExtractor::unbounded(min_length);
    let window = Window { offset: chunk_offset, data: chunk };
    let ghost text = chunk@;
    let ghost min = min_length as nat;
    let ghost cap = usize::MAX as nat;
    assert(carried(None) + window.data@ =~= text);
    let (mut findings, open_run) = extractor.scan(&window, None);
    proof {
        lemma_effective_min_between(text, chunk_offset as int, min, cap, 0, text.len() as int);
    }
    let ghost closed = views(findings@);
    let ghost start = open_start(text, cap, text.len() as int);
    assert(closed == runs_between(text, chunk_offset as int, min, cap, 0, text.len() as int));
    proof {
        lemma_open_start_bound(text, cap, text.len() as int);
    }
    match extractor.finish(open_run) {
        Some(last) => {
            findings.push(last);
            assert(last@ == run_finding(text, chunk_offset as int, start, text.len() as int));
            assert(views(findings@) =~= closed + seq![last@]);
        },
        None => {},
    }
    assert(views(findings@) =~= all_runs(text, chunk_offset as int, min, cap));
    into_pairs(&findings)
}

} // verus!
