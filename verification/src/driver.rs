//! The scan driver: threads the carry state of the detectors through the windows.
use vstd::prelude::*;
use vstd::seq_lib::lemma_concat_associative;
use crate::error::{ConfigFault, ScanError};
use crate::finding::{views, Finding, FindingView};
use crate::hex::{hex_rows, line_views, render_rows, texts};
use crate::printable::{
    all_runs, carried, effective_min, flushed, is_open_run_of, lemma_open_run_closes_nothing,
    lemma_open_start_bound, lemma_open_start_stable, lemma_runs_prefix, lemma_runs_restart,
    lemma_runs_split, open_start, runs_between, OpenRun, PrintableRunExtractor,
};
use crate::signature::{
    all_nonempty, carry_length, is_first_empty, lemma_carry_suffices, matches_upto,
    occurrence_findings, signature_views, tail, Occurrence, Signature, SignatureMatcher,
    SignatureView,
};
use crate::window::{window_end, ByteWindowSource, Window};

verus! {

/// The cap on printable runs that [`ScanConfig::new`] sets.
pub const DEFAULT_MAX_RUN_LENGTH: usize = 1048576;

/// What a scan is run with.
#[derive(Debug, Clone, PartialEq, Eq)]
pub struct ScanConfig {
    /// The number of bytes in each window but the last; not zero.
    pub window_size: usize,
    /// The number of bytes in each row of the hexadecimal listing; not zero.
    pub bytes_per_row: usize,
    /// The shortest printable run that is reported; zero counts as one.
    pub min_string_length: usize,
    /// The longest printable run that is reported in one piece: a longer run is
    /// reported in pieces of this length.  Not below the minimum.
    pub max_run_length: usize,
    /// The signatures to search for, in declaration order; none without bytes.
    pub signatures: Vec<Signature>,
}

impl ScanConfig {
    /// The signatures, as mathematical values.
    pub open spec fn signature_views(&self) -> Seq<SignatureView> {
        signature_views(self.signatures@)
    }

    /// The minimum run length that is applied.
    pub open spec fn min_length(&self) -> nat {
        effective_min(self.min_string_length as nat)
    }

    /// Every setting is usable.
    pub open spec fn valid(&self) -> bool {
        &&& self.window_size > 0
        &&& self.bytes_per_row > 0
        &&& self.max_run_length >= self.min_length()
        &&& all_nonempty(self.signature_views())
    }

    /// `fault` is the first thing that is wrong with the configuration: the settings
    /// are tried in the order of the fields.
    pub open spec fn rejected_for(&self, fault: ConfigFault) -> bool {
        if self.window_size == 0 {
            fault == ConfigFault::ZeroWindowSize
        } else if self.bytes_per_row == 0 {
            fault == ConfigFault::ZeroBytesPerRow
        } else if self.max_run_length < self.min_length() {
            fault == ConfigFault::RunLimitBelowMinimum
        } else {
            fault matches ConfigFault::EmptySignature(i) && is_first_empty(
                self.signature_views(),
                i as int,
            )
        }
    }

    /// A configuration with the default cap on printable runs.
    pub fn new(
        window_size: usize,
        bytes_per_row: usize,
        min_string_length: usize,
        signatures: Vec<Signature>,
    ) -> (config: Self)
        ensures
            config.window_size == window_size,
            config.bytes_per_row == bytes_per_row,
            config.min_string_length == min_string_length,
            config.max_run_length == DEFAULT_MAX_RUN_LENGTH,
            config.signatures == signatures,
    {
        ScanConfig {
            window_size,
            bytes_per_row,
            min_string_length,
            max_run_length: DEFAULT_MAX_RUN_LENGTH,
            signatures,
        }
    }
}

/// Where a scan stands.
#[derive(Debug, Clone, Copy, PartialEq, Eq)]
pub enum ScanState {
    /// No window has been scanned yet.
    Idle,
    /// At least one window has been scanned and the source is not exhausted.
    Scanning,
    /// The source is exhausted and the last open run has been flushed.
    Done,
    /// The source failed.  The scan cannot be resumed.
    Failed,
}

impl ScanState {
    /// The scan takes further windows.
    pub open spec fn is_active(&self) -> bool {
        *self == ScanState::Idle || *self == ScanState::Scanning
    }
}

/// What one window contributes to each of the three channels.
#[derive(Debug, Clone, PartialEq, Eq)]
pub struct WindowOutput {
    /// The hexadecimal listing of the window.
    pub hex_lines: Vec<String>,
    /// The printable runs that the window closes.
    pub runs: Vec<Finding>,
    /// The signatures that end inside the window.
    pub signatures: Vec<Finding>,
}

/// Runs the detectors over the windows of one source, in order, and keeps what they
/// carry from window to window: the tail of the source for the signature search and
/// the open printable run.
pub struct ScanDriver<'a> {
    matcher: SignatureMatcher<'a>,
    extractor: PrintableRunExtractor,
    bytes_per_row: usize,
    state: ScanState,
    position: usize,
    carry: Vec<u8>,
    open_run: Option<OpenRun>,
    consumed: Ghost<Seq<u8>>,
}

impl<'a> ScanDriver<'a> {
    /// Where the scan stands.
    pub closed spec fn state(&self) -> ScanState {
        self.state
    }

    /// The bytes of the windows scanned so far: the source up to the position
    /// reached.
    pub closed spec fn consumed(&self) -> Seq<u8> {
        self.consumed@
    }

    /// The offset at which the next window has to start.
    pub closed spec fn position(&self) -> nat {
        self.position as nat
    }

    /// The signatures searched for.
    pub closed spec fn signatures(&self) -> Seq<SignatureView> {
        self.matcher.signatures()
    }

    /// The shortest printable run that is reported; never zero.
    pub closed spec fn min_length(&self) -> nat {
        self.extractor.min_length()
    }

    /// The longest printable run that is reported in one piece.
    pub closed spec fn max_run_length(&self) -> nat {
        self.extractor.max_length()
    }

    /// The number of bytes in a row of the listing.
    pub closed spec fn bytes_per_row(&self) -> nat {
        self.bytes_per_row as nat
    }

    /// The settings are usable, the position is the number of bytes consumed and,
    /// while the scan is active, the carry state is that of the bytes consumed.
    pub closed spec fn wf(&self) -> bool {
        &&& self.matcher.wf()
        &&& self.extractor.wf()
        &&& self.bytes_per_row > 0
        &&& self.position == self.consumed@.len()
        &&& self.state.is_active() ==> {
            &&& self.carry@ == tail(self.consumed@, carry_length(self.matcher.signatures()))
            &&& is_open_run_of(self.open_run, self.consumed@, 0, self.extractor.max_length())
            &&& self.open_run is Some ==> self.open_run->Some_0.wf(self.extractor.max_length())
        }
    }

    /// `other` scans with the same settings.
    pub open spec fn same_settings(&self, other: &Self) -> bool {
        &&& self.signatures() == other.signatures()
        &&& self.min_length() == other.min_length()
        &&& self.max_run_length() == other.max_run_length()
        &&& self.bytes_per_row() == other.bytes_per_row()
    }

    /// A driver in state `Idle` at position 0.  An unusable configuration is
    /// refused, with the first fault in the order of the settings.
    pub fn new(config: &'a ScanConfig) -> (result: Result<Self, ScanError>)
        ensures
            result is Ok <==> config.valid(),
            result is Err ==> (result matches Err(ScanError::InvalidConfiguration(fault))
                && config.rejected_for(fault)),
            result is Ok ==> {
                let driver = result->Ok_0;
                &&& driver.wf()
                &&& driver.state() == ScanState::Idle
                &&& driver.consumed() == Seq::<u8>::empty()
                &&& driver.position() == 0
                &&& driver.signatures() == config.signature_views()
                &&& driver.min_length() == config.min_length()
                &&& driver.max_run_length() == config.max_run_length
                &&& driver.bytes_per_row() == config.bytes_per_row
            },
    {
        if config.window_size == 0 {
            return Err(ScanError::InvalidConfiguration(ConfigFault::ZeroWindowSize));
        }
        if config.bytes_per_row == 0 {
            return Err(ScanError::InvalidConfiguration(ConfigFault::ZeroBytesPerRow));
        }
        let extractor = match PrintableRunExtractor::new(
            config.min_string_length,
            config.max_run_length,
        ) {
            Ok(extractor) => extractor,
            Err(error) => {
                return Err(error);
            },
        };
        let matcher = match SignatureMatcher::new(config.signatures.as_slice()) {
            Ok(matcher) => matcher,
            Err(error) => {
                return Err(error);
            },
        };
        let driver = ScanDriver {
            matcher,
            extractor,
            bytes_per_row: config.bytes_per_row,
            state: ScanState::Idle,
            position: 0,
            carry: Vec::new(),
            open_run: None,
            consumed: Ghost(Seq::empty()),
        };
        proof {
            assert(driver.carry@ =~= tail(
                driver.consumed@,
                carry_length(driver.matcher.signatures()),
            ));
        }
        Ok(driver)
    }

    /// Whether the scan takes further windows.
    pub fn is_active(&self) -> (active: bool)
        ensures
            active == self.state().is_active(),
    {
        match self.state {
            ScanState::Idle => true,
            ScanState::Scanning => true,
            ScanState::Done => false,
            ScanState::Failed => false,
        }
    }

    /// The state of the scan.
    pub fn current_state(&self) -> (state: ScanState)
        ensures
            state == self.state(),
    {
        self.state
    }

    /// The offset at which the next window has to start.
    pub fn next_offset(&self) -> (offset: usize)
        ensures
            offset == self.position(),
    {
        self.position
    }

    /// Whether [`feed`](Self::feed) takes `window`: the scan is active and the
    /// window starts where the last one ended.
    pub fn accepts(&self, window: &Window) -> (ok: bool)
        ensures
            ok == (self.state().is_active() && window.offset == self.position() && window.wf()),
    {
        self.is_active() && window.offset == self.position && window.data.len() <= usize::MAX
            - window.offset
    }

    /// Scans the next window and moves to `Scanning`.
    ///
    /// The listing is that of the window alone.  The runs are those that the
    /// window's bytes close in the source consumed so far, and the signatures are
    /// the occurrences in it that end inside the window: what straddles the
    /// boundary in front of the window is found as if there were no boundary.
    pub fn feed(&mut self, window: &Window) -> (output: WindowOutput)
        requires
            old(self).wf(),
            old(self).state().is_active(),
            window.wf(),
            window.offset == old(self).position(),
        ensures
            final(self).wf(),
            final(self).same_settings(old(self)),
            final(self).state() == ScanState::Scanning,
            final(self).consumed() == old(self).consumed() + window.data@,
            final(self).position() == window.end(),
            line_views(output.hex_lines@) == texts(
                hex_rows(window.data@, window.offset as nat, old(self).bytes_per_row()),
            ),
            views(output.runs@) == runs_between(
                final(self).consumed(),
                0,
                old(self).min_length(),
                old(self).max_run_length(),
                window.offset as int,
                window.end() as int,
            ),
            views(output.signatures@) == occurrence_findings(
                old(self).signatures(),
                matches_upto(
                    final(self).consumed(),
                    old(self).signatures(),
                    0,
                    window.offset as int,
                    window.end() as int,
                ),
            ),
    {
        let ghost before = self.consumed@;
        let ghost after = before + window.data@;
        let ghost pos = self.position as int;
        let ghost sigs = self.matcher.signatures();
        let ghost min = self.extractor.min_length();
        let ghost cap = self.extractor.max_length();
        let hex_lines = render_rows(window.data, window.offset, self.bytes_per_row);
        let ghost kept = self.carry@.len() as int;
        let (signatures, carry) = self.matcher.scan(window, self.carry.as_slice());
        proof {
            let text = self.carry@ + window.data@;
            assert(text =~= after.subrange(pos - kept, after.len() as int));
            lemma_carry_suffices(after, sigs, pos, kept, after.len() - (pos - kept));
            assert(carry@ =~= tail(after, carry_length(sigs)));
        }
        let open_run = self.open_run.take();
        let ghost start = open_start(before, cap, pos);
        let ghost text = carried(open_run) + window.data@;
        proof {
            lemma_open_start_bound(before, cap, pos);
            assert(window.offset - carried(open_run).len() == start);
        }
        let (runs, open_run) = self.extractor.scan(window, open_run);
        proof {
            lemma_open_start_stable(before, cap, pos, start);
            assert(before.take(start) =~= after.take(start));
            assert(before.take(pos) =~= after.take(pos));
            lemma_runs_prefix(before, after, 0, min, cap, 0, start);
            lemma_runs_prefix(before, after, 0, min, cap, 0, pos);
            lemma_runs_restart(after, text, min, cap, start, text.len() as int);
            lemma_open_run_closes_nothing(after, 0, min, cap, pos, pos);
            lemma_runs_split(after, 0, min, cap, start, pos, after.len() as int);
            assert(runs_between(after, 0, min, cap, start, after.len() as int) =~= runs_between(
                after,
                0,
                min,
                cap,
                pos,
                after.len() as int,
            ));
            let local = open_start(text, cap, text.len() as int);
            lemma_open_start_bound(text, cap, text.len() as int);
            assert(text.subrange(local, text.len() as int) =~= after.subrange(
                start + local,
                after.len() as int,
            ));
        }
        self.carry = carry;
        self.open_run = open_run;
        self.position = self.position + window.data.len();
        self.state = ScanState::Scanning;
        self.consumed = Ghost(after);
        WindowOutput { hex_lines, runs, signatures }
    }

    /// Ends the scan at the end of the source and moves to `Done`.  The printable
    /// run that is still open is reported if it is long enough; nothing else is
    /// pending, since a signature is reported by the window in which it ends.
    pub fn finish(&mut self) -> (last: Vec<Finding>)
        requires
            old(self).wf(),
            old(self).state().is_active(),
        ensures
            final(self).wf(),
            final(self).same_settings(old(self)),
            final(self).state() == ScanState::Done,
            final(self).consumed() == old(self).consumed(),
            final(self).position() == old(self).position(),
            views(last@) == flushed(
                old(self).consumed(),
                0,
                old(self).min_length(),
                old(self).max_run_length(),
            ),
    {
        let ghost source = self.consumed@;
        let ghost cap = self.extractor.max_length();
        proof {
            lemma_open_start_bound(source, cap, source.len() as int);
        }
        let open_run = self.open_run.take();
        let mut last: Vec<Finding> = Vec::new();
        match self.extractor.finish(open_run) {
            Some(found) => {
                last.push(found);
                assert(views(last@) =~= seq![found@]);
            },
            None => {
                assert(views(last@) =~= Seq::<FindingView>::empty());
            },
        }
        self.state = ScanState::Done;
        last
    }

    /// Records that the source failed: an active scan moves to `Failed`, for good.
    /// A scan that is done stays done.  Returns the error to report, which carries
    /// `cause`.
    pub fn fail(&mut self, cause: String) -> (error: ScanError)
        requires
            old(self).wf(),
        ensures
            final(self).wf(),
            final(self).same_settings(old(self)),
            final(self).consumed() == old(self).consumed(),
            final(self).position() == old(self).position(),
            final(self).state() == if old(self).state().is_active() {
                ScanState::Failed
            } else {
                old(self).state()
            },
            error == (ScanError::SourceUnavailable { cause }),
    {
        if self.is_active() {
            self.state = ScanState::Failed;
        }
        ScanError::SourceUnavailable { cause }
    }
}

/// The listing of a source that is cut into windows of `window_size` bytes, from
/// the window that starts at `pos` on: each window is listed by itself, so a
/// window's last row may be short.
pub open spec fn listing(source: Seq<u8>, window_size: nat, bytes_per_row: nat, pos: int) -> Seq<
    Seq<u8>,
>
    decreases source.len() - pos,
{
    if window_size == 0 || pos < 0 || pos >= source.len() {
        Seq::empty()
    } else {
        let end = window_end(source.len(), window_size, pos as nat) as int;
        hex_rows(source.subrange(pos, end), pos as nat, bytes_per_row) + listing(
            source,
            window_size,
            bytes_per_row,
            end,
        )
    }
}

/// The occurrences that a scan in windows of `window_size` bytes reports, from the
/// window that starts at `pos` on: each window reports the occurrences that end
/// inside it, by ascending offset and then in declaration order.
pub open spec fn stream_matches(
    source: Seq<u8>,
    signatures: Seq<SignatureView>,
    window_size: nat,
    pos: int,
) -> Seq<Occurrence>
    decreases source.len() - pos,
{
    if window_size == 0 || pos < 0 || pos >= source.len() {
        Seq::empty()
    } else {
        let end = window_end(source.len(), window_size, pos as nat) as int;
        matches_upto(source.take(end), signatures, 0, pos, end) + stream_matches(
            source,
            signatures,
            window_size,
            end,
        )
    }
}

proof fn lemma_texts_concat(a: Seq<Seq<u8>>, b: Seq<Seq<u8>>)
    ensures
        texts(a + b) == texts(a) + texts(b),
{
    assert(texts(a + b) =~= texts(a) + texts(b));
}

proof fn lemma_line_views_concat(a: Seq<String>, b: Seq<String>)
    ensures
        line_views(a + b) == line_views(a) + line_views(b),
{
    assert(line_views(a + b) =~= line_views(a) + line_views(b));
}

proof fn lemma_views_concat(a: Seq<Finding>, b: Seq<Finding>)
    ensures
        views(a + b) == views(a) + views(b),
{
    assert(views(a + b) =~= views(a) + views(b));
}

proof fn lemma_occurrence_findings_concat(
    signatures: Seq<SignatureView>,
    a: Seq<Occurrence>,
    b: Seq<Occurrence>,
)
    ensures
        occurrence_findings(signatures, a + b) == occurrence_findings(signatures, a)
            + occurrence_findings(signatures, b),
{
    assert(occurrence_findings(signatures, a + b) =~= occurrence_findings(signatures, a)
        + occurrence_findings(signatures, b));
}

/// The printable runs that a scan in windows of `window_size` bytes reports, from
/// the window that starts at `pos` on: each window reports the runs that its bytes
/// close in the source up to its end, and the end of the source flushes the run
/// that is still open.
pub open spec fn stream_runs(
    source: Seq<u8>,
    min_length: nat,
    cap: nat,
    window_size: nat,
    pos: int,
) -> Seq<FindingView>
    decreases source.len() - pos,
{
    if window_size == 0 || pos < 0 || pos >= source.len() {
        flushed(source, 0, min_length, cap)
    } else {
        let end = window_end(source.len(), window_size, pos as nat) as int;
        runs_between(source.take(end), 0, min_length, cap, pos, end) + stream_runs(
            source,
            min_length,
            cap,
            window_size,
            end,
        )
    }
}

/// Everything that a scan of one source produces, channel by channel.
#[derive(Debug, Clone, PartialEq, Eq)]
pub struct ScanReport {
    /// The hexadecimal listing, window after window.
    pub hex_lines: Vec<String>,
    /// The printable runs, by ascending offset.
    pub runs: Vec<Finding>,
    /// The signatures, window after window; within a window by ascending offset and
    /// then in declaration order.
    pub signatures: Vec<Finding>,
}

/// The mathematical content of a [`ScanReport`].
pub struct ScanReportView {
    pub hex_lines: Seq<Seq<char>>,
    pub runs: Seq<FindingView>,
    pub signatures: Seq<FindingView>,
}

impl View for ScanReport {
    type V = ScanReportView;

    open spec fn view(&self) -> ScanReportView {
        ScanReportView {
            hex_lines: line_views(self.hex_lines@),
            runs: views(self.runs@),
            signatures: views(self.signatures@),
        }
    }
}

/// What a scan of `source` with `config` reports.
pub open spec fn expected_report(source: Seq<u8>, config: &ScanConfig) -> ScanReportView {
    ScanReportView {
        hex_lines: texts(
            listing(source, config.window_size as nat, config.bytes_per_row as nat, 0),
        ),
        runs: all_runs(source, 0, config.min_length(), config.max_run_length as nat),
        signatures: occurrence_findings(
            config.signature_views(),
            stream_matches(source, config.signature_views(), config.window_size as nat, 0),
        ),
    }
}

/// Scans a whole source that is held in memory: cuts it into windows, runs the
/// driver over them and flushes the last open run.
///
/// An unusable configuration is refused before any byte is scanned.  An empty
/// source gives an empty report.
pub fn scan_source(source: &[u8], config: &ScanConfig) -> (result: Result<ScanReport, ScanError>)
    ensures
        result is Ok <==> config.valid(),
        result is Err ==> (result matches Err(ScanError::InvalidConfiguration(fault))
            && config.rejected_for(fault)),
        result is Ok ==> result->Ok_0@ == expected_report(source@, config),
{
    let mut driver = match ScanDriver::new(config) {
        Ok(driver) => driver,
        Err(error) => {
            return Err(error);
        },
    };
    let mut windows = match ByteWindowSource::new(source, config.window_size) {
        Ok(windows) => windows,
        Err(error) => {
            return Err(error);
        },
    };
    let ghost sigs = config.signature_views();
    let ghost min = config.min_length();
    let ghost cap = config.max_run_length as nat;
    let ghost size = config.window_size as nat;
    let ghost width = config.bytes_per_row as nat;
    let mut hex_lines: Vec<String> = Vec::new();
    let mut runs: Vec<Finding> = Vec::new();
    let mut signatures: Vec<Finding> = Vec::new();
    let ghost mut rows: Seq<Seq<u8>> = Seq::empty();
    let ghost mut hits: Seq<Occurrence> = Seq::empty();
    proof {
        assert(source@.take(0) =~= Seq::<u8>::empty());
        assert(rows + listing(source@, size, width, 0) =~= listing(source@, size, width, 0));
        assert(hits + stream_matches(source@, sigs, size, 0) =~= stream_matches(
            source@,
            sigs,
            size,
            0,
        ));
        assert(views(signatures@) =~= occurrence_findings(sigs, hits));
        assert(line_views(hex_lines@) =~= texts(rows));
        assert(views(runs@) =~= runs_between(source@, 0, min, cap, 0, 0));
    }
    loop
        invariant
            windows.wf(),
            windows.source() == source@,
            windows.window_size() == size,
            size > 0,
            driver.wf(),
            driver.state().is_active(),
            driver.position() == windows.position(),
            driver.consumed() == source@.take(windows.position() as int),
            driver.signatures() == sigs,
            driver.min_length() == min,
            driver.max_run_length() == cap,
            driver.bytes_per_row() == width,
            line_views(hex_lines@) == texts(rows),
            rows + listing(source@, size, width, windows.position() as int) == listing(
                source@,
                size,
                width,
                0,
            ),
            views(runs@) == runs_between(source@, 0, min, cap, 0, windows.position() as int),
            views(signatures@) == occurrence_findings(sigs, hits),
            hits + stream_matches(source@, sigs, size, windows.position() as int)
                == stream_matches(source@, sigs, size, 0),
        ensures
            windows.position() == source@.len(),
            driver.wf(),
            driver.state().is_active(),
            driver.consumed() == source@,
            driver.min_length() == min,
            driver.max_run_length() == cap,
            line_views(hex_lines@) == texts(listing(source@, size, width, 0)),
            views(runs@) == runs_between(source@, 0, min, cap, 0, source@.len() as int),
            views(signatures@) == occurrence_findings(
                sigs,
                stream_matches(source@, sigs, size, 0),
            ),
        decreases source@.len() - windows.position(),
    {
        let ghost pos = windows.position() as int;
        match windows.next_window() {
            None => {
                proof {
                    assert(source@.take(pos) =~= source@);
                    assert(rows =~= listing(source@, size, width, 0));
                    assert(hits =~= stream_matches(source@, sigs, size, 0));
                }
                break ;
            },
            Some(window) => {
                let ghost end = window.end() as int;
                let ghost shown = hex_lines@;
                let ghost closed = runs@;
                let ghost matched = signatures@;
                let mut output = driver.feed(&window);
                let ghost fresh = matches_upto(source@.take(end), sigs, 0, pos, end);
                let ghost listed = hex_rows(window.data@, pos as nat, width);
                proof {
                    assert(source@.take(pos) + window.data@ =~= source@.take(end));
                    assert(source@.take(end).take(end) =~= source@.take(end));
                    lemma_runs_prefix(source@.take(end), source@, 0, min, cap, pos, end);
                    lemma_runs_split(source@, 0, min, cap, 0, pos, end);
                }
                let ghost lines = output.hex_lines@;
                let ghost found = output.runs@;
                let ghost seen = output.signatures@;
                hex_lines.append(&mut output.hex_lines);
                runs.append(&mut output.runs);
                signatures.append(&mut output.signatures);
                proof {
                    lemma_line_views_concat(shown, lines);
                    lemma_texts_concat(rows, listed);
                    lemma_views_concat(closed, found);
                    lemma_views_concat(matched, seen);
                    lemma_occurrence_findings_concat(sigs, hits, fresh);
                    lemma_concat_associative(rows, listed, listing(source@, size, width, end));
                    lemma_concat_associative(hits, fresh, stream_matches(source@, sigs, size, end));
                    rows = rows + listed;
                    hits = hits + fresh;
                }
            },
        }
    }
    let ghost closed = runs@;
    let mut last = driver.finish();
    let ghost tail_run = last@;
    runs.append(&mut last);
    let report = ScanReport { hex_lines, runs, signatures };
    proof {
        lemma_views_concat(closed, tail_run);
    }
    Ok(report)
}

} // verus!
