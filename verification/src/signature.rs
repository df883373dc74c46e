//! Search for byte signatures of known file formats.
use vstd::prelude::*;
use vstd::slice::{slice_subrange, slice_to_vec};
use crate::error::{ConfigFault, ScanError};
use crate::finding::{into_pairs, pair_views, places, views, Finding, FindingView};
use crate::window::Window;

verus! {

/// A named byte sequence that marks the start of a known format.
#[derive(Debug, Clone, PartialEq, Eq)]
pub struct Signature {
    pub name: String,
    pub bytes: Vec<u8>,
}

/// The mathematical content of a [`Signature`].
pub struct SignatureView {
    pub name: Seq<char>,
    pub bytes: Seq<u8>,
}

impl View for Signature {
    type V = SignatureView;

    open spec fn view(&self) -> SignatureView {
        SignatureView { name: self.name@, bytes: self.bytes@ }
    }
}

/// The contents of a list of signatures, in declaration order.
pub open spec fn signature_views(signatures: Seq<Signature>) -> Seq<SignatureView> {
    Seq::new(signatures.len(), |i: int| signatures[i]@)
}

/// `needle` stands in `text` at `pos`.
pub open spec fn occurs_at(text: Seq<u8>, needle: Seq<u8>, pos: int) -> bool {
    &&& 0 <= pos
    &&& pos + needle.len() <= text.len()
    &&& text.subrange(pos, pos + needle.len()) == needle
}

/// `found` is where `needle` first stands in `text` at or behind `from`, or `None`
/// where it stands nowhere from there on.
pub open spec fn first_from(text: Seq<u8>, needle: Seq<u8>, from: int, found: Option<usize>) -> bool {
    match found {
        Some(pos) => {
            &&& from <= pos
            &&& occurs_at(text, needle, pos as int)
            &&& forall|q: int| from <= q < pos ==> !occurs_at(text, needle, q)
        },
        None => forall|q: int| from <= q ==> !occurs_at(text, needle, q),
    }
}

/// One occurrence of a signature: its place in the signature list and the absolute
/// offset at which it starts.
pub struct Occurrence {
    pub index: int,
    pub offset: int,
}

/// `needle` stands in `text` at `pos` and ends behind the first `seen` bytes: an
/// occurrence that lies wholly within them was reported when they were scanned.
pub open spec fn is_new_at(text: Seq<u8>, needle: Seq<u8>, seen: int, pos: int) -> bool {
    occurs_at(text, needle, pos) && pos + needle.len() > seen
}

/// The new occurrences of the first `k` signatures at `pos`, in declaration order.
/// `base` is the position of `text[0]` in the source.
pub open spec fn matches_at(
    text: Seq<u8>,
    signatures: Seq<SignatureView>,
    base: int,
    seen: int,
    pos: int,
    k: int,
) -> Seq<Occurrence>
    decreases k,
{
    if k <= 0 {
        Seq::empty()
    } else {
        let earlier = matches_at(text, signatures, base, seen, pos, k - 1);
        if is_new_at(text, signatures[k - 1].bytes, seen, pos) {
            earlier.push(Occurrence { index: k - 1, offset: base + pos })
        } else {
            earlier
        }
    }
}

/// The new occurrences that start below position `n` of `text`, by ascending
/// position and, at one position, in declaration order.
pub open spec fn matches_upto(
    text: Seq<u8>,
    signatures: Seq<SignatureView>,
    base: int,
    seen: int,
    n: int,
) -> Seq<Occurrence>
    decreases n,
{
    if n <= 0 {
        Seq::empty()
    } else {
        matches_upto(text, signatures, base, seen, n - 1) + matches_at(
            text,
            signatures,
            base,
            seen,
            n - 1,
            signatures.len() as int,
        )
    }
}

/// The finding that reports an occurrence.
pub open spec fn occurrence_finding(signatures: Seq<SignatureView>, hit: Occurrence) -> FindingView {
    FindingView::Signature { name: signatures[hit.index].name, offset: hit.offset as nat }
}

/// The findings that report a list of occurrences, in the same order.
pub open spec fn occurrence_findings(signatures: Seq<SignatureView>, hits: Seq<Occurrence>) -> Seq<
    FindingView,
> {
    Seq::new(hits.len(), |i: int| occurrence_finding(signatures, hits[i]))
}

/// The length of the longest signature; zero for an empty list.
pub open spec fn longest(signatures: Seq<SignatureView>) -> nat
    decreases signatures.len(),
{
    if signatures.len() == 0 {
        0
    } else {
        let rest = longest(signatures.drop_last());
        if signatures.last().bytes.len() > rest {
            signatures.last().bytes.len()
        } else {
            rest
        }
    }
}

/// How many bytes are carried from one window into the next: one less than the
/// longest signature, so that no occurrence can hide across a boundary.
pub open spec fn carry_length(signatures: Seq<SignatureView>) -> nat {
    if longest(signatures) == 0 {
        0
    } else {
        (longest(signatures) - 1) as nat
    }
}

/// The last `keep` bytes of `text`, or all of it where it is shorter.
pub open spec fn tail(text: Seq<u8>, keep: nat) -> Seq<u8> {
    if keep < text.len() {
        text.subrange(text.len() - keep, text.len() as int)
    } else {
        text
    }
}

/// No signature has an empty byte sequence.
pub open spec fn all_nonempty(signatures: Seq<SignatureView>) -> bool {
    forall|i: int| 0 <= i < signatures.len() ==> (#[trigger] signatures[i]).bytes.len() > 0
}

/// `i` is the place of the first signature without bytes.
pub open spec fn is_first_empty(signatures: Seq<SignatureView>, i: int) -> bool {
    &&& 0 <= i < signatures.len()
    &&& signatures[i].bytes.len() == 0
    &&& all_nonempty(signatures.take(i))
}

/// Searches with `memchr::memmem::find`.
///
/// Trusted: the result is the index of the first occurrence of `needle` in
/// `haystack`, and `None` exactly where there is none.  Empty needles are left out.
#[verifier::external_body]
fn find_first(haystack: &[u8], needle: &[u8]) -> (found: Option<usize>)
    requires
        needle@.len() > 0,
    ensures
        first_from(haystack@, needle@, 0, found),
{
    memchr::memmem::find(haystack, needle)
}

/// An occurrence in the text behind `from` is one in the whole text, `from` further
/// on.
proof fn lemma_occurs_shift(text: Seq<u8>, needle: Seq<u8>, from: int, q: int)
    requires
        0 <= from <= text.len(),
        0 <= q,
    ensures
        occurs_at(text.subrange(from, text.len() as int), needle, q) == occurs_at(
            text,
            needle,
            from + q,
        ),
{
    let rest = text.subrange(from, text.len() as int);
    if q + needle.len() <= rest.len() {
        assert(rest.subrange(q, q + needle.len()) =~= text.subrange(
            from + q,
            from + q + needle.len(),
        ));
    }
}

/// Where `needle` first stands in `text` at or behind `from`.
fn find_from(text: &[u8], from: usize, needle: &[u8]) -> (found: Option<usize>)
    requires
        from <= text@.len(),
        needle@.len() > 0,
    ensures
        first_from(text@, needle@, from as int, found),
{
    let rest = slice_subrange(text, from, text.len());
    let found = find_first(rest, needle);
    proof {
        assert forall|q: int| 0 <= q implies occurs_at(rest@, needle@, q) == occurs_at(
            text@,
            needle@,
            from + q,
        ) by {
            lemma_occurs_shift(text@, needle@, from as int, q);
        }
    }
    match found {
        Some(pos) => {
            proof {
                assert(occurs_at(rest@, needle@, pos as int));
                assert forall|q: int| from <= q < from + pos implies !occurs_at(
                    text@,
                    needle@,
                    q,
                ) by {
                    assert(!occurs_at(rest@, needle@, q - from));
                }
            }
            Some(from + pos)
        },
        None => {
            proof {
                assert forall|q: int| from <= q implies !occurs_at(text@, needle@, q) by {
                    assert(!occurs_at(rest@, needle@, q - from));
                }
            }
            None
        },
    }
}

/// Where no signature stands anew at `pos`, nothing is reported there.
pub proof fn lemma_quiet_position(
    text: Seq<u8>,
    signatures: Seq<SignatureView>,
    base: int,
    seen: int,
    pos: int,
    k: int,
)
    requires
        0 <= k <= signatures.len(),
        forall|j: int| 0 <= j < k ==> !is_new_at(text, #[trigger] signatures[j].bytes, seen, pos),
    ensures
        matches_at(text, signatures, base, seen, pos, k) == Seq::<Occurrence>::empty(),
    decreases k,
{
    if k > 0 {
        lemma_quiet_position(text, signatures, base, seen, pos, k - 1);
    }
}

/// Where no signature stands anew at any position from `a` up to `b`, the
/// occurrences below `b` are those below `a`.
pub proof fn lemma_quiet_range(
    text: Seq<u8>,
    signatures: Seq<SignatureView>,
    base: int,
    seen: int,
    a: int,
    b: int,
)
    requires
        0 <= a <= b,
        forall|j: int, q: int|
            0 <= j < signatures.len() && a <= q < b ==> !#[trigger] is_new_at(
                text,
                signatures[j].bytes,
                seen,
                q,
            ),
    ensures
        matches_upto(text, signatures, base, seen, b) == matches_upto(
            text,
            signatures,
            base,
            seen,
            a,
        ),
    decreases b - a,
{
    if a < b {
        lemma_quiet_range(text, signatures, base, seen, a, b - 1);
        lemma_quiet_position(text, signatures, base, seen, b - 1, signatures.len() as int);
        assert(matches_upto(text, signatures, base, seen, b) =~= matches_upto(
            text,
            signatures,
            base,
            seen,
            b - 1,
        ));
    }
}

/// No signature is longer than the longest.
pub proof fn lemma_longest_bounds(signatures: Seq<SignatureView>, j: int)
    requires
        0 <= j < signatures.len(),
    ensures
        signatures[j].bytes.len() <= longest(signatures),
    decreases signatures.len(),
{
    if j < signatures.len() - 1 {
        lemma_longest_bounds(signatures.drop_last(), j);
    }
}

/// A carry that is long enough loses nothing.  `source` ends with a window that
/// starts at `lo`, and the search runs over the window and the `kept` bytes in front
/// of it.  Where `kept` reaches the carry length, or back to the start of the
/// source, the search reports the occurrences of `source` that end inside the
/// window, all of them and no other.
pub proof fn lemma_carry_suffices(
    source: Seq<u8>,
    signatures: Seq<SignatureView>,
    lo: int,
    kept: int,
    n: int,
)
    requires
        0 <= kept <= lo <= source.len(),
        kept == lo || kept >= carry_length(signatures),
        0 <= n <= source.len() - (lo - kept),
    ensures
        matches_upto(
            source.subrange(lo - kept, source.len() as int),
            signatures,
            lo - kept,
            kept,
            n,
        ) == matches_upto(source, signatures, 0, lo, lo - kept + n),
    decreases n,
{
    let first = lo - kept;
    let text = source.subrange(first, source.len() as int);
    if n == 0 {
        assert forall|j: int, q: int|
            0 <= j < signatures.len() && 0 <= q < first implies !#[trigger] is_new_at(
            source,
            signatures[j].bytes,
            lo,
            q,
        ) by {
            lemma_longest_bounds(signatures, j);
        }
        lemma_quiet_range(source, signatures, 0, lo, 0, first);
    } else {
        lemma_carry_suffices(source, signatures, lo, kept, n - 1);
        lemma_same_position(source, signatures, lo, kept, n - 1, signatures.len() as int);
    }
}

/// At one position, the search over the window and its carry reports what the
/// source holds there.
proof fn lemma_same_position(
    source: Seq<u8>,
    signatures: Seq<SignatureView>,
    lo: int,
    kept: int,
    p: int,
    k: int,
)
    requires
        0 <= kept <= lo <= source.len(),
        0 <= p,
        0 <= k <= signatures.len(),
    ensures
        matches_at(
            source.subrange(lo - kept, source.len() as int),
            signatures,
            lo - kept,
            kept,
            p,
            k,
        ) == matches_at(source, signatures, 0, lo, lo - kept + p, k),
    decreases k,
{
    if k > 0 {
        lemma_same_position(source, signatures, lo, kept, p, k - 1);
        lemma_occurs_shift(source, signatures[k - 1].bytes, lo - kept, p);
    }
}

/// Finds every occurrence of a fixed list of signatures, window by window.  The tail
/// of each window is carried into the next, so that an occurrence that straddles a
/// boundary is found, and found once.
pub struct SignatureMatcher<'a> {
    signatures: &'a [Signature],
    max_length: usize,
}

impl<'a> SignatureMatcher<'a> {
    /// The signatures, in declaration order.
    pub closed spec fn signatures(&self) -> Seq<SignatureView> {
        signature_views(self.signatures@)
    }

    /// No signature is empty, and the longest one is known.
    pub closed spec fn wf(&self) -> bool {
        &&& all_nonempty(self.signatures())
        &&& self.max_length == longest(self.signatures())
    }

    /// A matcher for `signatures`.  A list that holds a signature without bytes is
    /// refused, and the error names the first such signature.
    pub fn new(signatures: &'a [Signature]) -> (result: Result<Self, ScanError>)
        ensures
            all_nonempty(signature_views(signatures@)) <==> result is Ok,
            result is Ok ==> result->Ok_0.wf() && result->Ok_0.signatures() == signature_views(
                signatures@,
            ),
            result is Err ==> (result matches Err(
                ScanError::InvalidConfiguration(ConfigFault::EmptySignature(i)),
            ) && is_first_empty(signature_views(signatures@), i as int)),
    {
        let ghost all = signature_views(signatures@);
        let mut max_length: usize = 0;
        let mut i: usize = 0;
        while i < signatures.len()
            invariant
                i <= signatures@.len(),
                all == signature_views(signatures@),
                all_nonempty(all.take(i as int)),
                max_length == longest(all.take(i as int)),
            decreases signatures@.len() - i,
        {
            let len: usize = signatures[i].bytes.len();
            if len == 0 {
                proof {
                    assert(all[i as int].bytes.len() == 0);
                }
                return Err(ScanError::InvalidConfiguration(ConfigFault::EmptySignature(i)));
            }
            proof {
                assert(all.take(i + 1).drop_last() =~= all.take(i as int));
                assert(all.take(i + 1).last() == all[i as int]);
                assert forall|j: int| 0 <= j < i + 1 implies (#[trigger] all.take(i + 1)[j]).bytes.len()
                    > 0 by {
                    if j < i {
                        assert(all.take(i as int)[j] == all[j]);
                    }
                }
            }
            if len > max_length {
                max_length = len;
            }
            i += 1;
        }
        proof {
            assert(all.take(i as int) =~= all);
        }
        Ok(SignatureMatcher { signatures, max_length })
    }

    /// How many bytes [`scan`](Self::scan) hands on as the next carry, at most.
    pub fn carry_len(&self) -> (n: usize)
        requires
            self.wf(),
        ensures
            n == carry_length(self.signatures()),
    {
        if self.max_length == 0 {
            0
        } else {
            self.max_length - 1
        }
    }

    /// Searches one window.  `carry` holds the bytes of the source that stand right
    /// in front of the window, as the call before returned them; the search runs over
    /// `carry` followed by the window.  An occurrence is reported where it ends
    /// inside the window: one that ends inside `carry` was reported before.
    ///
    /// Returns the findings, by ascending offset and then in declaration order, and
    /// the carry for the next window.
    pub fn scan(&self, window: &Window, carry: &[u8]) -> (result: (Vec<Finding>, Vec<u8>))
        requires
            self.wf(),
            window.wf(),
            carry@.len() <= window.offset,
        ensures
            ({
                let text = carry@ + window.data@;
                let base = window.offset - carry@.len();
                &&& views(result.0@) == occurrence_findings(
                    self.signatures(),
                    matches_upto(
                        text,
                        self.signatures(),
                        base,
                        carry@.len() as int,
                        text.len() as int,
                    ),
                )
                &&& result.1@ == tail(text, carry_length(self.signatures()))
            }),
    {
        let ghost sigs = self.signatures();
        let ghost seen = carry@.len() as int;
        let ghost base = window.offset - carry@.len();
        let seen_len: usize = carry.len();
        let first: usize = window.offset - seen_len;
        let mut joined: Vec<u8> = slice_to_vec(carry);
        joined.extend_from_slice(window.data);
        let text: &[u8] = joined.as_slice();
        assert(text@ =~= carry@ + window.data@);
        let count: usize = self.signatures.len();
        let mut next: Vec<Option<usize>> = Vec::new();
        let mut j: usize = 0;
        while j < count
            invariant
                self.wf(),
                sigs == self.signatures(),
                count == self.signatures@.len(),
                j <= count,
                next@.len() == j,
                forall|m: int| 0 <= m < j ==> first_from(text@, sigs[m].bytes, 0, #[trigger] next@[m]),
            decreases count - j,
        {
            assert(sigs[j as int].bytes.len() > 0);
            let found = find_from(text, 0, self.signatures[j].bytes.as_slice());
            next.push(found);
            j += 1;
        }
        let mut findings: Vec<Finding> = Vec::new();
        let ghost mut hits: Seq<Occurrence> = Seq::empty();
        let mut cur: usize = 0;
        loop
            invariant
                self.wf(),
                window.wf(),
                sigs == self.signatures(),
                count == self.signatures@.len(),
                seen == seen_len,
                first == base,
                text@.len() == seen + window.data@.len(),
                seen <= window.offset,
                base == window.offset - seen,
                cur <= text@.len(),
                next@.len() == count,
                forall|m: int|
                    0 <= m < count ==> first_from(
                        text@,
                        sigs[m].bytes,
                        cur as int,
                        #[trigger] next@[m],
                    ),
                hits == matches_upto(text@, sigs, base, seen, cur as int),
                views(findings@) == occurrence_findings(sigs, hits),
            ensures
                hits == matches_upto(text@, sigs, base, seen, text@.len() as int),
                views(findings@) == occurrence_findings(sigs, hits),
            decreases text@.len() - cur,
        {
            let mut at: Option<usize> = None;
            let mut m: usize = 0;
            while m < count
                invariant
                    m <= count,
                    next@.len() == count,
                    at is Some ==> exists|w: int| 0 <= w < m && next@[w] == at,
                    forall|w: int|
                        0 <= w < m && (#[trigger] next@[w]) is Some ==> at is Some && at->Some_0
                            <= next@[w]->Some_0,
                decreases count - m,
            {
                match next[m] {
                    Some(pos) => {
                        let better: bool = match at {
                            Some(best) => pos < best,
                            None => true,
                        };
                        if better {
                            at = Some(pos);
                        }
                    },
                    None => {},
                }
                m += 1;
            }
            match at {
                None => {
                    proof {
                        assert forall|w: int, q: int|
                            0 <= w < sigs.len() && cur <= q < text@.len() implies !#[trigger] is_new_at(
                            text@,
                            sigs[w].bytes,
                            seen,
                            q,
                        ) by {
                            assert(first_from(text@, sigs[w].bytes, cur as int, next@[w]));
                        }
                        lemma_quiet_range(text@, sigs, base, seen, cur as int, text@.len() as int);
                    }
                    break ;
                },
                Some(pos) => {
                    proof {
                        let w = choose|w: int| 0 <= w < count && next@[w] == at;
                        assert(first_from(text@, sigs[w].bytes, cur as int, next@[w]));
                        assert(sigs[w].bytes.len() > 0);
                        assert forall|v: int, q: int|
                            0 <= v < sigs.len() && cur <= q < pos implies !#[trigger] is_new_at(
                            text@,
                            sigs[v].bytes,
                            seen,
                            q,
                        ) by {
                            assert(first_from(text@, sigs[v].bytes, cur as int, next@[v]));
                        }
                        lemma_quiet_range(text@, sigs, base, seen, cur as int, pos as int);
                    }
                    let mut k: usize = 0;
                    while k < count
                        invariant
                            self.wf(),
                            sigs == self.signatures(),
                            count == self.signatures@.len(),
                            k <= count,
                            next@.len() == count,
                            cur <= pos < text@.len(),
                            first == base,
                            base + text@.len() <= usize::MAX,
                            base >= 0,
                            seen == seen_len,
                            forall|w: int|
                                0 <= w < k ==> first_from(
                                    text@,
                                    sigs[w].bytes,
                                    pos + 1,
                                    #[trigger] next@[w],
                                ),
                            forall|w: int|
                                k <= w < count ==> first_from(
                                    text@,
                                    sigs[w].bytes,
                                    cur as int,
                                    #[trigger] next@[w],
                                ),
                            forall|w: int|
                                k <= w < count && (#[trigger] next@[w]) is Some ==> pos
                                    <= next@[w]->Some_0,
                            hits == matches_upto(text@, sigs, base, seen, pos as int) + matches_at(
                                text@,
                                sigs,
                                base,
                                seen,
                                pos as int,
                                k as int,
                            ),
                            views(findings@) == occurrence_findings(sigs, hits),
                        decreases count - k,
                    {
                        let here: bool = match next[k] {
                            Some(p) => p == pos,
                            None => false,
                        };
                        proof {
                            assert(first_from(text@, sigs[k as int].bytes, cur as int, next@[k as int]));
                            assert(here == occurs_at(text@, sigs[k as int].bytes, pos as int));
                        }
                        if here {
                            let signature = &self.signatures[k];
                            assert(signature@ == sigs[k as int]);
                            if pos + signature.bytes.len() > seen_len {
                                let ghost earlier = views(findings@);
                                let ghost hit = Occurrence { index: k as int, offset: base + pos };
                                findings.push(
                                    Finding::Signature {
                                        name: signature.name.clone(),
                                        offset: first + pos,
                                    },
                                );
                                proof {
                                    hits = hits.push(hit);
                                    assert(views(findings@) =~= earlier.push(
                                        occurrence_finding(sigs, hit),
                                    ));
                                    assert(views(findings@) =~= occurrence_findings(sigs, hits));
                                }
                            }
                            let found = find_from(text, pos + 1, signature.bytes.as_slice());
                            next.set(k, found);
                        } else {
                            proof {
                                assert(first_from(text@, sigs[k as int].bytes, pos + 1, next@[k as int]));
                            }
                        }
                        proof {
                            assert(hits =~= matches_upto(text@, sigs, base, seen, pos as int)
                                + matches_at(text@, sigs, base, seen, pos as int, k + 1));
                        }
                        k += 1;
                    }
                    proof {
                        assert(hits =~= matches_upto(text@, sigs, base, seen, pos + 1));
                    }
                    cur = pos + 1;
                },
            }
        }
        let keep: usize = self.carry_len();
        let carry_next: Vec<u8> = if keep < text.len() {
            slice_to_vec(slice_subrange(text, text.len() - keep, text.len()))
        } else {
            slice_to_vec(text)
        };
        assert(carry_next@ =~= tail(text@, carry_length(sigs)));
        (findings, carry_next)
    }
}

/// Finds the signatures in `chunk`, a complete source that starts at
/// `chunk_offset`: each occurrence of each pattern with the pattern's name and the
/// offset at which it starts, by ascending offset and then in declaration order.
/// Occurrences of one pattern may overlap.  A pattern without bytes is refused.
pub fn detect_patterns(chunk: &[u8], chunk_offset: usize, patterns: &[Signature]) -> (result:
    Result<Vec<(String, usize)>, ScanError>)
    requires
        chunk_offset + chunk@.len() <= usize::MAX,
    ensures
        result is Ok <==> all_nonempty(signature_views(patterns@)),
        result is Err ==> (result matches Err(
            ScanError::InvalidConfiguration(ConfigFault::EmptySignature(i)),
        ) && is_first_empty(signature_views(patterns@), i as int)),
        result is Ok ==> pair_views(result->Ok_0@) == places(
            occurrence_findings(
                signature_views(patterns@),
                matches_upto(
                    chunk@,
                    signature_views(patterns@),
                    chunk_offset as int,
                    0,
                    chunk@.len() as int,
                ),
            ),
        ),
{
    let matcher = match SignatureMatcher::new(patterns) {
        Ok(matcher) => matcher,
        Err(error) => {
            return Err(error);
        },
    };
    let window = Window { offset: chunk_offset, data: chunk };
    let carry: Vec<u8> = Vec::new();
    assert(carry@ + window.data@ =~= chunk@);
    let (findings, _) = matcher.scan(&window, carry.as_slice());
    Ok(into_pairs(&findings))
}

} // verus!
