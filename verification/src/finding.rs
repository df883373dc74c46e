//! What the detectors report.
use vstd::prelude::*;
use vstd::string::StringExecFns;
use crate::hex::{hex_digits, push_hex};
use crate::text::{ascii_text, decode_ascii};

verus! {

/// One detection, located by its absolute offset in the source.
#[derive(Debug, Clone, PartialEq, Eq)]
pub enum Finding {
    /// The signature called `name` starts at `offset`.
    Signature { name: String, offset: usize },
    /// A run of `length` printable bytes, which read `text`, starts at `offset`.
    PrintableRun { text: String, offset: usize, length: usize },
}

/// The mathematical content of a [`Finding`].
pub enum FindingView {
    Signature { name: Seq<char>, offset: nat },
    PrintableRun { text: Seq<char>, offset: nat, length: nat },
}

impl View for Finding {
    type V = FindingView;

    open spec fn view(&self) -> FindingView {
        match *self {
            Finding::Signature { name, offset } => FindingView::Signature {
                name: name@,
                offset: offset as nat,
            },
            Finding::PrintableRun { text, offset, length } => FindingView::PrintableRun {
                text: text@,
                offset: offset as nat,
                length: length as nat,
            },
        }
    }
}

/// The contents of a list of findings, in order.
pub open spec fn views(findings: Seq<Finding>) -> Seq<FindingView> {
    Seq::new(findings.len(), |i: int| findings[i]@)
}

/// The text or name of a finding, and where it starts.
pub open spec fn place(finding: FindingView) -> (Seq<char>, nat) {
    match finding {
        FindingView::Signature { name, offset } => (name, offset),
        FindingView::PrintableRun { text, offset, .. } => (text, offset),
    }
}

/// The places of a list of findings, in order.
pub open spec fn places(findings: Seq<FindingView>) -> Seq<(Seq<char>, nat)> {
    Seq::new(findings.len(), |i: int| place(findings[i]))
}

/// The contents of a list of pairs of a text and an offset.
pub open spec fn pair_views(pairs: Seq<(String, usize)>) -> Seq<(Seq<char>, nat)> {
    Seq::new(pairs.len(), |i: int| (pairs[i].0@, pairs[i].1 as nat))
}

/// Each finding as the pair of its text or name and its offset.
pub fn into_pairs(findings: &Vec<Finding>) -> (pairs: Vec<(String, usize)>)
    ensures
        pair_views(pairs@) == places(views(findings@)),
{
    let mut pairs: Vec<(String, usize)> = Vec::new();
    let mut i: usize = 0;
    while i < findings.len()
        invariant
            i <= findings@.len(),
            pair_views(pairs@) == places(views(findings@)).take(i as int),
        decreases findings@.len() - i,
    {
        let ghost earlier = pair_views(pairs@);
        let pair: (String, usize) = match &findings[i] {
            Finding::Signature { name, offset } => (name.clone(), *offset),
            Finding::PrintableRun { text, offset, .. } => (text.clone(), *offset),
        };
        assert((pair.0@, pair.1 as nat) == place(findings@[i as int]@));
        pairs.push(pair);
        assert(pair_views(pairs@) =~= earlier.push(place(findings@[i as int]@)));
        assert(pair_views(pairs@) =~= places(views(findings@)).take(i + 1));
        i += 1;
    }
    assert(places(views(findings@)).take(i as int) =~= places(views(findings@)));
    pairs
}

/// The line that reports a finding: what was found, in quotes, and its offset in
/// upper-case hexadecimal without padding.
pub open spec fn described(finding: FindingView) -> Seq<char> {
    match finding {
        FindingView::Signature { name, offset } => "Pattern '"@ + name + "' found at 0x"@
            + ascii_text(hex_digits(offset, 1)),
        FindingView::PrintableRun { text, offset, .. } => "ASCII String '"@ + text
            + "' found at 0x"@ + ascii_text(hex_digits(offset, 1)),
    }
}

impl Finding {
    /// The line that reports this finding.
    pub fn describe(&self) -> (line: String)
        ensures
            line@ == described(self@),
    {
        let mut digits: Vec<u8> = Vec::new();
        push_hex(&mut digits, self.offset(), 1);
        let place = decode_ascii(digits.as_slice());
        let mut line = match self {
            Finding::Signature { name, .. } => {
                let mut line = String::from_str("Pattern '");
                line.append(name.as_str());
                line
            },
            Finding::PrintableRun { text, .. } => {
                let mut line = String::from_str("ASCII String '");
                line.append(text.as_str());
                line
            },
        };
        line.append("' found at 0x");
        line.append(place.as_str());
        line
    }

    /// Where the finding starts in the source.
    pub fn offset(&self) -> (offset: usize)
        ensures
            offset == match self@ {
                FindingView::Signature { offset, .. } => offset,
                FindingView::PrintableRun { offset, .. } => offset,
            },
    {
        match self {
            Finding::Signature { offset, .. } => *offset,
            Finding::PrintableRun { offset, .. } => *offset,
        }
    }
}

} // verus!
