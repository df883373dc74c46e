//! Windows over a byte source.
use vstd::prelude::*;
use crate::error::{ConfigFault, ScanError};

verus! {

/// A contiguous slice of the source, tagged with the absolute position of its first
/// byte.
#[derive(Debug, Clone, Copy)]
pub struct Window<'a> {
    pub offset: usize,
    pub data: &'a [u8],
}

impl<'a> Window<'a> {
    /// The window ends at a position that a `usize` can hold.
    pub open spec fn wf(&self) -> bool {
        self.offset + self.data@.len() <= usize::MAX
    }

    /// The position just behind the window's last byte.
    pub open spec fn end(&self) -> nat {
        (self.offset + self.data@.len()) as nat
    }
}

/// Where the window that starts at `pos` ends, in a source of `len` bytes cut into
/// windows of `window_size` bytes.
pub open spec fn window_end(len: nat, window_size: nat, pos: nat) -> nat {
    if pos + window_size < len {
        pos + window_size
    } else {
        len
    }
}

/// The bytes of the windows of `source` from the one that starts at `pos` on, in
/// order.
pub open spec fn windows_from(source: Seq<u8>, window_size: nat, pos: int) -> Seq<Seq<u8>>
    decreases source.len() - pos,
{
    if window_size == 0 || pos < 0 || pos >= source.len() {
        Seq::empty()
    } else {
        let end = window_end(source.len(), window_size, pos as nat) as int;
        seq![source.subrange(pos, end)] + windows_from(source, window_size, end)
    }
}

/// Cuts a byte sequence into successive windows of a fixed size; the last one may be
/// shorter.  The windows cover the source without gap or overlap, in increasing
/// order, and an empty source has none.
pub struct ByteWindowSource<'a> {
    data: &'a [u8],
    window_size: usize,
    position: usize,
}

impl<'a> ByteWindowSource<'a> {
    /// The bytes of the whole source.
    pub closed spec fn source(&self) -> Seq<u8> {
        self.data@
    }

    /// The size of every window but the last.
    pub closed spec fn window_size(&self) -> nat {
        self.window_size as nat
    }

    /// Where the next window starts: the number of bytes handed out so far.
    pub closed spec fn position(&self) -> nat {
        self.position as nat
    }

    /// The window size is positive and the position lies within the source.
    pub open spec fn wf(&self) -> bool {
        &&& self.window_size() > 0
        &&& self.position() <= self.source().len()
    }

    /// A source over `data` that starts at position 0.  A window size of zero is
    /// refused.
    pub fn new(data: &'a [u8], window_size: usize) -> (result: Result<Self, ScanError>)
        ensures
            window_size == 0 <==> result is Err,
            result is Err ==> result->Err_0 == ScanError::InvalidConfiguration(
                ConfigFault::ZeroWindowSize,
            ),
            result is Ok ==> {
                &&& result->Ok_0.wf()
                &&& result->Ok_0.source() == data@
                &&& result->Ok_0.window_size() == window_size
                &&& result->Ok_0.position() == 0
            },
    {
        if window_size == 0 {
            Err(ScanError::InvalidConfiguration(ConfigFault::ZeroWindowSize))
        } else {
            Ok(ByteWindowSource { data, window_size, position: 0 })
        }
    }

    /// The number of bytes not handed out yet.
    pub fn remaining(&self) -> (n: usize)
        requires
            self.wf(),
        ensures
            n == self.source().len() - self.position(),
    {
        self.data.len() - self.position
    }

    /// Hands out the next window, or `None` once the source is exhausted.
    pub fn next_window(&mut self) -> (next: Option<Window<'a>>)
        requires
            old(self).wf(),
        ensures
            final(self).wf(),
            final(self).source() == old(self).source(),
            final(self).window_size() == old(self).window_size(),
            next is Some <==> old(self).position() < old(self).source().len(),
            next is None ==> final(self).position() == old(self).position(),
            next is Some ==> {
                let end = window_end(
                    old(self).source().len(),
                    old(self).window_size(),
                    old(self).position(),
                );
                &&& next->Some_0.offset == old(self).position()
                &&& next->Some_0.data@ == old(self).source().subrange(
                    old(self).position() as int,
                    end as int,
                )
                &&& next->Some_0.wf()
                &&& final(self).position() == end
            },
    {
        let len: usize = self.data.len();
        if self.position >= len {
            return None;
        }
        let start: usize = self.position;
        let end: usize = if self.window_size < len - start {
            start + self.window_size
        } else {
            len
        };
        let data = vstd::slice::slice_subrange(self.data, start, end);
        self.position = end;
        Some(Window { offset: start, data })
    }
}

} // verus!
