//! Hexadecimal rendering: offset column, byte cells and an ASCII gutter.
use vstd::prelude::*;
use crate::error::{ConfigFault, ScanError};
use crate::text::{all_ascii, ascii_text, decode_ascii};

verus! {

/// The ASCII code of the upper-case hexadecimal digit for `d`, `0 <= d < 16`.
pub open spec fn hex_digit(d: int) -> u8 {
    if d < 10 {
        (0x30 + d) as u8
    } else {
        (0x37 + d) as u8
    }
}

/// `n` in upper-case hexadecimal, padded with zeros on the left to `width` digits;
/// a number that needs more digits gets them all.
pub open spec fn hex_digits(n: nat, width: nat) -> Seq<u8>
    decreases n, width,
{
    if n < 16 && width <= 1 {
        seq![hex_digit(n as int)]
    } else {
        hex_digits(n / 16, if width == 0 { 0 } else { (width - 1) as nat })
            + seq![hex_digit((n % 16) as int)]
    }
}

/// A graphic ASCII character: visible, so not the space.
pub open spec fn is_graphic(b: u8) -> bool {
    0x21 <= b <= 0x7e
}

/// One cell per byte: two hexadecimal digits and a space.
pub open spec fn hex_cells(row: Seq<u8>) -> Seq<u8>
    decreases row.len(),
{
    if row.len() == 0 {
        Seq::empty()
    } else {
        hex_cells(row.drop_last()) + hex_digits(row.last() as nat, 2) + seq![0x20u8]
    }
}

/// `n` spaces.
pub open spec fn spaces(n: nat) -> Seq<u8> {
    Seq::new(n, |i: int| 0x20u8)
}

/// The gutter: each graphic byte as itself, every other byte as a full stop.
pub open spec fn gutter(row: Seq<u8>) -> Seq<u8> {
    Seq::new(row.len(), |i: int| if is_graphic(row[i]) { row[i] } else { 0x2eu8 })
}

/// One line of the listing, as ASCII codes: the offset in at least eight digits, two
/// spaces, the cells, three spaces for each cell that a short row lacks, then the
/// gutter between vertical bars.
pub open spec fn hex_row(row: Seq<u8>, offset: nat, bytes_per_row: nat) -> Seq<u8> {
    hex_digits(offset, 8) + spaces(2) + hex_cells(row) + spaces(
        (3 * (bytes_per_row - row.len())) as nat,
    ) + seq![0x20u8, 0x7cu8] + gutter(row) + seq![0x7cu8]
}

/// Where the row that starts at `pos` ends.
pub open spec fn row_end(len: nat, bytes_per_row: nat, pos: nat) -> nat {
    if pos + bytes_per_row < len {
        pos + bytes_per_row
    } else {
        len
    }
}

/// The lines for the bytes of `chunk` from `pos` on, `bytes_per_row` bytes to a line,
/// where the chunk starts at `offset` of the source.
pub open spec fn hex_rows_from(chunk: Seq<u8>, offset: nat, bytes_per_row: nat, pos: nat) -> Seq<
    Seq<u8>,
>
    decreases chunk.len() - pos,
{
    if bytes_per_row == 0 || pos >= chunk.len() {
        Seq::empty()
    } else {
        let end = row_end(chunk.len(), bytes_per_row, pos);
        seq![hex_row(chunk.subrange(pos as int, end as int), offset + pos, bytes_per_row)]
            + hex_rows_from(chunk, offset, bytes_per_row, end)
    }
}

/// The whole listing of a chunk.
pub open spec fn hex_rows(chunk: Seq<u8>, offset: nat, bytes_per_row: nat) -> Seq<Seq<u8>> {
    hex_rows_from(chunk, offset, bytes_per_row, 0)
}

/// The characters of each line.
pub open spec fn line_views(lines: Seq<String>) -> Seq<Seq<char>> {
    Seq::new(lines.len(), |i: int| lines[i]@)
}

/// The text of each row of ASCII codes.
pub open spec fn texts(rows: Seq<Seq<u8>>) -> Seq<Seq<char>> {
    Seq::new(rows.len(), |i: int| ascii_text(rows[i]))
}

fn hex_digit_byte(d: u8) -> (c: u8)
    requires
        d < 16,
    ensures
        c == hex_digit(d as int),
        c < 0x80,
{
    if d < 10 {
        0x30 + d
    } else {
        0x37 + d
    }
}

/// Appends `hex_digits(n, width)` to `out`.
pub(crate) fn push_hex(out: &mut Vec<u8>, n: usize, width: usize)
    ensures
        final(out)@ == old(out)@ + hex_digits(n as nat, width as nat),
        all_ascii(old(out)@) ==> all_ascii(final(out)@),
    decreases n, width,
{
    if n < 16 && width <= 1 {
        out.push(hex_digit_byte(n as u8));
    } else {
        let rest: usize = if width == 0 { 0 } else { width - 1 };
        push_hex(out, n / 16, rest);
        out.push(hex_digit_byte((n % 16) as u8));
        assert(final(out)@ =~= old(out)@ + hex_digits(n as nat, width as nat));
    }
}

fn push_spaces(out: &mut Vec<u8>, n: usize)
    ensures
        final(out)@ == old(out)@ + spaces(n as nat),
        all_ascii(old(out)@) ==> all_ascii(final(out)@),
{
    let mut i: usize = 0;
    while i < n
        invariant
            i <= n,
            out@ =~= old(out)@ + spaces(i as nat),
            all_ascii(old(out)@) ==> all_ascii(out@),
        decreases n - i,
    {
        out.push(0x20u8);
        i += 1;
    }
}

/// Whether `b` is a graphic ASCII character.
pub fn is_graphic_byte(b: u8) -> (r: bool)
    ensures
        r == is_graphic(b),
{
    0x21 <= b && b <= 0x7e
}

/// Renders one row of at most `bytes_per_row` bytes that starts at `offset`.
fn render_row(row: &[u8], offset: usize, bytes_per_row: usize) -> (line: Vec<u8>)
    requires
        row@.len() <= bytes_per_row,
    ensures
        line@ == hex_row(row@, offset as nat, bytes_per_row as nat),
        all_ascii(line@),
{
    let mut line: Vec<u8> = Vec::new();
    push_hex(&mut line, offset, 8);
    push_spaces(&mut line, 2);
    let ghost head = line@;
    let mut i: usize = 0;
    while i < row.len()
        invariant
            i <= row@.len(),
            line@ =~= head + hex_cells(row@.take(i as int)),
            all_ascii(line@),
        decreases row@.len() - i,
    {
        let b: u8 = row[i];
        push_hex(&mut line, b as usize, 2);
        line.push(0x20u8);
        proof {
            assert(row@.take(i + 1).drop_last() =~= row@.take(i as int));
            assert(row@.take(i + 1).last() == b);
        }
        i += 1;
    }
    proof {
        assert(row@.take(i as int) =~= row@);
    }
    let mut missing: usize = bytes_per_row - row.len();
    let ghost cells = line@;
    while missing > 0
        invariant
            missing <= bytes_per_row - row@.len(),
            line@ =~= cells + spaces((3 * (bytes_per_row - row@.len() - missing)) as nat),
            all_ascii(line@),
        decreases missing,
    {
        push_spaces(&mut line, 3);
        missing -= 1;
    }
    line.push(0x20u8);
    line.push(0x7cu8);
    let ghost open = line@;
    let mut j: usize = 0;
    while j < row.len()
        invariant
            j <= row@.len(),
            line@ =~= open + gutter(row@).take(j as int),
            all_ascii(line@),
        decreases row@.len() - j,
    {
        let b: u8 = row[j];
        if is_graphic_byte(b) {
            line.push(b);
        } else {
            line.push(0x2eu8);
        }
        j += 1;
    }
    line.push(0x7cu8);
    proof {
        assert(gutter(row@).take(j as int) =~= gutter(row@));
        assert(line@ =~= hex_row(row@, offset as nat, bytes_per_row as nat));
    }
    line
}

/// The listing of `chunk`, which starts at `chunk_offset` of the source.
pub(crate) fn render_rows(chunk: &[u8], chunk_offset: usize, bytes_per_row: usize) -> (lines: Vec<
    String,
>)
    requires
        bytes_per_row > 0,
        chunk_offset + chunk@.len() <= usize::MAX,
    ensures
        line_views(lines@) == texts(hex_rows(chunk@, chunk_offset as nat, bytes_per_row as nat)),
{
    let mut lines: Vec<String> = Vec::new();
    let ghost mut rows: Seq<Seq<u8>> = Seq::empty();
    let mut pos: usize = 0;
    while pos < chunk.len()
        invariant
            bytes_per_row > 0,
            pos <= chunk@.len(),
            chunk_offset + chunk@.len() <= usize::MAX,
            line_views(lines@) == texts(rows),
            rows + hex_rows_from(chunk@, chunk_offset as nat, bytes_per_row as nat, pos as nat)
                =~= hex_rows(chunk@, chunk_offset as nat, bytes_per_row as nat),
        decreases chunk@.len() - pos,
    {
        let end: usize = if bytes_per_row < chunk.len() - pos {
            pos + bytes_per_row
        } else {
            chunk.len()
        };
        let row = vstd::slice::slice_subrange(chunk, pos, end);
        let line = render_row(row, chunk_offset + pos, bytes_per_row);
        let text = decode_ascii(line.as_slice());
        let ghost shown = line_views(lines@);
        lines.push(text);
        proof {
            assert(line_views(lines@) =~= shown.push(ascii_text(line@)));
            assert(texts(rows.push(line@)) =~= texts(rows).push(ascii_text(line@)));
            rows = rows.push(line@);
        }
        pos = end;
    }
    lines
}

/// Renders `chunk`, which starts at `chunk_offset` of the source, as a hexadecimal
/// listing with `bytes_per_row` bytes to a line: the offset of the row, the bytes
/// in hexadecimal, and the graphic characters among them between vertical bars.
///
/// A row size of zero is refused.
pub fn hex_dump(chunk: &[u8], chunk_offset: usize, bytes_per_row: usize) -> (result: Result<
    Vec<String>,
    ScanError,
>)
    requires
        chunk_offset + chunk@.len() <= usize::MAX,
    ensures
        bytes_per_row == 0 <==> result is Err,
        result is Err ==> result->Err_0 == ScanError::InvalidConfiguration(
            ConfigFault::ZeroBytesPerRow,
        ),
        result is Ok ==> line_views(result->Ok_0@) == texts(
            hex_rows(chunk@, chunk_offset as nat, bytes_per_row as nat),
        ),
{
    if bytes_per_row == 0 {
        Err(ScanError::InvalidConfiguration(ConfigFault::ZeroBytesPerRow))
    } else {
        Ok(render_rows(chunk, chunk_offset, bytes_per_row))
    }
}

} // verus!
