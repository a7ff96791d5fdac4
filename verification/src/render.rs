//! One line of the hex dump: an offset header, the bytes in hexadecimal, and the same bytes
//! as characters, with the columns of a match wrapped in markers.

use vstd::prelude::*;
use crate::hex::{
    byte_hex, byte_of_digits, hex_padded, lemma_hex_digit_value, push_byte_hex, push_hex,
};
use crate::text::push_char;

verus! {

/// Whether a byte is shown as itself in the character column: ASCII and not a control code.
pub open spec fn is_printable(b: u8) -> bool {
    32 <= b <= 126
}

/// Whether column `i` lies in the highlighted range `[from, to)`.
pub open spec fn is_lit(i: int, from: int, to: int) -> bool {
    from <= i < to
}

/// The hexadecimal cell of column `i`: a space and two digits for a byte that was read,
/// three spaces for a column past the end of `bytes`.
pub open spec fn hex_cell(bytes: Seq<u8>, i: int) -> Seq<char> {
    if 0 <= i < bytes.len() {
        seq![' '] + byte_hex(bytes[i])
    } else {
        seq![' ', ' ', ' ']
    }
}

/// The character cell of column `i`: the byte itself when printable, a dot when not, and a
/// space for a column past the end of `bytes`.
pub open spec fn char_cell(bytes: Seq<u8>, i: int) -> Seq<char> {
    if 0 <= i < bytes.len() {
        if is_printable(bytes[i]) {
            seq![bytes[i] as char]
        } else {
            seq!['.']
        }
    } else {
        seq![' ']
    }
}

/// A cell as it is written: between `open` and `close` when highlighted, bare otherwise.
pub open spec fn marked(cell: Seq<char>, lit: bool, open: Seq<char>, close: Seq<char>) -> Seq<
    char,
> {
    if lit {
        open + cell + close
    } else {
        cell
    }
}

/// The extra space that starts a group of `width / 2` columns; lines one column wide have
/// no groups.
pub open spec fn group_gap(width: int, i: int) -> Seq<char> {
    if width != 1 && i % (width / 2) == 0 {
        seq![' ']
    } else {
        Seq::empty()
    }
}

/// The hexadecimal part of a line, columns `0..upto`.
pub open spec fn hex_columns(
    bytes: Seq<u8>,
    width: int,
    from: int,
    to: int,
    open: Seq<char>,
    close: Seq<char>,
    upto: int,
) -> Seq<char>
    decreases upto,
{
    if upto <= 0 {
        Seq::empty()
    } else {
        hex_columns(bytes, width, from, to, open, close, upto - 1) + group_gap(width, upto - 1)
            + marked(hex_cell(bytes, upto - 1), is_lit(upto - 1, from, to), open, close)
    }
}

/// The character part of a line, columns `0..upto`.
pub open spec fn char_columns(
    bytes: Seq<u8>,
    from: int,
    to: int,
    open: Seq<char>,
    close: Seq<char>,
    upto: int,
) -> Seq<char>
    decreases upto,
{
    if upto <= 0 {
        Seq::empty()
    } else {
        char_columns(bytes, from, to, open, close, upto - 1) + marked(
            char_cell(bytes, upto - 1),
            is_lit(upto - 1, from, to),
            open,
            close,
        )
    }
}

/// The text of the dump line that starts at offset `start` and shows `bytes` in `width`
/// columns, with columns `[from, to)` highlighted.
pub open spec fn line_text(
    start: nat,
    bytes: Seq<u8>,
    width: int,
    from: int,
    to: int,
    open: Seq<char>,
    close: Seq<char>,
) -> Seq<char> {
    hex_padded(start, 8) + hex_columns(bytes, width, from, to, open, close, width) + seq![
        ' ',
        ' ',
        '|',
    ] + char_columns(bytes, from, to, open, close, width) + seq!['|']
}

/// A column past the last byte that was read is blank in both parts of the line: it shows
/// neither digits nor a character, whatever was read before it.  A column within the
/// bytes read shows the two digits of its own byte.
pub proof fn lemma_columns_past_the_read_are_blank(bytes: Seq<u8>, i: int)
    ensures
        i >= bytes.len() ==> hex_cell(bytes, i) == seq![' ', ' ', ' '],
        i >= bytes.len() ==> char_cell(bytes, i) == seq![' '],
        0 <= i < bytes.len() ==> hex_cell(bytes, i).len() == 3 && byte_of_digits(
            hex_cell(bytes, i)[1],
            hex_cell(bytes, i)[2],
        ) == bytes[i],
{
    if 0 <= i < bytes.len() {
        lemma_hex_digit_value(bytes[i] as int / 16);
        lemma_hex_digit_value(bytes[i] as int % 16);
    }
}

/// Appends one cell to `out`, wrapped in the markers when `lit`.
fn push_hex_cell(out: &mut String, bytes: &[u8], i: usize, lit: bool, open: &str, close: &str)
    ensures
        final(out)@ == old(out)@ + marked(hex_cell(bytes@, i as int), lit, open@, close@),
{
    if lit {
        out.append(open);
    }
    let ghost mid = out@;
    if i < bytes.len() {
        push_char(out, ' ');
        push_byte_hex(out, bytes[i]);
    } else {
        push_char(out, ' ');
        push_char(out, ' ');
        push_char(out, ' ');
    }
    proof {
        assert(out@ =~= mid + hex_cell(bytes@, i as int));
    }
    if lit {
        out.append(close);
    }
    proof {
        assert(out@ =~= old(out)@ + marked(hex_cell(bytes@, i as int), lit, open@, close@));
    }
}

/// Appends one character cell to `out`, wrapped in the markers when `lit`.
fn push_char_cell(out: &mut String, bytes: &[u8], i: usize, lit: bool, open: &str, close: &str)
    ensures
        final(out)@ == old(out)@ + marked(char_cell(bytes@, i as int), lit, open@, close@),
{
    if lit {
        out.append(open);
    }
    let ghost mid = out@;
    if i < bytes.len() {
        let b: u8 = bytes[i];
        if 32 <= b && b <= 126 {
            push_char(out, b as char);
        } else {
            push_char(out, '.');
        }
    } else {
        push_char(out, ' ');
    }
    proof {
        assert(out@ =~= mid + char_cell(bytes@, i as int));
    }
    if lit {
        out.append(close);
    }
    proof {
        assert(out@ =~= old(out)@ + marked(char_cell(bytes@, i as int), lit, open@, close@));
    }
}

/// Formats the dump line that starts at offset `start`.
///
/// `bytes` is what was read at `start`, at most `width` bytes and fewer at the end of the
/// source; columns past its end are left blank.  The columns `[from, to)` are wrapped in
/// `open` and `close`.  Nothing is rendered for a line of which no byte could be read.
pub fn render_line(
    start: u64,
    bytes: &[u8],
    width: usize,
    from: usize,
    to: usize,
    open: &str,
    close: &str,
) -> (line: Option<String>)
    ensures
        match line {
            Some(s) => bytes@.len() > 0 && s@ == line_text(
                start as nat,
                bytes@,
                width as int,
                from as int,
                to as int,
                open@,
                close@,
            ),
            None => bytes@.len() == 0,
        },
{
    if bytes.len() == 0 {
        return None;
    }
    let mut out = String::new();
    push_hex(&mut out, start, 8);
    let ghost header = out@;
    let mut i: usize = 0;
    while i < width
        invariant
            i <= width,
            out@ == header + hex_columns(
                bytes@,
                width as int,
                from as int,
                to as int,
                open@,
                close@,
                i as int,
            ),
        decreases width - i,
    {
        let ghost before = out@;
        if width != 1 && i % (width / 2) == 0 {
            push_char(&mut out, ' ');
        }
        proof {
            assert(out@ =~= before + group_gap(width as int, i as int));
        }
        push_hex_cell(&mut out, bytes, i, from <= i && i < to, open, close);
        i = i + 1;
        proof {
            assert(out@ =~= header + hex_columns(
                bytes@,
                width as int,
                from as int,
                to as int,
                open@,
                close@,
                i as int,
            ));
        }
    }
    let ghost left = out@;
    push_char(&mut out, ' ');
    push_char(&mut out, ' ');
    push_char(&mut out, '|');
    let ghost middle = out@;
    proof {
        assert(middle =~= left + seq![' ', ' ', '|']);
    }
    let mut j: usize = 0;
    while j < width
        invariant
            j <= width,
            out@ == middle + char_columns(
                bytes@,
                from as int,
                to as int,
                open@,
                close@,
                j as int,
            ),
        decreases width - j,
    {
        push_char_cell(&mut out, bytes, j, from <= j && j < to, open, close);
        j = j + 1;
        proof {
            assert(out@ =~= middle + char_columns(
                bytes@,
                from as int,
                to as int,
                open@,
                close@,
                j as int,
            ));
        }
    }
    push_char(&mut out, '|');
    proof {
        assert(out@ =~= line_text(
            start as nat,
            bytes@,
            width as int,
            from as int,
            to as int,
            open@,
            close@,
        ));
    }
    Some(out)
}

} // verus!
