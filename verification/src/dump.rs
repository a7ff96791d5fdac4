//! The whole dump of a match in a source that is held in memory.

use vstd::prelude::*;
use vstd::slice::slice_subrange;
use vstd::string::StringExecFns;
use crate::layout::{dump_rows, lemma_rows_are_lines_of_the_source, lesser, plan_dump, Row};
use crate::render::{line_text, render_line};

verus! {

/// The text that stands for the end of the source.
pub open spec fn end_marker() -> Seq<char> {
    seq!['(', 'E', 'O', 'F', ')']
}

/// The bytes of the line that starts at `start`: `width` of them, or as many as the
/// source has left.
pub open spec fn line_bytes(data: Seq<u8>, start: int, width: int) -> Seq<u8> {
    data.subrange(start, lesser(start + width, data.len() as int))
}

/// The text of one row of a dump.
pub open spec fn row_text(
    data: Seq<u8>,
    row: Row,
    width: int,
    open: Seq<char>,
    close: Seq<char>,
) -> Seq<char> {
    match row {
        Row::EndOfFile => end_marker(),
        Row::Line { start, from, to } => line_text(
            start as nat,
            line_bytes(data, start as int, width),
            width,
            from as int,
            to as int,
            open,
            close,
        ),
    }
}

/// Renders the dump of the match of `pattern_len` bytes at `offset` in `data`: one text
/// for each row that [`plan_dump`] plans, in order, with the columns of the match between
/// `open` and `close`.
pub fn dump_match(
    data: &[u8],
    offset: u64,
    pattern_len: usize,
    width: usize,
    context: usize,
    open: &str,
    close: &str,
) -> (lines: Vec<String>)
    requires
        width > 0,
        pattern_len > 0,
        offset + pattern_len <= data@.len(),
    ensures
        lines@.len() == dump_rows(
            offset as int,
            pattern_len as int,
            width as int,
            context as int,
            data@.len() as int,
        ).len(),
        forall|i: int|
            0 <= i < lines@.len() ==> (#[trigger] lines@[i])@ == row_text(
                data@,
                dump_rows(
                    offset as int,
                    pattern_len as int,
                    width as int,
                    context as int,
                    data@.len() as int,
                )[i],
                width as int,
                open@,
                close@,
            ),
{
    let total: usize = data.len();
    let rows = plan_dump(offset, pattern_len, width, context, total as u64);
    let mut lines: Vec<String> = Vec::new();
    let mut i: usize = 0;
    while i < rows.len()
        invariant
            i <= rows@.len(),
            width > 0,
            pattern_len > 0,
            offset + pattern_len <= data@.len(),
            rows@ == dump_rows(
                offset as int,
                pattern_len as int,
                width as int,
                context as int,
                data@.len() as int,
            ),
            lines@.len() == i,
            data@.len() == total,
            forall|j: int|
                0 <= j < i ==> (#[trigger] lines@[j])@ == row_text(
                    data@,
                    rows@[j],
                    width as int,
                    open@,
                    close@,
                ),
        decreases rows@.len() - i,
    {
        proof {
            lemma_rows_are_lines_of_the_source(
                offset as int,
                pattern_len as int,
                width as int,
                context as int,
                data@.len() as int,
                i as int,
            );
        }
        let text: String = match rows[i] {
            Row::EndOfFile => {
                proof {
                    reveal_strlit("(EOF)");
                    assert("(EOF)"@ =~= end_marker());
                }
                String::from_str("(EOF)")
            },
            Row::Line { start, from, to } => {
                let begin: usize = start as usize;
                let end: usize = if data.len() - begin >= width {
                    begin + width
                } else {
                    data.len()
                };
                let bytes = slice_subrange(data, begin, end);
                render_line(start, bytes, width, from, to, open, close).unwrap()
            },
        };
        lines.push(text);
        i = i + 1;
    }
    lines
}

} // verus!
