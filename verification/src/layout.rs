//! Which lines of the dump surround a match, and which columns of them are highlighted.
//!
//! A line holds `width` bytes and starts at a multiple of `width`.  The dump of a match
//! shows up to `context` lines before the match, the lines that the match lies on, and up
//! to `context` lines after it, with a marker in place of the first line that would start
//! at or past the end of the source.

use vstd::prelude::*;
use vstd::arithmetic::div_mod::{lemma_fundamental_div_mod, lemma_fundamental_div_mod_converse};

verus! {

/// One row of the dump of a match.
#[derive(Clone, Copy, Debug, PartialEq, Eq, Structural)]
pub enum Row {
    /// The line of the source that starts at `start`, with columns `[from, to)`
    /// highlighted; `from == to` where nothing is.
    Line { start: u64, from: usize, to: usize },
    /// The source ended before all the lines of context were shown.
    EndOfFile,
}

/// The lesser of two numbers.
pub open spec fn lesser(a: int, b: int) -> int {
    if a <= b {
        a
    } else {
        b
    }
}

/// The greater of two numbers.
pub open spec fn greater(a: int, b: int) -> int {
    if a >= b {
        a
    } else {
        b
    }
}

/// The start of the line that holds offset `o`.
pub open spec fn line_start(o: int, width: int) -> int {
    o - o % width
}

/// The number of lines that the bytes `[o, o + len)` lie on: from the line that holds the
/// first byte to the line that holds the last.
pub open spec fn match_lines(o: int, len: int, width: int) -> int {
    (o + len - 1) / width - o / width + 1
}

/// A line of context: nothing in it is highlighted.
pub open spec fn context_row(start: int) -> Row {
    Row::Line { start: start as u64, from: 0, to: 0 }
}

/// The `j`-th line that the match lies on.  Its highlighted columns are those of the bytes
/// that belong both to the line and to the match `[o, o + len)`.
pub open spec fn match_row(o: int, len: int, width: int, j: int) -> Row {
    let start = line_start(o, width) + width * j;
    Row::Line {
        start: start as u64,
        from: greater(o - start, 0) as usize,
        to: lesser(o + len - start, width) as usize,
    }
}

/// The lines of context before the match: the `context` lines that precede the first line
/// of the match, or as many as there are between it and the start of the source.
pub open spec fn rows_before(o: int, width: int, context: int) -> Seq<Row> {
    let n = lesser(context, o / width);
    Seq::new(n as nat, |j: int| context_row(line_start(o, width) - width * (n - j)))
}

/// The lines that the match lies on.
pub open spec fn rows_of_match(o: int, len: int, width: int) -> Seq<Row> {
    Seq::new(match_lines(o, len, width) as nat, |j: int| match_row(o, len, width, j))
}

/// The number of lines of the source that start at or after `first`, itself the start of
/// a line.
pub open spec fn lines_left(first: int, width: int, source_len: int) -> int {
    if first >= source_len {
        0
    } else {
        (source_len - first - 1) / width + 1
    }
}

/// The lines of context after the match, and after them the end-of-file marker when the
/// source has fewer than `context` lines left.
pub open spec fn rows_after(o: int, len: int, width: int, context: int, source_len: int) -> Seq<
    Row,
> {
    let first = line_start(o, width) + width * match_lines(o, len, width);
    let left = lines_left(first, width, source_len);
    let n = lesser(context, left);
    Seq::new(n as nat, |j: int| context_row(first + width * j)) + if left < context {
        seq![Row::EndOfFile]
    } else {
        Seq::empty()
    }
}

/// The rows of the dump of the match `[o, o + len)`.
pub open spec fn dump_rows(o: int, len: int, width: int, context: int, source_len: int) -> Seq<
    Row,
> {
    rows_before(o, width, context) + rows_of_match(o, len, width) + rows_after(
        o,
        len,
        width,
        context,
        source_len,
    )
}

/// `x / width` rounded up.
pub open spec fn lines_for(x: int, width: int) -> int {
    x / width + if x % width != 0 {
        1int
    } else {
        0int
    }
}

/// Dividing a multiple of `width` plus a rest.
proof fn lemma_div_shift(q: int, t: int, width: int)
    requires
        width > 0,
        t >= 0,
    ensures
        (width * q + t) / width == q + t / width,
        (width * q + t) % width == t % width,
{
    lemma_fundamental_div_mod(t, width);
    assert(width * q + t == (q + t / width) * width + t % width) by (nonlinear_arith)
        requires
            t == width * (t / width) + t % width,
    ;
    lemma_fundamental_div_mod_converse(width * q + t, width, q + t / width, t % width);
}

/// Rounding up is dividing one less and adding one.
proof fn lemma_lines_for(x: int, width: int)
    requires
        width > 0,
        x >= 1,
    ensures
        lines_for(x, width) == (x - 1) / width + 1,
{
    lemma_fundamental_div_mod(x, width);
    let q = x / width;
    let r = x % width;
    if r == 0 {
        assert(x - 1 == (q - 1) * width + (width - 1)) by (nonlinear_arith)
            requires
                x == width * q,
        ;
        lemma_fundamental_div_mod_converse(x - 1, width, q - 1, width - 1);
    } else {
        assert(x - 1 == q * width + (r - 1)) by (nonlinear_arith)
            requires
                x == width * q + r,
        ;
        lemma_fundamental_div_mod_converse(x - 1, width, q, r - 1);
    }
}

/// The arithmetic of a match on its lines: their number is one for a first line that the
/// match enters after column 0 and leaves at its end, plus the lines needed for the bytes
/// that remain; and the match ends on its last line in the column `(o + len) % width`, or
/// with the line when that is 0.
pub proof fn lemma_match_geometry(o: int, len: int, width: int)
    requires
        o >= 0,
        len >= 1,
        width >= 1,
    ensures
        0 <= o % width < width,
        line_start(o, width) == width * (o / width),
        match_lines(o, len, width) >= 1,
        match_lines(o, len, width) == (o % width + len - 1) / width + 1,
        match_lines(o, len, width) == if o % width != 0 && o % width + len > width {
            1 + lines_for(len - (width - o % width), width)
        } else {
            lines_for(len, width)
        },
        (o % width + len) % width == (o + len) % width,
        line_start(o, width) + width * (match_lines(o, len, width) - 1) < o + len,
        o + len <= line_start(o, width) + width * match_lines(o, len, width),
        o + len - (line_start(o, width) + width * (match_lines(o, len, width) - 1)) == if (o
            % width + len) % width == 0 {
            width
        } else {
            (o % width + len) % width
        },
{
    let col = o % width;
    let q = o / width;
    lemma_fundamental_div_mod(o, width);
    let t = col + len - 1;
    assert(o + len - 1 == width * q + t);
    lemma_div_shift(q, t, width);
    let lines = match_lines(o, len, width);
    assert(lines == t / width + 1);
    lemma_fundamental_div_mod(t, width);
    assert(t / width >= 0) by (nonlinear_arith)
        requires
            t >= 0,
            width > 0,
    ;
    if col != 0 && col + len > width {
        let x = len - (width - col);
        lemma_lines_for(x, width);
        assert(t == width * 1 + (x - 1));
        lemma_div_shift(1, x - 1, width);
    } else {
        lemma_lines_for(len, width);
        if col != 0 {
            lemma_fundamental_div_mod_converse(len - 1, width, 0, len - 1);
            lemma_fundamental_div_mod_converse(t, width, 0, t);
        }
    }
    lemma_div_shift(q, col + len, width);
    assert(width * (lines - 1) == width * (t / width)) by (nonlinear_arith)
        requires
            lines == t / width + 1,
    ;
    assert(width * lines == width * (t / width) + width) by (nonlinear_arith)
        requires
            lines == t / width + 1,
    ;
    let last = o + len - (line_start(o, width) + width * (lines - 1));
    assert(last == t % width + 1);
    lemma_lines_for(col + len, width);
    lemma_fundamental_div_mod(col + len, width);
    if (col + len) % width == 0 {
        assert(lines_for(col + len, width) == (col + len) / width);
        assert(col + len == width * (t / width + 1));
        assert(t % width + 1 == width) by (nonlinear_arith)
            requires
                col + len == width * (t / width + 1),
                t == width * (t / width) + t % width,
                t == col + len - 1,
        ;
    } else {
        assert((col + len) / width == t / width);
        assert(t % width + 1 == (col + len) % width) by (nonlinear_arith)
            requires
                col + len == width * ((col + len) / width) + (col + len) % width,
                (col + len) / width == t / width,
                t == width * (t / width) + t % width,
                t == col + len - 1,
        ;
    }
}

/// On the lines of a match, a column is highlighted exactly when its byte belongs to the
/// match; the highlighted columns of each line are a non-empty range within the line.
pub proof fn lemma_highlight_is_the_match(o: int, len: int, width: int, j: int, column: int)
    requires
        o >= 0,
        len >= 1,
        1 <= width <= usize::MAX,
        o + len <= u64::MAX,
        0 <= j < match_lines(o, len, width),
        0 <= column < width,
    ensures
        match_row(o, len, width, j) matches Row::Line { start, from, to } && {
            &&& start == line_start(o, width) + width * j
            &&& 0 <= from < to <= width
            &&& (from <= column < to <==> o <= start + column < o + len)
        },
{
    lemma_match_geometry(o, len, width);
    let lines = match_lines(o, len, width);
    let line = line_start(o, width);
    assert(0 <= width * j <= width * (lines - 1)) by (nonlinear_arith)
        requires
            width > 0,
            0 <= j <= lines - 1,
    ;
    if j > 0 {
        assert(width * j >= width) by (nonlinear_arith)
            requires
                width > 0,
                j >= 1,
        ;
    }
}

/// The lines of a match as they are counted off one by one: the first is highlighted from
/// the column of the match's first byte, the last up to the column after its last byte,
/// which is the full width when the match ends with the line, and every line between them
/// in full.
pub proof fn lemma_match_row_columns(o: int, len: int, width: int, j: int)
    requires
        o >= 0,
        len >= 1,
        1 <= width <= usize::MAX,
        o + len <= u64::MAX,
        0 <= j < match_lines(o, len, width),
    ensures
        match_row(o, len, width, j) == (Row::Line {
            start: (line_start(o, width) + width * j) as u64,
            from: if j == 0 {
                (o % width) as usize
            } else {
                0
            },
            to: if j < match_lines(o, len, width) - 1 {
                width as usize
            } else if (o + len) % width == 0 {
                width as usize
            } else {
                ((o + len) % width) as usize
            },
        }),
{
    lemma_match_geometry(o, len, width);
    let lines = match_lines(o, len, width);
    assert(0 <= width * j <= width * (lines - 1)) by (nonlinear_arith)
        requires
            width > 0,
            0 <= j <= lines - 1,
    ;
    if j > 0 {
        assert(width * j >= width) by (nonlinear_arith)
            requires
                width > 0,
                j >= 1,
        ;
    }
    if j < lines - 1 {
        assert(width * j + width <= width * (lines - 1)) by (nonlinear_arith)
            requires
                width > 0,
                j + 1 <= lines - 1,
        ;
    }
}

/// A whole number of lines from the start of the source is the start of a line.
proof fn lemma_multiple_is_line_start(width: int, n: int)
    requires
        width >= 1,
    ensures
        (width * n) % width == 0,
{
    lemma_div_shift(n, 0, width);
    lemma_fundamental_div_mod_converse(0, width, 0, 0);
}

/// Every line of a dump is a line of the source: it starts at a multiple of the width and
/// before the end of the source, so there is at least one byte to show on it.
pub proof fn lemma_rows_are_lines_of_the_source(
    o: int,
    len: int,
    width: int,
    context: int,
    source_len: int,
    i: int,
)
    requires
        o >= 0,
        len >= 1,
        width >= 1,
        context >= 0,
        o + len <= source_len <= u64::MAX,
        0 <= i < dump_rows(o, len, width, context, source_len).len(),
    ensures
        dump_rows(o, len, width, context, source_len)[i] matches Row::Line { start, .. } ==> start
            < source_len && start as int % width == 0,
{
    lemma_match_geometry(o, len, width);
    let before = rows_before(o, width, context);
    let on = rows_of_match(o, len, width);
    let after = rows_after(o, len, width, context, source_len);
    let all = dump_rows(o, len, width, context, source_len);
    let line = line_start(o, width);
    let lines = match_lines(o, len, width);
    if i < before.len() {
        let n = lesser(context, o / width);
        assert(all[i] == before[i]);
        assert(width <= width * (n - i) <= width * (o / width)) by (nonlinear_arith)
            requires
                width >= 1,
                1 <= n - i <= o / width,
        ;
        assert(line - width * (n - i) == width * (o / width - (n - i))) by (nonlinear_arith)
            requires
                line == width * (o / width),
        ;
        lemma_multiple_is_line_start(width, o / width - (n - i));
    } else if i < before.len() + on.len() {
        let j = i - before.len();
        assert(all[i] == on[j]);
        assert(0 <= width * j <= width * (lines - 1)) by (nonlinear_arith)
            requires
                width >= 1,
                0 <= j <= lines - 1,
        ;
        assert(line + width * j == width * (o / width + j)) by (nonlinear_arith)
            requires
                line == width * (o / width),
        ;
        lemma_multiple_is_line_start(width, o / width + j);
    } else {
        let j = i - before.len() - on.len();
        assert(all[i] == after[j]);
        let first = line + width * lines;
        let left = lines_left(first, width, source_len);
        lemma_lines_left(first, width, source_len, j);
        if j < lesser(context, left) {
            assert(width * j >= 0) by (nonlinear_arith)
                requires
                    width >= 1,
                    j >= 0,
            ;
            assert(width * lines >= 0) by (nonlinear_arith)
                requires
                    width >= 1,
                    lines >= 1,
            ;
            assert(first + width * j == width * (o / width + lines + j)) by (nonlinear_arith)
                requires
                    first == width * (o / width) + width * lines,
            ;
            lemma_multiple_is_line_start(width, o / width + lines + j);
        }
    }
}

/// Counting the lines that are left: the `a`-th line after `first` starts before the end
/// of the source exactly when `a` is less than their number.
proof fn lemma_lines_left(first: int, width: int, source_len: int, a: int)
    requires
        width > 0,
        a >= 0,
    ensures
        first + width * a < source_len <==> a < lines_left(first, width, source_len),
        lines_left(first, width, source_len) >= 0,
{
    if first >= source_len {
        assert(width * a >= 0) by (nonlinear_arith)
            requires
                width > 0,
                a >= 0,
        ;
    } else {
        let d = source_len - first - 1;
        lemma_fundamental_div_mod(d, width);
        assert((width * a <= d <==> a <= d / width) && d / width >= 0) by (nonlinear_arith)
            requires
                width > 0,
                a >= 0,
                d >= 0,
                d == width * (d / width) + d % width,
                0 <= d % width < width,
        ;
    }
}

/// Rounds `x / width` up.
fn lines_needed(x: u64, width: u64) -> (n: u64)
    requires
        width > 0,
        x >= 1,
    ensures
        n == lines_for(x as int, width as int),
        n == (x - 1) / (width as int) + 1,
{
    proof {
        lemma_lines_for(x as int, width as int);
        lemma_fundamental_div_mod(x as int, width as int);
        assert(x / width < u64::MAX || x % width == 0) by (nonlinear_arith)
            requires
                x == width * (x / width) + x % width,
                0 <= x % width < width,
                x <= u64::MAX,
                width > 0,
        ;
    }
    if x % width != 0 {
        x / width + 1
    } else {
        x / width
    }
}

/// Plans the dump of the match of `pattern_len` bytes at `offset`, in lines of `width`
/// bytes with `context` lines of context on either side, for a source of `source_len`
/// bytes.
///
/// The match lies within the source.  Lines before the start of the source are left out;
/// lines past its end are replaced by one end-of-file marker.
pub fn plan_dump(
    offset: u64,
    pattern_len: usize,
    width: usize,
    context: usize,
    source_len: u64,
) -> (rows: Vec<Row>)
    requires
        width > 0,
        pattern_len > 0,
        offset + pattern_len <= source_len,
    ensures
        rows@ == dump_rows(
            offset as int,
            pattern_len as int,
            width as int,
            context as int,
            source_len as int,
        ),
{
    let w: u64 = width as u64;
    let len: u64 = pattern_len as u64;
    let col: u64 = offset % w;
    proof {
        lemma_fundamental_div_mod(offset as int, width as int);
        assert((width as int) * (offset as int / width as int) >= 0) by (nonlinear_arith)
            requires
                width > 0,
                offset as int / width as int >= 0,
        ;
    }
    let line: u64 = offset - col;
    let ghost o = offset as int;
    let ghost wi = width as int;
    let ghost li = pattern_len as int;
    let ghost ci = context as int;
    let ghost si = source_len as int;
    proof {
        lemma_match_geometry(o, li, wi);
        lemma_div_shift(o / wi, 0, wi);
        lemma_fundamental_div_mod_converse(0, wi, 0, 0);
    }
    let mut rows: Vec<Row> = Vec::new();
    // The lines before the match.
    let above: u64 = line / w;
    let before: u64 = if (context as u64) < above {
        context as u64
    } else {
        above
    };
    proof {
        assert(above == o / wi);
        assert(before == lesser(ci, o / wi));
        assert(w * before <= line) by (nonlinear_arith)
            requires
                line == w * above,
                before <= above,
                w > 0,
        ;
    }
    let mut start: u64 = line - w * before;
    let mut j: u64 = 0;
    while j < before
        invariant
            j <= before,
            wi == w,
            wi > 0,
            w * before <= line,
            line == line_start(o, wi),
            before == lesser(ci, o / wi),
            start == line - wi * (before - j),
            rows@ == rows_before(o, wi, ci).take(j as int),
        decreases before - j,
    {
        proof {
            assert(wi * (before - j) == wi * (before - (j + 1)) + wi) by (nonlinear_arith);
            assert(wi * (before - (j + 1)) >= 0) by (nonlinear_arith)
                requires
                    wi > 0,
                    before - (j + 1) >= 0,
            ;
        }
        rows.push(Row::Line { start, from: 0, to: 0 });
        proof {
            let all = rows_before(o, wi, ci);
            assert(all.take(j + 1) =~= all.take(j as int).push(all[j as int]));
            assert(all[j as int] == context_row(line - wi * (before - j)));
        }
        start = start + w;
        j = j + 1;
    }
    proof {
        assert(rows_before(o, wi, ci).take(before as int) =~= rows_before(o, wi, ci));
        assert(wi * (before - before) == 0) by (nonlinear_arith);
    }
    let ghost head = rows@;
    // The lines that the match lies on.
    let wrapped: u64 = (col + len) % w;
    let end_col: u64 = if wrapped == 0 {
        w
    } else {
        wrapped
    };
    let lines: u64 = if col != 0 && col + len > w {
        let after_first: u64 = lines_needed(len - (w - col), w);
        proof {
            assert(after_first < u64::MAX) by {
                lemma_fundamental_div_mod(li - (wi - col) - 1, wi);
                assert((li - (wi - col) - 1) / wi <= li - (wi - col) - 1) by (nonlinear_arith)
                    requires
                        wi > 0,
                        li - (wi - col) - 1 >= 0,
                ;
            }
        }
        1 + after_first
    } else {
        lines_needed(len, w)
    };
    assert(lines == match_lines(o, li, wi));
    assert(1 <= end_col <= wi);
    let mut i: u64 = 0;
    while i < lines
        invariant
            i <= lines,
            wi == w,
            wi > 0,
            width == w,
            lines == match_lines(o, li, wi),
            lines >= 1,
            li >= 1,
            o + li <= si,
            si == source_len,
            o == offset,
            line == line_start(o, wi),
            col == o % wi,
            0 <= col < wi,
            line + wi * (lines - 1) < o + li,
            o + li <= line + wi * lines,
            o + li - (line + wi * (lines - 1)) == end_col,
            1 <= end_col <= wi,
            i < lines ==> start == line + wi * i,
            i == lines ==> start == line + wi * (lines - 1),
            rows@ == head + rows_of_match(o, li, wi).take(i as int),
        decreases lines - i,
    {
        let from: usize = if i == 0 {
            col as usize
        } else {
            0
        };
        let to: usize = if i == lines - 1 {
            end_col as usize
        } else {
            width
        };
        proof {
            assert(wi * i <= wi * (lines - 1)) by (nonlinear_arith)
                requires
                    wi > 0,
                    i <= lines - 1,
            ;
            assert(wi * i >= 0) by (nonlinear_arith)
                requires
                    wi > 0,
                    i >= 0,
            ;
            if i > 0 {
                assert(wi * i >= wi) by (nonlinear_arith)
                    requires
                        wi > 0,
                        i >= 1,
                ;
            } else {
                assert(wi * i == 0) by (nonlinear_arith)
                    requires
                        i == 0,
                ;
            }
            if i < lines - 1 {
                assert(wi * i + wi <= wi * (lines - 1)) by (nonlinear_arith)
                    requires
                        wi > 0,
                        i + 1 <= lines - 1,
                ;
            }
            assert(match_row(o, li, wi, i as int) == (Row::Line { start, from, to }));
        }
        rows.push(Row::Line { start, from, to });
        proof {
            let all = rows_of_match(o, li, wi);
            assert(all.take(i + 1) =~= all.take(i as int).push(all[i as int]));
            assert(rows@ =~= head + all.take(i + 1));
            assert(wi * (i + 1) == wi * i + wi) by (nonlinear_arith);
        }
        i = i + 1;
        if i < lines {
            start = start + w;
        }
    }
    proof {
        assert(rows_of_match(o, li, wi).take(lines as int) =~= rows_of_match(o, li, wi));
    }
    let ghost upper = rows@;
    // The lines after the match.
    let ghost first = line_start(o, wi) + wi * match_lines(o, li, wi);
    let ghost left = lines_left(first, wi, si);
    proof {
        assert(wi * lines == wi * (lines - 1) + wi) by (nonlinear_arith);
        assert(first + wi * 0 == first) by (nonlinear_arith);
        lemma_lines_left(first, wi, si, 0);
    }
    let mut next: Option<u64> = start.checked_add(w);
    let mut a: usize = 0;
    let mut ended: bool = false;
    while a < context && !ended
        invariant
            a <= context,
            wi == w,
            wi > 0,
            si == source_len,
            ci == context,
            first == line_start(o, wi) + wi * match_lines(o, li, wi),
            left == lines_left(first, wi, si),
            left >= 0,
            match next {
                Some(s) => s == first + wi * a,
                None => first + wi * a > u64::MAX,
            },
            !ended ==> a <= left && rows@ == upper + Seq::new(
                a as nat,
                |j: int| context_row(first + wi * j),
            ),
            ended ==> rows@ == upper + rows_after(o, li, wi, ci, si),
        decreases context - a, if ended { 0int } else { 1int },
    {
        let ghost so_far = Seq::new(a as nat, |j: int| context_row(first + wi * j));
        proof {
            lemma_lines_left(first, wi, si, a as int);
            lemma_lines_left(first, wi, si, a + 1);
            assert(wi * (a + 1) == wi * a + wi) by (nonlinear_arith);
        }
        let mut shown: bool = false;
        match next {
            Some(s) => {
                if s < source_len {
                    rows.push(Row::Line { start: s, from: 0, to: 0 });
                    next = s.checked_add(w);
                    shown = true;
                }
            },
            None => {},
        }
        if shown {
            proof {
                let longer = Seq::new((a + 1) as nat, |j: int| context_row(first + wi * j));
                assert(longer =~= so_far.push(context_row(first + wi * a)));
                assert(rows@ =~= upper + longer);
            }
            a = a + 1;
        } else {
            rows.push(Row::EndOfFile);
            ended = true;
            proof {
                assert(a == left);
                assert(lesser(ci, left) == a);
                assert(rows_after(o, li, wi, ci, si) =~= so_far.push(Row::EndOfFile));
                assert(rows@ =~= upper + so_far.push(Row::EndOfFile));
            }
        }
    }
    proof {
        if !ended {
            assert(a == context);
            assert(lesser(ci, left) == ci);
            assert(rows@ =~= upper + rows_after(o, li, wi, ci, si));
        }
        assert(upper + rows_after(o, li, wi, ci, si) =~= dump_rows(o, li, wi, ci, si));
    }
    rows
}

} // verus!
