//! The context window: whole lines of a buffer around a cursor.
//!
//! Lines are parted by `'\n'`. A buffer that ends in `'\n'` has no line
//! behind it. The window is the piece of the buffer from the start of its
//! first line to the end of its last line, the closing `'\n'` left out.

use crate::markers::{CTOKEN, CURSOR_MARKER};
use crate::text::{
    chars_of, find_from, first_occurrence, lemma_first_occurrence, occurs_at, replace_first,
};
use vstd::prelude::*;

verus! {

/// Where the lines of `text` start: 0, and the index behind each `'\n'`.
pub open spec fn line_starts(text: Seq<char>) -> Seq<int>
    decreases text.len(),
{
    if text.len() == 0 {
        seq![0int]
    } else if text.last() == '\n' {
        line_starts(text.drop_last()).push(text.len() as int)
    } else {
        line_starts(text.drop_last())
    }
}

/// The line that index `at` lies in: the number of `'\n'` before it.
pub open spec fn line_of(text: Seq<char>, at: int) -> int {
    line_starts(text.take(at)).len() - 1
}

/// The number of lines. An empty piece behind the last `'\n'` is no line.
pub open spec fn line_count(text: Seq<char>) -> int {
    if line_starts(text).last() == text.len() {
        line_starts(text).len() - 1
    } else {
        line_starts(text).len() as int
    }
}

/// Where line `line` ends: at its `'\n'`, or at the end of the text.
pub open spec fn line_end(text: Seq<char>, line: int) -> int {
    if line + 1 < line_starts(text).len() {
        line_starts(text)[line + 1] - 1
    } else {
        text.len() as int
    }
}

/// How many lines a window of `radius` lines on either side spans in a text
/// of `lines` lines: `2 * radius + 1`, or every line of a text that has
/// fewer.
pub open spec fn window_span(lines: int, radius: int) -> int {
    if 2 * radius + 1 <= lines {
        2 * radius + 1
    } else {
        lines
    }
}

/// The first and the last line of the window around `line`, in a text of
/// `lines` lines.
///
/// The window starts `radius` lines before `line`, or as near to that as
/// lets it lie within the text: lines that one side cannot give are taken
/// on the other.
pub open spec fn window_lines(lines: int, line: int, radius: int) -> (int, int) {
    let span = window_span(lines, radius);
    let first = if line - radius < 0 {
        0
    } else if line - radius > lines - span {
        lines - span
    } else {
        line - radius
    };
    (first, first + span - 1)
}

/// The index in `text` at which the window around `cursor` starts.
pub open spec fn window_start(text: Seq<char>, cursor: int, radius: int) -> int {
    line_starts(text)[window_lines(line_count(text), line_of(text, cursor), radius).0]
}

/// The index in `text` at which the window around `cursor` ends.
pub open spec fn window_end(text: Seq<char>, cursor: int, radius: int) -> int {
    line_end(text, window_lines(line_count(text), line_of(text, cursor), radius).1)
}

/// The text of the window around `cursor`.
pub open spec fn context_window(text: Seq<char>, cursor: int, radius: int) -> Seq<char> {
    text.subrange(window_start(text, cursor, radius), window_end(text, cursor, radius))
}

/// The window holds its line and lies within the text.
pub proof fn lemma_window_lines(lines: int, line: int, radius: int)
    requires
        0 <= line < lines,
        0 <= radius,
    ensures
        0 <= window_lines(lines, line, radius).0 <= line <= window_lines(lines, line, radius).1
            < lines,
{
}

/// Line starts ascend from 0, lie within the text, and each but the first
/// stands behind a `'\n'`.
pub proof fn lemma_line_starts(text: Seq<char>)
    ensures
        line_starts(text).len() >= 1,
        line_starts(text)[0] == 0,
        forall|k: int|
            0 <= k < line_starts(text).len() ==> 0 <= #[trigger] line_starts(text)[k]
                <= text.len(),
        forall|j: int, k: int|
            0 <= j < k < line_starts(text).len() ==> #[trigger] line_starts(text)[j]
                < #[trigger] line_starts(text)[k],
        forall|k: int|
            1 <= k < line_starts(text).len() ==> text[#[trigger] line_starts(text)[k] - 1]
                == '\n',
    decreases text.len(),
{
    if text.len() > 0 {
        let rest = text.drop_last();
        lemma_line_starts(rest);
        let before = line_starts(rest);
        let starts = line_starts(text);
        assert forall|k: int| 1 <= k < starts.len() implies text[#[trigger] starts[k] - 1]
            == '\n' by {
            if k < before.len() {
                assert(rest[before[k] - 1] == text[before[k] - 1]);
            }
        }
        assert forall|j: int, k: int| 0 <= j < k < starts.len() implies #[trigger] starts[j]
            < #[trigger] starts[k] by {
            assert(starts[j] == before[j]);
            if k < before.len() {
                assert(starts[k] == before[k]);
            }
        }
    }
}

/// The line starts of the first `upto` characters open the line starts of
/// the text, and every later line starts behind them.
pub proof fn lemma_line_starts_prefix(text: Seq<char>, upto: int)
    requires
        0 <= upto <= text.len(),
    ensures
        line_starts(text.take(upto)).len() <= line_starts(text).len(),
        forall|k: int|
            0 <= k < line_starts(text.take(upto)).len() ==> #[trigger] line_starts(text)[k]
                == line_starts(text.take(upto))[k],
        forall|k: int|
            line_starts(text.take(upto)).len() <= k < line_starts(text).len()
                ==> #[trigger] line_starts(text)[k] > upto,
    decreases text.len(),
{
    if upto == text.len() {
        assert(text.take(upto) =~= text);
    } else {
        let rest = text.drop_last();
        assert(rest.take(upto) =~= text.take(upto));
        lemma_line_starts_prefix(rest, upto);
    }
}

/// Where the sentinel stands at `cursor`, the window holds it whole.
pub proof fn lemma_window_holds_cursor(text: Seq<char>, cursor: int, radius: int)
    requires
        0 <= radius,
        occurs_at(text, CURSOR_MARKER@, cursor),
    ensures
        0 <= line_of(text, cursor) < line_count(text),
        0 <= window_lines(line_count(text), line_of(text, cursor), radius).0 <= line_of(
            text,
            cursor,
        ) <= window_lines(line_count(text), line_of(text, cursor), radius).1 < line_count(text),
        0 <= window_start(text, cursor, radius) <= cursor,
        cursor + 2 <= window_end(text, cursor, radius) <= text.len(),
        occurs_at(
            context_window(text, cursor, radius),
            CURSOR_MARKER@,
            cursor - window_start(text, cursor, radius),
        ),
{
    reveal_strlit("??");
    let marker = CURSOR_MARKER@;
    assert(marker.len() == 2 && marker[0] == '?' && marker[1] == '?');
    assert(text.subrange(cursor, cursor + 2)[0] == '?');
    assert(text.subrange(cursor, cursor + 2)[1] == '?');
    let starts = line_starts(text);
    let line = line_of(text, cursor);
    lemma_line_starts(text);
    lemma_line_starts(text.take(cursor));
    lemma_line_starts_prefix(text, cursor);
    assert(starts[line] == line_starts(text.take(cursor))[line]);
    assert(starts[line] <= cursor);
    let span = window_lines(line_count(text), line, radius);
    assert(starts[starts.len() - 1] == starts.last());
    if line + 1 < starts.len() {
        assert(starts[line + 1] > cursor);
        assert(text[starts[line + 1] - 1] == '\n');
    }
    assert(starts[span.0] <= starts[line]);
    if span.1 + 1 < starts.len() {
        assert(starts[line + 1] <= starts[span.1 + 1]);
        assert(starts[span.1 + 1] <= text.len());
    }
    let from = window_start(text, cursor, radius);
    let to = window_end(text, cursor, radius);
    assert(text.subrange(from, to).subrange(cursor - from, cursor - from + 2) =~= text.subrange(
        cursor,
        cursor + 2,
    ));
}

/// A needle stands in a piece of a text where it stands in the text and
/// lies within the piece.
pub proof fn lemma_occurs_in_piece(
    text: Seq<char>,
    needle: Seq<char>,
    from: int,
    to: int,
    at: int,
)
    requires
        0 <= from <= to <= text.len(),
        0 <= at,
    ensures
        occurs_at(text.subrange(from, to), needle, at) <==> occurs_at(text, needle, from + at)
            && from + at + needle.len() <= to,
{
    if from + at + needle.len() <= to {
        assert(text.subrange(from, to).subrange(at, at + needle.len()) =~= text.subrange(
            from + at,
            from + at + needle.len(),
        ));
    }
}

/// The first occurrence in a piece of a text is the first occurrence in the
/// text from the start of the piece on, where that one lies within the piece.
pub proof fn lemma_first_occurrence_in_piece(
    text: Seq<char>,
    needle: Seq<char>,
    from: int,
    to: int,
)
    requires
        0 <= from <= to <= text.len(),
        first_occurrence(text, needle, from) is Some,
        first_occurrence(text, needle, from)->0 + needle.len() <= to,
    ensures
        first_occurrence(text.subrange(from, to), needle, 0) == Some(
            first_occurrence(text, needle, from)->0 - from,
        ),
{
    let piece = text.subrange(from, to);
    let at = first_occurrence(text, needle, from)->0;
    lemma_first_occurrence(text, needle, from);
    lemma_first_occurrence(piece, needle, 0);
    lemma_occurs_in_piece(text, needle, from, to, at - from);
    match first_occurrence(piece, needle, 0) {
        Some(found) => {
            lemma_occurs_in_piece(text, needle, from, to, found);
        },
        None => {},
    }
}

/// The line starts of `text`, and the line of `cursor`.
fn locate(text: &Vec<char>, cursor: usize) -> (found: (Vec<usize>, usize))
    requires
        cursor < text@.len(),
    ensures
        found.0@.len() == line_starts(text@).len(),
        forall|k: int| 0 <= k < found.0@.len() ==> found.0@[k] as int == line_starts(text@)[k],
        found.1 == line_of(text@, cursor as int),
{
    let n = text.len();
    let mut starts: Vec<usize> = Vec::new();
    starts.push(0);
    let mut line: usize = 0;
    let mut i: usize = 0;
    while i < n
        invariant
            n == text@.len(),
            i <= n,
            cursor < n,
            starts@.len() == line_starts(text@.take(i as int)).len(),
            forall|k: int|
                0 <= k < starts@.len() ==> starts@[k] as int == line_starts(
                    text@.take(i as int),
                )[k],
            i > cursor ==> line == line_of(text@, cursor as int),
        decreases n - i,
    {
        proof {
            lemma_line_starts(text@.take(i as int));
            assert(text@.take(i + 1).drop_last() =~= text@.take(i as int));
        }
        if i == cursor {
            line = starts.len() - 1;
        }
        if text[i] == '\n' {
            starts.push(i + 1);
        }
        i += 1;
    }
    assert(text@.take(n as int) =~= text@);
    (starts, line)
}

/// The first and the last line of the window around `line`.
fn window_bounds(lines: usize, line: usize, radius: usize) -> (bounds: (usize, usize))
    requires
        line < lines,
    ensures
        (bounds.0 as int, bounds.1 as int) == window_lines(lines as int, line as int, radius as int),
{
    let max_row: usize = lines - 1;
    let first: usize = if line >= radius && radius > max_row - line {
        max_row.saturating_sub(radius).saturating_sub(radius)
    } else {
        line.saturating_sub(radius)
    };
    let reach: usize = if line < radius {
        radius.saturating_add(radius)
    } else {
        line.saturating_add(radius)
    };
    let last: usize = if reach < max_row {
        reach
    } else {
        max_row
    };
    (first, last)
}

/// The window of `context_lines` lines on either side of the line of
/// `cursor`, with its first sentinel replaced by the cursor token; and the
/// offset in `original` that the window is taken to start at: `cursor` less
/// the place of that sentinel in the window.
///
/// The sentinel must stand at `cursor`. Where no sentinel stands in the
/// window before `cursor`, the offset is where the window starts in
/// `original`.
pub fn build_context(original: &str, cursor: usize, context_lines: usize) -> (context: (
    String,
    usize,
))
    requires
        occurs_at(original@, CURSOR_MARKER@, cursor as int),
    ensures
        context.0@ == replace_first(
            context_window(original@, cursor as int, context_lines as int),
            CURSOR_MARKER@,
            CTOKEN@,
        ),
        first_occurrence(
            context_window(original@, cursor as int, context_lines as int),
            CURSOR_MARKER@,
            0,
        ) is Some,
        context.1 == cursor - first_occurrence(
            context_window(original@, cursor as int, context_lines as int),
            CURSOR_MARKER@,
            0,
        )->0,
        window_start(original@, cursor as int, context_lines as int) <= context.1 <= cursor,
        (forall|at: int|
            window_start(original@, cursor as int, context_lines as int) <= at < cursor
                ==> !occurs_at(original@, CURSOR_MARKER@, at)) ==> context.1 == window_start(
            original@,
            cursor as int,
            context_lines as int,
        ),
{
    let text = chars_of(original);
    let marker = chars_of(CURSOR_MARKER);
    proof {
        reveal_strlit("??");
        lemma_window_holds_cursor(original@, cursor as int, context_lines as int);
        lemma_line_starts(original@);
    }
    let (starts, line) = locate(&text, cursor);
    let lines: usize = if starts[starts.len() - 1] == text.len() {
        starts.len() - 1
    } else {
        starts.len()
    };
    let (first, last) = window_bounds(lines, line, context_lines);
    let from: usize = starts[first];
    let to: usize = if last + 1 < starts.len() {
        starts[last + 1] - 1
    } else {
        text.len()
    };
    let found = find_from(&text, &marker, from);
    proof {
        lemma_first_occurrence(text@, marker@, from as int);
        lemma_first_occurrence_in_piece(text@, marker@, from as int, to as int);
    }
    let at: usize = found.unwrap();
    let mut window = String::new();
    window.append(original.substring_char(from, at));
    window.append(CTOKEN);
    window.append(original.substring_char(at + marker.len(), to));
    proof {
        let piece = text@.subrange(from as int, to as int);
        assert(piece.take(at - from) =~= text@.subrange(from as int, at as int));
        assert(piece.skip(at - from + 2) =~= text@.subrange(at + 2, to as int));
    }
    (window, cursor - (at - from))
}

} // verus!
