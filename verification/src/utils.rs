//! Small helpers of the file watcher: ignored paths, change detection, and
//! the line and column of a byte offset.

use crate::text::{chars_of, same_text};
use vstd::prelude::*;
use vstd::utf8::encode_scalar;

verus! {

/// Names of directories and files that are not watched.
pub const IGNORE_DIRS: [&'static str; 13] = [
    ".git",
    ".idea",
    ".vscode",
    "node_modules",
    "dist",
    "target",
    "__pycache__",
    ".pytest_cache",
    "build",
    ".DS_Store",
    ".venv",
    "venv",
    "coder.rs",
];

/// `name` is one of [`IGNORE_DIRS`].
pub open spec fn is_ignored_name(name: Seq<char>) -> bool {
    exists|k: int| 0 <= k < IGNORE_DIRS@.len() && #[trigger] IGNORE_DIRS@[k]@ == name
}

/// Whether a component of the path is one of [`IGNORE_DIRS`]. The path is
/// given by its components, in order.
pub fn is_ignored_dir(path: &Vec<String>) -> (ignored: bool)
    ensures
        ignored == exists|i: int| 0 <= i < path@.len() && is_ignored_name(#[trigger] path@[i]@),
{
    let mut i: usize = 0;
    while i < path.len()
        invariant
            i <= path.len(),
            forall|j: int| 0 <= j < i ==> !is_ignored_name(#[trigger] path@[j]@),
        decreases path.len() - i,
    {
        let mut k: usize = 0;
        while k < 13
            invariant
                k <= 13,
                i < path.len(),
                forall|j: int| 0 <= j < k ==> #[trigger] IGNORE_DIRS@[j]@ != path@[i as int]@,
            decreases 13 - k,
        {
            if same_text(IGNORE_DIRS[k], path[i].as_str()) {
                return true;
            }
            k += 1;
        }
        i += 1;
    }
    false
}

/// Whether the content of a file differs from what was last known of it.
/// A file of which nothing is known has changed.
pub fn has_content_changed(old: Option<&String>, new: &str) -> (changed: bool)
    ensures
        changed == match old {
            Some(old_content) => old_content@ != new@,
            None => true,
        },
{
    match old {
        Some(old_content) => !same_text(old_content.as_str(), new),
        None => true,
    }
}

/// The number of bytes that the UTF-8 encoding of `c` takes.
pub open spec fn utf8_width(c: char) -> nat {
    encode_scalar(c as u32).len()
}

/// How many leading characters of `text` end at or before byte `b` of its
/// UTF-8 encoding.
pub open spec fn chars_before(text: Seq<char>, b: int) -> nat
    decreases text.len(),
{
    if text.len() == 0 || utf8_width(text[0]) > b {
        0
    } else {
        1 + chars_before(text.drop_first(), b - utf8_width(text[0]))
    }
}

/// The line and the column that stand behind `text`: the number of `'\n'`
/// in it, and the number of characters behind the last of them.
pub open spec fn point_behind(text: Seq<char>) -> (nat, nat)
    decreases text.len(),
{
    if text.len() == 0 {
        (0, 0)
    } else if text.last() == '\n' {
        ((point_behind(text.drop_last()).0 + 1) as nat, 0)
    } else {
        (point_behind(text.drop_last()).0, (point_behind(text.drop_last()).1 + 1) as nat)
    }
}

/// The number of bytes that the UTF-8 encoding of `c` takes.
pub fn char_width(c: char) -> (width: usize)
    ensures
        width == utf8_width(c),
        1 <= width <= 4,
{
    broadcast use vstd::utf8::char_is_scalar;

    let code = c as u32;
    if code < 0x80 {
        1
    } else if code < 0x800 {
        2
    } else if code < 0x10000 {
        3
    } else {
        4
    }
}

/// The line and the column of byte offset `b` in `s`, both counted from 0;
/// columns count characters. A character counts as passed once `b` has
/// reached its last byte; an offset behind the text gives the point behind
/// the text.
pub fn byte_to_point(b: usize, s: &str) -> (point: (usize, usize))
    ensures
        point.0 == point_behind(s@.take(chars_before(s@, b as int) as int)).0,
        point.1 == point_behind(s@.take(chars_before(s@, b as int) as int)).1,
{
    let text = chars_of(s);
    let mut line: usize = 0;
    let mut col: usize = 0;
    let mut byte_pos: usize = 0;
    let mut i: usize = 0;
    assert(text@.skip(0) =~= text@);
    while i < text.len()
        invariant
            text@ == s@,
            i <= text.len(),
            byte_pos <= b,
            line <= i,
            col <= i,
            chars_before(text@, b as int) == i + chars_before(text@.skip(i as int), b - byte_pos),
            line == point_behind(text@.take(i as int)).0,
            col == point_behind(text@.take(i as int)).1,
        decreases text.len() - i,
    {
        let ch = text[i];
        let ch_len = char_width(ch);
        proof {
            assert(text@.skip(i as int).drop_first() =~= text@.skip(i + 1));
            assert(text@.take(i + 1).drop_last() =~= text@.take(i as int));
        }
        if ch_len > b - byte_pos {
            return (line, col);
        }
        if ch == '\n' {
            line += 1;
            col = 0;
        } else {
            col += 1;
        }
        byte_pos += ch_len;
        i += 1;
    }
    (line, col)
}

} // verus!
