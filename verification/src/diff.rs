//! Character-level edit lists between two fragments of text.
//!
//! The alignment of the two fragments is computed by the `similar` crate;
//! turning that alignment into a list of edits is verified here.

use crate::apply::{applied, patched, shifted};
use crate::error::Failure;
use crate::markers::CURSOR_MARKER;
use crate::rewrite::{
    lemma_edits_coalesced, lemma_equal_steps_give_no_edits, lemma_script_edits_replace_fragment,
    lemma_walks_one_by_one,
};
use crate::storage::{byte_offset, lemma_index_on_char_boundary};
use crate::text::{free_of, lemma_remove_all_free, occurs_at};
use vstd::prelude::*;
use vstd::utf8::{encode_utf8, is_char_boundary};

verus! {

/// Replaces the characters `[start, end)` of a buffer by `text`.
/// Offsets count characters.
#[derive(Debug, Clone, PartialEq, Eq)]
pub struct TextEdit {
    pub start: usize,
    pub end: usize,
    pub text: String,
}

/// The mathematical value of a [`TextEdit`].
pub struct Edit {
    pub start: int,
    pub end: int,
    pub text: Seq<char>,
}

impl View for TextEdit {
    type V = Edit;

    open spec fn view(&self) -> Edit {
        Edit { start: self.start as int, end: self.end as int, text: self.text@ }
    }
}

/// The values of a sequence of edits, one for one.
pub open spec fn views(edits: Seq<TextEdit>) -> Seq<Edit> {
    Seq::new(edits.len(), |i: int| edits[i]@)
}

/// What a step of an alignment does with its text.
#[derive(Debug, Clone, Copy, PartialEq, Eq)]
pub enum ChangeTag {
    /// The text stands in both fragments.
    Equal,
    /// The text stands in the old fragment only.
    Delete,
    /// The text stands in the new fragment only.
    Insert,
}

/// One step of an alignment of two fragments.
#[derive(Debug, Clone, PartialEq, Eq)]
pub struct Change {
    pub tag: ChangeTag,
    pub value: String,
}

/// The mathematical value of a [`Change`].
pub struct Step {
    pub tag: ChangeTag,
    pub text: Seq<char>,
}

impl View for Change {
    type V = Step;

    open spec fn view(&self) -> Step {
        Step { tag: self.tag, text: self.value@ }
    }
}

/// The values of a sequence of changes, one for one.
pub open spec fn steps(changes: Seq<Change>) -> Seq<Step> {
    Seq::new(changes.len(), |i: int| changes[i]@)
}

/// The old fragment that a script walks over: the texts of its `Equal` and
/// `Delete` steps, in order.
pub open spec fn old_side(script: Seq<Step>) -> Seq<char>
    decreases script.len(),
{
    if script.len() == 0 {
        Seq::empty()
    } else if script.last().tag is Insert {
        old_side(script.drop_last())
    } else {
        old_side(script.drop_last()) + script.last().text
    }
}

/// The new fragment that a script produces: the texts of its `Equal` and
/// `Insert` steps, in order.
pub open spec fn new_side(script: Seq<Step>) -> Seq<char>
    decreases script.len(),
{
    if script.len() == 0 {
        Seq::empty()
    } else if script.last().tag is Delete {
        new_side(script.drop_last())
    } else {
        new_side(script.drop_last()) + script.last().text
    }
}

/// The edit list after one more step, read at offset `pos` of the old
/// fragment.
///
/// A deletion lengthens the last edit when that edit ends at `pos` and
/// inserts nothing; an insertion adds to the text of the last edit when that
/// edit ends at `pos`. Otherwise the step opens a new edit. Equal text
/// leaves the list as it is.
pub open spec fn absorb(edits: Seq<Edit>, pos: int, step: Step) -> Seq<Edit> {
    match step.tag {
        ChangeTag::Equal => edits,
        ChangeTag::Delete => {
            if edits.len() > 0 && edits.last().end == pos && edits.last().text.len() == 0 {
                edits.drop_last().push(
                    Edit {
                        start: edits.last().start,
                        end: pos + step.text.len(),
                        text: edits.last().text,
                    },
                )
            } else {
                edits.push(
                    Edit { start: pos, end: pos + step.text.len(), text: Seq::empty() },
                )
            }
        },
        ChangeTag::Insert => {
            if edits.len() > 0 && edits.last().end == pos {
                edits.drop_last().push(
                    Edit {
                        start: edits.last().start,
                        end: edits.last().end,
                        text: edits.last().text + step.text,
                    },
                )
            } else {
                edits.push(Edit { start: pos, end: pos, text: step.text })
            }
        },
    }
}

/// The edit list of a script: its steps absorbed from left to right, each at
/// the offset that the steps before it have walked over.
pub open spec fn edits_of(script: Seq<Step>) -> Seq<Edit>
    decreases script.len(),
{
    if script.len() == 0 {
        Seq::empty()
    } else {
        absorb(
            edits_of(script.drop_last()),
            old_side(script.drop_last()).len() as int,
            script.last(),
        )
    }
}

/// The script walks over exactly `old` and produces exactly `new`.
pub open spec fn aligns(script: Seq<Step>, old: Seq<char>, new: Seq<char>) -> bool {
    &&& old_side(script) == old
    &&& new_side(script) == new
}

/// Step `i` deletes directly after an insertion.
pub open spec fn deletes_after_insert(script: Seq<Step>, i: int) -> bool {
    script[i - 1].tag is Insert && script[i].tag is Delete
}

/// Every step carries one character, and where text is both deleted and
/// inserted at one place the deletions come first.
pub open spec fn char_by_char(script: Seq<Step>) -> bool {
    &&& forall|i: int| 0 <= i < script.len() ==> (#[trigger] script[i]).text.len() == 1
    &&& forall|i: int| 0 < i < script.len() ==> !#[trigger] deletes_after_insert(script, i)
}

/// Every edit names a range and changes something, and between two edits
/// at least one character is kept.
pub open spec fn coalesced(edits: Seq<Edit>) -> bool {
    &&& forall|i: int|
        0 <= i < edits.len() ==> 0 <= (#[trigger] edits[i]).start <= edits[i].end && (
        edits[i].start < edits[i].end || edits[i].text.len() > 0)
    &&& forall|i: int, j: int|
        0 <= i < j < edits.len() ==> (#[trigger] edits[i]).end < (#[trigger] edits[j]).start
}

/// No step deletes or inserts.
pub open spec fn all_equal(script: Seq<Step>) -> bool {
    forall|i: int| 0 <= i < script.len() ==> (#[trigger] script[i]).tag is Equal
}

/// The alignment that `similar` computes for two fragments, character by character.
pub uninterp spec fn char_changes(old: Seq<char>, new: Seq<char>) -> Seq<Step>;

/// `similar::TextDiff::from_chars(old, new).iter_all_changes()`, each change
/// copied into a [`Change`].
///
/// Believed of `similar`, not proved:
/// - the changes are a function of the two fragments alone (no deadline is
///   set, and nothing else is read);
/// - read in order, the `Equal` and `Delete` values spell `old`, and the
///   `Equal` and `Insert` values spell `new`;
/// - every value is one character (`tokenize_chars` cuts the text at every
///   character);
/// - no deletion follows an insertion directly (the `Replace` hook, which
///   text diffs always run through, gathers what is deleted and inserted
///   between two equal stretches and hands on the deletions first);
/// - of two equal fragments nothing is deleted or inserted (the whole text
///   is their common prefix, which the Myers algorithm hands on as equal
///   before it looks any further).
#[verifier::external_body]
fn diff_chars(old: &str, new: &str) -> (changes: Vec<Change>)
    ensures
        steps(changes@) == char_changes(old@, new@),
        aligns(steps(changes@), old@, new@),
        char_by_char(steps(changes@)),
        old@ == new@ ==> all_equal(steps(changes@)),
{
    let diff = similar::TextDiff::from_chars(old, new);
    let mut changes = Vec::new();
    for change in diff.iter_all_changes() {
        let tag = match change.tag() {
            similar::ChangeTag::Equal => ChangeTag::Equal,
            similar::ChangeTag::Delete => ChangeTag::Delete,
            similar::ChangeTag::Insert => ChangeTag::Insert,
        };
        changes.push(Change { tag, value: change.value().to_string() });
    }
    changes
}

/// A prefix of a script walks over a prefix of the old fragment.
pub proof fn lemma_old_side_grows(script: Seq<Step>, n: int)
    requires
        0 <= n <= script.len(),
    ensures
        old_side(script.take(n)).len() <= old_side(script).len(),
    decreases script.len() - n,
{
    if n < script.len() {
        lemma_old_side_grows(script, n + 1);
        assert(script.take(n + 1).drop_last() =~= script.take(n));
    } else {
        assert(script.take(n) =~= script);
    }
}

/// The edit list that the changes spell, by the rule of [`absorb`].
pub fn edits_from_changes(changes: &Vec<Change>) -> (edits: Vec<TextEdit>)
    requires
        old_side(steps(changes@)).len() <= usize::MAX,
    ensures
        views(edits@) == edits_of(steps(changes@)),
{
    let ghost script = steps(changes@);
    let mut edits: Vec<TextEdit> = Vec::new();
    let mut old_pos: usize = 0;
    let mut i: usize = 0;
    while i < changes.len()
        invariant
            script == steps(changes@),
            old_side(script).len() <= usize::MAX,
            i <= changes.len(),
            old_pos == old_side(script.take(i as int)).len(),
            views(edits@) == edits_of(script.take(i as int)),
        decreases changes.len() - i,
    {
        let change = &changes[i];
        proof {
            assert(script.take(i + 1).drop_last() =~= script.take(i as int));
            lemma_old_side_grows(script, i + 1);
        }
        match change.tag {
            ChangeTag::Equal => {
                old_pos = old_pos + change.value.as_str().unicode_len();
            },
            ChangeTag::Delete => {
                let start = old_pos;
                let end = start + change.value.as_str().unicode_len();
                let n = edits.len();
                if n > 0 && edits[n - 1].end == start && edits[n - 1].text.as_str().is_empty() {
                    let last = edits.pop().unwrap();
                    edits.push(TextEdit { start: last.start, end, text: last.text });
                } else {
                    edits.push(TextEdit { start, end, text: String::new() });
                }
                old_pos = end;
            },
            ChangeTag::Insert => {
                let n = edits.len();
                if n > 0 && edits[n - 1].end == old_pos {
                    let last = edits.pop().unwrap();
                    let mut text = last.text;
                    text.append(change.value.as_str());
                    edits.push(TextEdit { start: last.start, end: last.end, text });
                } else {
                    edits.push(
                        TextEdit { start: old_pos, end: old_pos, text: change.value.clone() },
                    );
                }
            },
        }
        i += 1;
    }
    assert(script.take(i as int) =~= script);
    edits
}

/// The edits that turn `old` into `new`, in ascending order, with offsets
/// that count the characters of `old`.
///
/// Which characters are kept is decided by the alignment of `similar`; the
/// edits are the edits of that alignment. Whatever it keeps:
/// - the edits applied to `old` give `new`, and moved to wherever `old`
///   stands in a buffer they put `new` in its place there;
/// - each edit names a range of `old` and changes something, and between
///   two edits at least one character is kept;
/// - in the UTF-8 storage of `old` no edit starts or ends inside the bytes
///   of a character;
/// - two equal fragments give no edit;
/// - where `old` holds no sentinel, applying the edits to it as they are
///   gives `new`.
pub fn compute_text_edits(old: &str, new: &str) -> (edits: Vec<TextEdit>)
    ensures
        views(edits@) == edits_of(char_changes(old@, new@)),
        applied(old@, views(edits@)) == Ok::<Seq<char>, Edit>(new@),
        forall|buffer: Seq<char>, start: int|
            occurs_at(buffer, old@, start) ==> #[trigger] applied(
                buffer,
                shifted(views(edits@), start),
            ) == Ok::<Seq<char>, Edit>(
                buffer.take(start) + new@ + buffer.skip(start + old@.len()),
            ),
        coalesced(views(edits@)),
        forall|i: int|
            0 <= i < edits@.len() ==> (#[trigger] edits@[i]).start <= edits@[i].end <= old@.len(),
        forall|i: int|
            0 <= i < edits@.len() ==> is_char_boundary(
                encode_utf8(old@),
                byte_offset(old@, (#[trigger] edits@[i]).start as int),
            ) && is_char_boundary(encode_utf8(old@), byte_offset(old@, edits@[i].end as int)),
        old@ == new@ ==> edits@.len() == 0,
        free_of(old@, CURSOR_MARKER@) ==> patched(old@, shifted(views(edits@), 0)) == Ok::<
            Seq<char>,
            Failure,
        >(new@),
{
    let changes = diff_chars(old, new);
    proof {
        let script = steps(changes@);
        lemma_walks_one_by_one(script);
        assert(changes@.len() == changes.len());
        lemma_edits_coalesced(script);
        assert(old@.subrange(0, old@.len() as int) =~= old@);
        lemma_script_edits_replace_fragment(old@, script, 0);
        assert(shifted(edits_of(script), 0) =~= edits_of(script));
        assert forall|buffer: Seq<char>, start: int| occurs_at(buffer, old@, start) implies (
        #[trigger] applied(buffer, shifted(edits_of(script), start))) == Ok::<Seq<char>, Edit>(
            buffer.take(start) + new@ + buffer.skip(start + old@.len()),
        ) by {
            lemma_script_edits_replace_fragment(buffer, script, start);
        }
        if old@ == new@ {
            lemma_equal_steps_give_no_edits(script);
        }
        if free_of(old@, CURSOR_MARKER@) {
            lemma_remove_all_free(old@, CURSOR_MARKER@, 0);
        }
    }
    let edits = edits_from_changes(&changes);
    proof {
        assert forall|i: int| 0 <= i < edits@.len() implies (#[trigger] edits@[i]).start
            <= edits@[i].end <= old@.len() && is_char_boundary(
            encode_utf8(old@),
            byte_offset(old@, edits@[i].start as int),
        ) && is_char_boundary(encode_utf8(old@), byte_offset(old@, edits@[i].end as int)) by {
            assert(views(edits@)[i] == edits@[i]@);
            lemma_index_on_char_boundary(old@, edits@[i].start as int);
            lemma_index_on_char_boundary(old@, edits@[i].end as int);
        }
    }
    edits
}

} // verus!
