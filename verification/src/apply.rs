//! Applying edits to a buffer.
//!
//! Edits are applied one after the other, the one that starts last first, so
//! that an edit never moves the text that an edit still to come speaks of.

use crate::diff::{views, Edit, TextEdit};
use crate::order::{
    by_start_descending, lemma_given_order_does_not_matter, order_by_start_descending, picked, place,
};
use crate::error::{outcome, Failure, PatchError};
use crate::markers::CURSOR_MARKER;
use crate::text::{remove_all, remove_all_occurrences};
use vstd::prelude::*;

verus! {

/// The edit names a range of the buffer.
pub open spec fn fits(buffer: Seq<char>, edit: Edit) -> bool {
    0 <= edit.start <= edit.end <= buffer.len()
}

/// The buffer with the range of the edit replaced by its text.
pub open spec fn splice(buffer: Seq<char>, edit: Edit) -> Seq<char> {
    buffer.take(edit.start) + edit.text + buffer.skip(edit.end)
}

/// The edits applied in the order given. The first one that names no range
/// of the buffer as it then stands ends the run and is handed back.
pub open spec fn apply_in_order(buffer: Seq<char>, edits: Seq<Edit>) -> Result<Seq<char>, Edit>
    decreases edits.len(),
{
    if edits.len() == 0 {
        Ok(buffer)
    } else if !fits(buffer, edits[0]) {
        Err(edits[0])
    } else {
        apply_in_order(splice(buffer, edits[0]), edits.drop_first())
    }
}

/// The buffer after the edits, applied by descending start.
pub open spec fn applied(buffer: Seq<char>, edits: Seq<Edit>) -> Result<Seq<char>, Edit> {
    apply_in_order(buffer, by_start_descending(edits))
}

/// What applying the edits to a buffer gives: the sentinel is cut out of the
/// buffer first, wherever it stands.
pub open spec fn patched(original: Seq<char>, edits: Seq<Edit>) -> Result<Seq<char>, Failure> {
    match applied(remove_all(original, CURSOR_MARKER@), edits) {
        Ok(text) => Ok(text),
        Err(edit) => Err(Failure::EditOutOfBounds(edit)),
    }
}

/// The edit moved by `by` characters, its text unchanged.
pub open spec fn moved(edit: Edit, by: int) -> Edit {
    Edit { start: edit.start + by, end: edit.end + by, text: edit.text }
}

/// The edits moved by `by` characters, texts unchanged.
pub open spec fn shifted(edits: Seq<Edit>, by: int) -> Seq<Edit> {
    Seq::new(edits.len(), |i: int| moved(edits[i], by))
}

/// The ranges are well formed, none reaches into the next, and no two edits
/// start at one place.
pub open spec fn ascending(edits: Seq<Edit>) -> bool {
    &&& forall|i: int| 0 <= i < edits.len() ==> 0 <= (#[trigger] edits[i]).start <= edits[i].end
    &&& forall|i: int, j: int|
        0 <= i < j < edits.len() ==> (#[trigger] edits[i]).end <= (#[trigger] edits[j]).start
            && edits[i].start < edits[j].start
}

/// The edits applied from the last one to the first.
pub open spec fn apply_backwards(buffer: Seq<char>, edits: Seq<Edit>) -> Result<Seq<char>, Edit>
    decreases edits.len(),
{
    if edits.len() == 0 {
        Ok(buffer)
    } else if !fits(buffer, edits.last()) {
        Err(edits.last())
    } else {
        apply_backwards(splice(buffer, edits.last()), edits.drop_last())
    }
}

/// The buffer with every edit's range replaced by its text, all ranges read
/// in the buffer as it is given.
pub open spec fn replaced(buffer: Seq<char>, edits: Seq<Edit>) -> Seq<char>
    decreases edits.len(),
{
    if edits.len() == 0 {
        buffer
    } else {
        replaced(buffer.take(edits.last().start), edits.drop_last()) + edits.last().text
            + buffer.skip(edits.last().end)
    }
}

/// The buffer with the range `[start, end)` replaced by `text`.
fn spliced(buffer: &str, start: usize, end: usize, text: &str) -> (result: String)
    requires
        start <= end <= buffer@.len(),
    ensures
        result@ == buffer@.take(start as int) + text@ + buffer@.skip(end as int),
{
    let len = buffer.unicode_len();
    let mut result = String::new();
    result.append(buffer.substring_char(0, start));
    result.append(text);
    result.append(buffer.substring_char(end, len));
    result
}

/// The edits moved `by` characters to the right, as edits of a fragment
/// become edits of the buffer that holds the fragment at offset `by`.
pub fn shift_edits(edits: &Vec<TextEdit>, by: usize) -> (moved_edits: Vec<TextEdit>)
    requires
        forall|i: int|
            0 <= i < edits@.len() ==> (#[trigger] edits@[i]).start + by <= usize::MAX
                && edits@[i].end + by <= usize::MAX,
    ensures
        views(moved_edits@) == shifted(views(edits@), by as int),
{
    let mut moved_edits: Vec<TextEdit> = Vec::new();
    let mut i: usize = 0;
    while i < edits.len()
        invariant
            i <= edits.len(),
            moved_edits@.len() == i,
            forall|k: int|
                0 <= k < edits@.len() ==> (#[trigger] edits@[k]).start + by <= usize::MAX
                    && edits@[k].end + by <= usize::MAX,
            forall|k: int| 0 <= k < i ==> (#[trigger] moved_edits@[k])@ == moved(edits@[k]@, by as int),
        decreases edits.len() - i,
    {
        let edit = &edits[i];
        moved_edits.push(
            TextEdit { start: edit.start + by, end: edit.end + by, text: edit.text.clone() },
        );
        i += 1;
    }
    moved_edits
}

/// Cuts the sentinel out of `original`, then applies the edits by
/// descending start. An edit that names no range of the buffer as it stands
/// when its turn comes ends the run: it is handed back, and no text is.
pub fn apply_text_edits(original: &str, edits: &Vec<TextEdit>) -> (result: Result<
    String,
    PatchError,
>)
    ensures
        outcome(result) == patched(original@, views(edits@)),
{
    let order = order_by_start_descending(edits);
    let mut buffer = remove_all_occurrences(original, CURSOR_MARKER);
    let ghost sorted = by_start_descending(views(edits@));
    let ghost start_buffer = buffer@;
    let mut k: usize = 0;
    assert(sorted.skip(0) =~= sorted);
    while k < order.len()
        invariant
            k <= order@.len(),
            order@.len() == edits@.len(),
            forall|j: int| 0 <= j < order@.len() ==> order@[j] < edits@.len(),
            sorted == picked(edits@, order@),
            sorted == by_start_descending(views(edits@)),
            start_buffer == remove_all(original@, CURSOR_MARKER@),
            apply_in_order(buffer@, sorted.skip(k as int)) == apply_in_order(start_buffer, sorted),
        decreases order@.len() - k,
    {
        let edit = &edits[order[k]];
        let len = buffer.as_str().unicode_len();
        proof {
            assert(sorted.skip(k as int).drop_first() =~= sorted.skip(k + 1));
        }
        if edit.start > edit.end || edit.end > len {
            return Err(
                PatchError::EditOutOfBounds(
                    TextEdit { start: edit.start, end: edit.end, text: edit.text.clone() },
                ),
            );
        }
        buffer = spliced(buffer.as_str(), edit.start, edit.end, edit.text.as_str());
        k += 1;
    }
    Ok(buffer)
}

/// An edit that is applied leaves every edit that ends at or before its
/// start as it was: the earlier edit still names a range of the buffer, and
/// the same characters stand in that range.
pub proof fn lemma_later_edit_keeps_earlier(buffer: Seq<char>, later: Edit, earlier: Edit)
    requires
        fits(buffer, later),
        0 <= earlier.start <= earlier.end <= later.start,
    ensures
        fits(splice(buffer, later), earlier),
        splice(buffer, later).take(later.start) == buffer.take(later.start),
        splice(buffer, later).subrange(earlier.start, earlier.end) == buffer.subrange(
            earlier.start,
            earlier.end,
        ),
{
}

/// Put in descending order, ascending edits come out turned round.
pub proof fn lemma_applied_backwards(buffer: Seq<char>, edits: Seq<Edit>)
    requires
        ascending(edits),
    ensures
        by_start_descending(edits).len() == edits.len(),
        edits.len() > 0 ==> by_start_descending(edits)[0] == edits.last(),
        applied(buffer, edits) == apply_backwards(buffer, edits),
    decreases edits.len(),
{
    if edits.len() > 0 {
        let rest = edits.drop_last();
        let last = edits.last();
        let sorted = by_start_descending(rest);
        lemma_applied_backwards(buffer, rest);
        if fits(buffer, last) {
            lemma_applied_backwards(splice(buffer, last), rest);
        }
        assert(place(sorted, last) =~= seq![last] + sorted);
        assert((seq![last] + sorted).drop_first() =~= sorted);
    }
}

/// Edits that all end within the first `keep` characters of a buffer do not
/// touch what follows those characters.
pub proof fn lemma_apply_backwards_prefix(buffer: Seq<char>, edits: Seq<Edit>, keep: int)
    requires
        ascending(edits),
        0 <= keep <= buffer.len(),
        edits.len() > 0 ==> edits.last().end <= keep,
    ensures
        apply_backwards(buffer, edits) == Ok::<Seq<char>, Edit>(
            replaced(buffer.take(keep), edits) + buffer.skip(keep),
        ),
    decreases edits.len(),
{
    if edits.len() == 0 {
        assert(buffer.take(keep) + buffer.skip(keep) =~= buffer);
    } else {
        let rest = edits.drop_last();
        let last = edits.last();
        let next = splice(buffer, last);
        lemma_apply_backwards_prefix(next, rest, last.start);
        assert(next.take(last.start) =~= buffer.take(last.start));
        assert(next.skip(last.start) =~= last.text + buffer.skip(last.end));
        assert(buffer.take(keep).take(last.start) =~= buffer.take(last.start));
        assert(replaced(buffer.take(last.start), rest) + (last.text + buffer.skip(last.end))
            =~= replaced(buffer.take(last.start), rest) + last.text + buffer.take(keep).skip(
            last.end,
        ) + buffer.skip(keep));
    }
}

/// Applied by descending start, edits whose ranges lie apart in the buffer
/// all find their ranges where they were: the run succeeds, and its result
/// is the buffer with every range replaced at once.
pub proof fn lemma_descending_order_keeps_offsets(buffer: Seq<char>, edits: Seq<Edit>)
    requires
        ascending(edits),
        edits.len() > 0 ==> edits.last().end <= buffer.len(),
    ensures
        applied(buffer, edits) == Ok::<Seq<char>, Edit>(replaced(buffer, edits)),
{
    lemma_applied_backwards(buffer, edits);
    lemma_apply_backwards_prefix(buffer, edits, buffer.len() as int);
    assert(buffer.take(buffer.len() as int) =~= buffer);
}

/// Edits whose ranges lie apart in the buffer replace their ranges at once,
/// in whatever order they are given: `edits` names them in ascending order,
/// `given` in any order.
pub proof fn lemma_edits_apart_apply_in_any_order(
    buffer: Seq<char>,
    edits: Seq<Edit>,
    given: Seq<Edit>,
)
    requires
        ascending(edits),
        edits.len() > 0 ==> edits.last().end <= buffer.len(),
        given.to_multiset() == edits.to_multiset(),
    ensures
        applied(buffer, given) == Ok::<Seq<char>, Edit>(replaced(buffer, edits)),
{
    lemma_given_order_does_not_matter(edits, given);
    lemma_descending_order_keeps_offsets(buffer, edits);
}

} // verus!
