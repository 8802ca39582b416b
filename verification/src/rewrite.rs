//! What the edits of a script make of a buffer.

use crate::apply::{
    applied, ascending, lemma_applied_backwards, lemma_apply_backwards_prefix, moved, replaced,
    shifted,
};
use crate::diff::{
    absorb, all_equal, char_by_char, coalesced, deletes_after_insert, edits_of, new_side,
    old_side, ChangeTag, Edit, Step,
};
use crate::text::occurs_at;
use vstd::prelude::*;

verus! {

/// A script without deletions and insertions spells no edit.
pub proof fn lemma_equal_steps_give_no_edits(script: Seq<Step>)
    requires
        all_equal(script),
    ensures
        edits_of(script).len() == 0,
    decreases script.len(),
{
    if script.len() > 0 {
        lemma_equal_steps_give_no_edits(script.drop_last());
    }
}

/// A script that goes character by character does so up to any step.
proof fn lemma_char_by_char_prefix(script: Seq<Step>)
    requires
        char_by_char(script),
        script.len() > 0,
    ensures
        char_by_char(script.drop_last()),
        script.last().text.len() == 1,
        script.len() > 1 && script.last().tag is Delete ==> !(script.drop_last().last().tag
            is Insert),
{
    let rest = script.drop_last();
    assert forall|i: int| 0 < i < rest.len() implies !#[trigger] deletes_after_insert(
        rest,
        i,
    ) by {
        assert(!deletes_after_insert(script, i));
    }
    if script.len() > 1 {
        assert(!deletes_after_insert(script, script.len() - 1));
    }
}

/// A script that goes character by character walks over no more characters
/// than it has steps.
pub proof fn lemma_walks_one_by_one(script: Seq<Step>)
    requires
        char_by_char(script),
    ensures
        old_side(script).len() <= script.len(),
    decreases script.len(),
{
    if script.len() > 0 {
        lemma_char_by_char_prefix(script);
        lemma_walks_one_by_one(script.drop_last());
    }
}

/// How far a step moves the place in the old fragment.
pub open spec fn advance(step: Step) -> int {
    if step.tag is Insert {
        0
    } else {
        step.text.len() as int
    }
}

/// What the step before has left: after equal text the last edit ends
/// before the place reached; after a deletion it ends there and inserts
/// nothing; after an insertion it ends there and inserts something.
spec fn left_by(edits: Seq<Edit>, pos: int, previous: Option<ChangeTag>) -> bool {
    match previous {
        None => edits.len() == 0,
        Some(ChangeTag::Equal) => edits.len() > 0 ==> edits.last().end < pos,
        Some(ChangeTag::Delete) => edits.len() > 0 && edits.last().end == pos
            && edits.last().text.len() == 0,
        Some(ChangeTag::Insert) => edits.len() > 0 && edits.last().end == pos
            && edits.last().text.len() > 0,
    }
}

/// The tag of the last step, if there is one.
spec fn last_tag(script: Seq<Step>) -> Option<ChangeTag> {
    if script.len() == 0 {
        None
    } else {
        Some(script.last().tag)
    }
}

/// One more step of one character keeps a coalesced edit list coalesced,
/// provided it does not delete directly after an insertion.
proof fn lemma_absorb_coalesced(
    edits: Seq<Edit>,
    pos: int,
    previous: Option<ChangeTag>,
    step: Step,
)
    requires
        coalesced(edits),
        0 <= pos,
        left_by(edits, pos, previous),
        step.text.len() == 1,
        !(previous == Some(ChangeTag::Insert) && step.tag is Delete),
    ensures
        coalesced(absorb(edits, pos, step)),
        left_by(absorb(edits, pos, step), pos + advance(step), Some(step.tag)),
{
}

/// The edits of a script that goes character by character, deletions first,
/// are coalesced, and the last step has left them as [`left_by`] says.
proof fn lemma_edits_left_coalesced(script: Seq<Step>)
    requires
        char_by_char(script),
    ensures
        coalesced(edits_of(script)),
        left_by(edits_of(script), old_side(script).len() as int, last_tag(script)),
    decreases script.len(),
{
    if script.len() > 0 {
        let rest = script.drop_last();
        let step = script.last();
        lemma_char_by_char_prefix(script);
        lemma_edits_left_coalesced(rest);
        let edits = edits_of(rest);
        let pos = old_side(rest).len() as int;
        lemma_absorb_coalesced(edits, pos, last_tag(rest), step);
    }
}

/// The edits of a script that goes character by character, deletions first,
/// are coalesced and lie within the old fragment.
pub proof fn lemma_edits_coalesced(script: Seq<Step>)
    requires
        char_by_char(script),
    ensures
        coalesced(edits_of(script)),
        ascending(edits_of(script)),
        edits_of(script).len() > 0 ==> edits_of(script).last().end <= old_side(script).len(),
{
    lemma_edits_left_coalesced(script);
    lemma_coalesced_ascending(edits_of(script));
}

/// Coalesced edits are ascending.
pub proof fn lemma_coalesced_ascending(edits: Seq<Edit>)
    requires
        coalesced(edits),
    ensures
        ascending(edits),
{
}

/// Moving ascending edits to the right keeps them ascending.
pub proof fn lemma_shifted_ascending(edits: Seq<Edit>, by: int)
    requires
        ascending(edits),
        0 <= by,
    ensures
        ascending(shifted(edits, by)),
{
}

/// Edits that all end within the first part of a buffer replace within that
/// part alone.
pub proof fn lemma_replaced_prefix(head: Seq<char>, tail: Seq<char>, edits: Seq<Edit>)
    requires
        ascending(edits),
        edits.len() > 0 ==> edits.last().end <= head.len(),
    ensures
        replaced(head + tail, edits) == replaced(head, edits) + tail,
{
    let buffer = head + tail;
    lemma_apply_backwards_prefix(buffer, edits, buffer.len() as int);
    lemma_apply_backwards_prefix(buffer, edits, head.len() as int);
    assert(buffer.take(buffer.len() as int) =~= buffer);
    assert(buffer.take(head.len() as int) =~= head);
}

/// Replacing by a list that ends in `last` replaces by `last` behind what
/// the edits before it make of the text before it.
proof fn lemma_replaced_last(buffer: Seq<char>, front: Seq<Edit>, last: Edit)
    ensures
        replaced(buffer, front.push(last)) == replaced(buffer.take(last.start), front) + last.text
            + buffer.skip(last.end),
{
    assert(front.push(last).drop_last() =~= front);
}

/// What one more step does to the text that the edits make of the old fragment.
proof fn lemma_absorb_rewrite(old: Seq<char>, edits: Seq<Edit>, by: int, pos: int, step: Step)
    requires
        ascending(edits),
        0 <= by,
        0 <= pos,
        old.len() == by + pos,
        edits.len() > 0 ==> edits.last().end <= pos,
    ensures
        replaced(
            if step.tag is Insert {
                old
            } else {
                old + step.text
            },
            shifted(absorb(edits, pos, step), by),
        ) == if step.tag is Delete {
            replaced(old, shifted(edits, by))
        } else {
            replaced(old, shifted(edits, by)) + step.text
        },
{
    let before = shifted(edits, by);
    let after = shifted(absorb(edits, pos, step), by);
    let n = edits.len() as int;
    let nothing = Seq::<char>::empty();
    lemma_shifted_ascending(edits, by);
    match step.tag {
        ChangeTag::Equal => {
            lemma_replaced_prefix(old, step.text, before);
        },
        ChangeTag::Delete => {
            let whole = old + step.text;
            if n > 0 && edits.last().end == pos && edits.last().text.len() == 0 {
                let front = before.drop_last();
                let grown = moved(absorb(edits, pos, step).last(), by);
                assert(after =~= front.push(grown));
                lemma_replaced_last(whole, front, grown);
                lemma_replaced_last(old, front, before.last());
                assert(whole.take(grown.start) =~= old.take(before.last().start));
            } else {
                let fresh = Edit { start: by + pos, end: by + pos + step.text.len(), text: nothing };
                assert(after =~= before.push(fresh));
                lemma_replaced_last(whole, before, fresh);
                assert(whole.take(fresh.start) =~= old);
            }
        },
        ChangeTag::Insert => {
            if n > 0 && edits.last().end == pos {
                let front = before.drop_last();
                let grown = moved(absorb(edits, pos, step).last(), by);
                assert(after =~= front.push(grown));
                lemma_replaced_last(old, front, grown);
                lemma_replaced_last(old, front, before.last());
            } else {
                let fresh = Edit { start: by + pos, end: by + pos, text: step.text };
                assert(after =~= before.push(fresh));
                lemma_replaced_last(old, before, fresh);
                assert(old.take(fresh.start) =~= old);
            }
        },
    }
}

/// Replacing by the edits of a script turns the old fragment into the new
/// one, wherever the old fragment stands behind a prefix.
pub proof fn lemma_edits_rewrite(prefix: Seq<char>, script: Seq<Step>)
    requires
        char_by_char(script),
    ensures
        replaced(prefix + old_side(script), shifted(edits_of(script), prefix.len() as int))
            == prefix + new_side(script),
    decreases script.len(),
{
    if script.len() > 0 {
        let rest = script.drop_last();
        let step = script.last();
        let old = prefix + old_side(rest);
        lemma_char_by_char_prefix(script);
        lemma_edits_rewrite(prefix, rest);
        lemma_edits_coalesced(rest);
        lemma_absorb_rewrite(
            old,
            edits_of(rest),
            prefix.len() as int,
            old_side(rest).len() as int,
            step,
        );
        if !(step.tag is Insert) {
            assert(prefix + old_side(script) =~= old + step.text);
        }
    }
}

/// Where the old fragment of a script stands in a buffer at `start`, the
/// edits of the script, moved by `start` and applied by descending start,
/// put the new fragment in its place and leave the rest of the buffer as it
/// was.
pub proof fn lemma_script_edits_replace_fragment(buffer: Seq<char>, script: Seq<Step>, start: int)
    requires
        char_by_char(script),
        occurs_at(buffer, old_side(script), start),
    ensures
        applied(buffer, shifted(edits_of(script), start)) == Ok::<Seq<char>, Edit>(
            buffer.take(start) + new_side(script) + buffer.skip(start + old_side(script).len()),
        ),
{
    let prefix = buffer.take(start);
    let old = old_side(script);
    let edits = shifted(edits_of(script), start);
    lemma_edits_coalesced(script);
    lemma_shifted_ascending(edits_of(script), start);
    lemma_edits_rewrite(prefix, script);
    lemma_applied_backwards(buffer, edits);
    lemma_apply_backwards_prefix(buffer, edits, start + old.len());
    assert(buffer.take(start + old.len()) =~= prefix + old);
}

} // verus!
