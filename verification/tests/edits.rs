use anycoder::apply::{apply_text_edits, shift_edits};
use anycoder::diff::ChangeTag::{Delete, Equal, Insert};
use anycoder::diff::{compute_text_edits, edits_from_changes, Change, ChangeTag, TextEdit};
use anycoder::error::PatchError;
use anycoder::storage::byte_offset_of;

fn edit(start: usize, end: usize, text: &str) -> TextEdit {
    TextEdit { start, end, text: text.to_string() }
}

fn change(tag: ChangeTag, value: &str) -> Change {
    Change { tag, value: value.to_string() }
}

fn rewrite(old: &str, new: &str) -> Result<String, PatchError> {
    let edits = compute_text_edits(old, new);
    apply_text_edits(old, &shift_edits(&edits, 0))
}

#[test]
fn equal_fragments_give_no_edits() {
    for text in ["", "a", "let x = 1;\nlet y = 2;\n", "привет, мир", "a?b"] {
        assert_eq!(compute_text_edits(text, text), vec![]);
    }
}

#[test]
fn edits_turn_old_into_new() {
    let pairs = [
        ("", ""),
        ("", "abc"),
        ("abc", ""),
        ("abc", "abd"),
        ("kitten", "sitting"),
        ("let mut foo = 2;\nfoo *= 50;", "let mut foo = 5;\naaaa foo *= 50;"),
        ("значение: {}", "value: {}"),
        ("a\u{1F600}b", "\u{1F600}ab\u{e9}"),
        ("fn main() {}\n", "fn main() {\n    println!(\"hi\");\n}\n"),
    ];
    for (old, new) in pairs {
        assert_eq!(rewrite(old, new), Ok(new.to_string()));
    }
}

#[test]
fn edits_of_a_long_fragment_turn_old_into_new() {
    let old: String = (0..300).map(|i| if i % 7 == 0 { 'x' } else { 'a' }).collect();
    let new: String = (0..280).map(|i| if i % 5 == 0 { 'y' } else { 'a' }).collect();
    assert_eq!(rewrite(&old, &new), Ok(new));
}

#[test]
fn edits_ascend_and_stay_within_the_old_fragment() {
    let old = "один two три four";
    let new = "1 two 3 four five";
    let edits = compute_text_edits(old, new);
    assert!(!edits.is_empty());
    let mut reached = 0;
    for (i, e) in edits.iter().enumerate() {
        assert!(e.start <= e.end);
        assert!(e.end <= old.chars().count());
        if i > 0 {
            assert!(reached <= e.start);
            assert!(edits[i - 1].start < e.start);
        }
        reached = e.end;
    }
}

#[test]
fn edit_offsets_count_characters() {
    let edits = compute_text_edits("äöü", "äxü");
    assert_eq!(edits, vec![edit(1, 2, "x")]);
}

#[test]
fn edit_boundaries_are_character_boundaries_of_the_storage() {
    let old = "println!(\"Current значение: {}\", i);";
    let new = "println!(\"Current value: {}\", i);";
    let edits = compute_text_edits(old, new);
    assert_eq!(edits.len(), 1);
    let from = byte_offset_of(old, edits[0].start);
    let to = byte_offset_of(old, edits[0].end);
    assert_eq!((from, to), (18, 18 + 8 * 2));
    assert!(old.is_char_boundary(from));
    assert!(old.is_char_boundary(to));
    assert_eq!(&old[from..to], "значение");
}

#[test]
fn byte_offsets_of_character_indices() {
    let text = "aé€😀";
    assert_eq!(byte_offset_of(text, 0), 0);
    assert_eq!(byte_offset_of(text, 1), 1);
    assert_eq!(byte_offset_of(text, 2), 3);
    assert_eq!(byte_offset_of(text, 3), 6);
    assert_eq!(byte_offset_of(text, 4), 10);
    assert_eq!(byte_offset_of("", 0), 0);
}

#[test]
fn changes_spell_edits() {
    // deletions that follow each other grow one edit
    assert_eq!(
        edits_from_changes(&vec![change(Equal, "a"), change(Delete, "b"), change(Delete, "c")]),
        vec![edit(1, 3, "")]
    );
    // an insertion behind a deletion makes it a replacement
    assert_eq!(
        edits_from_changes(&vec![change(Delete, "b"), change(Insert, "x"), change(Insert, "y")]),
        vec![edit(0, 1, "xy")]
    );
    // equal text between two changes parts their edits
    assert_eq!(
        edits_from_changes(&vec![
            change(Insert, "x"),
            change(Equal, "a"),
            change(Insert, "y"),
            change(Equal, "bc"),
            change(Delete, "d"),
        ]),
        vec![edit(0, 0, "x"), edit(1, 1, "y"), edit(3, 4, "")]
    );
    // a deletion behind a replacement opens an edit of its own
    assert_eq!(
        edits_from_changes(&vec![change(Delete, "b"), change(Insert, "x"), change(Delete, "c")]),
        vec![edit(0, 1, "x"), edit(1, 2, "")]
    );
    // offsets count characters of the values
    assert_eq!(
        edits_from_changes(&vec![change(Equal, "жук"), change(Delete, "ё"), change(Insert, "е")]),
        vec![edit(3, 4, "е")]
    );
    assert_eq!(edits_from_changes(&vec![]), vec![]);
    assert_eq!(edits_from_changes(&vec![change(Equal, "abc")]), vec![]);
}

#[test]
fn shifting_moves_both_ends() {
    let edits = vec![edit(0, 2, "a"), edit(5, 5, "b")];
    assert_eq!(shift_edits(&edits, 10), vec![edit(10, 12, "a"), edit(15, 15, "b")]);
    assert_eq!(shift_edits(&edits, 0), edits);
    assert_eq!(shift_edits(&vec![], 3), vec![]);
}

#[test]
fn edits_apply_in_any_order_given() {
    let original = "The quick brown fox jumps over the lazy dog";
    let a = edit(43, 43, " and cat");
    let b = edit(35, 39, "sleepy");
    let c = edit(4, 9, "slow");
    let expected = Ok("The slow brown fox jumps over the sleepy dog and cat".to_string());
    let orders = [
        vec![a.clone(), b.clone(), c.clone()],
        vec![a.clone(), c.clone(), b.clone()],
        vec![b.clone(), a.clone(), c.clone()],
        vec![b.clone(), c.clone(), a.clone()],
        vec![c.clone(), a.clone(), b.clone()],
        vec![c.clone(), b.clone(), a.clone()],
    ];
    for edits in orders {
        assert_eq!(apply_text_edits(original, &edits), expected);
    }
}

#[test]
fn edits_with_one_start_apply_in_the_order_given() {
    assert_eq!(
        apply_text_edits("ab", &vec![edit(1, 1, "x"), edit(1, 1, "y")]),
        Ok("ayxb".to_string())
    );
    assert_eq!(
        apply_text_edits("ab", &vec![edit(1, 1, "y"), edit(1, 1, "x")]),
        Ok("axyb".to_string())
    );
}

#[test]
fn no_edits_leave_the_buffer() {
    assert_eq!(apply_text_edits("abc", &vec![]), Ok("abc".to_string()));
    assert_eq!(apply_text_edits("", &vec![]), Ok(String::new()));
}

#[test]
fn sentinels_are_cut_before_edits_apply() {
    assert_eq!(apply_text_edits("a??b", &vec![]), Ok("ab".to_string()));
    assert_eq!(apply_text_edits("??a??b??", &vec![edit(1, 2, "c")]), Ok("ac".to_string()));
    // three question marks hold one sentinel, four hold two
    assert_eq!(apply_text_edits("a???b", &vec![]), Ok("a?b".to_string()));
    assert_eq!(apply_text_edits("a????b", &vec![]), Ok("ab".to_string()));
    // what is left is not searched again
    assert_eq!(apply_text_edits("?x?", &vec![edit(1, 2, "")]), Ok("??".to_string()));
}

#[test]
fn edit_behind_the_buffer_is_refused() {
    assert_eq!(
        apply_text_edits("abc", &vec![edit(2, 4, "x")]),
        Err(PatchError::EditOutOfBounds(edit(2, 4, "x")))
    );
    assert_eq!(
        apply_text_edits("abc", &vec![edit(4, 4, "x")]),
        Err(PatchError::EditOutOfBounds(edit(4, 4, "x")))
    );
    assert_eq!(apply_text_edits("abc", &vec![edit(3, 3, "x")]), Ok("abcx".to_string()));
}

#[test]
fn edit_that_ends_before_it_starts_is_refused() {
    assert_eq!(
        apply_text_edits("abc", &vec![edit(2, 1, "x")]),
        Err(PatchError::EditOutOfBounds(edit(2, 1, "x")))
    );
}

#[test]
fn bounds_are_those_of_the_buffer_without_sentinels() {
    assert_eq!(
        apply_text_edits("ab??", &vec![edit(3, 4, "x")]),
        Err(PatchError::EditOutOfBounds(edit(3, 4, "x")))
    );
}

#[test]
fn first_edit_that_does_not_fit_is_named() {
    // by descending start the edit at 9 comes before the edit at 7
    assert_eq!(
        apply_text_edits("abc", &vec![edit(0, 1, "x"), edit(7, 8, "y"), edit(9, 9, "z")]),
        Err(PatchError::EditOutOfBounds(edit(9, 9, "z")))
    );
}

#[test]
fn bounds_are_those_of_the_buffer_as_it_stands() {
    // the edit at 2 makes the buffer shorter than the edit at 0 needs
    assert_eq!(
        apply_text_edits("abcdef", &vec![edit(0, 5, "x"), edit(2, 6, "")]),
        Err(PatchError::EditOutOfBounds(edit(0, 5, "x")))
    );
    // the edit at 1 makes it long enough for the edit at 0
    assert_eq!(
        apply_text_edits("ab", &vec![edit(0, 4, "x"), edit(1, 1, "123")]),
        Ok("xb".to_string())
    );
}

#[test]
fn edits_of_multi_byte_text_apply_by_character() {
    assert_eq!(
        apply_text_edits("привет мир", &vec![edit(7, 10, "world"), edit(0, 6, "hello")]),
        Ok("hello world".to_string())
    );
}
