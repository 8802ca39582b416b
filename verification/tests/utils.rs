use anycoder::utils::{byte_to_point, char_width};

#[test]
fn test_byte_to_point_ascii() {
    let text = "hello\nworld";
    assert_eq!(byte_to_point(6, text), (1, 0));
    assert_eq!(byte_to_point(8, text), (1, 2));
}

#[test]
fn test_byte_to_point_russian() {
    let text = "привет\nмир";
    assert_eq!(byte_to_point(13, text), (1, 0));
    assert_eq!(byte_to_point(15, text), (1, 1));
    assert_eq!(byte_to_point(6, text), (0, 3));
}

#[test]
fn byte_to_point_of_the_start() {
    assert_eq!(byte_to_point(0, "hello"), (0, 0));
    assert_eq!(byte_to_point(0, ""), (0, 0));
    assert_eq!(byte_to_point(5, ""), (0, 0));
}

#[test]
fn byte_to_point_behind_the_text() {
    assert_eq!(byte_to_point(100, "ab\ncd"), (1, 2));
    assert_eq!(byte_to_point(usize::MAX, "ab\n"), (1, 0));
}

#[test]
fn byte_to_point_passes_a_newline_at_its_byte() {
    let text = "ab\ncd";
    assert_eq!(byte_to_point(2, text), (0, 2));
    assert_eq!(byte_to_point(3, text), (1, 0));
}

#[test]
fn byte_to_point_inside_a_character() {
    // 'é' takes the bytes 1 and 2: it is passed at byte 3
    let text = "aé\n😀b";
    assert_eq!(byte_to_point(1, text), (0, 1));
    assert_eq!(byte_to_point(2, text), (0, 1));
    assert_eq!(byte_to_point(3, text), (0, 2));
    assert_eq!(byte_to_point(4, text), (1, 0));
    assert_eq!(byte_to_point(7, text), (1, 0));
    assert_eq!(byte_to_point(8, text), (1, 1));
    assert_eq!(byte_to_point(9, text), (1, 2));
}

#[test]
fn char_widths() {
    assert_eq!(char_width('a'), 1);
    assert_eq!(char_width('\u{7f}'), 1);
    assert_eq!(char_width('\u{80}'), 2);
    assert_eq!(char_width('\u{7ff}'), 2);
    assert_eq!(char_width('\u{800}'), 3);
    assert_eq!(char_width('\u{ffff}'), 3);
    assert_eq!(char_width('\u{10000}'), 4);
    assert_eq!(char_width('\u{10ffff}'), 4);
    for c in ['a', 'é', '€', '😀', 'я'] {
        assert_eq!(char_width(c), c.len_utf8());
    }
}
