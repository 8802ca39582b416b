use anycoder::diff::{compute_text_edits, TextEdit};

#[test]
fn test_compute_edits_simple() {
    let before = "let mut foo = 2;\nfoo *= 50;";
    let after = "let mut foo = 5;\naaaa foo *= 50;";

    let edits = compute_text_edits(before, after);

    assert_eq!(edits.len(), 2);

    assert_eq!(
        edits,
        vec![
            TextEdit { start: 14, end: 15, text: "5".to_string() },
            TextEdit { start: 17, end: 17, text: "aaaa ".to_string() },
        ]
    );
}

#[test]
fn test_compute_edits_simple2() {
    let before = r#"println!("Current value: {}", );"#;
    let after = r#"println!("Current value: {}", i);"#;

    let edits = compute_text_edits(before, after);

    assert_eq!(edits, vec![
        TextEdit { start: 30, end: 30, text: "i".to_string() },
    ])
}

#[test]
fn test_compute_edits_unicode() {
    let before = r#"println!("Current значение: {}", i);"#;
    let after = r#"println!("Current value: {}", i);"#;

    let edits = compute_text_edits(before, after);

    // "значение" is 8 characters long
    assert_eq!(edits, vec![
        TextEdit { start: 18, end: 18 + 8, text: "value".to_string() },
    ])
}
