use anycoder::coder::{Coder, CURSOR_MARKER};
use anycoder::diff::TextEdit;
use anycoder::error::PatchError;
use anycoder::llm::LlmClient;
use anycoder::markers::CTOKEN;

/// Strips the first line where it is empty, and from every later line the
/// indentation that all of them share.
fn unindent(text: &str) -> String {
    let skip_first = text.starts_with('\n');
    let spaces = text
        .split('\n')
        .skip(1)
        .filter(|line| !line.trim_matches(' ').is_empty())
        .map(|line| line.len() - line.trim_start_matches(' ').len())
        .min()
        .unwrap_or(0);
    let mut result = String::new();
    for (i, line) in text.split('\n').enumerate() {
        if i > 1 || (i == 1 && !skip_first) {
            result.push('\n');
        }
        if i == 0 {
            result.push_str(line);
        } else if line.len() > spaces {
            result.push_str(&line[spaces..]);
        }
    }
    result
}

/// The number of characters before byte offset `at`.
fn chars_before(text: &str, at: usize) -> usize {
    text[..at].chars().count()
}

#[test]
fn test_build_context_basic() {
    let code = unindent(
        r#"
fn main() {
    for i in 0..5 {
        println!("Current value: {}", ??);
    }
}
        "#,
    );

    let cursor = code.find(CURSOR_MARKER).unwrap();

    let coder = Coder::new(LlmClient::new("", "", ""));

    let context = coder.build_context(&code, cursor, 1);

    println!("context:\n {:?}", context);

    assert!(context.0.contains(CTOKEN));
    assert!(context.1 == 12);
}

#[test]
fn test_parse_patch() -> Result<(), PatchError> {
    let coder = Coder::new(LlmClient::new("", "", ""));

    let patch = "<|SEARCH|>let <|cursor|> = 10;<|DIVIDE|>let x = 10;<|REPLACE|>";
    let start_pos = 0;

    let parsed = coder.parse_patch(patch, start_pos)?;

    assert_eq!(parsed.start, start_pos);
    assert_eq!(parsed.search, "let  = 10;");
    assert_eq!(parsed.replace, "let x = 10;");

    Ok(())
}

#[test]
fn test_parse_patch_unicode() -> Result<(), PatchError> {
    let coder = Coder::new(LlmClient::new("", "", ""));

    let patch = r#"<|SEARCH|>let <|cursor|> = "йцук";<|DIVIDE|>let x = "йцук";<|REPLACE|>"#;
    let start_pos = 0;

    let parsed = coder.parse_patch(patch, start_pos)?;

    assert_eq!(parsed.start, start_pos);
    assert_eq!(parsed.search, "let  = \"йцук\";");
    assert_eq!(parsed.replace, "let x = \"йцук\";");

    Ok(())
}

#[test]
fn test_apply_text_edits() -> Result<(), PatchError> {
    let coder = Coder::new(LlmClient::new("", "", ""));
    let original = "The quick brown fox jumps over the lazy dog";

    // Replace "quick" with "slow", "lazy" with "sleepy", and append " and cat"
    let edits = vec![
        TextEdit { start: 43, end: 43, text: " and cat".to_string() },
        TextEdit { start: 35, end: 39, text: "sleepy".to_string() },
        TextEdit { start: 4, end: 9, text: "slow".to_string() },
    ];

    let updated = coder.apply_text_edits(original, &edits)?;

    assert_eq!(
        updated,
        "The slow brown fox jumps over the sleepy dog and cat"
    );

    Ok(())
}

#[test]
fn test_apply_text_edits_unicode() -> Result<(), PatchError> {
    let coder = Coder::new(LlmClient::new("", "", ""));
    let original = unindent(
        r#"
fn main() {
    let fruits = vec![];
    итер
}"#,
    );

    let s = "итер";
    let start = chars_before(&original, original.find(s).unwrap());
    let end = start + s.chars().count();

    let edits = vec![
        TextEdit { start, end, text: "for (fruit, quantity) in &fruits {".to_string() },
    ];

    let updated = coder.apply_text_edits(&original, &edits)?;

    assert_eq!(
        updated,
        unindent(
            r#"
                fn main() {
                    let fruits = vec![];
                    for (fruit, quantity) in &fruits {
                }"#
        )
    );

    Ok(())
}
