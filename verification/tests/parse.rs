use anycoder::coder::Coder;
use anycoder::error::{Marker, PatchError};
use anycoder::llm::LlmClient;
use anycoder::patch::{parse_patch, AnchorMode, Patch};

fn patch(start: usize, search: &str, replace: &str, anchored: bool) -> Patch {
    Patch { start, search: search.to_string(), replace: replace.to_string(), anchored }
}

#[test]
fn patch_starts_before_the_cursor_by_the_characters_before_the_token() {
    let response = "<|SEARCH|>let <|cursor|> = 10;<|DIVIDE|>let x = 10;<|REPLACE|>";
    assert_eq!(
        parse_patch(response, 30, AnchorMode::Strict),
        Ok(patch(26, "let  = 10;", "let x = 10;", true))
    );
}

#[test]
fn characters_before_the_token_are_counted_not_bytes() {
    let response = "<|SEARCH|>имя <|cursor|>;<|DIVIDE|>имя x;<|REPLACE|>";
    assert_eq!(
        parse_patch(response, 10, AnchorMode::Strict),
        Ok(patch(6, "имя ;", "имя x;", true))
    );
}

#[test]
fn patch_does_not_start_before_the_buffer() {
    let response = "<|SEARCH|>abcdef<|cursor|><|DIVIDE|>abcdefg<|REPLACE|>";
    assert_eq!(
        parse_patch(response, 2, AnchorMode::Strict),
        Ok(patch(0, "abcdef", "abcdefg", true))
    );
    assert_eq!(
        parse_patch(response, 6, AnchorMode::Strict),
        Ok(patch(0, "abcdef", "abcdefg", true))
    );
    assert_eq!(
        parse_patch(response, 7, AnchorMode::Strict),
        Ok(patch(1, "abcdef", "abcdefg", true))
    );
}

#[test]
fn text_around_the_answer_is_left_aside() {
    let response =
        "Sure!\n<|SEARCH|>a<|cursor|>b<|DIVIDE|>axb<|REPLACE|>\nHope this helps <|REPLACE|>";
    assert_eq!(parse_patch(response, 5, AnchorMode::Strict), Ok(patch(4, "ab", "axb", true)));
}

#[test]
fn cursor_tokens_are_cut_out_of_both_fragments() {
    let response = "<|SEARCH|>a<|cursor|>b<|cursor|>c<|DIVIDE|>a<|cursor|>xbc<|REPLACE|>";
    assert_eq!(parse_patch(response, 1, AnchorMode::Strict), Ok(patch(0, "abc", "axbc", true)));
}

#[test]
fn fragments_may_be_empty() {
    assert_eq!(
        parse_patch("<|SEARCH|><|cursor|><|DIVIDE|><|REPLACE|>", 9, AnchorMode::Strict),
        Ok(patch(9, "", "", true))
    );
}

#[test]
fn missing_search_token_is_named() {
    assert_eq!(
        parse_patch("a<|cursor|>b<|DIVIDE|>axb<|REPLACE|>", 0, AnchorMode::Strict),
        Err(PatchError::MissingMarker(Marker::Search))
    );
    assert_eq!(parse_patch("", 0, AnchorMode::BestEffort), Err(PatchError::MissingMarker(Marker::Search)));
}

#[test]
fn missing_divide_token_is_named() {
    assert_eq!(
        parse_patch("<|SEARCH|>a<|cursor|>b<|REPLACE|>", 0, AnchorMode::Strict),
        Err(PatchError::MissingMarker(Marker::Divide))
    );
}

#[test]
fn missing_replace_token_is_named() {
    assert_eq!(
        parse_patch("<|SEARCH|>a<|cursor|>b<|DIVIDE|>axb", 0, AnchorMode::Strict),
        Err(PatchError::MissingMarker(Marker::Replace))
    );
}

#[test]
fn tokens_count_only_in_their_order() {
    // the divide token before the search token does not part anything
    assert_eq!(
        parse_patch("<|DIVIDE|>x<|SEARCH|>a<|cursor|>b<|REPLACE|>", 0, AnchorMode::Strict),
        Err(PatchError::MissingMarker(Marker::Divide))
    );
    // nor does the replace token before the divide token close anything
    assert_eq!(
        parse_patch("<|SEARCH|>a<|REPLACE|><|cursor|>b<|DIVIDE|>axb", 0, AnchorMode::Strict),
        Err(PatchError::MissingMarker(Marker::Replace))
    );
    assert_eq!(
        parse_patch(
            "<|DIVIDE|><|SEARCH|>a<|cursor|>b<|DIVIDE|>axb<|REPLACE|>",
            1,
            AnchorMode::Strict
        ),
        Ok(patch(0, "ab", "axb", true))
    );
}

#[test]
fn missing_cursor_token_is_refused_when_strict() {
    assert_eq!(
        parse_patch("<|SEARCH|>ab<|DIVIDE|>axb<|REPLACE|>", 3, AnchorMode::Strict),
        Err(PatchError::MissingMarker(Marker::Cursor))
    );
    // a cursor token in the replace fragment does not anchor
    assert_eq!(
        parse_patch("<|SEARCH|>ab<|DIVIDE|>a<|cursor|>b<|REPLACE|>", 3, AnchorMode::Strict),
        Err(PatchError::MissingMarker(Marker::Cursor))
    );
}

#[test]
fn missing_cursor_token_anchors_at_the_cursor_at_best_effort() {
    assert_eq!(
        parse_patch("<|SEARCH|>ab<|DIVIDE|>a<|cursor|>xb<|REPLACE|>", 3, AnchorMode::BestEffort),
        Ok(patch(3, "ab", "axb", false))
    );
}

#[test]
fn best_effort_reads_a_cursor_token_like_strict() {
    let response = "<|SEARCH|>a<|cursor|>b<|DIVIDE|>axb<|REPLACE|>";
    assert_eq!(
        parse_patch(response, 5, AnchorMode::BestEffort),
        parse_patch(response, 5, AnchorMode::Strict)
    );
}

#[test]
fn missing_tokens_are_named_in_order() {
    assert_eq!(
        parse_patch("nothing", 0, AnchorMode::Strict),
        Err(PatchError::MissingMarker(Marker::Search))
    );
    assert_eq!(
        parse_patch("<|SEARCH|>nothing", 0, AnchorMode::Strict),
        Err(PatchError::MissingMarker(Marker::Divide))
    );
    assert_eq!(
        parse_patch("<|SEARCH|>nothing<|DIVIDE|>", 0, AnchorMode::Strict),
        Err(PatchError::MissingMarker(Marker::Replace))
    );
    assert_eq!(
        parse_patch("<|SEARCH|>nothing<|DIVIDE|><|REPLACE|>", 0, AnchorMode::Strict),
        Err(PatchError::MissingMarker(Marker::Cursor))
    );
}

#[test]
fn marker_tokens() {
    assert_eq!(Marker::Search.token(), "<|SEARCH|>");
    assert_eq!(Marker::Divide.token(), "<|DIVIDE|>");
    assert_eq!(Marker::Replace.token(), "<|REPLACE|>");
    assert_eq!(Marker::Cursor.token(), "<|cursor|>");
}

#[test]
fn coder_is_strict_unless_told() {
    let response = "<|SEARCH|>ab<|DIVIDE|>axb<|REPLACE|>";
    let strict = Coder::new(LlmClient::new("key", "http://localhost", "model"));
    assert_eq!(strict.anchor, AnchorMode::Strict);
    assert_eq!(strict.llm, LlmClient::new("key", "http://localhost", "model"));
    assert_eq!(strict.parse_patch(response, 3), Err(PatchError::MissingMarker(Marker::Cursor)));
    let lenient = strict.with_anchor(AnchorMode::BestEffort);
    assert_eq!(lenient.anchor, AnchorMode::BestEffort);
    assert_eq!(lenient.llm.model, "model");
    assert_eq!(lenient.parse_patch(response, 3), Ok(patch(3, "ab", "axb", false)));
}
