use anycoder::coder::Coder;
use anycoder::llm::LlmClient;
use anycoder::patch::AnchorMode;
use anycoder::state::{FileState, ModifyPlan, State};
use anycoder::utils::{has_content_changed, is_ignored_dir, IGNORE_DIRS};

fn state() -> State {
    State::new(Coder::new(LlmClient::new("", "", "")))
}

fn path(parts: &[&str]) -> Vec<String> {
    parts.iter().map(|part| part.to_string()).collect()
}

#[test]
fn new_state_knows_no_file() {
    let state = state();
    assert_eq!(state.get("a.rs"), None);
    assert_eq!(state.coder().anchor, AnchorMode::Strict);
}

#[test]
fn state_keeps_the_last_content_of_each_path() {
    let mut state = state();
    state.set("a.rs", "one".to_string());
    state.set("b.rs", "two".to_string());
    assert_eq!(state.get("a.rs"), Some(&FileState { content: "one".to_string() }));
    assert_eq!(state.get("b.rs"), Some(&FileState { content: "two".to_string() }));
    assert_eq!(state.get("c.rs"), None);
    state.set("a.rs", "three".to_string());
    assert_eq!(state.get("a.rs"), Some(&FileState { content: "three".to_string() }));
    assert_eq!(state.get("b.rs"), Some(&FileState { content: "two".to_string() }));
}

#[test]
fn known_content_asks_for_nothing() {
    let mut state = state();
    state.set("a.rs", "let x = ??;".to_string());
    assert_eq!(state.plan_modify("a.rs", "let x = ??;"), ModifyPlan::Unchanged);
}

#[test]
fn new_content_with_sentinel_asks_for_the_model() {
    let mut state = state();
    assert_eq!(state.plan_modify("a.rs", "let x = ??;"), ModifyPlan::Complete { cursor: 8 });
    state.set("a.rs", "let x = 1;".to_string());
    assert_eq!(state.plan_modify("a.rs", "да ?? и ??"), ModifyPlan::Complete { cursor: 3 });
    assert_eq!(state.plan_modify("b.rs", "??"), ModifyPlan::Complete { cursor: 0 });
}

#[test]
fn new_content_without_sentinel_is_recorded() {
    let mut state = state();
    assert_eq!(state.plan_modify("a.rs", "let x = 1;"), ModifyPlan::Record);
    state.set("a.rs", "let x = 1;".to_string());
    assert_eq!(state.plan_modify("a.rs", "let x = 2; // ?"), ModifyPlan::Record);
    assert_eq!(state.plan_modify("b.rs", "let x = 1;"), ModifyPlan::Record);
}

#[test]
fn content_changes_when_it_differs_or_was_unknown() {
    let old = "abc".to_string();
    assert!(!has_content_changed(Some(&old), "abc"));
    assert!(has_content_changed(Some(&old), "abd"));
    assert!(has_content_changed(Some(&old), "ab"));
    assert!(has_content_changed(Some(&old), ""));
    assert!(has_content_changed(None, "abc"));
    assert!(has_content_changed(None, ""));
    assert!(!has_content_changed(Some(&String::new()), ""));
}

#[test]
fn path_with_an_ignored_component_is_ignored() {
    assert!(is_ignored_dir(&path(&[".", "target", "debug", "build.rs"])));
    assert!(is_ignored_dir(&path(&["src", "node_modules"])));
    assert!(is_ignored_dir(&path(&[".git"])));
    assert!(is_ignored_dir(&path(&["src", "coder.rs"])));
    for name in IGNORE_DIRS {
        assert!(is_ignored_dir(&path(&["a", name, "b"])));
    }
}

#[test]
fn path_without_an_ignored_component_is_watched() {
    assert!(!is_ignored_dir(&path(&[".", "src", "main.rs"])));
    assert!(!is_ignored_dir(&path(&[])));
    // a component counts as a whole
    assert!(!is_ignored_dir(&path(&["targets", "my.git", "dist2"])));
    assert!(!is_ignored_dir(&path(&["Target"])));
}
