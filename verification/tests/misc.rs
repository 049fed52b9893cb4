use wysiwyg::composer::{ComposerModel, MenuState, TextUpdate};
use wysiwyg::errors::MarkdownParseError;
use wysiwyg::location::Location;
use wysiwyg::pattern_key::PatternKey;

#[test]
fn locations_add_and_move() {
    let a = Location::from(5);
    let b = Location::from(3);
    assert_eq!(usize::from(a + b), 8);
    let mut c = Location::from(2);
    c.add_assign(-10);
    assert_eq!(c.value(), 0);
    let mut d = Location::from(7);
    d.add_assign(3);
    d.sub_assign(3);
    assert_eq!(d.value(), 7);
    d.sub_assign(2);
    assert_eq!(d, Location::from(5));
}

#[test]
fn pattern_keys_from_strings() {
    let none: Vec<String> = Vec::new();
    assert_eq!(PatternKey::from_string_and_suggestions("@alice".to_string(), &none), Some(PatternKey::At));
    assert_eq!(PatternKey::from_string_and_suggestions("#room".to_string(), &none), Some(PatternKey::Hash));
    assert_eq!(PatternKey::from_string_and_suggestions("/cmd".to_string(), &none), Some(PatternKey::Slash));
    assert_eq!(PatternKey::from_string_and_suggestions("x".to_string(), &none), None);
    assert_eq!(PatternKey::from_string_and_suggestions("".to_string(), &none), None);
    let custom = vec!["@alice".to_string()];
    assert_eq!(
        PatternKey::from_string_and_suggestions("@alice".to_string(), &custom),
        Some(PatternKey::Custom("@alice".to_string()))
    );
    assert!(PatternKey::At.is_static_pattern());
    assert!(!PatternKey::Custom("x".to_string()).is_static_pattern());
}

#[test]
fn composer_keeps_the_text() {
    let mut model = ComposerModel::new();
    model.select(0, 1);
    let u = model.replace_text("abc".to_string());
    assert!(matches!(u.text_update, TextUpdate::Keep));
    assert_eq!(u.menu_state, MenuState::Nothing);
    assert!(u.actions.is_empty());
    assert!(matches!(model.backspace().text_update, TextUpdate::Keep));
    assert!(matches!(model.delete().text_update, TextUpdate::Keep));
}

#[test]
fn markdown_parse_error_message() {
    assert_eq!(MarkdownParseError::InvalidMarkdownError.message(), "unable to parse markdown");
}
