use merlion_render::options::Direction;
use merlion_render::parse::flowchart::{is_id_char, parse_direction, valid_class_name};

#[test]
fn direction_tokens_ignore_case() {
    assert_eq!(parse_direction("TD"), Some(Direction::TB));
    assert_eq!(parse_direction("tb"), Some(Direction::TB));
    assert_eq!(parse_direction("v"), Some(Direction::TB));
    assert_eq!(parse_direction("^"), Some(Direction::BT));
    assert_eq!(parse_direction("bt"), Some(Direction::BT));
    assert_eq!(parse_direction(">"), Some(Direction::LR));
    assert_eq!(parse_direction("Lr"), Some(Direction::LR));
    assert_eq!(parse_direction("<"), Some(Direction::RL));
    assert_eq!(parse_direction("RL"), Some(Direction::RL));
    assert_eq!(parse_direction("TDD"), None);
    assert_eq!(parse_direction(""), None);
}

#[test]
fn id_characters_are_unicode_alphanumerics_and_underscore() {
    assert!(is_id_char('a'));
    assert!(is_id_char('Z'));
    assert!(is_id_char('7'));
    assert!(is_id_char('_'));
    assert!(is_id_char('é'));
    assert!(is_id_char('字'));
    assert!(!is_id_char('-'));
    assert!(!is_id_char(' '));
    assert!(!is_id_char('>'));
}

#[test]
fn class_names_follow_the_grammar() {
    assert!(valid_class_name("hot"));
    assert!(valid_class_name("_x-1"));
    assert!(!valid_class_name("1x"));
    assert!(!valid_class_name("a b"));
    assert!(!valid_class_name(""));
    assert!(valid_class_name(&"a".repeat(64)));
    assert!(!valid_class_name(&"a".repeat(65)));
}
