use text_document::options::{Tab, TabType, TextDirection, TextDocumentOption, WrapMode};

#[test]
fn default_tab_type_is_left() {
    assert_eq!(TabType::default(), TabType::LeftTab);
}

#[test]
fn default_text_direction_is_left_to_right() {
    assert_eq!(TextDirection::default(), TextDirection::LeftToRight);
}

#[test]
fn default_wrap_mode_is_word_wrap() {
    assert_eq!(WrapMode::default(), WrapMode::WordWrap);
}

#[test]
fn default_tab() {
    let tab = Tab::default();
    assert_eq!(tab.position, 0);
    assert_eq!(tab.tab_type, TabType::LeftTab);
    assert_eq!(tab.delimiter, '\0');
}

#[test]
fn default_options() {
    let options = TextDocumentOption::default();
    assert!(options.tabs.is_empty());
    assert_eq!(options.text_direction, TextDirection::LeftToRight);
    assert_eq!(options.wrap_mode, WrapMode::WordWrap);
}

#[test]
fn options_compare_by_value() {
    let mut options = TextDocumentOption::default();
    assert!(options == TextDocumentOption::default());
    options.tabs.push(Tab::default());
    assert!(options != TextDocumentOption::default());
}
