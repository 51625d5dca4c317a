use text_document::element::Block;
use text_document::text_document::TextDocument;

fn chars(s: &str) -> Vec<char> {
    s.chars().collect()
}

fn texts(blocks: &[Block]) -> Vec<String> {
    blocks.iter().map(|b| b.text.iter().collect()).collect()
}

#[test]
fn new_document_has_one_empty_block_under_the_root_frame() {
    let doc = TextDocument::new();
    assert_eq!(doc.block_count(), 1);
    assert_eq!(doc.character_count(), 0);
    assert_eq!(doc.root_frame().uuid, 1);
    let blocks = doc.block_list();
    assert_eq!(blocks.len(), 1);
    assert_eq!(blocks[0].uuid, 2);
    assert!(blocks[0].text.is_empty());
    assert_eq!(doc.last_block().uuid, 2);
}

#[test]
fn set_plain_text_gives_one_block_per_line() {
    let mut doc = TextDocument::new();
    doc.set_plain_text("abc\ndef\n\ngh");
    let blocks = doc.block_list();
    assert_eq!(texts(&blocks), vec!["abc", "def", "", "gh"]);
    let ids: Vec<usize> = blocks.iter().map(|b| b.uuid).collect();
    assert_eq!(ids, vec![2, 3, 4, 5]);
    assert_eq!(doc.block_count(), 4);
    assert_eq!(doc.character_count(), 8);
    assert_eq!(doc.last_block().uuid, 5);
    assert_eq!(doc.last_block().text, chars("gh"));
}

#[test]
fn set_plain_text_round_trips_through_the_blocks() {
    let mut doc = TextDocument::new();
    let text = "first line\nsecond\n\nfourth, after an empty one\n";
    doc.set_plain_text(text);
    let joined = texts(&doc.block_list()).join("\n");
    assert_eq!(joined, text);
    assert_eq!(doc.block_count(), 5);
    assert_eq!(doc.character_count(), text.chars().count() - 4);
}

#[test]
fn set_plain_text_with_empty_text_leaves_one_empty_block() {
    let mut doc = TextDocument::new();
    doc.set_plain_text("something");
    doc.set_plain_text("");
    assert_eq!(doc.block_count(), 1);
    assert_eq!(doc.character_count(), 0);
    assert_eq!(doc.block_list()[0].uuid, 2);
}

#[test]
fn set_plain_text_replaces_the_previous_content() {
    let mut doc = TextDocument::new();
    doc.set_plain_text("a\nb\nc");
    doc.set_plain_text("xyz");
    assert_eq!(texts(&doc.block_list()), vec!["xyz"]);
    assert_eq!(doc.block_list()[0].uuid, 2);
}

#[test]
fn find_block_uses_block_ranges_up_to_their_ends() {
    let mut doc = TextDocument::new();
    doc.set_plain_text("abc\ndef\n\ngh");
    assert_eq!(doc.find_block(0).map(|b| b.uuid), Some(2));
    assert_eq!(doc.find_block(2).map(|b| b.uuid), Some(2));
    assert_eq!(doc.find_block(3).map(|b| b.uuid), Some(2));
    assert_eq!(doc.find_block(4).map(|b| b.uuid), Some(3));
    assert_eq!(doc.find_block(7).map(|b| b.uuid), Some(3));
    assert_eq!(doc.find_block(8).map(|b| b.uuid), Some(4));
    assert_eq!(doc.find_block(9).map(|b| b.uuid), Some(5));
    assert_eq!(doc.find_block(10).map(|b| b.text), Some(chars("gh")));
    assert_eq!(doc.find_block(11).map(|b| b.uuid), Some(5));
    assert!(doc.find_block(12).is_none());
    assert!(doc.find_block(usize::MAX).is_none());
}

#[test]
fn find_block_in_an_empty_document_finds_the_empty_block() {
    let doc = TextDocument::new();
    assert_eq!(doc.find_block(0).map(|b| b.uuid), Some(2));
    assert!(doc.find_block(1).is_none());
}

#[test]
fn clear_goes_back_to_a_new_document() {
    let mut doc = TextDocument::new();
    doc.set_plain_text("one\ntwo");
    doc.clear();
    assert_eq!(doc.block_count(), 1);
    assert_eq!(doc.character_count(), 0);
    assert_eq!(doc.root_frame().uuid, 1);
    assert_eq!(doc.last_block().uuid, 2);
}

#[test]
fn create_cursor_starts_at_the_beginning() {
    let doc = TextDocument::new();
    let cursor = doc.create_cursor();
    assert_eq!(cursor.position, 0);
    assert_eq!(cursor.anchor_position, 0);
}

#[test]
fn debug_elements_of_a_new_document() {
    let doc = TextDocument::new();
    let lines = doc.debug_elements();
    assert_eq!(lines.len(), 2);
    assert_eq!(lines[0].indent, 1);
    assert_eq!(lines[0].text, chars("frame"));
    assert_eq!(lines[1].indent, 1);
    assert!(lines[1].text.is_empty());
}

#[test]
fn debug_elements_follow_the_sort_orders() {
    let mut doc = TextDocument::new();
    doc.set_plain_text("a\nb");
    let lines = doc.debug_elements();
    assert_eq!(lines.len(), 3);
    assert_eq!(lines[0].text, chars("frame"));
    assert_eq!(lines[1].indent, 1);
    assert_eq!(lines[1].text, chars("a"));
    assert_eq!(lines[2].indent, 2);
    assert_eq!(lines[2].text, chars("b"));
}

#[test]
fn set_plain_text_reports_no_cursor_change() {
    let mut doc = TextDocument::new();
    doc.set_plain_text("abc");
    assert!(doc.take_cursor_changes().is_empty());
}

#[test]
fn new_documents_get_random_version_4_ids() {
    let a = TextDocument::new();
    let b = TextDocument::new();
    assert_eq!((a.uuid() >> 76) & 0xf, 4);
    assert_eq!((a.uuid() >> 62) & 0x3, 2);
    assert_eq!((b.uuid() >> 76) & 0xf, 4);
    assert_ne!(a.uuid(), b.uuid());
}

#[test]
fn clear_and_set_plain_text_keep_the_id() {
    let mut doc = TextDocument::new();
    let id = doc.uuid();
    doc.set_plain_text("a\nb");
    doc.clear();
    assert_eq!(doc.uuid(), id);
}

#[test]
fn a_clone_equals_its_original_until_one_changes() {
    let mut doc = TextDocument::new();
    doc.set_plain_text("a\nb");
    let mut copy = doc.clone();
    assert!(copy == doc);
    assert_eq!(copy.uuid(), doc.uuid());
    copy.set_plain_text("c");
    assert!(copy != doc);
    assert_eq!(doc.block_count(), 2);
    assert_eq!(copy.block_count(), 1);
}

#[test]
fn documents_with_different_ids_differ() {
    let a = TextDocument::new();
    let b = TextDocument::new();
    assert!(a != b);
}
