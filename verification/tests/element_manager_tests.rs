use text_document::element::{CursorChange, Element, Frame};
use text_document::element_manager::ElementManager;
use text_document::model::FALLBACK_BLOCK_ORDER;

fn chars(s: &str) -> Vec<char> {
    s.chars().collect()
}

fn manager_with_root() -> ElementManager {
    let mut m = ElementManager::new_rc();
    m.clear();
    m
}

fn block_texts(m: &ElementManager) -> Vec<String> {
    m.block_list().iter().map(|b| b.text.iter().collect()).collect()
}

#[test]
fn new_manager_is_empty() {
    let m = ElementManager::new_rc();
    assert_eq!(m.block_count(), 0);
    assert!(m.block_list().is_empty());
    assert!(m.find_block(0).is_none());
}

#[test]
fn clear_makes_the_root_frame_and_its_block() {
    let m = manager_with_root();
    assert_eq!(m.root_frame(), Frame { uuid: 1 });
    assert_eq!(m.block_count(), 1);
    assert_eq!(m.block_list()[0].uuid, 2);
    let root = Element::FrameElement(Frame { uuid: 1 });
    assert_eq!(m.get_element_order(&root), Some(1));
    let first = Element::BlockElement(m.block_list()[0].duplicate());
    assert_eq!(m.get_element_order(&first), Some(2));
    assert_eq!(m.get_parent_frame(&first), None);
    assert_eq!(m.get_parent_frame(&root), None);
}

#[test]
fn last_block_of_an_empty_manager_makes_one() {
    let mut m = ElementManager::new_rc();
    let b = m.last_block();
    assert_eq!(b.uuid, 1);
    assert!(b.text.is_empty());
    assert_eq!(m.block_count(), 1);
    let e = Element::BlockElement(b);
    assert_eq!(m.get_element_order(&e), Some(FALLBACK_BLOCK_ORDER));
    assert_eq!(m.number_of_ancestors(1), 1);
}

#[test]
fn last_block_of_a_document_makes_nothing() {
    let mut m = manager_with_root();
    let b = m.last_block();
    assert_eq!(b.uuid, 2);
    assert_eq!(m.block_count(), 1);
}

#[test]
fn insert_plain_text_returns_the_position_after_the_text() {
    let mut m = manager_with_root();
    assert_eq!(m.insert_plain_text("hello", 0, 0, false), 5);
    assert_eq!(block_texts(&m), vec!["hello"]);
    assert_eq!(m.insert_plain_text(" world", 5, 5, false), 11);
    assert_eq!(block_texts(&m), vec!["hello world"]);
}

#[test]
fn insert_plain_text_inside_a_block() {
    let mut m = manager_with_root();
    m.insert_plain_text("held", 0, 0, false);
    assert_eq!(m.insert_plain_text("llo wor", 2, 2, false), 9);
    assert_eq!(block_texts(&m), vec!["hello world"]);
}

#[test]
fn insert_plain_text_replaces_the_selection() {
    let mut m = manager_with_root();
    m.insert_plain_text("hello world", 0, 0, false);
    assert_eq!(m.insert_plain_text("XY", 2, 4, false), 4);
    assert_eq!(block_texts(&m), vec!["heXYo world"]);
    // the anchor may stand before the position; the text still goes at the position
    assert_eq!(m.insert_plain_text("", 7, 5, false), 7);
    assert_eq!(block_texts(&m), vec!["heXYoorld"]);
}

#[test]
fn insert_plain_text_with_lines_splits_the_block() {
    let mut m = manager_with_root();
    m.insert_plain_text("abc", 0, 0, false);
    assert_eq!(m.insert_plain_text("X\nY\nZ", 1, 1, false), 6);
    assert_eq!(block_texts(&m), vec!["aX", "Y", "Zbc"]);
    let ids: Vec<usize> = m.block_list().iter().map(|b| b.uuid).collect();
    assert_eq!(ids, vec![2, 3, 4]);
}

#[test]
fn a_line_feed_typed_inside_a_block_splits_it() {
    let mut m = manager_with_root();
    m.insert_plain_text("ab", 0, 0, false);
    assert_eq!(m.insert_plain_text("\n", 1, 1, false), 2);
    assert_eq!(block_texts(&m), vec!["a", "b"]);
    let first = Element::BlockElement(m.block_list()[0].duplicate());
    let second = Element::BlockElement(m.block_list()[1].duplicate());
    assert_eq!(m.get_element_order(&first), Some(2));
    assert_eq!(m.get_element_order(&second), Some(3));
}

#[test]
fn text_typed_in_the_middle_lands_at_the_position() {
    let mut m = manager_with_root();
    m.insert_plain_text("abcd", 0, 0, false);
    assert_eq!(m.insert_plain_text("1\n2", 2, 2, false), 5);
    assert_eq!(block_texts(&m).join("\n"), "ab1\n2cd");
    assert_eq!(m.block_count(), 2);
}

#[test]
fn insert_plain_text_queues_a_cursor_change_when_asked() {
    let mut m = manager_with_root();
    m.insert_plain_text("abc", 0, 0, true);
    m.insert_plain_text("de", 3, 3, false);
    m.insert_plain_text("f", 5, 5, true);
    let changes = m.take_cursor_changes();
    assert_eq!(
        changes,
        vec![
            CursorChange { position: 0, removed_characters: 0, added_characters: 3 },
            CursorChange { position: 5, removed_characters: 0, added_characters: 6 },
        ]
    );
    assert!(m.take_cursor_changes().is_empty());
}

#[test]
fn remove_within_one_block() {
    let mut m = manager_with_root();
    m.insert_plain_text("hello world", 0, 0, false);
    assert_eq!(m.remove(8, 2, false), Some(2));
    assert_eq!(block_texts(&m), vec!["herld"]);
}

#[test]
fn remove_across_blocks_changes_nothing() {
    let mut m = manager_with_root();
    m.insert_plain_text("ab\ncd", 0, 0, false);
    assert_eq!(m.remove(1, 4, false), None);
    assert_eq!(block_texts(&m), vec!["ab", "cd"]);
}

#[test]
fn remove_outside_the_blocks_changes_nothing() {
    let mut m = manager_with_root();
    m.insert_plain_text("ab", 0, 0, false);
    assert_eq!(m.remove(5, 7, false), None);
    assert_eq!(m.remove(1, 9, false), None);
    assert_eq!(block_texts(&m), vec!["ab"]);
}

#[test]
fn remove_up_to_the_end_of_a_block() {
    let mut m = manager_with_root();
    m.insert_plain_text("ab", 0, 0, false);
    assert_eq!(m.remove(0, 2, false), Some(0));
    assert_eq!(block_texts(&m), vec![""]);
}

#[test]
fn insert_block_using_position_splits_and_files_right_after() {
    let mut m = manager_with_root();
    m.insert_plain_text("abc", 0, 0, false);
    let b = m.insert_block_using_position(1);
    assert_eq!(b.uuid, 3);
    assert_eq!(b.text, chars("bc"));
    let new_block = Element::BlockElement(b);
    assert_eq!(m.get_element_order(&new_block), Some(3));
    assert_eq!(m.get_parent_frame(&new_block), Some(Frame { uuid: 1 }));
    let old_block = Element::BlockElement(m.block_list()[0].duplicate());
    assert_eq!(m.get_element_order(&old_block), Some(2));
    assert_eq!(m.number_of_ancestors(3), 2);
    assert_eq!(m.number_of_ancestors(2), 1);
    assert_eq!(m.number_of_ancestors(1), 1);
    assert_eq!(m.block_count(), 2);
    assert_eq!(block_texts(&m), vec!["a", "bc"]);
}

#[test]
fn insert_block_using_position_keeps_later_blocks_after_it() {
    let mut m = manager_with_root();
    m.insert_plain_text("ab\ncd", 0, 0, false);
    m.insert_block_using_position(1);
    assert_eq!(block_texts(&m), vec!["a", "b", "cd"]);
    let ids: Vec<usize> = m.block_list().iter().map(|b| b.uuid).collect();
    assert_eq!(ids, vec![2, 4, 3]);
}

#[test]
fn insert_frame_using_position_adds_a_frame_and_its_block() {
    let mut m = manager_with_root();
    let f = m.insert_frame_using_position(0);
    assert_eq!(f.uuid, 3);
    let frame = Element::FrameElement(f);
    assert_eq!(m.get_element_order(&frame), Some(3));
    assert_eq!(m.get_parent_frame(&frame), Some(Frame { uuid: 1 }));
    assert_eq!(m.block_count(), 2);
    assert_eq!(m.block_list()[1].uuid, 4);
    let block = Element::BlockElement(m.block_list()[1].duplicate());
    assert_eq!(m.get_element_order(&block), Some(4));
    assert_eq!(m.get_parent_frame(&block), None);
    assert_eq!(m.number_of_ancestors(3), 2);
}

#[test]
fn find_frame_gives_the_parent_frame_of_the_block() {
    let mut m = manager_with_root();
    m.insert_plain_text("ab\ncd", 0, 0, false);
    // the first block has parent id 0, the block of the second line the root frame
    assert_eq!(m.find_frame(0), None);
    assert_eq!(m.find_frame(3), Some(Frame { uuid: 1 }));
    assert_eq!(m.find_frame(2), None);
}

#[test]
fn debug_elements_list_the_sort_orders() {
    let mut m = manager_with_root();
    m.insert_frame_using_position(0);
    let lines = m.debug_elements();
    let shown: Vec<(usize, String)> =
        lines.iter().map(|l| (l.indent, l.text.iter().collect())).collect();
    assert_eq!(
        shown,
        vec![
            (1, "frame".to_string()),
            (1, String::new()),
            (2, "frame".to_string()),
            (1, String::new()),
        ]
    );
}

#[test]
fn element_changes_are_queued_in_order() {
    let mut m = manager_with_root();
    m.signal_for_element_change(Element::FrameElement(Frame { uuid: 1 }));
    let b = m.block_list()[0].duplicate();
    m.signal_for_element_change(Element::BlockElement(b));
    let taken = m.take_element_changes();
    assert_eq!(taken.len(), 2);
    assert!(matches!(taken[0], Element::FrameElement(Frame { uuid: 1 })));
    assert!(matches!(&taken[1], Element::BlockElement(b) if b.uuid == 2));
    assert!(m.take_element_changes().is_empty());
}

#[test]
fn signal_for_cursor_change_queues_the_change() {
    let mut m = manager_with_root();
    m.signal_for_cursor_change(4, 1, 7);
    assert_eq!(
        m.take_cursor_changes(),
        vec![CursorChange { position: 4, removed_characters: 1, added_characters: 7 }]
    );
}

#[test]
fn ids_are_given_out_in_turn() {
    let mut m = ElementManager::new_rc();
    assert_eq!(m.get_new_uuid(), 1);
    assert_eq!(m.get_new_uuid(), 2);
    let b = m.create_block(7, 0);
    assert_eq!(b.uuid, 3);
    let e = Element::BlockElement(b);
    assert_eq!(m.get_element_order(&e), Some(7));
}

#[test]
fn create_frame_files_the_frame_and_its_first_block() {
    let mut m = manager_with_root();
    let f = m.create_frame(10, 1);
    assert_eq!(f.uuid, 3);
    let frame = Element::FrameElement(f);
    assert_eq!(m.get_element_order(&frame), Some(11));
    assert_eq!(m.get_parent_frame(&frame), Some(Frame { uuid: 1 }));
    let block = Element::BlockElement(m.block_list()[1].duplicate());
    assert_eq!(m.block_list()[1].uuid, 4);
    assert_eq!(m.get_element_order(&block), Some(12));
}

#[test]
fn create_block_staticaly_records_the_parent() {
    let mut m = manager_with_root();
    let b = m.create_block_staticaly(5, 1);
    assert_eq!(b.uuid, 3);
    let e = Element::BlockElement(b);
    assert_eq!(m.get_parent_frame(&e), Some(Frame { uuid: 1 }));
    assert_eq!(m.number_of_ancestors(3), 2);
}

#[test]
fn create_root_frame_of_an_empty_manager() {
    let mut m = ElementManager::new_rc();
    let f = m.create_root_frame();
    assert_eq!(f.uuid, 1);
    assert_eq!(m.root_frame(), Frame { uuid: 1 });
    assert_eq!(m.block_count(), 1);
}

#[test]
fn create_frame_staticaly_under_no_parent() {
    let mut m = ElementManager::new_rc();
    let f = m.create_frame_staticaly(0, 0);
    assert_eq!(f.uuid, 1);
    assert_eq!(m.block_list()[0].uuid, 2);
}

#[test]
fn text_typed_at_the_end_is_appended() {
    let mut m = manager_with_root();
    m.insert_plain_text("ab\ncd", 0, 0, false);
    // the plain text "ab\ncd" has 5 positions; typing at its end appends
    assert_eq!(m.insert_plain_text("e\nf", 5, 5, false), 8);
    assert_eq!(block_texts(&m), vec!["ab", "cde", "f"]);
}

#[test]
fn text_typed_at_the_end_of_a_block_joins_it() {
    let mut m = manager_with_root();
    m.insert_plain_text("ab\ncd", 0, 0, false);
    // position 2 is the end of "ab"
    assert_eq!(m.insert_plain_text("X", 2, 2, false), 3);
    assert_eq!(block_texts(&m), vec!["abX", "cd"]);
}

#[test]
fn text_typed_past_the_end_goes_to_the_end_of_the_last_block() {
    let mut m = manager_with_root();
    m.insert_plain_text("ab", 0, 0, false);
    assert_eq!(m.insert_plain_text("X", 9, 9, false), 10);
    assert_eq!(block_texts(&m), vec!["abX"]);
}

#[test]
fn managers_compare_by_content() {
    let mut a = manager_with_root();
    let mut b = manager_with_root();
    assert!(a == b);
    a.insert_plain_text("x", 0, 0, false);
    assert!(a != b);
    b.insert_plain_text("x", 0, 0, false);
    assert!(a == b);
    b.signal_for_cursor_change(1, 0, 1);
    assert!(a != b);
    let c = b.clone();
    assert!(c == b);
}

#[test]
fn positions_count_characters() {
    let mut m = manager_with_root();
    assert_eq!(m.insert_plain_text("é", 0, 0, false), 1);
    assert_eq!(m.insert_plain_text("x", 1, 1, false), 2);
    assert_eq!(block_texts(&m), vec!["éx"]);
}

#[test]
fn a_frame_is_filed_right_after_its_reference_block() {
    let mut m = manager_with_root();
    m.insert_plain_text("ab\ncd", 0, 0, false);
    let f = m.insert_frame_using_position(1);
    assert_eq!(f.uuid, 4);
    let ids: Vec<usize> = m.block_list().iter().map(|b| b.uuid).collect();
    assert_eq!(ids, vec![2, 5, 3]);
    assert_eq!(block_texts(&m), vec!["ab", "", "cd"]);
    let frame = Element::FrameElement(f);
    assert_eq!(m.get_element_order(&frame), Some(3));
    assert_eq!(m.get_parent_frame(&frame), Some(Frame { uuid: 1 }));
}

#[test]
fn a_block_filed_over_a_taken_order_goes_right_after_its_holder() {
    let mut m = manager_with_root();
    // sort order 2 holds the first block of the root frame
    let b = m.create_block_staticaly(2, 1);
    assert_eq!(b.uuid, 3);
    assert_eq!(m.block_count(), 2);
    let ids: Vec<usize> = m.block_list().iter().map(|b| b.uuid).collect();
    assert_eq!(ids, vec![2, 3]);
    let old_block = Element::BlockElement(m.block_list()[0].duplicate());
    let new_block = Element::BlockElement(b);
    assert_eq!(m.get_element_order(&old_block), Some(2));
    assert_eq!(m.get_element_order(&new_block), Some(3));
    assert_eq!(m.get_element_order(&Element::FrameElement(Frame { uuid: 1 })), Some(1));
}

#[test]
fn a_block_filed_over_a_frame_goes_right_after_it() {
    let mut m = manager_with_root();
    let b = m.create_block(1, 1);
    assert_eq!(b.uuid, 3);
    let ids: Vec<usize> = m.block_list().iter().map(|b| b.uuid).collect();
    assert_eq!(ids, vec![3, 2]);
    assert_eq!(m.get_element_order(&Element::BlockElement(b)), Some(2));
    assert_eq!(m.block_count(), 2);
}

#[test]
fn a_frame_filed_over_taken_orders_keeps_every_block() {
    let mut m = manager_with_root();
    // orders 1 and 2 are taken by the root frame and its block
    let f = m.create_frame_staticaly(0, 1);
    assert_eq!(f.uuid, 3);
    assert_eq!(m.block_count(), 2);
    // the frame goes right after the root frame, its block right after it
    let ids: Vec<usize> = m.block_list().iter().map(|b| b.uuid).collect();
    assert_eq!(ids, vec![4, 2]);
    let frame = Element::FrameElement(f);
    assert_eq!(m.get_element_order(&frame), Some(2));
    assert_eq!(m.get_parent_frame(&frame), Some(Frame { uuid: 1 }));
}

#[test]
fn the_last_block_has_the_greatest_sort_order() {
    let mut m = manager_with_root();
    m.insert_plain_text("a\nb\nc", 0, 0, false);
    m.create_block(100, 1);
    let last = m.last_block();
    let last_order = m.get_element_order(&Element::BlockElement(last.duplicate())).unwrap();
    for b in m.block_list() {
        let order = m.get_element_order(&Element::BlockElement(b.duplicate())).unwrap();
        assert!(order <= last_order);
    }
    assert_eq!(last.uuid, 5);
}

#[test]
fn text_typed_past_the_end_adds_one_block_per_line_feed() {
    let mut m = manager_with_root();
    m.insert_plain_text("ab", 0, 0, false);
    assert_eq!(m.insert_plain_text("x\ny\nz", 40, 40, false), 45);
    assert_eq!(m.block_count(), 3);
    assert_eq!(block_texts(&m), vec!["abx", "y", "z"]);
    assert_eq!(m.root_frame(), Frame { uuid: 1 });
}

#[test]
fn text_typed_over_a_selection_adds_one_block_per_line_feed() {
    let mut m = manager_with_root();
    m.insert_plain_text("hello", 0, 0, false);
    assert_eq!(m.insert_plain_text("1\n2", 4, 1, false), 7);
    assert_eq!(m.block_count(), 2);
    // the selection "ell" goes; the text then goes in at position 4, past the end of "ho"
    assert_eq!(block_texts(&m), vec!["ho1", "2"]);
}
