use vstd::prelude::*;

use crate::element::{Block, CursorChange, DebugLine, DocModel, ElementView, Frame};
use crate::element_manager::ElementManager;
use crate::laws::lemma_set_plain_text;
use crate::lemmas::{lemma_document_order, lemma_outline, lemma_root};
use crate::model::{count_line_feeds, found_index, root_id, total_chars};

verus! {

/// A random id for a new document.
///
/// Calls `uuid::Uuid::new_v4` and hands out the id as its 128-bit value. Of the
/// result this claims only what `new_v4` writes into it whatever the random
/// bits: the version field (bits 76 to 79) holds 4 and the variant field
/// (bits 62 and 63) holds the binary value 10. The other bits are random and
/// nothing is claimed of them.
#[verifier::external_body]
fn new_document_uuid() -> (id: u128)
    ensures
        (id >> 76u128) & 0xfu128 == 4,
        (id >> 62u128) & 0x3u128 == 2,
{
    uuid::Uuid::new_v4().as_u128()
}

/// A cursor on a document: the position where it stands and the position of
/// its anchor, the other end of its selection.
#[derive(PartialEq, Eq, Structural, Clone, Copy, Debug)]
pub struct TextCursor {
    pub position: usize,
    pub anchor_position: usize,
}

/// A structured text document: a root frame holding blocks of plain text,
/// with a random id of its own.
pub struct TextDocument {
    element_manager: ElementManager,
    uuid: u128,
}

impl View for TextDocument {
    type V = DocModel;

    closed spec fn view(&self) -> DocModel {
        self.element_manager@
    }
}

impl Clone for TextDocument {
    /// A copy of the document with the same id: the same elements and queued
    /// changes, held apart from the original, so that a later change to one
    /// does not show in the other.
    fn clone(&self) -> (r: Self)
        ensures
            r@ == self@,
            r.uuid_value() == self.uuid_value(),
            r.pending_cursor_changes() == self.pending_cursor_changes(),
    {
        proof {
            use_type_invariant(self);
        }
        TextDocument { element_manager: self.element_manager.clone(), uuid: self.uuid }
    }
}

impl TextDocument {
    /// Well-formedness, kept by every operation: the elements are well
    /// formed, the root frame stands at its id and there is at least one block.
    #[verifier::type_invariant]
    closed spec fn wf(&self) -> bool {
        &&& self.element_manager@.wf()
        &&& self.element_manager@.has_root()
        &&& self.element_manager@.block_ids().len() > 0
        &&& self.element_manager.pending_element_changes() == Seq::<ElementView>::empty()
    }

    /// The id of the document as a 128-bit value.
    pub closed spec fn uuid_value(&self) -> u128 {
        self.uuid
    }

    /// The id of the document as a 128-bit value.
    pub fn uuid(&self) -> (id: u128)
        ensures
            id == self.uuid_value(),
    {
        self.uuid
    }

    /// Whether two documents hold the same: the same id, the same elements
    /// and the same cursor changes waiting to be reported.
    pub(crate) fn same_document(&self, other: &Self) -> (r: bool)
        ensures
            r == (self@ == other@ && self.uuid_value() == other.uuid_value()
                && self.pending_cursor_changes() == other.pending_cursor_changes()),
    {
        proof {
            use_type_invariant(self);
            use_type_invariant(other);
        }
        self.uuid == other.uuid && self.element_manager.same_content(&other.element_manager)
    }

    /// The cursor changes that wait to be reported, oldest first.
    pub closed spec fn pending_cursor_changes(&self) -> Seq<CursorChange> {
        self.element_manager.pending_cursor_changes()
    }

    /// A new document: a root frame with one empty block, and a random
    /// version-4 id.
    pub fn new() -> (r: Self)
        ensures
            r@ == DocModel::root(),
            (r.uuid_value() >> 76u128) & 0xfu128 == 4,
            (r.uuid_value() >> 62u128) & 0x3u128 == 2,
            r.pending_cursor_changes() == Seq::<CursorChange>::empty(),
    {
        let mut element_manager = ElementManager::new_rc();
        element_manager.clear();
        proof {
            lemma_root();
        }
        TextDocument { element_manager, uuid: new_document_uuid() }
    }

    /// Copies of the blocks, in document order.
    pub fn block_list(&self) -> (r: Vec<Block>)
        ensures
            r@.len() == self@.blocks().len(),
            r@.len() == self@.block_set().len(),
            forall|j: int| 0 <= j < r@.len() ==> #[trigger] r@[j]@ == self@.blocks()[j],
            forall|id: usize|
                #[trigger] self@.is_block(id) <==> exists|j: int|
                    0 <= j < r@.len() && #[trigger] r@[j]@.uuid == id,
    {
        proof {
            use_type_invariant(self);
        }
        self.element_manager.block_list()
    }

    /// The root frame.
    pub fn root_frame(&self) -> (f: Frame)
        ensures
            f.uuid == root_id(),
    {
        proof {
            use_type_invariant(self);
        }
        self.element_manager.root_frame()
    }

    /// The number of characters in all the blocks (separators not counted).
    pub fn character_count(&self) -> (n: usize)
        requires
            self@.character_count() <= usize::MAX,
        ensures
            n == self@.character_count(),
    {
        proof {
            use_type_invariant(self);
        }
        let blocks = self.element_manager.block_list();
        let ghost texts = self@.texts();
        let mut counter: usize = 0;
        let n = blocks.len();
        assert(texts.len() == n);
        proof {
            lemma_total_chars_prefix(texts, n as int);
        }
        for j in 0..n
            invariant
                n == blocks@.len(),
                n == texts.len(),
                texts == self@.texts(),
                forall|i: int| 0 <= i < n ==> #[trigger] blocks@[i]@ == self@.blocks()[i],
                counter == total_chars(texts.take(j as int)),
                total_chars(texts) <= usize::MAX,
        {
            proof {
                lemma_total_chars_prefix(texts, j as int + 1);
                assert(texts.take(j as int + 1).drop_last() =~= texts.take(j as int));
                assert(blocks@[j as int]@ == self@.blocks()[j as int]);
                assert(self@.blocks()[j as int].text == texts[j as int]);
            }
            counter = counter + blocks[j].length();
        }
        assert(texts.take(n as int) =~= texts);
        counter
    }

    /// A copy of the first block that holds `position`, if one does.
    pub fn find_block(&self, position: usize) -> (r: Option<Block>)
        ensures
            r is Some <==> found_index(self@.texts(), position as int) is Some,
            r matches Some(b) ==> b@ == self@.blocks()[found_index(
                self@.texts(),
                position as int,
            )->0],
    {
        proof {
            use_type_invariant(self);
        }
        self.element_manager.find_block(position)
    }

    /// A copy of the last block: the block filed under the greatest sort order.
    pub fn last_block(&self) -> (b: Block)
        ensures
            b@ == self@.blocks().last(),
            self@.order_of(b@.uuid) is Some,
            forall|id: usize|
                #[trigger] self@.is_block(id) && id != b@.uuid ==> self@.order_of(id)->0
                    < self@.order_of(b@.uuid)->0,
    {
        proof {
            use_type_invariant(self);
            let m = self@;
            lemma_outline(m);
            lemma_document_order(m);
            let ids = m.block_ids();
            let l = ids.len() - 1;
            assert(m.order_of(ids[l]) is Some);
            assert forall|id: usize| #[trigger] m.is_block(id) && id != ids[l] implies m.order_of(
                id,
            )->0 < m.order_of(ids[l])->0 by {
                assert(ids.contains(id));
                let j = choose|j: int| 0 <= j < ids.len() && ids[j] == id;
                assert(j != l);
            }
        }
        let list = self.element_manager.block_list();
        list[list.len() - 1].duplicate()
    }

    /// The number of blocks.
    pub fn block_count(&self) -> (n: usize)
        ensures
            n == self@.block_set().len(),
            n == self@.block_ids().len(),
    {
        proof {
            use_type_invariant(self);
        }
        self.element_manager.block_count()
    }

    /// A new cursor, at the start of the document with nothing selected.
    pub fn create_cursor(&self) -> (c: TextCursor)
        ensures
            c.position == 0,
            c.anchor_position == 0,
    {
        TextCursor { position: 0, anchor_position: 0 }
    }

    /// Replaces the whole content with `plain_text`: one block per line.
    pub fn set_plain_text(&mut self, plain_text: &str)
        requires
            plain_text@.len() <= usize::MAX,
            count_line_feeds(plain_text@) + 2 <= usize::MAX,
        ensures
            final(self)@ == DocModel::root().insert_plain_text(plain_text@, 0, 0),
            final(self)@.plain_text() == plain_text@,
            final(self)@.block_ids().len() == count_line_feeds(plain_text@) + 1,
            final(self)@.character_count() == plain_text@.len() - count_line_feeds(plain_text@),
            final(self).uuid_value() == old(self).uuid_value(),
            final(self).pending_cursor_changes() == old(self).pending_cursor_changes(),
    {
        proof {
            use_type_invariant(&*self);
        }
        proof {
            lemma_set_plain_text(plain_text@);
            lemma_root();
            crate::lines::lemma_split_lines_len(plain_text@);
        }
        let mut manager = Self::root_manager();
        std::mem::swap(&mut manager, &mut self.element_manager);
        manager.clear();
        manager.insert_plain_text(plain_text, 0, 0, false);
        std::mem::swap(&mut manager, &mut self.element_manager);
    }

    /// Takes out the whole content: the document is again a root frame with
    /// one empty block.
    pub fn clear(&mut self)
        ensures
            final(self)@ == DocModel::root(),
            final(self).uuid_value() == old(self).uuid_value(),
            final(self).pending_cursor_changes() == old(self).pending_cursor_changes(),
    {
        proof {
            use_type_invariant(&*self);
        }
        let mut manager = Self::root_manager();
        std::mem::swap(&mut manager, &mut self.element_manager);
        manager.clear();
        proof {
            lemma_root();
        }
        std::mem::swap(&mut manager, &mut self.element_manager);
    }

    /// The outline of the document, as `ElementManager::debug_elements` gives it.
    pub fn debug_elements(&self) -> (r: Vec<DebugLine>)
        ensures
            exists|ks: Seq<usize>|
                {
                    &&& self@.sorted_orders(ks)
                    &&& r@.len() == ks.len()
                    &&& forall|j: int|
                        0 <= j < ks.len() ==> {
                            let id = self@.orders[#[trigger] ks[j]];
                            &&& r@[j].indent == self@.ancestor_count(id)
                            &&& r@[j].text@ == crate::model::debug_label(self@.elements[id])
                        }
                },
    {
        proof {
            use_type_invariant(self);
        }
        let r = self.element_manager.debug_elements();
        assert(self@ == self.element_manager@);
        r
    }

    /// Hands out the cursor changes waiting to be reported, oldest first, and
    /// empties their queue.
    pub fn take_cursor_changes(&mut self) -> (r: Vec<CursorChange>)
        ensures
            r@ == old(self).pending_cursor_changes(),
            final(self)@ == old(self)@,
            final(self).uuid_value() == old(self).uuid_value(),
            final(self).pending_cursor_changes() == Seq::<CursorChange>::empty(),
    {
        proof {
            use_type_invariant(&*self);
        }
        let mut manager = Self::root_manager();
        std::mem::swap(&mut manager, &mut self.element_manager);
        let taken = manager.take_cursor_changes();
        std::mem::swap(&mut manager, &mut self.element_manager);
        taken
    }

    /// A manager holding a cleared document, to stand in while the
    /// document's own manager is worked on.
    fn root_manager() -> (m: ElementManager)
        ensures
            m@ == DocModel::root(),
            m@.wf(),
            m@.has_root(),
            m@.block_ids().len() > 0,
            m.pending_element_changes() == Seq::<ElementView>::empty(),
    {
        let mut m = ElementManager::new_rc();
        m.clear();
        proof {
            lemma_root();
        }
        m
    }
}

/// The characters of the first `j` texts and those of the next one make up
/// the characters of the first `j + 1`; none has more than all of them.
pub proof fn lemma_total_chars_prefix(texts: Seq<Seq<char>>, j: int)
    requires
        0 <= j <= texts.len(),
    ensures
        total_chars(texts.take(j)) <= total_chars(texts),
        j > 0 ==> total_chars(texts.take(j)) == total_chars(texts.take(j - 1)) + texts[j - 1].len(),
    decreases texts.len() - j,
{
    if j > 0 {
        assert(texts.take(j).drop_last() =~= texts.take(j - 1));
    }
    if j < texts.len() {
        lemma_total_chars_prefix(texts, j + 1);
    } else {
        assert(texts.take(j) =~= texts);
    }
}

} // verus!
