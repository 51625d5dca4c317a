use vstd::prelude::*;

use crate::lines::copy_chars;

verus! {

/// A frame: a container of blocks and other frames, known by its id.
#[derive(PartialEq, Eq, Structural, Clone, Copy, Debug)]
pub struct Frame {
    pub uuid: usize,
}

/// A block: one paragraph of plain text, known by its id.
#[derive(Debug)]
pub struct Block {
    pub uuid: usize,
    pub text: Vec<char>,
}

/// What a block holds, as mathematical values.
pub struct BlockView {
    pub uuid: usize,
    pub text: Seq<char>,
}

impl View for Block {
    type V = BlockView;

    open spec fn view(&self) -> BlockView {
        BlockView { uuid: self.uuid, text: self.text@ }
    }
}

impl Block {
    /// The number of characters in the block.
    pub fn length(&self) -> (n: usize)
        ensures
            n == self.text@.len(),
    {
        self.text.len()
    }

    /// A copy of the block.
    pub fn duplicate(&self) -> (b: Block)
        ensures
            b@ == self@,
    {
        Block { uuid: self.uuid, text: copy_chars(&self.text) }
    }
}

/// An element of a document: a frame or a block.
#[derive(Debug)]
pub enum Element {
    FrameElement(Frame),
    BlockElement(Block),
}

impl Clone for Element {
    /// A copy of the element (see `duplicate`).
    fn clone(&self) -> (e: Element)
        ensures
            e@ == self@,
    {
        self.duplicate()
    }
}

/// What an element holds, as mathematical values.
pub enum ElementView {
    Frame { uuid: usize },
    Block { uuid: usize, text: Seq<char> },
}

impl ElementView {
    pub open spec fn uuid(self) -> usize {
        match self {
            ElementView::Frame { uuid } => uuid,
            ElementView::Block { uuid, .. } => uuid,
        }
    }

    pub open spec fn text(self) -> Seq<char> {
        match self {
            ElementView::Frame { .. } => Seq::empty(),
            ElementView::Block { text, .. } => text,
        }
    }
}

impl View for Element {
    type V = ElementView;

    open spec fn view(&self) -> ElementView {
        match self {
            Element::FrameElement(f) => ElementView::Frame { uuid: f.uuid },
            Element::BlockElement(b) => ElementView::Block { uuid: b.uuid, text: b.text@ },
        }
    }
}

impl Element {
    /// A copy of the element.
    pub fn duplicate(&self) -> (e: Element)
        ensures
            e@ == self@,
    {
        match self {
            Element::FrameElement(f) => Element::FrameElement(*f),
            Element::BlockElement(b) => Element::BlockElement(b.duplicate()),
        }
    }
}

/// A change of the cursor that the document reports to those who listen:
/// where it happened, how many characters went and where the cursor now stands.
#[derive(PartialEq, Eq, Structural, Clone, Copy, Debug)]
pub struct CursorChange {
    pub position: usize,
    pub removed_characters: usize,
    pub added_characters: usize,
}

/// One line of the outline of a document: how deep the element sits and
/// what stands for it (the word "frame" for a frame, its text for a block).
#[derive(Debug)]
pub struct DebugLine {
    pub indent: usize,
    pub text: Vec<char>,
}

/// The state of the element manager as mathematical values.
pub struct DocModel {
    pub elements: Map<usize, ElementView>,
    pub orders: Map<usize, usize>,
    pub parents: Map<usize, usize>,
    pub counter: usize,
}

} // verus!
