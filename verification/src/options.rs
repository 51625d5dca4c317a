use vstd::prelude::*;

verus! {

/// How a tab stop aligns the text that follows it.
#[derive(PartialEq, Eq, Structural, Clone, Copy, Debug)]
pub enum TabType {
    LeftTab,
    RightTab,
    CenterTab,
    DelimiterTab,
}

impl Default for TabType {
    fn default() -> (r: Self)
        ensures
            r == TabType::LeftTab,
    {
        TabType::LeftTab
    }
}

/// The direction in which the text of the document runs.
#[derive(PartialEq, Eq, Structural, Clone, Copy, Debug)]
pub enum TextDirection {
    LeftToRight,
    RightToLeft,
}

impl Default for TextDirection {
    fn default() -> (r: Self)
        ensures
            r == TextDirection::LeftToRight,
    {
        TextDirection::LeftToRight
    }
}

/// Where lines of text may be broken.
#[derive(PartialEq, Eq, Structural, Clone, Copy, Debug)]
pub enum WrapMode {
    NoWrap,
    WordWrap,
    WrapAnywhere,
    WrapAtWordBoundaryOrAnywhere,
}

impl Default for WrapMode {
    fn default() -> (r: Self)
        ensures
            r == WrapMode::WordWrap,
    {
        WrapMode::WordWrap
    }
}

/// A tab stop: its position, its kind, and the delimiter a delimiter tab aligns on.
#[derive(PartialEq, Eq, Structural, Clone, Copy, Debug)]
pub struct Tab {
    pub position: usize,
    pub tab_type: TabType,
    pub delimiter: char,
}

impl Default for Tab {
    fn default() -> (r: Self)
        ensures
            r.position == 0,
            r.tab_type == TabType::LeftTab,
            r.delimiter == '\0',
    {
        Tab { position: 0, tab_type: TabType::LeftTab, delimiter: '\0' }
    }
}

/// The layout options of a document.
#[derive(PartialEq, Eq, Clone, Debug)]
pub struct TextDocumentOption {
    pub tabs: Vec<Tab>,
    pub text_direction: TextDirection,
    pub wrap_mode: WrapMode,
}

impl Default for TextDocumentOption {
    fn default() -> (r: Self)
        ensures
            r.tabs@ == Seq::<Tab>::empty(),
            r.text_direction == TextDirection::LeftToRight,
            r.wrap_mode == WrapMode::WordWrap,
    {
        TextDocumentOption {
            tabs: Vec::new(),
            text_direction: TextDirection::LeftToRight,
            wrap_mode: WrapMode::WordWrap,
        }
    }
}

} // verus!
