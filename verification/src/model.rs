use vstd::prelude::*;

use crate::element::{BlockView, DocModel, ElementView};

verus! {

/// The id of the frame at the root of every document.
pub open spec fn root_id() -> usize {
    1
}

/// The sort order given to a block that is made because a document has none.
pub const FALLBACK_BLOCK_ORDER: usize = usize::MAX - 1000;

// ---------------------------------------------------------------------------
// Positions. A document position counts the characters of the blocks, in
// order, with one position for the separator that follows each block.

/// The document position at which the block with index `k` starts.
pub open spec fn start_of(texts: Seq<Seq<char>>, k: int) -> int
    decreases k,
{
    if k <= 0 {
        0
    } else {
        start_of(texts, k - 1) + texts[k - 1].len() + 1
    }
}

/// Whether the block with index `k` holds position `p`: `p` lies from the
/// start of the block up to its end, the position after its last character
/// (its `end_position` is one past that end).
pub open spec fn holds(texts: Seq<Seq<char>>, k: int, p: int) -> bool {
    &&& 0 <= k < texts.len()
    &&& start_of(texts, k) <= p <= start_of(texts, k) + texts[k].len()
}

/// Whether `k` is the first block that holds `p`.
pub open spec fn first_holder(texts: Seq<Seq<char>>, p: int, k: int) -> bool {
    &&& holds(texts, k, p)
    &&& forall|j: int| 0 <= j < k ==> !#[trigger] holds(texts, j, p)
}

/// The index of the first block that holds `p`, if any does.
pub open spec fn found_index(texts: Seq<Seq<char>>, p: int) -> Option<int> {
    if exists|k: int| first_holder(texts, p, k) {
        Some(choose|k: int| first_holder(texts, p, k))
    } else {
        None
    }
}

/// The number of characters in all the texts together.
pub open spec fn total_chars(texts: Seq<Seq<char>>) -> int
    decreases texts.len(),
{
    if texts.len() == 0 {
        0
    } else {
        total_chars(texts.drop_last()) + texts.last().len()
    }
}

/// The offset inside a block that starts at `start` and has `len` characters
/// at which document position `p` falls, clamped to the block.
pub open spec fn offset_in(start: int, len: int, p: int) -> int {
    if p <= start {
        0
    } else if p - start >= len {
        len
    } else {
        p - start
    }
}

// ---------------------------------------------------------------------------
// Lines.

/// The lines of `s`: the pieces between its line feeds, as `str::split("\n")` gives them.
pub open spec fn split_lines(s: Seq<char>) -> Seq<Seq<char>>
    decreases s.len(),
{
    if s.len() == 0 {
        seq![Seq::<char>::empty()]
    } else {
        let before = split_lines(s.drop_last());
        if s.last() == '\n' {
            before.push(Seq::<char>::empty())
        } else {
            before.update(before.len() - 1, before.last().push(s.last()))
        }
    }
}

/// The lines put back together, with a line feed between two lines.
pub open spec fn join_lines(lines: Seq<Seq<char>>) -> Seq<char>
    decreases lines.len(),
{
    if lines.len() == 0 {
        Seq::empty()
    } else if lines.len() == 1 {
        lines[0]
    } else {
        join_lines(lines.drop_last()) + seq!['\n'] + lines.last()
    }
}

/// The number of line feeds in `s`.
pub open spec fn count_line_feeds(s: Seq<char>) -> int
    decreases s.len(),
{
    if s.len() == 0 {
        0
    } else {
        count_line_feeds(s.drop_last()) + if s.last() == '\n' { 1int } else { 0int }
    }
}

/// The joined text of `texts` with the characters between `left` and
/// `right` taken out where one block holds both positions, else unchanged.
pub open spec fn cut_text(texts: Seq<Seq<char>>, left: int, right: int) -> Seq<char> {
    let t = join_lines(texts);
    if found_index(texts, left) is Some && found_index(texts, right) == found_index(texts, left) {
        t.subrange(0, left) + t.subrange(right, t.len() as int)
    } else {
        t
    }
}

/// `s` put into `t` at position `p`, or at the end of `t` where `p` lies past it.
pub open spec fn put_text(t: Seq<char>, s: Seq<char>, p: int) -> Seq<char> {
    let q = if p <= t.len() { p } else { t.len() as int };
    t.subrange(0, q) + s + t.subrange(q, t.len() as int)
}

/// What stands for an element in the outline of a document.
pub open spec fn debug_label(e: ElementView) -> Seq<char> {
    match e {
        ElementView::Frame { .. } => seq!['f', 'r', 'a', 'm', 'e'],
        ElementView::Block { text, .. } => text,
    }
}

// ---------------------------------------------------------------------------
// Sort orders.

/// One past the greatest sort order.
pub open spec fn order_end() -> int {
    usize::MAX + 1
}

/// The ids filed under the sort orders in `lo .. hi`, in increasing order.
pub open spec fn ids_in(o: Map<usize, usize>, lo: int, hi: int) -> Seq<usize>
    decreases hi - lo,
{
    if hi <= lo {
        Seq::empty()
    } else {
        let before = ids_in(o, lo, hi - 1);
        if o.contains_key((hi - 1) as usize) {
            before.push(o[(hi - 1) as usize])
        } else {
            before
        }
    }
}

/// The sort orders 1, 2, ... given to the ids of `s` in turn.
pub open spec fn renumbered(s: Seq<usize>) -> Map<usize, usize> {
    Map::new(|k: usize| 1 <= k <= s.len(), |k: usize| s[k - 1])
}

/// `s` with `x` placed right after each occurrence of `b`.
pub open spec fn place_after(s: Seq<usize>, b: usize, x: Seq<usize>) -> Seq<usize>
    decreases s.len(),
{
    if s.len() == 0 {
        s
    } else {
        let before = place_after(s.drop_last(), b, x);
        if s.last() == b {
            before.push(b) + x
        } else {
            before.push(s.last())
        }
    }
}

// ---------------------------------------------------------------------------
// The element manager as a model.

impl DocModel {
    pub open spec fn is_block(self, id: usize) -> bool {
        self.elements.contains_key(id) && self.elements[id] is Block
    }

    pub open spec fn is_frame(self, id: usize) -> bool {
        self.elements.contains_key(id) && self.elements[id] is Frame
    }

    /// The blocks among the ids of `s`, in the same order.
    pub open spec fn blocks_in(self, s: Seq<usize>) -> Seq<usize>
        decreases s.len(),
    {
        if s.len() == 0 {
            Seq::empty()
        } else {
            let before = self.blocks_in(s.drop_last());
            if self.is_block(s.last()) {
                before.push(s.last())
            } else {
                before
            }
        }
    }

    /// The filed elements in increasing sort order.
    pub open spec fn outline(self) -> Seq<usize> {
        ids_in(self.orders, 0, order_end())
    }

    /// The ids of the blocks in document order: increasing sort order.
    pub open spec fn block_ids(self) -> Seq<usize> {
        self.blocks_in(self.outline())
    }

    /// The texts of the blocks in document order.
    pub open spec fn texts(self) -> Seq<Seq<char>> {
        self.block_ids().map_values(|id: usize| self.elements[id].text())
    }

    /// The blocks in document order.
    pub open spec fn blocks(self) -> Seq<BlockView> {
        self.block_ids().map_values(|id: usize| BlockView { uuid: id, text: self.elements[id].text() })
    }

    /// The ids of all the blocks, filed or not.
    pub open spec fn block_set(self) -> Set<usize> {
        self.elements.dom().filter(|id: usize| self.is_block(id))
    }

    /// The number of characters of the document, separators left out.
    pub open spec fn character_count(self) -> int {
        total_chars(self.texts())
    }

    /// The plain text of the document: the texts of its blocks, one per line.
    pub open spec fn plain_text(self) -> Seq<char> {
        join_lines(self.texts())
    }

    /// Whether `id` is filed under some sort order.
    pub open spec fn is_filed(self, id: usize) -> bool {
        exists|k: usize| self.orders.contains_key(k) && self.orders[k] == id
    }

    /// Well-formedness: ids are given out by the counter, every element is
    /// filed and has a parent entry, a parent is the null id 0 or an earlier
    /// element, and the order map sends distinct orders to distinct existing
    /// elements.
    pub open spec fn wf(self) -> bool {
        &&& forall|id: usize| #[trigger]
            self.elements.contains_key(id) ==> 1 <= id <= self.counter && self.elements[id].uuid()
                == id && self.is_filed(id)
        &&& self.parents.dom() =~= self.elements.dom()
        &&& forall|id: usize| #[trigger]
            self.elements.contains_key(id) ==> self.parents[id] == 0 || (self.parents[id] < id
                && self.elements.contains_key(self.parents[id]))
        &&& forall|k: usize| #[trigger]
            self.orders.contains_key(k) ==> self.elements.contains_key(self.orders[k])
        &&& forall|k1: usize, k2: usize|
            #![trigger self.orders[k1], self.orders[k2]]
            self.orders.contains_key(k1) && self.orders.contains_key(k2) && self.orders[k1]
                == self.orders[k2] ==> k1 == k2
    }

    /// Whether the root frame stands at its id.
    pub open spec fn has_root(self) -> bool {
        &&& self.elements.contains_key(root_id())
        &&& self.elements[root_id()] == ElementView::Frame { uuid: root_id() }
    }

    /// The manager with no element at all, as it is made.
    pub open spec fn empty() -> DocModel {
        DocModel {
            elements: Map::empty(),
            orders: Map::empty(),
            parents: Map::empty(),
            counter: 0,
        }
    }

    /// The sort orders once `id` is filed under `order`: where `order` is
    /// free, under it; where `order` is taken, right after the element filed
    /// there, the sort orders then given anew as 1, 2, ... in the same order.
    pub open spec fn filed_at(self, order: usize, id: usize) -> Map<usize, usize> {
        if self.orders.contains_key(order) {
            renumbered(place_after(self.outline(), self.orders[order], seq![id]))
        } else {
            self.orders.insert(order, id)
        }
    }

    /// A new empty block with the next id, filed at sort order `order` (see
    /// `filed_at`), under `parent`.
    pub open spec fn add_block(self, order: usize, parent: usize) -> DocModel {
        let id = (self.counter + 1) as usize;
        DocModel {
            elements: self.elements.insert(id, ElementView::Block { uuid: id, text: Seq::empty() }),
            orders: self.filed_at(order, id),
            parents: self.parents.insert(id, parent),
            counter: id,
        }
    }

    /// A new frame with the next id filed at sort order `order + 1` under
    /// `parent`, then its first block filed at sort order `order + 2`, whose
    /// parent id is 0 (see `filed_at`).
    pub open spec fn add_frame(self, order: usize, parent: usize) -> DocModel {
        let id = (self.counter + 1) as usize;
        DocModel {
            elements: self.elements.insert(id, ElementView::Frame { uuid: id }),
            orders: self.filed_at((order + 1) as usize, id),
            parents: self.parents.insert(id, parent),
            counter: id,
        }.add_block((order + 2) as usize, 0)
    }

    /// A cleared document: its root frame and the frame's first block.
    pub open spec fn root() -> DocModel {
        DocModel::empty().add_frame(0, 0)
    }

    /// The model unchanged if it has a block, else with a new block at the
    /// fallback order (see `add_block`).
    pub open spec fn ensure_block(self) -> DocModel {
        if self.block_ids().len() > 0 {
            self
        } else {
            self.add_block(FALLBACK_BLOCK_ORDER, 0)
        }
    }

    /// Index of the block that an edit at `p` goes to: the first block that
    /// holds `p`, else the last block.
    pub open spec fn reference_index(self, p: int) -> int {
        match found_index(self.texts(), p) {
            Some(k) => k,
            None => self.block_ids().len() - 1,
        }
    }

    /// The offset at which position `p` falls in the reference block.
    pub open spec fn reference_offset(self, p: int) -> int {
        let k = self.reference_index(p);
        offset_in(start_of(self.texts(), k), self.texts()[k].len() as int, p)
    }

    /// The sort order under which `id` is filed, if it is.
    pub open spec fn order_of(self, id: usize) -> Option<usize> {
        if self.is_filed(id) {
            Some(choose|k: usize| self.orders.contains_key(k) && self.orders[k] == id)
        } else {
            None
        }
    }

    /// The frame that is the parent of `id`, if its parent is a frame.
    pub open spec fn parent_frame_of(self, id: usize) -> Option<usize> {
        if self.parents.contains_key(id) && self.is_frame(self.parents[id]) {
            Some(self.parents[id])
        } else {
            None
        }
    }

    /// The parent given to an element placed next to `b`: the frame of `b`,
    /// else the root frame.
    pub open spec fn parent_for_new(self, b: usize) -> usize {
        match self.parent_frame_of(b) {
            Some(f) => f,
            None => root_id(),
        }
    }

    /// How many ancestors `id` has: its parent, that parent's parent, and so
    /// on up to the element whose parent id is 0, which counts too.
    pub open spec fn ancestor_count(self, id: usize) -> int
        decreases id,
    {
        if self.parents.contains_key(id) && self.parents[id] != 0 && self.parents[id] < id {
            1 + self.ancestor_count(self.parents[id])
        } else {
            1
        }
    }

    /// Whether `ks` lists the sort orders of the model in increasing order.
    pub open spec fn sorted_orders(self, ks: Seq<usize>) -> bool {
        &&& forall|k: usize| self.orders.contains_key(k) <==> ks.contains(k)
        &&& forall|i: int, j: int| 0 <= i < j < ks.len() ==> ks[i] < ks[j]
    }

    /// The frame holding the first block that holds `p`, if a block holds it
    /// and its parent is a frame.
    pub open spec fn frame_at(self, p: int) -> Option<usize> {
        match found_index(self.texts(), p) {
            Some(k) => self.parent_frame_of(self.block_ids()[k]),
            None => None,
        }
    }

    /// The number of ids that an insertion at a position may give out before
    /// the new element: one where the document has no block yet.
    pub open spec fn ids_for_fallback(self) -> int {
        if self.block_ids().len() == 0 {
            1
        } else {
            0
        }
    }

    /// The block that holds `p` (else the last block) split at `p`, as a line
    /// feed typed there splits it: the text after `p` moves into a new block
    /// with the next id, filed right after the split block, with the split
    /// block's frame (else the root frame) as parent. Sort orders are given
    /// anew as 1, 2, ... in the same order.
    pub open spec fn insert_block_at(self, p: int) -> DocModel {
        let m = self.ensure_block();
        let k = m.reference_index(p);
        let b = m.block_ids()[k];
        let t = m.texts()[k];
        let off = m.reference_offset(p);
        let c = (m.counter + 1) as usize;
        DocModel {
            elements: m.elements.insert(b, ElementView::Block { uuid: b, text: t.subrange(0, off) }).insert(
                c,
                ElementView::Block { uuid: c, text: t.subrange(off, t.len() as int) },
            ),
            orders: renumbered(place_after(m.outline(), b, seq![c])),
            parents: m.parents.insert(c, m.parent_for_new(b)),
            counter: c,
        }
    }

    /// A new frame with the next id placed at `p`: filed right after the block
    /// that holds `p` (else the last block), with that block's frame (else the
    /// root frame) as parent, and followed by its first, empty, block whose
    /// parent id is 0. Sort orders are given anew as 1, 2, ... in the same order.
    pub open spec fn insert_frame_at(self, p: int) -> DocModel {
        let m = self.ensure_block();
        let b = m.block_ids()[m.reference_index(p)];
        let f = (m.counter + 1) as usize;
        let fb = (m.counter + 2) as usize;
        DocModel {
            elements: m.elements.insert(f, ElementView::Frame { uuid: f }).insert(
                fb,
                ElementView::Block { uuid: fb, text: Seq::empty() },
            ),
            orders: renumbered(place_after(m.outline(), b, seq![f, fb])),
            parents: m.parents.insert(f, m.parent_for_new(b)).insert(fb, 0),
            counter: fb,
        }
    }

    /// The block `id` with its text replaced by `t`.
    pub open spec fn set_block_text(self, id: usize, t: Seq<char>) -> DocModel {
        DocModel { elements: self.elements.insert(id, ElementView::Block { uuid: id, text: t }), ..self }
    }

    /// Whether removing between `left` and `right` takes effect: both lie in
    /// one block.
    pub open spec fn removes(self, left: int, right: int) -> bool {
        &&& found_index(self.texts(), left) is Some
        &&& found_index(self.texts(), right) == found_index(self.texts(), left)
    }

    /// The text between positions `left` and `right` taken out, where both lie
    /// in the same block; else the model unchanged.
    pub open spec fn remove_between(self, left: int, right: int) -> DocModel {
        if self.removes(left, right) {
            let k = found_index(self.texts(), left)->0;
            let t = self.texts()[k];
            let s = start_of(self.texts(), k);
            self.set_block_text(
                self.block_ids()[k],
                t.subrange(0, left - s) + t.subrange(right - s, t.len() as int),
            )
        } else {
            self
        }
    }

    /// Each line from index `i` on: the block is split at the running position
    /// `np`, the line goes at the start of the new block, and `np` moves past
    /// the separator and the line.
    pub open spec fn insert_lines(self, lines: Seq<Seq<char>>, i: int, np: int) -> DocModel
        decreases lines.len() - i,
    {
        if i >= lines.len() || i < 0 {
            self
        } else {
            let m = self.insert_block_at(np);
            m.set_block_text(m.counter, lines[i] + m.elements[m.counter].text()).insert_lines(
                lines,
                i + 1,
                np + 1 + lines[i].len(),
            )
        }
    }

    /// `text` inserted at `position`: the first line goes into the reference
    /// block at the position's offset, each further line after a split.
    pub open spec fn insert_text_at(self, text: Seq<char>, position: int) -> DocModel {
        let lines = split_lines(text);
        let m = self.ensure_block();
        let k = m.reference_index(position);
        let t = m.texts()[k];
        let off = m.reference_offset(position);
        m.set_block_text(
            m.block_ids()[k],
            t.subrange(0, off) + lines[0] + t.subrange(off, t.len() as int),
        ).insert_lines(lines, 1, position + lines[0].len())
    }

    /// Plain text inserted at `position` after the text between `position` and
    /// `anchor` is removed.
    pub open spec fn insert_plain_text(self, text: Seq<char>, position: int, anchor: int) -> DocModel {
        let left = if position <= anchor { position } else { anchor };
        let right = if position <= anchor { anchor } else { position };
        let m = if left != right { self.remove_between(left, right) } else { self };
        m.insert_text_at(text, position)
    }
}

} // verus!
