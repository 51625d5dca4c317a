use vstd::prelude::*;

use vstd::std_specs::iter::IteratorSpec;

use std::collections::BTreeMap;
use std::collections::HashMap;

use crate::element::{
    Block, BlockView, CursorChange, DebugLine, DocModel, Element, ElementView, Frame,
};
use crate::lemmas::{
    lemma_add_block, lemma_ancestor_count, lemma_ensure_block, lemma_insert_block_at,
    lemma_insert_frame_at, lemma_outline, lemma_remove_between, lemma_root, lemma_add_element, lemma_document_order,
    lemma_ancestor_chain, lemma_ancestor_count_bounded, ancestor_at,
    lemma_set_text_of_block,
};
use crate::lines::{
    chars_of, copy_chars, lemma_join_split, lemma_join_take_len, lemma_join_take_step,
    lemma_split_lines_len, lemma_start_of_grows, same_chars, splice, split_plain_text,
};
use crate::model::{
    count_line_feeds, cut_text, debug_label, first_holder, found_index, holds, join_lines, order_end,
    put_text, renumbered, root_id,
    split_lines, start_of, FALLBACK_BLOCK_ORDER,
};
use crate::orders::{lemma_ids_in_sorted, place_after_ids};
use crate::laws::{
    lemma_frame_at_law, lemma_insert_counts, lemma_insert_law, lemma_insert_text, lemma_remove_law,
    lemma_split_at,
};

verus! {

/// Keeps the elements of a document: each element by its id, the sort order
/// under which elements are filed, the parent of each element, and the counter
/// that gives out ids. Changes that listeners must hear of wait in queues.
pub struct ElementManager {
    id_with_element_hash: HashMap<usize, Element>,
    order_with_id_map: BTreeMap<usize, usize>,
    child_id_with_parent_id_hash: HashMap<usize, usize>,
    id_counter: usize,
    cursor_changes: Vec<CursorChange>,
    element_changes: Vec<Element>,
}

impl View for ElementManager {
    type V = DocModel;

    closed spec fn view(&self) -> DocModel {
        DocModel {
            elements: self.id_with_element_hash@.map_values(|e: Element| e@),
            orders: self.order_with_id_map@,
            parents: self.child_id_with_parent_id_hash@,
            counter: self.id_counter,
        }
    }
}

/// Whether two elements hold the same.
fn same_element(a: &Element, b: &Element) -> (r: bool)
    ensures
        r == (a@ == b@),
{
    match (a, b) {
        (Element::FrameElement(x), Element::FrameElement(y)) => x.uuid == y.uuid,
        (Element::BlockElement(x), Element::BlockElement(y)) => x.uuid == y.uuid && same_chars(
            &x.text,
            &y.text,
        ),
        _ => false,
    }
}

/// Whether every element of `a` stands in `b` under the same id, holding the same.
fn elements_within(a: &HashMap<usize, Element>, b: &HashMap<usize, Element>) -> (r: bool)
    ensures
        r == (forall|k: usize| #[trigger]
            a@.contains_key(k) ==> b@.contains_key(k) && b@[k]@ == a@[k]@),
{
    let ghost am = a@;
    let iter = a.iter();
    let ghost s = iter.remaining();
    for pair in it: iter
        invariant
            am == a@,
            it.seq() == s,
            forall|k: usize| #[trigger] am.contains_key(k) ==> s.contains((&k, &am[k])),
            forall|i: int|
                0 <= i < s.len() ==> am.contains_key(*(#[trigger] s[i]).0) && am[*s[i].0] == *s[i].1,
            forall|j: int|
                0 <= j < it.index() ==> b@.contains_key(*(#[trigger] s[j]).0) && b@[*s[j].0]@ == (
                *s[j].1)@,
    {
        let (k, v) = pair;
        match b.get(k) {
            Some(w) => {
                if !same_element(v, w) {
                    return false;
                }
            },
            None => {
                return false;
            },
        }
    }
    proof {
        assert forall|k: usize| #[trigger] am.contains_key(k) implies b@.contains_key(k) && b@[k]@
            == am[k]@ by {
            assert(s.contains((&k, &am[k])));
            let w = choose|w: int| 0 <= w < s.len() && s[w] == (&k, &am[k]);
            assert(b@.contains_key(*s[w].0));
        }
    }
    true
}

/// Whether every entry of `a` stands in `b` with the same value.
fn hash_entries_within(a: &HashMap<usize, usize>, b: &HashMap<usize, usize>) -> (r: bool)
    ensures
        r == (forall|k: usize| #[trigger] a@.contains_key(k) ==> b@.contains_key(k) && b@[k] == a@[k]),
{
    let ghost am = a@;
    let iter = a.iter();
    let ghost s = iter.remaining();
    for pair in it: iter
        invariant
            am == a@,
            it.seq() == s,
            forall|k: usize| #[trigger] am.contains_key(k) ==> s.contains((&k, &am[k])),
            forall|i: int|
                0 <= i < s.len() ==> am.contains_key(*(#[trigger] s[i]).0) && am[*s[i].0] == *s[i].1,
            forall|j: int|
                0 <= j < it.index() ==> b@.contains_key(*(#[trigger] s[j]).0) && b@[*s[j].0]
                    == *s[j].1,
    {
        let (k, v) = pair;
        match b.get(k) {
            Some(w) => {
                if *v != *w {
                    return false;
                }
            },
            None => {
                return false;
            },
        }
    }
    proof {
        assert forall|k: usize| #[trigger] am.contains_key(k) implies b@.contains_key(k) && b@[k]
            == am[k] by {
            assert(s.contains((&k, &am[k])));
            let w = choose|w: int| 0 <= w < s.len() && s[w] == (&k, &am[k]);
            assert(b@.contains_key(*s[w].0));
        }
    }
    true
}

/// Whether every entry of `a` stands in `b` with the same value.
fn tree_entries_within(a: &BTreeMap<usize, usize>, b: &BTreeMap<usize, usize>) -> (r: bool)
    ensures
        r == (forall|k: usize| #[trigger] a@.contains_key(k) ==> b@.contains_key(k) && b@[k] == a@[k]),
{
    let ghost am = a@;
    let iter = a.iter();
    let ghost s = iter.remaining();
    for pair in it: iter
        invariant
            am == a@,
            it.seq() == s,
            forall|k: usize| #[trigger] am.contains_key(k) ==> s.contains((&k, &am[k])),
            forall|i: int|
                0 <= i < s.len() ==> am.contains_key(*(#[trigger] s[i]).0) && am[*s[i].0] == *s[i].1,
            forall|j: int|
                0 <= j < it.index() ==> b@.contains_key(*(#[trigger] s[j]).0) && b@[*s[j].0]
                    == *s[j].1,
    {
        let (k, v) = pair;
        match b.get(k) {
            Some(w) => {
                if *v != *w {
                    return false;
                }
            },
            None => {
                return false;
            },
        }
    }
    proof {
        assert forall|k: usize| #[trigger] am.contains_key(k) implies b@.contains_key(k) && b@[k]
            == am[k] by {
            assert(s.contains((&k, &am[k])));
            let w = choose|w: int| 0 <= w < s.len() && s[w] == (&k, &am[k]);
            assert(b@.contains_key(*s[w].0));
        }
    }
    true
}

impl Clone for ElementManager {
    /// A copy of the manager: the same elements, orders, parents, counter and
    /// queued changes, held apart from the original.
    fn clone(&self) -> (r: Self)
        ensures
            r@ == self@,
            r.pending_cursor_changes() == self.pending_cursor_changes(),
            r.pending_element_changes() == self.pending_element_changes(),
    {
        let cursor_changes = self.cursor_changes.clone();
        let element_changes = self.element_changes.clone();
        assert(cursor_changes@ =~= self.cursor_changes@);
        assert(element_changes@.map_values(|e: Element| e@) =~= self.element_changes@.map_values(
            |e: Element| e@,
        )) by {
            assert forall|i: int| 0 <= i < element_changes@.len() implies element_changes@[i]@
                == self.element_changes@[i]@ by {
                assert(vstd::pervasive::cloned(self.element_changes@[i], element_changes@[i]));
            }
        }
        ElementManager {
            id_with_element_hash: self.id_with_element_hash.clone(),
            order_with_id_map: self.order_with_id_map.clone(),
            child_id_with_parent_id_hash: self.child_id_with_parent_id_hash.clone(),
            id_counter: self.id_counter,
            cursor_changes,
            element_changes,
        }
    }
}

impl ElementManager {
    /// Whether two managers hold the same: the same elements, sort orders,
    /// parents and counter, and the same changes waiting to be reported.
    pub(crate) fn same_content(&self, other: &Self) -> (r: bool)
        ensures
            r == (self@ == other@ && self.pending_cursor_changes() == other.pending_cursor_changes()
                && self.pending_element_changes() == other.pending_element_changes()),
    {
        let a = &self.id_with_element_hash;
        let b = &other.id_with_element_hash;
        let same_elements = elements_within(a, b) && elements_within(b, a);
        assert(same_elements == (self@.elements == other@.elements)) by {
            if same_elements {
                assert(self@.elements =~= other@.elements);
            }
            if self@.elements == other@.elements {
                assert forall|k: usize| #[trigger] a@.contains_key(k) implies b@.contains_key(k)
                    && b@[k]@ == a@[k]@ by {
                    assert(self@.elements.contains_key(k));
                    assert(other@.elements.contains_key(k));
                    assert(self@.elements[k] == a@[k]@);
                    assert(other@.elements[k] == b@[k]@);
                }
                assert forall|k: usize| #[trigger] b@.contains_key(k) implies a@.contains_key(k)
                    && a@[k]@ == b@[k]@ by {
                    assert(other@.elements.contains_key(k));
                    assert(self@.elements.contains_key(k));
                    assert(self@.elements[k] == a@[k]@);
                    assert(other@.elements[k] == b@[k]@);
                }
            }
        }
        let same_orders = tree_entries_within(&self.order_with_id_map, &other.order_with_id_map)
            && tree_entries_within(&other.order_with_id_map, &self.order_with_id_map);
        assert(same_orders == (self@.orders == other@.orders)) by {
            if same_orders {
                assert(self@.orders =~= other@.orders);
            }
        }
        let same_parents = hash_entries_within(
            &self.child_id_with_parent_id_hash,
            &other.child_id_with_parent_id_hash,
        ) && hash_entries_within(
            &other.child_id_with_parent_id_hash,
            &self.child_id_with_parent_id_hash,
        );
        assert(same_parents == (self@.parents == other@.parents)) by {
            if same_parents {
                assert(self@.parents =~= other@.parents);
            }
        }
        let same_model = same_elements && same_orders && same_parents && self.id_counter
            == other.id_counter;
        assert(same_model == (self@ == other@));
        if !same_model {
            return false;
        }
        if self.cursor_changes.len() != other.cursor_changes.len() || self.element_changes.len()
            != other.element_changes.len() {
            assert(self.pending_element_changes().len() == self.element_changes@.len());
            assert(other.pending_element_changes().len() == other.element_changes@.len());
            return false;
        }
        let n = self.cursor_changes.len();
        for i in 0..n
            invariant
                n == self.cursor_changes@.len(),
                n == other.cursor_changes@.len(),
                self.cursor_changes@.take(i as int) == other.cursor_changes@.take(i as int),
        {
            if self.cursor_changes[i] != other.cursor_changes[i] {
                return false;
            }
            assert(self.cursor_changes@.take(i + 1) =~= self.cursor_changes@.take(i as int).push(
                self.cursor_changes@[i as int],
            ));
            assert(other.cursor_changes@.take(i + 1) =~= other.cursor_changes@.take(i as int).push(
                other.cursor_changes@[i as int],
            ));
        }
        assert(self.cursor_changes@.take(n as int) =~= self.cursor_changes@);
        assert(other.cursor_changes@.take(n as int) =~= other.cursor_changes@);
        let ghost ev = self.pending_element_changes();
        let ghost ew = other.pending_element_changes();
        let n = self.element_changes.len();
        for i in 0..n
            invariant
                n == self.element_changes@.len(),
                n == other.element_changes@.len(),
                ev == self.pending_element_changes(),
                ew == other.pending_element_changes(),
                ev.take(i as int) == ew.take(i as int),
        {
            if !same_element(&self.element_changes[i], &other.element_changes[i]) {
                assert(ev[i as int] != ew[i as int]);
                return false;
            }
            assert(ev.take(i + 1) =~= ev.take(i as int).push(ev[i as int]));
            assert(ew.take(i + 1) =~= ew.take(i as int).push(ew[i as int]));
        }
        assert(ev.take(n as int) =~= ev);
        assert(ew.take(n as int) =~= ew);
        true
    }

    /// The cursor changes that wait to be reported, oldest first.
    pub closed spec fn pending_cursor_changes(&self) -> Seq<CursorChange> {
        self.cursor_changes@
    }

    /// The element changes that wait to be reported, oldest first.
    pub closed spec fn pending_element_changes(&self) -> Seq<ElementView> {
        self.element_changes@.map_values(|e: Element| e@)
    }

    /// A manager with no element, no id given out and nothing to report.
    pub fn new_rc() -> (r: Self)
        ensures
            r@ == DocModel::empty(),
            r.pending_cursor_changes() == Seq::<CursorChange>::empty(),
            r.pending_element_changes() == Seq::<ElementView>::empty(),
    {
        let r = ElementManager {
            id_with_element_hash: HashMap::new(),
            order_with_id_map: BTreeMap::new(),
            child_id_with_parent_id_hash: HashMap::new(),
            id_counter: 0,
            cursor_changes: Vec::new(),
            element_changes: Vec::new(),
        };
        assert(r@.elements =~= Map::<usize, ElementView>::empty());
        assert(r.pending_element_changes() =~= Seq::<ElementView>::empty());
        r
    }

    /// The next id: the counter goes up by one and is returned.
    pub fn get_new_uuid(&mut self) -> (id: usize)
        requires
            old(self)@.counter < usize::MAX,
        ensures
            id == old(self)@.counter + 1,
            final(self)@ == (DocModel { counter: id, ..old(self)@ }),
            final(self).pending_cursor_changes() == old(self).pending_cursor_changes(),
            final(self).pending_element_changes() == old(self).pending_element_changes(),
    {
        self.id_counter = self.id_counter + 1;
        self.id_counter
    }

    /// Files `id` at `sort_order`: under it where it is free, else right
    /// after the element filed there, the sort orders then given anew as 1,
    /// 2, ... in the same order.
    fn file_element(&mut self, sort_order: usize, id: usize)
        ensures
            final(self)@ == (DocModel { orders: old(self)@.filed_at(sort_order, id), ..old(self)@ }),
            final(self).pending_cursor_changes() == old(self).pending_cursor_changes(),
            final(self).pending_element_changes() == old(self).pending_element_changes(),
    {
        assert(vstd::laws_cmp::obeys_cmp::<usize>());
        match self.order_with_id_map.get(&sort_order) {
            Some(holder) => {
                let holder = *holder;
                let outline = self.outline_ids();
                let mut x: Vec<usize> = Vec::new();
                x.push(id);
                assert(x@ =~= seq![id]);
                let placed = place_after_ids(&outline, holder, &x);
                self.renumber(&placed);
            },
            None => {
                self.order_with_id_map.insert(sort_order, id);
            },
        }
    }

    /// Makes a new empty block with the next id, files it at `sort_order`
    /// (right after the element filed there, where one is) and records
    /// `parent_uuid` as its parent.
    pub fn create_block_staticaly(&mut self, sort_order: usize, parent_uuid: usize) -> (b: Block)
        requires
            old(self)@.wf(),
            old(self)@.counter < usize::MAX,
            parent_uuid == 0 || old(self)@.elements.contains_key(parent_uuid),
        ensures
            final(self)@ == old(self)@.add_block(sort_order, parent_uuid),
            final(self)@.wf(),
            old(self)@.has_root() ==> final(self)@.has_root(),
            final(self)@.block_ids().len() == old(self)@.block_ids().len() + 1,
            b@ == (BlockView { uuid: final(self)@.counter, text: Seq::empty() }),
            final(self).pending_cursor_changes() == old(self).pending_cursor_changes(),
            final(self).pending_element_changes() == old(self).pending_element_changes(),
    {
        let ghost m = old(self)@;
        let new_uuid = self.get_new_uuid();
        let new_block = Block { uuid: new_uuid, text: Vec::new() };
        let stored = Block { uuid: new_uuid, text: Vec::new() };
        self.file_element(sort_order, new_uuid);
        self.id_with_element_hash.insert(new_uuid, Element::BlockElement(stored));
        self.child_id_with_parent_id_hash.insert(new_uuid, parent_uuid);
        assert(self@.elements =~= m.add_block(sort_order, parent_uuid).elements);
        proof {
            lemma_add_block(m, sort_order, parent_uuid);
        }
        new_block
    }

    /// Makes a new empty block; see `create_block_staticaly`.
    pub fn create_block(&mut self, sort_order: usize, parent_uuid: usize) -> (b: Block)
        requires
            old(self)@.wf(),
            old(self)@.counter < usize::MAX,
            parent_uuid == 0 || old(self)@.elements.contains_key(parent_uuid),
        ensures
            final(self)@ == old(self)@.add_block(sort_order, parent_uuid),
            final(self)@.wf(),
            old(self)@.has_root() ==> final(self)@.has_root(),
            final(self)@.block_ids().len() == old(self)@.block_ids().len() + 1,
            b@ == (BlockView { uuid: final(self)@.counter, text: Seq::empty() }),
            final(self).pending_cursor_changes() == old(self).pending_cursor_changes(),
            final(self).pending_element_changes() == old(self).pending_element_changes(),
    {
        self.create_block_staticaly(sort_order, parent_uuid)
    }

    /// Makes a new frame with the next id, files it at `sort_order + 1` with
    /// parent `parent_uuid`, and gives it a first empty block filed at
    /// `sort_order + 2` (each right after the element filed there, where one is).
    pub fn create_frame_staticaly(&mut self, sort_order: usize, parent_uuid: usize) -> (f: Frame)
        requires
            old(self)@.wf(),
            old(self)@.counter + 2 <= usize::MAX,
            sort_order + 2 <= usize::MAX,
            parent_uuid == 0 || old(self)@.elements.contains_key(parent_uuid),
        ensures
            final(self)@ == old(self)@.add_frame(sort_order, parent_uuid),
            final(self)@.wf(),
            old(self)@.has_root() ==> final(self)@.has_root(),
            f.uuid == old(self)@.counter + 1,
            final(self)@.block_ids().len() == old(self)@.block_ids().len() + 1,
            final(self).pending_cursor_changes() == old(self).pending_cursor_changes(),
            final(self).pending_element_changes() == old(self).pending_element_changes(),
    {
        let ghost m = old(self)@;
        let new_uuid = self.get_new_uuid();
        let new_frame = Frame { uuid: new_uuid };
        self.file_element(sort_order + 1, new_uuid);
        self.id_with_element_hash.insert(new_uuid, Element::FrameElement(new_frame));
        self.child_id_with_parent_id_hash.insert(new_uuid, parent_uuid);
        let ghost mf = DocModel {
            elements: m.elements.insert(new_uuid, ElementView::Frame { uuid: new_uuid }),
            orders: m.filed_at((sort_order + 1) as usize, new_uuid),
            parents: m.parents.insert(new_uuid, parent_uuid),
            counter: new_uuid,
        };
        assert(self@.elements =~= mf.elements);
        assert(self@ == mf);
        proof {
            lemma_add_element(m, mf, (sort_order + 1) as usize, ElementView::Frame { uuid: new_uuid }, parent_uuid);
            lemma_add_block(mf, (sort_order + 2) as usize, 0);
        }
        self.create_block_staticaly(sort_order + 2, 0);
        new_frame
    }

    /// Makes a new frame; see `create_frame_staticaly`.
    pub fn create_frame(&mut self, sort_order: usize, parent_uuid: usize) -> (f: Frame)
        requires
            old(self)@.wf(),
            old(self)@.counter + 2 <= usize::MAX,
            sort_order + 2 <= usize::MAX,
            parent_uuid == 0 || old(self)@.elements.contains_key(parent_uuid),
        ensures
            final(self)@ == old(self)@.add_frame(sort_order, parent_uuid),
            final(self)@.wf(),
            f.uuid == old(self)@.counter + 1,
            !old(self)@.orders.contains_key((sort_order + 1) as usize) && !old(
                self,
            )@.orders.contains_key((sort_order + 2) as usize) ==> final(self)@.block_ids().len()
                == old(self)@.block_ids().len() + 1,
            final(self).pending_cursor_changes() == old(self).pending_cursor_changes(),
            final(self).pending_element_changes() == old(self).pending_element_changes(),
    {
        self.create_frame_staticaly(sort_order, parent_uuid)
    }

    /// Makes the root frame of an empty manager, with its first block.
    pub fn create_root_frame(&mut self) -> (f: Frame)
        requires
            old(self)@ == DocModel::empty(),
        ensures
            final(self)@ == DocModel::root(),
            f.uuid == root_id(),
            final(self).pending_cursor_changes() == old(self).pending_cursor_changes(),
            final(self).pending_element_changes() == old(self).pending_element_changes(),
    {
        assert(DocModel::empty().wf());
        self.create_frame_staticaly(0, 0)
    }

    /// Takes out every element and starts again from a root frame with its
    /// first block; the ids start again from 1.
    pub fn clear(&mut self)
        ensures
            final(self)@ == DocModel::root(),
            final(self).pending_cursor_changes() == old(self).pending_cursor_changes(),
            final(self).pending_element_changes() == old(self).pending_element_changes(),
    {
        self.child_id_with_parent_id_hash.clear();
        self.order_with_id_map.clear();
        self.id_with_element_hash.clear();
        self.id_counter = 0;
        assert(self@.elements =~= Map::<usize, ElementView>::empty());
        assert(self@ == DocModel::empty());
        self.create_root_frame();
        proof {
            lemma_root();
        }
    }

    /// The root frame.
    pub fn root_frame(&self) -> (f: Frame)
        requires
            self@.has_root(),
        ensures
            f.uuid == root_id(),
    {
        let element = self.id_with_element_hash.get(&1).unwrap();
        match element {
            Element::FrameElement(c) => *c,
            Element::BlockElement(_) => {
                assert(false);
                Frame { uuid: 1 }
            },
        }
    }

    /// The filed elements in increasing sort order.
    pub fn outline_ids(&self) -> (r: Vec<usize>)
        ensures
            r@ == self@.outline(),
    {
        let ghost orders = self.order_with_id_map@;
        let iter = self.order_with_id_map.iter();
        let ghost s = iter.remaining();
        let ghost ks = s.map_values(|kv: (&usize, &usize)| *kv.0);
        assert(vstd::std_specs::btree::increasing_seq(ks));
        assert(vstd::laws_cmp::obeys_cmp::<usize>());
        assert forall|i: int, j: int| 0 <= i < j < ks.len() implies ks[i] < ks[j] by {
            assert(vstd::std_specs::cmp::OrdSpec::cmp_spec(&ks[i], &ks[j]) is Less);
        }
        assert forall|k: usize| (orders.contains_key(k) && k < order_end()) <==> ks.contains(k) by {
            if orders.contains_key(k) {
                assert(s.contains((&k, &orders[k])));
                let w = choose|w: int| 0 <= w < s.len() && s[w] == (&k, &orders[k]);
                assert(ks[w] == k);
            }
            if ks.contains(k) {
                let w = choose|w: int| 0 <= w < ks.len() && ks[w] == k;
                assert(orders.contains_key(*s[w].0));
            }
        }
        proof {
            lemma_ids_in_sorted(orders, ks, order_end());
        }
        let mut ids: Vec<usize> = Vec::new();
        for pair in it: iter
            invariant
                orders == self.order_with_id_map@,
                it.seq() == s,
                forall|i: int|
                    0 <= i < s.len() ==> orders.contains_key(*(#[trigger] s[i]).0) && orders[*s[i].0]
                        == *s[i].1,
                ids@.len() == it.index(),
                forall|j: int| 0 <= j < it.index() ==> ids@[j] == *(#[trigger] s[j]).1,
        {
            let (_, id) = pair;
            ids.push(*id);
        }
        assert(ids@ =~= ks.map_values(|k: usize| orders[k]));
        ids
    }

    /// The ids of the blocks in document order.
    fn block_id_list(&self) -> (r: Vec<usize>)
        requires
            self@.wf(),
        ensures
            r@ == self@.block_ids(),
    {
        let ghost m = self@;
        let outline = self.outline_ids();
        let mut r: Vec<usize> = Vec::new();
        let n = outline.len();
        for i in 0..n
            invariant
                n == outline@.len(),
                outline@ == m.outline(),
                m == self@,
                r@ == m.blocks_in(outline@.take(i as int)),
        {
            let id = outline[i];
            assert(outline@.take(i + 1).drop_last() =~= outline@.take(i as int));
            assert(outline@.take(i + 1).last() == id);
            match self.id_with_element_hash.get(&id) {
                Some(Element::BlockElement(_)) => {
                    r.push(id);
                },
                _ => {},
            }
        }
        assert(outline@.take(n as int) =~= outline@);
        r
    }

    /// Gives the filed elements the sort orders 1, 2, ... in the order of `ids`.
    fn renumber(&mut self, ids: &Vec<usize>)
        ensures
            final(self)@ == (DocModel { orders: renumbered(ids@), ..old(self)@ }),
            final(self).pending_cursor_changes() == old(self).pending_cursor_changes(),
            final(self).pending_element_changes() == old(self).pending_element_changes(),
    {
        self.order_with_id_map.clear();
        assert(self.order_with_id_map@ =~= renumbered(ids@.take(0)));
        let n = ids.len();
        for i in 0..n
            invariant
                n == ids@.len(),
                self.order_with_id_map@ == renumbered(ids@.take(i as int)),
                self.id_with_element_hash@ == old(self).id_with_element_hash@,
                self.child_id_with_parent_id_hash@ == old(self).child_id_with_parent_id_hash@,
                self.id_counter == old(self).id_counter,
                self.cursor_changes@ == old(self).cursor_changes@,
                self.element_changes@ == old(self).element_changes@,
        {
            self.order_with_id_map.insert(i + 1, ids[i]);
            assert(self.order_with_id_map@ =~= renumbered(ids@.take(i + 1)));
        }
        assert(ids@.take(n as int) =~= ids@);
        assert(self.pending_element_changes() == old(self).pending_element_changes());
    }

    /// The number of blocks.
    pub fn block_count(&self) -> (n: usize)
        requires
            self@.wf(),
        ensures
            n == self@.block_set().len(),
            n == self@.block_ids().len(),
    {
        proof {
            lemma_outline(self@);
        }
        self.block_id_list().len()
    }

    /// Copies of the blocks, in document order.
    pub fn block_list(&self) -> (r: Vec<Block>)
        requires
            self@.wf(),
        ensures
            r@.len() == self@.blocks().len(),
            r@.len() == self@.block_set().len(),
            forall|j: int| 0 <= j < r@.len() ==> #[trigger] r@[j]@ == self@.blocks()[j],
            forall|id: usize|
                #[trigger] self@.is_block(id) <==> exists|j: int|
                    0 <= j < r@.len() && #[trigger] r@[j]@.uuid == id,
    {
        let ghost m = self@;
        proof {
            lemma_outline(m);
        }
        let ids = self.block_id_list();
        let mut result: Vec<Block> = Vec::new();
        let n = ids.len();
        for j in 0..n
            invariant
                m == self@,
                m.wf(),
                ids@ == m.block_ids(),
                n == ids@.len(),
                forall|i: int| 0 <= i < n ==> m.is_block(#[trigger] m.block_ids()[i]),
                result@.len() == j,
                forall|i: int| 0 <= i < j ==> #[trigger] result@[i]@ == m.blocks()[i],
        {
            let id = ids[j];
            assert(m.is_block(m.block_ids()[j as int]));
            match self.id_with_element_hash.get(&id) {
                Some(Element::BlockElement(b)) => {
                    result.push(b.duplicate());
                },
                _ => {
                    assert(false);
                },
            }
        }
        assert forall|id: usize| #[trigger] m.is_block(id) <==> exists|j: int|
            0 <= j < result@.len() && #[trigger] result@[j]@.uuid == id by {
            if m.is_block(id) {
                assert(m.block_ids().contains(id));
                let j = choose|j: int| 0 <= j < m.block_ids().len() && m.block_ids()[j] == id;
                assert(result@[j]@.uuid == id);
            }
            if exists|j: int| 0 <= j < result@.len() && #[trigger] result@[j]@.uuid == id {
                let j = choose|j: int| 0 <= j < result@.len() && #[trigger] result@[j]@.uuid == id;
                assert(m.blocks()[j].uuid == m.block_ids()[j]);
            }
        }
        result
    }

    /// The id of the first block that holds `position`, with the position at
    /// which that block starts.
    fn locate_block(&self, position: usize) -> (r: Option<(usize, usize)>)
        requires
            self@.wf(),
        ensures
            r is Some <==> found_index(self@.texts(), position as int) is Some,
            r matches Some((id, start)) ==> {
                let k = found_index(self@.texts(), position as int)->0;
                &&& 0 <= k < self@.block_ids().len()
                &&& id == self@.block_ids()[k]
                &&& start == start_of(self@.texts(), k)
            },
    {
        let ghost m = self@;
        let ghost texts = m.texts();
        proof {
            lemma_outline(m);
        }
        let ids = self.block_id_list();
        let n = ids.len();
        let mut start: usize = 0;
        for k in 0..n
            invariant
                m == self@,
                m.wf(),
                texts == m.texts(),
                ids@ == m.block_ids(),
                n == ids@.len(),
                forall|i: int| 0 <= i < n ==> m.is_block(#[trigger] m.block_ids()[i]),
                start == start_of(texts, k as int),
                forall|j: int| 0 <= j < k ==> !#[trigger] holds(texts, j, position as int),
        {
            let id = ids[k];
            assert(m.is_block(m.block_ids()[k as int]));
            let len = match self.id_with_element_hash.get(&id) {
                Some(Element::BlockElement(b)) => b.text.len(),
                _ => {
                    assert(false);
                    0
                },
            };
            assert(texts[k as int].len() == len);
            if start <= position && position - start <= len {
                assert(first_holder(texts, position as int, k as int));
                assert(found_index(texts, position as int) == Some(k as int)) by {
                    let c = choose|c: int| first_holder(texts, position as int, c);
                    if c < k {
                        assert(holds(texts, c, position as int));
                    } else if c > k {
                        assert(!holds(texts, k as int, position as int));
                    }
                }
                return Some((id, start));
            }
            if len >= usize::MAX - start {
                assert forall|j: int| k <= j < texts.len() implies !#[trigger] holds(
                    texts,
                    j,
                    position as int,
                ) by {
                    if j > k {
                        lemma_start_of_grows(texts, k as int, j);
                    }
                }
                assert(found_index(texts, position as int) is None) by {
                    if exists|c: int| first_holder(texts, position as int, c) {
                        let c = choose|c: int| first_holder(texts, position as int, c);
                        assert(holds(texts, c, position as int));
                    }
                }
                return None;
            }
            start = start + len + 1;
        }
        assert(found_index(texts, position as int) is None) by {
            if exists|c: int| first_holder(texts, position as int, c) {
                let c = choose|c: int| first_holder(texts, position as int, c);
                assert(holds(texts, c, position as int));
            }
        }
        None
    }

    /// A copy of the first block that holds `position`, if one does.
    pub fn find_block(&self, position: usize) -> (r: Option<Block>)
        requires
            self@.wf(),
        ensures
            r is Some <==> found_index(self@.texts(), position as int) is Some,
            r matches Some(b) ==> b@ == self@.blocks()[found_index(
                self@.texts(),
                position as int,
            )->0],
    {
        match self.locate_block(position) {
            Some((id, _)) => {
                proof {
                    lemma_outline(self@);
                }
                match self.id_with_element_hash.get(&id) {
                    Some(Element::BlockElement(b)) => Some(b.duplicate()),
                    _ => {
                        assert(false);
                        None
                    },
                }
            },
            None => None,
        }
    }

    /// A copy of the last block, the one filed under the greatest sort order;
    /// where there is no block, a new empty block is made first, filed at the
    /// fallback order (see `add_block`) with parent id 0.
    pub fn last_block(&mut self) -> (b: Block)
        requires
            old(self)@.wf(),
            old(self)@.block_ids().len() == 0 ==> old(self)@.counter < usize::MAX,
        ensures
            final(self)@ == old(self)@.ensure_block(),
            final(self)@.wf(),
            final(self)@.block_ids().len() > 0,
            old(self)@.has_root() ==> final(self)@.has_root(),
            b@ == final(self)@.blocks().last(),
            final(self)@.order_of(b@.uuid) is Some,
            forall|id: usize|
                #[trigger] final(self)@.is_block(id) && id != b@.uuid ==> final(self)@.order_of(id)->0
                    < final(self)@.order_of(b@.uuid)->0,
            final(self).pending_cursor_changes() == old(self).pending_cursor_changes(),
            final(self).pending_element_changes() == old(self).pending_element_changes(),
    {
        proof {
            lemma_ensure_block(self@);
            let e = old(self)@.ensure_block();
            lemma_outline(e);
            lemma_document_order(e);
            let ids = e.block_ids();
            let l = ids.len() - 1;
            assert(e.order_of(ids[l]) is Some);
            assert forall|id: usize| #[trigger] e.is_block(id) && id != ids[l] implies e.order_of(
                id,
            )->0 < e.order_of(ids[l])->0 by {
                assert(ids.contains(id));
                let j = choose|j: int| 0 <= j < ids.len() && ids[j] == id;
                assert(j != l);
            }
        }
        let list = self.block_list();
        if list.len() > 0 {
            list[list.len() - 1].duplicate()
        } else {
            let b = self.create_block(FALLBACK_BLOCK_ORDER, 0);
            proof {
                assert(self@.block_ids() == seq![self@.counter]);
            }
            b
        }
    }

    /// The frame that is the parent of `uuid`, if its parent is a frame.
    fn parent_frame_of(&self, uuid: usize) -> (r: Option<Frame>)
        requires
            self@.wf(),
        ensures
            r == (match self@.parent_frame_of(uuid) {
                Some(p) => Some(Frame { uuid: p }),
                None => None,
            }),
    {
        let parent_uuid = match self.child_id_with_parent_id_hash.get(&uuid) {
            Some(p) => *p,
            None => return None,
        };
        let parent_element = match self.id_with_element_hash.get(&parent_uuid) {
            Some(e) => e,
            None => return None,
        };
        match parent_element {
            Element::FrameElement(f) => Some(*f),
            Element::BlockElement(_) => None,
        }
    }

    /// The frame that is the parent of `element`, if its parent is a frame.
    pub fn get_parent_frame(&self, element: &Element) -> (r: Option<Frame>)
        requires
            self@.wf(),
        ensures
            r == (match self@.parent_frame_of(element@.uuid()) {
                Some(p) => Some(Frame { uuid: p }),
                None => None,
            }),
            r matches Some(f) ==> self@.parents.contains_key(element@.uuid()) && self@.parents[
                element@.uuid()] == f.uuid && self@.is_frame(f.uuid),
            self@.parents.contains_key(element@.uuid()) && self@.is_frame(
                self@.parents[element@.uuid()],
            ) ==> r == Some(Frame { uuid: self@.parents[element@.uuid()] }),
    {
        let child_uuid = match element {
            Element::FrameElement(f) => f.uuid,
            Element::BlockElement(b) => b.uuid,
        };
        self.parent_frame_of(child_uuid)
    }

    /// The sort order under which `uuid` is filed, if it is.
    fn order_of(&self, uuid: usize) -> (r: Option<usize>)
        requires
            self@.wf(),
        ensures
            r == self@.order_of(uuid),
    {
        let ghost m = self@;
        let ghost orders = self.order_with_id_map@;
        for pair in it: self.order_with_id_map.iter()
            invariant
                m == self@,
                m.wf(),
                orders == self.order_with_id_map@,
                forall|j: int| 0 <= j < it.index() ==> *(#[trigger] it.seq()[j]).1 != uuid,
                forall|k: usize| #[trigger]
                    orders.contains_key(k) ==> it.seq().contains((&k, &orders[k])),
        {
            let (order, value) = pair;
            if *value == uuid {
                proof {
                    assert(orders.contains_key(*order) && orders[*order] == uuid);
                    let o = *order;
                    assert(exists|k: usize| orders.contains_key(k) && orders[k] == uuid) by {
                        assert(orders.contains_key(o) && orders[o] == uuid);
                    }
                    let c = choose|k: usize| orders.contains_key(k) && orders[k] == uuid;
                    assert(m.orders[c] == m.orders[o]);
                    assert(c == o);
                    assert(m.order_of(uuid) == Some(o));
                }
                return Some(*order);
            }
        }
        None
    }

    /// The sort order under which `element` is filed, if it is.
    pub fn get_element_order(&self, element: &Element) -> (r: Option<usize>)
        requires
            self@.wf(),
        ensures
            r == self@.order_of(element@.uuid()),
    {
        let target_uuid = match element {
            Element::FrameElement(f) => f.uuid,
            Element::BlockElement(b) => b.uuid,
        };
        self.order_of(target_uuid)
    }

    /// The id of the reference block for an edit at `position` and the offset
    /// in it at which `position` falls (the block is made first where there is
    /// no block).
    fn reference_location(&mut self, position: usize) -> (r: (usize, usize))
        requires
            old(self)@.wf(),
            old(self)@.counter + old(self)@.ids_for_fallback() <= usize::MAX,
        ensures
            final(self)@ == old(self)@.ensure_block(),
            final(self)@.wf(),
            old(self)@.has_root() ==> final(self)@.has_root(),
            ({
                let m = final(self)@;
                let k = m.reference_index(position as int);
                &&& 0 <= k < m.block_ids().len()
                &&& r.0 == m.block_ids()[k]
                &&& r.1 == m.reference_offset(position as int)
            }),
            final(self).pending_cursor_changes() == old(self).pending_cursor_changes(),
            final(self).pending_element_changes() == old(self).pending_element_changes(),
    {
        proof {
            lemma_ensure_block(self@);
        }
        match self.locate_block(position) {
            Some((id, start)) => {
                proof {
                    let k = found_index(self@.texts(), position as int)->0;
                    assert(first_holder(self@.texts(), position as int, k));
                    assert(self@.ensure_block() == self@);
                }
                (id, position - start)
            },
            None => {
                let ghost old_texts = self@.texts();
                let last = self.last_block();
                proof {
                    let m = self@;
                    if old_texts.len() > 0 {
                        assert(m.texts() == old_texts);
                    } else {
                        match found_index(m.texts(), position as int) {
                            Some(k) => {
                                assert(first_holder(m.texts(), position as int, k));
                            },
                            None => {},
                        }
                    }
                    assert(m.reference_index(position as int) == m.block_ids().len() - 1);
                }
                let len = last.text.len();
                let off = match self.last_block_start() {
                    Some(s) => if position <= s {
                        0
                    } else if position - s >= len {
                        len
                    } else {
                        position - s
                    },
                    None => 0,
                };
                (last.uuid, off)
            },
        }
    }

    /// Splits the block that holds `position` (else the last block) at
    /// `position`, as a line feed typed there splits it: the text after the
    /// position moves into a new block, filed right after the split block and
    /// with that block's frame (else the root frame) as parent; the sort
    /// orders are then given anew as 1, 2, ... in the same order. Answers a
    /// copy of the new block.
    pub fn insert_block_using_position(&mut self, position: usize) -> (b: Block)
        requires
            old(self)@.wf(),
            old(self)@.has_root(),
            old(self)@.counter + old(self)@.ids_for_fallback() + 1 <= usize::MAX,
        ensures
            final(self)@ == old(self)@.insert_block_at(position as int),
            final(self)@.wf(),
            final(self)@.has_root(),
            old(self)@.block_ids().len() > 0 && position <= old(self)@.plain_text().len() ==> {
                &&& final(self)@.plain_text() == old(self)@.plain_text().subrange(0, position as int)
                    + seq!['\n'] + old(self)@.plain_text().subrange(
                    position as int,
                    old(self)@.plain_text().len() as int,
                )
                &&& final(self)@.block_ids().len() == old(self)@.block_ids().len() + 1
            },
            old(self)@.block_ids().len() > 0 ==> {
                let k = old(self)@.reference_index(position as int);
                let t = old(self)@.texts()[k];
                let off = old(self)@.reference_offset(position as int);
                &&& final(self)@.block_ids() == old(self)@.block_ids().insert(
                    k + 1,
                    final(self)@.counter,
                )
                &&& final(self)@.texts() == old(self)@.texts().update(k, t.subrange(0, off)).insert(
                    k + 1,
                    t.subrange(off, t.len() as int),
                )
                &&& b@.text == t.subrange(off, t.len() as int)
            },
            forall|id: usize| #[trigger] final(self)@.is_frame(id) == old(self)@.is_frame(id),
            b@ == (BlockView {
                uuid: final(self)@.counter,
                text: final(self)@.elements[final(self)@.counter].text(),
            }),
            final(self).pending_cursor_changes() == old(self).pending_cursor_changes(),
            final(self).pending_element_changes() == old(self).pending_element_changes(),
    {
        proof {
            lemma_ensure_block(self@);
            if self@.block_ids().len() > 0 {
                lemma_insert_block_at(self@, position as int);
                if position <= self@.plain_text().len() {
                    lemma_split_at(self@, position as int);
                }
            }
        }
        let (reference, offset) = self.reference_location(position);
        let ghost m = self@;
        proof {
            lemma_insert_block_at(m, position as int);
            lemma_outline(m);
            assert(m.ensure_block() == m);
        }
        let root = self.root_frame();
        let parent_uuid = match self.parent_frame_of(reference) {
            Some(frame) => frame.uuid,
            None => root.uuid,
        };
        let t = self.block_text(reference);
        let nothing: Vec<char> = Vec::new();
        let head = splice(&t, offset, t.len(), &nothing);
        let tail = splice(&t, 0, offset, &nothing);
        assert(head@ =~= t@.subrange(0, offset as int));
        assert(tail@ =~= t@.subrange(offset as int, t@.len() as int));
        let moved = copy_chars(&tail);
        let outline = self.outline_ids();
        let new_uuid = self.get_new_uuid();
        let mut extra: Vec<usize> = Vec::new();
        extra.push(new_uuid);
        let new_outline = place_after_ids(&outline, reference, &extra);
        self.id_with_element_hash.insert(
            reference,
            Element::BlockElement(Block { uuid: reference, text: head }),
        );
        self.id_with_element_hash.insert(
            new_uuid,
            Element::BlockElement(Block { uuid: new_uuid, text: tail }),
        );
        self.child_id_with_parent_id_hash.insert(new_uuid, parent_uuid);
        self.renumber(&new_outline);
        proof {
            let r = m.insert_block_at(position as int);
            assert(extra@ =~= seq![new_uuid]);
            assert(self@.elements =~= r.elements);
            assert(self@ == r);
        }
        Block { uuid: new_uuid, text: moved }
    }

    /// Makes a new frame placed at `position`: filed right after the block
    /// that holds `position` (else the last block), with that block's frame
    /// (else the root frame) as parent, and followed by its first, empty,
    /// block; the sort orders are then given anew as 1, 2, ... in the same order.
    pub fn insert_frame_using_position(&mut self, position: usize) -> (f: Frame)
        requires
            old(self)@.wf(),
            old(self)@.has_root(),
            old(self)@.counter + old(self)@.ids_for_fallback() + 2 <= usize::MAX,
        ensures
            final(self)@ == old(self)@.insert_frame_at(position as int),
            final(self)@.wf(),
            final(self)@.has_root(),
            f.uuid == old(self)@.ensure_block().counter + 1,
            ({
                let e = old(self)@.ensure_block();
                let k = e.reference_index(position as int);
                let b = e.block_ids()[k];
                &&& final(self)@.is_frame(f.uuid)
                &&& final(self)@.parents[f.uuid] == e.parent_for_new(b)
                &&& exists|i: int|
                    0 <= i < final(self)@.outline().len() - 1 && #[trigger] final(self)@.outline()[i]
                        == b && final(self)@.outline()[i + 1] == f.uuid
                &&& final(self)@.block_ids() == e.block_ids().insert(k + 1, (f.uuid + 1) as usize)
                &&& final(self)@.texts() == e.texts().insert(k + 1, Seq::<char>::empty())
            }),
            final(self).pending_cursor_changes() == old(self).pending_cursor_changes(),
            final(self).pending_element_changes() == old(self).pending_element_changes(),
    {
        let (reference, _) = self.reference_location(position);
        let ghost m = self@;
        proof {
            lemma_insert_frame_at(m, position as int);
            assert(m.ensure_block() == m);
        }
        let root = self.root_frame();
        let parent_uuid = match self.parent_frame_of(reference) {
            Some(frame) => frame.uuid,
            None => root.uuid,
        };
        let outline = self.outline_ids();
        let frame_uuid = self.get_new_uuid();
        let block_uuid = self.get_new_uuid();
        let mut extra: Vec<usize> = Vec::new();
        extra.push(frame_uuid);
        extra.push(block_uuid);
        let new_outline = place_after_ids(&outline, reference, &extra);
        let new_frame = Frame { uuid: frame_uuid };
        self.id_with_element_hash.insert(frame_uuid, Element::FrameElement(new_frame));
        self.id_with_element_hash.insert(
            block_uuid,
            Element::BlockElement(Block { uuid: block_uuid, text: Vec::new() }),
        );
        self.child_id_with_parent_id_hash.insert(frame_uuid, parent_uuid);
        self.child_id_with_parent_id_hash.insert(block_uuid, 0);
        self.renumber(&new_outline);
        proof {
            let r = m.insert_frame_at(position as int);
            assert(extra@ =~= seq![frame_uuid, block_uuid]);
            assert(self@.elements =~= r.elements);
            assert(self@ == r);
        }
        new_frame
    }

    /// The frame holding the first block that holds `position`, if a block
    /// holds it and its parent is a frame.
    pub fn find_frame(&self, position: usize) -> (r: Option<Frame>)
        requires
            self@.wf(),
        ensures
            r == (match self@.frame_at(position as int) {
                Some(p) => Some(Frame { uuid: p }),
                None => None,
            }),
            found_index(self@.texts(), position as int) is None ==> r is None,
            r matches Some(f) ==> {
                let id = self@.block_ids()[found_index(self@.texts(), position as int)->0];
                &&& found_index(self@.texts(), position as int) is Some
                &&& self@.parents.contains_key(id)
                &&& self@.parents[id] == f.uuid
                &&& self@.is_frame(f.uuid)
            },
            found_index(self@.texts(), position as int) matches Some(k) ==> {
                let id = self@.block_ids()[k];
                self@.parents.contains_key(id) && self@.is_frame(self@.parents[id]) ==> r == Some(
                    Frame { uuid: self@.parents[id] },
                )
            },
    {
        proof {
            lemma_frame_at_law(self@, position as int);
        }
        match self.locate_block(position) {
            Some((id, _)) => self.parent_frame_of(id),
            None => None,
        }
    }

    /// How many ancestors the element `child_id` has, counting up the chain of
    /// parents to the element whose parent id is 0.
    pub fn number_of_ancestors(&self, child_id: usize) -> (n: usize)
        requires
            self@.wf(),
            self@.elements.contains_key(child_id),
        ensures
            n == self@.ancestor_count(child_id),
            1 <= n <= child_id,
            n <= self@.parents.dom().len(),
            ancestor_at(self@, child_id, n as nat) == 0,
            forall|j: nat| 1 <= j < n ==> #[trigger] ancestor_at(self@, child_id, j) != 0,
    {
        proof {
            lemma_ancestor_chain(self@, child_id);
            assert(self.child_id_with_parent_id_hash@.dom().finite());
            lemma_ancestor_count_bounded(self@, child_id);
        }
        let ghost m = self@;
        proof {
            lemma_ancestor_count(m, child_id);
        }
        let mut number_of_ancestors: usize = 0;
        let mut loop_child_id: usize = child_id;
        loop
            invariant_except_break
                m == self@,
                m.wf(),
                m.elements.contains_key(loop_child_id),
                number_of_ancestors + m.ancestor_count(loop_child_id) == m.ancestor_count(child_id),
                m.ancestor_count(child_id) <= child_id,
            ensures
                number_of_ancestors == m.ancestor_count(child_id),
            decreases loop_child_id,
        {
            proof {
                lemma_ancestor_count(m, loop_child_id);
            }
            match self.child_id_with_parent_id_hash.get(&loop_child_id) {
                Some(parent) => {
                    if *parent == 0 {
                        number_of_ancestors = number_of_ancestors + 1;
                        break ;
                    } else {
                        number_of_ancestors = number_of_ancestors + 1;
                        loop_child_id = *parent;
                    }
                },
                None => {
                    assert(false);
                    break ;
                },
            }
        }
        number_of_ancestors
    }

    /// Puts a cursor change in the queue of changes to report.
    pub fn signal_for_cursor_change(
        &mut self,
        position: usize,
        removed_characters: usize,
        added_character: usize,
    )
        ensures
            final(self)@ == old(self)@,
            final(self).pending_cursor_changes() == old(self).pending_cursor_changes().push(
                CursorChange {
                    position,
                    removed_characters,
                    added_characters: added_character,
                },
            ),
            final(self).pending_element_changes() == old(self).pending_element_changes(),
    {
        self.cursor_changes.push(
            CursorChange { position, removed_characters, added_characters: added_character },
        );
    }

    /// Puts an element change in the queue of changes to report.
    pub fn signal_for_element_change(&mut self, changed_element: Element)
        ensures
            final(self)@ == old(self)@,
            final(self).pending_cursor_changes() == old(self).pending_cursor_changes(),
            final(self).pending_element_changes() == old(self).pending_element_changes().push(
                changed_element@,
            ),
    {
        self.element_changes.push(changed_element);
        assert(self.pending_element_changes() =~= old(self).pending_element_changes().push(
            changed_element@,
        ));
    }

    /// Hands out the cursor changes waiting to be reported, oldest first, and
    /// empties their queue.
    pub fn take_cursor_changes(&mut self) -> (r: Vec<CursorChange>)
        ensures
            r@ == old(self).pending_cursor_changes(),
            final(self)@ == old(self)@,
            final(self).pending_cursor_changes() == Seq::<CursorChange>::empty(),
            final(self).pending_element_changes() == old(self).pending_element_changes(),
    {
        let mut taken: Vec<CursorChange> = Vec::new();
        std::mem::swap(&mut taken, &mut self.cursor_changes);
        taken
    }

    /// Hands out the element changes waiting to be reported, oldest first, and
    /// empties their queue.
    pub fn take_element_changes(&mut self) -> (r: Vec<Element>)
        ensures
            r@.map_values(|e: Element| e@) == old(self).pending_element_changes(),
            final(self)@ == old(self)@,
            final(self).pending_cursor_changes() == old(self).pending_cursor_changes(),
            final(self).pending_element_changes() == Seq::<ElementView>::empty(),
    {
        let mut taken: Vec<Element> = Vec::new();
        std::mem::swap(&mut taken, &mut self.element_changes);
        assert(self.pending_element_changes() =~= Seq::<ElementView>::empty());
        taken
    }

    /// A copy of the text of block `id`.
    fn block_text(&self, id: usize) -> (t: Vec<char>)
        requires
            self@.wf(),
            self@.is_block(id),
        ensures
            t@ == self@.elements[id].text(),
    {
        match self.id_with_element_hash.get(&id) {
            Some(Element::BlockElement(b)) => copy_chars(&b.text),
            _ => {
                assert(false);
                Vec::new()
            },
        }
    }

    /// Replaces the text of block `id` with `text`.
    fn set_block_text(&mut self, id: usize, text: Vec<char>)
        requires
            old(self)@.wf(),
            old(self)@.block_ids().contains(id),
        ensures
            final(self)@ == old(self)@.set_block_text(id, text@),
            final(self)@.wf(),
            final(self)@.block_ids() == old(self)@.block_ids(),
            old(self)@.has_root() ==> final(self)@.has_root(),
            final(self).pending_cursor_changes() == old(self).pending_cursor_changes(),
            final(self).pending_element_changes() == old(self).pending_element_changes(),
    {
        let ghost t = text@;
        self.id_with_element_hash.insert(id, Element::BlockElement(Block { uuid: id, text }));
        assert(self@.elements =~= old(self)@.set_block_text(id, t).elements);
        proof {
            lemma_set_text_of_block(old(self)@, id, t);
        }
    }

    /// The position at which the last block starts, where it fits in a `usize`.
    fn last_block_start(&self) -> (r: Option<usize>)
        requires
            self@.wf(),
            self@.block_ids().len() > 0,
        ensures
            r matches Some(s) ==> s == start_of(self@.texts(), self@.block_ids().len() - 1),
            r is None ==> start_of(self@.texts(), self@.block_ids().len() - 1) > usize::MAX,
    {
        let ghost m = self@;
        let ghost texts = m.texts();
        proof {
            lemma_outline(m);
        }
        let ids = self.block_id_list();
        let n = ids.len();
        let mut start: usize = 0;
        for k in 0..n - 1
            invariant
                m == self@,
                m.wf(),
                texts == m.texts(),
                ids@ == m.block_ids(),
                n == ids@.len(),
                n >= 1,
                forall|i: int| 0 <= i < n ==> m.is_block(#[trigger] m.block_ids()[i]),
                start == start_of(texts, k as int),
        {
            let id = ids[k];
            assert(m.is_block(m.block_ids()[k as int]));
            let len = match self.id_with_element_hash.get(&id) {
                Some(Element::BlockElement(b)) => b.text.len(),
                _ => {
                    assert(false);
                    0
                },
            };
            assert(texts[k as int].len() == len);
            if len >= usize::MAX - start {
                proof {
                    lemma_start_of_grows(texts, k as int, n - 1);
                }
                return None;
            }
            start = start + len + 1;
        }
        Some(start)
    }

    /// Takes out the text between `position` and `anchor_position` where both
    /// lie in the same block, and answers the position where the removal
    /// leaves the cursor; answers `None`, changing nothing, where either
    /// position lies in no block or the two lie in different blocks.
    pub fn remove(&mut self, position: usize, anchor_position: usize, _send_change_signals: bool) -> (r:
        Option<usize>)
        requires
            old(self)@.wf(),
        ensures
            ({
                let left = if position <= anchor_position { position } else { anchor_position };
                let right = if position <= anchor_position { anchor_position } else { position };
                &&& final(self)@ == old(self)@.remove_between(left as int, right as int)
                &&& r == if old(self)@.removes(left as int, right as int) {
                    Some(left)
                } else {
                    None::<usize>
                }
                &&& r is Some <==> (found_index(old(self)@.texts(), left as int) is Some
                    && found_index(old(self)@.texts(), right as int) == found_index(
                    old(self)@.texts(),
                    left as int,
                ))
                &&& r matches Some(p) ==> p == left
                &&& r is None ==> final(self)@ == old(self)@
                &&& final(self)@.plain_text() == cut_text(
                    old(self)@.texts(),
                    left as int,
                    right as int,
                )
            }),
            final(self)@.wf(),
            final(self)@.block_ids() == old(self)@.block_ids(),
            final(self)@.counter == old(self)@.counter,
            old(self)@.has_root() ==> final(self)@.has_root(),
            final(self).pending_cursor_changes() == old(self).pending_cursor_changes(),
            final(self).pending_element_changes() == old(self).pending_element_changes(),
    {
        let left_position = if position <= anchor_position { position } else { anchor_position };
        let right_position = if position <= anchor_position { anchor_position } else { position };
        proof {
            lemma_remove_between(self@, left_position as int, right_position as int);
            lemma_remove_law(self@, left_position as int, right_position as int);
            lemma_outline(self@);
        }
        let top_block = match self.locate_block(left_position) {
            Some(found) => found,
            None => return None,
        };
        let bottom_block = match self.locate_block(right_position) {
            Some(found) => found,
            None => return None,
        };
        let ghost texts = self@.texts();
        let ghost kt = found_index(texts, left_position as int)->0;
        let ghost kb = found_index(texts, right_position as int)->0;
        if top_block.0 == bottom_block.0 {
            proof {
                assert(first_holder(texts, left_position as int, kt));
                assert(first_holder(texts, right_position as int, kb));
                assert(self@.block_ids()[kt] != self@.block_ids()[kb] ==> kt != kb);
                assert(first_holder(texts, right_position as int, kb));
            }
            let (id, start) = top_block;
            let t = self.block_text(id);
            let nothing: Vec<char> = Vec::new();
            let remaining = splice(&t, left_position - start, right_position - start, &nothing);
            assert(remaining@ =~= t@.subrange(0, left_position - start) + t@.subrange(
                right_position - start,
                t@.len() as int,
            ));
            self.set_block_text(id, remaining);
            Some(left_position)
        } else {
            None
        }
    }

    /// Inserts `plain_text` at `position` after removing the text between
    /// `position` and `anchor_position`: its first line goes into the block
    /// that holds `position` (else the last block), and before each further
    /// line the block is split at the running position, the line going at the
    /// start of the new block; with nothing selected, the text so lands in the
    /// plain text at `position`. Answers the position after
    /// the inserted text, and, where `send_change_signals` holds, queues the
    /// cursor change from `position` to there. Like every document position,
    /// the answer counts characters (Unicode scalar values), not UTF-8 bytes:
    /// it is `position` plus the number of characters of `plain_text`.
    pub fn insert_plain_text(
        &mut self,
        plain_text: &str,
        position: usize,
        anchor_position: usize,
        send_change_signals: bool,
    ) -> (new_position: usize)
        requires
            old(self)@.wf(),
            split_lines(plain_text@).len() > 1 ==> old(self)@.has_root(),
            position + plain_text@.len() <= usize::MAX,
            old(self)@.counter + old(self)@.ids_for_fallback() + split_lines(plain_text@).len() - 1
                <= usize::MAX,
        ensures
            final(self)@ == old(self)@.insert_plain_text(
                plain_text@,
                position as int,
                anchor_position as int,
            ),
            final(self)@.wf(),
            old(self)@.has_root() ==> final(self)@.has_root(),
            new_position == position + plain_text@.len(),
            old(self)@.has_root() ==> {
                &&& final(self)@.block_ids().len() == old(self)@.block_ids().len()
                    + old(self)@.ids_for_fallback() + count_line_feeds(plain_text@)
                &&& final(self)@.counter == old(self)@.counter + old(self)@.ids_for_fallback()
                    + count_line_feeds(plain_text@)
                &&& forall|id: usize| #[trigger]
                    final(self)@.is_frame(id) == old(self)@.is_frame(id)
            },
            old(self)@.has_root() ==> final(self)@.plain_text() == put_text(
                cut_text(
                    old(self)@.texts(),
                    if position <= anchor_position { position as int } else { anchor_position as int },
                    if position <= anchor_position { anchor_position as int } else { position as int },
                ),
                plain_text@,
                position as int,
            ),
            position == anchor_position && position <= old(self)@.plain_text().len()
                && old(self)@.has_root() ==> final(self)@.plain_text() == old(
                self,
            )@.plain_text().subrange(0, position as int) + plain_text@ + old(
                self,
            )@.plain_text().subrange(position as int, old(self)@.plain_text().len() as int),
            final(self).pending_cursor_changes() == if send_change_signals {
                old(self).pending_cursor_changes().push(
                    CursorChange { position, removed_characters: 0, added_characters: new_position },
                )
            } else {
                old(self).pending_cursor_changes()
            },
            final(self).pending_element_changes() == old(self).pending_element_changes(),
    {
        let ghost text = plain_text@;
        let ghost lines_spec = split_lines(text);
        proof {
            lemma_split_lines_len(text);
            lemma_join_split(text);
            if old(self)@.has_root() {
                lemma_insert_counts(old(self)@, text, position as int, anchor_position as int);
                lemma_insert_law(old(self)@, text, position as int, anchor_position as int);
            }
            if position == anchor_position && position <= old(self)@.plain_text().len()
                && old(self)@.has_root() {
                lemma_insert_text(old(self)@, text, position as int);
            }
        }
        let left_position = if position <= anchor_position { position } else { anchor_position };
        let right_position = if position <= anchor_position { anchor_position } else { position };
        if left_position != right_position {
            self.remove(left_position, right_position, false);
        }
        let ghost m0 = self@;
        assert(m0 == if left_position != right_position {
            old(self)@.remove_between(left_position as int, right_position as int)
        } else {
            old(self)@
        });
        let chars = chars_of(plain_text);
        let lines = split_plain_text(&chars);
        assert(lines@.len() == lines_spec.len());
        assert(lines@[0]@ == lines_spec[0]);
        proof {
            lemma_ensure_block(m0);
        }
        let (id, offset) = self.reference_location(position);
        let ghost me = self@;
        let ghost k = me.reference_index(position as int);
        proof {
            lemma_outline(me);
        }
        let t = self.block_text(id);
        let first = splice(&t, offset, offset, &lines[0]);
        self.set_block_text(id, first);
        proof {
            lemma_join_take_len(lines_spec, 1);
            if lines_spec.len() > 1 {
                lemma_join_take_step(lines_spec, 1);
            } else {
                assert(lines_spec.take(1) =~= lines_spec);
            }
        }
        let mut new_position = position + lines[0].len();
        let ghost c1 = self@.counter;
        let ghost target = self@.insert_lines(lines_spec, 1, new_position as int);
        let mut i: usize = 1;
        while i < lines.len()
            invariant
                self@.wf(),
                lines_spec.len() > 1 ==> self@.has_root(),
                self@.block_ids().len() > 0,
                lines@.map_values(|v: Vec<char>| v@) == lines_spec,
                lines@.len() == lines_spec.len(),
                1 <= i <= lines_spec.len(),
                self@.insert_lines(lines_spec, i as int, new_position as int) == target,
                new_position == position + join_lines(lines_spec.take(i as int)).len(),
                join_lines(lines_spec) == text,
                position + text.len() <= usize::MAX,
                self@.counter == c1 + (i - 1),
                c1 + (lines_spec.len() - 1) <= usize::MAX,
                self.pending_cursor_changes() == old(self).pending_cursor_changes(),
                self.pending_element_changes() == old(self).pending_element_changes(),
            decreases lines_spec.len() - i,
        {
            proof {
                lemma_join_take_step(lines_spec, i as int);
                lemma_join_take_len(lines_spec, i as int + 1);
                assert(lines@[i as int]@ == lines_spec[i as int]);
            }
            let ghost mb = self@;
            proof {
                lemma_insert_block_at(mb, new_position as int);
            }
            let block = self.insert_block_using_position(new_position);
            let joined = splice(&block.text, 0, 0, &lines[i]);
            assert(joined@ =~= lines_spec[i as int] + block.text@);
            assert(self@.block_ids().contains(block.uuid)) by {
                let k = mb.reference_index(new_position as int);
                assert(mb.ensure_block() == mb);
                assert(self@.block_ids()[k + 1] == block.uuid);
            }
            self.set_block_text(block.uuid, joined);
            new_position = new_position + 1 + lines[i].len();
            i = i + 1;
        }
        assert(lines_spec.take(lines_spec.len() as int) =~= lines_spec);
        if send_change_signals {
            self.signal_for_cursor_change(position, 0, new_position);
        }
        new_position
    }

    /// The outline of the document: one line per filed element, in increasing
    /// sort order, with the element's number of ancestors as indent and the
    /// word "frame" or the block's text.
    pub fn debug_elements(&self) -> (r: Vec<DebugLine>)
        requires
            self@.wf(),
        ensures
            exists|ks: Seq<usize>|
                {
                    &&& self@.sorted_orders(ks)
                    &&& r@.len() == ks.len()
                    &&& forall|j: int|
                        0 <= j < ks.len() ==> {
                            let id = self@.orders[#[trigger] ks[j]];
                            &&& r@[j].indent == self@.ancestor_count(id)
                            &&& r@[j].text@ == debug_label(self@.elements[id])
                        }
                },
    {
        let ghost m = self@;
        let ghost orders = self.order_with_id_map@;
        let iter = self.order_with_id_map.iter();
        let ghost s = iter.remaining();
        let ghost ks = s.map_values(|kv: (&usize, &usize)| *kv.0);
        assert(vstd::std_specs::btree::increasing_seq(ks));
        assert(vstd::laws_cmp::obeys_cmp::<usize>());
        assert forall|i: int, j: int| 0 <= i < j < ks.len() implies ks[i] < ks[j] by {
            assert(vstd::std_specs::cmp::OrdSpec::cmp_spec(&ks[i], &ks[j]) is Less);
        }
        assert forall|k: usize| orders.contains_key(k) <==> ks.contains(k) by {
            if orders.contains_key(k) {
                assert(s.contains((&k, &orders[k])));
                let w = choose|w: int| 0 <= w < s.len() && s[w] == (&k, &orders[k]);
                assert(ks[w] == k);
            }
            if ks.contains(k) {
                let w = choose|w: int| 0 <= w < ks.len() && ks[w] == k;
                assert(orders.contains_key(*s[w].0));
            }
        }
        let mut lines: Vec<DebugLine> = Vec::new();
        for pair in it: iter
            invariant
                m == self@,
                m.wf(),
                orders == m.orders,
                it.seq() == s,
                forall|i: int|
                    0 <= i < s.len() ==> orders.contains_key(*(#[trigger] s[i]).0) && orders[*s[i].0]
                        == *s[i].1,
                lines@.len() == it.index(),
                forall|j: int|
                    0 <= j < it.index() ==> {
                        let id = orders[*(#[trigger] s[j]).0];
                        &&& lines@[j].indent == m.ancestor_count(id)
                        &&& lines@[j].text@ == debug_label(m.elements[id])
                    },
        {
            let (_, id) = pair;
            let id = *id;
            let indent = self.number_of_ancestors(id);
            let text = match self.id_with_element_hash.get(&id) {
                Some(Element::FrameElement(_)) => vec!['f', 'r', 'a', 'm', 'e'],
                Some(Element::BlockElement(b)) => copy_chars(&b.text),
                None => {
                    assert(false);
                    Vec::new()
                },
            };
            lines.push(DebugLine { indent, text });
        }
        assert(m.sorted_orders(ks));
        lines
    }
}

} // verus!
