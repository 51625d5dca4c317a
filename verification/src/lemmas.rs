use vstd::prelude::*;

use crate::element::{DocModel, ElementView};
use crate::model::{
    first_holder, found_index, ids_in, order_end, place_after, renumbered, FALLBACK_BLOCK_ORDER,
};
use crate::orders::{
    filed_in, lemma_ids_in_contains, lemma_ids_in_increasing, lemma_blocks_in_order,
    lemma_blocks_in_concat, lemma_blocks_in_members, lemma_blocks_in_one,
    lemma_blocks_in_same, lemma_distinct_bounded, lemma_ids_in_agree, lemma_ids_in_members,
    lemma_ids_in_one, lemma_ids_in_renumbered, lemma_ids_in_split, lemma_place_after,
    lemma_renumbered_injective,
};

verus! {

/// In a well-formed model the outline lists every element, each once, and
/// the blocks in document order are all the blocks, each once.
pub proof fn lemma_outline(m: DocModel)
    requires
        m.wf(),
    ensures
        m.outline().no_duplicates(),
        forall|j: int|
            0 <= j < m.outline().len() ==> m.elements.contains_key(#[trigger] m.outline()[j]),
        m.outline().len() <= m.counter,
        m.block_ids().no_duplicates(),
        forall|j: int|
            0 <= j < m.block_ids().len() ==> m.is_block(#[trigger] m.block_ids()[j])
                && m.outline().contains(m.block_ids()[j]),
        m.block_ids().len() <= m.outline().len(),
        forall|id: usize| #[trigger] m.elements.contains_key(id) ==> m.outline().contains(id),
        forall|id: usize|
            #![trigger m.is_block(id)]
            #![trigger m.block_ids().contains(id)]
            m.is_block(id) <==> m.block_ids().contains(id),
        m.block_ids().len() == m.block_set().len(),
{
    let o = m.orders;
    lemma_ids_in_members(o, 0, order_end());
    let s = m.outline();
    assert forall|id: usize| #[trigger] m.elements.contains_key(id) implies s.contains(id) by {
        assert(m.is_filed(id));
        let k = choose|k: usize| o.contains_key(k) && o[k] == id;
        lemma_ids_in_contains(o, 0, order_end(), k);
    }
    assert forall|j: int| 0 <= j < s.len() implies m.elements.contains_key(#[trigger] s[j]) by {
        assert(filed_in(o, 0, order_end(), s[j]));
        let k = choose|k: usize| 0 <= k < order_end() && o.contains_key(k) && o[k] == s[j];
    }
    assert forall|j: int| 0 <= j < s.len() implies 1 <= #[trigger] s[j] <= m.counter by {
        assert(m.elements.contains_key(s[j]));
    }
    lemma_distinct_bounded(s, m.counter as int);
    lemma_blocks_in_members(m, s);
    let ids = m.block_ids();
    assert forall|id: usize| m.is_block(id) <==> #[trigger] ids.contains(id) by {
        if ids.contains(id) {
            let j = choose|j: int| 0 <= j < ids.len() && ids[j] == id;
            assert(m.is_block(ids[j]));
        }
    }
    assert(ids.to_set() =~= m.block_set());
    ids.unique_seq_to_set();
}

/// Blocks in document order are filed under strictly increasing sort
/// orders: of two blocks, the one that comes first has the smaller order, so
/// the last block has the greatest.
pub proof fn lemma_document_order(m: DocModel)
    requires
        m.wf(),
    ensures
        forall|j: int| 0 <= j < m.block_ids().len() ==> #[trigger] m.order_of(m.block_ids()[j]) is Some,
        forall|i: int, j: int|
            0 <= i < j < m.block_ids().len() ==> m.order_of(#[trigger] m.block_ids()[i])->0 < m.order_of(
                #[trigger] m.block_ids()[j],
            )->0,
{
    lemma_outline(m);
    let o = m.orders;
    let os = m.outline();
    let ids = m.block_ids();
    lemma_ids_in_increasing(o, 0, order_end());
    lemma_blocks_in_order(m, os);
    assert forall|j: int| 0 <= j < ids.len() implies #[trigger] m.order_of(ids[j]) is Some by {
        assert(m.is_block(ids[j]));
        assert(m.elements.contains_key(ids[j]));
    }
    assert forall|i: int, j: int| 0 <= i < j < ids.len() implies m.order_of(#[trigger] ids[i])->0
        < m.order_of(#[trigger] ids[j])->0 by {
        assert(m.is_block(ids[i]) && m.is_block(ids[j]));
        assert(m.elements.contains_key(ids[i]) && m.elements.contains_key(ids[j]));
        let (a, b) = choose|a: int, b: int| 0 <= a < b < os.len() && os[a] == ids[i] && os[b] == ids[j];
        let k1 = m.order_of(ids[i])->0;
        let k2 = m.order_of(ids[j])->0;
        assert(o.contains_key(k1) && o[k1] == os[a]);
        assert(o.contains_key(k2) && o[k2] == os[b]);
    }
}

/// A new element with the next id, filed at `order` (see `filed_at`), keeps
/// the model well formed where its parent is 0 or an element; the blocks in
/// document order gain it where it is a block.
pub proof fn lemma_add_element(m: DocModel, m2: DocModel, order: usize, e: ElementView, parent: usize)
    requires
        m.wf(),
        m.counter < usize::MAX,
        parent == 0 || m.elements.contains_key(parent),
        e.uuid() == m.counter + 1,
        m2 == (DocModel {
            elements: m.elements.insert((m.counter + 1) as usize, e),
            orders: m.filed_at(order, (m.counter + 1) as usize),
            parents: m.parents.insert((m.counter + 1) as usize, parent),
            counter: (m.counter + 1) as usize,
        }),
    ensures
        m2.wf(),
        m.has_root() ==> m2.has_root(),
        m2.block_ids().len() == m.block_ids().len() + if e is Block { 1int } else { 0int },
{
    let id = (m.counter + 1) as usize;
    lemma_outline(m);
    assert forall|x: usize| x <= m.counter implies #[trigger] m2.is_block(x) == m.is_block(x) by {}
    if m.orders.contains_key(order) {
        let b = m.orders[order];
        assert(m.elements.contains_key(b));
        lemma_place_in_outline_at(m, m2, b, seq![id]);
        lemma_blocks_in_one(m2, id);
        assert forall|kk: usize| #[trigger] m2.orders.contains_key(kk) implies m2.elements.contains_key(
            m2.orders[kk],
        ) by {
            if !m.elements.contains_key(m2.orders[kk]) {
                assert(seq![id].contains(m2.orders[kk]));
                assert(seq![id][0] == id);
            }
        }
        assert forall|x: usize| #[trigger] m2.elements.contains_key(x) implies m2.is_filed(x) by {
            if x == id {
                assert(seq![id][0] == id);
                assert(seq![id].contains(x));
            }
        }
    } else {
        lemma_file_new(m, m2, order, id);
        assert forall|k1: usize, k2: usize|
            m2.orders.contains_key(k1) && m2.orders.contains_key(k2) && m2.orders[k1]
                == m2.orders[k2] implies k1 == k2 by {
            if k1 != order && k2 != order {
                assert(m.orders[k1] == m.orders[k2]);
            } else if k1 == order && k2 != order {
                assert(m.elements.contains_key(m.orders[k2]));
            } else if k2 == order && k1 != order {
                assert(m.elements.contains_key(m.orders[k1]));
            }
        }
        assert forall|x: usize| #[trigger] m2.elements.contains_key(x) implies m2.is_filed(x) by {
            if x == id {
                assert(m2.orders.contains_key(order) && m2.orders[order] == id);
            } else {
                assert(m.is_filed(x));
                let k = choose|k: usize| m.orders.contains_key(k) && m.orders[k] == x;
                assert(m2.orders.contains_key(k) && m2.orders[k] == x);
            }
        }
    }
    assert forall|i: usize| #[trigger] m2.elements.contains_key(i) implies m2.parents[i] == 0
        || (m2.parents[i] < i && m2.elements.contains_key(m2.parents[i])) by {
        if i != id {
            assert(m.elements.contains_key(i));
        }
    }
}

/// A new block with the next id keeps the model well formed where its
/// parent is 0 or an element, and is one block more in document order,
/// whether its sort order was free or taken.
pub proof fn lemma_add_block(m: DocModel, order: usize, parent: usize)
    requires
        m.wf(),
        m.counter < usize::MAX,
        parent == 0 || m.elements.contains_key(parent),
    ensures
        m.add_block(order, parent).wf(),
        m.add_block(order, parent).counter == m.counter + 1,
        m.has_root() ==> m.add_block(order, parent).has_root(),
        m.add_block(order, parent).block_ids().len() == m.block_ids().len() + 1,
{
    let id = (m.counter + 1) as usize;
    lemma_add_element(
        m,
        m.add_block(order, parent),
        order,
        ElementView::Block { uuid: id, text: Seq::empty() },
        parent,
    );
}

/// A new frame with its first block keeps the model well formed where its
/// parent is 0 or an element, and is one block more in document order,
/// whether its sort orders were free or taken.
pub proof fn lemma_add_frame(m: DocModel, order: usize, parent: usize)
    requires
        m.wf(),
        m.counter + 2 <= usize::MAX,
        parent == 0 || m.elements.contains_key(parent),
    ensures
        m.add_frame(order, parent).wf(),
        m.add_frame(order, parent).counter == m.counter + 2,
        m.has_root() ==> m.add_frame(order, parent).has_root(),
        m.add_frame(order, parent).block_ids().len() == m.block_ids().len() + 1,
{
    let id = (m.counter + 1) as usize;
    let mf = DocModel {
        elements: m.elements.insert(id, ElementView::Frame { uuid: id }),
        orders: m.filed_at((order + 1) as usize, id),
        parents: m.parents.insert(id, parent),
        counter: id,
    };
    lemma_add_element(m, mf, (order + 1) as usize, ElementView::Frame { uuid: id }, parent);
    lemma_add_block(mf, (order + 2) as usize, 0);
}

/// Replacing the text of a block keeps the outline and the ids and changes
/// that one text.
pub proof fn lemma_set_block_text(m: DocModel, k: int, t: Seq<char>)
    requires
        m.wf(),
        0 <= k < m.block_ids().len(),
    ensures
        m.set_block_text(m.block_ids()[k], t).wf(),
        m.set_block_text(m.block_ids()[k], t).outline() == m.outline(),
        m.set_block_text(m.block_ids()[k], t).block_ids() == m.block_ids(),
        m.set_block_text(m.block_ids()[k], t).texts() == m.texts().update(k, t),
        m.set_block_text(m.block_ids()[k], t).counter == m.counter,
        m.has_root() ==> m.set_block_text(m.block_ids()[k], t).has_root(),
        forall|id: usize| #[trigger]
            m.set_block_text(m.block_ids()[k], t).is_frame(id) == m.is_frame(id),
{
    let id = m.block_ids()[k];
    let m2 = m.set_block_text(id, t);
    lemma_outline(m);
    assert(m.is_block(id));
    assert forall|j: int| 0 <= j < m.outline().len() implies m2.is_block(
        #[trigger] m.outline()[j],
    ) == m.is_block(m.outline()[j]) by {}
    lemma_blocks_in_same(m2, m, m.outline());
    assert(m2.texts() =~= m.texts().update(k, t)) by {
        assert forall|j: int| 0 <= j < m.block_ids().len() && j != k implies m2.texts()[j]
            == m.texts()[j] by {
            assert(m.block_ids()[j] != id);
        }
    }
    assert forall|k1: usize, k2: usize|
        m2.orders.contains_key(k1) && m2.orders.contains_key(k2) && m2.orders[k1]
            == m2.orders[k2] implies k1 == k2 by {
        assert(m.orders[k1] == m.orders[k2]);
    }
}

/// Replacing the text of a block in document order keeps the model well
/// formed, its outline and its ids.
pub proof fn lemma_set_text_of_block(m: DocModel, id: usize, t: Seq<char>)
    requires
        m.wf(),
        m.block_ids().contains(id),
    ensures
        m.set_block_text(id, t).wf(),
        m.set_block_text(id, t).outline() == m.outline(),
        m.set_block_text(id, t).block_ids() == m.block_ids(),
        m.set_block_text(id, t).counter == m.counter,
        m.has_root() ==> m.set_block_text(id, t).has_root(),
{
    let k = choose|k: int| 0 <= k < m.block_ids().len() && m.block_ids()[k] == id;
    lemma_set_block_text(m, k, t);
}

/// The model of a cleared document: the root frame with id 1 under sort
/// order 1, and its first, empty, block with id 2 under sort order 2.
pub proof fn lemma_root()
    ensures
        DocModel::root().wf(),
        DocModel::root().has_root(),
        DocModel::root().counter == 2,
        DocModel::root().outline() == seq![1usize, 2usize],
        DocModel::root().block_ids() == seq![2usize],
        DocModel::root().texts() == seq![Seq::<char>::empty()],
{
    let r = DocModel::root();
    let e = DocModel::empty();
    assert(e.wf());
    lemma_add_frame(e, 0, 0);
    let f = DocModel {
        elements: e.elements.insert(1, ElementView::Frame { uuid: 1 }),
        orders: e.orders.insert(1, 1),
        parents: e.parents.insert(1, 0),
        counter: 1,
    };
    assert(!e.orders.contains_key(1));
    assert(r == f.add_block(2, 0));
    assert(!f.orders.contains_key(2));
    let s = seq![1usize, 2usize];
    assert(r.orders =~= renumbered(s));
    lemma_ids_in_renumbered(s, order_end());
    assert(r.outline() == s);
    assert(s =~= seq![1usize] + seq![2usize]);
    lemma_blocks_in_concat(r, seq![1usize], seq![2usize]);
    lemma_blocks_in_one(r, 1);
    lemma_blocks_in_one(r, 2);
    assert(r.block_ids() =~= seq![2usize]);
    assert(r.texts() =~= seq![Seq::<char>::empty()]);
}

/// Making sure a block exists keeps the model well formed; a block it adds
/// is the only block in document order.
pub proof fn lemma_ensure_block(m: DocModel)
    requires
        m.wf(),
        m.block_ids().len() == 0 ==> m.counter < usize::MAX,
    ensures
        m.ensure_block().wf(),
        m.ensure_block().block_ids().len() > 0,
        m.has_root() ==> m.ensure_block().has_root(),
        m.ensure_block().counter == m.counter + m.ids_for_fallback(),
        m.block_ids().len() == 0 ==> m.ensure_block().texts() == seq![Seq::<char>::empty()],
        m.block_ids().len() == 0 ==> m.ensure_block().block_ids() == seq![(m.counter + 1) as usize],
        forall|p: int|
            0 <= #[trigger] m.ensure_block().reference_index(p)
                < m.ensure_block().block_ids().len(),
        forall|id: usize| #[trigger] m.ensure_block().is_frame(id) == m.is_frame(id),
{
    let e = m.ensure_block();
    if m.block_ids().len() == 0 {
        lemma_add_block(m, FALLBACK_BLOCK_ORDER, 0);
        lemma_outline(e);
        let c = (m.counter + 1) as usize;
        assert(e.is_block(c));
        assert(e.block_ids().contains(c));
        assert(e.block_ids()[0] == c);
        assert(e.block_ids() =~= seq![c]);
        assert(e.texts() =~= seq![Seq::<char>::empty()]);
    }
    assert forall|p: int| 0 <= #[trigger] e.reference_index(p) < e.block_ids().len() by {
        match found_index(e.texts(), p) {
            Some(k) => {
                assert(first_holder(e.texts(), p, k));
            },
            None => {},
        }
    }
}

/// An element has at most as many ancestors as its id.
pub proof fn lemma_ancestor_count(m: DocModel, id: usize)
    requires
        m.wf(),
        m.elements.contains_key(id),
    ensures
        1 <= m.ancestor_count(id) <= id,
    decreases id,
{
    if m.parents[id] != 0 {
        lemma_ancestor_count(m, m.parents[id]);
    }
}

/// The outline after placing `x` right after the filed element `b`: filed in
/// that order, each once, every element of the model and of `x` filed, and
/// the blocks of `x` in document order between those before `b` (with `b`)
/// and those after it.
pub proof fn lemma_place_in_outline_at(m: DocModel, m2: DocModel, b: usize, x: Seq<usize>)
    requires
        m.wf(),
        m.outline().contains(b),
        m2.orders == renumbered(place_after(m.outline(), b, x)),
        forall|j: int| 0 <= j < x.len() ==> #[trigger] x[j] > m.counter,
        x.no_duplicates(),
        m.outline().len() + x.len() <= usize::MAX,
        forall|id: usize| id <= m.counter ==> #[trigger] m2.is_block(id) == m.is_block(id),
    ensures
        ({
            let os = m.outline();
            let i = choose|i: int| 0 <= i < os.len() && os[i] == b;
            &&& 0 <= i < os.len()
            &&& m2.outline() == os.take(i + 1) + x + os.skip(i + 1)
            &&& m.block_ids() == m.blocks_in(os.take(i + 1)) + m.blocks_in(os.skip(i + 1))
            &&& m2.block_ids() == m.blocks_in(os.take(i + 1)) + m2.blocks_in(x) + m.blocks_in(
                os.skip(i + 1),
            )
        }),
        m2.outline().no_duplicates(),
        forall|j: int|
            0 <= j < m2.outline().len() ==> (m.elements.contains_key(#[trigger] m2.outline()[j])
                || x.contains(m2.outline()[j])),
        forall|k1: usize, k2: usize|
            #![trigger m2.orders[k1], m2.orders[k2]]
            m2.orders.contains_key(k1) && m2.orders.contains_key(k2) && m2.orders[k1]
                == m2.orders[k2] ==> k1 == k2,
        forall|kk: usize| #[trigger]
            m2.orders.contains_key(kk) ==> (m.elements.contains_key(m2.orders[kk]) || x.contains(
                m2.orders[kk],
            )),
        forall|id: usize|
            (m.elements.contains_key(id) || x.contains(id)) ==> #[trigger] m2.is_filed(id),
{
    lemma_outline(m);
    let os = m.outline();
    let i = choose|i: int| 0 <= i < os.len() && os[i] == b;
    lemma_place_after(os, b, x, i);
    let pre = os.take(i + 1);
    let post = os.skip(i + 1);
    let ns = pre + x + post;
    assert forall|a: int, c: int| 0 <= a < c < ns.len() implies ns[a] != ns[c] by {
        if a < pre.len() && c < pre.len() {
            assert(os[a] != os[c]);
        } else if a < pre.len() && c < pre.len() + x.len() {
            assert(m.elements.contains_key(os[a]));
            assert(x[c - pre.len()] > m.counter);
        } else if a < pre.len() {
            assert(os[a] != os[c - x.len()]);
        } else if a < pre.len() + x.len() && c < pre.len() + x.len() {
            assert(x[a - pre.len()] != x[c - pre.len()]);
        } else if a < pre.len() + x.len() {
            assert(m.elements.contains_key(os[c - x.len()]));
            assert(x[a - pre.len()] > m.counter);
        } else {
            assert(os[a - x.len()] != os[c - x.len()]);
        }
    }
    assert forall|j: int| 0 <= j < ns.len() implies (m.elements.contains_key(#[trigger] ns[j])
        || x.contains(ns[j])) by {
        if j < pre.len() {
            assert(ns[j] == os[j]);
        } else if j < pre.len() + x.len() {
            assert(x[j - pre.len()] == ns[j]);
        } else {
            assert(ns[j] == os[j - x.len()]);
        }
    }
    lemma_ids_in_renumbered(ns, order_end());
    lemma_renumbered_injective(ns);
    assert forall|id: usize| (m.elements.contains_key(id) || x.contains(id)) implies #[trigger] m2.is_filed(
        id,
    ) by {
        let j = if m.elements.contains_key(id) {
            let w = choose|w: int| 0 <= w < os.len() && os[w] == id;
            if w <= i {
                w
            } else {
                w + x.len()
            }
        } else {
            let v = choose|v: int| 0 <= v < x.len() && x[v] == id;
            pre.len() + v
        };
        assert(ns[j] == id);
        assert(m2.orders.contains_key((j + 1) as usize) && m2.orders[(j + 1) as usize] == id);
    }
    // blocks
    assert(os =~= pre + post);
    lemma_blocks_in_concat(m, pre, post);
    assert forall|j: int| 0 <= j < pre.len() implies m2.is_block(#[trigger] pre[j]) == m.is_block(
        pre[j],
    ) by {
        assert(m.elements.contains_key(os[j]));
    }
    assert forall|j: int| 0 <= j < post.len() implies m2.is_block(#[trigger] post[j])
        == m.is_block(post[j]) by {
        assert(post[j] == os[i + 1 + j]);
        assert(m.elements.contains_key(os[i + 1 + j]));
    }
    lemma_blocks_in_same(m2, m, pre);
    lemma_blocks_in_same(m2, m, post);
    lemma_blocks_in_concat(m2, pre + x, post);
    lemma_blocks_in_concat(m2, pre, x);
}

/// The outline after placing `x` right after block `b` (at index `k` of the
/// blocks in document order): filed in that order, and the blocks in
/// document order are the old ones with the blocks of `x` right after `b`,
/// at index `k + 1`.
pub proof fn lemma_place_in_outline(m: DocModel, m2: DocModel, k: int, x: Seq<usize>)
    requires
        m.wf(),
        0 <= k < m.block_ids().len(),
        m2.orders == renumbered(place_after(m.outline(), m.block_ids()[k], x)),
        forall|j: int| 0 <= j < x.len() ==> #[trigger] x[j] > m.counter,
        x.no_duplicates(),
        m.outline().len() + x.len() <= usize::MAX,
        forall|id: usize| id <= m.counter ==> #[trigger] m2.is_block(id) == m.is_block(id),
    ensures
        ({
            let b = m.block_ids()[k];
            let i = choose|i: int| 0 <= i < m.outline().len() && m.outline()[i] == b;
            &&& 0 <= i < m.outline().len()
            &&& m2.outline() == m.outline().take(i + 1) + x + m.outline().skip(i + 1)
        }),
        m2.outline().no_duplicates(),
        forall|j: int|
            0 <= j < m2.outline().len() ==> (m.elements.contains_key(#[trigger] m2.outline()[j])
                || x.contains(m2.outline()[j])),
        m2.block_ids() == m.block_ids().take(k + 1) + m2.blocks_in(x) + m.block_ids().skip(k + 1),
        forall|k1: usize, k2: usize|
            #![trigger m2.orders[k1], m2.orders[k2]]
            m2.orders.contains_key(k1) && m2.orders.contains_key(k2) && m2.orders[k1]
                == m2.orders[k2] ==> k1 == k2,
        forall|kk: usize| #[trigger]
            m2.orders.contains_key(kk) ==> (m.elements.contains_key(m2.orders[kk]) || x.contains(
                m2.orders[kk],
            )),
        forall|id: usize|
            (m.elements.contains_key(id) || x.contains(id)) ==> #[trigger] m2.is_filed(id),
{
    lemma_outline(m);
    let ids = m.block_ids();
    let b = ids[k];
    let os = m.outline();
    assert(os.contains(b));
    lemma_place_in_outline_at(m, m2, b, x);
    let i = choose|i: int| 0 <= i < os.len() && os[i] == b;
    let pre = os.take(i + 1);
    let post = os.skip(i + 1);
    let pre0 = os.take(i);
    assert(pre.drop_last() =~= pre0);
    assert(pre.last() == b);
    let xb = m.blocks_in(pre0);
    assert(m.blocks_in(pre) == xb.push(b));
    let yb = m.blocks_in(post);
    assert(ids == xb.push(b) + yb);
    assert(ids[xb.len() as int] == b);
    lemma_blocks_in_members(m, os);
    assert(xb.len() == k);
    assert(ids.take(k + 1) =~= xb.push(b));
    assert(ids.skip(k + 1) =~= yb);
}

/// Splitting the block that holds `p`: the new block comes right after it in
/// document order with the text after the offset, the split block keeps the
/// text before it, and no frame appears or goes.
pub proof fn lemma_insert_block_at(m: DocModel, p: int)
    requires
        m.wf(),
        m.has_root(),
        m.block_ids().len() > 0,
        m.counter < usize::MAX,
    ensures
        ({
            let k = m.reference_index(p);
            let t = m.texts()[k];
            let off = m.reference_offset(p);
            let r = m.insert_block_at(p);
            &&& 0 <= k < m.block_ids().len()
            &&& 0 <= off <= t.len()
            &&& r.wf()
            &&& r.has_root()
            &&& r.counter == m.counter + 1
            &&& r.block_ids() == m.block_ids().insert(k + 1, (m.counter + 1) as usize)
            &&& r.texts() == m.texts().update(k, t.subrange(0, off)).insert(
                k + 1,
                t.subrange(off, t.len() as int),
            )
        }),
        forall|id: usize| #[trigger] m.insert_block_at(p).is_frame(id) == m.is_frame(id),
{
    lemma_ensure_block(m);
    lemma_outline(m);
    assert(m.ensure_block() == m);
    let k = m.reference_index(p);
    let ids = m.block_ids();
    let b = ids[k];
    let t = m.texts()[k];
    let off = m.reference_offset(p);
    let c = (m.counter + 1) as usize;
    let r = m.insert_block_at(p);
    assert(m.is_block(b));
    assert forall|id: usize| id <= m.counter implies #[trigger] r.is_block(id) == m.is_block(id) by {}
    lemma_place_in_outline(m, r, k, seq![c]);
    lemma_blocks_in_one(r, c);
    assert(r.block_ids() =~= ids.insert(k + 1, c));
    // well-formedness
    assert forall|id: usize| #[trigger] r.elements.contains_key(id) implies r.parents[id] == 0 || (
    r.parents[id] < id && r.elements.contains_key(r.parents[id])) by {
        if id != c {
            assert(m.elements.contains_key(id));
        } else {
            assert(m.elements.contains_key(m.parent_for_new(b)));
        }
    }
    assert forall|kk: usize| #[trigger] r.orders.contains_key(kk) implies r.elements.contains_key(
        r.orders[kk],
    ) by {
        if !m.elements.contains_key(r.orders[kk]) {
            assert(seq![c].contains(r.orders[kk]));
            assert(seq![c][0] == c);
        }
    }
    assert forall|id: usize| #[trigger] r.elements.contains_key(id) implies r.is_filed(id) by {
        if id == c {
            assert(seq![c][0] == c);
            assert(seq![c].contains(c));
        }
    }
    assert(r.wf());
    // texts
    let t1 = t.subrange(0, off);
    let t2 = t.subrange(off, t.len() as int);
    assert(r.texts() =~= m.texts().update(k, t1).insert(k + 1, t2)) by {
        assert forall|j: int| 0 <= j < r.block_ids().len() implies r.texts()[j] == m.texts().update(
            k,
            t1,
        ).insert(k + 1, t2)[j] by {
            if j < k {
                assert(r.block_ids()[j] == ids[j]);
                assert(ids[j] != b);
            } else if j > k + 1 {
                assert(r.block_ids()[j] == ids[j - 1]);
                assert(ids[j - 1] != b);
            }
        }
    }
}

/// A frame placed at `p`: its first block comes right after the reference
/// block in document order, empty; the frame is filed right after the
/// reference block with the reference block's frame (else the root) as parent.
pub proof fn lemma_insert_frame_at(m: DocModel, p: int)
    requires
        m.wf(),
        m.has_root(),
        m.block_ids().len() > 0,
        m.counter + 2 <= usize::MAX,
    ensures
        ({
            let k = m.reference_index(p);
            let b = m.block_ids()[k];
            let f = (m.counter + 1) as usize;
            let r = m.insert_frame_at(p);
            &&& 0 <= k < m.block_ids().len()
            &&& r.wf()
            &&& r.has_root()
            &&& r.counter == m.counter + 2
            &&& r.block_ids() == m.block_ids().insert(k + 1, (m.counter + 2) as usize)
            &&& r.texts() == m.texts().insert(k + 1, Seq::<char>::empty())
            &&& r.is_frame(f)
            &&& r.parents[f] == m.parent_for_new(b)
            &&& exists|i: int|
                0 <= i < r.outline().len() - 1 && #[trigger] r.outline()[i] == b && r.outline()[i
                    + 1] == f
        }),
{
    lemma_ensure_block(m);
    lemma_outline(m);
    assert(m.ensure_block() == m);
    let k = m.reference_index(p);
    let ids = m.block_ids();
    let b = ids[k];
    let f = (m.counter + 1) as usize;
    let fb = (m.counter + 2) as usize;
    let x = seq![f, fb];
    let r = m.insert_frame_at(p);
    assert(m.is_block(b));
    assert forall|id: usize| id <= m.counter implies #[trigger] r.is_block(id) == m.is_block(id) by {}
    lemma_place_in_outline(m, r, k, x);
    assert(x =~= seq![f] + seq![fb]);
    lemma_blocks_in_concat(r, seq![f], seq![fb]);
    lemma_blocks_in_one(r, f);
    lemma_blocks_in_one(r, fb);
    assert(r.block_ids() =~= ids.insert(k + 1, fb));
    let os = m.outline();
    let i = choose|i: int| 0 <= i < os.len() && os[i] == b;
    assert(r.outline()[i] == b && r.outline()[i + 1] == f);
    assert forall|id: usize| #[trigger] r.elements.contains_key(id) implies r.parents[id] == 0 || (
    r.parents[id] < id && r.elements.contains_key(r.parents[id])) by {
        if id != f && id != fb {
            assert(m.elements.contains_key(id));
        } else if id == f {
            assert(m.elements.contains_key(m.parent_for_new(b)));
        }
    }
    assert forall|kk: usize| #[trigger] r.orders.contains_key(kk) implies r.elements.contains_key(
        r.orders[kk],
    ) by {
        if !m.elements.contains_key(r.orders[kk]) {
            assert(x.contains(r.orders[kk]));
        }
    }
    assert forall|id: usize| #[trigger] r.elements.contains_key(id) implies r.is_filed(id) by {
        if id == f {
            assert(x[0] == f);
            assert(x.contains(f));
        } else if id == fb {
            assert(x[1] == fb);
            assert(x.contains(fb));
        }
    }
    assert(r.wf());
    assert(r.texts() =~= m.texts().insert(k + 1, Seq::<char>::empty())) by {
        assert forall|j: int| 0 <= j < r.block_ids().len() implies r.texts()[j] == m.texts().insert(
            k + 1,
            Seq::<char>::empty(),
        )[j] by {
            if j < k + 1 {
                assert(r.block_ids()[j] == ids[j]);
            } else if j > k + 1 {
                assert(r.block_ids()[j] == ids[j - 1]);
            }
        }
    }
}

/// Removing between two positions keeps the model well formed and its ids.
pub proof fn lemma_remove_between(m: DocModel, left: int, right: int)
    requires
        m.wf(),
    ensures
        m.remove_between(left, right).wf(),
        m.remove_between(left, right).block_ids() == m.block_ids(),
        m.remove_between(left, right).counter == m.counter,
        m.has_root() ==> m.remove_between(left, right).has_root(),
        forall|id: usize| #[trigger] m.remove_between(left, right).is_frame(id) == m.is_frame(id),
{
    if m.removes(left, right) {
        let k = found_index(m.texts(), left)->0;
        assert(first_holder(m.texts(), left, k));
        let t = m.texts()[k];
        let s = crate::model::start_of(m.texts(), k);
        lemma_set_block_text(m, k, t.subrange(0, left - s) + t.subrange(right - s, t.len() as int));
    }
}

/// Filing a new element under a sort order that was free: the outline gains
/// the element at that place, and the blocks in document order gain it where
/// it is a block.
pub proof fn lemma_file_new(m: DocModel, m2: DocModel, order: usize, id: usize)
    requires
        m.wf(),
        !m.orders.contains_key(order),
        m2.orders == m.orders.insert(order, id),
        id > m.counter,
        forall|x: usize| x <= m.counter ==> #[trigger] m2.is_block(x) == m.is_block(x),
    ensures
        m2.block_ids().len() == m.block_ids().len() + if m2.is_block(id) { 1int } else { 0int },
        m2.outline().len() == m.outline().len() + 1,
{
    lemma_outline(m);
    let f = order as int;
    let o = m.orders;
    let o2 = m2.orders;
    lemma_ids_in_split(o, 0, f, order_end());
    lemma_ids_in_split(o, f, f + 1, order_end());
    lemma_ids_in_split(o2, 0, f, order_end());
    lemma_ids_in_split(o2, f, f + 1, order_end());
    lemma_ids_in_agree(o, o2, 0, f);
    lemma_ids_in_agree(o, o2, f + 1, order_end());
    lemma_ids_in_one(o, order);
    lemma_ids_in_one(o2, order);
    let a = ids_in(o, 0, f);
    let z = ids_in(o, f + 1, order_end());
    assert(m.outline() =~= a + z);
    assert(m2.outline() == a + (seq![id] + z));
    assert forall|j: int| 0 <= j < a.len() implies m2.is_block(#[trigger] a[j]) == m.is_block(a[j]) by {
        assert(m.outline()[j] == a[j]);
        assert(m.elements.contains_key(a[j]));
    }
    assert forall|j: int| 0 <= j < z.len() implies m2.is_block(#[trigger] z[j]) == m.is_block(z[j]) by {
        assert(m.outline()[a.len() + j] == z[j]);
        assert(m.elements.contains_key(z[j]));
    }
    lemma_blocks_in_same(m2, m, a);
    lemma_blocks_in_same(m2, m, z);
    lemma_blocks_in_concat(m, a, z);
    lemma_blocks_in_concat(m2, a, seq![id] + z);
    lemma_blocks_in_concat(m2, seq![id], z);
    lemma_blocks_in_one(m2, id);
}

/// The parent `n` steps up from `id` (0 once the top is passed).
pub open spec fn ancestor_at(m: DocModel, id: usize, n: nat) -> usize
    decreases n,
{
    if n == 0 {
        id
    } else {
        let up = ancestor_at(m, id, (n - 1) as nat);
        if up == 0 {
            0
        } else {
            m.parents[up]
        }
    }
}

/// The number of ancestors is the least number of steps up the chain of
/// parents that reaches the null id 0.
pub proof fn lemma_ancestor_chain(m: DocModel, id: usize)
    requires
        m.wf(),
        m.elements.contains_key(id),
    ensures
        m.ancestor_count(id) >= 1,
        ancestor_at(m, id, m.ancestor_count(id) as nat) == 0,
        forall|j: nat| 1 <= j < m.ancestor_count(id) ==> #[trigger] ancestor_at(m, id, j) != 0,
    decreases id,
{
    let p = m.parents[id];
    lemma_ancestor_count(m, id);
    if p == 0 {
        assert(ancestor_at(m, id, 1) == 0) by {
            assert(ancestor_at(m, id, 0) == id);
        }
    } else {
        lemma_ancestor_chain(m, p);
        let c = m.ancestor_count(p);
        assert forall|j: nat| j <= c implies #[trigger] ancestor_at(m, id, j + 1) == ancestor_at(
            m,
            p,
            j,
        ) by {
            lemma_ancestor_shift(m, id, j);
        }
        assert(ancestor_at(m, id, (c + 1) as nat) == ancestor_at(m, p, c as nat));
        assert forall|j: nat| 1 <= j < m.ancestor_count(id) implies #[trigger] ancestor_at(
            m,
            id,
            j,
        ) != 0 by {
            if j == 1 {
                assert(ancestor_at(m, id, 0) == id);
            } else {
                assert(ancestor_at(m, id, ((j - 1) as nat) + 1) == ancestor_at(m, p, (j - 1) as nat));
            }
        }
    }
}

/// Each step up from an element, before the top is passed, reaches an
/// element with a smaller id than every step before it.
pub proof fn lemma_ancestor_steps(m: DocModel, id: usize, j: nat)
    requires
        m.wf(),
        m.elements.contains_key(id),
        j < m.ancestor_count(id),
    ensures
        m.elements.contains_key(ancestor_at(m, id, j)),
        forall|i: nat| i < j ==> ancestor_at(m, id, j) < #[trigger] ancestor_at(m, id, i),
    decreases j,
{
    lemma_ancestor_chain(m, id);
    if j > 0 {
        let pj = (j - 1) as nat;
        lemma_ancestor_steps(m, id, pj);
        let up = ancestor_at(m, id, pj);
        assert(up != 0);
        assert(ancestor_at(m, id, j) == m.parents[up]);
        assert(ancestor_at(m, id, j) != 0);
    }
}

/// An element has at most as many ancestors as there are parent entries:
/// the chain of parents visits each element at most once.
pub proof fn lemma_ancestor_count_bounded(m: DocModel, id: usize)
    requires
        m.wf(),
        m.elements.contains_key(id),
        m.parents.dom().finite(),
    ensures
        m.ancestor_count(id) <= m.parents.dom().len(),
{
    lemma_ancestor_count(m, id);
    let n = m.ancestor_count(id);
    let s = Seq::new(n as nat, |j: int| ancestor_at(m, id, j as nat));
    assert forall|j: int| 0 <= j < n implies m.elements.contains_key(#[trigger] s[j]) by {
        lemma_ancestor_steps(m, id, j as nat);
    }
    assert forall|a: int, b: int| 0 <= a < b < s.len() implies s[a] != s[b] by {
        lemma_ancestor_steps(m, id, b as nat);
        assert(ancestor_at(m, id, b as nat) < ancestor_at(m, id, a as nat));
    }
    s.unique_seq_to_set();
    assert forall|x: usize| s.to_set().contains(x) implies m.parents.dom().contains(x) by {
        let j = choose|j: int| 0 <= j < s.len() && s[j] == x;
        assert(m.elements.contains_key(s[j]));
    }
    vstd::set_lib::lemma_len_subset(s.to_set(), m.parents.dom());
}

/// One step up and then `j` steps is `j + 1` steps up.
proof fn lemma_ancestor_shift(m: DocModel, id: usize, j: nat)
    requires
        id != 0,
    ensures
        ancestor_at(m, id, j + 1) == ancestor_at(m, m.parents[id], j),
    decreases j,
{
    if j > 0 {
        lemma_ancestor_shift(m, id, (j - 1) as nat);
    } else {
        assert(ancestor_at(m, id, 0) == id);
    }
}

} // verus!
