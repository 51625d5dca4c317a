use vstd::prelude::*;

use crate::element::DocModel;
use crate::lemmas::{
    lemma_ensure_block, lemma_insert_block_at, lemma_outline, lemma_remove_between, lemma_root,
    lemma_set_block_text,
};
use crate::lines::{
    lemma_held, lemma_join_len_total, lemma_join_split, lemma_join_split_block,
    lemma_held_within, lemma_join_len, lemma_join_take_step, lemma_join_update, lemma_past_end,
    lemma_split_lines_len, lemma_split_total, lemma_start_of_nonneg,
};
use crate::model::{
    count_line_feeds, cut_text, first_holder, found_index, join_lines, put_text, split_lines,
    start_of, total_chars,
};

verus! {

/// Replacing one text changes the character total by the difference in length.
pub proof fn lemma_total_chars_update(ts: Seq<Seq<char>>, k: int, t: Seq<char>)
    requires
        0 <= k < ts.len(),
    ensures
        total_chars(ts.update(k, t)) == total_chars(ts) - ts[k].len() + t.len(),
    decreases ts.len(),
{
    let u = ts.update(k, t);
    if k == ts.len() - 1 {
        assert(u.drop_last() =~= ts.drop_last());
    } else {
        lemma_total_chars_update(ts.drop_last(), k, t);
        assert(u.drop_last() =~= ts.drop_last().update(k, t));
    }
}

/// Splitting the document at any position from its start to its end puts one
/// line feed into the plain text at that position and nothing else; it adds
/// one block and no frame.
pub proof fn lemma_split_at(m: DocModel, p: int)
    requires
        m.wf(),
        m.has_root(),
        m.block_ids().len() > 0,
        m.counter < usize::MAX,
        0 <= p <= m.plain_text().len(),
    ensures
        m.insert_block_at(p).plain_text() == m.plain_text().subrange(0, p) + seq!['\n']
            + m.plain_text().subrange(p, m.plain_text().len() as int),
        m.insert_block_at(p).block_ids().len() == m.block_ids().len() + 1,
        forall|id: usize| #[trigger] m.insert_block_at(p).is_frame(id) == m.is_frame(id),
{
    let ts = m.texts();
    let j = m.plain_text();
    lemma_held(ts, p);
    lemma_insert_block_at(m, p);
    assert(m.ensure_block() == m);
    let k = found_index(ts, p)->0;
    assert(m.reference_index(p) == k);
    let t = ts[k];
    let s = start_of(ts, k);
    lemma_start_of_nonneg(ts, k);
    let off = m.reference_offset(p);
    assert(off == p - s);
    lemma_join_split_block(ts, k, t.subrange(0, off), t.subrange(off, t.len() as int));
    lemma_join_update(ts, k, t);
    assert(ts.update(k, t) =~= ts);
    assert(j.subrange(0, p) =~= j.subrange(0, s) + t.subrange(0, off));
    assert(j.subrange(p, j.len() as int) =~= t.subrange(off, t.len() as int) + j.subrange(
        s + t.len(),
        j.len() as int,
    ));
    assert(m.insert_block_at(p).plain_text() =~= j.subrange(0, p) + seq!['\n'] + j.subrange(
        p,
        j.len() as int,
    ));
}

/// A position past the end of the document is taken, for an edit, to the end
/// of the last block: the same block, at the same offset, as the end itself.
pub proof fn lemma_split_past_end(m: DocModel, p: int)
    requires
        m.wf(),
        m.block_ids().len() > 0,
        p >= m.plain_text().len(),
    ensures
        m.reference_index(p) == m.block_ids().len() - 1,
        m.reference_offset(p) == m.texts().last().len(),
        m.insert_block_at(p) == m.insert_block_at(m.plain_text().len() as int),
{
    let ts = m.texts();
    let n = ts.len() - 1;
    let l = m.plain_text().len() as int;
    lemma_past_end(ts, p);
    lemma_past_end(ts, l);
    lemma_join_len(ts);
    assert(m.reference_index(l) == n);
    assert(m.reference_offset(l) == ts[n].len());
}

/// Each further line goes after a split at the running position, at the start
/// of the new block: the lines from `i` on appear in the plain text where the
/// running position stands, with a line feed before each.
pub proof fn lemma_insert_lines(
    m: DocModel,
    lines: Seq<Seq<char>>,
    i: int,
    np: int,
    pre: Seq<char>,
    post: Seq<char>,
)
    requires
        m.wf(),
        m.has_root(),
        m.block_ids().len() > 0,
        1 <= i <= lines.len(),
        m.counter + (lines.len() - i) <= usize::MAX,
        m.plain_text() == pre + join_lines(lines.take(i)) + post,
        np >= pre.len() + join_lines(lines.take(i)).len(),
        np > pre.len() + join_lines(lines.take(i)).len() ==> post.len() == 0,
    ensures
        m.insert_lines(lines, i, np).wf(),
        m.insert_lines(lines, i, np).has_root(),
        m.insert_lines(lines, i, np).plain_text() == pre + join_lines(lines) + post,
        m.insert_lines(lines, i, np).block_ids().len() == m.block_ids().len() + (lines.len() - i),
        m.insert_lines(lines, i, np).counter == m.counter + (lines.len() - i),
        forall|id: usize| #[trigger] m.insert_lines(lines, i, np).is_frame(id) == m.is_frame(id),
    decreases lines.len() - i,
{
    if i < lines.len() {
        let ts = m.texts();
        let j = m.plain_text();
        let act = (pre.len() + join_lines(lines.take(i)).len()) as int;
        if np > act {
            lemma_split_past_end(m, np);
            lemma_split_past_end(m, act);
        }
        assert(m.insert_block_at(np) == m.insert_block_at(act));
        lemma_held(ts, act);
        lemma_insert_block_at(m, act);
        assert(m.ensure_block() == m);
        let k = found_index(ts, act)->0;
        assert(m.reference_index(act) == k);
        let t = ts[k];
        let s = start_of(ts, k);
        lemma_start_of_nonneg(ts, k);
        let off = m.reference_offset(act);
        assert(off == act - s);
        let m1 = m.insert_block_at(act);
        let c = m1.counter;
        let tail = t.subrange(off, t.len() as int);
        assert(m1.block_ids()[k + 1] == c);
        assert(m1.elements[c].text() == tail);
        let line = lines[i] + tail;
        lemma_set_block_text(m1, k + 1, line);
        let m2 = m1.set_block_text(c, line);
        let head = t.subrange(0, off);
        assert(m2.texts() =~= ts.update(k, head).insert(k + 1, line));
        lemma_join_split_block(ts, k, head, line);
        lemma_join_update(ts, k, t);
        assert(ts.update(k, t) =~= ts);
        lemma_join_take_step(lines, i);
        assert(j.subrange(0, act) =~= j.subrange(0, s) + head);
        assert(j.subrange(act, j.len() as int) =~= tail + j.subrange(s + t.len(), j.len() as int));
        assert(j.subrange(0, act) =~= pre + join_lines(lines.take(i)));
        assert(j.subrange(act, j.len() as int) =~= post);
        assert(m2.plain_text() =~= pre + join_lines(lines.take(i + 1)) + post);
        lemma_insert_lines(m2, lines, i + 1, np + 1 + lines[i].len(), pre, post);
    } else {
        assert(lines.take(i) =~= lines);
    }
}

/// Each further line after a split: one block and one id more per line, and
/// no frame added or taken away, wherever the running position stands.
pub proof fn lemma_insert_lines_count(m: DocModel, lines: Seq<Seq<char>>, i: int, np: int)
    requires
        m.wf(),
        m.has_root(),
        m.block_ids().len() > 0,
        1 <= i <= lines.len(),
        m.counter + (lines.len() - i) <= usize::MAX,
    ensures
        m.insert_lines(lines, i, np).wf(),
        m.insert_lines(lines, i, np).has_root(),
        m.insert_lines(lines, i, np).block_ids().len() == m.block_ids().len() + (lines.len() - i),
        m.insert_lines(lines, i, np).counter == m.counter + (lines.len() - i),
        forall|id: usize| #[trigger] m.insert_lines(lines, i, np).is_frame(id) == m.is_frame(id),
    decreases lines.len() - i,
{
    if i < lines.len() {
        lemma_insert_block_at(m, np);
        assert(m.ensure_block() == m);
        let k = m.reference_index(np);
        let m1 = m.insert_block_at(np);
        let c = m1.counter;
        assert(m1.block_ids()[k + 1] == c);
        let line = lines[i] + m1.elements[c].text();
        lemma_set_block_text(m1, k + 1, line);
        let m2 = m1.set_block_text(c, line);
        lemma_insert_lines_count(m2, lines, i + 1, np + 1 + lines[i].len());
    }
}

/// Inserting text at any position, with any selection: the document gains one
/// block and one id per line feed of the text (and the block it makes first
/// where it had none), and no frame is added or taken away.
pub proof fn lemma_insert_counts(m: DocModel, text: Seq<char>, p: int, a: int)
    requires
        m.wf(),
        m.has_root(),
        m.counter + m.ids_for_fallback() + count_line_feeds(text) <= usize::MAX,
    ensures
        m.insert_plain_text(text, p, a).wf(),
        m.insert_plain_text(text, p, a).has_root(),
        m.insert_plain_text(text, p, a).block_ids().len() == m.block_ids().len()
            + m.ids_for_fallback() + count_line_feeds(text),
        m.insert_plain_text(text, p, a).counter == m.counter + m.ids_for_fallback()
            + count_line_feeds(text),
        forall|id: usize| #[trigger] m.insert_plain_text(text, p, a).is_frame(id) == m.is_frame(id),
{
    let left = if p <= a { p } else { a };
    let right = if p <= a { a } else { p };
    lemma_remove_between(m, left, right);
    let m0 = if left != right { m.remove_between(left, right) } else { m };
    assert(m0.ids_for_fallback() == m.ids_for_fallback());
    let lines = split_lines(text);
    lemma_split_lines_len(text);
    lemma_ensure_block(m0);
    let e = m0.ensure_block();
    let k = e.reference_index(p);
    let t = e.texts()[k];
    let off = e.reference_offset(p);
    let t1 = t.subrange(0, off) + lines[0] + t.subrange(off, t.len() as int);
    lemma_set_block_text(e, k, t1);
    let m1 = e.set_block_text(e.block_ids()[k], t1);
    assert(m.insert_plain_text(text, p, a) == m1.insert_lines(lines, 1, p + lines[0].len()));
    lemma_insert_lines_count(m1, lines, 1, p + lines[0].len());
}

/// Typing any text at any position, with nothing selected, puts the text
/// into the plain text at that position (at its end where the position lies
/// past it) and changes nothing else of it; the document gains one block per
/// line feed of the text, one id per new block, and no frame.
#[verifier::spinoff_prover]
#[verifier::rlimit(40)]
pub proof fn lemma_insert_text(m: DocModel, text: Seq<char>, p: int)
    requires
        m.wf(),
        m.has_root(),
        0 <= p,
        m.counter + m.ids_for_fallback() + count_line_feeds(text) <= usize::MAX,
    ensures
        m.insert_plain_text(text, p, p).plain_text() == put_text(m.plain_text(), text, p),
        m.insert_plain_text(text, p, p).wf(),
        m.insert_plain_text(text, p, p).has_root(),
        m.insert_plain_text(text, p, p).block_ids().len() == m.block_ids().len()
            + m.ids_for_fallback() + count_line_feeds(text),
        m.insert_plain_text(text, p, p).counter == m.counter + m.ids_for_fallback()
            + count_line_feeds(text),
        forall|id: usize| #[trigger] m.insert_plain_text(text, p, p).is_frame(id) == m.is_frame(id),
{
    let lines = split_lines(text);
    lemma_split_lines_len(text);
    lemma_join_split(text);
    lemma_ensure_block(m);
    let e = m.ensure_block();
    let tm = m.plain_text();
    if m.block_ids().len() == 0 {
        assert(m.texts() =~= Seq::<Seq<char>>::empty());
        assert(e.plain_text() == Seq::<char>::empty());
    }
    assert(e.plain_text() == tm);
    let ts = e.texts();
    let q = if p <= tm.len() { p } else { tm.len() as int };
    lemma_held(ts, q);
    if p > q {
        lemma_split_past_end(e, p);
        lemma_split_past_end(e, q);
    }
    let k = found_index(ts, q)->0;
    assert(e.reference_index(q) == k);
    assert(e.reference_index(p) == k);
    let t = ts[k];
    let s = start_of(ts, k);
    lemma_start_of_nonneg(ts, k);
    let off = e.reference_offset(p);
    assert(off == e.reference_offset(q));
    assert(off == q - s);
    let t1 = t.subrange(0, off) + lines[0] + t.subrange(off, t.len() as int);
    lemma_outline(e);
    lemma_set_block_text(e, k, t1);
    lemma_join_update(ts, k, t1);
    lemma_join_update(ts, k, t);
    assert(ts.update(k, t) =~= ts);
    let m1 = e.set_block_text(e.block_ids()[k], t1);
    let pre = tm.subrange(0, q);
    let post = tm.subrange(q, tm.len() as int);
    assert(pre =~= tm.subrange(0, s) + t.subrange(0, off));
    assert(post =~= t.subrange(off, t.len() as int) + tm.subrange(s + t.len(), tm.len() as int));
    assert(lines.take(1) =~= seq![lines[0]]);
    assert(join_lines(lines.take(1)) == lines[0]);
    assert(m1.plain_text() =~= pre + join_lines(lines.take(1)) + post);
    assert(m.insert_plain_text(text, p, p) == m1.insert_lines(lines, 1, p + lines[0].len()));
    lemma_insert_lines(m1, lines, 1, p + lines[0].len(), pre, post);
}

/// Removing between two positions that one block holds takes exactly the
/// characters between them out of the plain text.
pub proof fn lemma_remove_in_block(m: DocModel, left: int, right: int)
    requires
        m.wf(),
        left <= right,
        found_index(m.texts(), left) is Some,
        found_index(m.texts(), right) == found_index(m.texts(), left),
    ensures
        m.removes(left, right),
        m.remove_between(left, right).plain_text() == m.plain_text().subrange(0, left)
            + m.plain_text().subrange(right, m.plain_text().len() as int),
        m.remove_between(left, right).character_count() == m.character_count() - (right - left),
        m.remove_between(left, right).block_ids() == m.block_ids(),
{
    let ts = m.texts();
    let j = m.plain_text();
    let k = found_index(ts, left)->0;
    assert(first_holder(ts, left, k));
    assert(first_holder(ts, right, k));
    let t = ts[k];
    let s = start_of(ts, k);
    let t2 = t.subrange(0, left - s) + t.subrange(right - s, t.len() as int);
    lemma_start_of_nonneg(ts, k);
    lemma_outline(m);
    lemma_set_block_text(m, k, t2);
    lemma_join_update(ts, k, t2);
    lemma_total_chars_update(ts, k, t2);
    assert(j.subrange(0, left) =~= j.subrange(0, s) + t.subrange(0, left - s));
    assert(j.subrange(right, j.len() as int) =~= t.subrange(right - s, t.len() as int)
        + j.subrange(s + t.len(), j.len() as int));
    assert(m.remove_between(left, right).plain_text() =~= j.subrange(0, left) + j.subrange(
        right,
        j.len() as int,
    ));
}

/// Removing between two positions takes the characters between them out of
/// the plain text where one block holds both positions, and changes nothing
/// at all where no block holds one of them or two different blocks hold them.
pub proof fn lemma_remove_law(m: DocModel, left: int, right: int)
    requires
        m.wf(),
        left <= right,
    ensures
        m.remove_between(left, right).plain_text() == cut_text(m.texts(), left, right),
        m.remove_between(left, right).block_ids() == m.block_ids(),
        !(found_index(m.texts(), left) is Some && found_index(m.texts(), right) == found_index(
            m.texts(),
            left,
        )) ==> m.remove_between(left, right) == m,
{
    lemma_remove_between(m, left, right);
    if found_index(m.texts(), left) is Some && found_index(m.texts(), right) == found_index(
        m.texts(),
        left,
    ) {
        lemma_remove_in_block(m, left, right);
    }
}

/// Typing text with the cursor at `p` and the anchor at `a`: the plain text
/// becomes the text left once the selection is taken out (where one block
/// holds both of its ends) with the typed text put in at the cursor position
/// `p`, or at the end where `p` lies past it.
pub proof fn lemma_insert_law(m: DocModel, text: Seq<char>, p: int, a: int)
    requires
        m.wf(),
        m.has_root(),
        0 <= p,
        0 <= a,
        m.counter + m.ids_for_fallback() + count_line_feeds(text) <= usize::MAX,
    ensures
        m.insert_plain_text(text, p, a).plain_text() == put_text(
            cut_text(m.texts(), if p <= a { p } else { a }, if p <= a { a } else { p }),
            text,
            p,
        ),
{
    let left = if p <= a { p } else { a };
    let right = if p <= a { a } else { p };
    let t = m.plain_text();
    lemma_remove_between(m, left, right);
    let m0 = if left != right { m.remove_between(left, right) } else { m };
    if left != right {
        lemma_remove_law(m, left, right);
    } else if found_index(m.texts(), left) is Some {
        let k = found_index(m.texts(), left)->0;
        assert(first_holder(m.texts(), left, k));
        lemma_held_within(m.texts(), k, left);
        assert(t.subrange(0, left) + t.subrange(left, t.len() as int) =~= t);
    }
    assert(m0.plain_text() == cut_text(m.texts(), left, right));
    assert(m0.ids_for_fallback() == m.ids_for_fallback());
    lemma_insert_text(m0, text, p);
    assert(m.insert_plain_text(text, p, a) == m0.insert_plain_text(text, p, p));
}

/// The frame found at a position is the frame that is the parent of the
/// first block holding that position; where no block holds it, there is none.
pub proof fn lemma_frame_at_law(m: DocModel, p: int)
    requires
        m.wf(),
    ensures
        found_index(m.texts(), p) is None ==> m.frame_at(p) is None,
        m.frame_at(p) matches Some(f) ==> {
            let id = m.block_ids()[found_index(m.texts(), p)->0];
            &&& found_index(m.texts(), p) is Some
            &&& m.parents.contains_key(id)
            &&& m.parents[id] == f
            &&& m.is_frame(f)
        },
        found_index(m.texts(), p) matches Some(k) ==> {
            let id = m.block_ids()[k];
            m.parents.contains_key(id) && m.is_frame(m.parents[id]) ==> m.frame_at(p) == Some(
                m.parents[id],
            )
        },
{
}

/// Setting the plain text of a document: putting its blocks back together in
/// document order gives the text; it has one block more than the text has line
/// feeds, and as many characters as the text has besides its line feeds.
pub proof fn lemma_set_plain_text(text: Seq<char>)
    requires
        count_line_feeds(text) + 2 <= usize::MAX,
    ensures
        DocModel::root().insert_plain_text(text, 0, 0).wf(),
        DocModel::root().insert_plain_text(text, 0, 0).has_root(),
        DocModel::root().insert_plain_text(text, 0, 0).plain_text() == text,
        DocModel::root().insert_plain_text(text, 0, 0).block_ids().len() == count_line_feeds(text)
            + 1,
        DocModel::root().insert_plain_text(text, 0, 0).character_count() == text.len()
            - count_line_feeds(text),
{
    lemma_root();
    let r = DocModel::root();
    assert(r.plain_text() == Seq::<char>::empty());
    lemma_insert_text(r, text, 0);
    let m = r.insert_plain_text(text, 0, 0);
    assert(put_text(r.plain_text(), text, 0) =~= text);
    lemma_join_len_total(m.texts());
    lemma_split_total(text);
    lemma_split_lines_len(text);
}

} // verus!
