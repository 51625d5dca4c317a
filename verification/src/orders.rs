use vstd::prelude::*;

use crate::element::DocModel;
use crate::model::{ids_in, order_end, place_after, renumbered};

verus! {

/// The ids filed in a range are those of its two halves, one after the other.
pub proof fn lemma_ids_in_split(o: Map<usize, usize>, lo: int, mid: int, hi: int)
    requires
        lo <= mid <= hi,
    ensures
        ids_in(o, lo, hi) == ids_in(o, lo, mid) + ids_in(o, mid, hi),
    decreases hi - mid,
{
    if hi == mid {
        assert(ids_in(o, lo, mid) + ids_in(o, mid, hi) =~= ids_in(o, lo, mid));
    } else {
        lemma_ids_in_split(o, lo, mid, hi - 1);
        let k = (hi - 1) as usize;
        if o.contains_key(k) {
            assert(ids_in(o, lo, hi) =~= ids_in(o, lo, mid) + ids_in(o, mid, hi));
        }
    }
}

/// Two order maps that agree on a range file the same ids in it.
pub proof fn lemma_ids_in_agree(o1: Map<usize, usize>, o2: Map<usize, usize>, lo: int, hi: int)
    requires
        0 <= lo,
        hi <= order_end(),
        forall|k: usize|
            lo <= k < hi ==> (#[trigger] o1.contains_key(k) == o2.contains_key(k) && (
            o1.contains_key(k) ==> o1[k] == o2[k])),
    ensures
        ids_in(o1, lo, hi) == ids_in(o2, lo, hi),
    decreases hi - lo,
{
    if hi > lo {
        lemma_ids_in_agree(o1, o2, lo, hi - 1);
        let k = (hi - 1) as usize;
        assert(o1.contains_key(k) == o2.contains_key(k));
    }
}

/// What a single sort order files.
pub proof fn lemma_ids_in_one(o: Map<usize, usize>, k: usize)
    ensures
        ids_in(o, k as int, k + 1) == if o.contains_key(k) {
            seq![o[k]]
        } else {
            Seq::<usize>::empty()
        },
{
    assert(ids_in(o, k as int, k as int) =~= Seq::<usize>::empty());
    if o.contains_key(k) {
        assert(ids_in(o, k as int, k + 1) =~= seq![o[k]]);
    }
}

/// Whether `x` is filed under some sort order in `lo .. hi`.
pub open spec fn filed_in(o: Map<usize, usize>, lo: int, hi: int, x: usize) -> bool {
    exists|k: usize| lo <= k < hi && o.contains_key(k) && o[k] == x
}

/// Each id filed in a range is filed under a sort order in that range; where
/// the map sends distinct orders to distinct ids, no id is filed twice.
pub proof fn lemma_ids_in_members(o: Map<usize, usize>, lo: int, hi: int)
    requires
        0 <= lo,
        hi <= order_end(),
    ensures
        forall|j: int|
            0 <= j < ids_in(o, lo, hi).len() ==> filed_in(o, lo, hi, #[trigger] ids_in(o, lo, hi)[j]),
        (forall|k1: usize, k2: usize|
            #![trigger o[k1], o[k2]]
            o.contains_key(k1) && o.contains_key(k2) && o[k1] == o[k2] ==> k1 == k2) ==> ids_in(
            o,
            lo,
            hi,
        ).no_duplicates(),
    decreases hi - lo,
{
    if hi > lo {
        lemma_ids_in_members(o, lo, hi - 1);
        let before = ids_in(o, lo, hi - 1);
        let s = ids_in(o, lo, hi);
        let k = (hi - 1) as usize;
        assert forall|j: int| 0 <= j < s.len() implies filed_in(o, lo, hi, #[trigger] s[j]) by {
            if j < before.len() {
                assert(filed_in(o, lo, hi - 1, before[j]));
                let k2 = choose|k2: usize| lo <= k2 < hi - 1 && o.contains_key(k2) && o[k2] == before[j];
                assert(s[j] == before[j]);
                assert(lo <= k2 < hi && o.contains_key(k2) && o[k2] == s[j]);
            } else {
                assert(s[j] == o[k]);
                assert(lo <= k < hi && o.contains_key(k) && o[k] == s[j]);
            }
        }
        if o.contains_key(k) {
            assert(s == before.push(o[k]));
            if forall|k1: usize, k2: usize|
                #![trigger o[k1], o[k2]]
                o.contains_key(k1) && o.contains_key(k2) && o[k1] == o[k2] ==> k1 == k2 {
                assert forall|i: int, j: int| 0 <= i < j < s.len() implies s[i] != s[j] by {
                    if j == before.len() {
                        assert(s[i] == before[i]);
                        assert(filed_in(o, lo, hi - 1, before[i]));
                        let k1 = choose|k1: usize|
                            lo <= k1 < hi - 1 && o.contains_key(k1) && o[k1] == before[i];
                        assert(o[k1] == o[k] ==> k1 == k);
                    } else {
                        assert(s[i] == before[i] && s[j] == before[j]);
                    }
                }
            }
        } else {
            assert(s == before);
        }
    }
}

/// An id filed under an order in a range is among the ids filed in it.
pub proof fn lemma_ids_in_contains(o: Map<usize, usize>, lo: int, hi: int, k: usize)
    requires
        0 <= lo <= k < hi <= order_end(),
        o.contains_key(k),
    ensures
        ids_in(o, lo, hi).contains(o[k]),
{
    lemma_ids_in_split(o, lo, k as int, hi);
    lemma_ids_in_split(o, k as int, k + 1, hi);
    lemma_ids_in_one(o, k);
    let a = ids_in(o, lo, k as int);
    assert(ids_in(o, lo, hi)[a.len() as int] == o[k]);
}

/// Where distinct orders file distinct ids, the ids come in increasing order
/// of the orders they are filed under.
pub proof fn lemma_ids_in_increasing(o: Map<usize, usize>, lo: int, hi: int)
    requires
        0 <= lo,
        hi <= order_end(),
        forall|k1: usize, k2: usize|
            #![trigger o[k1], o[k2]]
            o.contains_key(k1) && o.contains_key(k2) && o[k1] == o[k2] ==> k1 == k2,
    ensures
        forall|i: int, j: int, k1: usize, k2: usize|
            #![trigger ids_in(o, lo, hi)[i], ids_in(o, lo, hi)[j], o[k1], o[k2]]
            0 <= i < j < ids_in(o, lo, hi).len() && o.contains_key(k1) && o.contains_key(k2)
                && o[k1] == ids_in(o, lo, hi)[i] && o[k2] == ids_in(o, lo, hi)[j] ==> k1 < k2,
    decreases hi - lo,
{
    if hi > lo {
        lemma_ids_in_increasing(o, lo, hi - 1);
        lemma_ids_in_members(o, lo, hi - 1);
        let before = ids_in(o, lo, hi - 1);
        let s = ids_in(o, lo, hi);
        let k = (hi - 1) as usize;
        assert forall|i: int, j: int, k1: usize, k2: usize|
            0 <= i < j < s.len() && o.contains_key(k1) && o.contains_key(k2) && o[k1] == s[i]
                && o[k2] == s[j] implies k1 < k2 by {
            if o.contains_key(k) && j == before.len() {
                assert(s[i] == before[i]);
                assert(filed_in(o, lo, hi - 1, before[i]));
                let kk = choose|kk: usize|
                    lo <= kk < hi - 1 && o.contains_key(kk) && o[kk] == before[i];
                assert(o[k1] == o[kk]);
                assert(o[k2] == o[k]);
            } else {
                assert(s[i] == before[i] && s[j] == before[j]);
            }
        }
    }
}

/// Sort orders given anew as 1, 2, ... file the ids in the order given.
pub proof fn lemma_ids_in_renumbered(s: Seq<usize>, n: int)
    requires
        s.len() < n <= order_end(),
    ensures
        ids_in(renumbered(s), 0, n) == s,
    decreases n,
{
    let r = renumbered(s);
    if n > s.len() + 1 {
        lemma_ids_in_renumbered(s, n - 1);
        assert(!r.contains_key((n - 1) as usize));
    } else {
        lemma_ids_in_renumbered_prefix(s, s.len() as int);
        lemma_ids_in_one(r, 0);
        lemma_ids_in_split(r, 0, 1, n);
        assert(!r.contains_key(0));
        assert(s.take(s.len() as int) =~= s);
        assert(Seq::<usize>::empty() + s =~= s);
    }
}

/// The first `j` ids, filed under 1 ..= j.
pub proof fn lemma_ids_in_renumbered_prefix(s: Seq<usize>, j: int)
    requires
        0 <= j <= s.len(),
        s.len() < order_end(),
    ensures
        ids_in(renumbered(s), 1, j + 1) == s.take(j),
    decreases j,
{
    let r = renumbered(s);
    if j == 0 {
        assert(ids_in(r, 1, 1) =~= s.take(0));
    } else {
        lemma_ids_in_renumbered_prefix(s, j - 1);
        assert(r.contains_key(j as usize));
        assert(r[j as usize] == s[j - 1]);
        assert(s.take(j) =~= s.take(j - 1).push(s[j - 1]));
    }
}

/// Renumbered orders send distinct orders to distinct ids where the ids are distinct.
pub proof fn lemma_renumbered_injective(s: Seq<usize>)
    requires
        s.no_duplicates(),
    ensures
        forall|k1: usize, k2: usize|
            #![trigger renumbered(s)[k1], renumbered(s)[k2]]
            renumbered(s).contains_key(k1) && renumbered(s).contains_key(k2) && renumbered(s)[k1]
                == renumbered(s)[k2] ==> k1 == k2,
        forall|k: usize| #[trigger]
            renumbered(s).contains_key(k) ==> s.contains(renumbered(s)[k]),
{
    assert forall|k: usize| #[trigger] renumbered(s).contains_key(k) implies s.contains(
        renumbered(s)[k],
    ) by {
        assert(s[k - 1] == renumbered(s)[k]);
    }
}

/// A strictly increasing list of all the orders below `n` in the map files,
/// order by order, what the range `0 .. n` files.
pub proof fn lemma_ids_in_sorted(o: Map<usize, usize>, ks: Seq<usize>, n: int)
    requires
        0 <= n <= order_end(),
        forall|i: int, j: int| 0 <= i < j < ks.len() ==> ks[i] < ks[j],
        forall|k: usize| (o.contains_key(k) && k < n) <==> ks.contains(k),
    ensures
        ids_in(o, 0, n) == ks.map_values(|k: usize| o[k]),
    decreases n,
{
    if n == 0 {
        if ks.len() > 0 {
            assert(ks.contains(ks[0]));
        }
        assert(ks.map_values(|k: usize| o[k]) =~= Seq::<usize>::empty());
    } else {
        let k = (n - 1) as usize;
        if o.contains_key(k) {
            assert(ks.contains(k));
            let w = choose|w: int| 0 <= w < ks.len() && ks[w] == k;
            assert(w == ks.len() - 1) by {
                if w < ks.len() - 1 {
                    assert(ks.contains(ks[w + 1]));
                    assert(ks[w] < ks[w + 1]);
                }
            }
            let ks2 = ks.drop_last();
            assert forall|k2: usize| (o.contains_key(k2) && k2 < n - 1) <==> ks2.contains(k2) by {
                if ks2.contains(k2) {
                    let v = choose|v: int| 0 <= v < ks2.len() && ks2[v] == k2;
                    assert(ks.contains(k2) && ks[v] < ks[w]);
                }
                if o.contains_key(k2) && k2 < n - 1 {
                    assert(ks.contains(k2));
                    let v = choose|v: int| 0 <= v < ks.len() && ks[v] == k2;
                    assert(ks2[v] == k2);
                }
            }
            lemma_ids_in_sorted(o, ks2, n - 1);
            assert(ks.map_values(|k: usize| o[k]) =~= ks2.map_values(|k: usize| o[k]).push(o[k]));
        } else {
            assert forall|k2: usize| (o.contains_key(k2) && k2 < n - 1) <==> ks.contains(k2) by {
                if ks.contains(k2) {
                    assert(k2 != k);
                }
            }
            lemma_ids_in_sorted(o, ks, n - 1);
        }
    }
}

/// Placing `x` after the one occurrence of `b`.
pub proof fn lemma_place_after(s: Seq<usize>, b: usize, x: Seq<usize>, i: int)
    requires
        s.no_duplicates(),
        0 <= i < s.len(),
        s[i] == b,
    ensures
        place_after(s, b, x) == s.take(i + 1) + x + s.skip(i + 1),
    decreases s.len(),
{
    let d = s.drop_last();
    if i == s.len() - 1 {
        lemma_place_after_absent(d, b, x);
        assert(s.take(i + 1) =~= d.push(b));
        assert(place_after(s, b, x) =~= s.take(i + 1) + x + s.skip(i + 1));
    } else {
        assert(d.no_duplicates());
        lemma_place_after(d, b, x, i);
        assert(s.last() != b);
        assert(place_after(s, b, x) =~= s.take(i + 1) + x + s.skip(i + 1));
    }
}

/// Placing after an id that does not occur changes nothing.
pub proof fn lemma_place_after_absent(s: Seq<usize>, b: usize, x: Seq<usize>)
    requires
        !s.contains(b),
    ensures
        place_after(s, b, x) == s,
    decreases s.len(),
{
    if s.len() > 0 {
        assert(!s.drop_last().contains(b)) by {
            if s.drop_last().contains(b) {
                let w = choose|w: int| 0 <= w < s.drop_last().len() && s.drop_last()[w] == b;
                assert(s[w] == b);
            }
        }
        lemma_place_after_absent(s.drop_last(), b, x);
        assert(s.last() != b);
        assert(s.drop_last().push(s.last()) =~= s);
    }
}

/// Distinct ids within `1 ..= n` are at most `n`.
pub proof fn lemma_distinct_bounded(s: Seq<usize>, n: int)
    requires
        s.no_duplicates(),
        forall|i: int| 0 <= i < s.len() ==> 1 <= #[trigger] s[i] <= n,
    ensures
        s.len() <= if n < 0 { 0 } else { n },
    decreases if n < 0 { 0 } else { n },
{
    if n <= 0 {
        if s.len() > 0 {
            assert(1 <= s[0] <= n);
        }
    } else if exists|i: int| 0 <= i < s.len() && s[i] == n {
        let i = choose|i: int| 0 <= i < s.len() && s[i] == n;
        let s2 = s.remove(i);
        assert forall|a: int, b: int| 0 <= a < b < s2.len() implies s2[a] != s2[b] by {
            let a1 = if a < i { a } else { a + 1 };
            let b1 = if b < i { b } else { b + 1 };
            assert(s2[a] == s[a1] && s2[b] == s[b1]);
        }
        assert forall|j: int| 0 <= j < s2.len() implies 1 <= #[trigger] s2[j] <= n - 1 by {
            let j1 = if j < i { j } else { j + 1 };
            assert(s2[j] == s[j1]);
            assert(j1 != i);
        }
        lemma_distinct_bounded(s2, n - 1);
    } else {
        assert forall|j: int| 0 <= j < s.len() implies 1 <= #[trigger] s[j] <= n - 1 by {}
        lemma_distinct_bounded(s, n - 1);
    }
}

/// The blocks of two runs of ids are those of the first then those of the second.
pub proof fn lemma_blocks_in_concat(m: DocModel, a: Seq<usize>, b: Seq<usize>)
    ensures
        m.blocks_in(a + b) == m.blocks_in(a) + m.blocks_in(b),
    decreases b.len(),
{
    if b.len() == 0 {
        assert(a + b =~= a);
        assert(m.blocks_in(a) + m.blocks_in(b) =~= m.blocks_in(a));
    } else {
        lemma_blocks_in_concat(m, a, b.drop_last());
        assert((a + b).drop_last() =~= a + b.drop_last());
        assert(m.blocks_in(a + b) =~= m.blocks_in(a) + m.blocks_in(b));
    }
}

/// The blocks of a single id.
pub proof fn lemma_blocks_in_one(m: DocModel, x: usize)
    ensures
        m.blocks_in(seq![x]) == if m.is_block(x) {
            seq![x]
        } else {
            Seq::<usize>::empty()
        },
{
    assert(seq![x].drop_last() =~= Seq::<usize>::empty());
    assert(m.blocks_in(Seq::<usize>::empty()) == Seq::<usize>::empty());
    if m.is_block(x) {
        assert(m.blocks_in(seq![x]) =~= seq![x]);
    }
}

/// Two models that agree on which ids of `s` are blocks find the same blocks in it.
pub proof fn lemma_blocks_in_same(m1: DocModel, m2: DocModel, s: Seq<usize>)
    requires
        forall|j: int| 0 <= j < s.len() ==> m1.is_block(#[trigger] s[j]) == m2.is_block(s[j]),
    ensures
        m1.blocks_in(s) == m2.blocks_in(s),
    decreases s.len(),
{
    if s.len() > 0 {
        assert forall|j: int| 0 <= j < s.drop_last().len() implies m1.is_block(
            #[trigger] s.drop_last()[j],
        ) == m2.is_block(s.drop_last()[j]) by {
            assert(s.drop_last()[j] == s[j]);
        }
        lemma_blocks_in_same(m1, m2, s.drop_last());
    }
}

/// The blocks of `s` are blocks that occur in `s`, each once where `s` has no
/// repeats, and every block of `s` is among them.
pub proof fn lemma_blocks_in_members(m: DocModel, s: Seq<usize>)
    ensures
        forall|j: int|
            0 <= j < m.blocks_in(s).len() ==> m.is_block(#[trigger] m.blocks_in(s)[j]) && s.contains(
                m.blocks_in(s)[j],
            ),
        forall|x: usize| s.contains(x) && m.is_block(x) ==> #[trigger] m.blocks_in(s).contains(x),
        s.no_duplicates() ==> m.blocks_in(s).no_duplicates(),
        m.blocks_in(s).len() <= s.len(),
    decreases s.len(),
{
    if s.len() > 0 {
        let d = s.drop_last();
        lemma_blocks_in_members(m, d);
        let bd = m.blocks_in(d);
        let bs = m.blocks_in(s);
        assert forall|j: int| 0 <= j < bs.len() implies m.is_block(#[trigger] bs[j]) && s.contains(
            bs[j],
        ) by {
            if j < bd.len() {
                assert(bs[j] == bd[j]);
                let w = choose|w: int| 0 <= w < d.len() && d[w] == bd[j];
                assert(s[w] == bd[j]);
            } else {
                assert(bs[j] == s.last());
                assert(s[s.len() - 1] == s.last());
            }
        }
        assert forall|x: usize| s.contains(x) && m.is_block(x) implies #[trigger] bs.contains(x) by {
            let w = choose|w: int| 0 <= w < s.len() && s[w] == x;
            if w < s.len() - 1 {
                assert(d[w] == x);
                assert(bd.contains(x));
                let v = choose|v: int| 0 <= v < bd.len() && bd[v] == x;
                assert(bs[v] == x);
            } else {
                assert(bs[bs.len() - 1] == x);
            }
        }
        if s.no_duplicates() {
            assert(d.no_duplicates());
            if m.is_block(s.last()) {
                assert forall|i: int, j: int| 0 <= i < j < bs.len() implies bs[i] != bs[j] by {
                    if j == bd.len() {
                        assert(bs[i] == bd[i]);
                        let w = choose|w: int| 0 <= w < d.len() && d[w] == bd[i];
                        assert(s[w] == bd[i]);
                        assert(s[s.len() - 1] == s.last());
                    } else {
                        assert(bs[i] == bd[i] && bs[j] == bd[j]);
                    }
                }
            }
        }
    }
}

/// The blocks of `s` keep the order in which they stand in `s`.
pub proof fn lemma_blocks_in_order(m: DocModel, s: Seq<usize>)
    ensures
        forall|i: int, j: int|
            #![trigger m.blocks_in(s)[i], m.blocks_in(s)[j]]
            0 <= i < j < m.blocks_in(s).len() ==> exists|a: int, b: int|
                #![trigger s[a], s[b]]
                0 <= a < b < s.len() && s[a] == m.blocks_in(s)[i] && s[b] == m.blocks_in(s)[j],
    decreases s.len(),
{
    if s.len() > 0 {
        let d = s.drop_last();
        lemma_blocks_in_order(m, d);
        lemma_blocks_in_members(m, d);
        let bd = m.blocks_in(d);
        let bs = m.blocks_in(s);
        assert forall|i: int, j: int|
            #![trigger bs[i], bs[j]]
            0 <= i < j < bs.len() implies exists|a: int, b: int|
            #![trigger s[a], s[b]]
            0 <= a < b < s.len() && s[a] == bs[i] && s[b] == bs[j] by {
            assert(bs[i] == bd[i]);
            if j < bd.len() {
                assert(bs[j] == bd[j]);
                let (a, b) = choose|a: int, b: int|
                    0 <= a < b < d.len() && d[a] == bd[i] && d[b] == bd[j];
                assert(s[a] == d[a] && s[b] == d[b]);
            } else {
                assert(d.contains(bd[i]));
                let a = choose|a: int| 0 <= a < d.len() && d[a] == bd[i];
                assert(s[a] == d[a]);
                assert(s[s.len() - 1] == bs[j]);
            }
        }
    }
}

/// `s` with the ids of `x` placed right after each occurrence of `b`.
pub fn place_after_ids(s: &Vec<usize>, b: usize, x: &Vec<usize>) -> (r: Vec<usize>)
    ensures
        r@ == place_after(s@, b, x@),
{
    let mut r: Vec<usize> = Vec::new();
    let n = s.len();
    for i in 0..n
        invariant
            n == s@.len(),
            r@ == place_after(s@.take(i as int), b, x@),
    {
        let id = s[i];
        assert(s@.take(i + 1).drop_last() =~= s@.take(i as int));
        assert(s@.take(i + 1).last() == id);
        r.push(id);
        if id == b {
            let ghost before = r@;
            let m = x.len();
            for j in 0..m
                invariant
                    m == x@.len(),
                    r@ == before + x@.take(j as int),
            {
                r.push(x[j]);
                assert(r@ =~= before + x@.take(j + 1));
            }
            assert(x@.take(m as int) =~= x@);
        }
    }
    assert(s@.take(n as int) =~= s@);
    r
}

} // verus!
