use vstd::prelude::*;

use crate::model::{
    count_line_feeds, first_holder, found_index, holds, join_lines, split_lines, start_of,
    total_chars,
};

verus! {

/// Splitting always gives at least one line, and one more line than there
/// are line feeds.
pub proof fn lemma_split_lines_len(s: Seq<char>)
    ensures
        split_lines(s).len() >= 1,
        split_lines(s).len() == count_line_feeds(s) + 1,
    decreases s.len(),
{
    if s.len() > 0 {
        lemma_split_lines_len(s.drop_last());
    }
}

/// Lines put back together give the text they were split from.
pub proof fn lemma_join_split(s: Seq<char>)
    ensures
        join_lines(split_lines(s)) == s,
    decreases s.len(),
{
    if s.len() > 0 {
        let s0 = s.drop_last();
        let c = s.last();
        lemma_join_split(s0);
        lemma_split_lines_len(s0);
        let r = split_lines(s0);
        if c == '\n' {
            assert(r.push(Seq::<char>::empty()).drop_last() == r);
            assert(join_lines(split_lines(s)) =~= s);
        } else {
            let r2 = r.update(r.len() - 1, r.last().push(c));
            if r.len() == 1 {
                assert(s =~= s0.push(c));
                assert(join_lines(r2) =~= s);
            } else {
                assert(r2.drop_last() =~= r.drop_last());
                assert(join_lines(r) == join_lines(r.drop_last()) + seq!['\n'] + r.last());
                assert(join_lines(r2) == join_lines(r.drop_last()) + seq!['\n'] + r.last().push(c));
                assert(s =~= s0.push(c));
                assert(join_lines(r2) =~= s);
            }
        }
    }
}

/// The characters of the lines and the line feeds between them make up the text.
pub proof fn lemma_split_total(s: Seq<char>)
    ensures
        total_chars(split_lines(s)) + count_line_feeds(s) == s.len(),
    decreases s.len(),
{
    if s.len() > 0 {
        let s0 = s.drop_last();
        lemma_split_total(s0);
        lemma_split_lines_len(s0);
        let r = split_lines(s0);
        if s.last() == '\n' {
            assert(r.push(Seq::<char>::empty()).drop_last() == r);
            assert(total_chars(split_lines(s)) == total_chars(r));
        } else {
            let r2 = r.update(r.len() - 1, r.last().push(s.last()));
            assert(r2.drop_last() =~= r.drop_last());
            assert(total_chars(r) == total_chars(r.drop_last()) + r.last().len());
            assert(total_chars(r2) == total_chars(r2.drop_last()) + r2.last().len());
            assert(total_chars(split_lines(s)) == total_chars(r) + 1);
        }
        assert(count_line_feeds(s) == count_line_feeds(s0) + if s.last() == '\n' { 1int } else { 0int });
        assert(s0.len() + 1 == s.len());
        assert(total_chars(r) + count_line_feeds(s0) == s0.len());
    } else {
        let e = seq![Seq::<char>::empty()];
        assert(e.drop_last() =~= Seq::<Seq<char>>::empty());
        assert(total_chars(Seq::<Seq<char>>::empty()) == 0);
        assert(e.last().len() == 0);
        assert(total_chars(e) == total_chars(e.drop_last()) + e.last().len());
    }
}

/// No line holds a line feed.
pub proof fn lemma_split_lines_no_line_feed(s: Seq<char>)
    ensures
        forall|i: int, j: int|
            0 <= i < split_lines(s).len() && 0 <= j < split_lines(s)[i].len() ==> split_lines(
                s,
            )[i][j] != '\n',
    decreases s.len(),
{
    if s.len() > 0 {
        lemma_split_lines_no_line_feed(s.drop_last());
        lemma_split_lines_len(s.drop_last());
    }
}

/// The first `i` lines put back together, one line more: the separator and
/// the next line follow.
pub proof fn lemma_join_take_step(lines: Seq<Seq<char>>, i: int)
    requires
        1 <= i < lines.len(),
    ensures
        join_lines(lines.take(i + 1)) == join_lines(lines.take(i)) + seq!['\n'] + lines[i],
        join_lines(lines.take(1)) == lines[0],
{
    assert(lines.take(i + 1).drop_last() =~= lines.take(i));
}

/// The first `i` lines put back together are no longer than all of them.
pub proof fn lemma_join_take_len(lines: Seq<Seq<char>>, i: int)
    requires
        1 <= i <= lines.len(),
    ensures
        join_lines(lines.take(i)).len() <= join_lines(lines).len(),
    decreases lines.len() - i,
{
    if i < lines.len() {
        lemma_join_take_step(lines, i);
        lemma_join_take_len(lines, i + 1);
    } else {
        assert(lines.take(i) =~= lines);
    }
}

/// The characters of `s` as a vector.
pub fn chars_of(s: &str) -> (r: Vec<char>)
    ensures
        r@ == s@,
{
    let mut r: Vec<char> = Vec::new();
    for c in it: s.chars()
        invariant
            r@ == it.seq().take(it.index()),
    {
        r.push(c);
        assert(r@ =~= it.seq().take(it.index() + 1));
    }
    r
}

/// The lines of `text`, split at each line feed.
pub fn split_plain_text(text: &Vec<char>) -> (r: Vec<Vec<char>>)
    ensures
        r@.map_values(|v: Vec<char>| v@) == split_lines(text@),
{
    let mut done: Vec<Vec<char>> = Vec::new();
    let mut current: Vec<char> = Vec::new();
    let n = text.len();
    let mut i: usize = 0;
    while i < n
        invariant
            n == text@.len(),
            i <= n,
            done@.map_values(|v: Vec<char>| v@).push(current@) == split_lines(text@.take(i as int)),
        decreases n - i,
    {
        let c = text[i];
        let ghost before = text@.take(i as int);
        assert(text@.take(i + 1).drop_last() =~= before);
        proof {
            lemma_split_lines_len(before);
        }
        if c == '\n' {
            let finished = current;
            done.push(finished);
            current = Vec::new();
            assert(done@.map_values(|v: Vec<char>| v@).push(current@) =~= split_lines(
                text@.take(i + 1),
            ));
        } else {
            current.push(c);
            assert(done@.map_values(|v: Vec<char>| v@).push(current@) =~= split_lines(
                text@.take(i + 1),
            ));
        }
        i = i + 1;
    }
    done.push(current);
    assert(text@.take(n as int) =~= text@);
    assert(done@.map_values(|v: Vec<char>| v@) =~= split_lines(text@));
    done
}

/// Block `k` starts in the joined text right after the first `k` blocks and
/// the line feed that follows them.
pub proof fn lemma_start_of_join(ts: Seq<Seq<char>>, k: int)
    requires
        1 <= k <= ts.len(),
    ensures
        start_of(ts, k) == join_lines(ts.take(k)).len() + 1,
    decreases k,
{
    if k > 1 {
        lemma_start_of_join(ts, k - 1);
        lemma_join_take_step(ts, k - 1);
        assert(start_of(ts, k) == start_of(ts, k - 1) + ts[k - 1].len() + 1);
        assert(join_lines(ts.take(k)).len() == join_lines(ts.take(k - 1)).len() + 1 + ts[k - 1].len());
    } else {
        assert(ts.take(1) =~= seq![ts[0]]);
        assert(join_lines(ts.take(1)) == ts[0]);
        assert(start_of(ts, 0) == 0);
        assert(start_of(ts, 1) == ts[0].len() + 1);
    }
}

/// Blocks start at nonnegative positions.
pub proof fn lemma_start_of_nonneg(ts: Seq<Seq<char>>, k: int)
    ensures
        start_of(ts, k) >= 0,
    decreases k,
{
    if k > 0 {
        lemma_start_of_nonneg(ts, k - 1);
    }
}

/// The joined text ends where a block past the last one would start, less
/// its separator.
pub proof fn lemma_join_len(ts: Seq<Seq<char>>)
    requires
        ts.len() >= 1,
    ensures
        start_of(ts, ts.len() - 1) + ts.last().len() == join_lines(ts).len(),
{
    lemma_start_of_join(ts, ts.len() as int);
    assert(ts.take(ts.len() as int) =~= ts);
}

/// Replacing the text of block `k` replaces the span of that block in the
/// joined text.
pub proof fn lemma_join_update(ts: Seq<Seq<char>>, k: int, t: Seq<char>)
    requires
        0 <= k < ts.len(),
    ensures
        start_of(ts, k) + ts[k].len() <= join_lines(ts).len(),
        join_lines(ts).subrange(start_of(ts, k), start_of(ts, k) + ts[k].len()) == ts[k],
        join_lines(ts.update(k, t)) == join_lines(ts).subrange(0, start_of(ts, k)) + t
            + join_lines(ts).subrange(start_of(ts, k) + ts[k].len(), join_lines(ts).len() as int),
    decreases ts.len(),
{
    let j = join_lines(ts);
    let s = start_of(ts, k);
    lemma_start_of_nonneg(ts, k);
    if ts.len() == 1 {
        assert(j.subrange(0, 0) + t + j.subrange(ts[0].len() as int, j.len() as int) =~= t);
        assert(j.subrange(0, ts[0].len() as int) =~= ts[0]);
    } else {
        let dl = ts.drop_last();
        let jd = join_lines(dl);
        assert(j == jd + seq!['\n'] + ts.last());
        assert(ts.update(k, t).drop_last() =~= if k == ts.len() - 1 { dl } else { dl.update(k, t) });
        if k == ts.len() - 1 {
            lemma_start_of_join(ts, k);
            assert(ts.take(k) =~= dl);
            assert(j.subrange(s, s + ts[k].len()) =~= ts[k]);
            assert(join_lines(ts.update(k, t)) == jd + seq!['\n'] + t);
            assert(j.subrange(0, s) =~= jd + seq!['\n']);
            assert(j.subrange(s + ts[k].len(), j.len() as int) =~= Seq::<char>::empty());
            assert(join_lines(ts.update(k, t)) =~= j.subrange(0, s) + t + j.subrange(
                s + ts[k].len(),
                j.len() as int,
            ));
        } else {
            lemma_join_update(dl, k, t);
            lemma_start_of_same(ts, dl, k);
            assert(dl[k] == ts[k]);
            assert(start_of(dl, k) == s);
            assert(s + ts[k].len() <= jd.len());
            assert(j.subrange(s, s + ts[k].len()) =~= jd.subrange(s, s + ts[k].len()));
            let jdu = join_lines(dl.update(k, t));
            assert(join_lines(ts.update(k, t)) == jdu + seq!['\n'] + ts.last());
            assert(join_lines(ts.update(k, t)) =~= j.subrange(0, s) + t + j.subrange(
                s + ts[k].len(),
                j.len() as int,
            ));
        }
    }
}

/// Joining two runs of lines puts a line feed between them.
pub proof fn lemma_join_concat(a: Seq<Seq<char>>, b: Seq<Seq<char>>)
    requires
        a.len() >= 1,
        b.len() >= 1,
    ensures
        join_lines(a + b) == join_lines(a) + seq!['\n'] + join_lines(b),
    decreases b.len(),
{
    if b.len() == 1 {
        assert((a + b).drop_last() =~= a);
    } else {
        lemma_join_concat(a, b.drop_last());
        assert((a + b).drop_last() =~= a + b.drop_last());
        assert(join_lines(a + b) =~= join_lines(a) + seq!['\n'] + join_lines(b));
    }
}

/// Where the blocks have the same lengths before `k`, block `k` starts at the same position.
pub proof fn lemma_start_of_same(t1: Seq<Seq<char>>, t2: Seq<Seq<char>>, k: int)
    requires
        0 <= k <= t1.len(),
        k <= t2.len(),
        forall|j: int| 0 <= j < k ==> #[trigger] t1[j].len() == t2[j].len(),
    ensures
        start_of(t1, k) == start_of(t2, k),
    decreases k,
{
    if k > 0 {
        lemma_start_of_same(t1, t2, k - 1);
    }
}

/// A later block starts after an earlier one and its separator.
pub proof fn lemma_start_of_grows(t: Seq<Seq<char>>, j: int, k: int)
    requires
        0 <= j < k,
    ensures
        start_of(t, k) >= start_of(t, j) + t[j].len() + 1,
    decreases k - j,
{
    if k > j + 1 {
        lemma_start_of_grows(t, j, k - 1);
    }
}

/// The lines before a line, put together, with the line feed that follows them.
pub open spec fn lines_before(a: Seq<Seq<char>>) -> Seq<char> {
    if a.len() == 0 {
        Seq::empty()
    } else {
        join_lines(a) + seq!['\n']
    }
}

/// The lines after a line, put together, with the line feed that precedes them.
pub open spec fn lines_after(b: Seq<Seq<char>>) -> Seq<char> {
    if b.len() == 0 {
        Seq::empty()
    } else {
        seq!['\n'] + join_lines(b)
    }
}

/// A line between two runs of lines, put together.
pub proof fn lemma_join_around(a: Seq<Seq<char>>, x: Seq<char>, b: Seq<Seq<char>>)
    ensures
        join_lines(a + seq![x] + b) == lines_before(a) + x + lines_after(b),
{
    let ax = a + seq![x];
    if a.len() == 0 {
        assert(ax =~= seq![x]);
    } else {
        lemma_join_concat(a, seq![x]);
    }
    assert(join_lines(ax) == lines_before(a) + x) by {
        if a.len() == 0 {
            assert(lines_before(a) + x =~= x);
        } else {
            assert(join_lines(a) + seq!['\n'] + x =~= lines_before(a) + x);
        }
    }
    if b.len() == 0 {
        assert(ax + b =~= ax);
        assert(lines_before(a) + x + lines_after(b) =~= lines_before(a) + x);
    } else {
        lemma_join_concat(ax, b);
        assert(join_lines(a + seq![x] + b) =~= lines_before(a) + x + lines_after(b));
    }
}

/// The lines before block `k` take up the positions before its start.
pub proof fn lemma_lines_before_len(ts: Seq<Seq<char>>, k: int)
    requires
        0 <= k <= ts.len(),
    ensures
        lines_before(ts.take(k)).len() == start_of(ts, k),
{
    if k > 0 {
        lemma_start_of_join(ts, k);
    }
}

/// Splitting block `k` into `t1` and `t2` puts a line feed between them in
/// the joined text, where the block stood.
pub proof fn lemma_join_split_block(ts: Seq<Seq<char>>, k: int, t1: Seq<char>, t2: Seq<char>)
    requires
        0 <= k < ts.len(),
    ensures
        start_of(ts, k) + ts[k].len() <= join_lines(ts).len(),
        join_lines(ts.update(k, t1).insert(k + 1, t2)) == join_lines(ts).subrange(0, start_of(ts, k))
            + t1 + seq!['\n'] + t2 + join_lines(ts).subrange(
            start_of(ts, k) + ts[k].len(),
            join_lines(ts).len() as int,
        ),
{
    let a = ts.take(k);
    let b = ts.skip(k + 1);
    let j = join_lines(ts);
    let s = start_of(ts, k);
    assert(ts =~= a + seq![ts[k]] + b);
    lemma_join_around(a, ts[k], b);
    lemma_lines_before_len(ts, k);
    assert(j.subrange(0, s) =~= lines_before(a));
    assert(j.subrange(s + ts[k].len(), j.len() as int) =~= lines_after(b));
    let u = ts.update(k, t1).insert(k + 1, t2);
    assert(u =~= a + seq![t1] + (seq![t2] + b));
    lemma_join_around(a, t1, seq![t2] + b);
    lemma_join_around(Seq::<Seq<char>>::empty(), t2, b);
    assert(Seq::<Seq<char>>::empty() + seq![t2] + b =~= seq![t2] + b);
    assert(join_lines(u) =~= j.subrange(0, s) + t1 + seq!['\n'] + t2 + j.subrange(
        s + ts[k].len(),
        j.len() as int,
    ));
}

/// Where some block holds a position, a first one does.
pub proof fn lemma_first_holder_exists(ts: Seq<Seq<char>>, p: int, k: int)
    requires
        holds(ts, k, p),
    ensures
        found_index(ts, p) is Some,
    decreases k,
{
    if exists|j: int| 0 <= j < k && holds(ts, j, p) {
        let j = choose|j: int| 0 <= j < k && holds(ts, j, p);
        lemma_first_holder_exists(ts, p, j);
    } else {
        assert(first_holder(ts, p, k));
    }
}

/// Every position from the start to the end of the joined text is held by a block.
pub proof fn lemma_held(ts: Seq<Seq<char>>, p: int)
    requires
        ts.len() >= 1,
        0 <= p <= join_lines(ts).len(),
    ensures
        found_index(ts, p) is Some,
        holds(ts, found_index(ts, p)->0, p),
    decreases ts.len(),
{
    if ts.len() == 1 {
        assert(holds(ts, 0, p));
        lemma_first_holder_exists(ts, p, 0);
    } else {
        let dl = ts.drop_last();
        let n = ts.len() - 1;
        lemma_start_of_join(ts, n);
        assert(ts.take(n) =~= dl);
        lemma_join_len(ts);
        if p <= join_lines(dl).len() {
            lemma_held(dl, p);
            let k = found_index(dl, p)->0;
            assert(first_holder(dl, p, k));
            lemma_start_of_same(ts, dl, k);
            assert(holds(ts, k, p));
            lemma_first_holder_exists(ts, p, k);
        } else {
            assert(holds(ts, n, p));
            lemma_first_holder_exists(ts, p, n);
        }
    }
    let c = found_index(ts, p)->0;
    assert(first_holder(ts, p, c));
}

/// A block holds no position past the end of the joined text.
pub proof fn lemma_held_within(ts: Seq<Seq<char>>, k: int, p: int)
    requires
        holds(ts, k, p),
    ensures
        0 <= p <= join_lines(ts).len(),
{
    lemma_join_len(ts);
    lemma_start_of_nonneg(ts, k);
    if k < ts.len() - 1 {
        lemma_start_of_grows(ts, k, ts.len() - 1);
    }
}

/// No block holds a position past the end of the joined text, and the end
/// itself is held first by the last block.
pub proof fn lemma_past_end(ts: Seq<Seq<char>>, p: int)
    requires
        ts.len() >= 1,
        p >= join_lines(ts).len(),
    ensures
        p > join_lines(ts).len() ==> found_index(ts, p) is None,
        p == join_lines(ts).len() ==> found_index(ts, p) == Some(ts.len() - 1),
{
    let n = ts.len() - 1;
    lemma_join_len(ts);
    assert forall|j: int| 0 <= j < n implies !#[trigger] holds(ts, j, p) by {
        lemma_start_of_grows(ts, j, n);
    }
    if p > join_lines(ts).len() {
        assert forall|k: int| !#[trigger] first_holder(ts, p, k) by {
            if 0 <= k < n {
                assert(!holds(ts, k, p));
            }
        }
    } else {
        assert(first_holder(ts, p, n));
        assert forall|k: int| #[trigger] first_holder(ts, p, k) implies k == n by {
            if 0 <= k < n {
                assert(!holds(ts, k, p));
            }
        }
    }
}

/// The joined text holds the characters of the lines and a line feed between
/// each two.
pub proof fn lemma_join_len_total(ts: Seq<Seq<char>>)
    requires
        ts.len() >= 1,
    ensures
        join_lines(ts).len() == total_chars(ts) + ts.len() - 1,
    decreases ts.len(),
{
    if ts.len() == 1 {
        assert(ts.drop_last() =~= Seq::<Seq<char>>::empty());
        assert(total_chars(Seq::<Seq<char>>::empty()) == 0);
    } else {
        lemma_join_len_total(ts.drop_last());
    }
}

/// Whether two runs of characters are the same.
pub fn same_chars(a: &Vec<char>, b: &Vec<char>) -> (r: bool)
    ensures
        r == (a@ == b@),
{
    if a.len() != b.len() {
        return false;
    }
    let n = a.len();
    for i in 0..n
        invariant
            n == a@.len(),
            n == b@.len(),
            a@.take(i as int) == b@.take(i as int),
    {
        if a[i] != b[i] {
            return false;
        }
        assert(a@.take(i + 1) =~= a@.take(i as int).push(a[i as int]));
        assert(b@.take(i + 1) =~= b@.take(i as int).push(b[i as int]));
    }
    assert(a@.take(n as int) =~= a@);
    assert(b@.take(n as int) =~= b@);
    true
}

/// A copy of the characters of `t`.
pub fn copy_chars(t: &Vec<char>) -> (r: Vec<char>)
    ensures
        r@ == t@,
{
    let mut r: Vec<char> = Vec::new();
    let n = t.len();
    for i in 0..n
        invariant
            n == t@.len(),
            r@ == t@.subrange(0, i as int),
    {
        r.push(t[i]);
    }
    assert(t@.subrange(0, n as int) =~= t@);
    r
}

/// `t` with the characters in `from .. to` replaced by `piece`.
pub fn splice(t: &Vec<char>, from: usize, to: usize, piece: &Vec<char>) -> (r: Vec<char>)
    requires
        from <= to <= t@.len(),
    ensures
        r@ == t@.subrange(0, from as int) + piece@ + t@.subrange(to as int, t@.len() as int),
{
    let mut r: Vec<char> = Vec::new();
    for i in 0..from
        invariant
            from <= t@.len(),
            r@ == t@.subrange(0, i as int),
    {
        r.push(t[i]);
    }
    let m = piece.len();
    for j in 0..m
        invariant
            m == piece@.len(),
            r@ == t@.subrange(0, from as int) + piece@.subrange(0, j as int),
    {
        r.push(piece[j]);
        assert(r@ =~= t@.subrange(0, from as int) + piece@.subrange(0, j + 1));
    }
    assert(piece@.subrange(0, m as int) =~= piece@);
    let ghost head = r@;
    let n = t.len();
    for i in to..n
        invariant
            to <= n,
            n == t@.len(),
            r@ == head + t@.subrange(to as int, i as int),
    {
        r.push(t[i]);
        assert(r@ =~= head + t@.subrange(to as int, i + 1));
    }
    r
}

} // verus!
