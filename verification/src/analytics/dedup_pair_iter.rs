//! Pairs of positions, each unordered pair once.

use std::collections::HashSet;
use vstd::prelude::*;

verus! {

/// Whether `p[i]` is the first of its value in `p`.
pub open spec fn is_first(p: Seq<usize>, i: int) -> bool {
    forall|k: int| 0 <= k < i ==> p[k] != p[i]
}

/// Whether the pair of `p[i]` and `p[j]` is handed out when the outer cursor is at
/// `i` and the inner cursor at `j`: both are the first of their value, and `i`
/// comes before `j`.
pub open spec fn yields(p: Seq<usize>, i: int, j: int) -> bool {
    0 <= i < j < p.len() && is_first(p, i) && is_first(p, j)
}

/// The pairs handed out from the cursors `i` (outer) and `j` (inner) on, in order.
pub open spec fn pairs_from(p: Seq<usize>, i: int, j: int) -> Seq<(usize, usize)>
    decreases p.len() - i, p.len() - j,
{
    if i < 0 || j < 0 || i >= p.len() {
        Seq::empty()
    } else if j >= p.len() {
        pairs_from(p, i + 1, 0)
    } else if yields(p, i, j) {
        seq![(p[i], p[j])] + pairs_from(p, i, j + 1)
    } else {
        pairs_from(p, i, j + 1)
    }
}

/// All pairs handed out for the list `p`, in order.
pub open spec fn dedup_pairs(p: Seq<usize>) -> Seq<(usize, usize)> {
    pairs_from(p, 0, 0)
}

/// Whether cursor `(i1, j1)` is reached before cursor `(i2, j2)`.
pub open spec fn cursor_before(i1: int, j1: int, i2: int, j2: int) -> bool {
    i1 < i2 || (i1 == i2 && j1 < j2)
}

/// Whether the pair `(a, b)` was handed out before the cursors reached `(i, j)`.
pub open spec fn seen_before(p: Seq<usize>, i: int, j: int, a: usize, b: usize) -> bool {
    exists|i1: int, j1: int|
        #[trigger] yields(p, i1, j1) && cursor_before(i1, j1, i, j) && p[i1] == a && p[j1] == b
}

/// One number for an ordered pair of positions; different pairs get different
/// numbers.
pub open spec fn pair_key(a: usize, b: usize) -> u128 {
    (a as u128 * 0x1_0000_0000_0000_0000 + b as u128) as u128
}

/// `pair_key` tells pairs apart.
pub proof fn lemma_pair_key_injective(a: usize, b: usize, c: usize, d: usize)
    requires
        pair_key(a, b) == pair_key(c, d),
    ensures
        a == c,
        b == d,
{
}

/// Every position of `p` has a first occurrence of its value at or before it.
proof fn lemma_first_occurrence(p: Seq<usize>, i: int) -> (f: int)
    requires
        0 <= i < p.len(),
    ensures
        0 <= f <= i,
        p[f] == p[i],
        is_first(p, f),
    decreases i,
{
    if is_first(p, i) {
        i
    } else {
        let k = choose|k: int| 0 <= k < i && p[k] == p[i];
        lemma_first_occurrence(p, k)
    }
}

/// The test the iterator makes at cursor `(i, j)` decides `yields`: the two
/// values differ and the pair was not handed out before, in either order.
proof fn lemma_unseen_is_yields(p: Seq<usize>, i: int, j: int)
    requires
        0 <= i < p.len(),
        0 <= j < p.len(),
    ensures
        yields(p, i, j) <==> (p[i] != p[j] && !seen_before(p, i, j, p[i], p[j]) && !seen_before(
            p,
            i,
            j,
            p[j],
            p[i],
        )),
{
    if p[i] != p[j] && !seen_before(p, i, j, p[i], p[j]) && !seen_before(p, i, j, p[j], p[i]) {
        let i0 = lemma_first_occurrence(p, i);
        let j0 = lemma_first_occurrence(p, j);
        if i0 < j0 {
            assert(yields(p, i0, j0));
        } else {
            assert(yields(p, j0, i0));
        }
    }
}

/// Whether the pair `(a, b)` is handed out at or after the cursors `(i, j)`.
pub open spec fn yielded_from(p: Seq<usize>, i: int, j: int, a: usize, b: usize) -> bool {
    exists|i1: int, j1: int|
        #[trigger] yields(p, i1, j1) && !cursor_before(i1, j1, i, j) && p[i1] == a && p[j1] == b
}

/// What `pairs_from` holds: the pairs of the cursors from `(i, j)` on at which a
/// pair is handed out, and none of them twice.
pub proof fn lemma_pairs_from(p: Seq<usize>, i: int, j: int)
    requires
        0 <= i,
        0 <= j <= p.len(),
    ensures
        forall|a: usize, b: usize|
            pairs_from(p, i, j).contains((a, b)) <==> #[trigger] yielded_from(p, i, j, a, b),
        pairs_from(p, i, j).no_duplicates(),
    decreases p.len() - i, p.len() - j,
{
    let here = pairs_from(p, i, j);
    if i < p.len() && j >= p.len() {
        lemma_pairs_from(p, i + 1, 0);
        assert forall|a: usize, b: usize|
            yielded_from(p, i + 1, 0, a, b) <==> #[trigger] yielded_from(p, i, j, a, b) by {}
    } else if i < p.len() {
        lemma_pairs_from(p, i, j + 1);
        let rest = pairs_from(p, i, j + 1);
        let head = (p[i], p[j]);
        assert forall|a: usize, b: usize|
            #[trigger] yielded_from(p, i, j, a, b) <==> (yielded_from(p, i, j + 1, a, b) || (
            yields(p, i, j) && a == p[i] && b == p[j])) by {}
        if yields(p, i, j) {
            assert(here[0] == head);
            assert forall|a: usize, b: usize|
                here.contains((a, b)) <==> #[trigger] yielded_from(p, i, j, a, b) by {
                if rest.contains((a, b)) {
                    let k = choose|k: int| 0 <= k < rest.len() && rest[k] == (a, b);
                    assert(here[k + 1] == (a, b));
                }
            }
            if rest.contains(head) {
                assert(yielded_from(p, i, j + 1, p[i], p[j]));
            }
        }
    }
}

/// No pair is handed out twice.
pub proof fn lemma_dedup_pairs_no_duplicates(p: Seq<usize>)
    ensures
        dedup_pairs(p).no_duplicates(),
{
    lemma_pairs_from(p, 0, 0);
}

/// Every pair handed out holds two different values of the list.
pub proof fn lemma_dedup_pairs_distinct(p: Seq<usize>, a: usize, b: usize)
    requires
        dedup_pairs(p).contains((a, b)),
    ensures
        a != b,
        p.contains(a),
        p.contains(b),
{
    lemma_pairs_from(p, 0, 0);
    assert(yielded_from(p, 0, 0, a, b));
}

/// Of two different values of the list, exactly one of the two ordered pairs is
/// handed out.
pub proof fn lemma_dedup_pairs_one_order(p: Seq<usize>, a: usize, b: usize)
    requires
        p.contains(a),
        p.contains(b),
        a != b,
    ensures
        dedup_pairs(p).contains((a, b)) != dedup_pairs(p).contains((b, a)),
{
    lemma_pairs_from(p, 0, 0);
    let ia = choose|k: int| 0 <= k < p.len() && p[k] == a;
    let ib = choose|k: int| 0 <= k < p.len() && p[k] == b;
    let fa = lemma_first_occurrence(p, ia);
    let fb = lemma_first_occurrence(p, ib);
    if fa < fb {
        assert(yields(p, fa, fb) && !cursor_before(fa, fb, 0, 0));
        assert(yielded_from(p, 0, 0, a, b));
        if yielded_from(p, 0, 0, b, a) {
            let (i1, j1) = choose|i1: int, j1: int|
                #[trigger] yields(p, i1, j1) && !cursor_before(i1, j1, 0, 0) && p[i1] == b
                    && p[j1] == a;
            assert(i1 == fb && j1 == fa);
        }
    } else {
        assert(yields(p, fb, fa) && !cursor_before(fb, fa, 0, 0));
        assert(yielded_from(p, 0, 0, b, a));
        if yielded_from(p, 0, 0, a, b) {
            let (i1, j1) = choose|i1: int, j1: int|
                #[trigger] yields(p, i1, j1) && !cursor_before(i1, j1, 0, 0) && p[i1] == a
                    && p[j1] == b;
            assert(i1 == fa && j1 == fb);
        }
    }
}

/// How many positions from `i` on are the first of their value.
pub open spec fn firsts_from(p: Seq<usize>, i: int) -> nat
    decreases p.len() - i,
{
    if i < 0 || i >= p.len() {
        0
    } else if is_first(p, i) {
        1 + firsts_from(p, i + 1)
    } else {
        firsts_from(p, i + 1)
    }
}

/// The positions from `i` on that are the first of their value are as many as
/// there are values that the list does not hold before `i`.
proof fn lemma_firsts_count(p: Seq<usize>, i: int)
    requires
        0 <= i <= p.len(),
    ensures
        firsts_from(p, i) + p.take(i).to_set().len() == p.to_set().len(),
    decreases p.len() - i,
{
    if i == p.len() {
        assert(p.take(i) == p);
    } else {
        lemma_firsts_count(p, i + 1);
        let shorter = p.take(i);
        let longer = p.take(i + 1);
        let head = shorter.to_set();
        let more = longer.to_set();
        assert(more =~= head.insert(p[i])) by {
            assert forall|x: usize| more.contains(x) <==> head.insert(p[i]).contains(x) by {
                if x == p[i] {
                    assert(longer[i] == x);
                }
            }
        }
        if !is_first(p, i) {
            let k = choose|k: int| 0 <= k < i && p[k] == p[i];
            assert(shorter[k] == p[i]);
        }
    }
}

/// The pairs of one row: none if the outer position is not the first of its
/// value, else one for each later position that is the first of its value.
proof fn lemma_row_count(p: Seq<usize>, i: int, j: int)
    requires
        0 <= i < p.len(),
        0 <= j <= p.len(),
    ensures
        pairs_from(p, i, j).len() == pairs_from(p, i + 1, 0).len() + (if is_first(p, i) {
            firsts_from(p, if j > i {
                j
            } else {
                i + 1
            })
        } else {
            0
        }),
    decreases p.len() - j,
{
    if j < p.len() {
        lemma_row_count(p, i, j + 1);
    }
}

/// From row `i` on, twice the number of pairs is `f * (f - 1)`, where `f` is the
/// number of positions from `i` on that are the first of their value.
proof fn lemma_rows_count(p: Seq<usize>, i: int)
    requires
        0 <= i <= p.len(),
    ensures
        2 * pairs_from(p, i, 0).len() == firsts_from(p, i) * (firsts_from(p, i) - 1),
    decreases p.len() - i,
{
    let here = firsts_from(p, i) as int;
    let pairs = pairs_from(p, i, 0).len() as int;
    if i < p.len() {
        lemma_rows_count(p, i + 1);
        lemma_row_count(p, i, 0);
        let f = firsts_from(p, i + 1) as int;
        let rest = pairs_from(p, i + 1, 0).len() as int;
        if is_first(p, i) {
            assert(2 * pairs == here * (here - 1)) by (nonlinear_arith)
                requires
                    here == f + 1,
                    pairs == rest + f,
                    2 * rest == f * (f - 1),
            ;
        }
    } else {
        assert(here * (here - 1) == 0) by (nonlinear_arith)
            requires
                here == 0,
        ;
    }
}

/// No pair twice, in numbers: a list with `d` different values gives
/// `d * (d - 1) / 2` pairs, one for each two of its values.
pub proof fn lemma_dedup_pairs_count(p: Seq<usize>)
    ensures
        2 * dedup_pairs(p).len() == p.to_set().len() * (p.to_set().len() - 1),
{
    lemma_rows_count(p, 0);
    lemma_firsts_count(p, 0);
    assert(p.take(0).to_set() =~= Set::<usize>::empty());
}

/// Walks a list of positions and hands out pairs of its values: no pair of equal
/// values, and of each two different values one pair, in one order only.
pub struct DeDupPairIter<'a> {
    vec: &'a Vec<usize>,
    outer: usize,
    inner: usize,
    processed: HashSet<u128>,
}

impl<'a> DeDupPairIter<'a> {
    /// The list that is walked.
    pub closed spec fn list(&self) -> Seq<usize> {
        self.vec@
    }

    /// The pairs still to come, in order.
    pub closed spec fn remaining(&self) -> Seq<(usize, usize)> {
        pairs_from(self.vec@, self.outer as int, self.inner as int)
    }

    /// The cursors are inside the list and the set of pairs handed out is up to
    /// date.
    pub closed spec fn wf(&self) -> bool {
        &&& self.outer <= self.vec@.len()
        &&& self.inner <= self.vec@.len()
        &&& forall|a: usize, b: usize|
            self.processed@.contains(#[trigger] pair_key(a, b)) <==> seen_before(
                self.vec@,
                self.outer as int,
                self.inner as int,
                a,
                b,
            )
    }

    /// Starts at the head of `vec`.
    pub fn new(vec: &'a Vec<usize>) -> (iter: DeDupPairIter<'a>)
        ensures
            iter.wf(),
            iter.list() == vec@,
            iter.remaining() == dedup_pairs(vec@),
    {
        DeDupPairIter { vec, outer: 0, inner: 0, processed: HashSet::new() }
    }

    /// The next pair, or `None` when all pairs were handed out.
    pub fn next(&mut self) -> (pair: Option<(usize, usize)>)
        requires
            old(self).wf(),
        ensures
            final(self).wf(),
            final(self).list() == old(self).list(),
            match pair {
                Some(p) => old(self).remaining().len() > 0 && p == old(self).remaining()[0]
                    && final(self).remaining() == old(self).remaining().drop_first(),
                None => old(self).remaining().len() == 0 && final(self).remaining().len() == 0,
            },
    {
        let len = self.vec.len();
        loop
            invariant
                self.wf(),
                self.vec == old(self).vec,
                len == self.vec@.len(),
                self.remaining() == old(self).remaining(),
            decreases len - self.outer, len - self.inner,
        {
            if self.outer >= len {
                return None;
            }
            if self.inner >= len {
                self.outer = self.outer + 1;
                self.inner = 0;
            } else {
                let v1 = self.vec[self.outer];
                let v2 = self.vec[self.inner];
                let key: u128 = v1 as u128 * 0x1_0000_0000_0000_0000 + v2 as u128;
                let rev: u128 = v2 as u128 * 0x1_0000_0000_0000_0000 + v1 as u128;
                assert(key == pair_key(v1, v2));
                assert(rev == pair_key(v2, v1));
                let process = v1 != v2 && !self.processed.contains(&key)
                    && !self.processed.contains(&rev);
                let ghost p = self.vec@;
                let ghost i = self.outer as int;
                let ghost j = self.inner as int;
                proof {
                    lemma_unseen_is_yields(p, i, j);
                }
                if process {
                    self.processed.insert(key);
                }
                self.inner = self.inner + 1;
                if process {
                    return Some((v1, v2));
                }
            }
        }
    }
}

} // verus!
