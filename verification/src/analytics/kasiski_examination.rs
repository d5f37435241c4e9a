//! Repeated words of a symbol sequence and where they start.

use crate::analytics::dedup_pair_iter::{
    cursor_before, dedup_pairs, lemma_pairs_from, yielded_from, yields, DeDupPairIter,
};
use crate::analytics::repeats::{ascending, positions_of, Repeats};
use crate::analytics::word_index::{
    group_lists, index_words, is_word_index, listed, window_count, word_at,
};
use crate::order::{descending_order, is_descending_order, order_descending};
use crate::text::{decimal, joined, position_numbers, push_decimal, push_positions, push_symbols};
use crate::types::{same_symbol, symbol_numbers, NumBytes};
use vstd::prelude::*;
use vstd::string::*;

verus! {

/// How many symbols agree when `s` is read from `c1` and from `c2` in step, up to
/// the first difference or the end of `s`.
pub open spec fn common_length<T>(s: Seq<T>, c1: int, c2: int) -> nat
    decreases s.len() - c1,
{
    if 0 <= c1 < s.len() && 0 <= c2 < s.len() && s[c1] == s[c2] {
        1 + common_length(s, c1 + 1, c2 + 1)
    } else {
        0
    }
}

/// The symbols counted by `common_length` lie inside `s` and agree, and the count
/// stops only at a difference or at the end of `s`.
pub proof fn lemma_common_length<T>(s: Seq<T>, c1: int, c2: int)
    requires
        0 <= c1 <= s.len(),
        0 <= c2 <= s.len(),
    ensures
        c1 + common_length(s, c1, c2) <= s.len(),
        c2 + common_length(s, c1, c2) <= s.len(),
        word_at(s, c1, common_length(s, c1, c2) as int) == word_at(
            s,
            c2,
            common_length(s, c1, c2) as int,
        ),
        ({
            let l = common_length(s, c1, c2);
            c1 + l == s.len() || c2 + l == s.len() || s[c1 + l] != s[c2 + l]
        }),
    decreases s.len() - c1,
{
    let l = common_length(s, c1, c2);
    if c1 < s.len() && c2 < s.len() && s[c1] == s[c2] {
        lemma_common_length(s, c1 + 1, c2 + 1);
        let a = word_at(s, c1, l as int);
        let b = word_at(s, c2, l as int);
        assert forall|k: int| 0 <= k < l implies a[k] == b[k] by {
            if k > 0 {
                assert(a[k] == word_at(s, c1 + 1, l - 1)[k - 1]);
            }
        }
    }
}

/// Counts the symbols that agree when `vec` is read from `start1` and from
/// `start2` in step. A start at or beyond the end gives zero.
pub fn find_common_length<T: NumBytes>(vec: &Vec<T>, start1: usize, start2: usize) -> (length:
    usize)
    ensures
        length == common_length(vec@, start1 as int, start2 as int),
{
    let mut common_length: usize = 0;
    let mut pos1 = start1;
    let mut pos2 = start2;
    let vec_len = vec.len();
    while pos1 < vec_len && pos2 < vec_len
        invariant
            vec_len == vec.len(),
            pos1 == start1 + common_length,
            pos2 == start2 + common_length,
            common_length <= vec_len,
            self::common_length(vec@, start1 as int, start2 as int) == common_length
                + self::common_length(vec@, pos1 as int, pos2 as int),
        ensures
            self::common_length(vec@, pos1 as int, pos2 as int) == 0,
        decreases vec_len - pos1,
    {
        if !same_symbol(vec[pos1], vec[pos2]) {
            break ;
        }
        common_length += 1;
        pos1 += 1;
        pos2 += 1;
    }
    common_length
}

/// Copies the `length` symbols of `vec` from `start` on.
pub fn param_to_word<T: Copy>(vec: &Vec<T>, start: usize, length: usize) -> (word: Vec<T>)
    requires
        start + length <= vec.len(),
    ensures
        word@ == word_at(vec@, start as int, length as int),
{
    let mut result: Vec<T> = Vec::with_capacity(length);
    let mut j: usize = start;
    while j < start + length
        invariant
            start <= j <= start + length <= vec.len(),
            result@ == vec@.subrange(start as int, j as int),
        decreases start + length - j,
    {
        result.push(vec[j]);
        j += 1;
    }
    result
}

/// Whether the words of `min_length` symbols at the positions `a` and `b` are the
/// same, `a` being the earlier of the two.
pub open spec fn is_anchor_pair<T>(s: Seq<T>, min_length: nat, a: int, b: int) -> bool {
    &&& 0 <= a < b
    &&& b + min_length <= s.len()
    &&& word_at(s, a, min_length as int) == word_at(s, b, min_length as int)
}

/// All pairs of positions at which the same word of `min_length` symbols starts.
pub open spec fn anchor_pairs<T>(s: Seq<T>, min_length: nat) -> Set<(usize, usize)> {
    Set::new(|p: (usize, usize)| is_anchor_pair(s, min_length, p.0 as int, p.1 as int))
}

/// The word at `a`, as long as the words at `a` and `b` go on to agree beyond
/// their first `min_length` symbols.
pub open spec fn extended_word<T>(s: Seq<T>, min_length: nat, a: int, b: int) -> Seq<T> {
    word_at(s, a, (min_length + common_length(s, a + min_length, b + min_length)) as int)
}

/// The table that a set of pairs gives: the extended word of each pair, with
/// the positions of all pairs that have this extended word.
pub open spec fn repeats_of<T>(s: Seq<T>, min_length: nat, pairs: Set<(usize, usize)>) -> Map<
    Seq<T>,
    Set<usize>,
> {
    Map::new(
        |w: Seq<T>|
            exists|p: (usize, usize)| #[trigger]
                pairs.contains(p) && extended_word(s, min_length, p.0 as int, p.1 as int) == w,
        |w: Seq<T>|
            Set::new(
                |x: usize|
                    exists|p: (usize, usize)| #[trigger]
                        pairs.contains(p) && extended_word(s, min_length, p.0 as int, p.1 as int)
                            == w && (x == p.0 || x == p.1),
            ),
    )
}

/// The repeated words of `s`: for every two positions with the same word of
/// `min_length` symbols the extended word of the two, with both positions.
pub open spec fn kasiski_map<T>(s: Seq<T>, min_length: nat) -> Map<Seq<T>, Set<usize>> {
    repeats_of(s, min_length, anchor_pairs(s, min_length))
}

/// Whether `a` stands before `b` in `list`.
pub open spec fn in_list_pair(list: Seq<usize>, a: usize, b: usize) -> bool {
    exists|i: int, j: int|
        #![trigger list[i], list[j]]
        0 <= i < j < list.len() && list[i] == a && list[j] == b
}

/// The pairs of the groups before group `g`, and the first `k` pairs of `all`.
pub open spec fn visited(lists: Seq<Seq<usize>>, g: int, all: Seq<(usize, usize)>, k: int) -> Set<
    (usize, usize),
> {
    Set::new(
        |p: (usize, usize)|
            (exists|h: int| 0 <= h < g && #[trigger] in_list_pair(lists[h], p.0, p.1)) || (exists|
                t: int,
            |
                0 <= t < k && #[trigger] all[t] == p),
    )
}

/// One more pair changes the table at the extended word of the pair only, where
/// it adds the two positions.
pub proof fn lemma_repeats_add<T>(
    s: Seq<T>,
    min_length: nat,
    pairs: Set<(usize, usize)>,
    a: usize,
    b: usize,
)
    ensures
        repeats_of(s, min_length, pairs.insert((a, b))) == ({
            let before = repeats_of(s, min_length, pairs);
            let w = extended_word(s, min_length, a as int, b as int);
            before.insert(w, positions_of(before, w).insert(a).insert(b))
        }),
{
    let before = repeats_of(s, min_length, pairs);
    let w = extended_word(s, min_length, a as int, b as int);
    let target = before.insert(w, positions_of(before, w).insert(a).insert(b));
    let more = pairs.insert((a, b));
    let after = repeats_of(s, min_length, more);
    assert(more.contains((a, b)));
    assert forall|v: Seq<T>| after.contains_key(v) <==> target.contains_key(v) by {
        if before.contains_key(v) {
            let p = choose|p: (usize, usize)| #[trigger]
                pairs.contains(p) && extended_word(s, min_length, p.0 as int, p.1 as int) == v;
            assert(more.contains(p));
        }
    }
    assert forall|v: Seq<T>| after.contains_key(v) implies after[v] =~= target[v] by {
        assert forall|x: usize| after[v].contains(x) <==> target[v].contains(x) by {
            if before.contains_key(v) && before[v].contains(x) {
                let p = choose|p: (usize, usize)| #[trigger]
                    pairs.contains(p) && extended_word(s, min_length, p.0 as int, p.1 as int)
                        == v && (x == p.0 || x == p.1);
                assert(more.contains(p));
            }
        }
    }
}

/// In an ascending list the pairs handed out are the pairs of an earlier and a
/// later element.
pub proof fn lemma_pairs_of_ascending(list: Seq<usize>)
    requires
        ascending(list),
    ensures
        forall|a: usize, b: usize|
            dedup_pairs(list).contains((a, b)) <==> #[trigger] in_list_pair(list, a, b),
{
    lemma_pairs_from(list, 0, 0);
    assert forall|a: usize, b: usize|
        dedup_pairs(list).contains((a, b)) <==> #[trigger] in_list_pair(list, a, b) by {
        if yielded_from(list, 0, 0, a, b) {
            let (i, j) = choose|i: int, j: int|
                #[trigger] yields(list, i, j) && !cursor_before(i, j, 0, 0) && list[i] == a
                    && list[j] == b;
            assert(list[i] == a && list[j] == b);
        }
        if in_list_pair(list, a, b) {
            let (i, j) = choose|i: int, j: int|
                #![trigger list[i], list[j]]
                0 <= i < j < list.len() && list[i] == a && list[j] == b;
            assert(yields(list, i, j) && !cursor_before(i, j, 0, 0));
        }
    }
}

/// The pairs inside the groups of a word index are the anchor pairs.
pub proof fn lemma_groups_hold_anchor_pairs<T>(s: Seq<T>, min_length: nat, lists: Seq<Seq<usize>>)
    requires
        is_word_index(s, min_length, lists, window_count(s.len(), min_length)),
    ensures
        visited(lists, lists.len() as int, Seq::empty(), 0) == anchor_pairs(s, min_length),
{
    let left = visited(lists, lists.len() as int, Seq::empty(), 0);
    let right = anchor_pairs(s, min_length);
    assert forall|p: (usize, usize)| left.contains(p) <==> right.contains(p) by {
        if right.contains(p) {
            let a = p.0 as int;
            let b = p.1 as int;
            assert(listed(lists, a));
            assert(listed(lists, b));
            let (g, i) = choose|g: int, i: int|
                0 <= g < lists.len() && 0 <= i < lists[g].len() && #[trigger] lists[g][i] == a;
            assert(in_list_pair(lists[g], p.0, p.1));
        }
    }
}

/// How many pairs the groups before group `upto` hand out: one extension is
/// computed for each.
pub open spec fn pairs_in_groups(lists: Seq<Seq<usize>>, upto: int) -> nat
    decreases upto,
{
    if upto <= 0 {
        0
    } else {
        pairs_in_groups(lists, upto - 1) + dedup_pairs(lists[upto - 1]).len()
    }
}

/// The groups before group `upto` hand out as many pairs as there are pairs of
/// positions inside them: no pair comes twice, in one group or in two.
proof fn lemma_pairs_in_groups<T>(s: Seq<T>, min_length: nat, lists: Seq<Seq<usize>>, upto: int)
    requires
        is_word_index(s, min_length, lists, window_count(s.len(), min_length)),
        0 <= upto <= lists.len(),
    ensures
        visited(lists, upto, Seq::empty(), 0).finite(),
        visited(lists, upto, Seq::empty(), 0).len() == pairs_in_groups(lists, upto),
    decreases upto,
{
    let here = visited(lists, upto, Seq::empty(), 0);
    if upto == 0 {
        assert(here =~= Set::<(usize, usize)>::empty());
    } else {
        let g = upto - 1;
        lemma_pairs_in_groups(s, min_length, lists, g);
        let before = visited(lists, g, Seq::empty(), 0);
        let list = lists[g];
        let all = dedup_pairs(list);
        lemma_pairs_of_ascending(list);
        lemma_pairs_from(list, 0, 0);
        all.unique_seq_to_set();
        assert(before.disjoint(all.to_set())) by {
            assert forall|p: (usize, usize)| before.contains(p) implies !all.to_set().contains(
                p,
            ) by {
                if all.contains(p) {
                    assert(in_list_pair(list, p.0, p.1));
                }
            }
        }
        assert(here =~= before + all.to_set()) by {
            assert forall|p: (usize, usize)| here.contains(p) <==> (before + all.to_set()).contains(
                p,
            ) by {
                if all.contains(p) {
                    assert(in_list_pair(lists[g], p.0, p.1));
                }
            }
        }
        vstd::set_lib::lemma_set_disjoint_lens(before, all.to_set());
    }
}

/// No pair is extended twice: over all groups of a word index, as many pairs are
/// handed out as there are pairs of positions with the same word.
pub proof fn lemma_one_extension_per_pair<T>(s: Seq<T>, min_length: nat, lists: Seq<Seq<usize>>)
    requires
        is_word_index(s, min_length, lists, window_count(s.len(), min_length)),
    ensures
        anchor_pairs(s, min_length).finite(),
        pairs_in_groups(lists, lists.len() as int) == anchor_pairs(s, min_length).len(),
{
    lemma_groups_hold_anchor_pairs(s, min_length, lists);
    lemma_pairs_in_groups(s, min_length, lists, lists.len() as int);
}

/// Finds the repeated words of `vec`: for every two positions at which the same
/// word of `min_length` symbols starts, the word at the first position, as long as
/// the two go on to agree, is listed with both positions.
///
/// A sequence of at most `min_length` symbols gives an empty table. With a
/// `min_length` of zero every two positions from the first up to the end of the
/// sequence share the empty word, and are listed under what follows it at both.
pub fn kasiski_examination<T: NumBytes>(vec: &Vec<T>, min_length: usize) -> (result: Repeats<T>)
    ensures
        result.wf(),
        result@ == kasiski_map(vec@, min_length as nat),
        vec@.len() <= min_length ==> result@ == Map::<Seq<T>, Set<usize>>::empty(),
{
    let mut result: Repeats<T> = Repeats::new();
    let groups = index_words(vec, min_length);
    let ghost s = vec@;
    let ghost lists = group_lists(groups@);
    let ghost count = window_count(s.len(), min_length as nat);
    proof {
        assert(s.len() == vec.len());
    }
    let mut g: usize = 0;
    while g < groups.len()
        invariant
            s == vec@,
            s.len() <= usize::MAX,
            lists == group_lists(groups@),
            count == window_count(s.len(), min_length as nat),
            is_word_index(s, min_length as nat, lists, count),
            g <= groups.len(),
            result.wf(),
            result@ == repeats_of(s, min_length as nat, visited(lists, g as int, Seq::empty(), 0)),
        decreases groups.len() - g,
    {
        let list = &groups[g];
        let mut iter = DeDupPairIter::new(list);
        let ghost all = dedup_pairs(list@);
        let ghost mut k: int = 0;
        proof {
            assert(lists[g as int] == list@);
            lemma_pairs_of_ascending(list@);
            assert(visited(lists, g as int, all, 0) =~= visited(lists, g as int, Seq::empty(), 0));
        }
        loop
            invariant
                s == vec@,
                s.len() <= usize::MAX,
                lists == group_lists(groups@),
                count == window_count(s.len(), min_length as nat),
                is_word_index(s, min_length as nat, lists, count),
                g < groups.len(),
                list@ == lists[g as int],
                all == dedup_pairs(list@),
                forall|a: usize, b: usize|
                    all.contains((a, b)) <==> #[trigger] in_list_pair(list@, a, b),
                iter.wf(),
                0 <= k <= all.len(),
                iter.remaining() == all.skip(k),
                result.wf(),
                result@ == repeats_of(s, min_length as nat, visited(lists, g as int, all, k)),
            ensures
                k == all.len(),
            decreases all.len() - k,
        {
            match iter.next() {
                None => {
                    break ;
                },
                Some((a, b)) => {
                    let ghost done = visited(lists, g as int, all, k);
                    proof {
                        assert(in_list_pair(list@, a, b));
                        lemma_common_length(s, a + min_length, b + min_length);
                    }
                    let check1 = a + min_length;
                    let check2 = b + min_length;
                    let l = find_common_length(vec, check1, check2);
                    let total_length = min_length + l;
                    let l_word = param_to_word(vec, a, total_length);
                    result.insert(&l_word, a);
                    result.insert(&l_word, b);
                    proof {
                        lemma_repeats_add(s, min_length as nat, done, a, b);
                        assert(visited(lists, g as int, all, k + 1) =~= done.insert((a, b)));
                        k = k + 1;
                    }
                },
            }
        }
        proof {
            let here = visited(lists, g as int, all, k);
            let next = visited(lists, g + 1, Seq::empty(), 0);
            assert forall|p: (usize, usize)| here.contains(p) <==> next.contains(p) by {
                if exists|t: int| 0 <= t < k && #[trigger] all[t] == p {
                    assert(in_list_pair(lists[g as int], p.0, p.1));
                }
            }
            assert(here =~= next);
        }
        g += 1;
    }
    proof {
        lemma_groups_hold_anchor_pairs(s, min_length as nat, lists);
    }
    result
}

/// A sequence of at most `min_length` symbols has no repeated words.
pub proof fn lemma_short_sequence<T>(s: Seq<T>, min_length: nat)
    requires
        s.len() < min_length + 1,
    ensures
        kasiski_map(s, min_length) == Map::<Seq<T>, Set<usize>>::empty(),
{
}

/// The extended word of an anchor pair lies inside `s`, begins with the word the
/// two positions share, and stands at both positions.
pub proof fn lemma_extended_word<T>(s: Seq<T>, min_length: nat, a: int, b: int)
    requires
        is_anchor_pair(s, min_length, a, b),
    ensures
        ({
            let w = extended_word(s, min_length, a, b);
            &&& w.len() >= min_length
            &&& a + w.len() <= s.len()
            &&& b + w.len() <= s.len()
            &&& w.subrange(0, min_length as int) == word_at(s, a, min_length as int)
            &&& w == word_at(s, a, w.len() as int)
            &&& w == word_at(s, b, w.len() as int)
        }),
{
    let l = common_length(s, a + min_length, b + min_length);
    lemma_common_length(s, a + min_length, b + min_length);
    let w = extended_word(s, min_length, a, b);
    let v = word_at(s, b, w.len() as int);
    let xe = word_at(s, a + min_length, l as int);
    assert forall|k: int| 0 <= k < w.len() implies w[k] == v[k] by {
        if k >= min_length {
            assert(w[k] == xe[k - min_length]);
        }
    }
}

/// Completeness: two different positions at which the same word of `min_length`
/// symbols starts are listed together, under a word that begins with the word
/// they share.
pub proof fn lemma_completeness<T>(s: Seq<T>, min_length: nat, first: usize, second: usize)
    requires
        first != second,
        first + min_length <= s.len(),
        second + min_length <= s.len(),
        word_at(s, first as int, min_length as int) == word_at(s, second as int, min_length as int),
    ensures
        exists|w: Seq<T>|
            {
                &&& #[trigger] kasiski_map(s, min_length).contains_key(w)
                &&& w.len() >= min_length
                &&& w.subrange(0, min_length as int) == word_at(s, first as int, min_length as int)
                &&& kasiski_map(s, min_length)[w].contains(first)
                &&& kasiski_map(s, min_length)[w].contains(second)
            },
{
    let a = if first < second {
        first
    } else {
        second
    };
    let b = if first < second {
        second
    } else {
        first
    };
    let w = extended_word(s, min_length, a as int, b as int);
    lemma_extended_word(s, min_length, a as int, b as int);
    assert(anchor_pairs(s, min_length).contains((a, b)));
    assert(kasiski_map(s, min_length).contains_key(w));
}

/// Merging by content: two anchor pairs with the same extended word are listed
/// under that one word, which has the positions of both.
pub proof fn lemma_merging<T>(
    s: Seq<T>,
    min_length: nat,
    a1: usize,
    b1: usize,
    a2: usize,
    b2: usize,
)
    requires
        is_anchor_pair(s, min_length, a1 as int, b1 as int),
        is_anchor_pair(s, min_length, a2 as int, b2 as int),
        extended_word(s, min_length, a1 as int, b1 as int) == extended_word(
            s,
            min_length,
            a2 as int,
            b2 as int,
        ),
    ensures
        ({
            let w = extended_word(s, min_length, a1 as int, b1 as int);
            &&& kasiski_map(s, min_length).contains_key(w)
            &&& kasiski_map(s, min_length)[w].contains(a1)
            &&& kasiski_map(s, min_length)[w].contains(b1)
            &&& kasiski_map(s, min_length)[w].contains(a2)
            &&& kasiski_map(s, min_length)[w].contains(b2)
        }),
{
    assert(anchor_pairs(s, min_length).contains((a1, b1)));
    assert(anchor_pairs(s, min_length).contains((a2, b2)));
}

/// Every listed word has at least `min_length` symbols and at least two
/// positions, and it stands in `s` at each of its positions.
pub proof fn lemma_listed_words<T>(s: Seq<T>, min_length: nat, w: Seq<T>)
    requires
        kasiski_map(s, min_length).contains_key(w),
    ensures
        w.len() >= min_length,
        exists|a: usize, b: usize|
            a != b && #[trigger] kasiski_map(s, min_length)[w].contains(a) && #[trigger] kasiski_map(
                s,
                min_length,
            )[w].contains(b),
        forall|x: usize| #[trigger]
            kasiski_map(s, min_length)[w].contains(x) ==> x + w.len() <= s.len() && word_at(
                s,
                x as int,
                w.len() as int,
            ) == w,
{
    let pairs = anchor_pairs(s, min_length);
    let p = choose|p: (usize, usize)| #[trigger]
        pairs.contains(p) && extended_word(s, min_length, p.0 as int, p.1 as int) == w;
    lemma_extended_word(s, min_length, p.0 as int, p.1 as int);
    assert(kasiski_map(s, min_length)[w].contains(p.0));
    assert(kasiski_map(s, min_length)[w].contains(p.1));
    assert forall|x: usize| #[trigger] kasiski_map(s, min_length)[w].contains(x) implies x
        + w.len() <= s.len() && word_at(s, x as int, w.len() as int) == w by {
        let q = choose|q: (usize, usize)| #[trigger]
            pairs.contains(q) && extended_word(s, min_length, q.0 as int, q.1 as int) == w && (x
                == q.0 || x == q.1);
        lemma_extended_word(s, min_length, q.0 as int, q.1 as int);
    }
}

/// Two tables found for the same sequence and the same `min_length` list the
/// same words with the same positions.
pub proof fn lemma_same_input_same_table<T>(
    first: Repeats<T>,
    second: Repeats<T>,
    s: Seq<T>,
    min_length: nat,
)
    requires
        first@ == kasiski_map(s, min_length),
        second@ == kasiski_map(s, min_length),
    ensures
        first@ == second@,
{
}

/// The lengths of the words.
pub open spec fn word_lengths<T>(words: Seq<Seq<T>>) -> Seq<usize> {
    Seq::new(words.len(), |i: int| words[i].len() as usize)
}

/// The line that reports one word: its positions in braces, then its symbols in
/// brackets.
pub open spec fn repeat_line<T: NumBytes>(word: Seq<T>, positions: Seq<usize>) -> Seq<char> {
    "{"@ + joined(position_numbers(positions)) + "}: ["@ + joined(symbol_numbers(word)) + "]\n"@
}

/// The lines of the words at the indices `order`, in that order.
pub open spec fn repeat_lines<T: NumBytes>(
    words: Seq<Seq<T>>,
    positions: Seq<Seq<usize>>,
    order: Seq<usize>,
) -> Seq<char>
    decreases order.len(),
{
    if order.len() == 0 {
        Seq::empty()
    } else {
        repeat_lines(words, positions, order.drop_last()) + repeat_line(
            words[order.last() as int],
            positions[order.last() as int],
        )
    }
}

/// The report of a table: the number of words, then a line for each word, the
/// longest word first, words of the same length in the order of the table.
pub open spec fn kasiski_report<T: NumBytes>(
    words: Seq<Seq<T>>,
    positions: Seq<Seq<usize>>,
) -> Seq<char> {
    "Words: "@ + decimal(words.len()) + "\n"@ + repeat_lines(
        words,
        positions,
        descending_order(word_lengths(words), words.len()),
    )
}

/// Appends the report of the table to `out`.
pub fn print_kasiski_examination_result<T: NumBytes>(map: Repeats<T>, out: &mut String)
    ensures
        final(out)@ == old(out)@ + kasiski_report(map.words(), map.positions()),
{
    let ghost words = map.words();
    let ghost positions = map.positions();
    out.append("Words: ");
    push_decimal(out, map.len() as u128);
    out.append("\n");
    let ghost head = out@;
    let mut lengths: Vec<usize> = Vec::with_capacity(map.len());
    let mut i: usize = 0;
    while i < map.len()
        invariant
            words == map.words(),
            i <= words.len(),
            lengths@ == word_lengths(words).take(i as int),
        decreases words.len() - i,
    {
        lengths.push(map.word(i).len());
        i += 1;
    }
    assert(word_lengths(words).take(i as int) == word_lengths(words));
    let order = order_descending(&lengths);
    let mut k: usize = 0;
    while k < order.len()
        invariant
            words == map.words(),
            positions == map.positions(),
            words.len() == positions.len(),
            is_descending_order(lengths@, words.len(), order@),
            k <= order.len(),
            out@ == head + repeat_lines(words, positions, order@.take(k as int)),
        decreases order.len() - k,
    {
        let at = order[k];
        out.append("{");
        push_positions(out, map.starts(at));
        out.append("}: [");
        push_symbols(out, map.word(at));
        out.append("]\n");
        proof {
            let longer = order@.take(k + 1);
            assert(longer.drop_last() == order@.take(k as int));
        }
        k += 1;
    }
    assert(order@.take(k as int) == order@);
}

} // verus!
