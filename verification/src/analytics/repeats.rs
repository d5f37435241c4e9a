//! A table from words to the positions at which they start.

use crate::analytics::fingerprint::{fingerprint, indexes, lemma_indexes_one_more, IdIndex};
use crate::analytics::word_index::word_at;
use crate::types::{same_symbol, NumBytes};
use vstd::prelude::*;

verus! {

/// Whether `s` rises strictly from each element to the next.
pub open spec fn ascending(s: Seq<usize>) -> bool {
    forall|i: int, j: int| 0 <= i < j < s.len() ==> s[i] < s[j]
}

/// How many elements at the head of `s` are below `x`.
pub open spec fn lower_prefix(s: Seq<usize>, x: usize) -> nat
    decreases s.len(),
{
    if s.len() > 0 && s[0] < x {
        1 + lower_prefix(s.drop_first(), x)
    } else {
        0
    }
}

/// `s` with `x` put behind the elements at its head that are below `x`, unless
/// `x` stands there already.
pub open spec fn insert_sorted(s: Seq<usize>, x: usize) -> Seq<usize> {
    let k = lower_prefix(s, x) as int;
    if k < s.len() && s[k] == x {
        s
    } else {
        s.insert(k, x)
    }
}

/// The positions that `m` holds for `w`: none where `w` is no key.
pub open spec fn positions_of<T>(m: Map<Seq<T>, Set<usize>>, w: Seq<T>) -> Set<usize> {
    if m.contains_key(w) {
        m[w]
    } else {
        Set::empty()
    }
}

/// The map that two lists of equal length stand for: each word with the set of
/// the positions listed for it.
pub open spec fn table_map<T>(words: Seq<Seq<T>>, positions: Seq<Seq<usize>>) -> Map<
    Seq<T>,
    Set<usize>,
> {
    Map::new(|w: Seq<T>| words.contains(w), |w: Seq<T>| positions[words.index_of(w)].to_set())
}

/// No word is listed twice, and each word has its positions in ascending order,
/// at least one.
pub open spec fn well_formed<T>(words: Seq<Seq<T>>, positions: Seq<Seq<usize>>) -> bool {
    &&& words.len() == positions.len()
    &&& words.no_duplicates()
    &&& forall|k: int|
        0 <= k < positions.len() ==> (#[trigger] positions[k]).len() > 0 && ascending(positions[k])
}

/// `lower_prefix` counts a head of `s` that is below `x`, and stops at an element
/// that is not.
pub proof fn lemma_lower_prefix(s: Seq<usize>, x: usize)
    ensures
        lower_prefix(s, x) <= s.len(),
        forall|i: int| 0 <= i < lower_prefix(s, x) ==> s[i] < x,
        lower_prefix(s, x) < s.len() ==> s[lower_prefix(s, x) as int] >= x,
    decreases s.len(),
{
    if s.len() > 0 && s[0] < x {
        let t = s.drop_first();
        lemma_lower_prefix(t, x);
        assert forall|i: int| 0 <= i < lower_prefix(s, x) implies s[i] < x by {
            if i > 0 {
                assert(s[i] == t[i - 1]);
            }
        }
    }
}

/// Inserting into an ascending list keeps it ascending and adds `x` to what it
/// holds.
pub proof fn lemma_insert_sorted(s: Seq<usize>, x: usize)
    requires
        ascending(s),
    ensures
        ascending(insert_sorted(s, x)),
        insert_sorted(s, x).to_set() == s.to_set().insert(x),
        insert_sorted(s, x).len() > 0,
{
    lemma_lower_prefix(s, x);
    let k = lower_prefix(s, x) as int;
    let r = insert_sorted(s, x);
    if k < s.len() && s[k] == x {
        assert(s.contains(x));
        assert(r.to_set() =~= s.to_set().insert(x));
    } else {
        assert forall|i: int, j: int| 0 <= i < j < r.len() implies r[i] < r[j] by {
            if i < k && j > k {
                assert(r[j] == s[j - 1]);
                if j - 1 > k {
                    assert(s[k] < s[j - 1]);
                }
            }
        }
        assert forall|y: usize| r.to_set().contains(y) <==> s.to_set().insert(x).contains(y) by {
            if r.contains(y) {
                let i = choose|i: int| 0 <= i < r.len() && r[i] == y;
                if i < k {
                    assert(s[i] == y);
                } else if i > k {
                    assert(s[i - 1] == y);
                }
            }
            if s.contains(y) {
                let i = choose|i: int| 0 <= i < s.len() && s[i] == y;
                if i < k {
                    assert(r[i] == y);
                } else {
                    assert(r[i + 1] == y);
                }
            }
            if y == x {
                assert(r[k] == x);
            }
        }
        assert(r.to_set() =~= s.to_set().insert(x));
    }
}

/// Putting one more position under a word changes the map at that word only.
pub proof fn lemma_table_map_insert<T>(
    words: Seq<Seq<T>>,
    positions: Seq<Seq<usize>>,
    w: Seq<T>,
    x: usize,
)
    requires
        well_formed(words, positions),
    ensures
        match words.index_of_first(w) {
            Some(k) => well_formed(
                words,
                positions.update(k, insert_sorted(positions[k], x)),
            ) && table_map(words, positions.update(k, insert_sorted(positions[k], x)))
                == table_map(words, positions).insert(
                w,
                positions_of(table_map(words, positions), w).insert(x),
            ),
            None => well_formed(words.push(w), positions.push(seq![x])) && table_map(
                words.push(w),
                positions.push(seq![x]),
            ) == table_map(words, positions).insert(
                w,
                positions_of(table_map(words, positions), w).insert(x),
            ),
        },
{
    words.index_of_first_ensures(w);
    let before = table_map(words, positions);
    let target = before.insert(w, positions_of(before, w).insert(x));
    match words.index_of_first(w) {
        Some(k) => {
            lemma_insert_sorted(positions[k], x);
        },
        None => {
            let longer = words.push(w);
            let updated = positions.push(seq![x]);
            let after = table_map(longer, updated);
            assert(longer[words.len() as int] == w);
            assert forall|v: Seq<T>| after.contains_key(v) <==> target.contains_key(v) by {
                if words.contains(v) {
                    let i = words.index_of(v);
                    assert(longer[i] == v);
                }
            }
            assert forall|v: Seq<T>| after.contains_key(v) implies after[v] == target[v] by {
                if v == w {
                    assert(seq![x][0] == x);
                }
            }
        },
    }
}

/// One word of the table with the positions at which it starts.
struct Repeat<T> {
    word: Vec<T>,
    starts: Vec<usize>,
}

/// The repeated words that were found, each with the positions at which it
/// starts.
///
/// Words are told apart by their symbols. They are kept in the order in which
/// they were first inserted, the positions of a word in ascending order. A word
/// is found again through the fingerprint of its symbols.
pub struct Repeats<T> {
    entries: Vec<Repeat<T>>,
    index: IdIndex,
}

impl<T> View for Repeats<T> {
    type V = Map<Seq<T>, Set<usize>>;

    open spec fn view(&self) -> Map<Seq<T>, Set<usize>> {
        table_map(self.words(), self.positions())
    }
}

/// Whether two words hold the same symbols.
pub fn same_word<T: NumBytes>(a: &Vec<T>, b: &Vec<T>) -> (r: bool)
    ensures
        r == (a@ == b@),
{
    if a.len() != b.len() {
        return false;
    }
    let mut i: usize = 0;
    while i < a.len()
        invariant
            a.len() == b.len(),
            i <= a.len(),
            a@.subrange(0, i as int) == b@.subrange(0, i as int),
        decreases a.len() - i,
    {
        if !same_symbol(a[i], b[i]) {
            return false;
        }
        i += 1;
    }
    assert(a@ == a@.subrange(0, i as int));
    assert(b@ == b@.subrange(0, i as int));
    true
}

/// A copy of `word`.
pub fn copy_word<T: Copy>(word: &Vec<T>) -> (copy: Vec<T>)
    ensures
        copy@ == word@,
{
    let mut copy: Vec<T> = Vec::with_capacity(word.len());
    let mut i: usize = 0;
    while i < word.len()
        invariant
            i <= word.len(),
            copy@ == word@.subrange(0, i as int),
        decreases word.len() - i,
    {
        copy.push(word[i]);
        i += 1;
    }
    copy
}

/// Puts `x` into the ascending `list` where it belongs, unless it stands there
/// already.
pub fn insert_position(list: &mut Vec<usize>, x: usize)
    requires
        ascending(old(list)@),
    ensures
        final(list)@ == insert_sorted(old(list)@, x),
        ascending(final(list)@),
{
    let ghost s = list@;
    proof {
        lemma_lower_prefix(s, x);
    }
    let mut low: usize = 0;
    let mut high: usize = list.len();
    while low < high
        invariant
            list@ == s,
            ascending(s),
            low <= lower_prefix(s, x) <= high <= s.len(),
            forall|i: int| 0 <= i < lower_prefix(s, x) ==> s[i] < x,
            lower_prefix(s, x) < s.len() ==> s[lower_prefix(s, x) as int] >= x,
        decreases high - low,
    {
        let middle = low + (high - low) / 2;
        if list[middle] < x {
            low = middle + 1;
        } else {
            high = middle;
        }
    }
    if low < list.len() && list[low] == x {
        return ;
    }
    list.insert(low, x);
}

impl<T> Repeats<T> {
    /// The words, in the order in which they were first inserted.
    pub closed spec fn words(&self) -> Seq<Seq<T>> {
        Seq::new(self.entries@.len(), |i: int| self.entries@[i].word@)
    }

    /// For each word, in the same order, its positions.
    pub closed spec fn positions(&self) -> Seq<Seq<usize>> {
        Seq::new(self.entries@.len(), |i: int| self.entries@[i].starts@)
    }

    /// The number of words.
    pub fn len(&self) -> (n: usize)
        ensures
            n == self.words().len(),
            n == self.positions().len(),
    {
        self.entries.len()
    }

    /// The word at `index`.
    pub fn word(&self, index: usize) -> (word: &Vec<T>)
        requires
            index < self.words().len(),
        ensures
            word@ == self.words()[index as int],
    {
        &self.entries[index].word
    }

    /// The positions of the word at `index`.
    pub fn starts(&self, index: usize) -> (starts: &Vec<usize>)
        requires
            index < self.words().len(),
        ensures
            starts@ == self.positions()[index as int],
    {
        &self.entries[index].starts
    }
}

impl<T: NumBytes> Repeats<T> {
    /// Each word is listed under its fingerprint, for finding it again.
    pub closed spec fn indexed(&self) -> bool {
        indexes(self.index, self.words())
    }

    /// No word is listed twice, each has its positions in ascending order, and
    /// each can be found again.
    pub open spec fn wf(&self) -> bool {
        well_formed(self.words(), self.positions()) && self.indexed()
    }

    /// A table without words.
    pub fn new() -> (table: Repeats<T>)
        ensures
            table.wf(),
            table.words() == Seq::<Seq<T>>::empty(),
            table.positions() == Seq::<Seq<usize>>::empty(),
            table@ == Map::<Seq<T>, Set<usize>>::empty(),
    {
        Repeats { entries: Vec::new(), index: IdIndex::new() }
    }

    /// Adds `position` to the positions of `word`, and `word` to the table if it is
    /// new.
    pub fn insert(&mut self, word: &Vec<T>, position: usize)
        requires
            old(self).wf(),
        ensures
            final(self).wf(),
            (match old(self).words().index_of_first(word@) {
                Some(k) => final(self).words() == old(self).words() && final(self).positions()
                    == old(self).positions().update(
                    k,
                    insert_sorted(old(self).positions()[k], position),
                ),
                None => final(self).words() == old(self).words().push(word@)
                    && final(self).positions() == old(self).positions().push(seq![position]),
            }),
            final(self)@ == old(self)@.insert(
                word@,
                positions_of(old(self)@, word@).insert(position),
            ),
    {
        let ghost words = self.words();
        proof {
            words.index_of_first_ensures(word@);
            lemma_table_map_insert(words, self.positions(), word@, position);
            assert(word_at(word@, 0, word@.len() as int) == word@);
        }
        let h = fingerprint(word, 0, word.len());
        match self.index.get(h) {
            Some(ids) => {
                let mut k: usize = 0;
                while k < ids.len()
                    invariant
                        *self == *old(self),
                        words == self.words(),
                        self.wf(),
                        k <= ids.len(),
                        ids@ == self.index.ids(h),
                        forall|j: int| 0 <= j < k ==> words[ids@[j] as int] != word@,
                    decreases ids.len() - k,
                {
                    let at = ids[k];
                    if same_word(&self.entries[at].word, word) {
                        proof {
                            assert(words[at as int] == word@);
                            words.index_of_first_ensures(word@);
                            lemma_table_map_insert(words, self.positions(), word@, position);
                        }
                        insert_position(&mut self.entries[at].starts, position);
                        assert(self.words() =~= words);
                        assert(self.positions() =~= old(self).positions().update(
                            at as int,
                            insert_sorted(old(self).positions()[at as int], position),
                        ));
                        return ;
                    }
                    k += 1;
                }
            },
            None => {},
        }
        let ghost old_index = self.index;
        let mut starts: Vec<usize> = Vec::new();
        starts.push(position);
        self.entries.push(Repeat { word: copy_word(word), starts });
        let id = self.entries.len() - 1;
        self.index.add(h, id);
        proof {
            assert(self.words() =~= words.push(word@));
            assert(self.positions() =~= old(self).positions().push(seq![position]));
            lemma_indexes_one_more(old_index, self.index, words, word@);
        }
    }
}

} // verus!
