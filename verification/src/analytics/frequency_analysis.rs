//! Symbol frequencies, and their report.

use crate::analytics::count_letters::{count_letters, is_count_of};
use crate::order::{descending_order, is_descending_order, order_descending};
use crate::text::{decimal, push_decimal};
use crate::types::NumBytes;
use std::collections::HashMap;
use std::hash::Hash;
use vstd::prelude::*;
use vstd::string::*;

verus! {

/// Counts how often each symbol of `vec` occurs.
pub fn frequency_analysis<T: NumBytes + Eq + Hash>(vec: &Vec<T>) -> (map: HashMap<T, usize>)
    ensures
        is_count_of(vec@, map@),
{
    count_letters(vec)
}

/// The counts of the entries.
pub open spec fn entry_counts<T>(entries: Seq<(T, usize)>) -> Seq<usize> {
    Seq::new(entries.len(), |i: int| entries[i].1)
}

/// The line that reports one symbol: its count, then the symbol.
pub open spec fn frequency_line<T: NumBytes>(entry: (T, usize)) -> Seq<char> {
    decimal(entry.1 as nat) + ": "@ + decimal(entry.0.value()) + "\n"@
}

/// The lines of the entries at the indices `order`, in that order.
pub open spec fn frequency_lines<T: NumBytes>(entries: Seq<(T, usize)>, order: Seq<usize>) -> Seq<
    char,
>
    decreases order.len(),
{
    if order.len() == 0 {
        Seq::empty()
    } else {
        frequency_lines(entries, order.drop_last()) + frequency_line(entries[order.last() as int])
    }
}

/// The report of symbols with their counts: a line for each, the largest count
/// first, equal counts in the order of `entries`.
pub open spec fn frequency_report<T: NumBytes>(entries: Seq<(T, usize)>) -> Seq<char> {
    frequency_lines(entries, descending_order(entry_counts(entries), entries.len()))
}

/// Whether `entries` lists each symbol of `map` once, with its count.
pub open spec fn lists_map<T>(entries: Seq<(T, usize)>, map: Map<T, usize>) -> bool {
    &&& entries.no_duplicates()
    &&& forall|x: T, n: usize| #[trigger]
        entries.contains((x, n)) <==> map.contains_key(x) && map[x] == n
}

/// Appends the report of `entries` to `out`.
pub fn print_frequency_entries<T: NumBytes>(entries: &Vec<(T, usize)>, out: &mut String)
    ensures
        final(out)@ == old(out)@ + frequency_report(entries@),
{
    let mut counts: Vec<usize> = Vec::with_capacity(entries.len());
    let mut i: usize = 0;
    while i < entries.len()
        invariant
            i <= entries.len(),
            counts@ == entry_counts(entries@).take(i as int),
        decreases entries.len() - i,
    {
        counts.push(entries[i].1);
        i += 1;
    }
    assert(entry_counts(entries@).take(i as int) == entry_counts(entries@));
    let order = order_descending(&counts);
    let mut k: usize = 0;
    while k < order.len()
        invariant
            is_descending_order(counts@, entries@.len(), order@),
            k <= order.len(),
            out@ == old(out)@ + frequency_lines(entries@, order@.take(k as int)),
        decreases order.len() - k,
    {
        let at = order[k];
        push_decimal(out, entries[at].1 as u128);
        out.append(": ");
        push_decimal(out, entries[at].0.to_u128());
        out.append("\n");
        proof {
            let longer = order@.take(k + 1);
            assert(longer.drop_last() == order@.take(k as int));
        }
        k += 1;
    }
    assert(order@.take(k as int) == order@);
}

/// The symbols of `map` with their counts, each once, in the order in which the
/// map hands them out.
pub fn map_entries<T: NumBytes + Eq + Hash>(map: &HashMap<T, usize>) -> (entries: Vec<(T, usize)>)
    ensures
        lists_map(entries@, map@),
{
    proof {
        T::lemma_key_model();
    }
    let mut entries: Vec<(T, usize)> = Vec::with_capacity(map.len());
    for pair in it: map.iter()
        invariant
            it.seq().no_duplicates(),
            it.seq().unref().to_set() == map@.kv_pairs(),
            entries@ == it.seq().unref().take(it.index() as int),
            it.index() == it.seq().len() ==> lists_map(entries@, map@),
    {
        entries.push((*pair.0, *pair.1));
        assert(entries@ =~= it.seq().unref().take(it.index() + 1));
        assert(it.seq().unref().take(it.seq().len() as int) == it.seq().unref());
        assert forall|x: T, n: usize| #[trigger]
            it.seq().unref().contains((x, n)) <==> map@.contains_key(x) && map@[x] == n by {
            assert(it.seq().unref().to_set().contains((x, n)) == map@.kv_pairs().contains((x, n)));
        }
    }
    entries
}

/// Appends the report of the counts in `map` to `out`: a line for each symbol,
/// the largest count first. Symbols with the same count come in the order in
/// which the map hands them out.
pub fn print_frequency_analysis_result<T: NumBytes + Eq + Hash>(
    map: HashMap<T, usize>,
    out: &mut String,
)
    ensures
        exists|entries: Seq<(T, usize)>| #[trigger]
            lists_map(entries, map@) && final(out)@ == old(out)@ + frequency_report(entries),
{
    let entries = map_entries(&map);
    print_frequency_entries(&entries, out);
}

} // verus!
