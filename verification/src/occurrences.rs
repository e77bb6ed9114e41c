//! The per-column stages: counting symbols, ordering the counts, and
//! handing out ranks.
use crate::matrix::{column_cells, Column};
use std::collections::HashMap;
use vstd::multiset::{group_multiset_axioms, lemma_multiset_empty_len, Multiset};
use vstd::prelude::*;
use vstd::seq_lib::{
    lemma_multiset_commutative, to_multiset_build, to_multiset_contains, to_multiset_len,
};
use vstd::std_specs::hash::*;
use vstd::std_specs::iter::IteratorSpec;

verus! {

/// How often `s` occurs in `col`.
pub open spec fn count_of(col: Seq<u32>, s: u32) -> nat
    decreases col.len(),
{
    if col.len() == 0 {
        0
    } else {
        count_of(col.drop_last(), s) + if col.last() == s {
            1nat
        } else {
            0nat
        }
    }
}

/// The occurrence table of a column: every symbol other than 0 that occurs
/// in it, with its number of occurrences.
pub open spec fn occurrence_table(col: Seq<u32>) -> Map<u32, u32> {
    Map::new(|s: u32| s != 0 && count_of(col, s) > 0, |s: u32| count_of(col, s) as u32)
}

/// The order of the sorted occurrence list on `(symbol, count)` pairs: the
/// larger count first, and among equal counts the smaller symbol first.
pub open spec fn comes_before(a: (u32, u32), b: (u32, u32)) -> bool {
    a.1 > b.1 || (a.1 == b.1 && a.0 < b.0)
}

/// `list` holds exactly the entries of `table`, strictly in the order of
/// [`comes_before`]. At most one list does.
pub open spec fn is_sorted_table(table: Map<u32, u32>, list: Seq<(u32, u32)>) -> bool {
    &&& forall|i: int|
        0 <= i < list.len() ==> table.contains_pair((#[trigger] list[i]).0, list[i].1)
    &&& forall|k: u32| #[trigger]
        table.contains_key(k) ==> exists|i: int| 0 <= i < list.len() && (#[trigger] list[i]).0 == k
    &&& is_strictly_ordered(list)
}

/// The rank that the entry at position `i` of a list of `len` entries gets:
/// `len - i`, cut to 32 bits.
pub open spec fn rank_at(len: nat, i: int) -> u32 {
    ((len - i) as usize) as u32
}

/// The map that results from giving the first `n` entries of `list` their
/// ranks in turn, a later entry replacing an earlier one with its symbol.
pub open spec fn ranks_of_prefix(list: Seq<(u32, u32)>, n: nat) -> Map<u32, u32>
    decreases n,
{
    if n == 0 {
        Map::empty()
    } else {
        ranks_of_prefix(list, (n - 1) as nat).insert(
            list[n - 1].0,
            rank_at(list.len(), n - 1),
        )
    }
}

/// The rank map of a sorted occurrence list: each symbol's rank, and 0 for
/// the symbol 0 whatever the list says of it.
pub open spec fn rank_table(list: Seq<(u32, u32)>) -> Map<u32, u32> {
    ranks_of_prefix(list, list.len()).insert(0, 0)
}

/// A symbol occurs at most once per cell.
pub proof fn lemma_count_of_bounded(col: Seq<u32>, s: u32)
    ensures
        count_of(col, s) <= col.len(),
    decreases col.len(),
{
    if col.len() > 0 {
        lemma_count_of_bounded(col.drop_last(), s);
    }
}

/// A symbol has a positive count exactly when it occurs.
pub proof fn lemma_count_of_positive(col: Seq<u32>, s: u32)
    ensures
        count_of(col, s) > 0 <==> col.contains(s),
    decreases col.len(),
{
    if col.len() > 0 {
        lemma_count_of_positive(col.drop_last(), s);
        if col.contains(s) {
            let i = choose|i: int| 0 <= i < col.len() && col[i] == s;
            if i < col.len() - 1 {
                assert(col.drop_last()[i] == s);
            }
        } else if col.drop_last().contains(s) {
            let i = choose|i: int| 0 <= i < col.drop_last().len() && col.drop_last()[i] == s;
            assert(col[i] == s);
        }
    }
}

/// Counts how often each symbol other than 0 occurs in a column.
pub fn _count_occurrences(seq: &Column) -> (char_counts: HashMap<u32, u32>)
    requires
        column_cells(seq).len() <= u32::MAX,
    ensures
        char_counts@ == occurrence_table(column_cells(seq)),
{
    broadcast use group_hash_axioms;

    let ghost cells = column_cells(seq);
    let n: usize = seq.len();
    let mut char_counts: HashMap<u32, u32> = HashMap::new();
    let mut i: usize = 0;
    assert(char_counts@ =~= occurrence_table(cells.take(0)));
    while i < n
        invariant
            i <= n,
            n == cells.len(),
            n <= u32::MAX,
            cells == column_cells(seq),
            char_counts@ == occurrence_table(cells.take(i as int)),
        decreases n - i,
    {
        let c: u32 = match seq.get(i) {
            Some(c) => c,
            None => 0,
        };
        proof {
            assert(cells.take(i + 1).drop_last() =~= cells.take(i as int));
            lemma_count_of_bounded(cells.take(i + 1), c);
        }
        if c != 0 {
            let seen: u32 = match char_counts.get(&c) {
                Some(k) => *k,
                None => 0,
            };
            char_counts.insert(c, seen + 1);
        }
        assert(char_counts@ =~= occurrence_table(cells.take(i + 1)));
        i += 1;
    }
    assert(cells.take(n as int) =~= cells);
    char_counts
}

/// Whether the entry `a` comes before the entry `b` in the sorted list.
fn entry_comes_before(a: (&u32, &u32), b: (&u32, &u32)) -> (r: bool)
    ensures
        r == comes_before((*a.0, *a.1), (*b.0, *b.1)),
{
    *a.1 > *b.1 || (*a.1 == *b.1 && *a.0 < *b.0)
}

/// Whether `list` is strictly in the order of [`comes_before`].
pub open spec fn is_strictly_ordered(list: Seq<(u32, u32)>) -> bool {
    forall|i: int, j: int|
        0 <= i < j < list.len() ==> comes_before(#[trigger] list[i], #[trigger] list[j])
}

/// Whether no entry of `list` stands behind one that it comes before.
spec fn is_ordered(list: Seq<(u32, u32)>) -> bool {
    forall|i: int, j: int|
        0 <= i < j < list.len() ==> !comes_before(#[trigger] list[j], #[trigger] list[i])
}

/// A list without entries has the empty multiset of entries.
proof fn lemma_no_entries(list: Seq<(u32, u32)>)
    requires
        list.len() == 0,
    ensures
        list.to_multiset() == Multiset::<(u32, u32)>::empty(),
{
    to_multiset_len(list);
    lemma_multiset_empty_len(list.to_multiset());
    assert(list.to_multiset() =~= Multiset::empty());
}

/// Merges two ordered lists of entries into one.
fn merge_entries<'a>(left: &Vec<(&'a u32, &'a u32)>, right: &Vec<(&'a u32, &'a u32)>) -> (out: Vec<
    (&'a u32, &'a u32),
>)
    requires
        is_ordered(left@.unref()),
        is_ordered(right@.unref()),
    ensures
        is_ordered(out@.unref()),
        out@.unref().to_multiset() == left@.unref().to_multiset().add(
            right@.unref().to_multiset(),
        ),
{
    broadcast use group_multiset_axioms;

    let ghost lhs = left@.unref();
    let ghost rhs = right@.unref();
    let mut out: Vec<(&'a u32, &'a u32)> = Vec::new();
    let mut i: usize = 0;
    let mut j: usize = 0;
    proof {
        lemma_no_entries(lhs.take(0));
        lemma_no_entries(rhs.take(0));
        lemma_no_entries(out@.unref());
        assert(out@.unref().to_multiset() =~= lhs.take(0).to_multiset().add(
            rhs.take(0).to_multiset(),
        ));
    }
    while i < left.len() || j < right.len()
        invariant
            i <= left@.len(),
            j <= right@.len(),
            lhs == left@.unref(),
            rhs == right@.unref(),
            is_ordered(lhs),
            is_ordered(rhs),
            is_ordered(out@.unref()),
            out@.unref().to_multiset() == lhs.take(i as int).to_multiset().add(
                rhs.take(j as int).to_multiset(),
            ),
            forall|k: int|
                0 <= k < out@.len() && i < lhs.len() ==> !comes_before(
                    lhs[i as int],
                    #[trigger] out@.unref()[k],
                ),
            forall|k: int|
                0 <= k < out@.len() && j < rhs.len() ==> !comes_before(
                    rhs[j as int],
                    #[trigger] out@.unref()[k],
                ),
        decreases left@.len() - i + right@.len() - j,
    {
        let ghost before = out@.unref();
        let from_left: bool = if j >= right.len() {
            true
        } else if i >= left.len() {
            false
        } else {
            !entry_comes_before(right[j], left[i])
        };
        if from_left {
            out.push(left[i]);
            proof {
                assert(out@.unref() =~= before.push(lhs[i as int]));
                assert(lhs.take(i + 1) =~= lhs.take(i as int).push(lhs[i as int]));
                to_multiset_build(before, lhs[i as int]);
                to_multiset_build(lhs.take(i as int), lhs[i as int]);
                assert(out@.unref().to_multiset() =~= lhs.take(i + 1).to_multiset().add(
                    rhs.take(j as int).to_multiset(),
                ));
            }
            i += 1;
        } else {
            out.push(right[j]);
            proof {
                assert(out@.unref() =~= before.push(rhs[j as int]));
                assert(rhs.take(j + 1) =~= rhs.take(j as int).push(rhs[j as int]));
                to_multiset_build(before, rhs[j as int]);
                to_multiset_build(rhs.take(j as int), rhs[j as int]);
                assert(out@.unref().to_multiset() =~= lhs.take(i as int).to_multiset().add(
                    rhs.take(j + 1).to_multiset(),
                ));
            }
            j += 1;
        }
    }
    proof {
        assert(lhs.take(i as int) =~= lhs);
        assert(rhs.take(j as int) =~= rhs);
    }
    out
}

/// Sorts the entries from position `lo` up to position `hi` by merging.
fn sort_entries<'a>(entries: &Vec<(&'a u32, &'a u32)>, lo: usize, hi: usize) -> (out: Vec<
    (&'a u32, &'a u32),
>)
    requires
        lo <= hi <= entries@.len(),
    ensures
        is_ordered(out@.unref()),
        out@.unref().to_multiset() == entries@.unref().subrange(lo as int, hi as int).to_multiset(),
    decreases hi - lo,
{
    broadcast use {to_multiset_build, group_multiset_axioms};

    let ghost part = entries@.unref().subrange(lo as int, hi as int);
    if hi - lo <= 1 {
        let mut out: Vec<(&'a u32, &'a u32)> = Vec::new();
        proof {
            lemma_no_entries(out@.unref());
        }
        if hi - lo == 1 {
            out.push(entries[lo]);
            assert(out@.unref() =~= Seq::<(u32, u32)>::empty().push(part[0]));
        }
        assert(out@.unref() =~= part);
        out
    } else {
        let mid: usize = lo + (hi - lo) / 2;
        let left = sort_entries(entries, lo, mid);
        let right = sort_entries(entries, mid, hi);
        proof {
            let front = entries@.unref().subrange(lo as int, mid as int);
            let back = entries@.unref().subrange(mid as int, hi as int);
            assert(part =~= front + back);
            lemma_multiset_commutative(front, back);
        }
        merge_entries(&left, &right)
    }
}

/// Orders the entries of an occurrence table: the most frequent symbol
/// first, and among symbols of one frequency the smallest first.
pub fn _sort_occurrences(occur_map: &HashMap<u32, u32>) -> (count_vec: Vec<(&u32, &u32)>)
    ensures
        is_sorted_table(occur_map@, count_vec@.unref()),
        count_vec@.len() == occur_map@.len(),
{
    broadcast use group_hash_axioms;

    let mut entries: Vec<(&u32, &u32)> = Vec::new();
    let all = occur_map.iter();
    let ghost pairs = all.remaining();
    let ghost table = pairs.unref();
    proof {
        assert(pairs == spec_hash_map_iter(occur_map).remaining());
    }
    for entry in it: all
        invariant
            it.seq() == pairs,
            entries@ == pairs.take(it.index()),
    {
        entries.push(entry);
        assert(entries@ =~= pairs.take(it.index() + 1));
    }
    assert(entries@ =~= pairs);
    let count_vec = sort_entries(&entries, 0, entries.len());
    proof {
        let list = count_vec@.unref();
        assert(table.subrange(0, table.len() as int) =~= table);
        assert(list.to_multiset() == table.to_multiset());
        to_multiset_len(list);
        to_multiset_len(table);
        assert forall|a: int, b: int| 0 <= a < b < table.len() implies (#[trigger] table[a]).0 != (
        #[trigger] table[b]).0 by {
            assert(occur_map@.contains_key(*pairs[a].0));
            assert(occur_map@.contains_key(*pairs[b].0));
            if *pairs[a].0 == *pairs[b].0 {
                assert(pairs[a] == pairs[b]);
            }
        }
        assert(table.no_duplicates());
        table.lemma_multiset_has_no_duplicates();
        list.lemma_multiset_has_no_duplicates_conv();
        assert forall|i: int| 0 <= i < list.len() implies occur_map@.contains_pair(
            (#[trigger] list[i]).0,
            list[i].1,
        ) by {
            assert(list.contains(list[i]));
            to_multiset_contains(list, list[i]);
            to_multiset_contains(table, list[i]);
            let j = choose|j: int| 0 <= j < table.len() && table[j] == list[i];
            assert(occur_map@.contains_key(*pairs[j].0));
        }
        assert forall|k: u32| #[trigger] occur_map@.contains_key(k) implies exists|i: int|
            0 <= i < list.len() && (#[trigger] list[i]).0 == k by {
            assert(pairs.contains((&k, &occur_map@[k])));
            let j = choose|j: int| 0 <= j < pairs.len() && pairs[j] == (&k, &occur_map@[k]);
            assert(table[j] == (k, occur_map@[k]));
            assert(table.contains((k, occur_map@[k])));
            to_multiset_contains(table, (k, occur_map@[k]));
            to_multiset_contains(list, (k, occur_map@[k]));
            let i = choose|i: int| 0 <= i < list.len() && list[i] == (k, occur_map@[k]);
            assert(list[i].0 == k);
        }
        assert forall|i: int, j: int| 0 <= i < j < list.len() implies comes_before(
            #[trigger] list[i],
            #[trigger] list[j],
        ) by {
            assert(occur_map@.contains_pair(list[i].0, list[i].1));
            assert(occur_map@.contains_pair(list[j].0, list[j].1));
            assert(list[i] != list[j]);
        }
    }
    count_vec
}

/// Gives each entry of a sorted occurrence list its rank, the length of the
/// list for the first entry down to 1 for the last, and rank 0 to the
/// symbol 0.
pub fn _convert_to_ranks(sorted_occurrs: &Vec<(&u32, &u32)>) -> (ranks: HashMap<u32, u32>)
    ensures
        ranks@ == rank_table(sorted_occurrs@.unref()),
{
    broadcast use group_hash_axioms;

    let mut ranks: HashMap<u32, u32> = HashMap::new();
    let occurs_len: usize = sorted_occurrs.len();
    let ghost list = sorted_occurrs@.unref();
    let mut i: usize = 0;
    while i < occurs_len
        invariant
            i <= occurs_len,
            occurs_len == sorted_occurrs@.len(),
            list == sorted_occurrs@.unref(),
            ranks@ == ranks_of_prefix(list, i as nat),
        decreases occurs_len - i,
    {
        let pair: (&u32, &u32) = sorted_occurrs[i];
        let rank: u32 = #[verifier::truncate]
        ((occurs_len - i) as u32);
        ranks.insert(*pair.0, rank);
        i += 1;
    }
    ranks.insert(0, 0);
    ranks
}

} // verus!
