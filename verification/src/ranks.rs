//! What a rank is, stated over a column as a plain sequence, and why the
//! rank map built from a sorted occurrence list holds exactly these ranks.
use crate::occurrences::{
    comes_before, count_of, is_sorted_table, lemma_count_of_bounded, lemma_count_of_positive,
    occurrence_table, rank_at, rank_table, ranks_of_prefix,
};
use vstd::prelude::*;
use vstd::relations::injective_on;
use vstd::seq_lib::seq_to_set_is_finite;
use vstd::set_lib::{
    lemma_int_range, lemma_len_subset, lemma_map_size, lemma_subset_equality, set_int_range,
};

verus! {

/// `a` is ahead of `b` in column `col`: it occurs more often, or equally
/// often with the smaller symbol value.
pub open spec fn outranks(col: Seq<u32>, a: u32, b: u32) -> bool {
    count_of(col, a) > count_of(col, b) || (count_of(col, a) == count_of(col, b) && a < b)
}

/// The distinct symbols of a column, the gap symbol 0 left out.
pub open spec fn symbols(col: Seq<u32>) -> Set<u32> {
    Set::new(|t: u32| t != 0 && col.contains(t))
}

/// The symbols of a column that are not ahead of `s`; `s` itself is one of
/// them when it occurs.
pub open spec fn not_ahead_of(col: Seq<u32>, s: u32) -> Set<u32> {
    Set::new(|t: u32| t != 0 && col.contains(t) && !outranks(col, t, s))
}

/// The rank of symbol `s` in column `col`: 0 for the gap symbol, and
/// otherwise the number of symbols of the column that are not ahead of it.
/// The symbol ahead of all others so gets the number of distinct symbols,
/// and the one behind all others gets 1.
pub open spec fn rank_of(col: Seq<u32>, s: u32) -> nat {
    if s == 0 {
        0
    } else {
        not_ahead_of(col, s).len()
    }
}

/// The symbols of the entries of `list` from position `i` on.
pub open spec fn symbols_from(list: Seq<(u32, u32)>, i: int) -> Set<u32> {
    Set::new(|t: u32| exists|j: int| i <= j < list.len() && (#[trigger] list[j]).0 == t)
}

/// No two entries of `list` have the same symbol.
pub open spec fn has_distinct_symbols(list: Seq<(u32, u32)>) -> bool {
    forall|a: int, b: int|
        0 <= a < b < list.len() ==> (#[trigger] list[a]).0 != (#[trigger] list[b]).0
}

/// A column has finitely many symbols, no more than it has cells, and no
/// more symbols are behind a given one than there are in all.
pub proof fn lemma_symbols_bounded(col: Seq<u32>, s: u32)
    ensures
        symbols(col).finite(),
        symbols(col).len() <= col.len(),
        not_ahead_of(col, s).finite(),
        not_ahead_of(col, s).len() <= symbols(col).len(),
{
    broadcast use seq_to_set_is_finite;

    col.lemma_cardinality_of_set();
    assert(symbols(col).subset_of(col.to_set()));
    lemma_len_subset(symbols(col), col.to_set());
    assert(not_ahead_of(col, s).subset_of(symbols(col)));
    lemma_len_subset(not_ahead_of(col, s), symbols(col));
}

/// Entries with distinct symbols have as many symbols as there are entries.
proof fn lemma_symbols_from_len(list: Seq<(u32, u32)>, i: int)
    requires
        0 <= i <= list.len(),
        has_distinct_symbols(list),
    ensures
        symbols_from(list, i).finite(),
        symbols_from(list, i).len() == list.len() - i,
    decreases list.len() - i,
{
    if i == list.len() {
        assert(symbols_from(list, i) =~= Set::empty());
    } else {
        lemma_symbols_from_len(list, i + 1);
        let rest = symbols_from(list, i + 1);
        assert(symbols_from(list, i).contains(list[i].0));
        assert(symbols_from(list, i) =~= rest.insert(list[i].0));
        assert(!rest.contains(list[i].0));
    }
}

/// No entry of `list` between position `i` and position `n` has the symbol
/// of the entry at `i`.
pub open spec fn is_last_of_its_symbol(list: Seq<(u32, u32)>, i: int, n: int) -> bool {
    forall|j: int| i < j < n ==> (#[trigger] list[j]).0 != list[i].0
}

/// After `n` entries, the map holds the symbols of these entries, each with
/// the rank of the last position at which it stands.
proof fn lemma_ranks_of_prefix(list: Seq<(u32, u32)>, n: nat)
    requires
        n <= list.len(),
    ensures
        forall|s: u32| #[trigger]
            ranks_of_prefix(list, n).contains_key(s) <==> exists|j: int|
                0 <= j < n && (#[trigger] list[j]).0 == s,
        forall|j: int|
            0 <= j < n && is_last_of_its_symbol(list, j, n as int) ==> ranks_of_prefix(
                list,
                n,
            )[(#[trigger] list[j]).0] == rank_at(list.len(), j),
    decreases n,
{
    if n > 0 {
        lemma_ranks_of_prefix(list, (n - 1) as nat);
        let prev = ranks_of_prefix(list, (n - 1) as nat);
        let now = ranks_of_prefix(list, n);
        assert(now == prev.insert(list[n - 1].0, rank_at(list.len(), n - 1)));
        assert forall|s: u32| #[trigger] now.contains_key(s) <==> exists|j: int|
            0 <= j < n && (#[trigger] list[j]).0 == s by {
            if now.contains_key(s) {
                if s == list[n - 1].0 {
                } else {
                    assert(prev.contains_key(s));
                    let j = choose|j: int| 0 <= j < n - 1 && (#[trigger] list[j]).0 == s;
                    assert(0 <= j < n && list[j].0 == s);
                }
            }
            if exists|j: int| 0 <= j < n && (#[trigger] list[j]).0 == s {
                let j = choose|j: int| 0 <= j < n && (#[trigger] list[j]).0 == s;
                if j < n - 1 {
                    assert(prev.contains_key(s));
                }
            }
        }
        assert forall|j: int|
            0 <= j < n && is_last_of_its_symbol(list, j, n as int) implies now[(
        #[trigger] list[j]).0] == rank_at(list.len(), j) by {
            if j < n - 1 {
                assert(list[n - 1].0 != list[j].0);
                assert(is_last_of_its_symbol(list, j, n - 1));
            }
        }
    }
}

/// What a rank map holds, for any list: the gap symbol with rank 0, and
/// every other symbol of the list with the length of the list less the last
/// position at which the symbol stands. Where the length fits 32 bits, the
/// first entry so has the length as its rank and the last entry has 1.
pub proof fn law_rank_table_entries(list: Seq<(u32, u32)>)
    ensures
        rank_table(list).contains_key(0) && rank_table(list)[0] == 0,
        forall|s: u32| #[trigger]
            rank_table(list).contains_key(s) <==> s == 0 || exists|j: int|
                0 <= j < list.len() && (#[trigger] list[j]).0 == s,
        forall|i: int|
            0 <= i < list.len() && (#[trigger] list[i]).0 != 0 && is_last_of_its_symbol(
                list,
                i,
                list.len() as int,
            ) ==> rank_table(list)[list[i].0] == rank_at(list.len(), i),
        list.len() <= u32::MAX ==> forall|i: int|
            0 <= i < list.len() ==> #[trigger] rank_at(list.len(), i) == list.len() - i,
{
    lemma_ranks_of_prefix(list, list.len());
    let prefix = ranks_of_prefix(list, list.len());
    assert forall|s: u32| #[trigger]
        rank_table(list).contains_key(s) <==> s == 0 || exists|j: int|
            0 <= j < list.len() && (#[trigger] list[j]).0 == s by {
        if s != 0 {
            assert(rank_table(list).contains_key(s) == prefix.contains_key(s));
        }
    }
}

/// The rank map of a list of `k` entries with distinct symbols other than
/// the gap symbol has `k + 1` keys.
pub proof fn law_rank_table_size(list: Seq<(u32, u32)>)
    requires
        has_distinct_symbols(list),
        forall|i: int| 0 <= i < list.len() ==> (#[trigger] list[i]).0 != 0,
    ensures
        rank_table(list).dom().finite(),
        rank_table(list).dom().len() == list.len() + 1,
{
    law_rank_table_entries(list);
    lemma_symbols_from_len(list, 0);
    assert(rank_table(list).dom() =~= symbols_from(list, 0).insert(0));
}

/// The keys of `table` whose entries do not come before the entry `e`.
pub open spec fn keys_not_before(table: Map<u32, u32>, e: (u32, u32)) -> Set<u32> {
    Set::new(|t: u32| table.contains_key(t) && !comes_before((t, table[t]), e))
}

/// In the sorted list of a table, an entry stands as far from the end as
/// there are entries that do not come before it.
proof fn lemma_position_in_sorted_table(table: Map<u32, u32>, list: Seq<(u32, u32)>, i: int)
    requires
        is_sorted_table(table, list),
        0 <= i < list.len(),
    ensures
        keys_not_before(table, list[i]).finite(),
        keys_not_before(table, list[i]).len() == list.len() - i,
{
    let len = list.len();
    assert(has_distinct_symbols(list)) by {
        assert forall|a: int, b: int| 0 <= a < b < len implies (#[trigger] list[a]).0 != (
        #[trigger] list[b]).0 by {
            assert(comes_before(list[a], list[b]));
            assert(table.contains_pair(list[a].0, list[a].1));
            assert(table.contains_pair(list[b].0, list[b].1));
        }
    }
    lemma_symbols_from_len(list, i);
    assert(keys_not_before(table, list[i]) =~= symbols_from(list, i)) by {
        assert forall|t: u32| keys_not_before(table, list[i]).contains(t) implies symbols_from(
            list,
            i,
        ).contains(t) by {
            assert(table.contains_key(t));
            let j = choose|j: int| 0 <= j < len && (#[trigger] list[j]).0 == t;
            assert(table.contains_pair(list[j].0, list[j].1));
            if j < i {
                assert(comes_before(list[j], list[i]));
            }
        }
        assert forall|t: u32| symbols_from(list, i).contains(t) implies keys_not_before(
            table,
            list[i],
        ).contains(t) by {
            let j = choose|j: int| i <= j < len && (#[trigger] list[j]).0 == t;
            assert(table.contains_pair(list[j].0, list[j].1));
            if j > i {
                assert(comes_before(list[i], list[j]));
            }
        }
    }
}

/// The sorted list of a table has one entry for each key of the table.
pub proof fn law_sorted_table_len(table: Map<u32, u32>, list: Seq<(u32, u32)>)
    requires
        is_sorted_table(table, list),
    ensures
        table.dom().finite(),
        list.len() == table.dom().len(),
{
    if list.len() == 0 {
        assert(table.dom() =~= Set::empty());
    } else {
        lemma_position_in_sorted_table(table, list, 0);
        assert(keys_not_before(table, list[0]) =~= table.dom()) by {
            assert forall|t: u32| table.contains_key(t) implies keys_not_before(
                table,
                list[0],
            ).contains(t) by {
                let j = choose|j: int| 0 <= j < list.len() && (#[trigger] list[j]).0 == t;
                assert(table.contains_pair(list[j].0, list[j].1));
                assert(table.contains_pair(list[0].0, list[0].1));
                if j > 0 {
                    assert(comes_before(list[0], list[j]));
                }
            }
        }
    }
}

/// A table has one sorted list only.
pub proof fn law_sorted_table_is_unique(
    table: Map<u32, u32>,
    first: Seq<(u32, u32)>,
    second: Seq<(u32, u32)>,
)
    requires
        is_sorted_table(table, first),
        is_sorted_table(table, second),
    ensures
        first == second,
{
    law_sorted_table_len(table, first);
    law_sorted_table_len(table, second);
    assert forall|i: int| 0 <= i < first.len() implies first[i] == second[i] by {
        assert(table.contains_pair(first[i].0, first[i].1));
        let j = choose|j: int| 0 <= j < second.len() && (#[trigger] second[j]).0 == first[i].0;
        assert(table.contains_pair(second[j].0, second[j].1));
        lemma_position_in_sorted_table(table, first, i);
        lemma_position_in_sorted_table(table, second, j);
    }
    assert(first =~= second);
}

/// The rank map made from the sorted occurrence list of a column has the
/// gap symbol and the symbols of the column as its keys, and gives each its
/// rank.
pub proof fn lemma_rank_table_holds_ranks(col: Seq<u32>, list: Seq<(u32, u32)>)
    requires
        col.len() <= u32::MAX,
        is_sorted_table(occurrence_table(col), list),
    ensures
        list.len() == symbols(col).len(),
        forall|s: u32| #[trigger] rank_table(list).contains_key(s) <==> s == 0 || col.contains(s),
        forall|s: u32| #[trigger]
            rank_table(list).contains_key(s) ==> rank_table(list)[s] == rank_of(col, s),
{
    let table = occurrence_table(col);
    let len = list.len();
    // The table holds the symbols of the column, each with its count.
    assert forall|t: u32| table.contains_key(t) == symbols(col).contains(t) by {
        lemma_count_of_positive(col, t);
    }
    assert forall|t: u32| table.contains_key(t) implies #[trigger] table[t] == count_of(
        col,
        t,
    ) by {
        lemma_count_of_bounded(col, t);
    }
    assert(table.dom() =~= symbols(col));
    law_sorted_table_len(table, list);
    lemma_symbols_bounded(col, 0);
    law_rank_table_entries(list);
    assert forall|s: u32| #[trigger]
        rank_table(list).contains_key(s) <==> s == 0 || col.contains(s) by {
        if s != 0 {
            if col.contains(s) {
                assert(table.contains_key(s));
            }
            if rank_table(list).contains_key(s) {
                let i = choose|i: int| 0 <= i < len && (#[trigger] list[i]).0 == s;
                assert(table.contains_pair(list[i].0, list[i].1));
            }
        }
    }
    assert forall|s: u32| #[trigger] rank_table(list).contains_key(s) implies rank_table(list)[s]
        == rank_of(col, s) by {
        if s != 0 {
            let i = choose|i: int| 0 <= i < len && (#[trigger] list[i]).0 == s;
            assert(table.contains_pair(list[i].0, list[i].1));
            assert(is_last_of_its_symbol(list, i, len as int)) by {
                assert forall|j: int| i < j < len implies (#[trigger] list[j]).0 != s by {
                    assert(table.contains_pair(list[j].0, list[j].1));
                    assert(comes_before(list[i], list[j]));
                }
            }
            lemma_position_in_sorted_table(table, list, i);
            assert(not_ahead_of(col, s) =~= keys_not_before(table, list[i]));
        }
    }
}

/// A symbol that is ahead of another has the higher rank.
proof fn lemma_ahead_ranks_higher(col: Seq<u32>, a: u32, b: u32)
    requires
        a != 0,
        b != 0,
        col.contains(a),
        outranks(col, a, b),
    ensures
        rank_of(col, a) > rank_of(col, b),
{
    lemma_symbols_bounded(col, a);
    lemma_symbols_bounded(col, b);
    let wider = not_ahead_of(col, b).insert(a);
    assert(wider.subset_of(not_ahead_of(col, a)));
    lemma_len_subset(wider, not_ahead_of(col, a));
}

/// Among the symbols of a column, the more frequent one has the higher
/// rank, and of two equally frequent ones the smaller: the ranks order the
/// symbols exactly as [`outranks`] does.
pub proof fn law_ranks_follow_frequency(col: Seq<u32>, a: u32, b: u32)
    requires
        a != 0,
        b != 0,
        col.contains(a),
        col.contains(b),
    ensures
        outranks(col, a, b) <==> rank_of(col, a) > rank_of(col, b),
        count_of(col, a) > count_of(col, b) ==> rank_of(col, a) > rank_of(col, b),
        count_of(col, a) == count_of(col, b) ==> (rank_of(col, a) > rank_of(col, b) <==> a < b),
{
    if outranks(col, a, b) {
        lemma_ahead_ranks_higher(col, a, b);
    } else if a != b {
        assert(outranks(col, b, a));
        lemma_ahead_ranks_higher(col, b, a);
    }
}

/// The rank of a symbol of a column is at least 1 and at most the number of
/// distinct symbols of the column.
pub proof fn law_rank_in_range(col: Seq<u32>, s: u32)
    requires
        s != 0,
        col.contains(s),
    ensures
        1 <= rank_of(col, s) <= symbols(col).len(),
{
    lemma_symbols_bounded(col, s);
    let only = Set::<u32>::empty().insert(s);
    assert(only.subset_of(not_ahead_of(col, s)));
    lemma_len_subset(only, not_ahead_of(col, s));
}

/// Two different symbols of a column never share a rank.
pub proof fn law_ranks_are_distinct(col: Seq<u32>, a: u32, b: u32)
    requires
        a != 0,
        b != 0,
        a != b,
        col.contains(a),
        col.contains(b),
    ensures
        rank_of(col, a) != rank_of(col, b),
{
    law_ranks_follow_frequency(col, a, b);
    law_ranks_follow_frequency(col, b, a);
}

/// Every rank from 1 to the number of distinct symbols of a column is the
/// rank of one of its symbols.
pub proof fn law_every_rank_is_taken(col: Seq<u32>, v: nat)
    requires
        1 <= v <= symbols(col).len(),
    ensures
        exists|s: u32| #[trigger] symbols(col).contains(s) && rank_of(col, s) == v,
{
    let all = symbols(col);
    let k = all.len() as int;
    let rank = |s: u32| rank_of(col, s) as int;
    let taken = all.map(rank);
    let wanted = set_int_range(1, k + 1);
    lemma_symbols_bounded(col, 0);
    assert(injective_on(rank, all)) by {
        assert forall|a: u32, b: u32|
            all.contains(a) && all.contains(b) && #[trigger] rank(a) == #[trigger] rank(
                b,
            ) implies a == b by {
            if a != b {
                law_ranks_are_distinct(col, a, b);
            }
        }
    }
    lemma_map_size(all, taken, rank);
    lemma_int_range(1, k + 1);
    assert(taken.subset_of(wanted)) by {
        assert forall|x: int| taken.contains(x) implies wanted.contains(x) by {
            let s = choose|s: u32| all.contains(s) && x == rank(s);
            law_rank_in_range(col, s);
        }
    }
    lemma_subset_equality(taken, wanted);
    assert(wanted.contains(v as int));
    assert(taken.contains(v as int));
    let s = choose|s: u32| all.contains(s) && v as int == rank(s);
    assert(symbols(col).contains(s) && rank_of(col, s) == v);
}

/// The gap symbol has rank 0 in every column, and no other symbol of a
/// column has.
pub proof fn law_only_gaps_rank_zero(col: Seq<u32>, s: u32)
    requires
        s == 0 || col.contains(s),
    ensures
        rank_of(col, s) == 0 <==> s == 0,
{
    if s != 0 {
        law_rank_in_range(col, s);
    }
}

} // verus!
