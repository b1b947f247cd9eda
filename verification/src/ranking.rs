use crate::frequency::{lemma_key_order, TermFrequency};
use skiplist::OrderedSkipList;
use vstd::prelude::*;

verus! {

/// `skiplist::OrderedSkipList`, a list that keeps what it is given in rising
/// order.
#[verifier::external_type_specification]
#[verifier::external_body]
#[verifier::reject_recursive_types(T)]
pub struct ExOrderedSkipList<T>(OrderedSkipList<T>);

/// What an ordered list of entries holds, from its first entry to its last.
/// An entry is the two digits of a sort key and then a position.
pub uninterp spec fn entries(list: OrderedSkipList<(u128, u128, usize)>) -> Seq<
    (u128, u128, usize),
>;

/// One entry stands before another: the order of tuples, first part first.
pub open spec fn entry_lt(a: (u128, u128, usize), b: (u128, u128, usize)) -> bool {
    a.0 < b.0 || (a.0 == b.0 && (a.1 < b.1 || (a.1 == b.1 && a.2 < b.2)))
}

/// No entry stands behind one that it should stand before.
pub open spec fn is_sorted(list: Seq<(u128, u128, usize)>) -> bool {
    forall|a: int, b: int| 0 <= a < b < list.len() ==> !entry_lt(list[b], list[a])
}

/// Each entry stands before all that follow it.
pub open spec fn is_strictly_sorted(list: Seq<(u128, u128, usize)>) -> bool {
    forall|a: int, b: int| 0 <= a < b < list.len() ==> entry_lt(list[a], list[b])
}

/// `OrderedSkipList::new`: a list without entries. It orders what it is given
/// by `partial_cmp`, which on tuples of integers is `entry_lt`.
#[verifier::external_body]
fn new_list() -> (list: OrderedSkipList<(u128, u128, usize)>)
    ensures
        entries(list) == Seq::<(u128, u128, usize)>::empty(),
{
    OrderedSkipList::new()
}

/// `after` is `before` with `entry` put in at the place `at`: behind the
/// entries that stand before it, and in front of all others.
pub open spec fn put_in_at(
    before: Seq<(u128, u128, usize)>,
    entry: (u128, u128, usize),
    after: Seq<(u128, u128, usize)>,
    at: int,
) -> bool {
    &&& 0 <= at <= before.len()
    &&& after == before.insert(at, entry)
    &&& forall|k: int| 0 <= k < at ==> entry_lt(#[trigger] before[k], entry)
    &&& forall|k: int| at <= k < before.len() ==> !entry_lt(#[trigger] before[k], entry)
}

/// `OrderedSkipList::insert`: in a sorted list the entry goes behind the
/// entries that stand before it and in front of all others, which keep their
/// order.
#[verifier::external_body]
fn insert_entry(list: &mut OrderedSkipList<(u128, u128, usize)>, entry: (u128, u128, usize))
    requires
        is_sorted(entries(*old(list))),
    ensures
        exists|at: int| put_in_at(entries(*old(list)), entry, entries(*final(list)), at),
{
    list.insert(entry)
}

/// `OrderedSkipList::into_iter`, collected: the entries from first to last.
#[verifier::external_body]
fn into_entries(list: OrderedSkipList<(u128, u128, usize)>) -> (all: Vec<(u128, u128, usize)>)
    ensures
        all@ == entries(list),
{
    list.into_iter().collect()
}

/// The entry for the key at a position.
pub open spec fn entry_of(keys: Seq<(u128, u128)>, at: int) -> (u128, u128, usize) {
    (keys[at].0, keys[at].1, at as usize)
}

/// Sorts keys: the entries for all positions of `keys`, each once, every
/// entry before all that follow it.
pub fn sort_entries(keys: &Vec<(u128, u128)>) -> (sorted: Vec<(u128, u128, usize)>)
    ensures
        sorted.len() == keys.len(),
        is_strictly_sorted(sorted@),
        forall|k: int|
            0 <= k < sorted.len() ==> (#[trigger] sorted[k]).2 < keys.len() && sorted[k]
                == entry_of(keys@, sorted[k].2 as int),
        forall|at: int|
            0 <= at < keys.len() ==> sorted@.contains(#[trigger] entry_of(keys@, at)),
{
    let mut list = new_list();
    let mut i: usize = 0;
    while i < keys.len()
        invariant
            i <= keys.len(),
            entries(list).len() == i,
            is_strictly_sorted(entries(list)),
            forall|k: int|
                0 <= k < entries(list).len() ==> (#[trigger] entries(list)[k]).2 < i && entries(
                    list,
                )[k] == entry_of(keys@, entries(list)[k].2 as int),
            forall|at: int| 0 <= at < i ==> entries(list).contains(#[trigger] entry_of(keys@, at)),
        decreases keys.len() - i,
    {
        let ghost before = entries(list);
        let entry = (keys[i].0, keys[i].1, i);
        assert(is_sorted(before)) by {
            assert forall|a: int, b: int| 0 <= a < b < before.len() implies !entry_lt(
                before[b],
                before[a],
            ) by {
                assert(entry_lt(before[a], before[b]));
            }
        }
        insert_entry(&mut list, entry);
        proof {
            let after = entries(list);
            let at = choose|at: int| put_in_at(before, entry, after, at);
            before.insert_ensures(at, entry);
            assert forall|a: int, b: int| 0 <= a < b < after.len() implies entry_lt(
                after[a],
                after[b],
            ) by {
                if a < at && b > at {
                    assert(after[a] == before[a] && after[b] == before[b - 1]);
                } else if a == at {
                    assert(after[b] == before[b - 1]);
                    assert(before[b - 1].2 < i);
                } else if b == at {
                    assert(after[a] == before[a]);
                } else if b < at {
                    assert(after[a] == before[a] && after[b] == before[b]);
                } else {
                    assert(after[a] == before[a - 1] && after[b] == before[b - 1]);
                }
            }
            assert forall|k: int| 0 <= k < after.len() implies (#[trigger] after[k]).2 < i + 1
                && after[k] == entry_of(keys@, after[k].2 as int) by {
                if k < at {
                    assert(after[k] == before[k]);
                } else if k > at {
                    assert(after[k] == before[k - 1]);
                }
            }
            assert forall|pos: int| 0 <= pos < i + 1 implies after.contains(
                #[trigger] entry_of(keys@, pos),
            ) by {
                if pos == i {
                    assert(after[at] == entry_of(keys@, pos));
                } else {
                    assert(before.contains(entry_of(keys@, pos)));
                    let k = choose|k: int|
                        0 <= k < before.len() && before[k] == entry_of(keys@, pos);
                    if k < at {
                        assert(after[k] == before[k]);
                    } else {
                        assert(after[k + 1] == before[k]);
                    }
                }
            }
        }
        i += 1;
    }
    into_entries(list)
}

/// In a ranking the document at position `first` stands before the one at
/// position `second`: its term frequency is the greater one, or the two are
/// of one value and `first` is the lower position.
pub open spec fn outranks(tfs: Seq<TermFrequency>, first: int, second: int) -> bool {
    tfs[second].lt(tfs[first]) || (tfs[first].same(tfs[second]) && first < second)
}

/// `order` ranks the documents whose term frequencies are `tfs`: it names
/// every position, none of them twice, and each before all that it outranks.
pub open spec fn is_ranking(tfs: Seq<TermFrequency>, order: Seq<int>) -> bool {
    &&& order.len() == tfs.len()
    &&& forall|k: int| 0 <= k < order.len() ==> 0 <= #[trigger] order[k] < tfs.len()
    &&& forall|at: int| 0 <= at < tfs.len() ==> #[trigger] order.contains(at)
    &&& order.no_duplicates()
    &&& forall|a: int, b: int|
        0 <= a < b < order.len() ==> outranks(tfs, #[trigger] order[a], #[trigger] order[b])
}

/// The positions of a vector of positions, as integers.
pub open spec fn positions(order: Seq<usize>) -> Seq<int> {
    Seq::new(order.len(), |k: int| order[k] as int)
}

/// Ranks term frequencies, the greatest first.
pub fn rank_order(tfs: &Vec<TermFrequency>) -> (order: Vec<usize>)
    requires
        forall|at: int| 0 <= at < tfs.len() ==> (#[trigger] tfs[at]).wf(),
    ensures
        is_ranking(tfs@, positions(order@)),
{
    let mut keys: Vec<(u128, u128)> = Vec::new();
    let mut i: usize = 0;
    while i < tfs.len()
        invariant
            i <= tfs.len(),
            keys.len() == i,
            forall|at: int| 0 <= at < tfs.len() ==> (#[trigger] tfs[at]).wf(),
            forall|at: int|
                0 <= at < i ==> (#[trigger] keys[at]).0 == tfs[at].key().0 && keys[at].1
                    == tfs[at].key().1,
        decreases tfs.len() - i,
    {
        keys.push(tfs[i].sort_key());
        i += 1;
    }
    let sorted = sort_entries(&keys);
    let mut order: Vec<usize> = Vec::new();
    let mut k: usize = 0;
    while k < sorted.len()
        invariant
            k <= sorted.len(),
            order.len() == k,
            forall|j: int| 0 <= j < k ==> #[trigger] order[j] == sorted[j].2,
        decreases sorted.len() - k,
    {
        order.push(sorted[k].2);
        k += 1;
    }
    proof {
        let ranked = positions(order@);
        assert forall|at: int| 0 <= at < tfs.len() implies #[trigger] ranked.contains(at) by {
            assert(sorted@.contains(entry_of(keys@, at)));
            let k = choose|k: int| 0 <= k < sorted.len() && sorted[k] == entry_of(keys@, at);
            assert(ranked[k] == at);
        }
        assert forall|a: int, b: int| 0 <= a < b < ranked.len() implies outranks(
            tfs@,
            #[trigger] ranked[a],
            #[trigger] ranked[b],
        ) && ranked[a] != ranked[b] by {
            let (first, second) = (sorted[a], sorted[b]);
            assert(entry_lt(first, second));
            assert(first == entry_of(keys@, first.2 as int));
            assert(second == entry_of(keys@, second.2 as int));
            lemma_key_order(tfs[first.2 as int], tfs[second.2 as int]);
        }
    }
    order
}

/// A ranking is settled by the term frequencies: two rankings of the same
/// term frequencies are one.
pub proof fn lemma_ranking_unique(tfs: Seq<TermFrequency>, one: Seq<int>, other: Seq<int>)
    requires
        is_ranking(tfs, one),
        is_ranking(tfs, other),
    ensures
        one == other,
{
    assert forall|k: int| 0 <= k < one.len() implies one[k] == other[k] by {
        lemma_ranking_agrees(tfs, one, other, k);
    }
    assert(one =~= other);
}

proof fn lemma_ranking_agrees(tfs: Seq<TermFrequency>, one: Seq<int>, other: Seq<int>, k: int)
    requires
        is_ranking(tfs, one),
        is_ranking(tfs, other),
        0 <= k < one.len(),
    ensures
        one[k] == other[k],
    decreases k,
{
    assert forall|j: int| 0 <= j < k implies one[j] == other[j] by {
        lemma_ranking_agrees(tfs, one, other, j);
    }
    let (x, y) = (one[k], other[k]);
    if x != y {
        assert(other.contains(x) && one.contains(y));
        let there = choose|j: int| 0 <= j < other.len() && other[j] == x;
        let here = choose|j: int| 0 <= j < one.len() && one[j] == y;
        if there < k {
            assert(outranks(tfs, one[there], one[k]));
        }
        if here < k {
            assert(outranks(tfs, other[here], other[k]));
        }
        assert(outranks(tfs, other[k], other[there]));
        assert(outranks(tfs, one[k], one[here]));
    }
}

} // verus!
