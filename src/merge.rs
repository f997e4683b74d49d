//! Merging one record's counts into a running total, and why the total does
//! not depend on how tokens were split into records or in what order the
//! records were merged.

use vstd::prelude::*;
use vstd::multiset::Multiset;
use crate::counts::{count_in, lemma_map_of_domain, lemma_map_of_entry, map_of, pairs_of, WordCounts};
use crate::words::tally;

verus! {

/// Why a merge was refused.
#[derive(Debug, Clone, Copy, PartialEq, Eq)]
pub enum MergeError {
    /// A token's total count would not fit in `usize`.
    Overflow,
}

/// Pointwise sum of two count mappings; a token absent from one side counts
/// as zero there.
pub open spec fn merged(a: Map<Seq<char>, nat>, b: Map<Seq<char>, nat>) -> Map<Seq<char>, nat> {
    Map::new(
        |k: Seq<char>| a.contains_key(k) || b.contains_key(k),
        |k: Seq<char>| count_in(a, k) + count_in(b, k),
    )
}

/// Some token of `b` would push its total in `a` past `usize::MAX`.
pub open spec fn overflows(a: Map<Seq<char>, nat>, b: Map<Seq<char>, nat>) -> bool {
    exists|k: Seq<char>| #[trigger] b.contains_key(k) && count_in(a, k) + b[k] > usize::MAX
}

/// Adds every count of `record` into `total`. When some total would not fit
/// in `usize`, nothing is changed and `Overflow` is returned.
pub fn merge_into(total: &mut WordCounts, record: &WordCounts) -> (r: Result<(), MergeError>)
    requires
        old(total).wf(),
        record.wf(),
    ensures
        final(total).wf(),
        r is Ok <==> !overflows(old(total)@, record@),
        r is Ok ==> final(total)@ == merged(old(total)@, record@),
        r is Err ==> final(total)@ == old(total)@,
{
    let entries = record.entries();
    let ghost ps = record.pairs();
    let ghost start = total@;
    let mut i: usize = 0;
    while i < entries.len()
        invariant
            i <= entries.len(),
            pairs_of(entries@) == ps,
            ps == record.pairs(),
            record.wf(),
            total.wf(),
            total@ == start,
            forall|j: int| 0 <= j < i ==> count_in(start, (#[trigger] ps[j]).0) + ps[j].1 <= usize::MAX,
        decreases entries.len() - i,
    {
        let v = entries[i].1;
        proof {
            assert(ps[i as int] == (entries@[i as int].0@, v as nat));
        }
        match total.get(&entries[i].0) {
            Some(c) => {
                if c > usize::MAX - v {
                    proof {
                        lemma_map_of_entry(ps, i as int);
                        assert(record@.contains_key(ps[i as int].0));
                    }
                    return Err(MergeError::Overflow);
                }
            },
            None => {},
        }
        i = i + 1;
    }
    proof {
        assert forall|k: Seq<char>| #[trigger] record@.contains_key(k) implies count_in(start, k) + record@[k]
            <= usize::MAX by {
            lemma_map_of_domain(ps, k);
            let j = choose|j: int| 0 <= j < ps.len() && (#[trigger] ps[j]).0 == k;
            lemma_map_of_entry(ps, j);
        }
    }
    let mut i: usize = 0;
    while i < entries.len()
        invariant
            i <= entries.len(),
            pairs_of(entries@) == ps,
            ps == record.pairs(),
            record.wf(),
            total.wf(),
            forall|j: int| 0 <= j < ps.len() ==> count_in(start, (#[trigger] ps[j]).0) + ps[j].1 <= usize::MAX,
            total@ == merged(start, map_of(ps.take(i as int))),
        decreases entries.len() - i,
    {
        let ghost before = total@;
        let ghost sub = map_of(ps.take(i as int));
        let ghost k = ps[i as int].0;
        proof {
            assert(ps[i as int] == (entries@[i as int].0@, entries@[i as int].1 as nat));
            assert(ps.take(i + 1).drop_last() =~= ps.take(i as int));
            lemma_map_of_domain(ps.take(i as int), k);
            if sub.contains_key(k) {
                let j = choose|j: int| 0 <= j < i && (#[trigger] ps.take(i as int)[j]).0 == k;
                assert(ps.take(i as int)[j] == ps[j]);
            }
            assert(!sub.contains_key(k));
        }
        total.add(entries[i].0.clone(), entries[i].1);
        proof {
            assert(total@ =~= merged(start, map_of(ps.take(i + 1))));
        }
        i = i + 1;
    }
    proof {
        assert(ps.take(i as int) =~= ps);
    }
    Ok(())
}

/// The counts of a multiset of tokens.
pub open spec fn counts_of(m: Multiset<Seq<char>>) -> Map<Seq<char>, nat> {
    Map::new(|k: Seq<char>| m.count(k) > 0, |k: Seq<char>| m.count(k))
}

/// The result of merging, in order, each mapping of `rs` into an empty total.
pub open spec fn merge_all(rs: Seq<Map<Seq<char>, nat>>) -> Map<Seq<char>, nat>
    decreases rs.len(),
{
    if rs.len() == 0 {
        Map::empty()
    } else {
        merged(merge_all(rs.drop_last()), rs.last())
    }
}

/// All the tokens of all the parts, as one multiset.
pub open spec fn union_all(parts: Seq<Seq<Seq<char>>>) -> Multiset<Seq<char>>
    decreases parts.len(),
{
    if parts.len() == 0 {
        Multiset::empty()
    } else {
        union_all(parts.drop_last()).add(parts.last().to_multiset())
    }
}

/// Counting a sequence of tokens depends only on which tokens occur how
/// often, not on their order.
pub proof fn lemma_tally_is_multiset_count(ts: Seq<Seq<char>>)
    ensures
        tally(ts) == counts_of(ts.to_multiset()),
    decreases ts.len(),
{
    broadcast use vstd::multiset::group_multiset_axioms;

    if ts.len() == 0 {
        assert(ts.to_multiset() =~= Multiset::<Seq<char>>::empty()) by {
            ts.to_multiset_ensures();
        }
        assert(tally(ts) =~= counts_of(ts.to_multiset()));
    } else {
        let pre = ts.drop_last();
        lemma_tally_is_multiset_count(pre);
        assert(pre.push(ts.last()) =~= ts);
        vstd::seq_lib::to_multiset_build(pre, ts.last());
        assert(tally(ts) =~= counts_of(ts.to_multiset()));
    }
}

proof fn lemma_merged_counts(m1: Multiset<Seq<char>>, m2: Multiset<Seq<char>>)
    ensures
        merged(counts_of(m1), counts_of(m2)) == counts_of(m1.add(m2)),
{
    broadcast use vstd::multiset::group_multiset_axioms;

    assert(merged(counts_of(m1), counts_of(m2)) =~= counts_of(m1.add(m2)));
}

/// However a multiset of tokens is split into records, and in whatever
/// order the records are merged, the total equals counting all the tokens
/// at once.
pub proof fn lemma_merge_any_order(parts: Seq<Seq<Seq<char>>>, all: Seq<Seq<char>>)
    requires
        union_all(parts) == all.to_multiset(),
    ensures
        merge_all(parts.map_values(|p: Seq<Seq<char>>| tally(p))) == tally(all),
    decreases parts.len(),
{
    lemma_merge_all_union(parts);
    lemma_tally_is_multiset_count(all);
}

proof fn lemma_merge_all_union(parts: Seq<Seq<Seq<char>>>)
    ensures
        merge_all(parts.map_values(|p: Seq<Seq<char>>| tally(p))) == counts_of(union_all(parts)),
    decreases parts.len(),
{
    broadcast use vstd::multiset::group_multiset_axioms;

    let rs = parts.map_values(|p: Seq<Seq<char>>| tally(p));
    if parts.len() == 0 {
        assert(counts_of(Multiset::<Seq<char>>::empty()) =~= Map::<Seq<char>, nat>::empty());
    } else {
        let pre = parts.drop_last();
        lemma_merge_all_union(pre);
        assert(rs.drop_last() =~= pre.map_values(|p: Seq<Seq<char>>| tally(p)));
        lemma_tally_is_multiset_count(parts.last());
        lemma_merged_counts(union_all(pre), parts.last().to_multiset());
    }
}

} // verus!
