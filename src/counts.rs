//! A token-to-count mapping with unique, ordered keys, viewed as a `Map`.

use vstd::prelude::*;
use crate::text::{lemma_lex_irreflexive, lemma_lex_total, lemma_lex_trans, lex_less, lex_lt};

verus! {

/// The texts and counts of a sequence of entries.
pub open spec fn pairs_of(v: Seq<(String, usize)>) -> Seq<(Seq<char>, nat)> {
    v.map_values(|e: (String, usize)| (e.0@, e.1 as nat))
}

/// No key occurs twice.
pub open spec fn keys_unique(ps: Seq<(Seq<char>, nat)>) -> bool {
    forall|a: int, b: int|
        0 <= a < ps.len() && 0 <= b < ps.len() && a != b ==> #[trigger] ps[a].0 != #[trigger] ps[b].0
}

/// The keys are in strictly ascending character order.
pub open spec fn keys_sorted(ps: Seq<(Seq<char>, nat)>) -> bool {
    forall|a: int, b: int| 0 <= a < b < ps.len() ==> lex_lt(#[trigger] ps[a].0, #[trigger] ps[b].0)
}

/// The mapping that results from setting each entry in turn.
pub open spec fn map_of(ps: Seq<(Seq<char>, nat)>) -> Map<Seq<char>, nat>
    decreases ps.len(),
{
    if ps.len() == 0 {
        Map::empty()
    } else {
        map_of(ps.drop_last()).insert(ps.last().0, ps.last().1)
    }
}

/// The count of `k` in `m`, zero when absent.
pub open spec fn count_in(m: Map<Seq<char>, nat>, k: Seq<char>) -> nat {
    if m.contains_key(k) {
        m[k]
    } else {
        0
    }
}

pub proof fn lemma_map_of_domain(ps: Seq<(Seq<char>, nat)>, k: Seq<char>)
    ensures
        map_of(ps).contains_key(k) == (exists|i: int| 0 <= i < ps.len() && (#[trigger] ps[i]).0 == k),
    decreases ps.len(),
{
    if ps.len() > 0 {
        let pre = ps.drop_last();
        lemma_map_of_domain(pre, k);
        if map_of(pre).contains_key(k) {
            let i = choose|i: int| 0 <= i < pre.len() && (#[trigger] pre[i]).0 == k;
            assert(ps[i] == pre[i]);
        }
        if exists|i: int| 0 <= i < ps.len() && (#[trigger] ps[i]).0 == k {
            let i = choose|i: int| 0 <= i < ps.len() && (#[trigger] ps[i]).0 == k;
            if i < ps.len() - 1 {
                assert(pre[i] == ps[i]);
            }
        }
    }
}

pub proof fn lemma_map_of_entry(ps: Seq<(Seq<char>, nat)>, i: int)
    requires
        keys_unique(ps),
        0 <= i < ps.len(),
    ensures
        map_of(ps).contains_key(ps[i].0),
        map_of(ps)[ps[i].0] == ps[i].1,
    decreases ps.len(),
{
    if i < ps.len() - 1 {
        let pre = ps.drop_last();
        assert(pre[i] == ps[i]);
        lemma_map_of_entry(pre, i);
        assert(ps[ps.len() - 1].0 != ps[i].0);
    }
}

proof fn lemma_map_of_update(ps: Seq<(Seq<char>, nat)>, i: int, w: nat)
    requires
        keys_unique(ps),
        0 <= i < ps.len(),
    ensures
        map_of(ps.update(i, (ps[i].0, w))) =~= map_of(ps).insert(ps[i].0, w),
    decreases ps.len(),
{
    let qs = ps.update(i, (ps[i].0, w));
    let pre = ps.drop_last();
    if i == ps.len() - 1 {
        assert(qs.drop_last() =~= pre);
    } else {
        assert(qs.drop_last() =~= pre.update(i, (pre[i].0, w)));
        assert(keys_unique(pre)) by {
            assert forall|a: int, b: int|
                0 <= a < pre.len() && 0 <= b < pre.len() && a != b implies #[trigger] pre[a].0 != #[trigger] pre[b].0 by {
                assert(pre[a] == ps[a] && pre[b] == ps[b]);
            }
        }
        lemma_map_of_update(pre, i, w);
        assert(ps[ps.len() - 1].0 != ps[i].0);
    }
}

proof fn lemma_map_of_insert(ps: Seq<(Seq<char>, nat)>, pos: int, k: Seq<char>, v: nat)
    requires
        0 <= pos <= ps.len(),
        forall|i: int| 0 <= i < ps.len() ==> (#[trigger] ps[i]).0 != k,
    ensures
        map_of(ps.insert(pos, (k, v))) =~= map_of(ps).insert(k, v),
    decreases ps.len(),
{
    let qs = ps.insert(pos, (k, v));
    if pos == ps.len() {
        assert(qs =~= ps.push((k, v)));
        assert(qs.drop_last() =~= ps);
    } else {
        let pre = ps.drop_last();
        assert(qs.drop_last() =~= pre.insert(pos, (k, v)));
        assert(qs.last() == ps.last());
        assert forall|i: int| 0 <= i < pre.len() implies (#[trigger] pre[i]).0 != k by {
            assert(pre[i] == ps[i]);
        }
        lemma_map_of_insert(pre, pos, k, v);
        assert(ps[ps.len() - 1].0 != k);
    }
}

/// A mapping from token to count, kept as a sequence of entries whose keys
/// are unique and in ascending character order, so that a key is found by
/// binary search.
pub struct WordCounts {
    entries: Vec<(String, usize)>,
}

impl View for WordCounts {
    type V = Map<Seq<char>, nat>;

    open spec fn view(&self) -> Map<Seq<char>, nat> {
        map_of(self.pairs())
    }
}

impl WordCounts {
    /// The entries, in ascending key order.
    pub closed spec fn pairs(&self) -> Seq<(Seq<char>, nat)> {
        pairs_of(self.entries@)
    }

    pub open spec fn wf(&self) -> bool {
        &&& keys_unique(self.pairs())
        &&& keys_sorted(self.pairs())
    }

    /// Every count fits in `usize`.
    pub proof fn lemma_counts_fit(&self)
        ensures
            forall|i: int| 0 <= i < self.pairs().len() ==> (#[trigger] self.pairs()[i]).1 <= usize::MAX,
    {
    }

    /// The empty mapping.
    pub fn new() -> (r: WordCounts)
        ensures
            r.wf(),
            r.pairs().len() == 0,
            r@ == Map::<Seq<char>, nat>::empty(),
    {
        WordCounts { entries: Vec::new() }
    }

    /// The number of distinct keys.
    pub fn len(&self) -> (r: usize)
        requires
            self.wf(),
        ensures
            r == self.pairs().len(),
            r == self@.dom().len(),
    {
        proof {
            self.lemma_len();
        }
        self.entries.len()
    }

    /// The number of entries is the number of keys.
    pub proof fn lemma_len_is_dom(&self)
        requires
            self.wf(),
        ensures
            self@.dom().len() == self.pairs().len(),
    {
        self.lemma_len();
    }

    proof fn lemma_len(&self)
        requires
            self.wf(),
        ensures
            self@.dom().len() == self.pairs().len(),
            self@.dom().finite(),
        decreases self.pairs().len(),
    {
        lemma_domain_size(self.pairs());
    }

    /// The entries themselves, in order.
    pub fn entries(&self) -> (r: &Vec<(String, usize)>)
        ensures
            pairs_of(r@) == self.pairs(),
    {
        &self.entries
    }

    /// The position of `key` among the entries, or where it would go to
    /// keep the keys in order.
    fn find(&self, key: &String) -> (r: Result<usize, usize>)
        requires
            self.wf(),
        ensures
            match r {
                Ok(i) => i < self.pairs().len() && self.pairs()[i as int].0 == key@,
                Err(p) => {
                    &&& p <= self.pairs().len()
                    &&& !self@.contains_key(key@)
                    &&& forall|i: int| 0 <= i < p ==> lex_lt(#[trigger] self.pairs()[i].0, key@)
                    &&& forall|i: int| p <= i < self.pairs().len() ==> lex_lt(key@, #[trigger] self.pairs()[i].0)
                },
            },
    {
        let ghost ps = self.pairs();
        let mut lo: usize = 0;
        let mut hi: usize = self.entries.len();
        while lo < hi
            invariant
                ps == self.pairs(),
                self.wf(),
                lo <= hi <= ps.len(),
                forall|i: int| 0 <= i < lo ==> lex_lt(#[trigger] ps[i].0, key@),
                forall|i: int| hi <= i < ps.len() ==> lex_lt(key@, #[trigger] ps[i].0),
            decreases hi - lo,
        {
            let mid = lo + (hi - lo) / 2;
            let here = self.entries[mid].0.as_str();
            proof {
                assert(ps[mid as int].0 == here@);
            }
            if lex_less(here, key.as_str()) {
                proof {
                    assert forall|i: int| 0 <= i < mid + 1 implies lex_lt(#[trigger] ps[i].0, key@) by {
                        if i < mid {
                            lemma_lex_trans(ps[i].0, ps[mid as int].0, key@);
                        }
                    }
                }
                lo = mid + 1;
            } else if lex_less(key.as_str(), here) {
                proof {
                    assert forall|i: int| mid <= i < ps.len() implies lex_lt(key@, #[trigger] ps[i].0) by {
                        if i > mid {
                            lemma_lex_trans(key@, ps[mid as int].0, ps[i].0);
                        }
                    }
                }
                hi = mid;
            } else {
                proof {
                    if ps[mid as int].0 != key@ {
                        lemma_lex_total(ps[mid as int].0, key@);
                    }
                }
                return Ok(mid);
            }
        }
        proof {
            lemma_map_of_domain(ps, key@);
            if self@.contains_key(key@) {
                let i = choose|i: int| 0 <= i < ps.len() && (#[trigger] ps[i]).0 == key@;
                lemma_lex_irreflexive(key@);
                assert(lex_lt(ps[i].0, key@) || lex_lt(key@, ps[i].0));
            }
        }
        Err(lo)
    }

    /// The count of `key`, if it is present.
    pub fn get(&self, key: &String) -> (r: Option<usize>)
        requires
            self.wf(),
        ensures
            match r {
                Some(v) => self@.contains_key(key@) && self@[key@] == v as nat,
                None => !self@.contains_key(key@),
            },
    {
        match self.find(key) {
            Ok(i) => {
                proof {
                    lemma_map_of_entry(self.pairs(), i as int);
                }
                Some(self.entries[i].1)
            },
            Err(_) => None,
        }
    }

    /// Sets the count of `key` to `v`, replacing any earlier count.
    pub fn set(&mut self, key: String, v: usize)
        requires
            old(self).wf(),
        ensures
            final(self).wf(),
            final(self)@ == old(self)@.insert(key@, v as nat),
    {
        match self.find(&key) {
            Ok(i) => {
                proof {
                    lemma_map_of_update(self.pairs(), i as int, v as nat);
                }
                let ghost ps = self.pairs();
                self.entries.set(i, (key, v));
                proof {
                    assert(self.pairs() =~= ps.update(i as int, (ps[i as int].0, v as nat)));
                }
            },
            Err(pos) => {
                let ghost ps = self.pairs();
                let ghost k = key@;
                proof {
                    lemma_map_of_domain(ps, k);
                    assert forall|i: int| 0 <= i < ps.len() implies (#[trigger] ps[i]).0 != k by {
                        if ps[i].0 == k {
                            assert(map_of(ps).contains_key(k));
                        }
                    }
                    lemma_map_of_insert(ps, pos as int, k, v as nat);
                }
                self.entries.insert(pos, (key, v));
                proof {
                    let qs = self.pairs();
                    assert(qs =~= ps.insert(pos as int, (k, v as nat)));
                    assert forall|a: int, b: int| 0 <= a < b < qs.len() implies lex_lt(#[trigger] qs[a].0, #[trigger] qs[b].0) by {
                        if b < pos {
                            assert(qs[a] == ps[a] && qs[b] == ps[b]);
                        } else if b == pos {
                            assert(qs[a] == ps[a]);
                        } else if a < pos {
                            assert(qs[a] == ps[a] && qs[b] == ps[b - 1]);
                            lemma_lex_trans(ps[a].0, k, ps[b - 1].0);
                        } else if a == pos {
                            assert(qs[b] == ps[b - 1]);
                        } else {
                            assert(qs[a] == ps[a - 1] && qs[b] == ps[b - 1]);
                        }
                    }
                    assert forall|a: int, b: int|
                        0 <= a < qs.len() && 0 <= b < qs.len() && a != b implies #[trigger] qs[a].0
                        != #[trigger] qs[b].0 by {
                        if a < b {
                            lemma_lex_irreflexive(qs[a].0);
                        } else {
                            lemma_lex_irreflexive(qs[b].0);
                        }
                    }
                }
            },
        }
    }

    /// Adds `n` to the count of `key`, which starts at zero when absent.
    pub fn add(&mut self, key: String, n: usize)
        requires
            old(self).wf(),
            count_in(old(self)@, key@) + n <= usize::MAX,
        ensures
            final(self).wf(),
            final(self)@ == old(self)@.insert(key@, (count_in(old(self)@, key@) + n) as nat),
    {
        let cur = match self.get(&key) {
            Some(c) => c,
            None => 0,
        };
        self.set(key, cur + n);
    }
}

proof fn lemma_domain_size(ps: Seq<(Seq<char>, nat)>)
    requires
        keys_unique(ps),
    ensures
        map_of(ps).dom().finite(),
        map_of(ps).dom().len() == ps.len(),
    decreases ps.len(),
{
    if ps.len() > 0 {
        let pre = ps.drop_last();
        assert(keys_unique(pre)) by {
            assert forall|a: int, b: int|
                0 <= a < pre.len() && 0 <= b < pre.len() && a != b implies #[trigger] pre[a].0 != #[trigger] pre[b].0 by {
                assert(pre[a] == ps[a] && pre[b] == ps[b]);
            }
        }
        lemma_domain_size(pre);
        lemma_map_of_domain(pre, ps.last().0);
        if map_of(pre).contains_key(ps.last().0) {
            let i = choose|i: int| 0 <= i < pre.len() && (#[trigger] pre[i]).0 == ps.last().0;
            assert(ps[i] == pre[i]);
        }
    }
}

} // verus!
