//! The top-N view of a count mapping: descending count, ties broken by the
//! token in ascending character order, and its console report.

use vstd::prelude::*;
use vstd::string::StringExecFns;
use crate::counts::{keys_unique, lemma_map_of_domain, lemma_map_of_entry, pairs_of, WordCounts};
use crate::text::{decimal_of, decimal_text, lemma_lex_total, lemma_lex_trans, lex_less, lex_lt, push_char};

verus! {

/// Entry `a` ranks above entry `b`: a higher count, or the same count and a
/// smaller token.
pub open spec fn ranks_before(a: (Seq<char>, nat), b: (Seq<char>, nat)) -> bool {
    a.1 > b.1 || (a.1 == b.1 && lex_lt(a.0, b.0))
}

/// `a` ranks above `b`.
fn ranks_above(a: &(String, usize), b: &(String, usize)) -> (r: bool)
    ensures
        r == ranks_before((a.0@, a.1 as nat), (b.0@, b.1 as nat)),
{
    if a.1 != b.1 {
        a.1 > b.1
    } else {
        lex_less(a.0.as_str(), b.0.as_str())
    }
}

/// The `n` highest-ranked entries of `counts`, best first: the highest
/// counts, ties in ascending token order. All of them when there are fewer
/// than `n`.
pub fn top_words(counts: &WordCounts, n: usize) -> (r: Vec<(String, usize)>)
    requires
        counts.wf(),
    ensures
        r.len() == if n < counts@.dom().len() { n as nat } else { counts@.dom().len() },
        forall|i: int|
            0 <= i < r.len() ==> #[trigger] counts@.contains_key(r[i].0@) && counts@[r[i].0@] == r[i].1
                as nat,
        forall|i: int, j: int|
            0 <= i < j < r.len() ==> ranks_before(
                (#[trigger] r[i].0@, r[i].1 as nat),
                (#[trigger] r[j].0@, r[j].1 as nat),
            ),
        forall|k: Seq<char>|
            #[trigger] counts@.contains_key(k) && (forall|i: int| 0 <= i < r.len() ==> r[i].0@ != k)
                ==> r.len() == n && (n > 0 ==> ranks_before(
                (r[r.len() - 1].0@, r[r.len() - 1].1 as nat),
                (k, counts@[k]),
            )),
{
    let entries = counts.entries();
    let ghost ps = counts.pairs();
    let m = entries.len();
    proof {
        counts.lemma_len_is_dom();
    }
    let mut remaining: Vec<usize> = Vec::new();
    let mut j: usize = 0;
    while j < m
        invariant
            j <= m,
            remaining@ == Seq::new(j as nat, |x: int| x as usize),
        decreases m - j,
    {
        remaining.push(j);
        proof {
            assert(remaining@ =~= Seq::new((j + 1) as nat, |x: int| x as usize));
        }
        j = j + 1;
    }
    let mut out: Vec<(String, usize)> = Vec::new();
    let ghost mut chosen: Seq<int> = Seq::empty();
    proof {
        assert forall|x: int| 0 <= x < m implies #[trigger] held(remaining@, chosen, x) by {
            assert(remaining@[x] == x);
        }
    }
    while out.len() < n && out.len() < m
        invariant
            m == entries.len(),
            pairs_of(entries@) == ps,
            keys_unique(ps),
            out.len() == chosen.len(),
            out.len() <= n,
            m == ps.len(),
            m == counts@.dom().len(),
            remaining.len() + chosen.len() == m,
            forall|q: int| 0 <= q < remaining.len() ==> #[trigger] remaining@[q] < m,
            forall|q1: int, q2: int| 0 <= q1 < q2 < remaining.len() ==> #[trigger] remaining@[q1] != #[trigger] remaining@[q2],
            forall|i: int| 0 <= i < chosen.len() ==> 0 <= #[trigger] chosen[i] < m,
            forall|x: int| 0 <= x < m ==> #[trigger] held(remaining@, chosen, x),
            forall|i: int| 0 <= i < chosen.len() ==> (#[trigger] out@[i]).0@ == ps[chosen[i]].0 && out@[i].1 as nat == ps[chosen[i]].1,
            forall|i: int, q: int| 0 <= i < chosen.len() && 0 <= q < remaining.len() ==> ranks_before(ps[#[trigger] chosen[i]], ps[#[trigger] remaining@[q] as int]),
            forall|i: int, i2: int| 0 <= i < i2 < chosen.len() ==> ranks_before(ps[#[trigger] chosen[i]], ps[#[trigger] chosen[i2]]),
        decreases m - out.len(),
    {
        let mut bp: usize = 0;
        let mut q: usize = 1;
        while q < remaining.len()
            invariant
                m == entries.len(),
                pairs_of(entries@) == ps,
                keys_unique(ps),
                remaining.len() > 0,
                forall|q: int| 0 <= q < remaining.len() ==> #[trigger] remaining@[q] < m,
                forall|q1: int, q2: int| 0 <= q1 < q2 < remaining.len() ==> #[trigger] remaining@[q1] != #[trigger] remaining@[q2],
                1 <= q <= remaining.len(),
                bp < q,
                forall|y: int| 0 <= y < q && y != bp ==> ranks_before(ps[remaining@[bp as int] as int], ps[#[trigger] remaining@[y] as int]),
            decreases remaining.len() - q,
        {
            let a = remaining[q];
            let b = remaining[bp];
            proof {
                assert(ps[a as int] == (entries@[a as int].0@, entries@[a as int].1 as nat));
                assert(ps[b as int] == (entries@[b as int].0@, entries@[b as int].1 as nat));
            }
            if ranks_above(&entries[a], &entries[b]) {
                proof {
                    assert forall|y: int| 0 <= y < q + 1 && y != q implies ranks_before(ps[a as int], #[trigger] ps[remaining@[y] as int]) by {
                        if y != bp as int {
                            lemma_ranks_trans(ps[a as int], ps[b as int], ps[remaining@[y] as int]);
                        }
                    }
                }
                bp = q;
            } else {
                proof {
                    assert(a != b);
                    assert(ps[a as int].0 != ps[b as int].0);
                    lemma_ranks_total(ps[a as int], ps[b as int]);
                }
            }
            q = q + 1;
        }
        let ghost old_rem = remaining@;
        let ghost old_chosen = chosen;
        let best = remaining.remove(bp);
        proof {
            assert(ps[best as int] == (entries@[best as int].0@, entries@[best as int].1 as nat));
        }
        out.push((entries[best].0.clone(), entries[best].1));
        proof {
            chosen = chosen.push(best as int);
            assert forall|q1: int, q2: int| 0 <= q1 < q2 < remaining.len() implies #[trigger] remaining@[q1] != #[trigger] remaining@[q2] by {
                let o1 = if q1 < bp { q1 } else { q1 + 1 };
                let o2 = if q2 < bp { q2 } else { q2 + 1 };
                assert(remaining@[q1] == old_rem[o1] && remaining@[q2] == old_rem[o2]);
            }
            assert forall|x: int| 0 <= x < m implies #[trigger] held(remaining@, chosen, x) by {
                assert(held(old_rem, old_chosen, x));
                if exists|i: int| 0 <= i < old_chosen.len() && #[trigger] old_chosen[i] == x {
                    let i = choose|i: int| 0 <= i < old_chosen.len() && #[trigger] old_chosen[i] == x;
                    assert(chosen[i] == x);
                } else {
                    let q = choose|q: int| 0 <= q < old_rem.len() && #[trigger] old_rem[q] == x;
                    if q == bp {
                        assert(chosen[old_chosen.len() as int] == x);
                    } else if q < bp {
                        assert(remaining@[q] == x);
                    } else {
                        assert(remaining@[q - 1] == x);
                    }
                }
            }
            assert forall|i: int| 0 <= i < chosen.len() implies (#[trigger] out@[i]).0@ == ps[chosen[i]].0 && out@[i].1 as nat == ps[chosen[i]].1 by {
                if i < old_chosen.len() {
                    assert(chosen[i] == old_chosen[i]);
                }
            }
            assert forall|i: int, q: int| 0 <= i < chosen.len() && 0 <= q < remaining.len() implies ranks_before(ps[#[trigger] chosen[i]], ps[#[trigger] remaining@[q] as int]) by {
                let o = if q < bp { q } else { q + 1 };
                assert(remaining@[q] == old_rem[o]);
                if i < old_chosen.len() {
                    assert(chosen[i] == old_chosen[i]);
                } else {
                    assert(o != bp as int);
                }
            }
            assert forall|i: int, i2: int| 0 <= i < i2 < chosen.len() implies ranks_before(ps[#[trigger] chosen[i]], ps[#[trigger] chosen[i2]]) by {
                assert(chosen[i] == old_chosen[i]);
                if i2 < old_chosen.len() {
                    assert(chosen[i2] == old_chosen[i2]);
                } else {
                    assert(old_rem[bp as int] == best);
                }
            }
        }
    }
    proof {
        assert forall|i: int| 0 <= i < out.len() implies #[trigger] counts@.contains_key(out[i].0@) && counts@[out[i].0@] == out[i].1 as nat by {
            lemma_map_of_entry(ps, chosen[i]);
        }
        assert forall|i: int, i2: int| 0 <= i < i2 < out.len() implies ranks_before(
            (#[trigger] out[i].0@, out[i].1 as nat),
            (#[trigger] out[i2].0@, out[i2].1 as nat),
        ) by {
            assert(ps[chosen[i]] == (out[i].0@, out[i].1 as nat));
            assert(ps[chosen[i2]] == (out[i2].0@, out[i2].1 as nat));
        }
        assert forall|k: Seq<char>|
            #[trigger] counts@.contains_key(k) && (forall|i: int| 0 <= i < out.len() ==> out[i].0@ != k)
            implies out.len() == n && (n > 0 ==> ranks_before(
                (out[out.len() - 1].0@, out[out.len() - 1].1 as nat),
                (k, counts@[k]),
            )) by {
            lemma_map_of_domain(ps, k);
            let y = choose|y: int| 0 <= y < ps.len() && (#[trigger] ps[y]).0 == k;
            lemma_map_of_entry(ps, y);
            assert(held(remaining@, chosen, y));
            if exists|i: int| 0 <= i < chosen.len() && #[trigger] chosen[i] == y {
                let i = choose|i: int| 0 <= i < chosen.len() && #[trigger] chosen[i] == y;
                assert(out@[i].0@ == k);
                assert(false);
            }
            let q = choose|q: int| 0 <= q < remaining.len() && #[trigger] remaining@[q] == y;
            if n > 0 {
                let last = out.len() - 1;
                assert(ps[chosen[last as int]] == (out[last as int].0@, out[last as int].1 as nat));
            }
        }
    }
    out
}

/// The header line of a report of the top `n` words.
pub open spec fn report_header(n: nat) -> Seq<char> {
    seq!['T', 'o', 'p', ' '] + decimal_of(n) + seq![' ', 'w', 'o', 'r', 'd', 's', ':', '\n']
}

/// The console report: the header, then one `token: count` line per entry.
pub open spec fn report_text(n: nat, top: Seq<(Seq<char>, nat)>) -> Seq<char>
    decreases top.len(),
{
    if top.len() == 0 {
        report_header(n)
    } else {
        report_text(n, top.drop_last()) + top.last().0 + seq![':', ' '] + decimal_of(top.last().1)
            + seq!['\n']
    }
}

/// Writes the report of the top `n` words, whose ranked entries are `top`.
pub fn format_report(top: &Vec<(String, usize)>, n: usize) -> (r: String)
    ensures
        r@ == report_text(n as nat, pairs_of(top@)),
{
    let ghost ps = pairs_of(top@);
    let mut out = String::new();
    push_char(&mut out, 'T');
    push_char(&mut out, 'o');
    push_char(&mut out, 'p');
    push_char(&mut out, ' ');
    let num = decimal_text(n);
    out.append(num.as_str());
    push_char(&mut out, ' ');
    push_char(&mut out, 'w');
    push_char(&mut out, 'o');
    push_char(&mut out, 'r');
    push_char(&mut out, 'd');
    push_char(&mut out, 's');
    push_char(&mut out, ':');
    push_char(&mut out, '\n');
    proof {
        assert(out@ =~= report_header(n as nat));
        assert(ps.take(0) =~= Seq::<(Seq<char>, nat)>::empty());
    }
    let mut i: usize = 0;
    while i < top.len()
        invariant
            i <= top.len(),
            ps == pairs_of(top@),
            out@ == report_text(n as nat, ps.take(i as int)),
        decreases top.len() - i,
    {
        let ghost before = out@;
        out.append(top[i].0.as_str());
        push_char(&mut out, ':');
        push_char(&mut out, ' ');
        let num = decimal_text(top[i].1);
        out.append(num.as_str());
        push_char(&mut out, '\n');
        proof {
            assert(ps.take(i + 1).drop_last() =~= ps.take(i as int));
            assert(ps[i as int] == (top@[i as int].0@, top@[i as int].1 as nat));
            assert(out@ =~= report_text(n as nat, ps.take(i + 1)));
        }
        i = i + 1;
    }
    proof {
        assert(ps.take(i as int) =~= ps);
    }
    out
}

/// Index `x` is either still to be ranked or already chosen.
spec fn held(remaining: Seq<usize>, chosen: Seq<int>, x: int) -> bool {
    (exists|q: int| 0 <= q < remaining.len() && #[trigger] remaining[q] == x)
        || (exists|i: int| 0 <= i < chosen.len() && #[trigger] chosen[i] == x)
}

proof fn lemma_ranks_trans(a: (Seq<char>, nat), b: (Seq<char>, nat), c: (Seq<char>, nat))
    requires
        ranks_before(a, b),
        ranks_before(b, c),
    ensures
        ranks_before(a, c),
{
    if a.1 == b.1 && b.1 == c.1 {
        lemma_lex_trans(a.0, b.0, c.0);
    }
}

proof fn lemma_ranks_total(a: (Seq<char>, nat), b: (Seq<char>, nat))
    requires
        a.0 != b.0,
        !ranks_before(a, b),
    ensures
        ranks_before(b, a),
{
    lemma_lex_total(a.0, b.0);
}

} // verus!
