//! Whitespace tokenizing and case-folded word counting of one text blob.

use vstd::prelude::*;
use crate::chunker::texts;
use crate::counts::{count_in, WordCounts};
use crate::text::{is_white, lower_of, lowercase, push_char, white_space};

verus! {

/// The maximal runs of non-white-space characters of `s`, in order.
pub open spec fn tokens(s: Seq<char>) -> Seq<Seq<char>>
    decreases s.len(),
{
    if s.len() == 0 {
        Seq::empty()
    } else {
        let pre = s.drop_last();
        let c = s.last();
        let t = tokens(pre);
        if white_space(c) {
            t
        } else if pre.len() == 0 || white_space(pre.last()) {
            t.push(seq![c])
        } else {
            t.drop_last().push(t.last().push(c))
        }
    }
}

/// How many times each token occurs in `ts`.
pub open spec fn tally(ts: Seq<Seq<char>>) -> Map<Seq<char>, nat>
    decreases ts.len(),
{
    if ts.len() == 0 {
        Map::empty()
    } else {
        let m = tally(ts.drop_last());
        m.insert(ts.last(), count_in(m, ts.last()) + 1)
    }
}

/// The lowercased tokens of a text.
pub open spec fn folded_tokens(text: Seq<char>) -> Seq<Seq<char>> {
    tokens(text).map_values(|t: Seq<char>| lower_of(t))
}

/// The word counts of a text: each lowercased token with its number of
/// occurrences.
pub open spec fn word_counts_of(text: Seq<char>) -> Map<Seq<char>, nat> {
    tally(folded_tokens(text))
}

/// Splits `s` at runs of white space, dropping the white space.
pub fn split_tokens(s: &str) -> (r: Vec<String>)
    ensures
        texts(r@) == tokens(s@),
{
    broadcast use vstd::string::group_string_axioms;

    let mut done: Vec<String> = Vec::new();
    let mut cur = String::new();
    let mut in_token = false;
    for c in it: s.chars()
        invariant
            in_token == (cur@.len() > 0),
            it.seq() == s@,
            it.index() <= s@.len(),
            tokens(s@.take(it.index() as int)) == if cur@.len() == 0 {
                texts(done@)
            } else {
                texts(done@).push(cur@)
            },
            cur@.len() > 0 <==> (it.index() > 0 && !white_space(s@[it.index() - 1])),
    {
        let ghost k = it.index() as int;
        let ghost pre = s@.take(k);
        let ghost next = s@.take(k + 1);
        proof {
            assert(next.drop_last() =~= pre);
            assert(next.last() == c);
            if k > 0 {
                assert(pre.last() == s@[k - 1]);
            }
        }
        if is_white(c) {
            if in_token {
                let ghost before = done@;
                done.push(cur);
                cur = String::new();
                in_token = false;
                proof {
                    assert(texts(done@) =~= texts(before).push(done@.last()@));
                }
            }
        } else {
            let ghost before = cur@;
            push_char(&mut cur, c);
            in_token = true;
            proof {
                if before.len() > 0 {
                    let t = texts(done@).push(before);
                    assert(t.drop_last().push(t.last().push(c)) =~= texts(done@).push(cur@));
                } else {
                    assert(cur@ =~= seq![c]);
                }
            }
        }
    }
    proof {
        assert(s@.take(s@.len() as int) =~= s@);
    }
    if in_token {
        let ghost before = done@;
        done.push(cur);
        proof {
            assert(texts(done@) =~= texts(before).push(done@.last()@));
        }
    }
    done
}

proof fn lemma_tally_bound(ts: Seq<Seq<char>>, k: Seq<char>)
    ensures
        count_in(tally(ts), k) <= ts.len(),
    decreases ts.len(),
{
    if ts.len() > 0 {
        lemma_tally_bound(ts.drop_last(), k);
    }
}

/// Counts the tokens of `text`, each folded to lowercase.
pub fn count_words(text: &str) -> (r: WordCounts)
    ensures
        r.wf(),
        r@ == word_counts_of(text@),
{
    let toks = split_tokens(text);
    let ghost folded = folded_tokens(text@);
    let mut counts = WordCounts::new();
    let mut i: usize = 0;
    while i < toks.len()
        invariant
            i <= toks.len(),
            texts(toks@) == tokens(text@),
            folded == folded_tokens(text@),
            counts.wf(),
            counts@ == tally(folded.take(i as int)),
        decreases toks.len() - i,
    {
        let low = lowercase(toks[i].as_str());
        proof {
            assert(folded[i as int] == lower_of(toks@[i as int]@));
            assert(folded.take(i + 1).drop_last() =~= folded.take(i as int));
            lemma_tally_bound(folded.take(i as int), low@);
        }
        counts.add(low, 1);
        i = i + 1;
    }
    proof {
        assert(folded.take(i as int) =~= folded);
    }
    counts
}

/// Counting a text twice gives the same mapping both times: the counts are a
/// function of the text alone.
pub proof fn lemma_count_words_deterministic(a: Seq<char>, b: Seq<char>)
    requires
        a == b,
    ensures
        word_counts_of(a) == word_counts_of(b),
{
}

} // verus!
