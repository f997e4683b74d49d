//! The text form of an intermediate record: one `token count` line per
//! entry. Reading is line by line and best effort: a line that is not
//! exactly two fields with a numeric second field is skipped.

use vstd::prelude::*;
use vstd::string::StringExecFns;
use crate::counts::{lemma_map_of_domain, map_of, pairs_of, WordCounts};
use crate::text::{
    count_of_text, decimal_of, decimal_text, lemma_decimal_reads_back, no_white_space, parse_count,
    push_char, white_space,
};
use crate::words::{split_tokens, tokens};

verus! {

/// One record line, without its terminator: the token, a space, the count.
pub open spec fn record_line(k: Seq<char>, v: nat) -> Seq<char> {
    k + seq![' '] + decimal_of(v)
}

/// The record text of a sequence of entries: one terminated line each.
pub open spec fn record_text(ps: Seq<(Seq<char>, nat)>) -> Seq<char>
    decreases ps.len(),
{
    if ps.len() == 0 {
        Seq::empty()
    } else {
        record_text(ps.drop_last()) + record_line(ps.last().0, ps.last().1) + seq!['\n']
    }
}

/// The pieces of `s` between line terminators; the last piece is what
/// follows the last terminator, and is empty when `s` ends with one.
pub open spec fn pieces(s: Seq<char>) -> Seq<Seq<char>>
    decreases s.len(),
{
    if s.len() == 0 {
        seq![Seq::empty()]
    } else {
        let p = pieces(s.drop_last());
        if s.last() == '\n' {
            p.push(Seq::empty())
        } else {
            p.drop_last().push(p.last().push(s.last()))
        }
    }
}

/// The entry a record line holds, if it is well formed.
pub open spec fn line_entry(line: Seq<char>) -> Option<(Seq<char>, nat)> {
    let f = tokens(line);
    if f.len() == 2 {
        match count_of_text(f[1]) {
            Some(v) => Some((f[0], v)),
            None => None,
        }
    } else {
        None
    }
}

/// The mapping read from a sequence of lines: each well-formed line sets its
/// token's count; the others are skipped.
pub open spec fn lines_map(lines: Seq<Seq<char>>) -> Map<Seq<char>, nat>
    decreases lines.len(),
{
    if lines.len() == 0 {
        Map::empty()
    } else {
        let m = lines_map(lines.drop_last());
        match line_entry(lines.last()) {
            Some(e) => m.insert(e.0, e.1),
            None => m,
        }
    }
}

/// The mapping that a record text holds.
pub open spec fn record_counts(text: Seq<char>) -> Map<Seq<char>, nat> {
    lines_map(pieces(text))
}

/// Writes `counts` in record form, one `token count` line per entry.
pub fn encode_record(counts: &WordCounts) -> (r: String)
    ensures
        r@ == record_text(counts.pairs()),
{
    let entries = counts.entries();
    let ghost ps = counts.pairs();
    let mut out = String::new();
    let mut i: usize = 0;
    while i < entries.len()
        invariant
            i <= entries.len(),
            pairs_of(entries@) == ps,
            out@ == record_text(ps.take(i as int)),
        decreases entries.len() - i,
    {
        let ghost before = out@;
        out.append(entries[i].0.as_str());
        push_char(&mut out, ' ');
        let num = decimal_text(entries[i].1);
        out.append(num.as_str());
        push_char(&mut out, '\n');
        proof {
            assert(ps.take(i + 1).drop_last() =~= ps.take(i as int));
            assert(ps[i as int] == (entries@[i as int].0@, entries@[i as int].1 as nat));
            assert(out@ =~= record_text(ps.take(i + 1)));
        }
        i = i + 1;
    }
    proof {
        assert(ps.take(i as int) =~= ps);
    }
    out
}

/// Reads one record line: its token and count, or nothing when the line is
/// not two fields with a numeric second field.
pub fn parse_record_line(line: &str) -> (r: Option<(String, usize)>)
    ensures
        match line_entry(line@) {
            Some(e) => match r {
                Some(p) => p.0@ == e.0 && p.1 as nat == e.1,
                None => false,
            },
            None => r is None,
        },
{
    let fields = split_tokens(line);
    if fields.len() == 2 {
        proof {
            assert(fields@[0]@ == tokens(line@)[0]);
            assert(fields@[1]@ == tokens(line@)[1]);
        }
        match parse_count(fields[1].as_str()) {
            Some(v) => Some((fields[0].clone(), v)),
            None => None,
        }
    } else {
        None
    }
}

/// Reads a record text back into counts. Later lines for the same token
/// replace earlier ones.
pub fn decode_record(text: &str) -> (r: WordCounts)
    ensures
        r.wf(),
        r@ == record_counts(text@),
{
    broadcast use vstd::string::group_string_axioms;

    let mut counts = WordCounts::new();
    let mut cur = String::new();
    let ghost mut done: Seq<Seq<char>> = Seq::empty();
    for c in it: text.chars()
        invariant
            it.seq() == text@,
            it.index() <= text@.len(),
            pieces(text@.take(it.index() as int)) == done.push(cur@),
            counts.wf(),
            counts@ == lines_map(done),
    {
        let ghost k = it.index() as int;
        proof {
            let next = text@.take(k + 1);
            assert(next.drop_last() =~= text@.take(k));
            assert(next.last() == c);
        }
        if c == '\n' {
            let ghost line = cur@;
            take_line(&mut counts, cur.as_str());
            cur = String::new();
            proof {
                assert(done.push(line).drop_last() =~= done);
                done = done.push(line);
            }
        } else {
            let ghost before = cur@;
            push_char(&mut cur, c);
            proof {
                let p = done.push(before);
                assert(p.drop_last().push(p.last().push(c)) =~= done.push(cur@));
            }
        }
    }
    proof {
        assert(text@.take(text@.len() as int) =~= text@);
        assert(done.push(cur@).drop_last() =~= done);
    }
    take_line(&mut counts, cur.as_str());
    counts
}

fn take_line(counts: &mut WordCounts, line: &str)
    requires
        old(counts).wf(),
    ensures
        final(counts).wf(),
        final(counts)@ == match line_entry(line@) {
            Some(e) => old(counts)@.insert(e.0, e.1),
            None => old(counts)@,
        },
{
    match parse_record_line(line) {
        Some((k, v)) => counts.set(k, v),
        None => {},
    }
}

proof fn lemma_pieces_nonempty(s: Seq<char>)
    ensures
        pieces(s).len() > 0,
    decreases s.len(),
{
    if s.len() > 0 {
        lemma_pieces_nonempty(s.drop_last());
    }
}

proof fn lemma_pieces_append(t: Seq<char>, l: Seq<char>)
    requires
        pieces(t).last() == Seq::<char>::empty(),
        forall|i: int| 0 <= i < l.len() ==> #[trigger] l[i] != '\n',
    ensures
        pieces(t + l) == pieces(t).drop_last().push(l),
    decreases l.len(),
{
    lemma_pieces_nonempty(t);
    if l.len() == 0 {
        assert(t + l =~= t);
        assert(l =~= Seq::<char>::empty());
        assert(pieces(t).drop_last().push(l) =~= pieces(t));
    } else {
        let lp = l.drop_last();
        lemma_pieces_append(t, lp);
        assert((t + l).drop_last() =~= t + lp);
        assert((t + l).last() == l.last());
        assert(lp.push(l.last()) =~= l);
        let p = pieces(t + lp);
        assert(p.drop_last() =~= pieces(t).drop_last());
    }
}

proof fn lemma_tokens_append_word(a: Seq<char>, w: Seq<char>)
    requires
        a.len() == 0 || white_space(a.last()),
        w.len() > 0,
        no_white_space(w),
    ensures
        tokens(a + w) == tokens(a).push(w),
    decreases w.len(),
{
    let wp = w.drop_last();
    assert((a + w).drop_last() =~= a + wp);
    assert((a + w).last() == w.last());
    assert(!white_space(w[w.len() - 1]));
    if wp.len() == 0 {
        assert(a + wp =~= a);
        assert(w =~= seq![w.last()]);
    } else {
        assert(no_white_space(wp)) by {
            assert forall|i: int| 0 <= i < wp.len() implies !white_space(#[trigger] wp[i]) by {
                assert(wp[i] == w[i]);
            }
        }
        lemma_tokens_append_word(a, wp);
        assert((a + wp).last() == wp.last());
        assert(!white_space(w[wp.len() - 1]));
        assert(wp.push(w.last()) =~= w);
        assert(tokens(a).push(wp).drop_last() =~= tokens(a));
    }
}

proof fn lemma_line_entry(k: Seq<char>, v: nat)
    requires
        k.len() > 0,
        no_white_space(k),
        v <= usize::MAX,
    ensures
        line_entry(record_line(k, v)) == Some((k, v)),
        forall|i: int| 0 <= i < record_line(k, v).len() ==> #[trigger] record_line(k, v)[i] != '\n',
{
    let e = Seq::<char>::empty();
    let d = decimal_of(v);
    lemma_decimal_reads_back(v);
    lemma_tokens_append_word(e, k);
    assert(e + k =~= k);
    let ks = k + seq![' '];
    assert(ks.drop_last() =~= k);
    assert(tokens(ks) == tokens(k));
    lemma_tokens_append_word(ks, d);
    assert(record_line(k, v) =~= ks + d);
    assert(tokens(e) =~= Seq::<Seq<char>>::empty());
    assert(tokens(ks + d) =~= seq![k, d]);
    let l = record_line(k, v);
    assert forall|i: int| 0 <= i < l.len() implies #[trigger] l[i] != '\n' by {
        if i < k.len() {
            assert(l[i] == k[i]);
            assert(!white_space(k[i]));
        } else if i > k.len() {
            assert(l[i] == d[i - k.len() - 1]);
            assert(!white_space(d[i - k.len() - 1]));
        }
    }
}

proof fn lemma_record_pieces(ps: Seq<(Seq<char>, nat)>)
    requires
        forall|i: int|
            0 <= i < ps.len() ==> (#[trigger] ps[i]).0.len() > 0 && no_white_space(ps[i].0) && ps[i].1
                <= usize::MAX,
    ensures
        pieces(record_text(ps)).last() == Seq::<char>::empty(),
        lines_map(pieces(record_text(ps))) == map_of(ps),
    decreases ps.len(),
{
    if ps.len() == 0 {
        assert(record_text(ps) =~= Seq::<char>::empty());
        assert(pieces(Seq::<char>::empty()) =~= seq![Seq::<char>::empty()]);
        assert(lines_map(Seq::<Seq<char>>::empty()) == Map::<Seq<char>, nat>::empty());
        assert(tokens(Seq::<char>::empty()).len() == 0);
        assert(line_entry(Seq::<char>::empty()) is None);
        assert(seq![Seq::<char>::empty()].drop_last() =~= Seq::<Seq<char>>::empty());
    } else {
        let pre = ps.drop_last();
        assert forall|i: int| 0 <= i < pre.len() implies (#[trigger] pre[i]).0.len() > 0 && no_white_space(
            pre[i].0,
        ) && pre[i].1 <= usize::MAX by {
            assert(pre[i] == ps[i]);
        }
        lemma_record_pieces(pre);
        let t = record_text(pre);
        let (k, v) = ps.last();
        assert(ps[ps.len() - 1] == ps.last());
        lemma_line_entry(k, v);
        let l = record_line(k, v);
        lemma_pieces_append(t, l);
        lemma_pieces_nonempty(t);
        let s = record_text(ps);
        assert(s =~= (t + l).push('\n'));
        assert(s.drop_last() =~= t + l);
        let lines = pieces(t).drop_last().push(l);
        assert(pieces(s) == lines.push(Seq::<char>::empty()));
        assert(tokens(Seq::<char>::empty()).len() == 0);
        assert(lines.push(Seq::<char>::empty()).drop_last() =~= lines);
        assert(lines.drop_last() =~= pieces(t).drop_last());
        assert(pieces(t) =~= pieces(t).drop_last().push(Seq::<char>::empty()));
        assert(lines_map(pieces(t)) == lines_map(pieces(t).drop_last()));
        assert(line_entry(Seq::<char>::empty()) is None);
        assert(lines_map(pieces(s)) == lines_map(lines));
        assert(lines.last() == l);
        assert(lines_map(lines) == lines_map(pieces(t).drop_last()).insert(k, v));
    }
}

/// Writing counts as a record and reading the record back gives the same
/// mapping, provided every token is non-empty and holds no white space.
pub proof fn lemma_record_round_trip(c: WordCounts)
    requires
        c.wf(),
        forall|k: Seq<char>| #[trigger] c@.contains_key(k) ==> k.len() > 0 && no_white_space(k),
    ensures
        record_counts(record_text(c.pairs())) == c@,
{
    let ps = c.pairs();
    c.lemma_counts_fit();
    assert forall|i: int| 0 <= i < ps.len() implies (#[trigger] ps[i]).0.len() > 0 && no_white_space(ps[i].0)
        && ps[i].1 <= usize::MAX by {
        lemma_map_of_domain(ps, ps[i].0);
        assert(c@.contains_key(ps[i].0));
    }
    lemma_record_pieces(ps);
}

} // verus!
