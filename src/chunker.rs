//! Round-robin partitioning of a line sequence into a fixed number of chunks.

use vstd::prelude::*;
use vstd::string::StringExecFns;
use vstd::arithmetic::div_mod::{lemma_fundamental_div_mod, lemma_fundamental_div_mod_converse};
use crate::text::push_char;

verus! {

/// The texts of a sequence of strings.
pub open spec fn texts(v: Seq<String>) -> Seq<Seq<char>> {
    v.map_values(|s: String| s@)
}

/// The lines that go to partition `j` of `c`: the line with index `i` goes to
/// partition `i % c`, and each partition keeps the order of the input.
pub open spec fn partition_lines(lines: Seq<Seq<char>>, c: nat, j: nat) -> Seq<Seq<char>>
    decreases lines.len(),
{
    if lines.len() == 0 {
        Seq::empty()
    } else {
        let rest = partition_lines(lines.drop_last(), c, j);
        if (lines.len() - 1) % (c as int) == j as int {
            rest.push(lines.last())
        } else {
            rest
        }
    }
}

/// Lines joined into one text, each followed by a line terminator.
pub open spec fn terminated(ls: Seq<Seq<char>>) -> Seq<char>
    decreases ls.len(),
{
    if ls.len() == 0 {
        Seq::empty()
    } else {
        terminated(ls.drop_last()) + ls.last() + seq!['\n']
    }
}

/// Splits `lines` into `num_chunks` chunks: line `i` is appended, with its
/// terminator, to chunk `i % num_chunks`. Chunks are empty when there are
/// fewer lines than chunks.
pub fn split_lines(lines: &Vec<String>, num_chunks: usize) -> (chunks: Vec<String>)
    requires
        num_chunks > 0,
    ensures
        chunks.len() == num_chunks,
        forall|j: int|
            0 <= j < num_chunks ==> (#[trigger] chunks[j])@ == terminated(
                partition_lines(texts(lines@), num_chunks as nat, j as nat),
            ),
{
    let ghost ls = texts(lines@);
    let mut chunks: Vec<String> = Vec::new();
    let mut j: usize = 0;
    while j < num_chunks
        invariant
            j <= num_chunks,
            chunks.len() == j,
            forall|k: int| 0 <= k < j ==> (#[trigger] chunks[k])@ == Seq::<char>::empty(),
        decreases num_chunks - j,
    {
        chunks.push(String::new());
        j = j + 1;
    }
    proof {
        assert forall|k: int| 0 <= k < num_chunks implies (#[trigger] chunks[k])@ == terminated(
            partition_lines(ls.take(0), num_chunks as nat, k as nat),
        ) by {
            assert(ls.take(0).len() == 0);
        }
    }
    let mut idx: usize = 0;
    let mut i: usize = 0;
    while i < lines.len()
        invariant
            ls == texts(lines@),
            i <= lines.len(),
            num_chunks > 0,
            chunks.len() == num_chunks,
            idx as int == (i as int) % (num_chunks as int),
            forall|k: int|
                0 <= k < num_chunks ==> (#[trigger] chunks[k])@ == terminated(
                    partition_lines(ls.take(i as int), num_chunks as nat, k as nat),
                ),
        decreases lines.len() - i,
    {
        let ghost before = chunks@;
        let mut chunk = chunks.remove(idx);
        chunk.append(lines[i].as_str());
        push_char(&mut chunk, '\n');
        chunks.insert(idx, chunk);
        proof {
            let pre = ls.take(i as int);
            let post = ls.take(i + 1);
            assert(post.drop_last() =~= pre);
            assert(post.last() == lines@[i as int]@);
            assert forall|k: int| 0 <= k < num_chunks implies (#[trigger] chunks[k])@ == terminated(
                partition_lines(post, num_chunks as nat, k as nat),
            ) by {
                if k == idx as int {
                    let p = partition_lines(pre, num_chunks as nat, k as nat);
                    assert(p.push(post.last()).drop_last() =~= p);
                } else {
                    assert(chunks[k] == before[k]);
                }
            }
            lemma_next_index(i as int, num_chunks as int);
        }
        idx = if idx + 1 == num_chunks { 0 } else { idx + 1 };
        i = i + 1;
    }
    proof {
        assert(ls.take(i as int) =~= ls);
    }
    chunks
}

proof fn lemma_partition_len(lines: Seq<Seq<char>>, c: nat, j: nat)
    requires
        c > 0,
        j < c,
    ensures
        partition_lines(lines, c, j).len() == lines.len() as int / (c as int) + (if (j as int) < lines.len()
            as int % (c as int) {
            1int
        } else {
            0int
        }),
    decreases lines.len(),
{
    let n = lines.len() as int;
    let ci = c as int;
    if n == 0 {
        assert(0int / ci == 0 && 0int % ci == 0) by {
            lemma_fundamental_div_mod_converse(0, ci, 0, 0);
        }
    } else {
        lemma_partition_len(lines.drop_last(), c, j);
        lemma_next_index(n - 1, ci);
        vstd::arithmetic::div_mod::lemma_mod_pos_bound(n - 1, ci);
    }
}

/// The index in the input of entry `k` of partition `j` of `c`.
pub open spec fn line_index(c: nat, j: nat, k: int) -> int {
    k * (c as int) + (j as int)
}

proof fn lemma_line_place(lines: Seq<Seq<char>>, c: nat)
    requires
        c > 0,
    ensures
        forall|i: int|
            0 <= i < lines.len() ==> {
                let p = #[trigger] partition_lines(lines, c, (i % (c as int)) as nat);
                &&& i / (c as int) < p.len()
                &&& p[i / (c as int)] == lines[i]
            },
    decreases lines.len(),
{
    let ci = c as int;
    let n = lines.len() as int;
    if n > 0 {
        let pre = lines.drop_last();
        let m = n - 1;
        lemma_line_place(pre, c);
        vstd::arithmetic::div_mod::lemma_mod_pos_bound(m, ci);
        assert forall|i: int| 0 <= i < lines.len() implies {
            let p = #[trigger] partition_lines(lines, c, (i % ci) as nat);
            &&& i / ci < p.len()
            &&& p[i / ci] == lines[i]
        } by {
            vstd::arithmetic::div_mod::lemma_mod_pos_bound(i, ci);
            let j = (i % ci) as nat;
            if i < m {
                assert(partition_lines(pre, c, j).len() > i / ci);
                assert(partition_lines(pre, c, j)[i / ci] == pre[i]);
            } else {
                lemma_partition_len(pre, c, j);
            }
        }
    }
}

proof fn lemma_entry_source(lines: Seq<Seq<char>>, c: nat, j: nat, k: int)
    requires
        c > 0,
        j < c,
        0 <= k < partition_lines(lines, c, j).len(),
    ensures
        k * (c as int) + (j as int) < lines.len(),
        partition_lines(lines, c, j)[k] == lines[k * (c as int) + (j as int)],
{
    let ci = c as int;
    let n = lines.len() as int;
    let x = k * ci + j as int;
    assert(x >= 0) by (nonlinear_arith)
        requires
            k >= 0,
            ci > 0,
            x == k * ci + j as int,
    ;
    lemma_fundamental_div_mod_converse(x, ci, k, j as int);
    lemma_partition_len(lines, c, j);
    lemma_fundamental_div_mod(n, ci);
    vstd::arithmetic::div_mod::lemma_mod_pos_bound(n, ci);
    let q = n / ci;
    let r = n % ci;
    if k < q {
        assert(x < n) by (nonlinear_arith)
            requires
                k < q,
                x == k * ci + j as int,
                (j as int) < ci,
                n == ci * q + r,
                r >= 0,
        ;
    } else {
        assert(x < n) by (nonlinear_arith)
            requires
                k == q,
                x == k * ci + j as int,
                (j as int) < r,
                n == ci * q + r,
        ;
    }
    lemma_line_place(lines, c);
    let p = partition_lines(lines, c, (x % ci) as nat);
    assert(p[x / ci] == lines[x]);
}

/// Every line lands in exactly one place: line `i` is entry `i / c` of
/// partition `i % c`, and entry `k` of partition `j` is line `k * c + j`.
/// Reading the partitions back by original index gives the input again.
pub proof fn lemma_chunk_coverage(lines: Seq<Seq<char>>, c: nat)
    requires
        c > 0,
    ensures
        forall|i: int|
            0 <= i < lines.len() ==> {
                let p = #[trigger] partition_lines(lines, c, (i % (c as int)) as nat);
                &&& i / (c as int) < p.len()
                &&& p[i / (c as int)] == lines[i]
            },
        forall|j: nat, k: int|
            j < c && 0 <= k < partition_lines(lines, c, j).len() ==> {
                &&& #[trigger] line_index(c, j, k) < lines.len()
                &&& partition_lines(lines, c, j)[k] == lines[line_index(c, j, k)]
            },
{
    lemma_line_place(lines, c);
    assert forall|j: nat, k: int|
        j < c && 0 <= k < partition_lines(lines, c, j).len() implies {
            &&& #[trigger] line_index(c, j, k) < lines.len()
            &&& partition_lines(lines, c, j)[k] == lines[line_index(c, j, k)]
        } by {
        lemma_entry_source(lines, c, j, k);
    }
}

proof fn lemma_next_index(i: int, c: int)
    requires
        i >= 0,
        c > 0,
    ensures
        (i + 1) % c == if i % c + 1 == c { 0 } else { i % c + 1 },
        (i + 1) / c == if i % c + 1 == c { i / c + 1 } else { i / c },
{
    lemma_fundamental_div_mod(i, c);
    assert(0 <= i % c < c) by {
        vstd::arithmetic::div_mod::lemma_mod_pos_bound(i, c);
    }
    if i % c + 1 == c {
        assert(i + 1 == (i / c + 1) * c + 0) by (nonlinear_arith)
            requires
                i == c * (i / c) + (i % c),
                i % c + 1 == c,
        ;
        lemma_fundamental_div_mod_converse(i + 1, c, i / c + 1, 0);
    } else {
        assert(i + 1 == (i / c) * c + (i % c + 1)) by (nonlinear_arith)
            requires
                i == c * (i / c) + (i % c),
        ;
        lemma_fundamental_div_mod_converse(i + 1, c, i / c, i % c + 1);
    }
}

} // verus!
