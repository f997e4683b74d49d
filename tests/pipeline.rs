use wordcount_mr::{
    count_words, decode_record, encode_record, format_report, lex_less, map_step, merge_into,
    parse_record_line, record_name, reduce_step, split_lines, split_tokens, top_words, MergeError,
    WordCounts, WorkQueue, WrittenSlots,
};

fn s(x: &str) -> String {
    x.to_string()
}

fn lines(xs: &[&str]) -> Vec<String> {
    xs.iter().map(|x| x.to_string()).collect()
}

fn count_of(c: &WordCounts, k: &str) -> Option<usize> {
    c.get(&s(k))
}

#[test]
fn split_lines_round_robin() {
    let chunks = split_lines(&lines(&["a b", "b c"]), 2);
    assert_eq!(chunks, vec![s("a b\n"), s("b c\n")]);
}

#[test]
fn split_lines_fewer_lines_than_chunks() {
    let chunks = split_lines(&lines(&["only"]), 3);
    assert_eq!(chunks, vec![s("only\n"), s(""), s("")]);
}

#[test]
fn split_lines_no_lines() {
    let chunks = split_lines(&Vec::new(), 2);
    assert_eq!(chunks, vec![s(""), s("")]);
}

#[test]
fn split_lines_covers_every_line() {
    let input = lines(&["l0", "l1", "l2", "l3", "l4"]);
    let chunks = split_lines(&input, 2);
    assert_eq!(chunks, vec![s("l0\nl2\nl4\n"), s("l1\nl3\n")]);
    let mut back: Vec<(usize, String)> = Vec::new();
    for (j, chunk) in chunks.iter().enumerate() {
        for (k, line) in chunk.lines().enumerate() {
            back.push((k * 2 + j, line.to_string()));
        }
    }
    back.sort();
    let rebuilt: Vec<String> = back.into_iter().map(|(_, l)| l).collect();
    assert_eq!(rebuilt, input);
}

#[test]
fn split_lines_single_chunk_keeps_everything() {
    let chunks = split_lines(&lines(&["x", "y"]), 1);
    assert_eq!(chunks, vec![s("x\ny\n")]);
}

#[test]
fn split_tokens_on_whitespace_runs() {
    let toks = split_tokens("  a\t\tb\n  c,d  ");
    assert_eq!(toks, vec![s("a"), s("b"), s("c,d")]);
    assert!(split_tokens(" \n\t ").is_empty());
}

#[test]
fn split_tokens_on_unicode_white_space() {
    let toks = split_tokens("a\u{A0}b\u{3000}c\u{2009}d");
    assert_eq!(toks, vec![s("a"), s("b"), s("c"), s("d")]);
}

#[test]
fn count_words_folds_case() {
    let c = count_words("The the THE");
    assert_eq!(c.len(), 1);
    assert_eq!(count_of(&c, "the"), Some(3));
    assert_eq!(count_of(&c, "The"), None);
}

#[test]
fn count_words_counts_each_token() {
    let c = count_words("a b\nb c\n");
    assert_eq!(c.len(), 3);
    assert_eq!(count_of(&c, "a"), Some(1));
    assert_eq!(count_of(&c, "b"), Some(2));
    assert_eq!(count_of(&c, "c"), Some(1));
}

#[test]
fn count_words_empty_text() {
    assert_eq!(count_words("").len(), 0);
    assert_eq!(count_words("   \n").len(), 0);
}

#[test]
fn count_words_twice_gives_same_counts() {
    let text = "To be, or not to be: that is the question.";
    let a = count_words(text);
    let b = count_words(text);
    assert_eq!(a.len(), b.len());
    for (k, v) in a.entries() {
        assert_eq!(b.get(k), Some(*v));
    }
    assert_eq!(count_of(&a, "be,"), Some(1));
    assert_eq!(count_of(&a, "to"), Some(2));
}

#[test]
fn encode_record_exact_text() {
    let mut c = WordCounts::new();
    c.set(s("the"), 3);
    c.add(s("cat"), 12);
    assert_eq!(encode_record(&c), "cat 12\nthe 3\n");
}

#[test]
fn record_round_trip() {
    let mut c = WordCounts::new();
    c.set(s("alpha"), 0);
    c.set(s("beta"), 7);
    c.set(s("gamma"), usize::MAX);
    let back = decode_record(&encode_record(&c));
    assert_eq!(back.len(), 3);
    assert_eq!(count_of(&back, "alpha"), Some(0));
    assert_eq!(count_of(&back, "beta"), Some(7));
    assert_eq!(count_of(&back, "gamma"), Some(usize::MAX));
}

#[test]
fn corrupt_record_line_is_skipped() {
    let c = decode_record("word notanumber\nthe 4\nx 1 2\n\nlone\ncat 2");
    assert_eq!(c.len(), 2);
    assert_eq!(count_of(&c, "the"), Some(4));
    assert_eq!(count_of(&c, "cat"), Some(2));
    assert_eq!(count_of(&c, "word"), None);
}

#[test]
fn record_lines_with_carriage_returns() {
    let c = decode_record("a 1\r\nb 2\r\n");
    assert_eq!(count_of(&c, "a"), Some(1));
    assert_eq!(count_of(&c, "b"), Some(2));
}

#[test]
fn later_record_line_replaces_earlier() {
    let c = decode_record("a 1\na 5\n");
    assert_eq!(count_of(&c, "a"), Some(5));
}

#[test]
fn parse_record_line_forms() {
    assert_eq!(parse_record_line("w 10"), Some((s("w"), 10)));
    assert_eq!(parse_record_line("w +5"), Some((s("w"), 5)));
    assert_eq!(parse_record_line("w -5"), None);
    assert_eq!(parse_record_line("w 99999999999999999999999"), None);
    assert_eq!(parse_record_line("w"), None);
    assert_eq!(parse_record_line(""), None);
}

#[test]
fn merge_adds_counts() {
    let mut total = count_words("a b");
    let rec = count_words("b c");
    assert_eq!(merge_into(&mut total, &rec), Ok(()));
    assert_eq!(count_of(&total, "a"), Some(1));
    assert_eq!(count_of(&total, "b"), Some(2));
    assert_eq!(count_of(&total, "c"), Some(1));
}

#[test]
fn merge_overflow_is_refused() {
    let mut total = WordCounts::new();
    total.set(s("a"), usize::MAX);
    total.set(s("b"), 1);
    let mut rec = WordCounts::new();
    rec.set(s("b"), 1);
    rec.set(s("a"), 1);
    assert_eq!(merge_into(&mut total, &rec), Err(MergeError::Overflow));
    assert_eq!(count_of(&total, "a"), Some(usize::MAX));
    assert_eq!(count_of(&total, "b"), Some(1));
}

#[test]
fn merge_order_does_not_matter() {
    let parts = ["x y x", "y z", "x"];
    let direct = count_words("x y x y z x");
    let orders: [[usize; 3]; 3] = [[0, 1, 2], [2, 1, 0], [1, 2, 0]];
    for order in orders.iter() {
        let mut total = WordCounts::new();
        for &i in order.iter() {
            assert_eq!(merge_into(&mut total, &count_words(parts[i])), Ok(()));
        }
        assert_eq!(total.len(), direct.len());
        for (k, v) in direct.entries() {
            assert_eq!(total.get(k), Some(*v));
        }
    }
    assert_eq!(count_of(&direct, "x"), Some(3));
}

#[test]
fn lex_less_orders_by_character() {
    assert!(lex_less("a", "b"));
    assert!(lex_less("a", "ab"));
    assert!(!lex_less("ab", "a"));
    assert!(!lex_less("a", "a"));
    assert!(lex_less("", "a"));
    assert!(lex_less("B", "a"));
    assert!(lex_less("z", "\u{e9}"));
}

#[test]
fn top_words_ranks_with_token_tie_break() {
    let c = count_words("c a b b d d d");
    let top = top_words(&c, 3);
    assert_eq!(top, vec![(s("d"), 3), (s("b"), 2), (s("a"), 1)]);
    let all = top_words(&c, 10);
    assert_eq!(all.len(), 4);
    assert_eq!(all[3], (s("c"), 1));
    assert!(top_words(&c, 0).is_empty());
}

#[test]
fn report_text_format() {
    let top = vec![(s("b"), 2), (s("a"), 1)];
    assert_eq!(format_report(&top, 2), "Top 2 words:\nb: 2\na: 1\n");
    assert_eq!(format_report(&Vec::new(), 10), "Top 10 words:\n");
}

#[test]
fn work_queue_drains() {
    let mut q = WorkQueue::new(vec![1, 2, 3]);
    assert_eq!(q.len(), 3);
    let mut seen = Vec::new();
    while let Some(x) = q.take() {
        seen.push(x);
    }
    seen.sort();
    assert_eq!(seen, vec![1, 2, 3]);
    assert_eq!(q.take(), None);
    assert_eq!(q.len(), 0);
}

#[test]
fn record_names_by_slot() {
    assert_eq!(record_name(0), "map_0.txt");
    assert_eq!(record_name(12), "map_12.txt");
}

#[test]
fn written_slots_collapse_duplicates() {
    let mut w = WrittenSlots::new();
    w.note(0);
    w.note(1);
    w.note(0);
    let mut names = w.record_names();
    names.sort();
    assert_eq!(names, vec![s("map_0.txt"), s("map_1.txt")]);
}

#[test]
fn map_step_keeps_all_chunks_of_a_slot() {
    let mut acc = WordCounts::new();
    let first = map_step(&mut acc, "a b\n").unwrap();
    assert_eq!(first, "a 1\nb 1\n");
    let second = map_step(&mut acc, "b c\n").unwrap();
    let rec = decode_record(&second);
    assert_eq!(count_of(&rec, "a"), Some(1));
    assert_eq!(count_of(&rec, "b"), Some(2));
    assert_eq!(count_of(&rec, "c"), Some(1));
}

#[test]
fn reduce_step_adds_record() {
    let mut total = WordCounts::new();
    assert_eq!(reduce_step(&mut total, "a 1\nb 1\n"), Ok(()));
    assert_eq!(reduce_step(&mut total, "b 1\nc 1\nbad line here\n"), Ok(()));
    assert_eq!(count_of(&total, "b"), Some(2));
    assert_eq!(total.len(), 3);
    let mut big = WordCounts::new();
    big.set(s("b"), usize::MAX);
    assert_eq!(reduce_step(&mut big, "b 1\n"), Err(MergeError::Overflow));
}

#[test]
fn whole_pipeline_scenario() {
    let chunks = split_lines(&lines(&["a b", "b c"]), 2);
    assert_eq!(chunks, vec![s("a b\n"), s("b c\n")]);
    let mut records = Vec::new();
    for (slot, chunk) in chunks.iter().enumerate() {
        let mut acc = WordCounts::new();
        let text = map_step(&mut acc, chunk).unwrap();
        records.push((record_name(slot), text));
    }
    let r0 = decode_record(&records[0].1);
    assert_eq!(count_of(&r0, "a"), Some(1));
    assert_eq!(count_of(&r0, "b"), Some(1));
    let r1 = decode_record(&records[1].1);
    assert_eq!(count_of(&r1, "b"), Some(1));
    assert_eq!(count_of(&r1, "c"), Some(1));
    let mut total = WordCounts::new();
    for (_, text) in records.iter().rev() {
        assert_eq!(reduce_step(&mut total, text), Ok(()));
    }
    assert_eq!(total.len(), 3);
    assert_eq!(count_of(&total, "a"), Some(1));
    assert_eq!(count_of(&total, "b"), Some(2));
    assert_eq!(count_of(&total, "c"), Some(1));
    let top = top_words(&total, 2);
    assert_eq!(top, vec![(s("b"), 2), (s("a"), 1)]);
    assert_eq!(format_report(&top, 2), "Top 2 words:\nb: 2\na: 1\n");
}

#[test]
fn word_counts_getters() {
    let mut c = WordCounts::new();
    assert_eq!(c.len(), 0);
    c.add(s("k"), 2);
    c.add(s("k"), 3);
    assert_eq!(count_of(&c, "k"), Some(5));
    assert_eq!(c.entries(), &vec![(s("k"), 5)]);
}
