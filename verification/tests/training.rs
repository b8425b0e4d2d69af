use rustbpe::trainer::{MergeRecord, Tokenizer, default_pattern};
use rustbpe::word::{Word, count_pair, merge_ids};
use rustbpe::index::PairIndex;
use rustbpe::{TrainError, TrainOutcome};

fn byte_ids(s: &str) -> Vec<u32> {
    s.as_bytes().iter().map(|b| *b as u32).collect()
}

const ONE_PIECE: &str = "[\\s\\S]+";
const EACH_CHAR: &str = "[\\s\\S]";

#[test]
fn first_merge_on_example_corpus() {
    // corpus "aaabdaaabac": ('a','a') occurs 4 times, ('a','b') only 2, so
    // the first merge must be (a,a) -> 256
    let mut tok = Tokenizer::new(ONE_PIECE).unwrap();
    let corpus = vec!["aaabdaaabac".to_string()];
    let outcome = tok
        .train_from_iterator(&corpus, 257, 8, Some(ONE_PIECE.to_string()))
        .unwrap();
    assert_eq!(outcome, TrainOutcome::Done);
    assert_eq!(tok.merges.len(), 1);
    assert_eq!(tok.merges[0], MergeRecord { pair: (97, 97), new_id: 256 });
}

#[test]
fn merge_pair_rewrites_word_and_reports_deltas() {
    let mut w = Word::new(byte_ids("aaabdaaabac"), 1);
    let deltas = w.merge_pair((97, 97), 256);
    assert_eq!(w.ids, vec![256, 97, 98, 100, 256, 97, 98, 97, 99]);
    // net effect on the merged pair itself: all four occurrences are gone
    let net: i64 = deltas
        .iter()
        .filter(|d| d.0 == (97, 97))
        .map(|d| d.1)
        .sum();
    assert_eq!(net, -4);
    assert_eq!(count_pair(&w.ids, (97, 97)), 0);
    assert_eq!(count_pair(&w.ids, (256, 97)), 2);
}

#[test]
fn merge_ids_handles_overlapping_runs_left_to_right() {
    let (out, _deltas) = merge_ids(&vec![7, 7, 7], (7, 7), 300);
    assert_eq!(out, vec![300, 7]);
}

#[test]
fn index_counts_match_brute_force_rescan() {
    let words = vec![
        Word::new(byte_ids("aaab"), 3),
        Word::new(byte_ids("ab"), 2),
        Word::new(byte_ids("x"), 5),
    ];
    let idx = PairIndex::from_words(&words);
    for e in idx.entries.iter() {
        let mut brute: u64 = 0;
        for w in words.iter() {
            brute += w.freq * count_pair(&w.ids, e.pair);
        }
        assert_eq!(e.count, brute, "stored count diverges for {:?}", e.pair);
        assert!(e.count > 0);
    }
    // (a,a): 2 per "aaab" occurrence, weighted 3 -> 6; (a,b): 3 + 2 -> 5
    let aa = idx.entries.iter().find(|e| e.pair == (97, 97)).unwrap();
    assert_eq!(aa.count, 6);
    let ab = idx.entries.iter().find(|e| e.pair == (97, 98)).unwrap();
    assert_eq!(ab.count, 5);
    // the most frequent pair wins
    assert_eq!(idx.top(), Some((97, 97)));
    // owner sets list exactly the words containing the pair
    let mut owners = idx.owners_of((97, 98));
    owners.sort();
    assert_eq!(owners, vec![0, 1]);
}

#[test]
fn top_breaks_ties_toward_smallest_pair() {
    // "ba" and "ab" both occur once; (97,98) orders before (98,97)
    let words = vec![Word::new(byte_ids("ab"), 1), Word::new(byte_ids("ba"), 1)];
    let idx = PairIndex::from_words(&words);
    assert_eq!(idx.top(), Some((97, 98)));
}

#[test]
fn target_size_termination_produces_exactly_three_merges() {
    let mut tok = Tokenizer::new(ONE_PIECE).unwrap();
    let corpus = vec!["aaabdaaabac".to_string()];
    let outcome = tok
        .train_from_iterator(&corpus, 259, 4, Some(ONE_PIECE.to_string()))
        .unwrap();
    assert_eq!(outcome, TrainOutcome::Done);
    assert_eq!(tok.merges.len(), 3);
    // symbol ids are dense and strictly increasing: 256 + step index
    for (k, rec) in tok.merges.iter().enumerate() {
        assert_eq!(rec.new_id, 256 + k as u32);
    }
}

#[test]
fn exhaustion_on_distinct_single_byte_pretokens() {
    // every pretoken is a distinct single byte: no pair ever exists
    let mut tok = Tokenizer::new(EACH_CHAR).unwrap();
    let corpus = vec!["abc".to_string()];
    let outcome = tok
        .train_from_iterator(&corpus, 300, 2, Some(EACH_CHAR.to_string()))
        .unwrap();
    assert_eq!(outcome, TrainOutcome::Exhausted);
    assert_eq!(tok.merges.len(), 0);
}

#[test]
fn training_twice_is_deterministic() {
    let corpus = vec![
        "the cat sat on the mat".to_string(),
        "the bat and the cat".to_string(),
        "numbers 12345 and punct!!".to_string(),
    ];
    let mut a = Tokenizer::new(default_pattern()).unwrap();
    let mut b = Tokenizer::new(default_pattern()).unwrap();
    let oa = a.train_from_iterator(&corpus, 280, 2, None).unwrap();
    let ob = b.train_from_iterator(&corpus, 280, 2, None).unwrap();
    assert_eq!(oa, ob);
    assert_eq!(a.merges, b.merges);
    assert_eq!(a.pattern, b.pattern);
}

#[test]
fn splitting_loses_no_characters_and_is_idempotent() {
    let re = fancy_regex::Regex::new(default_pattern()).unwrap();
    let chunk = "Hello world, it's 12345  done!\nnext line\t x";
    let pieces = rustbpe::splitter::split_chunk(&re, chunk).unwrap();
    let joined: String = pieces.concat();
    assert_eq!(joined, chunk);
    let again = rustbpe::splitter::split_chunk(&re, joined.as_str()).unwrap();
    assert_eq!(again, pieces);
}

#[test]
fn splitter_separates_words_digit_runs_and_punctuation() {
    let re = fancy_regex::Regex::new(default_pattern()).unwrap();
    let pieces = rustbpe::splitter::split_chunk(&re, "ab cd").unwrap();
    assert_eq!(pieces, vec!["ab".to_string(), " cd".to_string()]);
    // digit runs are capped at three digits
    let digits = rustbpe::splitter::split_chunk(&re, "1234").unwrap();
    assert_eq!(digits, vec!["123".to_string(), "4".to_string()]);
    // contraction suffixes split off
    let contra = rustbpe::splitter::split_chunk(&re, "it's").unwrap();
    assert_eq!(contra, vec!["it".to_string(), "'s".to_string()]);
}

#[test]
fn invalid_pattern_is_rejected_eagerly() {
    assert_eq!(Tokenizer::new("(").unwrap_err(), TrainError::ConfigurationError);

    let mut tok = Tokenizer::new(ONE_PIECE).unwrap();
    let corpus = vec!["abc".to_string()];
    let before_pattern = tok.pattern.clone();
    let err = tok
        .train_from_iterator(&corpus, 300, 2, Some("(".to_string()))
        .unwrap_err();
    assert_eq!(err, TrainError::ConfigurationError);
    assert_eq!(tok.pattern, before_pattern);
    assert_eq!(tok.merges.len(), 0);
}

#[test]
fn zero_sizes_are_configuration_errors() {
    let mut tok = Tokenizer::new(ONE_PIECE).unwrap();
    let corpus = vec!["abc".to_string()];
    assert_eq!(
        tok.train_from_iterator(&corpus, 0, 2, None).unwrap_err(),
        TrainError::ConfigurationError
    );
    assert_eq!(
        tok.train_from_iterator(&corpus, 300, 0, None).unwrap_err(),
        TrainError::ConfigurationError
    );
}

#[test]
fn match_engine_failure_aborts_the_run() {
    // nested quantifiers behind a lookahead force the backtracking engine
    // past its step limit: the run must fail, not skip the chunk
    let pattern = "(x+x+)+y(?!z)";
    let mut tok = Tokenizer::new(pattern).unwrap();
    let corpus = vec!["x".repeat(40)];
    let err = tok
        .train_from_iterator(&corpus, 300, 2, Some(pattern.to_string()))
        .unwrap_err();
    assert_eq!(err, TrainError::MatchEngineError);
}

#[test]
fn word_pairs_lists_adjacent_positions() {
    let w = Word::new(vec![1, 2, 2, 3], 9);
    assert_eq!(w.pairs(), vec![(1, 2), (2, 2), (2, 3)]);
    let empty = Word::new(vec![], 1);
    assert_eq!(empty.pairs(), Vec::<(u32, u32)>::new());
    assert_eq!(Word::new(vec![5], 1).pairs(), Vec::<(u32, u32)>::new());
}

#[test]
fn count_pair_counts_overlapping_positions() {
    assert_eq!(count_pair(&vec![7, 7, 7], (7, 7)), 2);
    assert_eq!(count_pair(&vec![], (1, 2)), 0);
    assert_eq!(count_pair(&vec![1], (1, 2)), 0);
}

#[test]
fn batching_does_not_change_the_result() {
    let corpus: Vec<String> = vec![
        "one two three".to_string(),
        "two three four".to_string(),
        "three four five".to_string(),
        "four five six".to_string(),
    ];
    let mut small = Tokenizer::new(default_pattern()).unwrap();
    let mut large = Tokenizer::new(default_pattern()).unwrap();
    small.train_from_iterator(&corpus, 270, 1, None).unwrap();
    large.train_from_iterator(&corpus, 270, 100, None).unwrap();
    assert_eq!(small.merges, large.merges);
}

#[test]
fn counter_accumulates_in_first_seen_order() {
    let mut fc = rustbpe::counter::FreqCounter::new();
    for s in ["b", "a", "b", "b"] {
        fc.add_piece(&s.to_string()).unwrap();
    }
    assert_eq!(fc.counts.len(), 2);
    assert_eq!(fc.counts[0], ("b".to_string(), 3));
    assert_eq!(fc.counts[1], ("a".to_string(), 1));
}

#[test]
fn empty_corpus_exhausts_immediately() {
    let mut tok = Tokenizer::new(ONE_PIECE).unwrap();
    let corpus: Vec<String> = Vec::new();
    let outcome = tok.train_from_iterator(&corpus, 300, 4, None).unwrap();
    assert_eq!(outcome, TrainOutcome::Exhausted);
    assert_eq!(tok.merges.len(), 0);
}

#[test]
fn empty_chunks_contribute_nothing() {
    let mut tok = Tokenizer::new(ONE_PIECE).unwrap();
    let corpus = vec!["".to_string(), "aaaa".to_string(), "".to_string()];
    let outcome = tok
        .train_from_iterator(&corpus, 257, 2, Some(ONE_PIECE.to_string()))
        .unwrap();
    assert_eq!(outcome, TrainOutcome::Done);
    assert_eq!(tok.merges[0], MergeRecord { pair: (97, 97), new_id: 256 });
}
