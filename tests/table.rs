use tokengrams::sampling::{get_occurrence_counts, SampleError};
use tokengrams::sharded::ShardedTable;
use tokengrams::SuffixTable;

fn sais(text: &str) -> SuffixTable {
    SuffixTable::new(text.encode_utf16().collect::<Vec<u16>>(), false)
}

fn utf16(s: &str) -> Vec<u16> {
    s.encode_utf16().collect()
}

fn brute_count(text: &[u16], q: &[u16]) -> usize {
    if q.len() > text.len() {
        return 0;
    }
    (0..=text.len() - q.len()).filter(|&p| &text[p..p + q.len()] == q).count()
}

#[test]
fn count_next_exists() {
    let sa = sais("aaab");

    let query = utf16("a");
    let a_index = utf16("a")[0] as usize;
    let b_index = utf16("b")[0] as usize;

    assert_eq!(2, sa.count_next(&query, Option::None)[a_index]);
    assert_eq!(1, sa.count_next(&query, Option::None)[b_index]);
}

#[test]
fn count_next_empty_query() {
    let sa = sais("aaab");

    let query = utf16("");
    let a_index = utf16("a")[0] as usize;
    let b_index = utf16("b")[0] as usize;

    assert_eq!(3, sa.count_next(&query, Option::None)[a_index]);
    assert_eq!(1, sa.count_next(&query, Option::None)[b_index]);
}

#[test]
fn batch_count_next_small_vocab() {
    let sa = sais("aaab");

    let queries: Vec<Vec<u16>> = vec![vec![utf16("a")[0]; 1]; 10_000];
    let a_index = utf16("a")[0] as usize;
    let b_index = utf16("b")[0] as usize;

    let out = sa.batch_count_next(&queries, Some(b'b' as u16 + 1));
    assert_eq!(out.len(), 10_000);
    assert_eq!(2, out[0][a_index]);
    assert_eq!(1, out[9_999][b_index]);
    assert_eq!(out[0].len(), b_index + 1);
}

#[test]
fn count_next_others_are_zero() {
    let sa = sais("aaab");
    let counts = sa.count_next(&utf16("a"), None);
    assert_eq!(counts.len(), 65536);
    let total: usize = counts.iter().sum();
    assert_eq!(total, 3);
    assert_eq!(counts[b'a' as usize], 2);
    assert_eq!(counts[b'b' as usize], 1);
}

#[test]
fn count_next_small_vocab() {
    let sa = SuffixTable::new(vec![0, 1, 0, 2, 0, 1], false);
    assert_eq!(sa.count_next(&[0], Some(3)), vec![0, 2, 1]);
    assert_eq!(sa.count_next(&[], Some(3)), vec![3, 2, 1]);
    // tokens at or above the vocabulary size are not reported
    assert_eq!(sa.count_next(&[0], Some(2)), vec![0, 2]);
    assert_eq!(sa.count_next(&[0], Some(0)), Vec::<usize>::new());
}

#[test]
fn count_next_absent_query() {
    let sa = sais("aaab");
    assert!(sa.count_next(&utf16("zz"), None).iter().all(|&c| c == 0));
    assert!(sa.count_next(&utf16("ab"), None).iter().all(|&c| c == 0));
    assert!(sa.count_next(&utf16("ba"), None).iter().all(|&c| c == 0));
    assert!(sa.count_next(&[0], None).iter().all(|&c| c == 0));
}

#[test]
fn count_next_empty_text() {
    let sa = SuffixTable::new(vec![], false);
    assert!(sa.is_empty());
    assert!(sa.count_next(&[], Some(3)).iter().all(|&c| c == 0));
    assert_eq!(sa.count_next(&[], Some(3)).len(), 3);
    assert!(sa.positions(&[1]).is_empty());
    assert!(!sa.contains(&[1]));
}

#[test]
fn count_consistency_with_end_of_text() {
    let text = utf16("abcab");
    let sa = SuffixTable::new(text.clone(), false);
    // "ab" occurs twice; the second occurrence ends the text
    let counts = sa.count_next(&utf16("ab"), None);
    let total: usize = counts.iter().sum();
    assert_eq!(total, 1);
    assert_eq!(sa.positions(&utf16("ab")).len(), 2);
    assert_eq!(brute_count(&text, &utf16("ab")), 2);
}

#[test]
fn positions_quick() {
    let sa = sais("The quick brown fox was very quick.");
    let mut pos = sa.positions(&utf16("quick")).to_vec();
    pos.sort();
    assert_eq!(pos, vec![4, 29]);
}

#[test]
fn positions_empty_query() {
    let sa = sais("The quick brown fox.");
    assert!(sa.positions(&[]).is_empty());
    assert!(sa.positions(&utf16("slow")).is_empty());
}

#[test]
fn contains_quick() {
    let sa = sais("The quick brown fox.");
    assert!(sa.contains(&utf16("quick")));
    assert!(!sa.contains(&utf16("slow")));
    assert!(!sa.contains(&[]));
    assert!(sa.contains(&utf16(".")));
    assert!(sa.contains(&utf16("The quick brown fox.")));
    assert!(!sa.contains(&utf16("The quick brown fox.!")));
}

#[test]
fn new_is_sorted() {
    let sa = sais("mississippi");
    assert!(sa.is_sorted());
    assert_eq!(sa.len(), 11);
    assert_eq!(sa.suffix(0), &utf16("i")[..]);
    assert_eq!(sa.suffix(10), &utf16("ssissippi")[..]);
}

#[test]
fn unsorted_table_is_detected() {
    let sa = SuffixTable::from_parts(utf16("ba"), vec![0, 1]);
    assert!(!sa.is_sorted());
    let (text, table) = sa.into_parts();
    assert_eq!(text, utf16("ba"));
    assert_eq!(table, vec![0, 1]);
    let sb = SuffixTable::from_parts(utf16("ba"), vec![1, 0]);
    assert!(sb.is_sorted());
}

#[test]
fn random_corpus_sorted_and_bigram_positions() {
    let mut state: u64 = 12345;
    let mut text: Vec<u16> = Vec::with_capacity(10_000);
    for _ in 0..10_000 {
        state = state.wrapping_mul(6364136223846793005).wrapping_add(1442695040888963407);
        text.push(((state >> 33) % 40) as u16);
    }
    let sa = SuffixTable::new(text.clone(), false);
    assert!(sa.is_sorted());
    let mut expected: std::collections::HashMap<(u16, u16), Vec<u64>> = std::collections::HashMap::new();
    for p in 0..text.len() - 1 {
        expected.entry((text[p], text[p + 1])).or_default().push(p as u64);
    }
    for ((x, y), mut want) in expected {
        let mut got = sa.positions(&[x, y]).to_vec();
        got.sort();
        want.sort();
        assert_eq!(got, want);
    }
}

#[test]
fn sample_follows_counts() {
    let sa = sais("aaab");
    let a = b'a' as u16;
    let b = b'b' as u16;
    let mut after_a = 0usize;
    let mut after_b = 0usize;
    for _ in 0..10_000 {
        let s = sa.sample(&[a], 2, 1).unwrap();
        assert_eq!(s.len(), 2);
        assert_eq!(s[0], a);
        if s[1] == a {
            after_a += 1;
        } else {
            assert_eq!(s[1], b);
            after_b += 1;
        }
    }
    let freq_a = after_a as f64 / 10_000.0;
    let freq_b = after_b as f64 / 10_000.0;
    assert!((freq_a - 2.0 / 3.0).abs() < 0.05);
    assert!((freq_b - 1.0 / 3.0).abs() < 0.05);
}

#[test]
fn sample_stops_at_dead_end() {
    let sa = sais("ab");
    assert_eq!(sa.sample(&utf16("b"), 2, 1), Err(SampleError::EmptyDistribution));
    assert_eq!(sa.sample(&utf16("a"), 2, 1), Ok(utf16("ab")));
    assert_eq!(sa.sample(&utf16("a"), 2, 0), Ok(utf16("a")));
    assert_eq!(sa.sample(&utf16("a"), 2, 2), Err(SampleError::EmptyDistribution));
}

#[test]
fn batch_sample_draws_each() {
    let sa = sais("abab");
    let out = sa.batch_sample(&utf16("a"), 2, 2, 5).unwrap();
    assert_eq!(out.len(), 5);
    for s in out {
        assert_eq!(s, utf16("aba"));
    }
}

#[test]
fn occurrence_counts() {
    assert_eq!(get_occurrence_counts(&[0, 1, 2, 1, 0, 5]), (4, 2));
    assert_eq!(get_occurrence_counts(&[]), (0, 0));
}

#[test]
fn counts_same_across_calls_and_tables() {
    let text = utf16("abracadabra");
    let built = SuffixTable::new(text.clone(), false);
    let (t, table) = SuffixTable::new(text.clone(), true).into_parts();
    let restored = SuffixTable::from_parts(t, table);
    for q in [utf16(""), utf16("a"), utf16("ab"), utf16("bra"), utf16("x")] {
        let first = built.count_next(&q, Some(127));
        assert_eq!(first, built.count_next(&q, Some(127)));
        assert_eq!(first, restored.count_next(&q, Some(127)));
    }
    assert_eq!(built.count_next(&utf16("a"), Some(127))[b'b' as usize], 2);
    assert_eq!(built.count_next(&utf16("a"), Some(127))[b'c' as usize], 1);
    assert_eq!(built.count_next(&utf16("a"), Some(127))[b'd' as usize], 1);
}

#[test]
fn ngram_counts_per_distinct_ngram() {
    let sa = sais("abab");
    assert_eq!(sa.ngram_counts(2), vec![2, 1]);
    assert_eq!(sa.ngram_counts(1), vec![2, 2]);
    assert_eq!(sa.ngram_counts(0), vec![4]);
    assert_eq!(sa.ngram_counts(4), vec![1]);
    assert_eq!(sa.ngram_counts(5), Vec::<usize>::new());
    let empty = SuffixTable::new(vec![], false);
    assert_eq!(empty.ngram_counts(1), Vec::<usize>::new());
    let sb = sais("aaab");
    assert_eq!(sb.ngram_counts(2), vec![2, 1]);
    assert_eq!(sb.ngram_counts(3), vec![1, 1]);
}

#[test]
fn is_valid_checks_permutation_and_order() {
    assert!(sais("banana").is_valid());
    assert!(SuffixTable::new(vec![], false).is_valid());
    assert!(SuffixTable::from_parts(utf16("ba"), vec![1, 0]).is_valid());
    assert!(!SuffixTable::from_parts(utf16("ba"), vec![0, 1]).is_valid());
    assert!(!SuffixTable::from_parts(utf16("ba"), vec![1, 1]).is_valid());
    assert!(!SuffixTable::from_parts(utf16("ba"), vec![1, 2]).is_valid());
    assert!(!SuffixTable::from_parts(utf16("ba"), vec![1]).is_valid());
}

#[test]
fn sharded_counts_add_up() {
    let s1 = sais("aaab");
    let s2 = sais("abab");
    let direct1 = s1.count_next(&utf16("a"), Some(127));
    let direct2 = s2.count_next(&utf16("a"), Some(127));
    let sharded = ShardedTable::new(vec![s1, s2]);
    let counts = sharded.count_next(&utf16("a"), Some(127));
    assert_eq!(counts.len(), 127);
    for t in 0..127 {
        assert_eq!(counts[t], direct1[t] + direct2[t]);
    }
    assert_eq!(counts[b'a' as usize], 2);
    assert_eq!(counts[b'b' as usize], 3);
    let empty = ShardedTable::new(vec![]);
    assert!(empty.count_next(&[], None).iter().all(|&c| c == 0));
}
