use std::collections::HashMap;

use histongram::ngrams::MultiLenTokenHistoNgram;
use histongram::tokens::BucketIds;
use histongram::Ngrams;

fn count_of(ngrams: &Ngrams, which: usize, gram: &[&str]) -> usize {
    let bucket = ngrams.token_bucket();
    let mut key = Vec::new();
    for w in gram {
        match bucket.find(w) {
            Some(t) => key.push(t),
            None => return 0,
        }
    }
    ngrams.histograms()[which].count(&key)
}

#[test]
fn basic() {
    let _ngram = Ngrams::new((1..=16).collect(), &mut BucketIds::new());
}

#[test]
fn lengths_one_and_two() {
    let mut ngrams = Ngrams::new(vec![1, 2], &mut BucketIds::new());
    ngrams.count(&["the", "quick", "the", "fox"]);

    assert_eq!(count_of(&ngrams, 0, &["the"]), 2);
    assert_eq!(count_of(&ngrams, 0, &["quick"]), 1);
    assert_eq!(count_of(&ngrams, 0, &["fox"]), 1);

    assert_eq!(count_of(&ngrams, 1, &["the", "quick"]), 1);
    assert_eq!(count_of(&ngrams, 1, &["quick", "the"]), 1);
    assert_eq!(count_of(&ngrams, 1, &["the", "fox"]), 1);
    assert_eq!(count_of(&ngrams, 1, &["fox", "the"]), 0);

    assert_eq!(ngrams.histograms()[0].array_len(), 1);
    assert_eq!(ngrams.histograms()[1].array_len(), 2);
    assert_eq!(ngrams.token_bucket().len(), 3);
}

#[test]
fn length_zero_counts_nothing() {
    let mut ngrams = Ngrams::new(vec![0], &mut BucketIds::new());
    ngrams.count(&["a", "b"]);
    assert!(matches!(ngrams.histograms()[0], MultiLenTokenHistoNgram::Empty));
    assert_eq!(ngrams.histograms()[0].array_len(), 0);
}

#[test]
fn long_input_across_many_refills() {
    let words: Vec<String> = (0..3000).map(|i| format!("w{}", (i * 7) % 13)).collect();
    let refs: Vec<&str> = words.iter().map(|w| w.as_str()).collect();
    let mut ngrams = Ngrams::new(vec![3, 1, 20], &mut BucketIds::new());
    ngrams.count(&refs);

    for (which, len) in [(0usize, 3usize), (1, 1), (2, 20)] {
        let mut expected: HashMap<Vec<&str>, usize> = HashMap::new();
        for w in refs.windows(len) {
            *expected.entry(w.to_vec()).or_insert(0) += 1;
        }
        for (gram, n) in expected {
            assert_eq!(count_of(&ngrams, which, &gram), n);
        }
    }
}

#[test]
fn fewer_words_than_the_length() {
    let mut ngrams = Ngrams::new(vec![5], &mut BucketIds::new());
    ngrams.count(&["only", "three", "words"]);
    assert_eq!(count_of(&ngrams, 0, &["only", "three", "words"]), 0);
}
