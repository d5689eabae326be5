use histongram::tokens::{BucketIds, TokenBucket};

#[test]
fn basic_insert() {
    let mut b = TokenBucket::new(&mut BucketIds::new());

    let a = b.token("a");
    let aa = b.token("a");
    let c = b.token("c");
    let cc = b.token("c");

    assert_eq!(a, aa);
    assert_eq!(c, cc);

    assert_ne!(a, c);
    assert_ne!(a, cc);
    assert_ne!(aa, c);
    assert_ne!(aa, cc);

    assert_eq!(b.word(a), "a");
    assert_eq!(b.word(c), "c");
}

#[test]
fn same_word_same_token_other_word_other_token() {
    let mut b = TokenBucket::new(&mut BucketIds::new());
    let first = b.token("a");
    let again = b.token("a");
    let other = b.token("b");
    assert_eq!(first, again);
    assert_ne!(first, other);
    let t = b.token("a");
    assert_eq!(b.word(t), "a");
    assert_eq!(b.len(), 2);
}

#[test]
fn same_as_compares_tokens_of_one_bucket() {
    let mut b = TokenBucket::new(&mut BucketIds::new());
    let a = b.token("a");
    let c = b.token("c");
    assert!(a.same_as(&b.token("a")));
    assert!(!a.same_as(&c));
}

#[test]
fn buckets_draw_their_ids_from_the_source() {
    let mut ids = BucketIds::new();
    let _one = TokenBucket::new(&mut ids);
    let _two = TokenBucket::new(&mut ids);
    assert_eq!(ids.new_bucket_id(), 3);
}

#[test]
fn bucket_ids_count_up_from_one() {
    let mut ids = BucketIds::new();
    assert!(!ids.is_exhausted());
    assert_eq!(ids.new_bucket_id(), 1);
    assert_eq!(ids.new_bucket_id(), 2);
    assert_eq!(ids.new_bucket_id(), 3);
}

#[test]
fn find_only_knows_seen_words() {
    let mut b = TokenBucket::new(&mut BucketIds::new());
    assert_eq!(b.len(), 0);
    let t = b.token("fox");
    assert_eq!(b.find("fox"), Some(t));
    assert_eq!(b.find("dog"), None);
    assert_eq!(b.len(), 1);
}

#[test]
fn words_come_back_after_many_tokens() {
    let mut b = TokenBucket::new(&mut BucketIds::new());
    let words: Vec<String> = (0..200).map(|i| format!("w{i}")).collect();
    let tokens: Vec<_> = words.iter().map(|w| b.token(w)).collect();
    assert_eq!(b.len(), 200);
    for (w, t) in words.iter().zip(tokens.iter()) {
        assert_eq!(b.word(*t), w.as_str());
    }
}
