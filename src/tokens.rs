//! Structures for turning strings into tokens that can easily be copied.
use compact_str::CompactString;
use vstd::prelude::*;

verus! {

/// A source of bucket ids: each id is given out once, counting up from 1. Drawing every
/// bucket of a process from one source keeps their ids distinct.
pub struct BucketIds {
    next: u32,
}

impl BucketIds {
    /// No id is 0.
    #[verifier::type_invariant]
    spec fn inv(&self) -> bool {
        self.next >= 1
    }

    /// The id that is given out next.
    pub closed spec fn spec_next(&self) -> nat {
        self.next as nat
    }

    /// A source whose first id is 1.
    pub fn new() -> (r: Self)
        ensures
            r.spec_next() == 1,
    {
        BucketIds { next: 1 }
    }

    /// Whether every id has been given out; drawing another one is then a programming error.
    pub fn is_exhausted(&self) -> (r: bool)
        ensures
            r == (self.spec_next() >= u32::MAX),
    {
        self.next == u32::MAX
    }

    /// Hand out the next id. Running out of ids (after `u32::MAX - 1` of them) is a
    /// programming error that callers rule out, with [`BucketIds::is_exhausted`] if need be.
    pub fn new_bucket_id(&mut self) -> (r: u32)
        requires
            old(self).spec_next() < u32::MAX,
        ensures
            r >= 1,
            r == old(self).spec_next(),
            final(self).spec_next() == old(self).spec_next() + 1,
    {
        proof {
            use_type_invariant(&*self);
        }
        let id = self.next;
        self.next = self.next + 1;
        id
    }
}

/// The strings of a bucket, each with its id.
#[verifier::external_body]
pub struct WordIds {
    map: hashbrown::HashMap<CompactString, u32>,
}

/// What a [`WordIds`] holds: each string with its id.
pub uninterp spec fn word_ids(m: WordIds) -> Map<Seq<char>, u32>;

/// Relies on `hashbrown::HashMap::new`: it makes an empty map.
#[verifier::external_body]
fn empty_word_ids() -> (r: WordIds)
    ensures
        forall|w: Seq<char>| !word_ids(r).contains_key(w),
{
    WordIds { map: hashbrown::HashMap::new() }
}

/// Relies on `hashbrown::HashMap::len`: the number of strings held.
#[verifier::external_body]
fn word_count(m: &WordIds) -> (r: usize)
    ensures
        r == word_ids(*m).len(),
{
    m.map.len()
}

/// Relies on `hashbrown::HashMap::entry_ref` and `EntryRef::or_insert`: the id held for `word`;
/// when there is none, `fresh` is stored for a `CompactString` made from `word` and returned.
#[verifier::external_body]
fn id_or_insert(m: &mut WordIds, word: &str, fresh: u32) -> (r: u32)
    ensures
        word_ids(*old(m)).contains_key(word@) ==> {
            &&& r == word_ids(*old(m))[word@]
            &&& word_ids(*final(m)) == word_ids(*old(m))
        },
        !word_ids(*old(m)).contains_key(word@) ==> {
            &&& r == fresh
            &&& word_ids(*final(m)) == word_ids(*old(m)).insert(word@, fresh)
        },
{
    *m.map.entry_ref(word).or_insert(fresh)
}

/// Relies on `hashbrown::HashMap::get`: the id held for `word`, if any.
#[verifier::external_body]
fn id_of(m: &WordIds, word: &str) -> (r: Option<u32>)
    ensures
        word_ids(*m).contains_key(word@) ==> r == Some(word_ids(*m)[word@]),
        !word_ids(*m).contains_key(word@) ==> r is None,
{
    m.map.get(word).copied()
}

/// Relies on `hashbrown::HashMap::iter` and `CompactString::as_str`: every string held, once,
/// with its id.
#[verifier::external_body]
fn word_entries(m: &WordIds) -> (r: Vec<(&str, u32)>)
    ensures
        r@.len() == word_ids(*m).len(),
        forall|i: int|
            0 <= i < r@.len() ==> word_ids(*m).contains_key(#[trigger] r@[i].0@) && word_ids(
                *m,
            )[r@[i].0@] == r@[i].1,
        forall|w: Seq<char>|
            #[trigger] word_ids(*m).contains_key(w) ==> exists|i: int|
                0 <= i < r@.len() && #[trigger] r@[i].0@ == w,
{
    m.map.iter().map(|(s, id)| (s.as_str(), *id)).collect()
}

/// A token standing for a string in a [`TokenBucket`].
///
/// A token is only meaningful for the bucket that created it, and comparing tokens of two
/// buckets is a programming error. [`Token::same_as`] rules that comparison out by its
/// precondition; `==`, which hashing needs, does not detect it and compares the bucket ids too.
#[derive(Clone, Copy, Debug, Hash, PartialEq, Eq, Structural)]
pub struct Token {
    id_in_bucket: u32,
    bucket_id: u32,
}

impl Token {
    /// The id of the token within its bucket, counting from 1.
    pub closed spec fn spec_id(&self) -> nat {
        self.id_in_bucket as nat
    }

    /// The id of the bucket that created the token.
    pub closed spec fn spec_bucket(&self) -> nat {
        self.bucket_id as nat
    }

    /// Two tokens are equal exactly when their ids and their buckets are.
    pub proof fn lemma_token_eq(t1: Token, t2: Token)
        ensures
            t1 == t2 <==> (t1.spec_id() == t2.spec_id() && t1.spec_bucket() == t2.spec_bucket()),
    {
    }

    /// Whether two tokens of the same bucket stand for the same string.
    pub fn same_as(&self, other: &Token) -> (r: bool)
        requires
            self.spec_bucket() == other.spec_bucket(),
        ensures
            r == (self.spec_id() == other.spec_id()),
            r == (*self == *other),
    {
        self.id_in_bucket == other.id_in_bucket
    }
}

/// `t` is the token of bucket `bucket_id`, whose strings are `seen`, for the string `w`.
pub open spec fn names(t: Token, seen: Seq<Seq<char>>, bucket_id: nat, w: Seq<char>) -> bool {
    &&& t.spec_bucket() == bucket_id
    &&& 1 <= t.spec_id() <= seen.len()
    &&& seen[t.spec_id() - 1] == w
}

/// A basic string interner turning strings into tokens.
pub struct TokenBucket {
    map: WordIds,
    bucket_id: u32,
    words: Ghost<Seq<Seq<char>>>,
}

impl View for TokenBucket {
    type V = Seq<Seq<char>>;

    /// The strings seen so far, in the order they were first seen; the token of the string at
    /// index `i` has the id `i + 1`.
    closed spec fn view(&self) -> Seq<Seq<char>> {
        self.words@
    }
}

impl TokenBucket {
    /// The id of this bucket.
    pub closed spec fn spec_bucket(&self) -> nat {
        self.bucket_id as nat
    }

    pub closed spec fn wf(&self) -> bool {
        let ids = word_ids(self.map);
        &&& self.bucket_id > 0
        &&& self.words@.no_duplicates()
        &&& self.words@.len() <= u32::MAX
        &&& forall|w: Seq<char>| #[trigger] ids.contains_key(w) <==> self.words@.contains(w)
        &&& forall|i: int|
            0 <= i < self.words@.len() ==> #[trigger] ids[self.words@[i]] == i + 1
    }

    /// Create an empty bucket whose id is the next one of `ids`.
    pub fn new(ids: &mut BucketIds) -> (r: Self)
        requires
            old(ids).spec_next() < u32::MAX,
        ensures
            r.wf(),
            r@ == Seq::<Seq<char>>::empty(),
            r.spec_bucket() == old(ids).spec_next(),
            final(ids).spec_next() == old(ids).spec_next() + 1,
    {
        let bucket_id = ids.new_bucket_id();
        TokenBucket { map: empty_word_ids(), bucket_id, words: Ghost(Seq::empty()) }
    }

    /// Two tokens of this bucket are equal exactly when they stand for equal strings: asking
    /// twice for the same string gives equal tokens, asking for two different strings does not.
    pub proof fn lemma_tokens_match_words(&self, t1: Token, t2: Token, w1: Seq<char>, w2: Seq<char>)
        requires
            self.wf(),
            names(t1, self@, self.spec_bucket(), w1),
            names(t2, self@, self.spec_bucket(), w2),
        ensures
            t1 == t2 <==> w1 == w2,
    {
        if w1 == w2 {
            assert(t1.id_in_bucket == t2.id_in_bucket);
        }
    }

    /// The strings of a bucket are distinct.
    pub proof fn lemma_seen_distinct(&self)
        requires
            self.wf(),
        ensures
            self@.no_duplicates(),
    {
    }

    /// The number of distinct strings turned into tokens so far.
    pub fn len(&self) -> (r: usize)
        requires
            self.wf(),
        ensures
            r == self@.len(),
    {
        proof {
            self.words@.unique_seq_to_set();
            assert(word_ids(self.map).dom() =~= self.words@.to_set());
        }
        word_count(&self.map)
    }

    /// The token for `word`: the same token for equal strings, a new one for a string not
    /// seen before.
    pub fn token(&mut self, word: &str) -> (r: Token)
        requires
            old(self).wf(),
            !old(self)@.contains(word@) ==> old(self)@.len() < u32::MAX,
        ensures
            final(self).wf(),
            final(self).spec_bucket() == old(self).spec_bucket(),
            r.spec_bucket() == old(self).spec_bucket(),
            old(self)@.contains(word@) ==> final(self)@ == old(self)@,
            !old(self)@.contains(word@) ==> final(self)@ == old(self)@.push(word@),
            names(r, final(self)@, final(self).spec_bucket(), word@),
    {
        let len = self.len();
        let fresh: u32 = if len < u32::MAX as usize {
            (len + 1) as u32
        } else {
            u32::MAX
        };
        let ghost before = self.words@;
        let id = id_or_insert(&mut self.map, word, fresh);
        proof {
            if before.contains(word@) {
                let i = choose|i: int| 0 <= i < before.len() && before[i] == word@;
                assert(word_ids(self.map)[before[i]] == i + 1);
            } else {
                self.words@ = before.push(word@);
                assert forall|w: Seq<char>| #[trigger]
                    word_ids(self.map).contains_key(w) <==> self.words@.contains(w) by {
                    if w == word@ {
                        assert(self.words@[before.len() as int] == w);
                    }
                    if self.words@.contains(w) && w != word@ {
                        let i = choose|i: int| 0 <= i < self.words@.len() && self.words@[i] == w;
                        assert(before[i] == w);
                    }
                    if before.contains(w) {
                        let i = choose|i: int| 0 <= i < before.len() && before[i] == w;
                        assert(self.words@[i] == w);
                    }
                }
                assert forall|i: int| 0 <= i < self.words@.len() implies #[trigger] word_ids(
                    self.map,
                )[self.words@[i]] == i + 1 by {
                    if i < before.len() {
                        assert(self.words@[i] == before[i]);
                    }
                }
            }
        }
        Token { id_in_bucket: id, bucket_id: self.bucket_id }
    }

    /// The token that `word` got, if it was turned into a token before.
    pub fn find(&self, word: &str) -> (r: Option<Token>)
        requires
            self.wf(),
        ensures
            self@.contains(word@) <==> r is Some,
            r matches Some(t) ==> names(t, self@, self.spec_bucket(), word@),
    {
        match id_of(&self.map, word) {
            Some(id) => {
                proof {
                    let i = choose|i: int| 0 <= i < self.words@.len() && self.words@[i] == word@;
                    assert(word_ids(self.map)[self.words@[i]] == i + 1);
                }
                Some(Token { id_in_bucket: id, bucket_id: self.bucket_id })
            },
            None => None,
        }
    }

    /// The string that `token` stands for.
    ///
    /// This lookup is a linear search over all the strings of the bucket.
    pub fn word(&self, token: Token) -> (r: &str)
        requires
            self.wf(),
            token.spec_bucket() == self.spec_bucket(),
            1 <= token.spec_id() <= self@.len(),
        ensures
            names(token, self@, self.spec_bucket(), r@),
    {
        let entries = word_entries(&self.map);
        let ghost target = self.words@[token.id_in_bucket - 1];
        proof {
            assert(word_ids(self.map).contains_key(target));
        }
        let mut i: usize = 0;
        while i < entries.len()
            invariant
                i <= entries@.len(),
                self.wf(),
                token.spec_bucket() == self.spec_bucket(),
                1 <= token.spec_id() <= self@.len(),
                forall|j: int|
                    0 <= j < entries@.len() ==> word_ids(self.map).contains_key(
                        #[trigger] entries@[j].0@,
                    ) && word_ids(self.map)[entries@[j].0@] == entries@[j].1,
                forall|j: int| 0 <= j < i ==> #[trigger] entries@[j].1 != token.id_in_bucket,
            decreases entries@.len() - i,
        {
            let (w, id) = entries[i];
            if id == token.id_in_bucket {
                proof {
                    let ghost key = entries@[i as int].0@;
                    assert(0 <= i < entries@.len());
                    assert(word_ids(self.map).contains_key(entries@[i as int].0@));
                    assert(self.words@.contains(key));
                    let k = choose|k: int| 0 <= k < self.words@.len() && self.words@[k] == key;
                    assert(word_ids(self.map)[self.words@[k]] == k + 1);
                    assert(self.words@[token.id_in_bucket - 1] == w@);
                }
                return w;
            }
            i = i + 1;
        }
        proof {
            let j = choose|j: int| 0 <= j < entries@.len() && #[trigger] entries@[j].0@ == target;
            assert(entries@[j].1 == token.id_in_bucket);
        }
        ""
    }
}

} // verus!
