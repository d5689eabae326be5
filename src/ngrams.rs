//! Counting n-grams of several lengths over one stream of words.
use crate::histogram::{keys_behave, FxBuildHasher, Histogram};
use crate::tokens::{names, BucketIds, Token, TokenBucket};
use crate::window_buffer::{
    fresh_windows, lemma_refill_progress, lemma_scan_matches_windows, lemma_scan_end, lemma_scan_step,
    refill_step,
    scan_windows,
    windows_of, WindowBuffer,
};
use vstd::multiset::Multiset;
use vstd::prelude::*;

verus! {

broadcast use {vstd::multiset::group_multiset_axioms, vstd::seq_lib::group_to_multiset_ensures};

/// The token sequences held by `keys`.
pub open spec fn key_views(keys: Seq<Vec<Token>>) -> Seq<Seq<Token>> {
    keys.map_values(|v: Vec<Token>| v@)
}

/// A histogram of the n-grams of one length.
pub enum MultiLenTokenHistoNgram {
    /// Counts nothing: the length 0.
    Empty,
    /// Counts the n-grams of the given length; the ghost part lists the keys added, in order.
    Dyn(usize, Histogram<Vec<Token>, FxBuildHasher>, Ghost<Seq<Vec<Token>>>),
}

impl MultiLenTokenHistoNgram {
    /// The length of the n-grams counted.
    pub open spec fn spec_len(&self) -> nat {
        match self {
            MultiLenTokenHistoNgram::Empty => 0,
            MultiLenTokenHistoNgram::Dyn(n, _, _) => *n as nat,
        }
    }

    /// The n-grams counted so far, each as often as it was seen.
    pub open spec fn grams(&self) -> Multiset<Vec<Token>> {
        match self {
            MultiLenTokenHistoNgram::Empty => Multiset::empty(),
            MultiLenTokenHistoNgram::Dyn(_, h, _) => h@,
        }
    }

    pub open spec fn wf(&self) -> bool {
        match self {
            MultiLenTokenHistoNgram::Empty => true,
            MultiLenTokenHistoNgram::Dyn(n, h, keys) => *n >= 1 && h.wf() && h@ == keys@.to_multiset(),
        }
    }

    /// The n-grams counted so far as token sequences, each as often as it was seen.
    pub open spec fn gram_views(&self) -> Multiset<Seq<Token>> {
        match self {
            MultiLenTokenHistoNgram::Empty => Multiset::empty(),
            MultiLenTokenHistoNgram::Dyn(_, _, keys) => key_views(keys@).to_multiset(),
        }
    }

    /// An empty histogram for the n-grams of `len` tokens.
    pub fn new(len: usize) -> (r: Self)
        ensures
            r.wf(),
            r.spec_len() == len,
            r.grams() == Multiset::<Vec<Token>>::empty(),
            r.gram_views() == Multiset::<Seq<Token>>::empty(),
    {
        if len == 0 {
            MultiLenTokenHistoNgram::Empty
        } else {
            let r = MultiLenTokenHistoNgram::Dyn(len, Histogram::new_fxhash(), Ghost(Seq::empty()));
            proof {
                assert(key_views(Seq::<Vec<Token>>::empty()) =~= Seq::<Seq<Token>>::empty());
                assert(Seq::<Vec<Token>>::empty().to_multiset() =~= Multiset::<Vec<Token>>::empty());
                assert(Seq::<Seq<Token>>::empty().to_multiset() =~= Multiset::<Seq<Token>>::empty());
            }
            r
        }
    }

    /// The length of the n-grams counted.
    pub fn array_len(&self) -> (r: usize)
        ensures
            r == self.spec_len(),
    {
        match self {
            MultiLenTokenHistoNgram::Empty => 0,
            MultiLenTokenHistoNgram::Dyn(n, _, _) => *n,
        }
    }

    /// How often `gram` was counted.
    pub fn count(&self, gram: &Vec<Token>) -> (r: usize)
        requires
            self.wf(),
        ensures
            keys_behave::<Vec<Token>, FxBuildHasher>() ==> r == self.grams().count(*gram),
    {
        match self {
            MultiLenTokenHistoNgram::Empty => 0,
            MultiLenTokenHistoNgram::Dyn(_, h, _) => h.count(gram),
        }
    }

    /// Count the n-grams of the current cycle of `word_buffer`.
    pub fn extend_from_buffer(&mut self, word_buffer: &WindowBuffer<Token>)
        requires
            old(self).wf(),
            word_buffer.wf(),
            old(self).spec_len() <= word_buffer.spec_max_len(),
            old(self).spec_len() > 0 ==> old(self).grams().len() + fresh_windows(
                word_buffer@,
                word_buffer.spec_capacity(),
                word_buffer.spec_max_len(),
                old(self).spec_len(),
            ).len() <= usize::MAX,
        ensures
            final(self).wf(),
            final(self).spec_len() == old(self).spec_len(),
            old(self).spec_len() == 0 ==> final(self).grams() == old(self).grams(),
            old(self).spec_len() == 0 ==> final(self).gram_views() == old(self).gram_views(),
            old(self).spec_len() > 0 ==> final(self).gram_views() == old(self).gram_views().add(
                fresh_windows(
                    word_buffer@,
                    word_buffer.spec_capacity(),
                    word_buffer.spec_max_len(),
                    old(self).spec_len(),
                ).to_multiset(),
            ),
            old(self).spec_len() > 0 ==> exists|added: Seq<Vec<Token>>|
                #![trigger added.to_multiset()]
                {
                    &&& key_views(added) == fresh_windows(
                        word_buffer@,
                        word_buffer.spec_capacity(),
                        word_buffer.spec_max_len(),
                        old(self).spec_len(),
                    )
                    &&& final(self).grams() == old(self).grams().add(added.to_multiset())
                },
    {
        match self {
            MultiLenTokenHistoNgram::Empty => {},
            MultiLenTokenHistoNgram::Dyn(n, h, keys) => {
                let ghost keys0 = keys@;
                let ws = word_buffer.windows(*n);
                let ghost fresh = fresh_windows(
                    word_buffer@,
                    word_buffer.spec_capacity(),
                    word_buffer.spec_max_len(),
                    *n as nat,
                );
                let ghost start = h@;
                let ghost mut added: Seq<Vec<Token>> = Seq::empty();
                proof {
                    assert(start.add(added.to_multiset()) =~= start);
                }
                let mut i: usize = 0;
                while i < ws.len()
                    invariant
                        i <= ws@.len(),
                        ws@.len() == fresh.len(),
                        forall|j: int| 0 <= j < ws@.len() ==> #[trigger] ws@[j]@ == fresh[j],
                        h.wf(),
                        added.len() == i,
                        key_views(added) == fresh.take(i as int),
                        h@ == start.add(added.to_multiset()),
                        start.len() + fresh.len() <= usize::MAX,
                    decreases ws@.len() - i,
                {
                    let key = vstd::slice::slice_to_vec(ws[i]);
                    proof {
                        vstd::seq_lib::to_multiset_build(added, key);
                        assert(start.add(added.push(key).to_multiset()) =~= start.add(
                            added.to_multiset(),
                        ).insert(key));
                        assert(key_views(added.push(key)) =~= fresh.take(i + 1int));
                    }
                    h.add_owned(key);
                    proof {
                        added = added.push(key);
                    }
                    i = i + 1;
                }
                proof {
                    assert(fresh.take(i as int) =~= fresh);
                    vstd::seq_lib::lemma_multiset_commutative(keys0, added);
                    vstd::seq_lib::lemma_multiset_commutative(key_views(keys0), key_views(added));
                    assert(key_views(keys0 + added) =~= key_views(keys0) + key_views(added));
                    *keys = Ghost(keys0 + added);
                }
            },
        }
    }
}

/// The strings of `words`.
pub open spec fn word_views(words: Seq<&str>) -> Seq<Seq<char>> {
    words.map_values(|w: &str| w@)
}

/// The strings already in a bucket (`seen`) and those of `words` together are few enough
/// for every one of them to get a token id.
pub open spec fn new_word_room(seen: Seq<Seq<char>>, words: Seq<&str>) -> bool {
    seen.to_set().union(word_views(words).to_set()).len() <= u32::MAX
}

/// `toks` are the tokens of `words`, one for one, in bucket `bucket_id` whose strings are `seen`.
pub open spec fn tokens_of(toks: Seq<Token>, seen: Seq<Seq<char>>, bucket_id: nat, words: Seq<&str>) -> bool {
    &&& toks.len() == words.len()
    &&& forall|i: int| 0 <= i < toks.len() ==> names(#[trigger] toks[i], seen, bucket_id, words[i]@)
}

/// The histogram `after` is `before` with the windows of `len` elements of `toks` counted.
pub open spec fn counted_windows(
    before: MultiLenTokenHistoNgram,
    after: MultiLenTokenHistoNgram,
    toks: Seq<Token>,
) -> bool {
    &&& after.spec_len() == before.spec_len()
    &&& before.spec_len() == 0 ==> after.grams() == before.grams()
    &&& before.spec_len() == 0 ==> after.gram_views() == before.gram_views()
    &&& before.spec_len() > 0 ==> after.gram_views() == before.gram_views().add(
        windows_of(toks, before.spec_len()).to_multiset(),
    )
    &&& before.spec_len() > 0 ==> exists|added: Seq<Vec<Token>>|
        #![trigger added.to_multiset()]
        {
            &&& key_views(added) == windows_of(toks, before.spec_len())
            &&& after.grams() == before.grams().add(added.to_multiset())
        }
}

/// Counts of the n-grams of several lengths over one stream of words, which is turned into
/// tokens once and scanned once for all lengths.
pub struct Ngrams {
    token_bucket: TokenBucket,
    histograms: Vec<MultiLenTokenHistoNgram>,
}

impl Ngrams {
    /// The bucket that turns the words into tokens.
    pub closed spec fn spec_bucket(&self) -> TokenBucket {
        self.token_bucket
    }

    /// One histogram per requested length, in the order the lengths were given.
    pub closed spec fn spec_histograms(&self) -> Seq<MultiLenTokenHistoNgram> {
        self.histograms@
    }

    pub open spec fn wf(&self) -> bool {
        &&& self.spec_bucket().wf()
        &&& forall|j: int|
            0 <= j < self.spec_histograms().len() ==> {
                &&& #[trigger] self.spec_histograms()[j].wf()
                &&& self.spec_histograms()[j].spec_len() <= usize::MAX / 2
            }
    }

    /// Empty counts for each of `lengths`, with a fresh bucket whose id is the next one of
    /// `ids`.
    pub fn new(lengths: Vec<usize>, ids: &mut BucketIds) -> (r: Self)
        requires
            old(ids).spec_next() < u32::MAX,
            forall|i: int| 0 <= i < lengths@.len() ==> #[trigger] lengths@[i] <= usize::MAX / 2,
        ensures
            r.wf(),
            r.spec_bucket()@ == Seq::<Seq<char>>::empty(),
            r.spec_bucket().spec_bucket() == old(ids).spec_next(),
            final(ids).spec_next() == old(ids).spec_next() + 1,
            r.spec_histograms().len() == lengths@.len(),
            forall|j: int|
                0 <= j < lengths@.len() ==> {
                    &&& #[trigger] r.spec_histograms()[j].spec_len() == lengths@[j]
                    &&& r.spec_histograms()[j].grams() == Multiset::<Vec<Token>>::empty()
                },
    {
        let mut histograms: Vec<MultiLenTokenHistoNgram> = Vec::new();
        let mut i: usize = 0;
        while i < lengths.len()
            invariant
                i <= lengths@.len(),
                histograms@.len() == i,
                forall|i: int| 0 <= i < lengths@.len() ==> #[trigger] lengths@[i] <= usize::MAX / 2,
                forall|j: int|
                    0 <= j < i ==> {
                        &&& #[trigger] histograms@[j].wf()
                        &&& histograms@[j].spec_len() == lengths@[j]
                        &&& histograms@[j].grams() == Multiset::<Vec<Token>>::empty()
                    },
            decreases lengths@.len() - i,
        {
            histograms.push(MultiLenTokenHistoNgram::new(lengths[i]));
            i = i + 1;
        }
        let r = Ngrams { token_bucket: TokenBucket::new(ids), histograms };
        proof {
            assert forall|j: int| 0 <= j < lengths@.len() implies {
                &&& #[trigger] r.spec_histograms()[j].spec_len() == lengths@[j]
                &&& r.spec_histograms()[j].grams() == Multiset::<Vec<Token>>::empty()
            } by {
                assert(histograms@[j].wf());
            }
        }
        r
    }

    /// The histograms, one per requested length.
    pub fn histograms(&self) -> (r: &Vec<MultiLenTokenHistoNgram>)
        ensures
            r@ == self.spec_histograms(),
    {
        &self.histograms
    }

    /// The bucket that turned the words into tokens.
    pub fn token_bucket(&self) -> (r: &TokenBucket)
        ensures
            *r == self.spec_bucket(),
    {
        &self.token_bucket
    }

    /// Count all the n-grams of `words`, for every length.
    pub fn count(&mut self, words: &[&str])
        requires
            old(self).wf(),
            new_word_room(old(self).spec_bucket()@, words@),
            forall|j: int|
                0 <= j < old(self).spec_histograms().len() ==> #[trigger] old(
                    self,
                ).spec_histograms()[j].grams().len() + words@.len() <= usize::MAX,
        ensures
            final(self).wf(),
            final(self).spec_bucket().spec_bucket() == old(self).spec_bucket().spec_bucket(),
            final(self).spec_bucket()@.take(old(self).spec_bucket()@.len() as int) == old(
                self,
            ).spec_bucket()@,
            final(self).spec_histograms().len() == old(self).spec_histograms().len(),
            exists|toks: Seq<Token>|
                {
                    &&& #[trigger] tokens_of(
                        toks,
                        final(self).spec_bucket()@,
                        final(self).spec_bucket().spec_bucket(),
                        words@,
                    )
                    &&& forall|j: int|
                        0 <= j < old(self).spec_histograms().len() ==> counted_windows(
                            #[trigger] old(self).spec_histograms()[j],
                            final(self).spec_histograms()[j],
                            toks,
                        )
                },
    {
        let ghost old_hist = self.histograms@;
        let ghost old_seen = self.token_bucket@;
        let ghost bid = self.token_bucket.spec_bucket();
        let ghost all_words = old_seen.to_set().union(word_views(words@).to_set());
        proof {
            assert(old_seen.to_set().subset_of(all_words));
        }
        let mut tokens: Vec<Token> = Vec::new();
        let mut i: usize = 0;
        while i < words.len()
            invariant
                i <= words@.len(),
                tokens@.len() == i,
                self.token_bucket.wf(),
                self.token_bucket.spec_bucket() == bid,
                old_seen.len() <= self.token_bucket@.len() <= old_seen.len() + i,
                self.token_bucket@.take(old_seen.len() as int) == old_seen,
                all_words == old_seen.to_set().union(word_views(words@).to_set()),
                all_words.finite(),
                all_words.len() <= u32::MAX,
                self.token_bucket@.to_set().subset_of(all_words),
                forall|k: int|
                    0 <= k < i ==> names(
                        #[trigger] tokens@[k],
                        self.token_bucket@,
                        bid,
                        words@[k]@,
                    ),
                self.histograms@ == old_hist,
            decreases words@.len() - i,
        {
            let ghost seen = self.token_bucket@;
            proof {
                let w = words@[i as int]@;
                assert(word_views(words@)[i as int] == w);
                assert(word_views(words@).contains(w));
                assert(all_words.contains(w));
                if !seen.contains(w) {
                    self.token_bucket.lemma_seen_distinct();
                    seen.unique_seq_to_set();
                    assert(seen.to_set().insert(w).subset_of(all_words));
                    vstd::set_lib::lemma_len_subset(seen.to_set().insert(w), all_words);
                }
            }
            let t = self.token_bucket.token(words[i]);
            proof {
                assert(self.token_bucket@.to_set().subset_of(all_words)) by {
                    assert forall|x: Seq<char>| self.token_bucket@.to_set().contains(x) implies all_words.contains(x) by {
                        if x != words@[i as int]@ {
                            assert(seen.contains(x));
                        }
                    }
                }
                assert forall|k: int| 0 <= k < i implies names(
                    #[trigger] tokens@[k],
                    self.token_bucket@,
                    bid,
                    words@[k]@,
                ) by {
                    assert(names(tokens@[k], seen, bid, words@[k]@));
                    assert(self.token_bucket@[tokens@[k].spec_id() - 1] == seen[tokens@[k].spec_id() - 1]);
                }
                assert(self.token_bucket@.take(old_seen.len() as int) =~= old_seen);
            }
            tokens.push(t);
            i = i + 1;
        }
        let ghost toks = tokens@;
        let ghost tb = self.token_bucket;
        proof {
            assert(tokens_of(toks, tb@, bid, words@));
        }
        let n_hist = self.histograms.len();
        let mut max_len: usize = if n_hist == 0 {
            1
        } else {
            0
        };
        let mut j: usize = 0;
        while j < n_hist
            invariant
                j <= n_hist,
                self.token_bucket == tb,
                n_hist == self.histograms@.len(),
                self.histograms@ == old_hist,
                old(self).wf(),
                old_hist == old(self).spec_histograms(),
                max_len <= usize::MAX / 2,
                forall|k: int| 0 <= k < j ==> #[trigger] old_hist[k].spec_len() <= max_len,
            decreases n_hist - j,
        {
            proof {
                assert(old(self).spec_histograms()[j as int].wf());
            }
            let l = self.histograms[j].array_len();
            if l > max_len {
                max_len = l;
            }
            j = j + 1;
        }
        let mut buffer: WindowBuffer<Token> = WindowBuffer::new(max_len);
        let ghost cap = buffer.spec_capacity();
        let mut pos: usize = 0;
        let ghost mut added: Seq<Seq<Vec<Token>>> = Seq::new(
            n_hist as nat,
            |k: int| Seq::<Vec<Token>>::empty(),
        );
        proof {
            assert forall|k: int|
                0 <= k < n_hist && old_hist[k].spec_len() > 0 implies key_views(added[k])
                + scan_windows(
                toks,
                cap,
                max_len as nat,
                #[trigger] old_hist[k].spec_len(),
                buffer@,
                pos as nat,
            ) == windows_of(toks, old_hist[k].spec_len()) by {
                lemma_scan_matches_windows(toks, cap, max_len as nat, old_hist[k].spec_len());
                assert(key_views(added[k]) =~= Seq::<Seq<Token>>::empty());
                assert(Seq::<Seq<Token>>::empty() + windows_of(toks, old_hist[k].spec_len())
                    =~= windows_of(toks, old_hist[k].spec_len()));
            }
            assert forall|k: int| 0 <= k < n_hist implies {
                &&& #[trigger] self.histograms@[k].wf()
                &&& self.histograms@[k].spec_len() == old_hist[k].spec_len()
                &&& old_hist[k].spec_len() <= max_len
            } by {
                assert(old(self).spec_histograms()[k].wf());
            }
            assert forall|k: int| 0 <= k < n_hist implies #[trigger] self.histograms@[k].grams()
                == old_hist[k].grams().add(added[k].to_multiset()) by {
                assert(old_hist[k].grams().add(added[k].to_multiset()) =~= old_hist[k].grams());
            }
            assert forall|k: int| 0 <= k < n_hist implies #[trigger] self.histograms@[k].gram_views()
                == old_hist[k].gram_views().add(key_views(added[k]).to_multiset()) by {
                assert(key_views(added[k]) =~= Seq::<Seq<Token>>::empty());
                assert(old_hist[k].gram_views().add(key_views(added[k]).to_multiset())
                    =~= old_hist[k].gram_views());
            }
        }
        let mut done = false;
        while !done
            invariant
                !done ==> forall|k: int|
                    0 <= k < n_hist && old_hist[k].spec_len() > 0 ==> key_views(added[k])
                        + scan_windows(
                        toks,
                        cap,
                        max_len as nat,
                        #[trigger] old_hist[k].spec_len(),
                        buffer@,
                        pos as nat,
                    ) == windows_of(toks, old_hist[k].spec_len()),
                done ==> forall|k: int|
                    0 <= k < n_hist && old_hist[k].spec_len() > 0 ==> key_views(added[k])
                        == windows_of(toks, #[trigger] old_hist[k].spec_len()),
                buffer.wf(),
                buffer.spec_max_len() == max_len,
                buffer.spec_capacity() == cap,
                pos <= toks.len(),
                tokens@ == toks,
                toks.len() == words@.len(),
                self.token_bucket == tb,
                n_hist == self.histograms@.len(),
                n_hist == old_hist.len(),
                added.len() == n_hist,
                old(self).wf(),
                old_hist == old(self).spec_histograms(),
                forall|k: int|
                    0 <= k < n_hist ==> #[trigger] old_hist[k].grams().len() + words@.len()
                        <= usize::MAX,
                forall|k: int|
                    0 <= k < n_hist ==> {
                        &&& #[trigger] self.histograms@[k].wf()
                        &&& self.histograms@[k].spec_len() == old_hist[k].spec_len()
                        &&& old_hist[k].spec_len() <= max_len
                    },
                forall|k: int|
                    0 <= k < n_hist ==> (old_hist[k].spec_len() == 0 ==> #[trigger] self.histograms@[k].grams()
                            == old_hist[k].grams()),
                forall|k: int|
                    0 <= k < n_hist ==> (old_hist[k].spec_len() > 0 ==> #[trigger] self.histograms@[k].grams()
                            == old_hist[k].grams().add(added[k].to_multiset())),
                forall|k: int|
                    0 <= k < n_hist ==> (old_hist[k].spec_len() > 0 ==> #[trigger] self.histograms@[k].gram_views()
                            == old_hist[k].gram_views().add(key_views(added[k]).to_multiset())),
            decreases toks.len() - pos, buffer@.len(), if done {
                0int
            } else {
                1int
            },
        {
            let ghost before = buffer@;
            let ghost before_pos = pos as nat;
            buffer.refill(tokens.as_slice(), &mut pos);
            let ghost step = refill_step(before, toks, before_pos, cap, max_len as nat);
            if buffer.len() == 0 {
                proof {
                    assert forall|k: int| 0 <= k < n_hist && old_hist[k].spec_len() > 0 implies
                        key_views(added[k]) == windows_of(toks, #[trigger] old_hist[k].spec_len()) by {
                        assert(self.histograms@[k].wf());
                        lemma_scan_end(toks, cap, max_len as nat, old_hist[k].spec_len(), before, before_pos);
                        assert(scan_windows(toks, cap, max_len as nat, old_hist[k].spec_len(), before, before_pos)
                            =~= Seq::<Seq<Token>>::empty());
                        assert(key_views(added[k]) + Seq::<Seq<Token>>::empty() =~= key_views(added[k]));
                    }
                }
                done = true;
            } else {
            proof {
                lemma_refill_progress(before, toks, before_pos, cap, max_len as nat);
            }
            let mut k: usize = 0;
            while k < n_hist
                invariant
                    k <= n_hist,
                    buffer.wf(),
                    buffer.spec_max_len() == max_len,
                    buffer.spec_capacity() == cap,
                    buffer@.len() > 0,
                    (buffer@, pos as nat) == step,
                    step == refill_step(before, toks, before_pos, cap, max_len as nat),
                    before_pos <= toks.len(),
                    n_hist == self.histograms@.len(),
                    n_hist == old_hist.len(),
                    self.token_bucket == tb,
                    added.len() == n_hist,
                    toks.len() == words@.len(),
                    forall|q: int|
                        0 <= q < n_hist ==> #[trigger] old_hist[q].grams().len() + words@.len()
                            <= usize::MAX,
                    forall|q: int|
                        0 <= q < n_hist ==> {
                            &&& #[trigger] self.histograms@[q].wf()
                            &&& self.histograms@[q].spec_len() == old_hist[q].spec_len()
                            &&& old_hist[q].spec_len() <= max_len
                        },
                    forall|q: int|
                        0 <= q < n_hist ==> (old_hist[q].spec_len() == 0 ==> #[trigger] self.histograms@[q].grams()
                                == old_hist[q].grams()),
                    forall|q: int|
                        0 <= q < n_hist ==> (old_hist[q].spec_len() > 0 ==> #[trigger] self.histograms@[q].grams()
                                == old_hist[q].grams().add(added[q].to_multiset())),
                    forall|q: int|
                        0 <= q < n_hist ==> (old_hist[q].spec_len() > 0 ==> #[trigger] self.histograms@[q].gram_views()
                                == old_hist[q].gram_views().add(key_views(added[q]).to_multiset())),
                    forall|q: int|
                        0 <= q < k && old_hist[q].spec_len() > 0 ==> key_views(added[q])
                            + scan_windows(
                            toks,
                            cap,
                            max_len as nat,
                            #[trigger] old_hist[q].spec_len(),
                            buffer@,
                            pos as nat,
                        ) == windows_of(toks, old_hist[q].spec_len()),
                    forall|q: int|
                        k <= q < n_hist && old_hist[q].spec_len() > 0 ==> key_views(added[q])
                            + scan_windows(
                            toks,
                            cap,
                            max_len as nat,
                            #[trigger] old_hist[q].spec_len(),
                            before,
                            before_pos,
                        ) == windows_of(toks, old_hist[q].spec_len()),
                decreases n_hist - k,
            {
                let ghost len_k = old_hist[k as int].spec_len();
                let ghost hist_before = self.histograms@;
                let ghost added_before = added;
                proof {
                    assert(self.histograms@[k as int].wf());
                }
                let mut h = MultiLenTokenHistoNgram::Empty;
                self.histograms.set_and_swap(k, &mut h);
                proof {
                    if len_k > 0 {
                        let fresh = fresh_windows(buffer@, cap, max_len as nat, len_k);
                        let rest = scan_windows(toks, cap, max_len as nat, len_k, buffer@, pos as nat);
                        assert(step.0 == buffer@);
                        assert(step.1 == pos as nat);
                        lemma_scan_step(toks, cap, max_len as nat, len_k, before, before_pos);
                        assert(scan_windows(toks, cap, max_len as nat, len_k, before, before_pos)
                            == fresh + rest);
                        let whole = windows_of(toks, len_k);
                        assert(key_views(added[k as int]) + (fresh + rest) == whole);
                        assert(whole.len() <= toks.len());
                        assert(added[k as int].len() == key_views(added[k as int]).len());
                    }
                }
                let ghost g0 = h.grams();
                let ghost v0 = h.gram_views();
                h.extend_from_buffer(&buffer);
                proof {
                    if len_k > 0 {
                        let fresh = fresh_windows(buffer@, cap, max_len as nat, len_k);
                        let rest = scan_windows(toks, cap, max_len as nat, len_k, buffer@, pos as nat);
                        let a = choose|a: Seq<Vec<Token>>|
                            #![trigger a.to_multiset()]
                            {
                                &&& key_views(a) == fresh
                                &&& h.grams() == g0.add(a.to_multiset())
                            };
                        let prev = added[k as int];
                        vstd::seq_lib::lemma_multiset_commutative(prev, a);
                        assert(old_hist[k as int].grams().add(prev.to_multiset()).add(a.to_multiset())
                            =~= old_hist[k as int].grams().add((prev + a).to_multiset()));
                        assert(key_views(prev + a) =~= key_views(prev) + key_views(a));
                        assert(key_views(prev) + (fresh + rest) =~= (key_views(prev) + fresh) + rest);
                        vstd::seq_lib::lemma_multiset_commutative(key_views(prev), key_views(a));
                        assert(v0 == old_hist[k as int].gram_views().add(key_views(prev).to_multiset()));
                        assert(h.gram_views() == v0.add(fresh.to_multiset()));
                        assert(old_hist[k as int].gram_views().add(key_views(prev).to_multiset()).add(
                            key_views(a).to_multiset(),
                        ) =~= old_hist[k as int].gram_views().add(key_views(prev + a).to_multiset()));
                        added = added.update(k as int, prev + a);
                    }
                }
                self.histograms.set_and_swap(k, &mut h);
                proof {
                    assert(self.histograms@[k as int].wf());
                    assert(self.histograms@[k as int].spec_len() == len_k);
                    assert forall|q: int| 0 <= q < n_hist && q != k implies {
                        &&& self.histograms@[q] == hist_before[q]
                        &&& added[q] == added_before[q]
                        &&& #[trigger] hist_before[q].wf()
                    } by {
                        assert(hist_before[q].wf());
                    }
                    assert forall|q: int| 0 <= q < n_hist && old_hist[q].spec_len() > 0 implies #[trigger] self.histograms@[q].gram_views()
                        == old_hist[q].gram_views().add(key_views(added[q]).to_multiset()) by {
                        if q != k {
                            assert(self.histograms@[q] == hist_before[q]);
                            assert(hist_before[q].gram_views() == old_hist[q].gram_views().add(
                                key_views(added_before[q]).to_multiset(),
                            ));
                        }
                    }
                    assert forall|q: int| 0 <= q < n_hist implies {
                        &&& #[trigger] self.histograms@[q].wf()
                        &&& self.histograms@[q].spec_len() == old_hist[q].spec_len()
                        &&& old_hist[q].spec_len() <= max_len
                    } by {
                        if q != k {
                            assert(hist_before[q].wf());
                            assert(self.histograms@[q] == hist_before[q]);
                        }
                    }
                }
                k = k + 1;
            }
            }
        }
        proof {
            assert forall|q: int| 0 <= q < old_hist.len() implies counted_windows(
                #[trigger] old_hist[q],
                self.histograms@[q],
                toks,
            ) by {
                assert(self.histograms@[q].wf());
                assert(old(self).spec_histograms()[q].wf());
                if old_hist[q].spec_len() > 0 {
                    let a = added[q];
                    assert(key_views(a) == windows_of(toks, old_hist[q].spec_len()));
                    assert(self.histograms@[q].grams() == old_hist[q].grams().add(a.to_multiset()));
                    assert(self.histograms@[q].gram_views() == old_hist[q].gram_views().add(
                        key_views(a).to_multiset(),
                    ));
                }
            }
            assert(self.wf()) by {
                assert forall|j: int| 0 <= j < self.spec_histograms().len() implies {
                    &&& #[trigger] self.spec_histograms()[j].wf()
                    &&& self.spec_histograms()[j].spec_len() <= usize::MAX / 2
                } by {
                    assert(self.histograms@[j].wf());
                    assert(old(self).spec_histograms()[j].wf());
                }
            }
        }
    }
}

} // verus!
