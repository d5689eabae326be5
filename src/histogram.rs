//! A counter of how often each key occurs.
use std::collections::HashMap;
use std::hash::{BuildHasher, Hash};
use vstd::multiset::Multiset;
use vstd::pervasive::strictly_cloned;
use vstd::prelude::*;
use vstd::std_specs::iter::IteratorSpec;
use vstd::std_specs::hash::{builds_valid_hashers, obeys_key_model};

verus! {

broadcast use {vstd::std_specs::hash::group_hash_axioms, vstd::multiset::group_multiset_axioms};

/// The hasher builder of [`Histogram::new`]: std's randomly seeded one, which resists keys
/// chosen to collide.
pub type DefaultHashBuilder = std::collections::hash_map::RandomState;

/// A hasher builder for the fast, unseeded Fx hash, for keys that nobody picks to collide.
pub type FxBuildHasher = core::hash::BuildHasherDefault<rustc_hash::FxHasher>;

/// The hasher of `rustc_hash`, carried through as an opaque value.
#[verifier::external_type_specification]
#[verifier::external_body]
pub struct ExFxHasher(rustc_hash::FxHasher);

/// std's builder of default-made hashers, carried through as an opaque value.
#[verifier::external_type_specification]
#[verifier::external_body]
#[verifier::reject_recursive_types(H)]
pub struct ExBuildHasherDefault<H>(core::hash::BuildHasherDefault<H>);

/// What the statements about counts rely on: keys hash consistently with their equality, the
/// hasher builder gives equal hashes for equal keys, and a clone of a key equals the key.
pub open spec fn keys_behave<K: Clone, S>() -> bool {
    &&& obeys_key_model::<K>()
    &&& builds_valid_hashers::<S>()
    &&& forall|a: K, b: K| #[trigger] strictly_cloned(a, b) ==> a == b
}

/// Each key that occurs in `bag` together with how often it occurs.
pub open spec fn count_pairs<K>(bag: Multiset<K>) -> Set<(K, usize)> {
    Set::new(|p: (K, usize)| bag.count(p.0) > 0 && p.1 == bag.count(p.0))
}

/// `pairs` lists each key of `bag` once, with how often it occurs, in some order.
pub open spec fn lists_counts<K>(pairs: Seq<(K, usize)>, bag: Multiset<K>) -> bool {
    &&& pairs.no_duplicates()
    &&& pairs.to_set() == count_pairs(bag)
}

/// The pairs with their keys dereferenced.
pub open spec fn owned_pairs<K>(pairs: Seq<(&K, usize)>) -> Seq<(K, usize)> {
    Seq::new(pairs.len(), |i: int| (*pairs[i].0, pairs[i].1))
}

/// The count that `m` keeps for `k`, 0 if none.
pub open spec fn count_in<K>(m: Map<K, usize>, k: K) -> nat {
    if m.contains_key(k) {
        m[k] as nat
    } else {
        0
    }
}

/// `n` copies of `k`.
pub open spec fn copies<K>(k: K, n: nat) -> Multiset<K>
    decreases n,
{
    if n == 0 {
        Multiset::empty()
    } else {
        copies(k, (n - 1) as nat).insert(k)
    }
}

/// Each key of `pairs` as often as the counts beside it say.
pub open spec fn pairs_bag<K>(pairs: Seq<(K, usize)>) -> Multiset<K>
    decreases pairs.len(),
{
    if pairs.len() == 0 {
        Multiset::empty()
    } else {
        pairs_bag(pairs.drop_last()).add(copies(pairs.last().0, pairs.last().1 as nat))
    }
}

proof fn lemma_copies<K>(k: K, n: nat)
    ensures
        copies(k, n).len() == n,
        forall|x: K| #[trigger] copies(k, n).count(x) == if x == k { n } else { 0 },
    decreases n,
{
    if n > 0 {
        lemma_copies(k, (n - 1) as nat);
    }
}

/// Some pair among the first `i` of `pairs` has the key `k`.
pub open spec fn listed_before<K>(pairs: Seq<(K, usize)>, i: int, k: K) -> bool {
    exists|j: int| 0 <= j < i && #[trigger] pairs[j].0 == k
}

/// The share of `count` in `total` as a fraction (numerator, denominator); 0/1 when `total` is 0.
pub open spec fn relative(count: nat, total: nat) -> (nat, nat) {
    if total > 0 {
        (count, total)
    } else {
        (0, 1)
    }
}

/// Relies on `HashMap::with_hasher`: it makes an empty map that hashes with `hasher`.
#[verifier::external_body]
fn empty_map<K, S>(hasher: S) -> (r: HashMap<K, usize, S>)
    ensures
        forall|k: K| !r@.contains_key(k),
{
    HashMap::with_hasher(hasher)
}

/// Relies on `HashMap::get_mut`: the value stored for `key`, to change in place, if there is one.
#[verifier::external_body]
fn count_slot<'a, K: Eq + Hash, S: BuildHasher>(
    map: &'a mut HashMap<K, usize, S>,
    key: &K,
) -> (r: Option<&'a mut usize>)
    ensures
        obeys_key_model::<K>() && builds_valid_hashers::<S>() ==> match r {
            Some(c) => {
                &&& old(map)@.contains_key(*key)
                &&& *c == old(map)@[*key]
                &&& final(map)@ == old(map)@.insert(*key, *final(c))
            },
            None => {
                &&& !old(map)@.contains_key(*key)
                &&& final(map)@ == old(map)@
            },
        },
{
    map.get_mut(key)
}

/// Take the next item of `it`.
fn advance<I: Iterator>(it: &mut I) -> (r: Option<I::Item>)
    ensures
        (*old(it)).obeys_prophetic_iter_laws() ==> if (*old(it)).remaining().len() > 0 {
            &&& (*final(it)).remaining() == (*old(it)).remaining().drop_first()
            &&& r == Some((*old(it)).remaining()[0])
        } else {
            &&& (*final(it)).remaining() == (*old(it)).remaining()
            &&& r is None
        },
{
    it.next()
}

/// Relies on `slice::sort_by_key`: it reorders the pairs so that their counts ascend.
#[verifier::external_body]
fn sort_by_count<K>(v: &mut Vec<(K, usize)>)
    ensures
        final(v)@.to_multiset() == old(v)@.to_multiset(),
        forall|i: int, j: int| 0 <= i <= j < final(v)@.len() ==> final(v)@[i].1 <= final(v)@[j].1,
{
    v.sort_by_key(|p| p.1)
}

/// A reordering of a listing of the counts of `bag` lists them too.
proof fn lemma_permuted_listing<K>(a: Seq<(K, usize)>, b: Seq<(K, usize)>, bag: Multiset<K>)
    requires
        lists_counts(a, bag),
        a.to_multiset() == b.to_multiset(),
    ensures
        lists_counts(b, bag),
{
    broadcast use vstd::seq_lib::group_to_multiset_ensures;

    a.lemma_multiset_has_no_duplicates();
    b.lemma_multiset_has_no_duplicates_conv();
    assert forall|x: (K, usize)| b.contains(x) <==> a.contains(x) by {
        vstd::seq_lib::to_multiset_contains(a, x);
        vstd::seq_lib::to_multiset_contains(b, x);
    }
    assert(b.to_set() =~= a.to_set());
}


/// A histogram of a sequence of keys holds as many instances as the sequence has elements,
/// and one category for each distinct key of the sequence.
pub proof fn lemma_instances_and_categories<K>(keys: Seq<K>)
    ensures
        keys.to_multiset().len() == keys.len(),
        keys.to_multiset().dom() == keys.to_set(),
{
    broadcast use vstd::seq_lib::group_to_multiset_ensures;

    assert forall|x: K| keys.to_multiset().dom().contains(x) <==> keys.to_set().contains(x) by {
        vstd::seq_lib::to_multiset_contains(keys, x);
    }
    assert(keys.to_multiset().dom() =~= keys.to_set());
}

/// In a histogram of a sequence of keys, a key counts as often as it occurs in the sequence;
/// a key that does not occur counts 0.
pub proof fn lemma_count_is_occurrences<K>(keys: Seq<K>, k: K)
    ensures
        keys.to_multiset().count(k) == keys.filter(|x: K| x == k).len(),
        !keys.contains(k) ==> keys.to_multiset().count(k) == 0,
    decreases keys.len(),
{
    broadcast use vstd::seq_lib::group_to_multiset_ensures;

    vstd::seq_lib::to_multiset_contains(keys, k);
    if keys.len() > 0 {
        let init = keys.drop_last();
        lemma_count_is_occurrences(init, k);
        assert(init.push(keys.last()) =~= keys);
        init.lemma_filter_push(keys.last(), |x: K| x == k);
        vstd::seq_lib::to_multiset_build(init, keys.last());
    } else {
        reveal(Seq::filter);
    }
}

/// Two listings of the counts of the same contents hold the same pairs, in some order: so
/// the pairs of `sorted_occurrences` are those of `iter`.
pub proof fn lemma_listings_agree<K>(a: Seq<(K, usize)>, b: Seq<(K, usize)>, bag: Multiset<K>)
    requires
        lists_counts(a, bag),
        lists_counts(b, bag),
    ensures
        a.to_multiset() == b.to_multiset(),
{
    a.lemma_multiset_has_no_duplicates();
    b.lemma_multiset_has_no_duplicates();
    assert forall|x: (K, usize)| a.to_multiset().count(x) == b.to_multiset().count(x) by {
        vstd::seq_lib::to_multiset_contains(a, x);
        vstd::seq_lib::to_multiset_contains(b, x);
        assert(a.to_set().contains(x) == b.to_set().contains(x));
    }
    assert(a.to_multiset() =~= b.to_multiset());
}

/// Appending adds the counts key by key, and the order of two appends does not change the
/// counts.
pub proof fn lemma_append_adds_counts<K>(a: Multiset<K>, b: Multiset<K>)
    ensures
        forall|k: K| #[trigger] a.add(b).count(k) == a.count(k) + b.count(k),
        a.add(b) == b.add(a),
{
    assert(a.add(b) =~= b.add(a));
}

/// In the contents built from pairs whose keys are distinct, each listed key counts what
/// its pair says and every other key counts 0.
proof fn lemma_pairs_bag_count<K>(pairs: Seq<(K, usize)>)
    requires
        forall|i: int, j: int| 0 <= i < j < pairs.len() ==> pairs[i].0 != pairs[j].0,
    ensures
        forall|i: int| 0 <= i < pairs.len() ==> #[trigger] pairs_bag(pairs).count(pairs[i].0) == pairs[i].1,
        forall|k: K| !listed_before(pairs, pairs.len() as int, k) ==> #[trigger] pairs_bag(pairs).count(k) == 0,
    decreases pairs.len(),
{
    if pairs.len() > 0 {
        let init = pairs.drop_last();
        let n = pairs.len() - 1;
        let k = pairs[n].0;
        let c = pairs[n].1;
        lemma_pairs_bag_count(init);
        lemma_copies(k, c as nat);
        assert(pairs_bag(pairs) == pairs_bag(init).add(copies(k, c as nat)));
        assert(!listed_before(init, init.len() as int, k)) by {
            if listed_before(init, init.len() as int, k) {
                let j = choose|j: int| 0 <= j < init.len() && #[trigger] init[j].0 == k;
                assert(pairs[j].0 == pairs[n].0);
            }
        }
        assert forall|i: int| 0 <= i < pairs.len() implies #[trigger] pairs_bag(pairs).count(
            pairs[i].0,
        ) == pairs[i].1 by {
            if i < n {
                assert(init[i] == pairs[i]);
                assert(pairs[i].0 != k);
            }
        }
        assert forall|x: K| !listed_before(pairs, pairs.len() as int, x) implies #[trigger] pairs_bag(
            pairs,
        ).count(x) == 0 by {
            if listed_before(init, init.len() as int, x) {
                let j = choose|j: int| 0 <= j < init.len() && #[trigger] init[j].0 == x;
                assert(pairs[j].0 == x);
            }
            if x == k {
                assert(pairs[n].0 == x);
            }
        }
    }
}

/// Turning pairs with distinct keys and positive counts into a histogram and listing its
/// counts again gives back the same pairs, possibly in another order.
pub proof fn lemma_counts_round_trip<K>(pairs: Seq<(K, usize)>, back: Seq<(K, usize)>)
    requires
        forall|i: int, j: int| 0 <= i < j < pairs.len() ==> pairs[i].0 != pairs[j].0,
        forall|i: int| 0 <= i < pairs.len() ==> #[trigger] pairs[i].1 > 0,
        lists_counts(back, pairs_bag(pairs)),
    ensures
        back.to_multiset() == pairs.to_multiset(),
{
    let bag = pairs_bag(pairs);
    lemma_pairs_bag_count(pairs);
    assert forall|i: int, j: int| 0 <= i < pairs.len() && 0 <= j < pairs.len() && i != j implies pairs[i] != pairs[j] by {
        if i < j {
            assert(pairs[i].0 != pairs[j].0);
        } else {
            assert(pairs[j].0 != pairs[i].0);
        }
    }
    assert forall|p: (K, usize)| pairs.to_set().contains(p) <==> #[trigger] count_pairs(bag).contains(p) by {
        if pairs.contains(p) {
            let i = choose|i: int| 0 <= i < pairs.len() && pairs[i] == p;
            assert(bag.count(pairs[i].0) == pairs[i].1);
        }
        if count_pairs(bag).contains(p) {
            if !listed_before(pairs, pairs.len() as int, p.0) {
                assert(bag.count(p.0) == 0);
            }
            let i = choose|i: int| 0 <= i < pairs.len() && pairs[i].0 == p.0;
            assert(bag.count(pairs[i].0) == pairs[i].1);
            assert(pairs[i] == p);
        }
    }
    assert(pairs.to_set() =~= count_pairs(bag));
    lemma_listings_agree(back, pairs, bag);
}

/// A histogram: how often each key was added.
#[derive(Clone)]
#[verifier::reject_recursive_types(K)]
#[verifier::reject_recursive_types(S)]
pub struct Histogram<K, S = DefaultHashBuilder> {
    map: HashMap<K, usize, S>,
    total: usize,
    bag: Ghost<Multiset<K>>,
}

impl<K, S> View for Histogram<K, S> {
    type V = Multiset<K>;

    /// Every key added so far, as often as it was added.
    closed spec fn view(&self) -> Multiset<K> {
        self.bag@
    }
}

impl<K: Clone, S> Histogram<K, S> {
    /// The map holds exactly the keys of the contents, each with how often it occurs.
    closed spec fn map_matches(&self) -> bool {
        &&& forall|k: K| #[trigger] self.map@.contains_key(k) <==> self.bag@.count(k) > 0
        &&& forall|k: K| #[trigger] self.map@.contains_key(k) ==> self.map@[k] == self.bag@.count(k)
    }

    pub closed spec fn wf(&self) -> bool {
        &&& self.total == self.bag@.len()
        &&& keys_behave::<K, S>() ==> self.map_matches()
    }
}

impl<K: Eq + Hash + Clone> Histogram<K, DefaultHashBuilder> {
    /// Create an empty histogram with the default hasher builder.
    pub fn new() -> (r: Self)
        ensures
            r.wf(),
            r@ == Multiset::<K>::empty(),
    {
        Histogram { map: HashMap::new(), total: 0, bag: Ghost(Multiset::empty()) }
    }
}

impl<K: Eq + Hash + Clone, S: BuildHasher + Default> Histogram<K, S> {
    /// Create a histogram holding each of `keys`, as often as it occurs there.
    pub fn from_owned_iter(keys: Vec<K>) -> (r: Self)
        ensures
            r.wf(),
            r@ == keys@.to_multiset(),
    {
        let mut h = Histogram { map: HashMap::default(), total: 0, bag: Ghost(Multiset::empty()) };
        proof {
            assert(keys.len() == keys@.len());
        }
        h.extend_from_owned(keys);
        proof {
            assert(Multiset::<K>::empty().add(keys@.to_multiset()) =~= keys@.to_multiset());
        }
        h
    }
}

impl<K: Eq + Hash + Clone> Histogram<K, FxBuildHasher> {
    /// Create an empty histogram that hashes with the Fx hash.
    pub fn new_fxhash() -> (r: Self)
        ensures
            r.wf(),
            r@ == Multiset::<K>::empty(),
    {
        Histogram { map: HashMap::default(), total: 0, bag: Ghost(Multiset::empty()) }
    }
}

impl<K: Eq + Hash + Clone, S: BuildHasher + Default> Histogram<K, S> {
    /// Create a histogram from (key, count) pairs; the counts of a key listed twice add up.
    pub fn from_counts(pairs: Vec<(K, usize)>) -> (r: Self)
        requires
            pairs_bag(pairs@).len() <= usize::MAX,
        ensures
            r.wf(),
            r@ == pairs_bag(pairs@),
    {
        let mut h = Histogram { map: HashMap::default(), total: 0, bag: Ghost(Multiset::empty()) };
        let ghost all = pairs@;
        let mut rest = pairs;
        proof {
            assert(Multiset::<K>::empty().add(pairs_bag(all)) =~= pairs_bag(all));
        }
        while rest.len() > 0
            invariant
                h.wf(),
                h@.add(pairs_bag(rest@)) == pairs_bag(all),
                pairs_bag(all).len() <= usize::MAX,
            decreases rest@.len(),
        {
            let ghost before = rest@;
            let (k, c) = match rest.pop() {
                Some(p) => p,
                None => {
                    return h;
                },
            };
            proof {
                assert(before.drop_last() =~= rest@);
                lemma_copies(k, c as nat);
                assert(h@.add(copies(k, c as nat)).add(pairs_bag(rest@)) =~= h@.add(pairs_bag(before)));
                if keys_behave::<K, S>() {
                    assert(h.map_count(k) == h@.count(k));
                }
            }
            if c > 0 {
                h.bump(k, c);
                h.total = h.total + c;
            }
            h.bag = Ghost(h.bag@.add(copies(k, c as nat)));
            proof {
                if keys_behave::<K, S>() {
                    assert(h.map_matches());
                }
            }
        }
        proof {
            assert(Seq::<(K, usize)>::empty() =~= rest@);
            assert(h@.add(Multiset::empty()) =~= h@);
        }
        h
    }
}

impl<K: Eq + Hash + Clone, S: BuildHasher> Histogram<K, S> {
    /// Create an empty histogram that hashes with `hasher`.
    pub fn with_hasher(hasher: S) -> (r: Self)
        ensures
            r.wf(),
            r@ == Multiset::<K>::empty(),
    {
        Histogram { map: empty_map(hasher), total: 0, bag: Ghost(Multiset::empty()) }
    }

    /// The count kept in the map for `key`.
    spec fn map_count(&self, key: K) -> nat {
        count_in(self.map@, key)
    }

    /// Raise the count kept in the map for `key` by `n`, leaving the rest alone.
    fn bump(&mut self, key: K, n: usize)
        requires
            keys_behave::<K, S>() ==> old(self).map_count(key) + n <= usize::MAX,
        ensures
            final(self).total == old(self).total,
            final(self).bag == old(self).bag,
            keys_behave::<K, S>() ==> final(self).map@ == old(self).map@.insert(
                key,
                (old(self).map_count(key) + n) as usize,
            ),
    {
        let c: usize = match self.map.get(&key) {
            Some(c) => *c,
            None => 0,
        };
        let next = if c <= usize::MAX - n {
            c + n
        } else {
            usize::MAX
        };
        self.map.insert(key, next);
    }

    /// Record one occurrence of `key`.
    pub fn add_owned(&mut self, key: K)
        requires
            old(self).wf(),
            old(self)@.len() < usize::MAX,
        ensures
            final(self).wf(),
            final(self)@ == old(self)@.insert(key),
    {
        proof {
            if keys_behave::<K, S>() {
                assert(self.map_count(key) == self.bag@.count(key));
            }
        }
        self.bump(key, 1);
        self.total = self.total + 1;
        self.bag = Ghost(self.bag@.insert(key));
        proof {
            if keys_behave::<K, S>() {
                assert(self.map_matches());
            }
        }
    }

    /// Record one occurrence of `*key`, cloning it only when it was not there yet.
    pub fn add_ref(&mut self, key: &K)
        requires
            old(self).wf(),
            old(self)@.len() < usize::MAX,
        ensures
            final(self).wf(),
            final(self)@ == old(self)@.insert(*key),
    {
        proof {
            if keys_behave::<K, S>() {
                assert(self.map_count(*key) == self.bag@.count(*key));
            }
        }
        match count_slot(&mut self.map, key) {
            Some(c) => {
                if *c < usize::MAX {
                    *c = *c + 1;
                }
            },
            None => {
                let k = key.clone();
                proof {
                    if keys_behave::<K, S>() {
                        assert(strictly_cloned(*key, k));
                    }
                }
                self.map.insert(k, 1);
            },
        }
        self.total = self.total + 1;
        self.bag = Ghost(self.bag@.insert(*key));
        proof {
            if keys_behave::<K, S>() {
                assert(self.map_matches());
            }
        }
    }

    /// Record one occurrence of each of `keys`.
    pub fn extend_from_owned(&mut self, keys: Vec<K>)
        requires
            old(self).wf(),
            old(self)@.len() + keys@.len() <= usize::MAX,
        ensures
            final(self).wf(),
            final(self)@ == old(self)@.add(keys@.to_multiset()),
    {
        let ghost start = self.bag@;
        let ghost all = keys@;
        let mut rest = keys;
        proof {
            broadcast use vstd::seq_lib::group_to_multiset_ensures;

            assert(all.subrange(all.len() as int, all.len() as int) =~= Seq::<K>::empty());
            assert(start.add(Seq::<K>::empty().to_multiset()) =~= start);
        }
        while rest.len() > 0
            invariant
                self.wf(),
                rest@.len() <= all.len(),
                rest@ == all.subrange(0, rest@.len() as int),
                self@ == start.add(all.subrange(rest@.len() as int, all.len() as int).to_multiset()),
                start.len() + all.len() <= usize::MAX,
            decreases rest@.len(),
        {
            let ghost n = rest@.len();
            let ghost done = all.subrange(n as int, all.len() as int);
            proof {
                done.to_multiset_ensures();
            }
            let k = match rest.pop() {
                Some(k) => k,
                None => {
                    return;
                },
            };
            proof {
                let more = all.subrange(n - 1, all.len() as int);
                assert(more =~= done.insert(0, k));
                vstd::seq_lib::to_multiset_insert(done, 0, k);
                assert(start.add(more.to_multiset()) =~= start.add(done.to_multiset()).insert(k));
                assert(rest@ =~= all.subrange(0, rest@.len() as int));
            }
            self.add_owned(k);
        }
        proof {
            assert(all.subrange(0, all.len() as int) =~= all);
        }
    }

    /// How often `key` was added; 0 if never.
    pub fn count(&self, key: &K) -> (r: usize)
        requires
            self.wf(),
        ensures
            keys_behave::<K, S>() ==> r == self@.count(*key),
    {
        match self.map.get(key) {
            Some(c) => *c,
            None => 0,
        }
    }

    /// The share of all occurrences that are of `key`, as (numerator, denominator): the count
    /// of `key` over the number of instances, or 0/1 for an empty histogram.
    pub fn count_rel(&self, key: &K) -> (r: (usize, usize))
        requires
            self.wf(),
        ensures
            keys_behave::<K, S>() ==> (r.0 as nat, r.1 as nat) == relative(
                self@.count(*key),
                self@.len(),
            ),
    {
        if self.total == 0 {
            (0, 1)
        } else {
            (self.count(key), self.total)
        }
    }

    /// The number of occurrences recorded, over all keys.
    pub fn num_instances(&self) -> (r: usize)
        requires
            self.wf(),
        ensures
            r == self@.len(),
    {
        self.total
    }

    /// The number of distinct keys recorded.
    pub fn num_categories(&self) -> (r: usize)
        requires
            self.wf(),
        ensures
            keys_behave::<K, S>() ==> r == self@.dom().len(),
    {
        proof {
            if keys_behave::<K, S>() {
                assert(self.map@.dom() =~= self.bag@.dom());
            }
        }
        self.map.len()
    }

    /// Every key recorded, once, with its count, in no particular order.
    pub fn iter(&self) -> (r: Vec<(&K, usize)>)
        requires
            self.wf(),
        ensures
            keys_behave::<K, S>() ==> lists_counts(owned_pairs(r@), self@),
    {
        let mut r: Vec<(&K, usize)> = Vec::new();
        let n = self.map.len();
        let mut entries = self.map.iter();
        let ghost all = entries.remaining();
        let mut i: usize = 0;
        while i < n
            invariant
                i <= n,
                r@.len() <= i,
                r@.len() <= all.len(),
                r@.len() < i ==> r@.len() == all.len(),
                entries.remaining() == all.skip(r@.len() as int),
                forall|j: int|
                    0 <= j < r@.len() ==> #[trigger] r@[j].0 == all[j].0 && r@[j].1 == *all[j].1,
            decreases n - i,
        {
            match advance(&mut entries) {
                Some(p) => {
                    let (k, c) = p;
                    let ghost m = r@.len() as int;
                    proof {
                        assert(all.skip(m).drop_first() =~= all.skip(m + 1));
                        assert(p == all[m]);
                    }
                    r.push((k, *c));
                    proof {
                        assert(r@[m].0 == all[m].0 && r@[m].1 == *all[m].1);
                    }
                },
                None => {},
            }
            i = i + 1;
        }
        proof {
            if keys_behave::<K, S>() {
                let owned = owned_pairs(r@);
                assert(owned =~= all.unref());
                assert forall|p: (K, usize)| #[trigger] self.map@.kv_pairs().contains(p) <==> count_pairs(self.bag@).contains(p) by {
                    if self.map@.contains_key(p.0) {
                        assert(self.map@[p.0] == self.bag@.count(p.0));
                    }
                }
                assert(self.map@.kv_pairs() =~= count_pairs(self.bag@));
            }
        }
        r
    }

    /// Every key recorded with its count, the most frequent first; keys with equal counts
    /// come in no particular order.
    pub fn sorted_occurrences(self) -> (r: Vec<(K, usize)>)
        requires
            self.wf(),
        ensures
            forall|i: int, j: int| 0 <= i <= j < r@.len() ==> r@[i].1 >= r@[j].1,
            keys_behave::<K, S>() ==> lists_counts(r@, self@),
    {
        let pairs = self.iter();
        let mut v: Vec<(K, usize)> = Vec::new();
        let mut i: usize = 0;
        while i < pairs.len()
            invariant
                i <= pairs@.len(),
                v@.len() == i,
                keys_behave::<K, S>() ==> v@ == owned_pairs(pairs@).take(i as int),
            decreases pairs@.len() - i,
        {
            let (k, c) = pairs[i];
            let owned = k.clone();
            proof {
                if keys_behave::<K, S>() {
                    assert(strictly_cloned(*k, owned));
                    assert(owned_pairs(pairs@).take(i + 1int) =~= owned_pairs(pairs@).take(
                        i as int,
                    ).push((owned, c)));
                }
            }
            v.push((owned, c));
            i = i + 1;
        }
        let ghost listed = v@;
        proof {
            if keys_behave::<K, S>() {
                assert(v@ =~= owned_pairs(pairs@));
            }
        }
        sort_by_count(&mut v);
        let ghost ascending = v@;
        let mut r: Vec<(K, usize)> = Vec::new();
        while v.len() > 0
            invariant
                v@.len() <= ascending.len(),
                v@ == ascending.take(v@.len() as int),
                r@ == ascending.skip(v@.len() as int).reverse(),
            decreases v@.len(),
        {
            let ghost n = v@.len();
            match v.pop() {
                Some(p) => {
                    proof {
                        assert(ascending.skip(n - 1).reverse() =~= ascending.skip(n as int).reverse().push(p));
                    }
                    r.push(p);
                },
                None => {},
            }
            proof {
                assert(v@ =~= ascending.take(v@.len() as int));
            }
        }
        proof {
            assert(ascending.skip(0) =~= ascending);
            ascending.lemma_reverse_to_multiset();
            if keys_behave::<K, S>() {
                lemma_permuted_listing(listed, r@, self@);
            }
        }
        r
    }

    /// Add the counts of `other` to those of `self`, key by key.
    pub fn append(&mut self, other: Self)
        requires
            old(self).wf(),
            other.wf(),
            old(self)@.len() + other@.len() <= usize::MAX,
        ensures
            final(self).wf(),
            final(self)@ == old(self)@.add(other@),
    {
        let pairs = other.iter();
        let ghost listed = owned_pairs(pairs@);
        let mut i: usize = 0;
        while i < pairs.len()
            invariant
                self.total == old(self).total,
                self.bag == old(self).bag,
                i <= pairs@.len(),
                listed == owned_pairs(pairs@),
                old(self).wf(),
                old(self)@.len() + other@.len() <= usize::MAX,
                keys_behave::<K, S>() ==> lists_counts(listed, other@),
                keys_behave::<K, S>() ==> forall|k: K| #[trigger]
                    count_in(self.map@, k) == old(self)@.count(k) + if listed_before(listed, i as int, k) {
                        other@.count(k)
                    } else {
                        0
                    },
                keys_behave::<K, S>() ==> forall|k: K| #[trigger]
                    self.map@.contains_key(k) ==> self.map@[k] > 0,
            decreases pairs@.len() - i,
        {
            let (k, c) = pairs[i];
            let owned = k.clone();
            proof {
                if keys_behave::<K, S>() {
                    assert(strictly_cloned(*k, owned));
                    assert(listed[i as int] == (*k, c));
                    assert(listed.to_set().contains(listed[i as int]));
                    assert(c == other@.count(*k));
                    assert(!listed_before(listed, i as int, *k)) by {
                        if listed_before(listed, i as int, *k) {
                            let j = choose|j: int| 0 <= j < i && listed[j].0 == *k;
                            assert(listed.to_set().contains(listed[j]));
                            assert(listed[j] == listed[i as int]);
                        }
                    }
                    assert(self.map_count(*k) == old(self)@.count(*k));
                }
            }
            let ghost prev = self.map@;
            self.bump(owned, c);
            proof {
                if keys_behave::<K, S>() {
                    assert forall|x: K| #[trigger]
                        count_in(self.map@, x) == old(self)@.count(x) + if listed_before(
                            listed,
                            i + 1,
                            x,
                        ) {
                            other@.count(x)
                        } else {
                            0
                        } by {
                        assert(count_in(prev, x) == old(self)@.count(x) + if listed_before(
                            listed,
                            i as int,
                            x,
                        ) {
                            other@.count(x)
                        } else {
                            0
                        });
                        if x != *k && listed_before(listed, i + 1, x) {
                            let j = choose|j: int| 0 <= j < i + 1 && listed[j].0 == x;
                            assert(listed_before(listed, i as int, x));
                        }
                        if x == *k {
                            assert(listed_before(listed, i + 1, x));
                        }
                    }
                }
            }
            i = i + 1;
        }
        self.total = self.total + other.total;
        self.bag = Ghost(self.bag@.add(other.bag@));
        proof {
            if keys_behave::<K, S>() {
                assert forall|k: K| #[trigger] listed_before(listed, listed.len() as int, k) <==> other@.count(k) > 0 by {
                    if other@.count(k) > 0 {
                        assert(count_pairs(other@).contains((k, other@.count(k) as usize)));
                        assert(listed.to_set().contains((k, other@.count(k) as usize)));
                        let j = choose|j: int| 0 <= j < listed.len() && listed[j] == (k, other@.count(k) as usize);
                        assert(listed[j].0 == k);
                    }
                    if listed_before(listed, listed.len() as int, k) {
                        let j = choose|j: int| 0 <= j < listed.len() && listed[j].0 == k;
                        assert(listed.to_set().contains(listed[j]));
                    }
                }
                assert(i == listed.len());
                assert forall|k: K| #[trigger] count_in(self.map@, k) == self.bag@.count(k) by {
                    assert(listed_before(listed, listed.len() as int, k) <==> other@.count(k) > 0);
                }
                assert forall|k: K| #[trigger] self.map@.contains_key(k) <==> self.bag@.count(k) > 0 by {
                    assert(count_in(self.map@, k) == self.bag@.count(k));
                }
                assert forall|k: K| #[trigger] self.map@.contains_key(k) implies self.map@[k] == self.bag@.count(k) by {
                    assert(count_in(self.map@, k) == self.bag@.count(k));
                }
            }
        }
    }

    /// Every key recorded, once, with its share of all occurrences as (numerator,
    /// denominator), in no particular order.
    pub fn iter_rel(&self) -> (r: Vec<(&K, (usize, usize))>)
        requires
            self.wf(),
        ensures
            keys_behave::<K, S>() ==> {
                &&& lists_counts(
                    Seq::new(r@.len(), |i: int| (*r@[i].0, self@.count(*r@[i].0) as usize)),
                    self@,
                )
                &&& forall|i: int|
                    0 <= i < r@.len() ==> (#[trigger] r@[i].1.0 as nat, r@[i].1.1 as nat)
                        == relative(self@.count(*r@[i].0), self@.len())
            },
    {
        let pairs = self.iter();
        let mut r: Vec<(&K, (usize, usize))> = Vec::new();
        let mut i: usize = 0;
        while i < pairs.len()
            invariant
                i <= pairs@.len(),
                r@.len() == i,
                self.wf(),
                keys_behave::<K, S>() ==> lists_counts(owned_pairs(pairs@), self@),
                forall|j: int|
                    0 <= j < i ==> #[trigger] r@[j] == (
                        pairs@[j].0,
                        if self.total == 0 {
                            (0usize, 1usize)
                        } else {
                            (pairs@[j].1, self.total)
                        },
                    ),
            decreases pairs@.len() - i,
        {
            let (k, c) = pairs[i];
            let share = if self.total == 0 {
                (0, 1)
            } else {
                (c, self.total)
            };
            let ghost before = r@;
            r.push((k, share));
            proof {
                assert(r@ == before.push((k, share)));
                assert(k == pairs@[i as int].0 && c == pairs@[i as int].1);
            }
            i = i + 1;
        }
        proof {
            if keys_behave::<K, S>() {
                let listed = owned_pairs(pairs@);
                assert forall|j: int| 0 <= j < r@.len() implies (#[trigger] r@[j].1.0 as nat, r@[j].1.1 as nat)
                    == relative(self@.count(*r@[j].0), self@.len()) by {
                    assert(listed.to_set().contains(listed[j]));
                    assert(r@[j].0 == pairs@[j].0);
                }
                assert forall|j: int| 0 <= j < r@.len() implies #[trigger] listed[j] == (
                    *r@[j].0,
                    self@.count(*r@[j].0) as usize,
                ) by {
                    assert(listed.to_set().contains(listed[j]));
                }
                assert(Seq::new(r@.len(), |j: int| (*r@[j].0, self@.count(*r@[j].0) as usize))
                    =~= listed);
            }
        }
        r
    }
}

} // verus!
