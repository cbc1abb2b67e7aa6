//! A small open-hash set with a fixed number of buckets.
//!
//! The set is meant to take little room rather than to be fast: the number of
//! buckets is chosen once and never grows. An element is identified by its
//! *words*, the sequence of machine words that it feeds to the hasher; two
//! elements with the same words are the same element as far as the set is
//! concerned, so a lookup may be made with any value that has the words of the
//! element sought.

use vstd::prelude::*;
use vstd::seq_lib::lemma_flatten_concat;

verus! {

/// What a value must offer to be kept in, or looked up in, a [`HashSet`].
pub trait Hashed {
    /// The words by which the value is hashed and compared.
    spec fn words(&self) -> Seq<usize>;

    /// Number of words of the value.
    fn word_count(&self) -> (n: usize)
        ensures
            n == self.words().len(),
    ;

    /// The `i`-th word of the value.
    fn word(&self, i: usize) -> (w: usize)
        requires
            i < self.words().len(),
        ensures
            w == self.words()[i as int],
    ;
}

impl Hashed for [u8] {
    open spec fn words(&self) -> Seq<usize> {
        Seq::new(self@.len(), |i: int| self@[i] as usize)
    }

    fn word_count(&self) -> (n: usize) {
        self.len()
    }

    fn word(&self, i: usize) -> (w: usize) {
        self[i] as usize
    }
}

impl Hashed for Vec<u8> {
    open spec fn words(&self) -> Seq<usize> {
        Seq::new(self@.len(), |i: int| self@[i] as usize)
    }

    fn word_count(&self) -> (n: usize) {
        self.len()
    }

    fn word(&self, i: usize) -> (w: usize) {
        self[i] as usize
    }
}

/// One step of the hasher: the state times 101 plus the word, wrapping.
pub open spec fn mix(state: usize, word: usize) -> usize {
    state.wrapping_mul(101).wrapping_add(word)
}

/// The hash of a sequence of words, starting from the state `state`.
pub open spec fn hash_from(state: usize, words: Seq<usize>) -> usize
    decreases words.len(),
{
    if words.len() == 0 {
        state
    } else {
        mix(hash_from(state, words.drop_last()), words.last())
    }
}

/// The hash of a sequence of words.
pub open spec fn hash_words(words: Seq<usize>) -> usize {
    hash_from(0, words)
}

/// The bucket, of `buckets` buckets, in which a value with the words `words`
/// is kept.
pub open spec fn bucket_of(words: Seq<usize>, buckets: nat) -> int {
    hash_words(words) as int % buckets as int
}

/// The hasher of the set. Bytes and words are mixed in the same way, one at a
/// time, so that a 32-bit target never converts to or from 64 bits.
pub struct CustomHasher {
    /// Current state
    pub state: usize,
}

impl CustomHasher {
    /// Always 0: the hash is read from `state` directly.
    pub fn finish(&self) -> (r: u64)
        ensures
            r == 0,
    {
        0
    }

    /// Mixes each byte of `bytes` into the state.
    pub fn write(&mut self, bytes: &[u8])
        ensures
            final(self).state == hash_from(old(self).state, bytes.words()),
    {
        let mut i: usize = 0;
        while i < bytes.len()
            invariant
                i <= bytes@.len(),
                self.state == hash_from(old(self).state, bytes.words().take(i as int)),
            decreases bytes@.len() - i,
        {
            proof {
                assert(bytes.words().take(i + 1).drop_last() == bytes.words().take(i as int));
            }
            self.state = self.state.wrapping_mul(101).wrapping_add(bytes[i] as usize);
            i += 1;
        }
        proof {
            assert(bytes.words().take(i as int) == bytes.words());
        }
    }

    /// Mixes one word into the state.
    pub fn write_usize(&mut self, i: usize)
        ensures
            final(self).state == mix(old(self).state, i),
    {
        self.state = self.state.wrapping_mul(101).wrapping_add(i);
    }
}

/// Hashes a value with a [`CustomHasher`].
pub fn hash<T: Hashed + ?Sized>(t: &T) -> (h: usize)
    ensures
        h == hash_words(t.words()),
{
    let mut s = CustomHasher { state: 0 };
    let n = t.word_count();
    let mut i: usize = 0;
    while i < n
        invariant
            i <= n,
            n == t.words().len(),
            s.state == hash_words(t.words().take(i as int)),
        decreases n - i,
    {
        let w = t.word(i);
        proof {
            assert(t.words().take(i + 1).drop_last() == t.words().take(i as int));
        }
        s.write_usize(w);
        i += 1;
    }
    proof {
        assert(t.words().take(n as int) == t.words());
    }
    s.state
}

/// Tells whether two values have the same words.
pub fn same_words<A: Hashed + ?Sized, B: Hashed + ?Sized>(a: &A, b: &B) -> (r: bool)
    ensures
        r == (a.words() == b.words()),
{
    let n = a.word_count();
    if n != b.word_count() {
        return false;
    }
    let mut i: usize = 0;
    while i < n
        invariant
            i <= n,
            n == a.words().len(),
            n == b.words().len(),
            forall|j: int| 0 <= j < i ==> a.words()[j] == b.words()[j],
        decreases n - i,
    {
        if a.word(i) != b.word(i) {
            return false;
        }
        i += 1;
    }
    proof {
        assert(a.words() =~= b.words());
    }
    true
}

/// Hash set
pub struct HashSet<T: Hashed> {
    /// Vector of buckets, each bucket containing a vector of actual data
    data: Vec<Vec<T>>,
}

/// Iterator over a [`HashSet`]
pub struct Iter<'a, T: Hashed> {
    /// Reference to the HashSet
    set: &'a HashSet<T>,
    /// Number of the bucket for the next element to return
    bucket: usize,
    /// Index inside the bucket for the next element to return
    ptr: usize,
}

/// An element of the flattening of `b` is an element of one of its members.
proof fn lemma_flatten_index<A>(b: Seq<Seq<A>>, k: int, i: int)
    requires
        0 <= k < b.len(),
        0 <= i < b[k].len(),
    ensures
        b.take(k).flatten().len() + i < b.flatten().len(),
        b.flatten()[b.take(k).flatten().len() + i] == b[k][i],
        b.flatten() == b.take(k).flatten() + b[k] + b.skip(k + 1).flatten(),
{
    lemma_flatten_split(b, k);
}

/// The flattening of `b`, cut at its `k`-th member.
proof fn lemma_flatten_split<A>(b: Seq<Seq<A>>, k: int)
    requires
        0 <= k < b.len(),
    ensures
        b.flatten() == b.take(k).flatten() + b[k] + b.skip(k + 1).flatten(),
{
    let one = seq![b[k]];
    assert(b =~= b.take(k) + one + b.skip(k + 1));
    lemma_flatten_concat(b.take(k) + one, b.skip(k + 1));
    lemma_flatten_concat(b.take(k), one);
    one.lemma_flatten_one_element();
}

/// What a swap-remove in the `h`-th member of `b` does to the flattening.
proof fn lemma_flatten_swap_remove<A>(b: Seq<Seq<A>>, h: int, p: int)
    requires
        0 <= h < b.len(),
        0 <= p < b[h].len(),
    ensures
        ({
            let base = b.take(h).flatten().len();
            let k = base + p;
            let q = base + b[h].len() - 1;
            let s = b.flatten();
            &&& 0 <= k <= q < s.len()
            &&& s[k] == b[h][p]
            &&& s[q] == b[h].last()
            &&& b.update(h, b[h].update(p, b[h].last()).drop_last()).flatten() == s.update(
                k,
                s[q],
            ).remove(q)
        }),
{
    let after = b.update(h, b[h].update(p, b[h].last()).drop_last());
    let base = b.take(h).flatten().len();
    let k = base + p;
    let q = base + b[h].len() - 1;
    lemma_flatten_split(b, h);
    lemma_flatten_split(after, h);
    assert(after.take(h) =~= b.take(h));
    assert(after.skip(h + 1) =~= b.skip(h + 1));
    assert(after.flatten() =~= b.flatten().update(k, b.flatten()[q]).remove(q));
}

/// The members of a sequence after a swap-remove at `k`, where `q` is the
/// place of the element that moves into the gap.
proof fn lemma_swap_remove_members<A>(s: Seq<A>, k: int, q: int)
    requires
        0 <= k <= q < s.len(),
    ensures
        forall|y: A|
            #![trigger s.update(k, s[q]).remove(q).contains(y)]
            s.update(k, s[q]).remove(q).contains(y) <==> (exists|m: int|
                0 <= m < s.len() && m != k && s[m] == y),
{
    let t = s.update(k, s[q]).remove(q);
    assert forall|y: A| #![trigger t.contains(y)] t.contains(y) <==> (exists|m: int|
        0 <= m < s.len() && m != k && s[m] == y) by {
        if t.contains(y) {
            let m = choose|m: int| 0 <= m < t.len() && t[m] == y;
            if m >= q {
                assert(s[m + 1] == y);
            } else if m == k {
                assert(s[q] == y);
            } else {
                assert(s[m] == y);
            }
        }
        if exists|m: int| 0 <= m < s.len() && m != k && s[m] == y {
            let m = choose|m: int| 0 <= m < s.len() && m != k && s[m] == y;
            if m == q {
                assert(t[k] == y);
            } else if m < q {
                assert(t[m] == y);
            } else {
                assert(t[m - 1] == y);
            }
        }
    }
}

/// Each element of the flattening of `b` comes from one of its members.
proof fn lemma_flatten_origin<A>(b: Seq<Seq<A>>, p: int) -> (r: (int, int))
    requires
        0 <= p < b.flatten().len(),
    ensures
        0 <= r.0 < b.len(),
        0 <= r.1 < b[r.0].len(),
        b.flatten()[p] == b[r.0][r.1],
        p == b.take(r.0).flatten().len() + r.1,
    decreases b.len(),
{
    if b.len() == 0 {
        (0, 0)
    } else {
        let last = b.len() - 1;
        lemma_flatten_split(b, last);
        assert(b.skip(last + 1) =~= Seq::<Seq<A>>::empty());
        assert(b.skip(last + 1).flatten() =~= Seq::<A>::empty());
        let front = b.take(last);
        if p < front.flatten().len() {
            let r = lemma_flatten_origin(front, p);
            assert(front.take(r.0) =~= b.take(r.0));
            r
        } else {
            (last, p - front.flatten().len())
        }
    }
}

impl<T: Hashed> HashSet<T> {
    /// The buckets of the set, each with its elements in order.
    pub closed spec fn buckets(&self) -> Seq<Seq<T>> {
        Seq::new(self.data@.len(), |b: int| self.data@[b]@)
    }

    /// The elements of the set, in the order in which [`Iter`] hands them out.
    pub closed spec fn elements(&self) -> Seq<T> {
        self.buckets().flatten()
    }

    /// Whether `x` is an element of the set.
    pub open spec fn contains(&self, x: T) -> bool {
        self.elements().contains(x)
    }

    /// Whether an element with the words `k` is in the set.
    pub open spec fn has_key(&self, k: Seq<usize>) -> bool {
        exists|x: T| #[trigger] self.contains(x) && x.words() == k
    }

    /// The element with the words `k`.
    pub open spec fn entry(&self, k: Seq<usize>) -> T {
        choose|x: T| #[trigger] self.contains(x) && x.words() == k
    }

    /// The set as a map from words to the element that has them.
    pub open spec fn view(&self) -> Map<Seq<usize>, T> {
        Map::new(|k: Seq<usize>| self.has_key(k), |k: Seq<usize>| self.entry(k))
    }

    /// Each element lies in the bucket that its hash names, and no bucket
    /// holds two elements with the same words.
    pub closed spec fn wf(&self) -> bool {
        &&& self.data@.len() > 0
        &&& forall|b: int, i: int|
            0 <= b < self.data@.len() && 0 <= i < self.data@[b]@.len() ==> bucket_of(
                (#[trigger] self.data@[b]@[i]).words(),
                self.data@.len(),
            ) == b
        &&& forall|b: int, i: int, j: int|
            0 <= b < self.data@.len() && 0 <= i < self.data@[b]@.len() && 0 <= j
                < self.data@[b]@.len() && i != j ==> (#[trigger] self.data@[b]@[i]).words()
                != (#[trigger] self.data@[b]@[j]).words()
    }

    /// Number of buckets of the set.
    pub closed spec fn bucket_count(&self) -> nat {
        self.data@.len()
    }

    /// An element of the set lies in the bucket that its hash names.
    proof fn lemma_home(&self, x: T) -> (i: int)
        requires
            self.wf(),
            self.contains(x),
        ensures
            0 <= i < self.data@[bucket_of(x.words(), self.data@.len())]@.len(),
            self.data@[bucket_of(x.words(), self.data@.len())]@[i] == x,
    {
        let p = choose|p: int| 0 <= p < self.elements().len() && self.elements()[p] == x;
        let r = lemma_flatten_origin(self.buckets(), p);
        assert(self.data@[r.0]@[r.1] == x);
        r.1
    }

    /// An element of a bucket is an element of the set.
    proof fn lemma_member(&self, b: int, i: int)
        requires
            0 <= b < self.data@.len(),
            0 <= i < self.data@[b]@.len(),
        ensures
            self.contains(self.data@[b]@[i]),
    {
        lemma_flatten_index(self.buckets(), b, i);
    }

    /// Elements at two places of a well-formed set differ in their words.
    pub proof fn lemma_distinct(&self, m: int, n: int)
        requires
            self.wf(),
            0 <= m < self.elements().len(),
            0 <= n < self.elements().len(),
            m != n,
        ensures
            self.elements()[m].words() != self.elements()[n].words(),
    {
        let a = lemma_flatten_origin(self.buckets(), m);
        let b = lemma_flatten_origin(self.buckets(), n);
        assert(self.data@[a.0]@[a.1] == self.elements()[m]);
        assert(self.data@[b.0]@[b.1] == self.elements()[n]);
    }

    /// No two elements of a well-formed set have the same words.
    pub proof fn lemma_unique(&self, x: T, y: T)
        requires
            self.wf(),
            self.contains(x),
            self.contains(y),
            x.words() == y.words(),
        ensures
            x == y,
    {
        let i = self.lemma_home(x);
        let j = self.lemma_home(y);
    }

    /// What the map view holds: exactly the elements, each under its words.
    pub proof fn lemma_view(&self)
        requires
            self.wf(),
        ensures
            forall|x: T| #[trigger]
                self.contains(x) ==> self@.dom().contains(x.words()) && self@[x.words()] == x,
            forall|k: Seq<usize>| #[trigger]
                self@.dom().contains(k) ==> self.contains(self@[k]) && self@[k].words() == k,
    {
        assert forall|x: T| #[trigger] self.contains(x) implies self@.dom().contains(x.words())
            && self@[x.words()] == x by {
            assert(self.has_key(x.words()));
            self.lemma_unique(x, self.entry(x.words()));
        }
    }

    /// Creates a new HashSet.
    ///
    /// The number of buckets given here never changes, even if the set becomes
    /// overloaded. A set cannot have no bucket at all.
    pub fn new(buckets: usize) -> (s: HashSet<T>)
        requires
            buckets != 0,
        ensures
            s.wf(),
            s.bucket_count() == buckets,
            s.elements() == Seq::<T>::empty(),
    {
        let mut data: Vec<Vec<T>> = Vec::new();
        let mut i: usize = 0;
        while i < buckets
            invariant
                i <= buckets,
                data@.len() == i,
                forall|b: int| 0 <= b < i ==> (#[trigger] data@[b])@.len() == 0,
                Seq::new(data@.len(), |b: int| data@[b]@).flatten() == Seq::<T>::empty(),
            decreases buckets - i,
        {
            let ghost before = Seq::new(data@.len(), |b: int| data@[b]@);
            data.push(Vec::new());
            proof {
                let after = Seq::new(data@.len(), |b: int| data@[b]@);
                assert(after =~= before.push(Seq::<T>::empty()));
                before.lemma_flatten_push(Seq::<T>::empty());
            }
            i += 1;
        }
        HashSet { data }
    }

    /// Returns an iterator over references to the elements of the set
    pub fn iter(&self) -> (it: Iter<'_, T>)
        ensures
            it.wf(),
            it.set() == self,
            it.position() == 0,
    {
        proof {
            assert(self.buckets().take(0) =~= Seq::<Seq<T>>::empty());
        }
        Iter { set: self, bucket: 0, ptr: 0 }
    }

    /// Number of elements of the set.
    pub fn len(&self) -> (n: usize)
        requires
            self.elements().len() <= usize::MAX,
        ensures
            n == self.elements().len(),
    {
        let mut n: usize = 0;
        let mut b: usize = 0;
        while b < self.data.len()
            invariant
                b <= self.data@.len(),
                n == self.buckets().take(b as int).flatten().len(),
                self.elements().len() <= usize::MAX,
            decreases self.data@.len() - b,
        {
            proof {
                lemma_flatten_split(self.buckets(), b as int);
                assert(self.buckets().take(b + 1) =~= self.buckets().take(b as int).push(
                    self.buckets()[b as int],
                ));
                self.buckets().take(b as int).lemma_flatten_push(self.buckets()[b as int]);
            }
            n = n + self.data[b].len();
            b += 1;
        }
        proof {
            assert(self.buckets().take(b as int) =~= self.buckets());
        }
        n
    }

    /// Returns a reference to the item in the set that has the words of the
    /// parameter, if one exists
    pub fn get<Q: Hashed + ?Sized>(&self, val: &Q) -> (r: Option<&T>)
        requires
            self.wf(),
        ensures
            match r {
                Some(x) => self.contains(*x) && x.words() == val.words(),
                None => !self.has_key(val.words()),
            },
    {
        let h = hash(val) % self.data.len();
        let bucket = &self.data[h];
        let mut i: usize = 0;
        while i < bucket.len()
            invariant
                i <= bucket@.len(),
                h < self.data@.len(),
                bucket@ == self.data@[h as int]@,
                forall|j: int| 0 <= j < i ==> (#[trigger] bucket@[j]).words() != val.words(),
            decreases bucket@.len() - i,
        {
            if same_words(&bucket[i], val) {
                proof {
                    self.lemma_member(h as int, i as int);
                }
                return Some(&bucket[i]);
            }
            i += 1;
        }
        proof {
            if self.has_key(val.words()) {
                let x = self.entry(val.words());
                let j = self.lemma_home(x);
                assert(bucket@[j].words() == val.words());
            }
        }
        None
    }

    /// Inserts a value in the set
    ///
    /// Returns false if another value with the same words already is in the
    /// set, in which case the set is left as it was.
    pub fn insert(&mut self, val: T) -> (r: bool)
        requires
            old(self).wf(),
        ensures
            final(self).wf(),
            final(self).bucket_count() == old(self).bucket_count(),
            r == !old(self).has_key(val.words()),
            !r ==> *final(self) == *old(self),
            r ==> exists|k: int|
                0 <= k <= old(self).elements().len() && final(self).elements() == old(
                    self,
                ).elements().insert(k, val),
            r ==> forall|x: T|
                #![trigger final(self).contains(x)]
                final(self).contains(x) <==> (old(self).contains(x) || x == val),
    {
        let h = hash(&val) % self.data.len();
        if self.get(&val).is_some() {
            return false;
        }
        let ghost before = self.buckets();
        let ghost bucket = self.data@[h as int]@;
        let ghost k = before.take(h as int).flatten().len() + bucket.len();
        self.data[h].push(val);
        proof {
            let after = self.buckets();
            lemma_flatten_split(before, h as int);
            lemma_flatten_split(after, h as int);
            assert(after.take(h as int) =~= before.take(h as int));
            assert(after.skip(h + 1) =~= before.skip(h + 1));
            assert(after[h as int] =~= bucket.push(val));
            assert(after.flatten() =~= before.flatten().insert(k as int, val));
            assert(0 <= k <= old(self).elements().len() && self.elements() == old(
                self,
            ).elements().insert(k as int, val));
            assert forall|x: T| #![trigger self.contains(x)] self.contains(x) <==> (old(
                self,
            ).contains(x) || x == val) by {
                let s = before.flatten();
                let t = after.flatten();
                if old(self).contains(x) {
                    let p = choose|p: int| 0 <= p < s.len() && s[p] == x;
                    if p < k {
                        assert(t[p] == x);
                    } else {
                        assert(t[p + 1] == x);
                    }
                }
                if x == val {
                    assert(t[k as int] == x);
                }
                if self.contains(x) {
                    let p = choose|p: int| 0 <= p < t.len() && t[p] == x;
                    if p < k {
                        assert(s[p] == x);
                    } else if p > k {
                        assert(s[p - 1] == x);
                    }
                }
            }
            assert(self.wf()) by {
                assert forall|b: int, i: int, j: int|
                    0 <= b < self.data@.len() && 0 <= i < self.data@[b]@.len() && 0 <= j
                        < self.data@[b]@.len() && i != j implies (
                #[trigger] self.data@[b]@[i]).words() != (#[trigger] self.data@[b]@[j]).words() by {
                    if b == h {
                        if i == bucket.len() {
                            old(self).lemma_member(h as int, j);
                        } else if j == bucket.len() {
                            old(self).lemma_member(h as int, i);
                        }
                    }
                }
            }
        }
        true
    }

    /// Removes a value from the set
    ///
    /// Returns true if a value was actually removed
    pub fn remove(&mut self, val: &T) -> (r: bool)
        requires
            old(self).wf(),
        ensures
            final(self).wf(),
            final(self).bucket_count() == old(self).bucket_count(),
            r == old(self).has_key(val.words()),
            !r ==> *final(self) == *old(self),
            forall|x: T|
                #![trigger final(self).contains(x)]
                final(self).contains(x) <==> (old(self).contains(x) && x.words() != val.words()),
    {
        let taken = self.take(val);
        proof {
            assert forall|x: T| #![trigger self.contains(x)] self.contains(x) <==> (old(
                self,
            ).contains(x) && x.words() != val.words()) by {
                if old(self).contains(x) && x.words() == val.words() {
                    if let Some(t) = taken {
                        old(self).lemma_unique(x, t);
                    }
                }
            }
        }
        taken.is_some()
    }

    /// Removes the value that has the words of `val` from the set, and returns
    /// it by move, if there is one
    pub fn take<Q: Hashed + ?Sized>(&mut self, val: &Q) -> (r: Option<T>)
        requires
            old(self).wf(),
        ensures
            final(self).wf(),
            final(self).bucket_count() == old(self).bucket_count(),
            match r {
                Some(x) => {
                    &&& old(self).contains(x)
                    &&& x.words() == val.words()
                    &&& exists|k: int, q: int|
                        0 <= k <= q < old(self).elements().len() && old(self).elements()[k] == x
                            && final(self).elements() == old(self).elements().update(
                            k,
                            old(self).elements()[q],
                        ).remove(q)
                    &&& forall|y: T|
                        #![trigger final(self).contains(y)]
                        final(self).contains(y) <==> (old(self).contains(y) && y != x)
                },
                None => !old(self).has_key(val.words()) && *final(self) == *old(self),
            },
    {
        let h = hash(val) % self.data.len();
        let mut i: usize = 0;
        let mut found: Option<usize> = None;
        while i < self.data[h].len()
            invariant_except_break
                found is None,
                forall|j: int|
                    0 <= j < i ==> (#[trigger] self.data@[h as int]@[j]).words() != val.words(),
            invariant
                self.wf(),
                h < self.data@.len(),
                i <= self.data@[h as int]@.len(),
            ensures
                match found {
                    Some(p) => p < self.data@[h as int]@.len() && self.data@[h as int]@[p as int].words()
                        == val.words(),
                    None => forall|j: int|
                        0 <= j < self.data@[h as int]@.len() ==> (
                        #[trigger] self.data@[h as int]@[j]).words() != val.words(),
                },
            decreases self.data@[h as int]@.len() - i,
        {
            if same_words(&self.data[h][i], val) {
                found = Some(i);
                break;
            }
            i += 1;
        }
        match found {
            None => {
                proof {
                    if self.has_key(val.words()) {
                        let x = self.entry(val.words());
                        let j = self.lemma_home(x);
                        assert(self.data@[h as int]@[j].words() == val.words());
                    }
                }
                None
            },
            Some(p) => {
                let ghost before = self.buckets();
                let ghost bucket = self.data@[h as int]@;
                let ghost base = before.take(h as int).flatten().len();
                let x = self.data[h].swap_remove(p);
                proof {
                    let after = self.buckets();
                    let k = base + p;
                    let q = base + bucket.len() - 1;
                    let s = before.flatten();
                    old(self).lemma_member(h as int, p as int);
                    assert(after =~= before.update(
                        h as int,
                        bucket.update(p as int, bucket.last()).drop_last(),
                    ));
                    lemma_flatten_swap_remove(before, h as int, p as int);
                    assert(self.elements() == s.update(k, s[q]).remove(q));
                    assert forall|b: int, i: int, j: int|
                        0 <= b < self.data@.len() && 0 <= i < self.data@[b]@.len() && 0 <= j
                            < self.data@[b]@.len() && i != j implies (
                    #[trigger] self.data@[b]@[i]).words() != (
                    #[trigger] self.data@[b]@[j]).words() by {
                        if b == h {
                            let ii = if i == p { bucket.len() - 1 } else { i };
                            let jj = if j == p { bucket.len() - 1 } else { j };
                            assert(self.data@[b]@[i] == bucket[ii]);
                            assert(self.data@[b]@[j] == bucket[jj]);
                        }
                    }
                    assert forall|b: int, i: int|
                        0 <= b < self.data@.len() && 0 <= i < self.data@[b]@.len() implies bucket_of(
                        (#[trigger] self.data@[b]@[i]).words(),
                        self.data@.len(),
                    ) == b by {
                        if b == h {
                            let ii = if i == p { bucket.len() - 1 } else { i };
                            assert(self.data@[b]@[i] == bucket[ii]);
                        }
                    }
                    lemma_swap_remove_members(s, k, q);
                    assert forall|y: T| #![trigger self.contains(y)] self.contains(y) <==> (old(
                        self,
                    ).contains(y) && y != x) by {
                        if self.contains(y) {
                            let m = choose|m: int| 0 <= m < s.len() && m != k && s[m] == y;
                            if y == x {
                                old(self).lemma_distinct(m, k);
                            }
                        }
                        if old(self).contains(y) && y != x {
                            let m = choose|m: int| 0 <= m < s.len() && s[m] == y;
                            assert(m != k);
                        }
                    }
                }
                Some(x)
            },
        }
    }
}

impl<'a, T: Hashed> Iter<'a, T> {
    /// The set that is being walked.
    pub closed spec fn set(&self) -> &'a HashSet<T> {
        self.set
    }

    /// The iterator points into the set, or just past its last bucket.
    pub closed spec fn wf(&self) -> bool {
        &&& self.bucket <= self.set.data@.len()
        &&& self.bucket < self.set.data@.len() ==> self.ptr <= self.set.data@[self.bucket as int]@.len()
        &&& self.bucket == self.set.data@.len() ==> self.ptr == 0
    }

    /// Number of elements handed out so far.
    pub closed spec fn position(&self) -> nat {
        (self.set.buckets().take(self.bucket as int).flatten().len() + self.ptr) as nat
    }

    /// Hands out the next element of the set: the elements come in the order
    /// of [`HashSet::elements`], each once.
    pub fn next(&mut self) -> (r: Option<&'a T>)
        requires
            old(self).wf(),
        ensures
            final(self).wf(),
            final(self).set() == old(self).set(),
            old(self).position() <= old(self).set().elements().len(),
            match r {
                Some(x) => {
                    &&& old(self).position() < old(self).set().elements().len()
                    &&& *x == old(self).set().elements()[old(self).position() as int]
                    &&& final(self).position() == old(self).position() + 1
                },
                None => {
                    &&& old(self).position() == old(self).set().elements().len()
                    &&& final(self).position() == old(self).position()
                },
            },
    {
        let set: &'a HashSet<T> = self.set;
        while self.bucket < set.data.len() && self.ptr >= set.data[self.bucket].len()
            invariant
                self.wf(),
                self.set == set,
                self.position() == old(self).position(),
            decreases set.data@.len() - self.bucket,
        {
            proof {
                let b = set.buckets();
                assert(b.take(self.bucket + 1) =~= b.take(self.bucket as int).push(
                    b[self.bucket as int],
                ));
                b.take(self.bucket as int).lemma_flatten_push(b[self.bucket as int]);
            }
            self.ptr = 0;
            self.bucket += 1;
        }
        if self.bucket >= set.data.len() {
            proof {
                assert(set.buckets().take(self.bucket as int) =~= set.buckets());
            }
            None
        } else {
            proof {
                lemma_flatten_index(set.buckets(), self.bucket as int, self.ptr as int);
            }
            self.ptr += 1;
            Some(&set.data[self.bucket][self.ptr - 1])
        }
    }
}

} // verus!
