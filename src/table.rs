//! A table from words to vectors, indexed by a hash of each word's UTF-8
//! bytes.
use std::collections::HashMap;
use vstd::prelude::*;
use vstd::utf8::encode_utf8;

verus! {

broadcast use vstd::std_specs::hash::group_hash_axioms;

pub const HASH_MODULUS: u64 = 4294967291;

pub open spec fn hash_bytes(b: Seq<u8>) -> u64
    decreases b.len(),
{
    if b.len() == 0 {
        0
    } else {
        ((hash_bytes(b.drop_last()) as int * 131 + b.last() as int) % (HASH_MODULUS as int)) as u64
    }
}

pub open spec fn word_hash(w: Seq<char>) -> u64 {
    hash_bytes(encode_utf8(w))
}

fn hash_of(w: &str) -> (h: u64)
    ensures
        h == word_hash(w@),
{
    let b = w.as_bytes();
    let mut h: u64 = 0;
    let mut i: usize = 0;
    while i < b.len()
        invariant
            i <= b@.len(),
            b@ == encode_utf8(w@),
            h < HASH_MODULUS,
            h == hash_bytes(b@.take(i as int)),
        decreases b.len() - i,
    {
        assert(b@.take(i + 1).drop_last() == b@.take(i as int));
        h = (h * 131 + b[i] as u64) % HASH_MODULUS;
        i += 1;
    }
    assert(b@.take(b@.len() as int) == b@);
    h
}

/// Words and their vectors; each word appears once.
pub struct VectorTable<V> {
    words: Vec<String>,
    vectors: Vec<V>,
    index: HashMap<u64, Vec<usize>>,
}

impl<V> VectorTable<V> {
    pub closed spec fn has_word(&self, w: Seq<char>) -> bool {
        exists|i: int| 0 <= i < self.words.len() && #[trigger] self.words[i]@ == w
    }

    pub closed spec fn position(&self, w: Seq<char>) -> int {
        choose|i: int| 0 <= i < self.words.len() && #[trigger] self.words[i]@ == w
    }

    /// The table as a map from each word to its vector.
    pub closed spec fn view(&self) -> Map<Seq<char>, V> {
        Map::new(|w: Seq<char>| self.has_word(w), |w: Seq<char>| self.vectors[self.position(w)])
    }

    pub closed spec fn wf(&self) -> bool {
        &&& self.words.len() == self.vectors.len()
        &&& forall|i: int, j: int|
            0 <= i < self.words.len() && 0 <= j < self.words.len() && #[trigger] self.words[i]@
                == #[trigger] self.words[j]@ ==> i == j
        &&& forall|i: int|
            0 <= i < self.words.len() ==> {
                let h = word_hash(#[trigger] self.words[i]@);
                self.index@.contains_key(h) && self.index@[h]@.contains(i as usize)
            }
        &&& forall|h: u64, k: int|
            #![trigger self.index@[h]@[k]]
            self.index@.contains_key(h) && 0 <= k < self.index@[h]@.len() ==> {
                let i = self.index@[h]@[k];
                i < self.words.len() && word_hash(self.words[i as int]@) == h
            }
    }

    proof fn lemma_position(&self, i: int)
        requires
            self.wf(),
            0 <= i < self.words.len(),
        ensures
            self.has_word(self.words[i]@),
            self.position(self.words[i]@) == i,
            self@[self.words[i]@] == self.vectors[i],
    {
        let w = self.words[i]@;
        assert(self.words[i]@ == w);
        let p = self.position(w);
        assert(self.words[p]@ == w);
    }

    /// An empty table.
    pub fn new() -> (r: Self)
        ensures
            r.wf(),
            r@ == Map::<Seq<char>, V>::empty(),
    {
        let r = VectorTable { words: Vec::new(), vectors: Vec::new(), index: HashMap::new() };
        assert(r@ =~= Map::<Seq<char>, V>::empty());
        r
    }

    /// The number of words.
    pub fn len(&self) -> (n: usize)
        requires
            self.wf(),
        ensures
            n == self@.len(),
    {
        proof {
            let n = self.words.len() as int;
            let f = |i: int| self.words[i]@;
            let r = vstd::set_lib::set_int_range(0, n);
            vstd::set_lib::lemma_int_range(0, n);
            assert(r.map(f) =~= self@.dom()) by {
                assert forall|w: Seq<char>| self@.dom().contains(w) implies r.map(f).contains(
                    w,
                ) by {
                    let i = self.position(w);
                    assert(r.contains(i) && f(i) == w);
                }
            }
            assert(vstd::relations::injective_on(f, r));
            vstd::set_lib::lemma_map_size(r, self@.dom(), f);
        }
        self.words.len()
    }

    /// The position of `w`, if the table holds it.
    fn find(&self, w: &str) -> (r: Option<usize>)
        requires
            self.wf(),
        ensures
            match r {
                Some(i) => i < self.words.len() && self.words[i as int]@ == w@,
                None => !self@.contains_key(w@),
            },
    {
        let h = hash_of(w);
        let key = w.to_owned();
        match self.index.get(&h) {
            None => {
                proof {
                    if self@.contains_key(w@) {
                        let i = self.position(w@);
                        assert(self.words[i]@ == w@);
                    }
                }
                None
            },
            Some(bucket) => {
                let mut k: usize = 0;
                while k < bucket.len()
                    invariant
                        self.wf(),
                        self.index@.contains_key(h),
                        h == word_hash(w@),
                        key@ == w@,
                        bucket@ == self.index@[h]@,
                        k <= bucket.len(),
                        forall|j: int| 0 <= j < k ==> self.words[bucket@[j] as int]@ != w@,
                    decreases bucket.len() - k,
                {
                    let i = bucket[k];
                    assert(self.index@[h]@[k as int] == i);
                    if self.words[i] == key {
                        return Some(i);
                    }
                    k += 1;
                }
                proof {
                    if self@.contains_key(w@) {
                        let i = self.position(w@);
                        assert(self.words[i]@ == w@);
                        let j = choose|j: int| 0 <= j < bucket@.len() && bucket@[j] == i as usize;
                        assert(self.words[bucket@[j] as int]@ != w@);
                    }
                }
                None
            },
        }
    }

    /// Sets the vector of `word`, replacing the one it had.
    pub fn insert(&mut self, word: String, v: V)
        requires
            old(self).wf(),
        ensures
            final(self).wf(),
            final(self)@ == old(self)@.insert(word@, v),
    {
        match self.find(word.as_str()) {
            Some(i) => {
                self.vectors.set(i, v);
                proof {
                    assert forall|j: int| 0 <= j < self.words.len() implies {
                        let h = word_hash(#[trigger] self.words[j]@);
                        self.index@.contains_key(h) && self.index@[h]@.contains(j as usize)
                    } by {
                        assert(old(self).words[j] == self.words[j]);
                    }
                    assert forall|w: Seq<char>| #[trigger]
                        self@.contains_key(w) <==> old(self)@.insert(word@, v).contains_key(w) by {
                        if old(self).has_word(w) {
                            let j = old(self).position(w);
                            assert(self.words[j]@ == w);
                        }
                        if w == word@ {
                            assert(self.words[i as int]@ == w);
                        }
                    }
                    assert forall|w: Seq<char>| #[trigger] self@.contains_key(w) implies self@[w]
                        == old(self)@.insert(word@, v)[w] by {
                        let j = self.position(w);
                        self.lemma_position(j);
                        old(self).lemma_position(j);
                    }
                    assert(self@ =~= old(self)@.insert(word@, v));
                }
            },
            None => {
                let h = hash_of(word.as_str());
                let n = self.words.len();
                let mut bucket = match self.index.remove(&h) {
                    Some(b) => b,
                    None => Vec::new(),
                };
                let ghost old_bucket = bucket@;
                bucket.push(n);
                self.index.insert(h, bucket);
                self.words.push(word);
                self.vectors.push(v);
                proof {
                    let o = old(self);
                    assert(old_bucket == if o.index@.contains_key(h) {
                        o.index@[h]@
                    } else {
                        Seq::<usize>::empty()
                    });
                    assert forall|a: int, b: int|
                        0 <= a < self.words.len() && 0 <= b < self.words.len()
                            && #[trigger] self.words[a]@ == #[trigger] self.words[b]@ implies a
                        == b by {
                        if a < n && b == n {
                            assert(o.words[a]@ == word@);
                        }
                        if b < n && a == n {
                            assert(o.words[b]@ == word@);
                        }
                    }
                    assert forall|j: int| 0 <= j < self.words.len() implies {
                        let g = word_hash(#[trigger] self.words[j]@);
                        self.index@.contains_key(g) && self.index@[g]@.contains(j as usize)
                    } by {
                        if j < n {
                            assert(o.words[j] == self.words[j]);
                            let g = word_hash(self.words[j]@);
                            if g == h {
                                let k = choose|k: int|
                                    0 <= k < o.index@[g]@.len() && o.index@[g]@[k] == j as usize;
                                assert(self.index@[g]@[k] == j as usize);
                            }
                        } else {
                            assert(self.words[j]@ == word@);
                            assert(self.index@[h]@[old_bucket.len() as int] == n);
                        }
                    }
                    assert forall|g: u64, k: int|
                        #![trigger self.index@[g]@[k]]
                        self.index@.contains_key(g) && 0 <= k < self.index@[g]@.len() implies {
                        let i = self.index@[g]@[k];
                        i < self.words.len() && word_hash(self.words[i as int]@) == g
                    } by {
                        if g == h {
                            if k < old_bucket.len() {
                                assert(o.index@[g]@[k] == self.index@[g]@[k]);
                            }
                        } else {
                            assert(o.index@[g]@[k] == self.index@[g]@[k]);
                        }
                    }
                    assert forall|w: Seq<char>| #[trigger]
                        self@.contains_key(w) <==> o@.insert(word@, v).contains_key(w) by {
                        if o.has_word(w) {
                            let j = o.position(w);
                            assert(self.words[j]@ == w);
                        }
                        if w == word@ {
                            assert(self.words[n as int]@ == w);
                        }
                        if self.has_word(w) {
                            let j = self.position(w);
                            if j < n {
                                assert(o.words[j]@ == w);
                            }
                        }
                    }
                    assert forall|w: Seq<char>| #[trigger] self@.contains_key(w) implies self@[w]
                        == o@.insert(word@, v)[w] by {
                        let j = self.position(w);
                        self.lemma_position(j);
                        if j < n {
                            o.lemma_position(j);
                        }
                    }
                    assert(self@ =~= o@.insert(word@, v));
                }
            },
        }
    }

    /// The same words, each with `f` applied to its vector.
    pub fn map_values<W, F: Fn(&V) -> W>(self, f: F) -> (r: VectorTable<W>)
        requires
            self.wf(),
            forall|v: &V| f.requires((v,)),
        ensures
            r.wf(),
            r@.dom() == self@.dom(),
            forall|w: Seq<char>| #[trigger]
                self@.contains_key(w) ==> f.ensures((&self@[w],), r@[w]),
    {
        let ghost old_self = self;
        let VectorTable { words, vectors, index } = self;
        let mut out: Vec<W> = Vec::new();
        let mut i: usize = 0;
        while i < vectors.len()
            invariant
                i <= vectors.len(),
                out.len() == i,
                forall|v: &V| f.requires((v,)),
                forall|j: int| 0 <= j < i ==> f.ensures((&vectors[j],), #[trigger] out[j]),
            decreases vectors.len() - i,
        {
            let x = f(&vectors[i]);
            out.push(x);
            i += 1;
        }
        let r = VectorTable { words, vectors: out, index };
        proof {
            assert forall|w: Seq<char>| #[trigger]
                r@.contains_key(w) <==> old_self@.contains_key(w) by {
                if old_self.has_word(w) {
                    let j = old_self.position(w);
                    assert(r.words[j]@ == w);
                }
                if r.has_word(w) {
                    let j = r.position(w);
                    assert(old_self.words[j]@ == w);
                }
            }
            assert(r@.dom() =~= old_self@.dom());
            assert forall|w: Seq<char>| #[trigger]
                old_self@.contains_key(w) implies f.ensures((&old_self@[w],), r@[w]) by {
                let j = old_self.position(w);
                old_self.lemma_position(j);
                r.lemma_position(j);
            }
        }
        r
    }

    /// The vector of `w`, if the table holds it.
    pub fn get(&self, w: &str) -> (r: Option<&V>)
        requires
            self.wf(),
        ensures
            match r {
                Some(v) => self@.contains_key(w@) && self@[w@] == *v,
                None => !self@.contains_key(w@),
            },
    {
        match self.find(w) {
            Some(i) => {
                proof {
                    self.lemma_position(i as int);
                }
                Some(&self.vectors[i])
            },
            None => None,
        }
    }

    /// Whether the table holds `w`.
    pub fn contains(&self, w: &str) -> (r: bool)
        requires
            self.wf(),
        ensures
            r == self@.contains_key(w@),
    {
        self.get(w).is_some()
    }

    /// The vectors of two words, when the table holds both.
    pub fn vector_pair(&self, w1: &str, w2: &str) -> (r: Option<(&V, &V)>)
        requires
            self.wf(),
        ensures
            match r {
                Some((a, b)) => self@.contains_key(w1@) && self@.contains_key(w2@) && *a
                    == self@[w1@] && *b == self@[w2@],
                None => !self@.contains_key(w1@) || !self@.contains_key(w2@),
            },
    {
        match (self.get(w1), self.get(w2)) {
            (Some(a), Some(b)) => Some((a, b)),
            _ => None,
        }
    }
}

} // verus!
