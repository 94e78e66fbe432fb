//! A one-to-one map between byte spans and token ids, hashed on the span.

use std::collections::HashMap;
use vstd::prelude::*;

verus! {

broadcast use vstd::std_specs::hash::group_hash_axioms;

/// The hash of a span: FNV-1a over its bytes, in 64 bits.
pub open spec fn hash_bytes(s: Seq<u8>) -> u64
    decreases s.len(),
{
    if s.len() == 0 {
        0xcbf2_9ce4_8422_2325u64
    } else {
        (hash_bytes(s.drop_last()) ^ (s.last() as u64)).wrapping_mul(0x0000_0100_0000_01b3u64)
    }
}

/// Computes the hash of a span.
pub fn hash_span(span: &[u8]) -> (h: u64)
    ensures
        h == hash_bytes(span@),
{
    let mut h: u64 = 0xcbf2_9ce4_8422_2325u64;
    let mut i: usize = 0;
    while i < span.len()
        invariant
            i <= span.len(),
            h == hash_bytes(span@.take(i as int)),
        decreases span.len() - i,
    {
        proof {
            assert(span@.take(i + 1).drop_last() =~= span@.take(i as int));
        }
        h = (h ^ (span[i] as u64)).wrapping_mul(0x0000_0100_0000_01b3u64);
        i += 1;
    }
    proof {
        assert(span@.take(i as int) =~= span@);
    }
    h
}

/// Whether two spans hold the same bytes.
pub fn span_eq(a: &[u8], b: &[u8]) -> (r: bool)
    ensures
        r == (a@ == b@),
{
    if a.len() != b.len() {
        return false;
    }
    let mut i: usize = 0;
    while i < a.len()
        invariant
            i <= a.len(),
            a.len() == b.len(),
            forall|k: int| 0 <= k < i ==> a@[k] == b@[k],
        decreases a.len() - i,
    {
        if a[i] != b[i] {
            return false;
        }
        i += 1;
    }
    proof {
        assert(a@ =~= b@);
    }
    true
}

/// A copy of a span in a vector of its own.
pub fn span_to_vec(span: &[u8]) -> (v: Vec<u8>)
    ensures
        v@ == span@,
{
    let mut v: Vec<u8> = Vec::with_capacity(span.len());
    let mut i: usize = 0;
    while i < span.len()
        invariant
            i <= span.len(),
            v@ == span@.take(i as int),
        decreases span.len() - i,
    {
        v.push(span[i]);
        proof {
            assert(span@.take(i + 1) =~= span@.take(i as int).push(span@[i as int]));
        }
        i += 1;
    }
    proof {
        assert(span@.take(i as int) =~= span@);
    }
    v
}

/// A one-to-one map between spans and tokens.
///
/// The spans are kept by token; an index from a span's hash to the tokens
/// whose spans have that hash finds a span's token in constant time on
/// average.
pub struct SpanTokenMap {
    spans: HashMap<u32, Vec<u8>>,
    index: HashMap<u64, Vec<u32>>,
}

impl SpanTokenMap {
    /// The map from each token to its span.
    pub closed spec fn spans(&self) -> Map<u32, Seq<u8>> {
        Map::new(|t: u32| self.spans@.contains_key(t), |t: u32| self.spans@[t]@)
    }

    /// Some token has the span `span`.
    pub open spec fn has_span(&self, span: Seq<u8>) -> bool {
        exists|t: u32| #[trigger] self.spans().contains_key(t) && self.spans()[t] == span
    }

    /// The token of `span`, where it has one.
    pub open spec fn token_of(&self, span: Seq<u8>) -> Option<u32> {
        if self.has_span(span) {
            Some(choose|t: u32| #[trigger] self.spans().contains_key(t) && self.spans()[t] == span)
        } else {
            None
        }
    }

    /// No two tokens share a span.
    pub open spec fn one_to_one(&self) -> bool {
        forall|t1: u32, t2: u32|
            #![trigger self.spans().contains_key(t1), self.spans().contains_key(t2)]
            self.spans().contains_key(t1) && self.spans().contains_key(t2) && self.spans()[t1]
                == self.spans()[t2] ==> t1 == t2
    }

    /// Every token is listed under the hash of its span.
    pub closed spec fn indexed(&self) -> bool {
        forall|t: u32| #[trigger]
            self.spans@.contains_key(t) ==> {
                let h = hash_bytes(self.spans@[t]@);
                self.index@.contains_key(h) && self.index@[h]@.contains(t)
            }
    }

    /// The map is well formed.
    pub open spec fn wf(&self) -> bool {
        self.one_to_one() && self.indexed()
    }

    /// In a well-formed map, a token's span leads back to the token.
    pub proof fn lemma_token_of_span(&self, t: u32)
        requires
            self.wf(),
            self.spans().contains_key(t),
        ensures
            self.token_of(self.spans()[t]) == Some(t),
    {
    }

    /// An empty map.
    pub fn new() -> (m: Self)
        ensures
            m.wf(),
            m.spans() == Map::<u32, Seq<u8>>::empty(),
    {
        let m = SpanTokenMap { spans: HashMap::new(), index: HashMap::new() };
        proof {
            assert(m.spans() =~= Map::<u32, Seq<u8>>::empty());
        }
        m
    }

    /// The span of `token`, if the map holds the token.
    pub fn lookup_span(&self, token: u32) -> (r: Option<&Vec<u8>>)
        ensures
            match r {
                Some(v) => self.spans().contains_key(token) && v@ == self.spans()[token],
                None => !self.spans().contains_key(token),
            },
    {
        self.spans.get(&token)
    }

    /// The token of `span`, if the map holds the span.
    pub fn lookup_token(&self, span: &[u8]) -> (r: Option<u32>)
        requires
            self.wf(),
        ensures
            r == self.token_of(span@),
            r matches Some(t) ==> self.spans().contains_key(t) && self.spans()[t] == span@,
    {
        let h = hash_span(span);
        match self.index.get(&h) {
            None => {
                proof {
                    if self.has_span(span@) {
                        let t = choose|t: u32| #[trigger]
                            self.spans().contains_key(t) && self.spans()[t] == span@;
                        assert(self.spans@.contains_key(t));
                    }
                }
                None
            },
            Some(bucket) => {
                let mut i: usize = 0;
                while i < bucket.len()
                    invariant
                        i <= bucket.len(),
                        self.wf(),
                        forall|k: int|
                            0 <= k < i ==> !(#[trigger] self.spans().contains_key(bucket@[k])
                                && self.spans()[bucket@[k]] == span@),
                    decreases bucket.len() - i,
                {
                    let t = bucket[i];
                    match self.spans.get(&t) {
                        Some(v) => {
                            if span_eq(v.as_slice(), span) {
                                proof {
                                    assert(self.spans().contains_key(t));
                                    self.lemma_token_of_span(t);
                                }
                                return Some(t);
                            }
                        },
                        None => {},
                    }
                    i += 1;
                }
                proof {
                    if self.has_span(span@) {
                        let t = choose|t: u32| #[trigger]
                            self.spans().contains_key(t) && self.spans()[t] == span@;
                        assert(self.spans@.contains_key(t));
                        let k = choose|k: int| 0 <= k < bucket@.len() && bucket@[k] == t;
                        assert(self.spans().contains_key(bucket@[k]));
                    }
                }
                None
            },
        }
    }

    /// Adds the pair of `span` and `token`, unless the map holds either.
    ///
    /// Returns whether the pair was added.
    pub fn insert(&mut self, span: &[u8], token: u32) -> (added: bool)
        requires
            old(self).wf(),
        ensures
            final(self).wf(),
            added == (!old(self).spans().contains_key(token) && !old(self).has_span(span@)),
            added ==> final(self).spans() == old(self).spans().insert(token, span@),
            !added ==> final(self).spans() == old(self).spans(),
    {
        if self.spans.contains_key(&token) {
            assert(self.spans().contains_key(token));
            return false;
        }
        if self.lookup_token(span).is_some() {
            return false;
        }
        let h = hash_span(span);
        let ghost before = *self;
        let mut bucket = match self.index.remove(&h) {
            Some(b) => b,
            None => Vec::new(),
        };
        let ghost old_bucket = bucket@;
        bucket.push(token);
        self.index.insert(h, bucket);
        self.spans.insert(token, span_to_vec(span));
        proof {
            assert(self.spans() =~= before.spans().insert(token, span@));
            assert forall|t: u32| #[trigger] self.spans@.contains_key(t) implies ({
                let g = hash_bytes(self.spans@[t]@);
                self.index@.contains_key(g) && self.index@[g]@.contains(t)
            }) by {
                let g = hash_bytes(self.spans@[t]@);
                if t == token {
                    assert(self.index@[h]@.last() == token);
                } else {
                    assert(before.spans@.contains_key(t));
                    if g == h {
                        let k = choose|k: int| 0 <= k < old_bucket.len() && old_bucket[k] == t;
                        assert(self.index@[h]@[k] == t);
                    }
                }
            }
            assert forall|t1: u32, t2: u32|
                #![trigger self.spans().contains_key(t1), self.spans().contains_key(t2)]
                self.spans().contains_key(t1) && self.spans().contains_key(t2) && self.spans()[t1]
                    == self.spans()[t2] implies t1 == t2 by {
                if t1 == token && t2 != token {
                    assert(before.spans().contains_key(t2));
                }
                if t2 == token && t1 != token {
                    assert(before.spans().contains_key(t1));
                }
                if t1 != token && t2 != token {
                    assert(before.spans().contains_key(t1));
                    assert(before.spans().contains_key(t2));
                }
            }
        }
        true
    }
}

} // verus!
