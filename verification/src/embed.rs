//! Embedding providers: text to fixed-dimension vectors.
//!
//! The engine accepts any provider implementing [`EmbeddingProvider`]; the
//! contract extracts that every vector a provider returns has the provider's
//! fixed dimension.  Components are fixed-point integers.
//! [`MockEmbeddings`] is the deterministic in-process variant: it never
//! fails, and its vector is a specified hash-derived function of the text,
//! useful for tests and offline runs.

use vstd::prelude::*;

use crate::text::chars_vec;

verus! {

/// A provider mapping text to a fixed-dimension vector.  Fallible: remote
/// providers are rate-limited and may time out; the error carries the
/// reason.
pub trait EmbeddingProvider: Sized {
    /// The dimension every vector from this provider has.
    spec fn dim(&self) -> nat;

    /// Whether this provider can never fail.  A remote provider is not
    /// total; the in-process mock is.
    spec fn total_provider(&self) -> bool;

    /// Embed one text.
    fn embed(&self, text: &str) -> (r: Result<Vec<i32>, String>)
        ensures
            r matches Ok(v) ==> v@.len() == self.dim(),
            self.total_provider() ==> r is Ok,
    ;
}

/// Deterministic hash-derived embeddings: the same text always maps to the
/// same vector.
pub struct MockEmbeddings {
    /// The dimension of every produced vector.
    pub dimension: usize,
}

impl MockEmbeddings {
    /// A mock provider of the given dimension.
    pub fn new(dimension: usize) -> (r: Self)
        ensures
            r.dimension == dimension,
    {
        MockEmbeddings { dimension }
    }
}

/// A large prime modulus keeping the rolling hash inside `u64`.
pub const HASH_MODULUS: u64 = 0xffffffffffffffc5;

/// The rolling hash of the characters from position `i` on, starting from
/// state `h`.
pub open spec fn hash_fold(cs: Seq<char>, i: int, h: int) -> int
    decreases cs.len() - i,
{
    if i < 0 || i >= cs.len() {
        h
    } else {
        hash_fold(cs, i + 1, (h * 31 + (cs[i] as u64)) % (HASH_MODULUS as int))
    }
}

/// The hash of a text, from the fixed seed state.
pub open spec fn mock_hash(cs: Seq<char>) -> int {
    hash_fold(cs, 0, 1469598103934665603)
}

/// Component `k` of the mock embedding for a text with hash `h`: a value in
/// `-1000000..=1000000` derived from the hash and the position.
pub open spec fn mock_component(h: int, k: int) -> int {
    (h + k * 2654435761) % 2000001 - 1000000
}

fn hash_chars(cs: &Vec<char>) -> (r: u64)
    ensures
        r < HASH_MODULUS,
        r as int == mock_hash(cs@),
{
    let n = cs.len();
    let mut h: u64 = 1469598103934665603;
    let mut i: usize = 0;
    while i < n
        invariant
            i <= n,
            n == cs@.len(),
            h < HASH_MODULUS,
            mock_hash(cs@) == hash_fold(cs@, i as int, h as int),
        decreases n - i,
    {
        let c = cs[i] as u64;
        let wide = (h as u128) * 31 + (c as u128);
        let h2 = (wide % (HASH_MODULUS as u128)) as u64;
        proof {
            assert(c as int == cs@[i as int] as u64);
            assert(wide as int == h * 31 + c);
            assert(h2 as int == (h * 31 + (cs@[i as int] as u64)) % (HASH_MODULUS as int));
        }
        h = h2;
        i = i + 1;
    }
    h
}

impl EmbeddingProvider for MockEmbeddings {
    open spec fn dim(&self) -> nat {
        self.dimension as nat
    }

    open spec fn total_provider(&self) -> bool {
        true
    }

    fn embed(&self, text: &str) -> (r: Result<Vec<i32>, String>)
        ensures
            r matches Ok(v) ==> v@.len() == self.dim(),
            r is Ok,
            r matches Ok(v) ==> forall|k: int|
                0 <= k < v@.len() ==> (#[trigger] v@[k]) as int == mock_component(
                    mock_hash(text@),
                    k,
                ),
    {
        let cs = chars_vec(text);
        let h = hash_chars(&cs);
        let mut v: Vec<i32> = Vec::new();
        let mut k: usize = 0;
        while k < self.dimension
            invariant
                k <= self.dimension,
                v@.len() == k,
                h < HASH_MODULUS,
                h as int == mock_hash(text@),
                forall|j: int|
                    0 <= j < k ==> (#[trigger] v@[j]) as int == mock_component(
                        mock_hash(text@),
                        j,
                    ),
            decreases self.dimension - k,
        {
            let x = ((h as u128) + (k as u128) * 2654435761) % 2000001;
            let comp = (x as i32) - 1000000;
            v.push(comp);
            k = k + 1;
        }
        Ok(v)
    }
}

} // verus!
