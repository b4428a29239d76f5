//! A Bloom filter over the dictionary: a fixed-length bit array with two
//! independent base hashes per word, from which the derived hash family
//! `g_i = i * (h1 + h2) mod L` is synthesized.
//!
//! The two base hashes come from `ahash` with per-filter random state, so
//! nothing can be promised about their values; everything downstream of the
//! hashes — bit placement, the append-only bit array, and membership tests —
//! is verified exactly at the hash-pair level. In particular, once a pair's
//! bits are set they are never cleared, which is the no-false-negatives
//! guarantee.

use vstd::prelude::*;

use crate::data::WordDict;

verus! {

#[verifier::external_type_specification]
#[verifier::external_body]
pub struct ExAHasher(ahash::AHasher);

/// Relies on ahash::RandomState::new and build_hasher: yields a hasher with
/// fresh random state. Nothing is promised of it.
#[verifier::external_body]
fn new_hasher() -> ahash::AHasher {
    <ahash::RandomState as std::hash::BuildHasher>::build_hasher(&ahash::RandomState::new())
}

/// Relies on ahash's Hasher impl (write, finish) over clones of the two
/// stored hashers. The two base hash values depend on the hashers' hidden
/// random state, so nothing is promised of them.
#[verifier::external_body]
fn hash_pair(h0: &ahash::AHasher, h1: &ahash::AHasher, value: &String) -> (u64, u64) {
    let mut hash0 = h0.clone();
    let mut hash1 = h1.clone();
    std::hash::Hasher::write(&mut hash0, value.as_bytes());
    std::hash::Hasher::write(&mut hash1, value.as_bytes());
    (std::hash::Hasher::finish(&hash0), std::hash::Hasher::finish(&hash1))
}

/// The bit index the `i`-th derived hash selects for base pair `(hk, hm)`:
/// `i * (hk + hm)` in wrapping 64-bit arithmetic, reduced modulo the array
/// length.
pub open spec fn derived_index(hk: u64, hm: u64, i: u64, len: u64) -> int
    recommends
        len >= 1,
{
    (vstd::wrapping::u64_specs::wrapping_mul(
        i,
        vstd::wrapping::u64_specs::wrapping_add(hk, hm),
    ) as int) % (len as int)
}

/// Whether every bit the pair `(hk, hm)` derives under `k` hashes is set.
pub open spec fn pair_in_filter(bits: Seq<bool>, hk: u64, hm: u64, k: u32, len: u64) -> bool {
    forall|i: u64| i < k ==> bits[#[trigger] derived_index(hk, hm, i, len)]
}

/// Whether bit `j` belongs to the derived hash family of some recorded pair:
/// a freshly built filter has no other bits set.
pub open spec fn bit_justified(pairs: Seq<(u64, u64)>, k: u32, len: u64, j: int) -> bool {
    exists|p: int, i: u64|
        0 <= p < pairs.len() && i < k && #[trigger] derived_index(pairs[p].0, pairs[p].1, i, len)
            == j
}

/// The Bloom filter: the bit array, the two base hashers, and the
/// analytically derived parameters (array length and hash count). The ghost
/// `inserted` field records the base-hash pairs of every word inserted
/// during build.
pub struct BloomFilter {
    array: Vec<bool>,
    hasher_a: ahash::AHasher,
    hasher_b: ahash::AHasher,
    pub optimal_len: u64,
    pub optimal_num_hashers: u32,
    inserted: Ghost<Seq<(u64, u64)>>,
}

impl BloomFilter {
    /// The bit array.
    pub closed spec fn bits(self) -> Seq<bool> {
        self.array@
    }

    /// The configured bit-array length.
    pub closed spec fn spec_len(self) -> u64 {
        self.optimal_len
    }

    /// The configured number of derived hashes per word.
    pub closed spec fn spec_k(self) -> u32 {
        self.optimal_num_hashers
    }

    /// The base-hash pairs of the words inserted during build.
    pub closed spec fn pairs(self) -> Seq<(u64, u64)> {
        self.inserted@
    }

    /// Well-formedness: the array has the configured (nonzero) length, and
    /// every inserted pair still passes the filter — bits are append-only,
    /// so build-time membership is never lost.
    pub closed spec fn wf(self) -> bool {
        &&& self.array@.len() == self.optimal_len as int
        &&& self.optimal_len >= 1
        &&& forall|p: int|
            0 <= p < self.inserted@.len() ==> pair_in_filter(
                self.array@,
                (#[trigger] self.inserted@[p]).0,
                self.inserted@[p].1,
                self.optimal_num_hashers,
                self.optimal_len,
            )
    }

    /// Sets every bit the pair derives: afterwards the pair passes the
    /// filter, and no already-set bit is cleared.
    #[verifier::loop_isolation(false)]
    fn insert_pair(&mut self, hk: u64, hm: u64)
        requires
            old(self).wf(),
        ensures
            final(self).wf(),
            final(self).bits().len() == old(self).bits().len(),
            final(self).spec_len() == old(self).spec_len(),
            final(self).spec_k() == old(self).spec_k(),
            forall|j: int|
                0 <= j < old(self).bits().len() && old(self).bits()[j] ==> final(self).bits()[j],
            forall|j: int|
                0 <= j < final(self).bits().len() && final(self).bits()[j] && !old(self).bits()[j]
                    ==> exists|i: u64|
                    i < final(self).spec_k() && #[trigger] derived_index(
                        hk,
                        hm,
                        i,
                        final(self).spec_len(),
                    ) == j,
            pair_in_filter(final(self).bits(), hk, hm, final(self).spec_k(), final(self).spec_len()),
            final(self).pairs() == old(self).pairs().push((hk, hm)),
    {
        let sum = hk.wrapping_add(hm);
        let k = self.optimal_num_hashers;
        let mut i: u64 = 0;
        while i < k as u64
            invariant
                self.optimal_len == old(self).optimal_len,
                self.optimal_num_hashers == old(self).optimal_num_hashers,
                self.hasher_a == old(self).hasher_a,
                self.hasher_b == old(self).hasher_b,
                self.inserted == old(self).inserted,
                k == self.optimal_num_hashers,
                sum == vstd::wrapping::u64_specs::wrapping_add(hk, hm),
                self.array@.len() == old(self).array@.len(),
                i <= k as u64,
                forall|j: int|
                    0 <= j < old(self).bits().len() && old(self).bits()[j]
                        ==> (#[trigger] self.array@[j]),
                forall|ii: u64|
                    ii < i ==> self.array@[#[trigger] derived_index(
                        hk,
                        hm,
                        ii,
                        self.optimal_len,
                    )],
                forall|j: int|
                    0 <= j < self.array@.len() && self.array@[j] && !old(self).array@[j]
                        ==> exists|ii: u64|
                        ii < i && #[trigger] derived_index(hk, hm, ii, self.optimal_len) == j,
            decreases k as u64 - i,
        {
            let alen = self.array.len();
            let hash_i = i.wrapping_mul(sum);
            let idx = (hash_i % self.optimal_len) as usize;
            proof {
                assert(alen == self.array@.len());
                assert(self.array@.len() <= usize::MAX);
                assert(idx as int == derived_index(hk, hm, i, self.optimal_len));
            }
            self.array[idx] = true;
            i += 1;
        }
        proof {
            // previously inserted pairs keep passing: their bits stay set
            assert forall|p: int| 0 <= p < self.inserted@.len() implies pair_in_filter(
                self.array@,
                (#[trigger] self.inserted@[p]).0,
                self.inserted@[p].1,
                self.optimal_num_hashers,
                self.optimal_len,
            ) by {
                assert(pair_in_filter(
                    old(self).array@,
                    self.inserted@[p].0,
                    self.inserted@[p].1,
                    self.optimal_num_hashers,
                    self.optimal_len,
                ));
            }
        }
        self.inserted = Ghost(self.inserted@.push((hk, hm)));
    }

    /// Reads back every bit the pair derives: true exactly when all are set.
    #[verifier::loop_isolation(false)]
    pub fn check_pair(&self, hk: u64, hm: u64) -> (r: bool)
        requires
            self.wf(),
        ensures
            r == pair_in_filter(self.bits(), hk, hm, self.spec_k(), self.spec_len()),
    {
        let sum = hk.wrapping_add(hm);
        let k = self.optimal_num_hashers;
        let mut i: u64 = 0;
        while i < k as u64
            invariant
                self.wf(),
                k == self.optimal_num_hashers,
                sum == vstd::wrapping::u64_specs::wrapping_add(hk, hm),
                i <= k as u64,
                forall|ii: u64|
                    ii < i ==> self.array@[#[trigger] derived_index(
                        hk,
                        hm,
                        ii,
                        self.optimal_len,
                    )],
            decreases k as u64 - i,
        {
            let alen = self.array.len();
            let hash_i = i.wrapping_mul(sum);
            let idx = (hash_i % self.optimal_len) as usize;
            proof {
                assert(alen == self.array@.len());
                assert(self.array@.len() <= usize::MAX);
                assert(idx as int == derived_index(hk, hm, i, self.optimal_len));
            }
            let passes_hash = self.array[idx];
            if !passes_hash {
                proof {
                    assert(!self.array@[derived_index(hk, hm, i, self.optimal_len)]);
                }
                return false;
            }
            i += 1;
        }
        true
    }

    /// Builds the filter from the dictionary with the given parameters: a
    /// bit array of length `optimal_len`, all clear, then every word's
    /// derived bits set in one pass. The parameters are computed by the
    /// caller from the dictionary cardinality and the accepted error rate;
    /// a zero-length array is refused by contract, as the derived indices
    /// are reduced modulo the length.
    #[verifier::loop_isolation(false)]
    pub fn build(word_list: &WordDict, optimal_len: u64, optimal_num_hashers: u32) -> (r:
        BloomFilter)
        requires
            1 <= optimal_len <= usize::MAX as u64,
        ensures
            r.wf(),
            r.spec_len() == optimal_len,
            r.spec_k() == optimal_num_hashers,
            r.pairs().len() == word_list@.len(),
            forall|p: int|
                0 <= p < r.pairs().len() ==> pair_in_filter(
                    r.bits(),
                    (#[trigger] r.pairs()[p]).0,
                    r.pairs()[p].1,
                    r.spec_k(),
                    r.spec_len(),
                ),
            forall|j: int|
                0 <= j < r.bits().len() && r.bits()[j] ==> bit_justified(
                    r.pairs(),
                    r.spec_k(),
                    r.spec_len(),
                    j,
                ),
    {
        let data = word_list.get_data();
        let array: Vec<bool> = vec![false; optimal_len as usize];
        let hasher_a = new_hasher();
        let hasher_b = new_hasher();
        let mut bloomfilter = BloomFilter {
            array,
            hasher_a,
            hasher_b,
            optimal_len,
            optimal_num_hashers,
            inserted: Ghost(Seq::empty()),
        };
        let n = data.len();
        let mut w: usize = 0;
        while w < n
            invariant
                n == data@.len(),
                w <= n,
                bloomfilter.wf(),
                bloomfilter.spec_len() == optimal_len,
                bloomfilter.spec_k() == optimal_num_hashers,
                bloomfilter.pairs().len() == w as int,
                forall|j: int|
                    0 <= j < bloomfilter.bits().len() && bloomfilter.bits()[j] ==> bit_justified(
                        bloomfilter.pairs(),
                        optimal_num_hashers,
                        optimal_len,
                        j,
                    ),
            decreases n - w,
        {
            let ghost pre = bloomfilter;
            let (hash_k, hash_m) = hash_pair(&bloomfilter.hasher_a, &bloomfilter.hasher_b, &data[w]);
            bloomfilter.insert_pair(hash_k, hash_m);
            proof {
                let ps = bloomfilter.pairs();
                assert forall|j: int|
                    0 <= j < bloomfilter.bits().len() && bloomfilter.bits()[j] implies
                    bit_justified(ps, optimal_num_hashers, optimal_len, j) by {
                    if pre.bits()[j] {
                        // an old witness still stands: pushing a pair keeps
                        // every earlier pair at its index
                        let (p, i) = choose|p: int, i: u64|
                            0 <= p < pre.pairs().len() && i < optimal_num_hashers
                                && #[trigger] derived_index(
                                pre.pairs()[p].0,
                                pre.pairs()[p].1,
                                i,
                                optimal_len,
                            ) == j;
                        assert(ps[p] == pre.pairs()[p]);
                        assert(derived_index(ps[p].0, ps[p].1, i, optimal_len) == j);
                    } else {
                        let i = choose|i: u64|
                            i < optimal_num_hashers && #[trigger] derived_index(
                                hash_k,
                                hash_m,
                                i,
                                optimal_len,
                            ) == j;
                        let p = ps.len() - 1;
                        assert(ps[p] == (hash_k, hash_m));
                        assert(derived_index(ps[p].0, ps[p].1, i, optimal_len) == j);
                    }
                }
            }
            w += 1;
        }
        bloomfilter
    }

    /// Membership test: recomputes the word's base hashes with the stored
    /// hashers and checks every derived bit. The hash values themselves are
    /// opaque (they depend on the filter's random state), so what this
    /// returns for a given word is pinned down by `check_pair`, which this
    /// function merely feeds.
    pub fn in_filter(&self, word: &String) -> (r: bool)
        requires
            self.wf(),
        ensures
            exists|hk: u64, hm: u64|
                r == pair_in_filter(self.bits(), hk, hm, self.spec_k(), self.spec_len()),
    {
        let (hash_k, hash_m) = hash_pair(&self.hasher_a, &self.hasher_b, word);
        let r = self.check_pair(hash_k, hash_m);
        proof {
            assert(r == pair_in_filter(
                self.bits(),
                hash_k,
                hash_m,
                self.spec_k(),
                self.spec_len(),
            ));
        }
        r
    }
}

/// No false negatives, at the bit level: bits are append-only, so a pair
/// that passed the filter before any number of further insertions still
/// passes after them.
pub proof fn lemma_no_false_negatives(
    bits1: Seq<bool>,
    bits2: Seq<bool>,
    hk: u64,
    hm: u64,
    k: u32,
    len: u64,
)
    requires
        bits1.len() == bits2.len(),
        forall|j: int| 0 <= j < bits1.len() && bits1[j] ==> bits2[j],
        len >= 1,
        bits1.len() == len as int,
        pair_in_filter(bits1, hk, hm, k, len),
    ensures
        pair_in_filter(bits2, hk, hm, k, len),
{
    assert forall|i: u64| i < k implies bits2[#[trigger] derived_index(hk, hm, i, len)] by {
        assert(bits1[derived_index(hk, hm, i, len)]);
    }
}

} // verus!
