//! The spell-check pipeline: for each document word, consult the Bloom
//! filter; a hit means the word is treated as correctly spelled and nothing
//! is emitted; a miss means the word is definitely absent from the indexed
//! dictionary, so the BK-tree is queried for its nearest neighbor and a
//! spelling-error record is emitted.
//!
//! Both structures are built once and read-only here, so the per-word work
//! is independent across words; a caller may fan the words out over worker
//! threads and merge the records in any order.

use vstd::prelude::*;

use crate::bktree::{BKTreeWords, Metric};
use crate::bloomfilter::BloomFilter;
use crate::data::{SpellingError, Text};

verus! {

/// What `find_correction` promises of a suggestion for query word `w`:
/// `None` only for an empty tree; otherwise either the empty string (every
/// indexed word sits at or beyond the search bound) or an indexed word
/// strictly inside the bound that minimizes the distance to `w` over the
/// whole dictionary.
pub open spec fn suggestion_ok<M: Metric>(
    t: BKTreeWords<M>,
    w: Seq<char>,
    sug: Option<Seq<char>>,
) -> bool {
    match sug {
        None => t.words().len() == 0,
        Some(s) => t.words().len() > 0 && ((s == Seq::<char>::empty() && (forall|j: int|
            0 <= j < t.words().len() ==> M::d(#[trigger] t.words()[j], w) >= t.spec_dist_max()
                as int)) || (exists|k: int|
            0 <= k < t.words().len() && (#[trigger] t.words()[k]) == s && M::d(t.words()[k], w)
                < t.spec_dist_max() as int && (forall|j: int|
                0 <= j < t.words().len() ==> M::d(t.words()[k], w) <= M::d(
                    #[trigger] t.words()[j],
                    w,
                )))),
    }
}

/// Repeated queries of an unmodified tree are idempotent up to ties: two
/// results that both meet the search contract for the same query word agree
/// on whether any suggestion exists; any two suggested indexed words lie at
/// the same distance from the query; and if one result is the pure fallback
/// (the empty string while no indexed word is empty), so is the other.
/// Which word of an equidistant tie comes back is the one point the design
/// leaves unspecified.
pub proof fn lemma_idempotent_up_to_ties<M: Metric>(
    t: BKTreeWords<M>,
    w: Seq<char>,
    sug1: Option<Seq<char>>,
    sug2: Option<Seq<char>>,
)
    requires
        suggestion_ok::<M>(t, w, sug1),
        suggestion_ok::<M>(t, w, sug2),
    ensures
        (sug1 matches None) <==> (sug2 matches None),
        (match (sug1, sug2) {
            (Some(s1), Some(s2)) => {
                &&& forall|k1: int, k2: int|
                    0 <= k1 < t.words().len() && 0 <= k2 < t.words().len() && (#[trigger] t.words()[k1])
                        == s1 && (#[trigger] t.words()[k2]) == s2 ==> M::d(t.words()[k1], w)
                        == M::d(t.words()[k2], w)
                &&& (s1 == Seq::<char>::empty() && !t.words().contains(Seq::<char>::empty())
                    ==> s2 == Seq::<char>::empty())
                &&& (s2 == Seq::<char>::empty() && !t.words().contains(Seq::<char>::empty())
                    ==> s1 == Seq::<char>::empty())
            },
            _ => true,
        }),
{
    let dm = t.spec_dist_max() as int;
    match (sug1, sug2) {
        (Some(s1), Some(s2)) => {
            let far = forall|j: int|
                0 <= j < t.words().len() ==> M::d(#[trigger] t.words()[j], w) >= dm;
            assert forall|k1: int, k2: int|
                0 <= k1 < t.words().len() && 0 <= k2 < t.words().len() && (#[trigger] t.words()[k1])
                    == s1 && (#[trigger] t.words()[k2]) == s2 implies M::d(t.words()[k1], w)
                == M::d(t.words()[k2], w) by {
                if far {
                    // both suggestions then fall back to the empty string,
                    // so the indexed words they match are one and the same
                    assert(M::d(t.words()[k2], w) >= dm);
                    assert(s2 == Seq::<char>::empty());
                    assert(s1 == s2);
                } else {
                    let ka = choose|ka: int|
                        0 <= ka < t.words().len() && (#[trigger] t.words()[ka]) == s1 && M::d(
                            t.words()[ka],
                            w,
                        ) < dm && (forall|j: int|
                            0 <= j < t.words().len() ==> M::d(t.words()[ka], w) <= M::d(
                                #[trigger] t.words()[j],
                                w,
                            ));
                    assert(M::d(t.words()[ka], w) < dm);
                    let kb = choose|kb: int|
                        0 <= kb < t.words().len() && (#[trigger] t.words()[kb]) == s2 && M::d(
                            t.words()[kb],
                            w,
                        ) < dm && (forall|j: int|
                            0 <= j < t.words().len() ==> M::d(t.words()[kb], w) <= M::d(
                                #[trigger] t.words()[j],
                                w,
                            ));
                    assert(M::d(t.words()[ka], w) <= M::d(t.words()[kb], w));
                    assert(M::d(t.words()[kb], w) <= M::d(t.words()[ka], w));
                    assert(M::d(t.words()[k1], w) == M::d(t.words()[ka], w));
                    assert(M::d(t.words()[k2], w) == M::d(t.words()[kb], w));
                }
            }
            if s1 == Seq::<char>::empty() && !t.words().contains(Seq::<char>::empty()) {
                // s1 cannot be an indexed minimizer, so every word is at or
                // beyond the bound, which forces the same fallback for s2
                assert(far);
                if s2 != Seq::<char>::empty() {
                    let kb = choose|kb: int|
                        0 <= kb < t.words().len() && (#[trigger] t.words()[kb]) == s2 && M::d(
                            t.words()[kb],
                            w,
                        ) < dm;
                    assert(M::d(t.words()[kb], w) >= dm);
                    assert(false);
                }
            }
            if s2 == Seq::<char>::empty() && !t.words().contains(Seq::<char>::empty()) {
                assert(far);
                if s1 != Seq::<char>::empty() {
                    let ka = choose|ka: int|
                        0 <= ka < t.words().len() && (#[trigger] t.words()[ka]) == s1 && M::d(
                            t.words()[ka],
                            w,
                        ) < dm;
                    assert(M::d(t.words()[ka], w) >= dm);
                    assert(false);
                }
            }
        },
        _ => {},
    }
}

/// Whether the records correspond one-to-one, in document order, to a
/// subset of the document-word occurrences picked out by `idx`: one record
/// per chosen occurrence, no duplicates, no reordering.
pub open spec fn records_match<'a>(
    records: Seq<SpellingError<'a>>,
    text: Seq<Seq<char>>,
    idx: Seq<int>,
) -> bool {
    &&& idx.len() == records.len()
    &&& forall|i: int| 0 <= i < idx.len() ==> 0 <= #[trigger] idx[i] < text.len()
    &&& forall|i: int| 0 <= i < idx.len() - 1 ==> #[trigger] idx[i] < idx[i + 1]
    &&& forall|i: int| 0 <= i < records.len() ==> (#[trigger] records[i].word()) == text[idx[i]]
}

/// The pipeline: the built tree and filter, shared read-only.
pub struct SpellChecker<M: Metric> {
    bk_tree: BKTreeWords<M>,
    bloom_filter: BloomFilter,
}

impl<M: Metric> SpellChecker<M> {
    /// Both structures are well-formed, as their builders left them.
    pub closed spec fn wf(self) -> bool {
        &&& self.bk_tree.wf()
        &&& self.bloom_filter.wf()
    }

    /// The tree queried for suggestions.
    pub closed spec fn tree(self) -> BKTreeWords<M> {
        self.bk_tree
    }

    pub fn new(bk_tree: BKTreeWords<M>, bloom_filter: BloomFilter) -> (r: Self)
        requires
            bk_tree.wf(),
            bloom_filter.wf(),
        ensures
            r.wf(),
            r.tree() == bk_tree,
    {
        SpellChecker { bk_tree, bloom_filter }
    }

    /// One word's treatment, given the filter's answer: a hit means the
    /// word is treated as correctly spelled and nothing is emitted; a miss
    /// means the tree is queried and one record for the word comes back,
    /// with a suggestion that meets the search contract.
    pub fn record_for<'a>(&self, word: &'a String, in_dictionary_filter: bool) -> (r: Option<
        SpellingError<'a>,
    >)
        requires
            self.wf(),
        ensures
            (r matches None) == in_dictionary_filter,
            r matches Some(e) ==> e.word() == word@ && suggestion_ok(
                self.tree(),
                e.word(),
                e.correction(),
            ),
    {
        if in_dictionary_filter {
            None
        } else {
            let sugg = self.bk_tree.find_correction(word.as_str());
            Some(SpellingError::new(word.as_str(), sugg))
        }
    }

    /// Checks every document word in order: words the filter accepts are
    /// treated as correct and skipped; the records correspond one-to-one,
    /// in document order, to a subset of the document-word occurrences
    /// (which subset depends on the filter's hash state), and every record
    /// carries a suggestion that meets the tree's search contract.
    #[verifier::loop_isolation(false)]
    pub fn spell_check_text<'a>(&self, text: &'a Text) -> (r: Vec<SpellingError<'a>>)
        requires
            self.wf(),
        ensures
            r@.len() <= text@.len(),
            forall|i: int| 0 <= i < r@.len() ==> text@.contains(#[trigger] r@[i].word()),
            exists|idx: Seq<int>| #[trigger] records_match(r@, text@, idx),
            forall|i: int|
                0 <= i < r@.len() ==> suggestion_ok(
                    self.tree(),
                    r@[i].word(),
                    (#[trigger] r@[i]).correction(),
                ),
    {
        let words = text.get_text();
        let mut errors: Vec<SpellingError<'a>> = Vec::new();
        let ghost mut idx: Seq<int> = Seq::empty();
        let n = words.len();
        let mut i: usize = 0;
        while i < n
            invariant
                n == words@.len(),
                words@.map_values(|s: String| s@) == text@,
                i <= n,
                errors@.len() <= i,
                records_match(errors@, text@, idx),
                forall|e: int| 0 <= e < idx.len() ==> #[trigger] idx[e] < i,
                forall|e: int|
                    0 <= e < errors@.len() ==> text@.contains(#[trigger] errors@[e].word()),
                forall|e: int|
                    0 <= e < errors@.len() ==> suggestion_ok(
                        self.tree(),
                        errors@[e].word(),
                        (#[trigger] errors@[e]).correction(),
                    ),
            decreases n - i,
        {
            let word = &words[i];
            let answer = self.bloom_filter.in_filter(word);
            match self.record_for(word, answer) {
                Some(record) => {
                    proof {
                        assert(text@[i as int] == words@[i as int]@);
                        idx = idx.push(i as int);
                    }
                    errors.push(record);
                },
                None => {},
            }
            i += 1;
        }
        proof {
            assert(records_match(errors@, text@, idx));
        }
        errors
    }
}

} // verus!
