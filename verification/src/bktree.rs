//! A BK-tree: a metric index over the dictionary, keyed by an injected
//! edit-distance metric.
//!
//! The tree is a rooted, unordered-sibling, arbitrary-arity tree held in a
//! flat node arena: nodes reference their parent and children by arena index,
//! never by owning pointer. Every non-root node's `edge_dist` is the metric
//! distance from its word to its parent's word, children of one node carry
//! pairwise-distinct edge distances, and no stored word repeats — a word at
//! distance zero from an indexed word is discarded during insertion.

use vstd::prelude::*;
use vstd::seq_lib::*;

use crate::data::{BuildError, WordDict};
use crate::med::{lemma_lev_sym, lemma_lev_triangle, lemma_lev_zero_iff, levenshtien_distance,
    sat_dist};

verus! {

/// The distance strategy a tree is built with. The tree's invariants and
/// search contracts are all stated over the strategy's mathematical
/// distance `d`, so alternate metrics can be plugged in without touching
/// traversal or pruning code.
pub trait Metric: Sized {
    /// The mathematical distance between two words.
    spec fn d(a: Seq<char>, b: Seq<char>) -> int;

    /// Distances fit the stored (signed 8-bit) range.
    proof fn lemma_range(a: Seq<char>, b: Seq<char>)
        ensures
            0 <= Self::d(a, b) <= i8::MAX as int,
    ;

    /// Distance zero holds exactly between equal words.
    proof fn lemma_zero(a: Seq<char>, b: Seq<char>)
        ensures
            Self::d(a, b) == 0 <==> a == b,
    ;

    /// The distance is symmetric.
    proof fn lemma_sym(a: Seq<char>, b: Seq<char>)
        ensures
            Self::d(a, b) == Self::d(b, a),
    ;

    /// The triangle inequality, on which the search pruning rests.
    proof fn lemma_triangle(a: Seq<char>, b: Seq<char>, c: Seq<char>)
        ensures
            Self::d(a, c) <= Self::d(a, b) + Self::d(b, c),
    ;

    /// The executable metric, exact with respect to `d`.
    fn dist(&self, a: &str, b: &str) -> (r: i8)
        ensures
            r as int == Self::d(a@, b@),
    ;
}

/// The default metric: code-point Levenshtein distance, saturated at
/// `i8::MAX`.
pub struct LevMetric;

impl Metric for LevMetric {
    open spec fn d(a: Seq<char>, b: Seq<char>) -> int {
        sat_dist(a, b)
    }

    proof fn lemma_range(a: Seq<char>, b: Seq<char>) {
    }

    proof fn lemma_zero(a: Seq<char>, b: Seq<char>) {
        lemma_lev_zero_iff(a, b);
    }

    proof fn lemma_sym(a: Seq<char>, b: Seq<char>) {
        lemma_lev_sym(a, b);
    }

    proof fn lemma_triangle(a: Seq<char>, b: Seq<char>, c: Seq<char>) {
        lemma_lev_triangle(a, b, c);
    }

    fn dist(&self, a: &str, b: &str) -> (r: i8) {
        levenshtien_distance(a, b)
    }
}

/// One arena entry: a dictionary word, the metric distance to the parent's
/// word (zero and unused for the root), the parent's arena index (itself for
/// the root), and the indices of the children.
pub struct Node {
    pub word: String,
    pub edge_dist: i8,
    pub parent: usize,
    pub children: Vec<usize>,
}

/// The stored words, by arena index.
pub open spec fn words_of(ns: Seq<Node>) -> Seq<Seq<char>> {
    ns.map_values(|n: Node| n.word@)
}

/// The ancestors of arena entry `k`, `k` itself and the root included.
/// Parents sit strictly below their children in the arena, so the chain
/// terminates; the guards only keep the definition total.
pub open spec fn anc(ns: Seq<Node>, k: int) -> Set<int>
    decreases k,
{
    if k <= 0 {
        set![0int]
    } else {
        let p = ns[k].parent as int;
        if 0 <= p < k {
            anc(ns, p).insert(k)
        } else {
            set![0int, k]
        }
    }
}

/// The child of ancestor `a` that lies on the path from the root down to `k`.
pub open spec fn pc(ns: Seq<Node>, k: int, a: int) -> int
    decreases k,
{
    if k <= 0 {
        0
    } else {
        let p = ns[k].parent as int;
        if p == a {
            k
        } else if 0 <= p < k {
            pc(ns, p, a)
        } else {
            0
        }
    }
}

/// Ancestor sets contain the root and the entry itself, and only indices
/// between the two.
proof fn lemma_anc_basics(ns: Seq<Node>, k: int)
    requires
        0 <= k,
    ensures
        anc(ns, k).contains(0),
        anc(ns, k).contains(k),
        forall|a: int| anc(ns, k).contains(a) ==> 0 <= a <= k,
    decreases k,
{
    if k > 0 {
        let p = ns[k].parent as int;
        if 0 <= p < k {
            lemma_anc_basics(ns, p);
        }
    }
}

/// For a proper ancestor `a` of `k`, the path child `pc(ns, k, a)` really is
/// a child of `a`, lies on `k`'s ancestor chain, and sits strictly between
/// `a` and `k`.
proof fn lemma_pc(ns: Seq<Node>, k: int, a: int)
    requires
        1 <= k,
        forall|j: int| 1 <= j <= k ==> (#[trigger] ns[j].parent) < j,
        anc(ns, k).contains(a),
        a != k,
    ensures
        a < pc(ns, k, a) <= k,
        ns[pc(ns, k, a)].parent == a,
        anc(ns, k).contains(pc(ns, k, a)),
    decreases k,
{
    let p = ns[k].parent as int;
    lemma_anc_basics(ns, k);
    if p == a {
    } else {
        if p >= 1 {
            lemma_anc_basics(ns, p);
            lemma_pc(ns, p, a);
        } else {
            assert(anc(ns, k) == anc(ns, 0).insert(k));
            lemma_anc_basics(ns, 0);
            assert(false);
        }
    }
}

/// Ancestry is transitive: an ancestor's ancestors are ancestors.
proof fn lemma_anc_trans(ns: Seq<Node>, k: int, c: int)
    requires
        0 <= k,
        anc(ns, k).contains(c),
    ensures
        anc(ns, c).subset_of(anc(ns, k)),
    decreases k,
{
    if k <= 0 {
        assert(c == 0);
    } else {
        let p = ns[k].parent as int;
        if 0 <= p < k {
            if c == k {
            } else {
                lemma_anc_trans(ns, p, c);
            }
        } else {
            if c == k {
            } else {
                assert(c == 0);
            }
        }
    }
}

/// An ancestor chain passes through at most one child of any node: the
/// member of `anc(ns, k)` whose parent is `a` is exactly the path child
/// `pc(ns, k, a)`.
proof fn lemma_pc_unique(ns: Seq<Node>, k: int, c: int)
    requires
        0 <= k,
        forall|j: int| 1 <= j <= k ==> (#[trigger] ns[j].parent) < j,
        anc(ns, k).contains(c),
        1 <= c,
    ensures
        pc(ns, k, ns[c].parent as int) == c,
    decreases k,
{
    lemma_anc_basics(ns, k);
    if k <= 0 {
        assert(false);
    } else {
        let p = ns[k].parent as int;
        if c == k {
        } else {
            assert(0 <= p < k);
            assert(anc(ns, p).contains(c));
            lemma_anc_basics(ns, p);
            if p == ns[c].parent as int {
                // then c would be an ancestor of p with a parent above it
                assert(c <= p);
                assert((ns[c].parent as int) < c);
                assert(false);
            }
            lemma_pc_unique(ns, p, c);
        }
    }
}

/// `anc` reads only the parent links at or below `k`, so it is unchanged by
/// any edit elsewhere in the arena.
proof fn lemma_anc_frame(ns1: Seq<Node>, ns2: Seq<Node>, k: int)
    requires
        0 <= k,
        forall|j: int| 1 <= j <= k ==> ns2[j].parent == (#[trigger] ns1[j].parent),
    ensures
        anc(ns2, k) == anc(ns1, k),
    decreases k,
{
    if k > 0 {
        let p = ns1[k].parent as int;
        if 0 <= p < k {
            lemma_anc_frame(ns1, ns2, p);
        }
    }
}

/// `pc` reads only the parent links at or below `k`, like `anc`.
proof fn lemma_pc_frame(ns1: Seq<Node>, ns2: Seq<Node>, k: int, a: int)
    requires
        0 <= k,
        forall|j: int| 1 <= j <= k ==> ns2[j].parent == (#[trigger] ns1[j].parent),
    ensures
        pc(ns2, k, a) == pc(ns1, k, a),
    decreases k,
{
    if k > 0 {
        let p = ns1[k].parent as int;
        if 0 <= p < k && p != a {
            lemma_pc_frame(ns1, ns2, p, a);
        }
    }
}

/// Pushing a new element keeps the set of stored elements, plus the new one.
proof fn lemma_push_to_set<A>(s: Seq<A>, x: A)
    ensures
        s.push(x).to_set() == s.to_set().insert(x),
{
    assert forall|y: A| s.push(x).to_set().contains(y) implies s.to_set().insert(x).contains(
        y,
    ) by {
        let i = choose|i: int| 0 <= i < s.push(x).len() && s.push(x)[i] == y;
        if i < s.len() {
            assert(s[i] == y);
        }
    }
    assert forall|y: A| s.to_set().insert(x).contains(y) implies s.push(x).to_set().contains(
        y,
    ) by {
        if y == x {
            assert(s.push(x)[s.len() as int] == y);
        } else {
            let i = choose|i: int| 0 <= i < s.len() && s[i] == y;
            assert(s.push(x)[i] == y);
        }
    }
    assert(s.push(x).to_set() =~= s.to_set().insert(x));
}

/// Well-formedness of the arena: the invariants described on the module.
pub open spec fn wf_arena<M: Metric>(ns: Seq<Node>, dist_max: i8) -> bool {
    &&& 0 <= dist_max
    &&& ns.len() >= 1 ==> ns[0].parent == 0 && ns[0].edge_dist == 0
    &&& forall|k: int| 1 <= k < ns.len() ==> (#[trigger] ns[k].parent) < k
    &&& forall|k: int|
        1 <= k < ns.len() ==> (#[trigger] ns[k].edge_dist) as int == M::d(
            ns[k].word@,
            ns[ns[k].parent as int].word@,
        )
    &&& forall|k: int| 1 <= k < ns.len() ==> 0 < (#[trigger] ns[k].edge_dist) <= dist_max
    &&& forall|j: int, c: int|
        0 <= j < ns.len() && 0 <= c < ns[j].children@.len() ==> {
            let ci = #[trigger] ns[j].children@[c] as int;
            j < ci < ns.len() && ns[ci].parent as int == j
        }
    &&& forall|k: int|
        1 <= k < ns.len() ==> (#[trigger] ns[ns[k].parent as int].children@).contains(k as usize)
    &&& forall|k1: int, k2: int|
        1 <= k1 < ns.len() && 1 <= k2 < ns.len() && k1 != k2 && (#[trigger] ns[k1].parent)
            == (#[trigger] ns[k2].parent) ==> ns[k1].edge_dist != ns[k2].edge_dist
    &&& forall|k1: int, k2: int|
        0 <= k1 < ns.len() && 0 <= k2 < ns.len() && k1 != k2 ==> (#[trigger] ns[k1].word@)
            != (#[trigger] ns[k2].word@)
    &&& forall|k: int, a: int|
        1 <= k < ns.len() && #[trigger] anc(ns, k).contains(a) && a != k ==> M::d(
            ns[k].word@,
            ns[a].word@,
        ) == ns[pc(ns, k, a)].edge_dist as int
}

/// Adds one word to the arena, or drops it if it is already indexed.
///
/// Walks from the root: at each node, a distance of zero means the word is a
/// duplicate and is discarded; otherwise the walk descends into the child at
/// the same edge distance if one exists, and appends a fresh child if none
/// does.
#[verifier::loop_isolation(false)]
fn insert_word<M: Metric>(metric: &M, bk_tree: &mut Vec<Node>, dist_max: &mut i8, word: &String)
    requires
        wf_arena::<M>(old(bk_tree)@, *old(dist_max)),
        1 <= old(bk_tree)@.len() < usize::MAX,
    ensures
        wf_arena::<M>(final(bk_tree)@, *final(dist_max)),
        old(bk_tree)@.len() <= final(bk_tree)@.len() <= old(bk_tree)@.len() + 1,
        words_of(final(bk_tree)@).to_set() == words_of(old(bk_tree)@).to_set().insert(word@),
        final(bk_tree)@[0].word@ == old(bk_tree)@[0].word@,
        *final(dist_max) >= *old(dist_max),
        forall|k: int|
            0 <= k < old(bk_tree)@.len() ==> {
                let nf = #[trigger] final(bk_tree)@[k];
                nf.edge_dist == old(bk_tree)@[k].edge_dist && nf.parent == old(bk_tree)@[k].parent
                    && nf.word@ == old(bk_tree)@[k].word@
            },
        final(bk_tree)@.len() == old(bk_tree)@.len() ==> *final(dist_max) == *old(dist_max),
        final(bk_tree)@.len() > old(bk_tree)@.len() ==> (*final(dist_max) == *old(dist_max)
            || final(bk_tree)@[old(bk_tree)@.len() as int].edge_dist == *final(dist_max)),
{
    let ghost ns0 = bk_tree@;
    let mut cur: usize = 0;
    let mut dup = false;
    let mut attach = false;
    let mut d: i8 = 0;
    proof {
        assert forall|k: int| 0 <= k < ns0.len() implies anc(ns0, k).contains(0int) by {
            lemma_anc_basics(ns0, k);
        }
    }
    while !dup && !attach
        invariant
            wf_arena::<M>(bk_tree@, *dist_max),
            ns0 == old(bk_tree)@,
            bk_tree@ == ns0,
            *dist_max == *old(dist_max),
            ns0.len() >= 1,
            (cur as int) < ns0.len(),
            forall|a: int|
                #[trigger] anc(ns0, cur as int).contains(a) && a != cur as int ==> M::d(
                    word@,
                    ns0[a].word@,
                ) == ns0[pc(ns0, cur as int, a)].edge_dist as int,
            forall|k: int|
                0 <= k < ns0.len() && (#[trigger] ns0[k].word@) == word@ ==> anc(ns0, k).contains(
                    cur as int,
                ),
            dup ==> ns0[cur as int].word@ == word@,
            attach ==> ({
                &&& d as int == M::d(word@, ns0[cur as int].word@)
                &&& d != 0
                &&& forall|k: int|
                    1 <= k < ns0.len() && (#[trigger] ns0[k].parent) as int == cur as int
                        ==> ns0[k].edge_dist != d
            }),
        decreases ns0.len() - cur as int + (if dup || attach {
            0int
        } else {
            1int
        }),
    {
        let dist = metric.dist(word.as_str(), bk_tree[cur].word.as_str());
        proof {
            M::lemma_range(word@, ns0[cur as int].word@);
            M::lemma_zero(word@, ns0[cur as int].word@);
        }
        if dist == 0 {
            dup = true;
        } else {
            let clen = bk_tree[cur].children.len();
            let mut ci: usize = 0;
            let mut has = false;
            let mut found: usize = 0;
            while ci < clen && has == false
                invariant
                    ns0 == old(bk_tree)@,
                    bk_tree@ == ns0,
                    wf_arena::<M>(ns0, *dist_max),
                    (cur as int) < ns0.len(),
                    clen == ns0[cur as int].children@.len(),
                    ci <= clen,
                    has == false ==> forall|c2: int|
                        0 <= c2 < ci ==> ns0[(#[trigger] ns0[cur as int].children@[c2])
                            as int].edge_dist != dist,
                    has ==> (cur as int) < (found as int) && (found as int) < ns0.len()
                        && ns0[found as int].parent as int == cur as int && ns0[found
                        as int].edge_dist == dist,
                decreases clen - ci + (if has {
                    0int
                } else {
                    1int
                }),
            {
                let child = bk_tree[cur].children[ci];
                proof {
                    let chi = (ns0[cur as int].children@[ci as int]) as int;
                    assert((cur as int) < chi && chi < ns0.len());
                }
                if bk_tree[child].edge_dist == dist {
                    found = child;
                    has = true;
                } else {
                    ci += 1;
                }
            }
            if has {
                proof {
                    let c = cur as int;
                    let f = found as int;
                    assert(anc(ns0, f) == anc(ns0, c).insert(f));
                    assert forall|a: int|
                        #[trigger] anc(ns0, f).contains(a) && a != f implies M::d(
                        word@,
                        ns0[a].word@,
                    ) == ns0[pc(ns0, f, a)].edge_dist as int by {
                        if a == c {
                            assert(pc(ns0, f, a) == f);
                        } else {
                            assert(anc(ns0, c).contains(a));
                            assert(pc(ns0, f, a) == pc(ns0, c, a));
                        }
                    }
                    assert(ns0[c].word@ != word@);
                    assert forall|k: int|
                        0 <= k < ns0.len() && (#[trigger] ns0[k].word@) == word@ implies anc(
                        ns0,
                        k,
                    ).contains(f) by {
                        assert(anc(ns0, k).contains(c));
                        assert(k != c);
                        if k == 0 {
                            lemma_anc_basics(ns0, 0);
                            assert(false);
                        }
                        lemma_pc(ns0, k, c);
                        let q = pc(ns0, k, c);
                        assert(M::d(ns0[k].word@, ns0[c].word@) == ns0[q].edge_dist as int);
                        assert(q == f);
                    }
                }
                cur = found;
            } else {
                proof {
                    assert forall|k: int|
                        1 <= k < ns0.len() && (#[trigger] ns0[k].parent) as int == cur
                            as int implies ns0[k].edge_dist != dist by {
                        assert((k as usize) as int == k);
                        let kids = ns0[cur as int].children@;
                        assert(kids.contains(k as usize));
                        let c2 = choose|c2: int| 0 <= c2 < kids.len() && kids[c2] == k as usize;
                        assert(ns0[(ns0[cur as int].children@[c2]) as int].edge_dist != dist);
                    }
                }
                d = dist;
                attach = true;
            }
        }
    }
    if dup {
        proof {
            let c = cur as int;
            assert(words_of(ns0)[c] == word@);
            assert(words_of(ns0).contains(word@));
            assert(words_of(ns0).to_set().insert(word@) =~= words_of(ns0).to_set());
        }
        return ;
    }
    let new_idx = bk_tree.len();
    let node_word = word.clone();
    let new_node = Node { word: node_word, edge_dist: d, parent: cur, children: Vec::new() };
    bk_tree.push(new_node);
    let target = &mut bk_tree[cur];
    target.children.push(new_idx);
    if d > *dist_max {
        *dist_max = d;
    }
    proof {
        let nsf = bk_tree@;
        let dmf = *dist_max;
        let c = cur as int;
        let l = ns0.len() as int;
        assert(nsf.len() == l + 1);
        assert(forall|j: int| 0 <= j < l && j != c ==> nsf[j] == ns0[j]);
        assert(nsf[c].word == ns0[c].word && nsf[c].parent == ns0[c].parent && nsf[c].edge_dist
            == ns0[c].edge_dist);
        assert(nsf[c].children@ == ns0[c].children@.push(new_idx));
        assert(nsf[l].parent as int == c && nsf[l].edge_dist == d && nsf[l].word@ == word@
            && nsf[l].children@.len() == 0);
        assert(forall|j: int| 1 <= j <= l ==> (#[trigger] nsf[j].parent) == if j == l {
            cur
        } else {
            ns0[j].parent
        });
        M::lemma_range(word@, ns0[c].word@);
        assert(0 < d <= dmf);
        // no stored word equals the new one
        assert forall|k: int| 0 <= k < l implies ns0[k].word@ != word@ by {
            if ns0[k].word@ == word@ {
                assert(anc(ns0, k).contains(c));
                M::lemma_zero(word@, ns0[c].word@);
                assert(k != c);
                if k == 0 {
                    lemma_anc_basics(ns0, 0);
                    assert(false);
                }
                lemma_pc(ns0, k, c);
                let q = pc(ns0, k, c);
                assert(M::d(ns0[k].word@, ns0[c].word@) == ns0[q].edge_dist as int);
                assert(ns0[q].edge_dist == d);
                assert(false);
            }
        }
        // frame the ancestor chains of the old entries
        assert forall|k: int| 0 <= k < l implies anc(nsf, k) == anc(ns0, k) by {
            lemma_anc_frame(ns0, nsf, k);
        }
        assert forall|k: int, a: int| 0 <= k < l implies #[trigger] pc(nsf, k, a) == pc(
            ns0,
            k,
            a,
        ) by {
            lemma_pc_frame(ns0, nsf, k, a);
        }
        // the new entry's chain
        assert(anc(nsf, l) == anc(nsf, c).insert(l));
        assert(anc(nsf, l) == anc(ns0, c).insert(l));
        assert forall|a: int| #[trigger] anc(nsf, l).contains(a) && a != l implies M::d(
            nsf[l].word@,
            nsf[a].word@,
        ) == nsf[pc(nsf, l, a)].edge_dist as int by {
            lemma_anc_basics(ns0, c);
            assert(0 <= a <= c);
            if a == c {
                assert(pc(nsf, l, a) == l);
            } else {
                assert(anc(ns0, c).contains(a));
                assert(pc(nsf, l, a) == pc(nsf, c, a));
                assert(pc(nsf, c, a) == pc(ns0, c, a));
                assert(M::d(word@, ns0[a].word@) == ns0[pc(ns0, c, a)].edge_dist as int);
                lemma_pc(ns0, c, a);
            }
        }
        // chains of old entries are untouched
        assert forall|k: int, a: int|
            1 <= k < l && #[trigger] anc(nsf, k).contains(a) && a != k implies M::d(
            nsf[k].word@,
            nsf[a].word@,
        ) == nsf[pc(nsf, k, a)].edge_dist as int by {
            assert(anc(ns0, k).contains(a));
            lemma_anc_basics(ns0, k);
            if a == c || k == c {
            }
            lemma_pc(ns0, k, a);
            assert(M::d(ns0[k].word@, ns0[a].word@) == ns0[pc(ns0, k, a)].edge_dist as int);
        }
        assert(0 <= dmf);
        assert(nsf[0].parent == 0 && nsf[0].edge_dist == 0);
        assert(forall|k: int| 1 <= k < nsf.len() ==> (#[trigger] nsf[k].parent) < k);
        assert(forall|k: int|
            1 <= k < nsf.len() ==> (#[trigger] nsf[k].edge_dist) as int == M::d(
                nsf[k].word@,
                nsf[nsf[k].parent as int].word@,
            ));
        assert(forall|k: int| 1 <= k < nsf.len() ==> 0 < (#[trigger] nsf[k].edge_dist) <= dmf);
        assert(forall|j: int, cc: int|
            0 <= j < nsf.len() && 0 <= cc < nsf[j].children@.len() ==> {
                let ci = #[trigger] nsf[j].children@[cc] as int;
                j < ci < nsf.len() && nsf[ci].parent as int == j
            });
        assert forall|k: int| 1 <= k < nsf.len() implies (#[trigger] nsf[nsf[k].parent
            as int].children@).contains(k as usize) by {
            if k < l {
                assert(ns0[ns0[k].parent as int].children@.contains(k as usize));
                let c2 = choose|c2: int|
                    0 <= c2 < ns0[ns0[k].parent as int].children@.len() && ns0[ns0[k].parent
                        as int].children@[c2] == k as usize;
                assert(nsf[nsf[k].parent as int].children@[c2] == k as usize);
            } else {
                assert(nsf[c].children@[ns0[c].children@.len() as int] == new_idx);
            }
        }
        assert(forall|k1: int, k2: int|
            1 <= k1 < nsf.len() && 1 <= k2 < nsf.len() && k1 != k2 && (#[trigger] nsf[k1].parent)
                == (#[trigger] nsf[k2].parent) ==> nsf[k1].edge_dist != nsf[k2].edge_dist);
        assert(forall|k1: int, k2: int|
            0 <= k1 < nsf.len() && 0 <= k2 < nsf.len() && k1 != k2 ==> (#[trigger] nsf[k1].word@)
                != (#[trigger] nsf[k2].word@));
        assert(wf_arena::<M>(nsf, dmf));
        // the stored word set gains exactly the new word
        assert(words_of(nsf) =~= words_of(ns0).push(word@));
        lemma_push_to_set(words_of(ns0), word@);
    }
}

/// The BK-tree: a flat arena of nodes (index 0 is the root), the injected
/// metric, and the largest edge distance ever inserted — the initial search
/// bound for nearest-neighbor queries.
pub struct BKTreeWords<M: Metric> {
    bk_tree: Vec<Node>,
    metric: M,
    pub dist_max: i8,
}

impl<M: Metric> BKTreeWords<M> {
    /// Structural well-formedness: established by `build`, preserved forever
    /// after (the tree is read-only once built).
    pub closed spec fn wf(self) -> bool {
        wf_arena::<M>(self.bk_tree@, self.dist_max)
    }

    /// The indexed words, by arena index; the root's word is first.
    pub closed spec fn words(self) -> Seq<Seq<char>> {
        words_of(self.bk_tree@)
    }

    /// The stored edge distances, by arena index; the root's entry is 0.
    pub closed spec fn edges(self) -> Seq<int> {
        self.bk_tree@.map_values(|n: Node| n.edge_dist as int)
    }

    /// The stored parent links, by arena index; the root points to itself.
    pub closed spec fn parents(self) -> Seq<int> {
        self.bk_tree@.map_values(|n: Node| n.parent as int)
    }

    /// The search bound: the largest edge distance inserted during build.
    pub closed spec fn spec_dist_max(self) -> i8 {
        self.dist_max
    }

    /// The largest edge distance inserted during build, as stored.
    pub fn get_dist_max(&self) -> (r: i8)
        ensures
            r == self.spec_dist_max(),
    {
        self.dist_max
    }

    /// The number of nodes the tree holds.
    pub fn node_count(&self) -> (r: usize)
        ensures
            r == self.words().len(),
    {
        self.bk_tree.len()
    }

    /// Builds the tree from the dictionary, in dictionary order: the first
    /// entry becomes the root, each later word is walked in from the root,
    /// and exact duplicates are discarded. An empty dictionary is refused
    /// with an explicit error rather than a panic.
    #[verifier::loop_isolation(false)]
    pub fn build(word_list: &WordDict, metric: M) -> (r: Result<Self, BuildError>)
        ensures
            (match r {
                Ok(t) => {
                    &&& word_list@.len() > 0
                    &&& t.wf()
                    &&& 1 <= t.words().len() <= word_list@.len()
                    &&& t.words()[0] == word_list@[0]
                    &&& t.words().to_set() == word_list@.to_set()
                    &&& t.edges().len() == t.words().len()
                    &&& t.parents().len() == t.words().len()
                    &&& t.edges()[0] == 0
                    &&& t.parents()[0] == 0
                    &&& forall|k: int|
                        1 <= k < t.words().len() ==> 0 <= #[trigger] t.parents()[k] < k
                    &&& forall|k: int|
                        1 <= k < t.words().len() ==> (#[trigger] t.edges()[k]) == M::d(
                            t.words()[k],
                            t.words()[t.parents()[k]],
                        )
                    &&& forall|k: int|
                        1 <= k < t.words().len() ==> 0 < (#[trigger] t.edges()[k])
                            <= t.spec_dist_max() as int
                    &&& 0 <= t.spec_dist_max()
                    &&& (t.words().len() == 1 ==> t.spec_dist_max() == 0)
                    &&& (t.words().len() > 1 ==> exists|k: int|
                        1 <= k < t.edges().len() && (#[trigger] t.edges()[k]) == t.spec_dist_max()
                            as int)
                },
                Err(e) => word_list@.len() == 0 && e == BuildError::EmptyDictionary,
            }),
    {
        let data = word_list.get_data();
        if data.len() == 0 {
            return Err(BuildError::EmptyDictionary);
        }
        let mut bk_tree: Vec<Node> = Vec::new();
        let first = data[0].clone();
        bk_tree.push(Node { word: first, edge_dist: 0, parent: 0, children: Vec::new() });
        let mut dist_max: i8 = 0;
        proof {
            assert(words_of(bk_tree@) =~= word_list@.take(1));
            assert(word_list@.take(1) =~= Seq::<Seq<char>>::empty().push(word_list@[0]));
            lemma_push_to_set(Seq::<Seq<char>>::empty(), word_list@[0]);
            assert(Seq::<Seq<char>>::empty().to_set() =~= Set::<Seq<char>>::empty());
        }
        let mut idx: usize = 1;
        while idx < data.len()
            invariant
                data@.map_values(|s: String| s@) == word_list@,
                data@.len() == word_list@.len(),
                1 <= idx <= data@.len(),
                wf_arena::<M>(bk_tree@, dist_max),
                1 <= bk_tree@.len() <= idx,
                bk_tree@[0].word@ == word_list@[0],
                words_of(bk_tree@).to_set() == word_list@.take(idx as int).to_set(),
                bk_tree@.len() == 1 ==> dist_max == 0,
                bk_tree@.len() > 1 ==> exists|k: int|
                    1 <= k < bk_tree@.len() && (#[trigger] bk_tree@[k].edge_dist) == dist_max,
            decreases data@.len() - idx,
        {
            let ghost pre = bk_tree@;
            let ghost pre_dm = dist_max;
            insert_word(&metric, &mut bk_tree, &mut dist_max, &data[idx]);
            proof {
                assert(word_list@.take(idx + 1) =~= word_list@.take(idx as int).push(
                    word_list@[idx as int],
                ));
                lemma_push_to_set(word_list@.take(idx as int), word_list@[idx as int]);
                assert(data@[idx as int]@ == word_list@[idx as int]);
                // the running maximum stays attained by some stored edge
                if bk_tree@.len() > pre.len() {
                    let newk = pre.len() as int;
                    if dist_max == pre_dm && pre.len() > 1 {
                        let k0 = choose|k: int|
                            1 <= k < pre.len() && (#[trigger] pre[k].edge_dist) == pre_dm;
                        assert(bk_tree@[k0].edge_dist == dist_max);
                    } else if dist_max == pre_dm && pre.len() == 1 {
                        assert(0 < bk_tree@[newk].edge_dist <= dist_max);
                        assert(false);
                    } else {
                        assert(bk_tree@[newk].edge_dist == dist_max);
                    }
                } else {
                    if pre.len() > 1 {
                        let k0 = choose|k: int|
                            1 <= k < pre.len() && (#[trigger] pre[k].edge_dist) == pre_dm;
                        assert(bk_tree@[k0].edge_dist == dist_max);
                    }
                }
            }
            idx += 1;
        }
        proof {
            assert(word_list@.take(word_list@.len() as int) =~= word_list@);
        }
        let t = BKTreeWords { bk_tree, metric, dist_max };
        proof {
            assert forall|k: int| 1 <= k < t.words().len() implies {
                &&& 0 <= #[trigger] t.parents()[k] < k
                &&& t.edges()[k] == M::d(t.words()[k], t.words()[t.parents()[k]])
                &&& 0 < t.edges()[k] <= t.spec_dist_max() as int
            } by {
                assert(t.edges()[k] == t.bk_tree@[k].edge_dist as int);
                assert(t.parents()[k] == t.bk_tree@[k].parent as int);
                assert(t.words()[k] == t.bk_tree@[k].word@);
                assert(t.words()[t.parents()[k]] == t.bk_tree@[t.bk_tree@[k].parent as int].word@);
            }
            if t.words().len() > 1 {
                let k0 = choose|k: int|
                    1 <= k < t.bk_tree@.len() && (#[trigger] t.bk_tree@[k].edge_dist)
                        == t.dist_max;
                assert(t.edges()[k0] == t.spec_dist_max() as int);
            }
        }
        Ok(t)
    }

    /// One step of the pruned depth-first search: examines `cur`, then
    /// descends into every child whose edge distance passes the
    /// triangle-inequality test against the running best distance. Children
    /// sit strictly above their parent in the arena, so the recursion
    /// terminates structurally.
    #[verifier::loop_isolation(false)]
    fn search_from(&self, cur: usize, word_to_check: &str, best: Option<usize>, best_dist: i8) -> (r:
        (Option<usize>, i8))
        requires
            self.wf(),
            (cur as int) < self.bk_tree@.len(),
            0 <= best_dist <= self.dist_max,
            best matches None ==> best_dist == self.dist_max,
            best matches Some(bk) ==> (bk as int) < self.bk_tree@.len() && M::d(
                self.bk_tree@[bk as int].word@,
                word_to_check@,
            ) == best_dist as int && best_dist < self.dist_max,
        ensures
            ({
                let (rb, rd) = r;
                &&& 0 <= rd <= best_dist
                &&& (best matches Some(_) ==> rb matches Some(_))
                &&& (rb matches None ==> best matches None && rd == best_dist)
                &&& (rb matches Some(bk) ==> (bk as int) < self.bk_tree@.len() && M::d(
                    self.bk_tree@[bk as int].word@,
                    word_to_check@,
                ) == rd as int && rd < self.dist_max)
                &&& (M::d(self.bk_tree@[cur as int].word@, word_to_check@) < best_dist as int
                    ==> rd as int <= M::d(self.bk_tree@[cur as int].word@, word_to_check@))
                &&& forall|k: int|
                    0 <= k < self.bk_tree@.len() && #[trigger] anc(self.bk_tree@, k).contains(
                        cur as int,
                    ) ==> rd as int <= M::d(self.bk_tree@[k].word@, word_to_check@)
            }),
        decreases self.bk_tree@.len() - cur,
    {
        let ghost ns = self.bk_tree@;
        let ghost q = word_to_check@;
        let tree_len = self.bk_tree.len();
        proof {
            assert(tree_len == ns.len());
        }
        let mut best = best;
        let mut best_dist = best_dist;
        let ghost b_in = best;
        let ghost bd_in = best_dist;
        let current_dist = self.metric.dist(self.bk_tree[cur].word.as_str(), word_to_check);
        proof {
            M::lemma_range(ns[cur as int].word@, q);
        }
        if current_dist < best_dist {
            best = Some(cur);
            best_dist = current_dist;
        }
        let clen = self.bk_tree[cur].children.len();
        let mut ci: usize = 0;
        while ci < clen
            invariant
                clen == ns[cur as int].children@.len(),
                ci <= clen,
                0 <= best_dist <= bd_in,
                best matches None ==> best_dist == bd_in,
                b_in matches Some(_) ==> best matches Some(_),
                best matches Some(bk) ==> (bk as int) < ns.len() && M::d(ns[bk as int].word@, q)
                    == best_dist as int && best_dist < self.dist_max,
                M::d(ns[cur as int].word@, q) < bd_in as int ==> best_dist as int <= M::d(
                    ns[cur as int].word@,
                    q,
                ),
                best_dist as int <= M::d(ns[cur as int].word@, q),
                forall|c2: int, k: int|
                    0 <= c2 < ci && 0 <= k < ns.len() && #[trigger] anc(ns, k).contains(
                        (ns[cur as int].children@[c2]) as int,
                    ) ==> best_dist as int <= M::d(ns[k].word@, q),
            decreases clen - ci,
        {
            let child = self.bk_tree[cur].children[ci];
            proof {
                let chi = (ns[cur as int].children@[ci as int]) as int;
                assert((cur as int) < chi && chi < ns.len());
                M::lemma_range(ns[chi].word@, ns[cur as int].word@);
            }
            let diff = current_dist - self.bk_tree[child].edge_dist;
            if diff <= best_dist && diff >= -best_dist {
                let (nb, nd) = self.search_from(child, word_to_check, best, best_dist);
                best = nb;
                best_dist = nd;
            } else {
                // pruned: every word in the skipped subtree sits at exactly
                // the child's edge distance from this node's word, so by the
                // triangle inequality it cannot beat the current best
                proof {
                    let c = cur as int;
                    let ch = (ns[c].children@[ci as int]) as int;
                    assert forall|k: int|
                        0 <= k < ns.len() && #[trigger] anc(ns, k).contains(ch) implies best_dist
                        as int <= M::d(ns[k].word@, q) by {
                        lemma_anc_basics(ns, k);
                        assert(1 <= ch <= k);
                        lemma_pc_unique(ns, k, ch);
                        assert(pc(ns, k, c) == ch);
                        lemma_anc_trans(ns, k, ch);
                        lemma_anc_basics(ns, c);
                        assert(anc(ns, ch) == anc(ns, c).insert(ch));
                        assert(anc(ns, k).contains(c));
                        assert(c < ch);
                        assert(M::d(ns[k].word@, ns[c].word@) == ns[ch].edge_dist as int);
                        M::lemma_sym(ns[k].word@, ns[c].word@);
                        M::lemma_triangle(ns[c].word@, ns[k].word@, q);
                        M::lemma_sym(q, ns[c].word@);
                        M::lemma_triangle(ns[k].word@, q, ns[c].word@);
                    }
                }
            }
            ci += 1;
        }
        proof {
            let c = cur as int;
            assert forall|k: int|
                0 <= k < ns.len() && #[trigger] anc(ns, k).contains(c) implies best_dist
                as int <= M::d(ns[k].word@, q) by {
                if k != c {
                    lemma_anc_basics(ns, k);
                    if k == 0 {
                        assert(c == 0);
                        assert(false);
                    }
                    lemma_pc(ns, k, c);
                    let ch = pc(ns, k, c);
                    assert(ns[ch].parent as int == c);
                    assert((ch as usize) as int == ch);
                    assert(ns[c].children@.contains(ch as usize));
                    let c2 = choose|c2: int|
                        0 <= c2 < ns[c].children@.len() && ns[c].children@[c2] == ch as usize;
                    assert(anc(ns, k).contains((ns[c].children@[c2]) as int));
                }
            }
        }
        (best, best_dist)
    }

    /// Finds the nearest indexed word to `word_to_check` by a pruned
    /// depth-first traversal starting the bound at `dist_max`. Returns
    /// `None` only when the tree holds no nodes. The search is exact within
    /// the bound: the returned word minimizes the metric distance to the
    /// query over the whole dictionary, and the empty string comes back
    /// exactly when every indexed word sits at or beyond the bound.
    pub fn find_correction(&self, word_to_check: &str) -> (r: Option<String>)
        requires
            self.wf(),
        ensures
            (match r {
                None => self.words().len() == 0,
                Some(w) => {
                    &&& self.words().len() > 0
                    &&& ((w@ == Seq::<char>::empty() && (forall|j: int|
                        0 <= j < self.words().len() ==> M::d(
                            #[trigger] self.words()[j],
                            word_to_check@,
                        ) >= self.spec_dist_max() as int)) || (exists|k: int|
                        0 <= k < self.words().len() && (#[trigger] self.words()[k]) == w@ && M::d(
                            self.words()[k],
                            word_to_check@,
                        ) < self.spec_dist_max() as int && (forall|j: int|
                            0 <= j < self.words().len() ==> M::d(self.words()[k], word_to_check@)
                                <= M::d(#[trigger] self.words()[j], word_to_check@))))
                },
            }),
    {
        if self.bk_tree.len() == 0 {
            return None;
        }
        let ghost ns = self.bk_tree@;
        let ghost q = word_to_check@;
        let (best, best_dist) = self.search_from(0, word_to_check, None, self.dist_max);
        proof {
            // the root is on every ancestor chain, so the search covered
            // the whole arena
            assert forall|j: int| 0 <= j < ns.len() implies best_dist as int <= M::d(
                #[trigger] self.words()[j],
                q,
            ) by {
                lemma_anc_basics(ns, j);
                assert(anc(ns, j).contains(0));
                assert(self.words()[j] == ns[j].word@);
            }
        }
        match best {
            None => {
                Some(String::new())
            },
            Some(bi) => {
                proof {
                    assert(self.words()[bi as int] == ns[bi as int].word@);
                }
                Some(self.bk_tree[bi].word.clone())
            },
        }
    }

    /// Every stored word is distinct, so the node count equals the number of
    /// distinct indexed words.
    pub proof fn lemma_node_count(self)
        requires
            self.wf(),
        ensures
            self.words().to_set().len() == self.words().len(),
    {
        assert(self.words().no_duplicates());
        self.words().unique_seq_to_set();
    }
}

} // verus!
