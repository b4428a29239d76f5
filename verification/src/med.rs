//! The edit-distance metric: classic Levenshtein distance (unit-cost
//! insertions, deletions and substitutions), computed with two rolling rows.
//!
//! Distances are reported saturated at `i8::MAX`: inputs whose true edit
//! distance exceeds the representable range clamp to the maximum rather than
//! wrapping, so downstream tree invariants cannot be corrupted.

use vstd::prelude::*;
use vstd::string::StrSliceExecFns;

verus! {

/// Minimum of three naturals.
pub open spec fn min3(x: nat, y: nat, z: nat) -> nat {
    if x <= y && x <= z {
        x
    } else if y <= z {
        y
    } else {
        z
    }
}

/// Levenshtein edit distance between two sequences: the least number of
/// single-element insertions, deletions and substitutions turning `a` into `b`.
pub open spec fn lev<A>(a: Seq<A>, b: Seq<A>) -> nat
    decreases a.len() + b.len(),
{
    if a.len() == 0 {
        b.len()
    } else if b.len() == 0 {
        a.len()
    } else {
        let cost: nat = if a.last() == b.last() {
            0
        } else {
            1
        };
        min3(
            lev(a.drop_last(), b) + 1,
            lev(a, b.drop_last()) + 1,
            lev(a.drop_last(), b.drop_last()) + cost,
        )
    }
}

/// `lev`, saturated at `i8::MAX`: the value the executable metrics return.
pub open spec fn sat_dist<A>(a: Seq<A>, b: Seq<A>) -> int {
    if lev(a, b) <= i8::MAX as nat {
        lev(a, b) as int
    } else {
        i8::MAX as int
    }
}

/// The distance from any sequence to itself is zero.
pub proof fn lemma_lev_self<A>(a: Seq<A>)
    ensures
        lev(a, a) == 0,
    decreases a.len(),
{
    if a.len() > 0 {
        lemma_lev_self(a.drop_last());
    }
}

/// The distance is symmetric in its two arguments.
pub proof fn lemma_lev_sym<A>(a: Seq<A>, b: Seq<A>)
    ensures
        lev(a, b) == lev(b, a),
    decreases a.len() + b.len(),
{
    if a.len() > 0 && b.len() > 0 {
        lemma_lev_sym(a.drop_last(), b);
        lemma_lev_sym(a, b.drop_last());
        lemma_lev_sym(a.drop_last(), b.drop_last());
    }
}

/// The distance from the empty sequence to `b` is the length of `b`.
pub proof fn lemma_lev_empty<A>(b: Seq<A>)
    ensures
        lev(Seq::<A>::empty(), b) == b.len(),
{
}

/// The distance is bounded by the total length and below by the length
/// difference.
pub proof fn lemma_lev_bounds<A>(a: Seq<A>, b: Seq<A>)
    ensures
        lev(a, b) <= a.len() + b.len(),
        lev(a, b) + a.len() >= b.len(),
        lev(a, b) + b.len() >= a.len(),
    decreases a.len() + b.len(),
{
    if a.len() > 0 && b.len() > 0 {
        lemma_lev_bounds(a.drop_last(), b);
        lemma_lev_bounds(a, b.drop_last());
        lemma_lev_bounds(a.drop_last(), b.drop_last());
    }
}

/// The triangle inequality: editing `a` into `b` and then `b` into `c` is
/// one way of editing `a` into `c`.
pub proof fn lemma_lev_triangle<A>(a: Seq<A>, b: Seq<A>, c: Seq<A>)
    ensures
        lev(a, c) <= lev(a, b) + lev(b, c),
    decreases a.len() + b.len() + c.len(),
{
    if b.len() == 0 {
        lemma_lev_bounds(a, c);
    } else if a.len() == 0 {
        lemma_lev_bounds(b, c);
    } else if c.len() == 0 {
        lemma_lev_bounds(a, b);
    } else {
        let a2 = a.drop_last();
        let b2 = b.drop_last();
        let c2 = c.drop_last();
        // the minimum equals one of its three arguments, on both unfoldings
        if lev(a, b) == lev(a2, b) + 1 {
            lemma_lev_triangle(a2, b, c);
            assert(lev(a, c) <= lev(a2, c) + 1);
        } else if lev(b, c) == lev(b, c2) + 1 {
            lemma_lev_triangle(a, b, c2);
            assert(lev(a, c) <= lev(a, c2) + 1);
        } else if lev(a, b) == lev(a, b2) + 1 && lev(b, c) == lev(b2, c) + 1 {
            lemma_lev_triangle(a, b2, c);
        } else if lev(a, b) == lev(a, b2) + 1 {
            // the remaining arm of lev(b, c) pairs b2 with c2
            lemma_lev_triangle(a, b2, c2);
            assert(lev(a, c) <= lev(a, c2) + 1);
        } else if lev(b, c) == lev(b2, c) + 1 {
            // the remaining arm of lev(a, b) pairs a2 with b2
            lemma_lev_triangle(a2, b2, c);
            assert(lev(a, c) <= lev(a2, c) + 1);
        } else {
            // both distances end in the substitution arm; chain the final
            // elements: equal-equal forces equal, anything else costs one
            lemma_lev_triangle(a2, b2, c2);
            assert(lev(a, c) <= lev(a2, c2) + (if a.last() == c.last() {
                0nat
            } else {
                1nat
            }));
        }
    }
}

/// `lev`, clamped at 128: the value the rolling rows hold in each cell, so
/// that cell arithmetic can never overflow however long the inputs are.
/// 128 is one above the saturation point, so clamped cells still decide
/// whether the true distance fits in an `i8`.
pub open spec fn cap(x: nat) -> nat {
    if x <= 128 {
        x
    } else {
        128
    }
}

/// One cell of the distance recurrence, on prefixes: extending both prefixes
/// by one element costs the least of a deletion, an insertion, and a
/// (possibly free) substitution.
proof fn lemma_lev_step<A>(a: Seq<A>, b: Seq<A>, i: int, j: int)
    requires
        0 <= i < a.len(),
        0 <= j < b.len(),
    ensures
        lev(a.take(i + 1), b.take(j + 1)) == min3(
            lev(a.take(i), b.take(j + 1)) + 1,
            lev(a.take(i + 1), b.take(j)) + 1,
            lev(a.take(i), b.take(j)) + (if a[i] == b[j] {
                0nat
            } else {
                1nat
            }),
        ),
{
    let aa = a.take(i + 1);
    let bb = b.take(j + 1);
    assert(aa.drop_last() =~= a.take(i));
    assert(bb.drop_last() =~= b.take(j));
    assert(aa.last() == a[i]);
    assert(bb.last() == b[j]);
}

/// Clamping distributes over the cell recurrence.
proof fn lemma_cap_step(x: nat, y: nat, z: nat, cost: nat)
    requires
        cost <= 1,
    ensures
        (if min3(cap(x) + 1, cap(y) + 1, cap(z) + cost) <= 128 {
            min3(cap(x) + 1, cap(y) + 1, cap(z) + cost)
        } else {
            128nat
        }) == cap(min3(x + 1, y + 1, z + cost)),
{
}

/// Distance zero holds exactly between equal sequences.
pub proof fn lemma_lev_zero_iff<A>(a: Seq<A>, b: Seq<A>)
    ensures
        lev(a, b) == 0 <==> a == b,
    decreases a.len() + b.len(),
{
    if a == b {
        lemma_lev_self(a);
    }
    if lev(a, b) == 0 {
        if a.len() == 0 {
            assert(b.len() == 0);
            assert(a =~= b);
        } else if b.len() == 0 {
            assert(lev(a, b) == a.len());
            assert(false);
        } else {
            assert(lev(a.drop_last(), b.drop_last()) == 0 && a.last() == b.last());
            lemma_lev_zero_iff(a.drop_last(), b.drop_last());
            assert(a.len() == b.len());
            assert forall|i: int| 0 <= i < a.len() implies a[i] == b[i] by {
                if i < a.len() - 1 {
                    assert(a[i] == a.drop_last()[i]);
                    assert(b[i] == b.drop_last()[i]);
                }
            }
            assert(a =~= b);
        }
    }
}

/// The code points of `s`, in order, as a vector.
fn chars_vec(s: &str) -> (r: Vec<char>)
    ensures
        r@ == s@,
{
    let n = s.unicode_len();
    let mut v: Vec<char> = Vec::new();
    let mut i: usize = 0;
    while i < n
        invariant
            n == s@.len(),
            i <= n,
            v@ == s@.take(i as int),
        decreases n - i,
    {
        let c = s.get_char(i);
        v.push(c);
        proof {
            assert(v@ =~= s@.take(i + 1));
        }
        i += 1;
    }
    proof {
        assert(s@.take(n as int) =~= s@);
    }
    v
}

/// Byte-wise Levenshtein distance with two rolling rows, saturated at
/// `i8::MAX`. Treats the inputs as plain byte sequences, so multi-byte
/// characters count one unit per byte.
pub fn lev_dist_opt(s1: &[u8], s2: &[u8]) -> (r: i8)
    ensures
        r as int == sat_dist(s1@, s2@),
{
    let n1 = s1.len();
    let n2 = s2.len();
    let mut d1: Vec<usize> = Vec::new();
    d1.push(0);
    let mut j: usize = 0;
    while j < n2
        invariant
            n2 == s2@.len(),
            j <= n2,
            d1@.len() == j + 1,
            forall|jj: int| 0 <= jj <= j ==> d1@[jj] == cap(lev(s1@.take(0), s2@.take(jj))),
        decreases n2 - j,
    {
        proof {
            assert(lev(s1@.take(0), s2@.take(j + 1)) == s2@.take(j + 1).len());
        }
        if j + 1 < 128 {
            d1.push(j + 1);
        } else {
            d1.push(128);
        }
        j += 1;
    }
    let mut i: usize = 0;
    while i < n1
        invariant
            n1 == s1@.len(),
            n2 == s2@.len(),
            i <= n1,
            d1@.len() == n2 + 1,
            forall|jj: int| 0 <= jj <= n2 ==> d1@[jj] == cap(lev(s1@.take(i as int), s2@.take(jj))),
        decreases n1 - i,
    {
        let mut d2: Vec<usize> = Vec::new();
        proof {
            assert(lev(s1@.take(i + 1), s2@.take(0)) == s1@.take(i + 1).len());
        }
        if i + 1 < 128 {
            d2.push(i + 1);
        } else {
            d2.push(128);
        }
        let mut j2: usize = 0;
        while j2 < n2
            invariant
                n1 == s1@.len(),
                n2 == s2@.len(),
                i < n1,
                j2 <= n2,
                d1@.len() == n2 + 1,
                forall|jj: int| 0 <= jj <= n2 ==> d1@[jj] == cap(
                    lev(s1@.take(i as int), s2@.take(jj)),
                ),
                d2@.len() == j2 + 1,
                forall|jj: int| 0 <= jj <= j2 ==> d2@[jj] == cap(
                    lev(s1@.take(i + 1), s2@.take(jj)),
                ),
            decreases n2 - j2,
        {
            let del_cost = d1[j2 + 1] + 1;
            let ins_cost = d2[j2] + 1;
            let sub_cost = if s2[j2] == s1[i] {
                d1[j2]
            } else {
                d1[j2] + 1
            };
            let mut m = del_cost;
            if ins_cost < m {
                m = ins_cost;
            }
            if sub_cost < m {
                m = sub_cost;
            }
            if m > 128 {
                m = 128;
            }
            proof {
                lemma_lev_step(s1@, s2@, i as int, j2 as int);
                lemma_cap_step(
                    lev(s1@.take(i as int), s2@.take(j2 + 1)),
                    lev(s1@.take(i + 1), s2@.take(j2 as int)),
                    lev(s1@.take(i as int), s2@.take(j2 as int)),
                    if s1@[i as int] == s2@[j2 as int] {
                        0nat
                    } else {
                        1nat
                    },
                );
            }
            d2.push(m);
            j2 += 1;
        }
        d1 = d2;
        i += 1;
    }
    let d = d1[n2];
    proof {
        assert(s1@.take(n1 as int) =~= s1@);
        assert(s2@.take(n2 as int) =~= s2@);
    }
    if d > 127 {
        127
    } else {
        d as i8
    }
}

/// The rolling-row distance core over code points: the outer loop runs over
/// `a` (the longer input), the inner over `b`, so the rows are as short as
/// the shorter input. Cells are clamped at 128.
fn lev_core_chars(a: &Vec<char>, b: &Vec<char>) -> (r: usize)
    ensures
        r == cap(lev(a@, b@)),
{
    let n1 = a.len();
    let n2 = b.len();
    let mut d1: Vec<usize> = Vec::new();
    d1.push(0);
    let mut j: usize = 0;
    while j < n2
        invariant
            n2 == b@.len(),
            j <= n2,
            d1@.len() == j + 1,
            forall|jj: int| 0 <= jj <= j ==> d1@[jj] == cap(lev(a@.take(0), b@.take(jj))),
        decreases n2 - j,
    {
        proof {
            assert(lev(a@.take(0), b@.take(j + 1)) == b@.take(j + 1).len());
        }
        if j + 1 < 128 {
            d1.push(j + 1);
        } else {
            d1.push(128);
        }
        j += 1;
    }
    let mut i: usize = 0;
    while i < n1
        invariant
            n1 == a@.len(),
            n2 == b@.len(),
            i <= n1,
            d1@.len() == n2 + 1,
            forall|jj: int| 0 <= jj <= n2 ==> d1@[jj] == cap(lev(a@.take(i as int), b@.take(jj))),
        decreases n1 - i,
    {
        let mut d2: Vec<usize> = Vec::new();
        proof {
            assert(lev(a@.take(i + 1), b@.take(0)) == a@.take(i + 1).len());
        }
        if i + 1 < 128 {
            d2.push(i + 1);
        } else {
            d2.push(128);
        }
        let mut j2: usize = 0;
        while j2 < n2
            invariant
                n1 == a@.len(),
                n2 == b@.len(),
                i < n1,
                j2 <= n2,
                d1@.len() == n2 + 1,
                forall|jj: int| 0 <= jj <= n2 ==> d1@[jj] == cap(
                    lev(a@.take(i as int), b@.take(jj)),
                ),
                d2@.len() == j2 + 1,
                forall|jj: int| 0 <= jj <= j2 ==> d2@[jj] == cap(
                    lev(a@.take(i + 1), b@.take(jj)),
                ),
            decreases n2 - j2,
        {
            let del_cost = d1[j2 + 1] + 1;
            let ins_cost = d2[j2] + 1;
            let sub_cost = if b[j2] == a[i] {
                d1[j2]
            } else {
                d1[j2] + 1
            };
            let mut m = del_cost;
            if ins_cost < m {
                m = ins_cost;
            }
            if sub_cost < m {
                m = sub_cost;
            }
            if m > 128 {
                m = 128;
            }
            proof {
                lemma_lev_step(a@, b@, i as int, j2 as int);
                lemma_cap_step(
                    lev(a@.take(i as int), b@.take(j2 + 1)),
                    lev(a@.take(i + 1), b@.take(j2 as int)),
                    lev(a@.take(i as int), b@.take(j2 as int)),
                    if a@[i as int] == b@[j2 as int] {
                        0nat
                    } else {
                        1nat
                    },
                );
            }
            d2.push(m);
            j2 += 1;
        }
        d1 = d2;
        i += 1;
    }
    proof {
        assert(a@.take(n1 as int) =~= a@);
        assert(b@.take(n2 as int) =~= b@);
    }
    d1[n2]
}

/// Code-point Levenshtein distance, saturated at `i8::MAX`. The inputs are
/// swapped up front so the shorter one bounds the row width; the value is
/// unchanged because the distance is symmetric.
pub fn levenshtien_distance(s1: &str, s2: &str) -> (r: i8)
    ensures
        r as int == sat_dist(s1@, s2@),
{
    let c1 = chars_vec(s1);
    let c2 = chars_vec(s2);
    proof {
        lemma_lev_sym(s1@, s2@);
    }
    let d = if c1.len() > c2.len() {
        lev_core_chars(&c1, &c2)
    } else {
        lev_core_chars(&c2, &c1)
    };
    if d > 127 {
        127
    } else {
        d as i8
    }
}

} // verus!
