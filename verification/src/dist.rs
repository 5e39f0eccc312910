//! Squared Euclidean distance between integer feature vectors.

use vstd::prelude::*;

verus! {

/// Mathematical squared Euclidean distance: the sum over paired positions of
/// the squared difference. Pairing stops at the end of the shorter sequence
/// (zip truncation); a length mismatch is silently tolerated here, and the
/// datasets a loader produces never exercise it.
pub open spec fn dist_sqr(a: Seq<i32>, b: Seq<i32>) -> int
    decreases a.len(),
{
    if a.len() == 0 || b.len() == 0 {
        0
    } else {
        let d = a[0] - b[0];
        d * d + dist_sqr(a.drop_first(), b.drop_first())
    }
}

/// The distance is a sum of squares, hence never negative.
pub proof fn lemma_dist_sqr_nonneg(a: Seq<i32>, b: Seq<i32>)
    ensures
        dist_sqr(a, b) >= 0,
    decreases a.len(),
{
    if a.len() == 0 || b.len() == 0 {
    } else {
        let d = a[0] - b[0];
        assert(d * d >= 0) by (nonlinear_arith);
        lemma_dist_sqr_nonneg(a.drop_first(), b.drop_first());
    }
}

/// Symmetry: swapping the two vectors does not change the distance.
pub proof fn lemma_dist_sqr_symmetric(a: Seq<i32>, b: Seq<i32>)
    ensures
        dist_sqr(a, b) == dist_sqr(b, a),
    decreases a.len(),
{
    if a.len() == 0 || b.len() == 0 {
    } else {
        let da = a[0] - b[0];
        let db = b[0] - a[0];
        assert(da * da == db * db) by (nonlinear_arith)
            requires
                da == -db,
        ;
        lemma_dist_sqr_symmetric(a.drop_first(), b.drop_first());
    }
}

/// Identity: a vector is at distance zero from itself.
pub proof fn lemma_dist_sqr_identity(a: Seq<i32>)
    ensures
        dist_sqr(a, a) == 0,
    decreases a.len(),
{
    if a.len() == 0 {
    } else {
        lemma_dist_sqr_identity(a.drop_first());
    }
}

/// Peeling one pair off the front of both sequences.
proof fn lemma_dist_sqr_step(a: Seq<i32>, b: Seq<i32>, i: int)
    requires
        0 <= i < a.len(),
        i < b.len(),
    ensures
        dist_sqr(a.skip(i), b.skip(i)) == (a[i] - b[i]) * (a[i] - b[i]) + dist_sqr(
            a.skip(i + 1),
            b.skip(i + 1),
        ),
{
    assert(a.skip(i).drop_first() =~= a.skip(i + 1));
    assert(b.skip(i).drop_first() =~= b.skip(i + 1));
    assert(a.skip(i)[0] == a[i]);
    assert(b.skip(i)[0] == b[i]);
}

/// The distance, accumulated in a `u64`. The caller guarantees that the
/// mathematical sum is representable; every partial sum is then
/// representable too, since all terms are non-negative.
pub fn distance_sqr(x: &Vec<i32>, y: &Vec<i32>) -> (r: u64)
    requires
        dist_sqr(x@, y@) <= u64::MAX,
    ensures
        r == dist_sqr(x@, y@),
{
    let n = if x.len() < y.len() {
        x.len()
    } else {
        y.len()
    };
    let mut acc: u64 = 0;
    let mut i: usize = 0;
    proof {
        assert(x@.skip(0) =~= x@);
        assert(y@.skip(0) =~= y@);
    }
    while i < n
        invariant
            i <= n,
            n <= x@.len(),
            n <= y@.len(),
            n == x@.len() || n == y@.len(),
            dist_sqr(x@, y@) <= u64::MAX,
            acc + dist_sqr(x@.skip(i as int), y@.skip(i as int)) == dist_sqr(x@, y@),
        decreases n - i,
    {
        proof {
            lemma_dist_sqr_step(x@, y@, i as int);
            lemma_dist_sqr_nonneg(x@.skip(i as int + 1), y@.skip(i as int + 1));
        }
        let d: i64 = (x[i] as i64) - (y[i] as i64);
        let ad: u64 = if d < 0 {
            (-d) as u64
        } else {
            d as u64
        };
        proof {
            assert(ad * ad == (x@[i as int] - y@[i as int]) * (x@[i as int] - y@[i as int]))
                by (nonlinear_arith)
                requires
                    d == x@[i as int] - y@[i as int],
                    ad == if d < 0 { -(d as int) } else { d as int },
            ;
        }
        acc = acc + ad * ad;
        i = i + 1;
    }
    proof {
        if n == x@.len() {
            assert(x@.skip(n as int).len() == 0);
        } else {
            assert(y@.skip(n as int).len() == 0);
        }
    }
    acc
}

/// The distance, with an overflow test instead of a precondition: `None`
/// exactly when the mathematical sum does not fit in a `u64`.
pub fn distance_sqr_checked(x: &Vec<i32>, y: &Vec<i32>) -> (r: Option<u64>)
    ensures
        r is Some <==> dist_sqr(x@, y@) <= u64::MAX,
        r is Some ==> r->Some_0 == dist_sqr(x@, y@),
{
    let n = if x.len() < y.len() {
        x.len()
    } else {
        y.len()
    };
    let mut acc: u64 = 0;
    let mut i: usize = 0;
    proof {
        assert(x@.skip(0) =~= x@);
        assert(y@.skip(0) =~= y@);
    }
    while i < n
        invariant
            i <= n,
            n <= x@.len(),
            n <= y@.len(),
            n == x@.len() || n == y@.len(),
            acc + dist_sqr(x@.skip(i as int), y@.skip(i as int)) == dist_sqr(x@, y@),
        decreases n - i,
    {
        proof {
            lemma_dist_sqr_step(x@, y@, i as int);
            lemma_dist_sqr_nonneg(x@.skip(i as int + 1), y@.skip(i as int + 1));
        }
        let d: i64 = (x[i] as i64) - (y[i] as i64);
        let ad: u64 = if d < 0 {
            (-d) as u64
        } else {
            d as u64
        };
        proof {
            assert(ad * ad == (x@[i as int] - y@[i as int]) * (x@[i as int] - y@[i as int]))
                by (nonlinear_arith)
                requires
                    d == x@[i as int] - y@[i as int],
                    ad == if d < 0 { -(d as int) } else { d as int },
            ;
            assert(ad * ad <= 0x4_0000_0000_0000_0000) by (nonlinear_arith)
                requires
                    ad <= 0x1_0000_0000u64,
            ;
        }
        let term: u128 = (ad as u128) * (ad as u128);
        let wide: u128 = (acc as u128) + term;
        if wide > u64::MAX as u128 {
            return None;
        }
        acc = wide as u64;
        i = i + 1;
    }
    proof {
        if n == x@.len() {
            assert(x@.skip(n as int).len() == 0);
        } else {
            assert(y@.skip(n as int).len() == 0);
        }
    }
    Some(acc)
}

} // verus!
