use vstd::prelude::*;
use crate::picture::{MAX_PIXELS, Picture, is_square};

verus! {

/// The dissimilarity used to rank reference pictures against a query.
#[derive(Debug, Clone, Copy, PartialEq, Eq, Structural)]
pub enum Metric {
    /// Sum of squared sample differences.
    EuclideanSquared,
    /// Square root of `EuclideanSquared`. The root is monotone, so neighbours are
    /// ranked by the squared sum, which is what `distance` returns for it.
    Euclidean,
    /// Sum of absolute sample differences.
    L1,
    /// Largest absolute sample difference.
    Chebyshev,
}

/// What one pair of samples contributes.
pub open spec fn pixel_cost(m: Metric, x: u8, y: u8) -> nat {
    let d = if x >= y { (x - y) as nat } else { (y - x) as nat };
    match m {
        Metric::EuclideanSquared | Metric::Euclidean => d * d,
        Metric::L1 | Metric::Chebyshev => d,
    }
}

/// How contributions are put together: summed, or the largest kept.
pub open spec fn combine(m: Metric, acc: nat, c: nat) -> nat {
    match m {
        Metric::Chebyshev => if acc >= c { acc } else { c },
        _ => acc + c,
    }
}

/// The metric over the first `n` samples of two rows.
pub open spec fn row_dist(m: Metric, a: Seq<u8>, b: Seq<u8>, n: int) -> nat
    decreases n,
{
    if n <= 0 {
        0
    } else {
        combine(m, row_dist(m, a, b, n - 1), pixel_cost(m, a[n - 1], b[n - 1]))
    }
}

/// The metric over the first `n` rows of two grids.
pub open spec fn grid_dist(m: Metric, a: Seq<Seq<u8>>, b: Seq<Seq<u8>>, n: int) -> nat
    decreases n,
{
    if n <= 0 {
        0
    } else {
        combine(m, grid_dist(m, a, b, n - 1), row_dist(m, a[n - 1], b[n - 1], a[n - 1].len() as int))
    }
}

/// The metric between two pictures of one side.
pub open spec fn dist(m: Metric, a: Seq<Seq<u8>>, b: Seq<Seq<u8>>) -> nat {
    grid_dist(m, a, b, a.len() as int)
}

proof fn lemma_cost_bound(m: Metric, x: u8, y: u8)
    ensures
        pixel_cost(m, x, y) <= 65025,
{
    let d = if x >= y { (x - y) as nat } else { (y - x) as nat };
    assert(d * d <= 255 * 255) by (nonlinear_arith)
        requires d <= 255;
}

proof fn lemma_row_bound(m: Metric, a: Seq<u8>, b: Seq<u8>, n: int)
    requires
        0 <= n <= a.len(),
        n <= b.len(),
    ensures
        row_dist(m, a, b, n) <= n * 65025,
    decreases n,
{
    if n > 0 {
        lemma_row_bound(m, a, b, n - 1);
        lemma_cost_bound(m, a[n - 1], b[n - 1]);
    }
}

proof fn lemma_grid_bound(m: Metric, a: Seq<Seq<u8>>, b: Seq<Seq<u8>>, n: int)
    requires
        is_square(a),
        is_square(b),
        a.len() == b.len(),
        0 <= n <= a.len(),
    ensures
        grid_dist(m, a, b, n) <= n * a.len() * 65025,
    decreases n,
{
    if n > 0 {
        lemma_grid_bound(m, a, b, n - 1);
        lemma_row_bound(m, a[n - 1], b[n - 1], a[n - 1].len() as int);
        assert((n - 1) * a.len() * 65025 + a.len() * 65025 == n * a.len() * 65025) by (nonlinear_arith);
        assert(0 <= (n - 1) * a.len() * 65025) by (nonlinear_arith)
            requires n >= 1;
    }
}

proof fn lemma_cost_self(m: Metric, x: u8)
    ensures
        pixel_cost(m, x, x) == 0,
{
    let d = if x >= x { (x - x) as nat } else { (x - x) as nat };
    assert(d == 0);
    assert(d * d == 0);
}

proof fn lemma_row_self_zero(m: Metric, a: Seq<u8>, n: int)
    ensures
        row_dist(m, a, a, n) == 0,
    decreases n,
{
    if n > 0 {
        lemma_row_self_zero(m, a, n - 1);
        lemma_cost_self(m, a[n - 1]);
    }
}

proof fn lemma_grid_self_zero(m: Metric, a: Seq<Seq<u8>>, n: int)
    ensures
        grid_dist(m, a, a, n) == 0,
    decreases n,
{
    if n > 0 {
        lemma_grid_self_zero(m, a, n - 1);
        lemma_row_self_zero(m, a[n - 1], a[n - 1].len() as int);
    }
}

/// Every metric puts a picture at distance zero from itself.
pub proof fn lemma_metric_self_zero(m: Metric, a: Seq<Seq<u8>>)
    ensures
        dist(m, a, a) == 0,
{
    lemma_grid_self_zero(m, a, a.len() as int);
}

proof fn lemma_row_symmetric(m: Metric, a: Seq<u8>, b: Seq<u8>, n: int)
    ensures
        row_dist(m, a, b, n) == row_dist(m, b, a, n),
    decreases n,
{
    if n > 0 {
        lemma_row_symmetric(m, a, b, n - 1);
    }
}

proof fn lemma_grid_symmetric(m: Metric, a: Seq<Seq<u8>>, b: Seq<Seq<u8>>, n: int)
    requires
        is_square(a),
        is_square(b),
        a.len() == b.len(),
        n <= a.len(),
    ensures
        grid_dist(m, a, b, n) == grid_dist(m, b, a, n),
    decreases n,
{
    if n > 0 {
        lemma_grid_symmetric(m, a, b, n - 1);
        lemma_row_symmetric(m, a[n - 1], b[n - 1], a[n - 1].len() as int);
    }
}

/// Every metric is symmetric on pictures of one side.
pub proof fn lemma_metric_symmetric(m: Metric, a: Seq<Seq<u8>>, b: Seq<Seq<u8>>)
    requires
        is_square(a),
        is_square(b),
        a.len() == b.len(),
    ensures
        dist(m, a, b) == dist(m, b, a),
{
    lemma_grid_symmetric(m, a, b, a.len() as int);
}

/// The metric `m` between two pictures of one side.
pub fn distance(m: Metric, first: &Picture, second: &Picture) -> (r: u64)
    requires
        first.wf(),
        second.wf(),
        first.side() == second.side(),
        first.side() * first.side() <= MAX_PIXELS,
    ensures
        r == dist(m, first@, second@),
{
    let s = first.data.len();
    let ghost a = first@;
    let ghost b = second@;
    let mut acc: u64 = 0;
    let mut i: usize = 0;
    while i < s
        invariant
            i <= s,
            s == a.len(),
            a == first@,
            b == second@,
            a.len() == b.len(),
            is_square(a),
            is_square(b),
            s * s <= MAX_PIXELS,
            acc == grid_dist(m, a, b, i as int),
        decreases s - i,
    {
        assert(a[i as int] == first.data@[i as int]@);
        assert(b[i as int] == second.data@[i as int]@);
        proof {
            lemma_grid_bound(m, a, b, i as int);
        }
        let mut row_acc: u64 = 0;
        let mut j: usize = 0;
        while j < s
            invariant
                i < s,
                j <= s,
                s == a.len(),
                a == first@,
                b == second@,
                a.len() == b.len(),
                is_square(a),
                is_square(b),
                a[i as int] == first.data@[i as int]@,
                b[i as int] == second.data@[i as int]@,
                s * s <= MAX_PIXELS,
                acc == grid_dist(m, a, b, i as int),
                acc <= i * s * 65025,
                row_acc == row_dist(m, a[i as int], b[i as int], j as int),
            decreases s - j,
        {
            proof {
                lemma_row_bound(m, a[i as int], b[i as int], j as int);
                lemma_cost_bound(m, a[i as int][j as int], b[i as int][j as int]);
                assert(i * s * 65025 + j * 65025 + 65025 <= MAX_PIXELS * 65025) by (nonlinear_arith)
                    requires i < s, j < s, s * s <= MAX_PIXELS;
            }
            let x = first.data[i][j];
            let y = second.data[i][j];
            let d: u64 = if x >= y { (x - y) as u64 } else { (y - x) as u64 };
            let c: u64 = match m {
                Metric::EuclideanSquared | Metric::Euclidean => d * d,
                Metric::L1 | Metric::Chebyshev => d,
            };
            row_acc = match m {
                Metric::Chebyshev => if row_acc >= c { row_acc } else { c },
                _ => row_acc + c,
            };
            j = j + 1;
        }
        proof {
            lemma_row_bound(m, a[i as int], b[i as int], s as int);
            assert(i * s * 65025 + s * 65025 <= MAX_PIXELS * 65025) by (nonlinear_arith)
                requires i < s, s * s <= MAX_PIXELS;
        }
        acc = match m {
            Metric::Chebyshev => if acc >= row_acc { acc } else { row_acc },
            _ => acc + row_acc,
        };
        i = i + 1;
    }
    acc
}

/// Sum over all sample pairs of the squared difference.
pub fn euclidean_squared(first: &Picture, second: &Picture) -> (r: u64)
    requires
        first.wf(),
        second.wf(),
        first.side() == second.side(),
        first.side() * first.side() <= MAX_PIXELS,
    ensures
        r == dist(Metric::EuclideanSquared, first@, second@),
{
    distance(Metric::EuclideanSquared, first, second)
}

/// Sum over all sample pairs of the absolute difference.
pub fn l1(first: &Picture, second: &Picture) -> (r: u64)
    requires
        first.wf(),
        second.wf(),
        first.side() == second.side(),
        first.side() * first.side() <= MAX_PIXELS,
    ensures
        r == dist(Metric::L1, first@, second@),
{
    distance(Metric::L1, first, second)
}

/// Largest absolute difference over all sample pairs.
pub fn chebyshev(first: &Picture, second: &Picture) -> (r: u64)
    requires
        first.wf(),
        second.wf(),
        first.side() == second.side(),
        first.side() * first.side() <= MAX_PIXELS,
    ensures
        r == dist(Metric::Chebyshev, first@, second@),
{
    distance(Metric::Chebyshev, first, second)
}

} // verus!
