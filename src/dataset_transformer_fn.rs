use vstd::prelude::*;
use crate::picture::{ClassifiedPicture, MAX_PIXELS, Picture, is_square};

verus! {

/// Each sample set to 0 when it is 0 and to 255 otherwise.
pub open spec fn binarize(g: Seq<Seq<u8>>) -> Seq<Seq<u8>> {
    g.map_values(|row: Seq<u8>| row.map_values(|x: u8| if x == 0 { 0u8 } else { 255u8 }))
}

/// Each sample set to 255 where its draw is 0, and kept otherwise.
pub open spec fn saturate_where(g: Seq<Seq<u8>>, draws: Seq<Seq<usize>>) -> Seq<Seq<u8>> {
    Seq::new(
        g.len(),
        |i: int| Seq::new(g[i].len(), |j: int| if draws[i][j] == 0 { 255u8 } else { g[i][j] }),
    )
}

/// `h` has the shape of `g` and each of its samples is the one of `g` or 255.
pub open spec fn kept_or_saturated(g: Seq<Seq<u8>>, h: Seq<Seq<u8>>) -> bool {
    &&& h.len() == g.len()
    &&& forall|i: int| 0 <= i < g.len() ==> (#[trigger] h[i]).len() == g[i].len()
    &&& forall|i: int, j: int|
        0 <= i < g.len() && 0 <= j < g[i].len() ==> #[trigger] h[i][j] == g[i][j] || h[i][j] == 255
}

/// The largest `s <= cap` with `s * s <= x`, that is the smaller of `cap` and the
/// integer square root of `x`.
pub open spec fn isqrt_below(x: nat, cap: nat) -> nat
    decreases cap,
{
    if cap * cap <= x || cap == 0 {
        cap
    } else {
        isqrt_below(x, (cap - 1) as nat)
    }
}

/// Squared distance between sample `(i, j)` and a centre.
pub open spec fn dist2(c: (usize, usize), i: int, j: int) -> nat {
    ((i - c.0) * (i - c.0) + (j - c.1) * (j - c.1)) as nat
}

/// The radius `r`, or the distance (rounded down) from `(i, j)` to the nearest of
/// the first `n` centres, whichever is smaller.
pub open spec fn min_range(cs: Seq<(usize, usize)>, i: int, j: int, r: nat, n: int) -> nat
    decreases n,
{
    if n <= 0 {
        r
    } else {
        let prev = min_range(cs, i, j, r, n - 1);
        let here = isqrt_below(dist2(cs[n - 1], i, j), r);
        if here < prev {
            here
        } else {
            prev
        }
    }
}

/// The noise level at `(i, j)`: 255 on a centre, falling linearly to 0 at distance `r`.
pub open spec fn noise_level(cs: Seq<(usize, usize)>, i: int, j: int, r: nat) -> u8 {
    (((r - min_range(cs, i, j, r, cs.len() as int)) * 255) / (r as int)) as u8
}

/// Each sample raised to the noise level of its position.
pub open spec fn radial_noise_of(g: Seq<Seq<u8>>, cs: Seq<(usize, usize)>, r: nat) -> Seq<Seq<u8>> {
    Seq::new(
        g.len(),
        |i: int|
            Seq::new(
                g[i].len(),
                |j: int|
                    if g[i][j] >= noise_level(cs, i, j, r) {
                        g[i][j]
                    } else {
                        noise_level(cs, i, j, r)
                    },
            ),
    )
}

/// Every centre lies on a sample of the square grid of side `n`.
pub open spec fn centres_within(cs: Seq<(usize, usize)>, n: nat) -> bool {
    forall|k: int| 0 <= k < cs.len() ==> (#[trigger] cs[k]).0 < n && cs[k].1 < n
}

/// Relies on rand's `Uniform` over `0..n`, sampled with `thread_rng`: a value below `n`
/// (`Uniform::new` panics on an empty range, hence `n > 0`).
#[verifier::external_body]
fn draw_below(n: usize) -> (r: usize)
    requires
        n > 0,
    ensures
        r < n,
{
    rand::Rng::sample(&mut rand::thread_rng(), rand::distributions::Uniform::from(0..n))
}

/// Sets every non-zero sample to 255.
pub fn bw(input: ClassifiedPicture) -> (r: ClassifiedPicture)
    ensures
        r.class == input.class,
        r.picture@ == binarize(input.picture@),
{
    let ghost g = input.picture@;
    let rows = input.picture.data.len();
    let mut out: Vec<Vec<u8>> = Vec::new();
    let mut i: usize = 0;
    while i < rows
        invariant
            i <= rows,
            g == input.picture@,
            rows == g.len(),
            out@.len() == i,
            forall|k: int| 0 <= k < i ==> #[trigger] out@[k]@ == binarize(g)[k],
        decreases rows - i,
    {
        assert(g[i as int] == input.picture.data@[i as int]@);
        let cols = input.picture.data[i].len();
        let mut row: Vec<u8> = Vec::new();
        let mut j: usize = 0;
        while j < cols
            invariant
                i < rows,
                j <= cols,
                g == input.picture@,
                rows == g.len(),
                cols == g[i as int].len(),
                g[i as int] == input.picture.data@[i as int]@,
                row@.len() == j,
                forall|k: int| 0 <= k < j ==> #[trigger] row@[k] == binarize(g)[i as int][k],
            decreases cols - j,
        {
            let x = input.picture.data[i][j];
            row.push(if x == 0 { 0 } else { 255 });
            j = j + 1;
        }
        assert(row@ =~= binarize(g)[i as int]);
        out.push(row);
        i = i + 1;
    }
    let picture = Picture { data: out };
    assert(picture@ =~= binarize(g));
    ClassifiedPicture { picture, class: input.class }
}

/// Sets to 255 each sample whose draw is 0.
pub fn saturate_drawn(input: ClassifiedPicture, draws: &Vec<Vec<usize>>) -> (r: ClassifiedPicture)
    requires
        draws@.len() == input.picture@.len(),
        forall|i: int| 0 <= i < draws@.len() ==> (#[trigger] draws@[i])@.len() == input.picture@[i].len(),
    ensures
        r.class == input.class,
        r.picture@ == saturate_where(input.picture@, draws@.map_values(|d: Vec<usize>| d@)),
{
    let ghost g = input.picture@;
    let ghost ds = draws@.map_values(|d: Vec<usize>| d@);
    let rows = input.picture.data.len();
    let mut out: Vec<Vec<u8>> = Vec::new();
    let mut i: usize = 0;
    while i < rows
        invariant
            i <= rows,
            g == input.picture@,
            ds == draws@.map_values(|d: Vec<usize>| d@),
            rows == g.len(),
            draws@.len() == rows,
            forall|i: int| 0 <= i < draws@.len() ==> (#[trigger] draws@[i])@.len() == g[i].len(),
            out@.len() == i,
            forall|k: int| 0 <= k < i ==> #[trigger] out@[k]@ == saturate_where(g, ds)[k],
        decreases rows - i,
    {
        assert(g[i as int] == input.picture.data@[i as int]@);
        let cols = input.picture.data[i].len();
        let mut row: Vec<u8> = Vec::new();
        let mut j: usize = 0;
        while j < cols
            invariant
                i < rows,
                j <= cols,
                g == input.picture@,
                ds == draws@.map_values(|d: Vec<usize>| d@),
                rows == g.len(),
                draws@.len() == rows,
                cols == g[i as int].len(),
                draws@[i as int]@.len() == cols,
                g[i as int] == input.picture.data@[i as int]@,
                row@.len() == j,
                forall|k: int| 0 <= k < j ==> #[trigger] row@[k] == saturate_where(g, ds)[i as int][k],
            decreases cols - j,
        {
            let x = input.picture.data[i][j];
            row.push(if draws[i][j] == 0 { 255 } else { x });
            j = j + 1;
        }
        assert(row@ =~= saturate_where(g, ds)[i as int]);
        out.push(row);
        i = i + 1;
    }
    let picture = Picture { data: out };
    assert(picture@ =~= saturate_where(g, ds));
    ClassifiedPicture { picture, class: input.class }
}

/// Sets each sample to 255 with chance `1 / rand_range`, keeping it otherwise.
pub fn linear_noise(input: ClassifiedPicture, rand_range: usize) -> (r: ClassifiedPicture)
    requires
        rand_range > 0,
    ensures
        r.class == input.class,
        kept_or_saturated(input.picture@, r.picture@),
{
    let ghost g = input.picture@;
    let rows = input.picture.data.len();
    let mut draws: Vec<Vec<usize>> = Vec::new();
    let mut i: usize = 0;
    while i < rows
        invariant
            i <= rows,
            rand_range > 0,
            g == input.picture@,
            rows == g.len(),
            draws@.len() == i,
            forall|k: int| 0 <= k < i ==> (#[trigger] draws@[k])@.len() == g[k].len(),
        decreases rows - i,
    {
        assert(g[i as int] == input.picture.data@[i as int]@);
        let cols = input.picture.data[i].len();
        let mut row: Vec<usize> = Vec::new();
        let mut j: usize = 0;
        while j < cols
            invariant
                j <= cols,
                rand_range > 0,
                row@.len() == j,
            decreases cols - j,
        {
            row.push(draw_below(rand_range));
            j = j + 1;
        }
        draws.push(row);
        i = i + 1;
    }
    let r = saturate_drawn(input, &draws);
    r
}


proof fn lemma_min_range_le(cs: Seq<(usize, usize)>, i: int, j: int, r: nat, n: int)
    ensures
        min_range(cs, i, j, r, n) <= r,
    decreases n,
{
    if n > 0 {
        lemma_min_range_le(cs, i, j, r, n - 1);
    }
}

/// The smaller of `cap` and the integer square root of `x`.
fn isqrt_capped(x: u64, cap: usize) -> (r: usize)
    ensures
        r == isqrt_below(x as nat, cap as nat),
{
    let mut s: usize = cap;
    let mut done = false;
    while !done && s > 0
        invariant
            s <= cap,
            done ==> s * s <= x,
            isqrt_below(x as nat, cap as nat) == isqrt_below(x as nat, s as nat),
        decreases s + if done { 0int } else { 1int },
    {
        assert((s as nat) * (s as nat) <= u128::MAX) by (nonlinear_arith)
            requires s <= usize::MAX;
        if (s as u128) * (s as u128) <= x as u128 {
            done = true;
        } else {
            s = s - 1;
        }
    }
    s
}

/// Raises each sample to the noise level that the centres give its position.
pub fn radial_noise(input: ClassifiedPicture, centres: &Vec<(usize, usize)>, noise_r: usize) -> (r: ClassifiedPicture)
    requires
        noise_r > 0,
        input.picture.wf(),
        input.picture.side() * input.picture.side() <= MAX_PIXELS,
        centres_within(centres@, input.picture.side()),
    ensures
        r.class == input.class,
        r.picture@ == radial_noise_of(input.picture@, centres@, noise_r as nat),
{
    let ghost g = input.picture@;
    let ghost cs = centres@;
    let n = input.picture.data.len();
    let mut out: Vec<Vec<u8>> = Vec::new();
    let mut i: usize = 0;
    while i < n
        invariant
            i <= n,
            noise_r > 0,
            g == input.picture@,
            cs == centres@,
            n == g.len(),
            is_square(g),
            n * n <= MAX_PIXELS,
            centres_within(cs, n as nat),
            out@.len() == i,
            forall|k: int| 0 <= k < i ==> #[trigger] out@[k]@ == radial_noise_of(g, cs, noise_r as nat)[k],
        decreases n - i,
    {
        assert(g[i as int] == input.picture.data@[i as int]@);
        let mut row: Vec<u8> = Vec::new();
        let mut j: usize = 0;
        while j < n
            invariant
                i < n,
                j <= n,
                noise_r > 0,
                g == input.picture@,
                cs == centres@,
                n == g.len(),
                is_square(g),
                n * n <= MAX_PIXELS,
                centres_within(cs, n as nat),
                g[i as int] == input.picture.data@[i as int]@,
                row@.len() == j,
                forall|k: int| 0 <= k < j ==> #[trigger] row@[k] == radial_noise_of(g, cs, noise_r as nat)[i as int][k],
            decreases n - j,
        {
            let mut m: usize = noise_r;
            let mut k: usize = 0;
            while k < centres.len()
                invariant
                    i < n,
                    j < n,
                    k <= cs.len(),
                    cs == centres@,
                    n * n <= MAX_PIXELS,
                    centres_within(cs, n as nat),
                    m == min_range(cs, i as int, j as int, noise_r as nat, k as int),
                decreases cs.len() - k,
            {
                let c = centres[k];
                let di: u64 = if i >= c.0 { (i - c.0) as u64 } else { (c.0 - i) as u64 };
                let dj: u64 = if j >= c.1 { (j - c.1) as u64 } else { (c.1 - j) as u64 };
                assert(di * di + dj * dj <= 2 * MAX_PIXELS) by (nonlinear_arith)
                    requires di < n, dj < n, n * n <= MAX_PIXELS;
                let d2 = di * di + dj * dj;
                assert(d2 == dist2(c, i as int, j as int)) by (nonlinear_arith)
                    requires
                        d2 == di * di + dj * dj,
                        di == (if i >= c.0 { i - c.0 } else { c.0 - i }),
                        dj == (if j >= c.1 { j - c.1 } else { c.1 - j }),
                        dist2(c, i as int, j as int) == ((i - c.0) * (i - c.0) + (j - c.1) * (j - c.1)) as nat;
                let here = isqrt_capped(d2, noise_r);
                if here < m {
                    m = here;
                }
                k = k + 1;
            }
            proof {
                lemma_min_range_le(cs, i as int, j as int, noise_r as nat, cs.len() as int);
                assert((noise_r - m) * 255 / (noise_r as int) <= 255) by (nonlinear_arith)
                    requires m <= noise_r, noise_r > 0;
            }
            let level = (((noise_r - m) as u128 * 255) / (noise_r as u128)) as u8;
            let x = input.picture.data[i][j];
            row.push(if x >= level { x } else { level });
            j = j + 1;
        }
        assert(row@ =~= radial_noise_of(g, cs, noise_r as nat)[i as int]);
        out.push(row);
        i = i + 1;
    }
    let picture = Picture { data: out };
    assert(picture@ =~= radial_noise_of(g, cs, noise_r as nat));
    ClassifiedPicture { picture, class: input.class }
}

/// The positions `(i, j)` in `0..m` of row `i` whose draw is 0, left to right.
pub open spec fn centres_in_row(row: Seq<usize>, i: int, m: int) -> Seq<(usize, usize)>
    decreases m,
{
    if m <= 0 {
        Seq::empty()
    } else if row[m - 1] == 0 {
        centres_in_row(row, i, m - 1).push((i as usize, (m - 1) as usize))
    } else {
        centres_in_row(row, i, m - 1)
    }
}

/// The positions in the first `n` rows whose draw is 0, in row-major order.
pub open spec fn centres_of_rows(draws: Seq<Seq<usize>>, n: int) -> Seq<(usize, usize)>
    decreases n,
{
    if n <= 0 {
        Seq::empty()
    } else {
        centres_of_rows(draws, n - 1) + centres_in_row(draws[n - 1], n - 1, draws[n - 1].len() as int)
    }
}

/// The positions whose draw is 0, in row-major order.
pub open spec fn centres_of(draws: Seq<Seq<usize>>) -> Seq<(usize, usize)> {
    centres_of_rows(draws, draws.len() as int)
}

/// `draws` holds one draw for each sample of `g`.
pub open spec fn draws_shaped(draws: Seq<Seq<usize>>, g: Seq<Seq<u8>>) -> bool {
    &&& draws.len() == g.len()
    &&& forall|i: int| 0 <= i < g.len() ==> (#[trigger] draws[i]).len() == g[i].len()
}

/// Every draw is below `n`.
pub open spec fn draws_below(draws: Seq<Seq<usize>>, n: nat) -> bool {
    forall|i: int, j: int| 0 <= i < draws.len() && 0 <= j < draws[i].len() ==> #[trigger] draws[i][j] < n
}

/// Makes a centre of each sample whose draw is 0, then raises every sample to the
/// noise level that those centres give it within radius `noise_r`.
pub fn radial_noise_drawn(input: ClassifiedPicture, draws: &Vec<Vec<usize>>, noise_r: usize) -> (r: ClassifiedPicture)
    requires
        noise_r > 0,
        input.picture.wf(),
        input.picture.side() * input.picture.side() <= MAX_PIXELS,
        draws_shaped(draws@.map_values(|d: Vec<usize>| d@), input.picture@),
    ensures
        r.class == input.class,
        r.picture@ == radial_noise_of(
            input.picture@,
            centres_of(draws@.map_values(|d: Vec<usize>| d@)),
            noise_r as nat,
        ),
{
    let ghost g = input.picture@;
    let ghost ds = draws@.map_values(|d: Vec<usize>| d@);
    let n = input.picture.data.len();
    let mut centres: Vec<(usize, usize)> = Vec::new();
    let mut i: usize = 0;
    while i < n
        invariant
            i <= n,
            g == input.picture@,
            ds == draws@.map_values(|d: Vec<usize>| d@),
            n == g.len(),
            is_square(g),
            draws_shaped(ds, g),
            draws@.len() == n,
            centres@ == centres_of_rows(ds, i as int),
            centres_within(centres@, n as nat),
        decreases n - i,
    {
        assert(ds[i as int] == draws@[i as int]@);
        assert(ds[i as int].len() == n);
        let mut j: usize = 0;
        while j < n
            invariant
                i < n,
                j <= n,
                n == g.len(),
                ds == draws@.map_values(|d: Vec<usize>| d@),
                ds[i as int] == draws@[i as int]@,
                ds[i as int].len() == n,
                draws@.len() == n,
                centres@ == centres_of_rows(ds, i as int) + centres_in_row(ds[i as int], i as int, j as int),
                centres_within(centres@, n as nat),
            decreases n - j,
        {
            let ghost before = centres@;
            if draws[i][j] == 0 {
                centres.push((i, j));
                assert(centres@ =~= centres_of_rows(ds, i as int) + centres_in_row(
                    ds[i as int],
                    i as int,
                    j + 1,
                ));
            } else {
                assert(centres@ =~= centres_of_rows(ds, i as int) + centres_in_row(
                    ds[i as int],
                    i as int,
                    j + 1,
                ));
            }
            j = j + 1;
        }
        i = i + 1;
    }
    radial_noise(input, &centres, noise_r)
}

proof fn lemma_row_no_centres(row: Seq<usize>, i: int, m: int)
    requires
        forall|l: int| 0 <= l < m ==> #[trigger] row[l] != 0,
    ensures
        centres_in_row(row, i, m) == Seq::<(usize, usize)>::empty(),
    decreases m,
{
    if m > 0 {
        lemma_row_no_centres(row, i, m - 1);
    }
}

proof fn lemma_rows_no_centres(draws: Seq<Seq<usize>>, n: int)
    requires
        forall|k: int, l: int| 0 <= k < n && 0 <= l < draws[k].len() ==> #[trigger] draws[k][l] != 0,
    ensures
        centres_of_rows(draws, n) == Seq::<(usize, usize)>::empty(),
    decreases n,
{
    if n > 0 {
        lemma_rows_no_centres(draws, n - 1);
        assert forall|l: int| 0 <= l < draws[n - 1].len() implies #[trigger] draws[n - 1][l] != 0 by {}
        lemma_row_no_centres(draws[n - 1], n - 1, draws[n - 1].len() as int);
        assert(centres_of_rows(draws, n) =~= Seq::<(usize, usize)>::empty());
    }
}

/// When no draw is 0 there is no centre, and every sample is kept.
pub proof fn lemma_no_hits_unchanged(g: Seq<Seq<u8>>, draws: Seq<Seq<usize>>, noise_r: nat)
    requires
        noise_r > 0,
        draws_shaped(draws, g),
        forall|i: int, j: int| 0 <= i < draws.len() && 0 <= j < draws[i].len() ==> #[trigger] draws[i][j] != 0,
    ensures
        radial_noise_of(g, centres_of(draws), noise_r) == g,
{
    lemma_rows_no_centres(draws, draws.len() as int);
    let cs = centres_of(draws);
    let h = radial_noise_of(g, cs, noise_r);
    assert forall|i: int| 0 <= i < g.len() implies #[trigger] h[i] == g[i] by {
        assert forall|j: int| 0 <= j < g[i].len() implies #[trigger] h[i][j] == g[i][j] by {
            assert(min_range(cs, i, j, noise_r, 0) == noise_r);
            assert(noise_level(cs, i, j, noise_r) == 0);
        }
        assert(h[i] =~= g[i]);
    }
    assert(h =~= g);
}

proof fn lemma_row_has_centre(row: Seq<usize>, i: int, m: int, j: int)
    requires
        0 <= j < m,
        row[j] == 0,
    ensures
        exists|k: int|
            0 <= k < centres_in_row(row, i, m).len() && #[trigger] centres_in_row(row, i, m)[k] == (
            i as usize,
            j as usize,
        ),
    decreases m,
{
    if j < m - 1 {
        lemma_row_has_centre(row, i, m - 1, j);
        let k = choose|k: int|
            0 <= k < centres_in_row(row, i, m - 1).len() && #[trigger] centres_in_row(row, i, m - 1)[k] == (
            i as usize,
            j as usize,
        );
        assert(centres_in_row(row, i, m)[k] == (i as usize, j as usize));
    } else {
        let k = centres_in_row(row, i, m - 1).len() as int;
        assert(centres_in_row(row, i, m)[k] == (i as usize, j as usize));
    }
}

proof fn lemma_rows_have_centre(draws: Seq<Seq<usize>>, n: int, i: int, j: int)
    requires
        0 <= i < n,
        0 <= j < draws[i].len(),
        draws[i][j] == 0,
    ensures
        exists|k: int|
            0 <= k < centres_of_rows(draws, n).len() && #[trigger] centres_of_rows(draws, n)[k] == (
            i as usize,
            j as usize,
        ),
    decreases n,
{
    let prev = centres_of_rows(draws, n - 1);
    if i < n - 1 {
        lemma_rows_have_centre(draws, n - 1, i, j);
        let k = choose|k: int| 0 <= k < prev.len() && #[trigger] prev[k] == (i as usize, j as usize);
        assert(centres_of_rows(draws, n)[k] == (i as usize, j as usize));
    } else {
        let row = centres_in_row(draws[n - 1], n - 1, draws[n - 1].len() as int);
        lemma_row_has_centre(draws[n - 1], n - 1, draws[n - 1].len() as int, j);
        let k = choose|k: int| 0 <= k < row.len() && #[trigger] row[k] == (i as usize, j as usize);
        assert(centres_of_rows(draws, n)[prev.len() + k] == (i as usize, j as usize));
    }
}

proof fn lemma_isqrt_of_zero(cap: nat)
    ensures
        isqrt_below(0, cap) == 0,
    decreases cap,
{
    if cap > 0 {
        assert(cap * cap > 0) by (nonlinear_arith)
            requires cap > 0;
        lemma_isqrt_of_zero((cap - 1) as nat);
    }
}

proof fn lemma_min_range_le_centre(cs: Seq<(usize, usize)>, i: int, j: int, r: nat, n: int, k: int)
    requires
        0 <= k < n,
    ensures
        min_range(cs, i, j, r, n) <= isqrt_below(dist2(cs[k], i, j), r),
    decreases n,
{
    if k < n - 1 {
        lemma_min_range_le_centre(cs, i, j, r, n - 1, k);
    }
}

/// A sample whose draw is 0 is a centre, and a centre becomes 255.
pub proof fn lemma_hit_is_full(g: Seq<Seq<u8>>, draws: Seq<Seq<usize>>, noise_r: nat, i: usize, j: usize)
    requires
        noise_r > 0,
        draws_shaped(draws, g),
        i < g.len(),
        j < g[i as int].len(),
        draws[i as int][j as int] == 0,
    ensures
        radial_noise_of(g, centres_of(draws), noise_r)[i as int][j as int] == 255,
{
    let cs = centres_of(draws);
    lemma_rows_have_centre(draws, draws.len() as int, i as int, j as int);
    let k = choose|k: int| 0 <= k < cs.len() && #[trigger] cs[k] == (i, j);
    assert(cs[k].0 == i && cs[k].1 == j);
    assert((i - i) * (i - i) + (j - j) * (j - j) == 0);
    assert(dist2(cs[k], i as int, j as int) == 0);
    lemma_isqrt_of_zero(noise_r);
    lemma_min_range_le_centre(cs, i as int, j as int, noise_r, cs.len() as int, k);
    assert(((noise_r - 0) * 255) / (noise_r as int) == 255) by (nonlinear_arith)
        requires noise_r > 0;
    assert(noise_level(cs, i as int, j as int, noise_r) == 255);
}

/// Draws a number below `rand_range` for each sample and hands the draws to
/// `radial_noise_drawn`: a sample whose draw is 0 (chance `1 / rand_range`)
/// becomes a centre of noise of radius `noise_r`.
pub fn nonlinear_noise(input: ClassifiedPicture, rand_range: usize, noise_r: usize) -> (r: ClassifiedPicture)
    requires
        rand_range > 0,
        noise_r > 0,
        input.picture.wf(),
        input.picture.side() * input.picture.side() <= MAX_PIXELS,
    ensures
        r.class == input.class,
        exists|ds: Seq<Seq<usize>>|
            draws_shaped(ds, input.picture@) && draws_below(ds, rand_range as nat) && r.picture@
                == radial_noise_of(input.picture@, centres_of(ds), noise_r as nat),
{
    let ghost g = input.picture@;
    let rows = input.picture.data.len();
    let mut draws: Vec<Vec<usize>> = Vec::new();
    let mut i: usize = 0;
    while i < rows
        invariant
            i <= rows,
            rand_range > 0,
            g == input.picture@,
            rows == g.len(),
            draws@.len() == i,
            forall|k: int| 0 <= k < i ==> (#[trigger] draws@[k])@.len() == g[k].len(),
            forall|k: int, l: int| 0 <= k < i && 0 <= l < draws@[k]@.len() ==> #[trigger] draws@[k]@[l] < rand_range,
        decreases rows - i,
    {
        assert(g[i as int] == input.picture.data@[i as int]@);
        let cols = input.picture.data[i].len();
        let mut row: Vec<usize> = Vec::new();
        let mut j: usize = 0;
        while j < cols
            invariant
                j <= cols,
                rand_range > 0,
                row@.len() == j,
                forall|l: int| 0 <= l < j ==> #[trigger] row@[l] < rand_range,
            decreases cols - j,
        {
            row.push(draw_below(rand_range));
            j = j + 1;
        }
        draws.push(row);
        i = i + 1;
    }
    let ghost ds = draws@.map_values(|d: Vec<usize>| d@);
    assert(draws_shaped(ds, g));
    assert(draws_below(ds, rand_range as nat)) by {
        assert forall|k: int, l: int| 0 <= k < ds.len() && 0 <= l < ds[k].len() implies #[trigger] ds[k][l] < rand_range by {
            assert(ds[k] == draws@[k]@);
        }
    }
    let r = radial_noise_drawn(input, &draws, noise_r);
    assert(draws_shaped(ds, g) && draws_below(ds, rand_range as nat) && r.picture@ == radial_noise_of(g, centres_of(ds), noise_r as nat));
    r
}

} // verus!
