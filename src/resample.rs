use vstd::prelude::*;
use crate::picture::{Picture, is_square};

verus! {

/// Stride decimation: output sample `(i, j)` is the source sample `(i * f, j * f)`
/// with `f = s / r`.
pub open spec fn decimate(g: Seq<Seq<u8>>, r: nat) -> Seq<Seq<u8>> {
    let f = (g.len() / r) as int;
    Seq::new(r, |i: int| Seq::new(r, |j: int| g[i * f][j * f]))
}

/// Integer-step linear interpolation from `a` towards `b`, `t` steps of `f`; the
/// step is the difference divided by `f`, rounded towards zero.
pub open spec fn lerp(a: int, b: int, t: int, f: int) -> int {
    if a <= b {
        a + ((b - a) / f) * t
    } else {
        a - ((a - b) / f) * t
    }
}

/// Source sample below output index `i`, clamped to the last one.
pub open spec fn lo_index(i: int, f: int, s: int) -> int {
    if i / f < s {
        i / f
    } else {
        s - 1
    }
}

/// Source sample after `lo_index`, clamped to the last one.
pub open spec fn hi_index(i: int, f: int, s: int) -> int {
    if i / f + 1 < s {
        i / f + 1
    } else {
        s - 1
    }
}

/// One line of `s` samples stretched to `r` samples by linear interpolation.
pub open spec fn upsample_line(line: Seq<u8>, r: nat) -> Seq<u8> {
    let s = line.len() as int;
    let f = (r / line.len()) as int;
    Seq::new(
        r,
        |i: int|
            lerp(
                line[lo_index(i, f, s)] as int,
                line[hi_index(i, f, s)] as int,
                i % f,
                f,
            ) as u8,
    )
}

/// Linear interpolation along each row, then along each column.
pub open spec fn upsample(g: Seq<Seq<u8>>, r: nat) -> Seq<Seq<u8>> {
    let s = g.len() as int;
    let f = (r / g.len()) as int;
    let h = g.map_values(|row: Seq<u8>| upsample_line(row, r));
    Seq::new(
        r,
        |i: int|
            Seq::new(
                r,
                |j: int|
                    lerp(
                        h[lo_index(i, f, s)][j] as int,
                        h[hi_index(i, f, s)][j] as int,
                        i % f,
                        f,
                    ) as u8,
            ),
    )
}

/// A square grid of side `s` brought to side `r`.
pub open spec fn resample(g: Seq<Seq<u8>>, r: nat) -> Seq<Seq<u8>> {
    if g.len() == r {
        g
    } else if g.len() > r {
        decimate(g, r)
    } else {
        upsample(g, r)
    }
}

proof fn lemma_lerp_bounds(a: int, b: int, t: int, f: int)
    requires
        0 <= t < f,
    ensures
        a <= b ==> a <= lerp(a, b, t, f) <= b,
        b < a ==> b <= lerp(a, b, t, f) <= a,
{
    if a <= b {
        let q = (b - a) / f;
        assert(q * f <= b - a) by (nonlinear_arith)
            requires q == (b - a) / f, f > 0, b - a >= 0;
        assert(0 <= q * t <= q * f) by (nonlinear_arith)
            requires 0 <= t < f, q >= 0;
    } else {
        let q = (a - b) / f;
        assert(q * f <= a - b) by (nonlinear_arith)
            requires q == (a - b) / f, f > 0, a - b >= 0;
        assert(0 <= q * t <= q * f) by (nonlinear_arith)
            requires 0 <= t < f, q >= 0;
    }
}

/// The interpolated sample stays between the two samples it interpolates.
fn lerp_u8(a: u8, b: u8, t: usize, f: usize) -> (r: u8)
    requires
        t < f,
    ensures
        r as int == lerp(a as int, b as int, t as int, f as int),
        a <= b ==> a <= r <= b,
        b < a ==> b <= r <= a,
{
    proof {
        lemma_lerp_bounds(a as int, b as int, t as int, f as int);
    }
    if a <= b {
        let step: usize = ((b - a) as usize) / f;
        assert(step * t <= (b - a) as int) by {
            assert(step * t <= step * f) by (nonlinear_arith)
                requires t < f, step >= 0;
            assert(step * f <= (b - a) as int) by (nonlinear_arith)
                requires step == ((b - a) as int) / (f as int), f > 0, b >= a;
        }
        (a as usize + step * t) as u8
    } else {
        let step: usize = ((a - b) as usize) / f;
        assert(step * t <= (a - b) as int) by {
            assert(step * t <= step * f) by (nonlinear_arith)
                requires t < f, step >= 0;
            assert(step * f <= (a - b) as int) by (nonlinear_arith)
                requires step == ((a - b) as int) / (f as int), f > 0, a > b;
        }
        (a as usize - step * t) as u8
    }
}

/// Decimating to side `r1` and then to side `r2` is decimating to side `r2`, when
/// each side divides the one before it.
pub proof fn lemma_decimate_compose(g: Seq<Seq<u8>>, r1: nat, r2: nat)
    requires
        0 < r2,
        0 < r1,
        g.len() % r1 == 0,
        r1 % r2 == 0,
    ensures
        decimate(decimate(g, r1), r2) == decimate(g, r2),
{
    let s = g.len();
    let f1 = s / r1;
    let f2 = r1 / r2;
    assert(s == f1 * r1 && r1 == f2 * r2) by {
        vstd::arithmetic::div_mod::lemma_fundamental_div_mod(s as int, r1 as int);
        vstd::arithmetic::div_mod::lemma_fundamental_div_mod(r1 as int, r2 as int);
    }
    assert(s / r2 == f1 * f2) by {
        assert(s == r2 * (f1 * f2)) by (nonlinear_arith)
            requires s == f1 * r1, r1 == f2 * r2;
        vstd::arithmetic::div_mod::lemma_div_multiples_vanish((f1 * f2) as int, r2 as int);
    }
    let a = decimate(decimate(g, r1), r2);
    let b = decimate(g, r2);
    assert forall|i: int| 0 <= i < r2 implies #[trigger] a[i] == b[i] by {
        assert forall|j: int| 0 <= j < r2 implies #[trigger] a[i][j] == b[i][j] by {
            assert(f2 >= 1) by (nonlinear_arith)
                requires r1 == f2 * r2, r1 > 0, f2 >= 0;
            assert(i * f2 < r1 && j * f2 < r1) by (nonlinear_arith)
                requires 0 <= i < r2, 0 <= j < r2, r1 == f2 * r2, f2 >= 1;
            assert((i * f2) * f1 == i * (f1 * f2) && (j * f2) * f1 == j * (f1 * f2)) by (nonlinear_arith);
        }
        assert(a[i] =~= b[i]);
    }
    assert(a =~= b);
}

/// Each interpolated sample lies between the two source samples that bound it.
pub proof fn lemma_upsample_line_bounded(line: Seq<u8>, r: nat, i: int)
    requires
        0 < line.len() <= r,
        0 <= i < r,
    ensures
        ({
            let s = line.len() as int;
            let f = (r / line.len()) as int;
            let x = line[lo_index(i, f, s)];
            let y = line[hi_index(i, f, s)];
            let v = upsample_line(line, r)[i];
            (x <= y ==> x <= v <= y) && (y < x ==> y <= v <= x)
        }),
{
    let s = line.len() as int;
    let f = (r / line.len()) as int;
    assert(f >= 1) by (nonlinear_arith)
        requires f == r / (s as nat), s > 0, s <= r;
    lemma_lerp_bounds(line[lo_index(i, f, s)] as int, line[hi_index(i, f, s)] as int, i % f, f);
}

/// Resampling a grid to its own side gives it back unchanged.
pub proof fn lemma_resample_identity(g: Seq<Seq<u8>>)
    ensures
        resample(g, g.len()) == g,
{
}

proof fn lemma_step_split(i: int, f: int)
    requires
        i >= 0,
        f >= 1,
    ensures
        i % f < f - 1 ==> (i + 1) / f == i / f && (i + 1) % f == i % f + 1,
        i % f == f - 1 ==> (i + 1) / f == i / f + 1 && (i + 1) % f == 0,
{
    vstd::arithmetic::div_mod::lemma_fundamental_div_mod(i, f);
    let q = i / f;
    assert(q * f == f * q && (q + 1) * f == f * q + f) by (nonlinear_arith);
    assert(0 <= i % f < f);
    if i % f < f - 1 {
        vstd::arithmetic::div_mod::lemma_fundamental_div_mod_converse(i + 1, f, i / f, i % f + 1);
    } else {
        vstd::arithmetic::div_mod::lemma_fundamental_div_mod_converse(i + 1, f, i / f + 1, 0);
    }
}

/// Stretching a non-decreasing line gives a non-decreasing line.
pub proof fn lemma_upsample_line_monotone(line: Seq<u8>, r: nat, i: int)
    requires
        0 < line.len() <= r,
        0 <= i,
        i + 1 < r,
        forall|a: int, b: int| 0 <= a <= b < line.len() ==> line[a] <= line[b],
    ensures
        upsample_line(line, r)[i] <= upsample_line(line, r)[i + 1],
{
    let s = line.len() as int;
    let f = (r / line.len()) as int;
    assert(f >= 1) by (nonlinear_arith)
        requires f == r / (s as nat), s > 0, s <= r;
    lemma_step_split(i, f);
    let lo = lo_index(i, f, s);
    let hi = hi_index(i, f, s);
    let x = line[lo] as int;
    let y = line[hi] as int;
    assert(x <= y);
    lemma_lerp_bounds(x, y, i % f, f);
    if i % f < f - 1 {
        let q = (y - x) / f;
        assert(q >= 0);
        assert(q * (i % f + 1) == q * (i % f) + q) by (nonlinear_arith);
        lemma_lerp_bounds(x, y, i % f + 1, f);
    } else {
        assert(lo_index(i + 1, f, s) == hi);
        assert(lerp(line[hi] as int, line[hi_index(i + 1, f, s)] as int, 0, f) == line[hi] as int);
    }
}

/// The smallest of four samples.
pub open spec fn min4(a: u8, b: u8, c: u8, d: u8) -> u8 {
    let x = if a <= b { a } else { b };
    let y = if c <= d { c } else { d };
    if x <= y { x } else { y }
}

/// The largest of four samples.
pub open spec fn max4(a: u8, b: u8, c: u8, d: u8) -> u8 {
    let x = if a >= b { a } else { b };
    let y = if c >= d { c } else { d };
    if x >= y { x } else { y }
}

/// Each upsampled sample lies between the smallest and the largest of the four
/// source samples that bound it, two rows by two columns.
pub proof fn lemma_upsample_bounded(g: Seq<Seq<u8>>, r: nat, i: int, j: int)
    requires
        is_square(g),
        0 < g.len() <= r,
        0 <= i < r,
        0 <= j < r,
    ensures
        ({
            let s = g.len() as int;
            let f = (r / g.len()) as int;
            let (ra, rb) = (lo_index(i, f, s), hi_index(i, f, s));
            let (ca, cb) = (lo_index(j, f, s), hi_index(j, f, s));
            let v = upsample(g, r)[i][j];
            min4(g[ra][ca], g[ra][cb], g[rb][ca], g[rb][cb]) <= v <= max4(
                g[ra][ca],
                g[ra][cb],
                g[rb][ca],
                g[rb][cb],
            )
        }),
{
    let s = g.len() as int;
    let f = (r / g.len()) as int;
    assert(f >= 1) by (nonlinear_arith)
        requires f == r / (s as nat), s > 0, s <= r;
    let ra = lo_index(i, f, s);
    let rb = hi_index(i, f, s);
    let h = g.map_values(|row: Seq<u8>| upsample_line(row, r));
    assert(g[ra].len() == s && g[rb].len() == s);
    lemma_upsample_line_bounded(g[ra], r, j);
    lemma_upsample_line_bounded(g[rb], r, j);
    lemma_lerp_bounds(h[ra][j] as int, h[rb][j] as int, i % f, f);
}

/// Exact copy of a grid whose side already is the target side.
pub fn copy_into_fixed_array(data: &Vec<Vec<u8>>) -> (r: Vec<Vec<u8>>)
    ensures
        r@.map_values(|row: Vec<u8>| row@) == data@.map_values(|row: Vec<u8>| row@),
{
    let mut out: Vec<Vec<u8>> = Vec::new();
    let mut i: usize = 0;
    while i < data.len()
        invariant
            i <= data.len(),
            out@.len() == i,
            forall|k: int| 0 <= k < i ==> #[trigger] out@[k]@ == data@[k]@,
        decreases data.len() - i,
    {
        let mut row: Vec<u8> = Vec::new();
        let mut j: usize = 0;
        while j < data[i].len()
            invariant
                i < data.len(),
                j <= data@[i as int].len(),
                row@ == data@[i as int]@.subrange(0, j as int),
            decreases data@[i as int].len() - j,
        {
            row.push(data[i][j]);
            j = j + 1;
        }
        assert(row@ == data@[i as int]@);
        out.push(row);
        i = i + 1;
    }
    assert(out@.map_values(|row: Vec<u8>| row@) =~= data@.map_values(|row: Vec<u8>| row@));
    out
}

/// Stride decimation of a square grid of side `s > r` to side `r`.
pub fn scale_down_to(data: &Vec<Vec<u8>>, resolution: usize) -> (r: Vec<Vec<u8>>)
    requires
        0 < resolution < data@.len(),
        is_square(data@.map_values(|row: Vec<u8>| row@)),
    ensures
        r@.map_values(|row: Vec<u8>| row@) == decimate(
            data@.map_values(|row: Vec<u8>| row@),
            resolution as nat,
        ),
{
    let ghost g = data@.map_values(|row: Vec<u8>| row@);
    let s = data.len();
    let f = s / resolution;
    assert(resolution * f <= s && f >= 1) by (nonlinear_arith)
        requires f == s / resolution, resolution > 0, resolution < s;
    let mut out: Vec<Vec<u8>> = Vec::new();
    let mut i: usize = 0;
    while i < resolution
        invariant
            i <= resolution,
            g == data@.map_values(|row: Vec<u8>| row@),
            is_square(g),
            s == data@.len(),
            f == s / resolution,
            resolution * f <= s,
            f >= 1,
            out@.len() == i,
            forall|k: int| 0 <= k < i ==> #[trigger] out@[k]@ == decimate(g, resolution as nat)[k],
        decreases resolution - i,
    {
        assert(i * f + f <= s) by (nonlinear_arith)
            requires i < resolution, resolution * f <= s, f >= 0;
        let y = i * f;
        assert(g[y as int] == data@[y as int]@);
        assert(g[y as int].len() == s);
        let mut row: Vec<u8> = Vec::new();
        let mut j: usize = 0;
        while j < resolution
            invariant
                j <= resolution,
                i < resolution,
                y == i * f,
                y < s,
                g == data@.map_values(|row: Vec<u8>| row@),
                g[y as int].len() == s,
                s == data@.len(),
                f == s / resolution,
                resolution * f <= s,
                g[y as int] == data@[y as int]@,
                f >= 1,
                row@.len() == j,
                forall|k: int| 0 <= k < j ==> #[trigger] row@[k] == g[y as int][k * f],
            decreases resolution - j,
        {
            assert(j * f + f <= s) by (nonlinear_arith)
                requires j < resolution, resolution * f <= s, f >= 0;
            row.push(data[y][j * f]);
            j = j + 1;
        }
        assert(row@ =~= decimate(g, resolution as nat)[i as int]);
        out.push(row);
        i = i + 1;
    }
    assert(out@.map_values(|row: Vec<u8>| row@) =~= decimate(g, resolution as nat));
    out
}


/// One line stretched to `resolution` samples by linear interpolation.
fn upscale_row(line: &Vec<u8>, resolution: usize) -> (r: Vec<u8>)
    requires
        0 < line@.len() <= resolution,
    ensures
        r@ == upsample_line(line@, resolution as nat),
{
    let s = line.len();
    let f = resolution / s;
    assert(f >= 1) by (nonlinear_arith)
        requires f == resolution / s, s > 0, s <= resolution;
    let mut out: Vec<u8> = Vec::new();
    let mut i: usize = 0;
    while i < resolution
        invariant
            i <= resolution,
            s == line@.len(),
            s > 0,
            f == resolution / s,
            f >= 1,
            out@.len() == i,
            forall|k: int| 0 <= k < i ==> #[trigger] out@[k] == upsample_line(line@, resolution as nat)[k],
        decreases resolution - i,
    {
        let k = i / f;
        let lo = if k < s { k } else { s - 1 };
        let hi = if k + 1 < s { k + 1 } else { s - 1 };
        let v = lerp_u8(line[lo], line[hi], i % f, f);
        out.push(v);
        i = i + 1;
    }
    assert(out@ =~= upsample_line(line@, resolution as nat));
    out
}

/// Linear-interpolation upsampling of a square grid of side `0 < s < r` to side `r`.
pub fn upscale_to(data: &Vec<Vec<u8>>, resolution: usize) -> (r: Vec<Vec<u8>>)
    requires
        0 < data@.len() < resolution,
        is_square(data@.map_values(|row: Vec<u8>| row@)),
    ensures
        r@.map_values(|row: Vec<u8>| row@) == upsample(
            data@.map_values(|row: Vec<u8>| row@),
            resolution as nat,
        ),
{
    let ghost g = data@.map_values(|row: Vec<u8>| row@);
    let ghost hs = g.map_values(|row: Seq<u8>| upsample_line(row, resolution as nat));
    let s = data.len();
    let f = resolution / s;
    assert(f >= 1) by (nonlinear_arith)
        requires f == resolution / s, s > 0, s <= resolution;
    let mut h: Vec<Vec<u8>> = Vec::new();
    let mut a: usize = 0;
    while a < s
        invariant
            a <= s,
            s == data@.len(),
            g == data@.map_values(|row: Vec<u8>| row@),
            hs == g.map_values(|row: Seq<u8>| upsample_line(row, resolution as nat)),
            is_square(g),
            s < resolution,
            h@.len() == a,
            forall|k: int| 0 <= k < a ==> #[trigger] h@[k]@ == hs[k],
        decreases s - a,
    {
        assert(g[a as int] == data@[a as int]@);
        let row = upscale_row(&data[a], resolution);
        h.push(row);
        a = a + 1;
    }
    let mut out: Vec<Vec<u8>> = Vec::new();
    let mut i: usize = 0;
    while i < resolution
        invariant
            i <= resolution,
            s == data@.len(),
            s > 0,
            f == resolution / s,
            f >= 1,
            g == data@.map_values(|row: Vec<u8>| row@),
            hs == g.map_values(|row: Seq<u8>| upsample_line(row, resolution as nat)),
            h@.len() == s,
            forall|k: int| 0 <= k < s ==> #[trigger] h@[k]@ == hs[k],
            out@.len() == i,
            forall|k: int| 0 <= k < i ==> #[trigger] out@[k]@ == upsample(g, resolution as nat)[k],
        decreases resolution - i,
    {
        let k = i / f;
        let lo = if k < s { k } else { s - 1 };
        let hi = if k + 1 < s { k + 1 } else { s - 1 };
        let t = i % f;
        assert(h@[lo as int]@.len() == resolution && h@[hi as int]@.len() == resolution);
        let mut row: Vec<u8> = Vec::new();
        let mut j: usize = 0;
        while j < resolution
            invariant
                j <= resolution,
                i < resolution,
                s == data@.len(),
                s > 0,
                f == resolution / s,
                f >= 1,
                lo == lo_index(i as int, f as int, s as int),
                hi == hi_index(i as int, f as int, s as int),
                t == i % f,
                g == data@.map_values(|row: Vec<u8>| row@),
                hs == g.map_values(|row: Seq<u8>| upsample_line(row, resolution as nat)),
                h@.len() == s,
                forall|k: int| 0 <= k < s ==> #[trigger] h@[k]@ == hs[k],
                h@[lo as int]@.len() == resolution,
                h@[hi as int]@.len() == resolution,
                row@.len() == j,
                forall|k: int| 0 <= k < j ==> #[trigger] row@[k] == upsample(g, resolution as nat)[i as int][k],
            decreases resolution - j,
        {
            let v = lerp_u8(h[lo][j], h[hi][j], t, f);
            row.push(v);
            j = j + 1;
        }
        assert(row@ =~= upsample(g, resolution as nat)[i as int]);
        out.push(row);
        i = i + 1;
    }
    assert(out@.map_values(|row: Vec<u8>| row@) =~= upsample(g, resolution as nat));
    out
}


/// Brings a square grid of any positive side to side `resolution`: copied when the
/// sides agree, decimated when it is larger, interpolated when it is smaller.
pub fn scale_raw_picture(raw_data: Vec<Vec<u8>>, resolution: usize) -> (r: Picture)
    requires
        resolution > 0,
        raw_data@.len() > 0,
        is_square(raw_data@.map_values(|row: Vec<u8>| row@)),
    ensures
        r.wf(),
        r.side() == resolution,
        r@ == resample(raw_data@.map_values(|row: Vec<u8>| row@), resolution as nat),
        raw_data@.len() == resolution ==> r@ == raw_data@.map_values(|row: Vec<u8>| row@),
{
    let ghost g = raw_data@.map_values(|row: Vec<u8>| row@);
    if raw_data.len() == resolution {
        let data = copy_into_fixed_array(&raw_data);
        let p = Picture { data };
        assert(p@ == g);
        p
    } else if raw_data.len() > resolution {
        let data = scale_down_to(&raw_data, resolution);
        let p = Picture { data };
        assert(p@ == decimate(g, resolution as nat));
        assert(p.data@.len() == p@.len());
        p
    } else {
        let data = upscale_to(&raw_data, resolution);
        let p = Picture { data };
        assert(p@ == upsample(g, resolution as nat));
        assert(p.data@.len() == p@.len());
        p
    }
}

} // verus!
