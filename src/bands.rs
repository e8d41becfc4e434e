use vstd::prelude::*;

verus! {

/// Number of worker bands that the fixed-band strategy uses by default.
pub const DEFAULT_WORKERS: usize = 8;

/// A run of whole image rows: rows `top .. top + rows`.
#[derive(Clone, Copy, Debug, PartialEq, Eq, Structural)]
pub struct Band {
    pub top: usize,
    pub rows: usize,
}

/// `height / workers`, rounded up.
pub open spec fn ceil_div(height: nat, workers: nat) -> nat
    recommends
        workers > 0,
{
    ((height + workers - 1) / workers as int) as nat
}

/// Rows left in an image of `height` rows from row `top` on, at most `step`.
pub open spec fn band_rows(height: nat, step: nat, top: nat) -> nat {
    if height - top < step {
        (height - top) as nat
    } else {
        step
    }
}

/// `bands` cuts `height` rows into consecutive bands of `step` rows, the last
/// one possibly shorter.
pub open spec fn is_band_plan(bands: Seq<Band>, height: nat, step: nat) -> bool {
    &&& bands.len() == ceil_div(height, step)
    &&& forall|i: int|
        0 <= i < bands.len() ==> {
            &&& (#[trigger] bands[i]).top == i * step
            &&& bands[i].rows == band_rows(height, step, (i * step) as nat)
        }
}

/// Rows per band when `height` rows are shared among `workers` bands:
/// the height divided by the worker count, rounded up.
pub fn rows_per_band(height: usize, workers: usize) -> (r: usize)
    requires
        workers > 0,
    ensures
        r == ceil_div(height as nat, workers as nat),
{
    let q = height / workers;
    let m = height % workers;
    proof {
        vstd::arithmetic::div_mod::lemma_fundamental_div_mod(height as int, workers as int);
        assert(q * workers == workers * q) by (nonlinear_arith);
    }
    if m == 0 {
        proof {
            lemma_div_exact(height + workers - 1, workers as int, q as int);
        }
        q
    } else {
        proof {
            assert((q + 1) * workers == q * workers + workers && q <= q * workers)
                by (nonlinear_arith)
                requires
                    workers > 0,
                    q >= 0,
            ;
            lemma_div_exact(height + workers - 1, workers as int, q + 1);
        }
        q + 1
    }
}

proof fn lemma_div_exact(x: int, d: int, q: int)
    requires
        d > 0,
        q * d <= x < q * d + d,
    ensures
        x / d == q,
{
    assert(x / d == q) by (nonlinear_arith)
        requires
            d > 0,
            q * d <= x < q * d + d,
    ;
}

/// Cuts `height` rows into consecutive bands of `step` rows; the last band
/// holds what is left.
pub fn band_plan(height: usize, step: usize) -> (r: Vec<Band>)
    requires
        step > 0,
    ensures
        is_band_plan(r@, height as nat, step as nat),
{
    let mut bands: Vec<Band> = Vec::new();
    let mut top: usize = 0;
    if height == 0 {
        proof {
            lemma_div_exact(step - 1, step as int, 0);
        }
        return bands;
    }
    assert(bands.len() * step == 0) by (nonlinear_arith)
        requires
            bands.len() == 0,
    ;
    while top < height
        invariant
            step > 0,
            height > 0,
            top <= height,
            top < height ==> top == bands.len() * step,
            top == height ==> bands.len() == ceil_div(height as nat, step as nat),
            forall|i: int|
                0 <= i < bands.len() ==> {
                    &&& (#[trigger] bands@[i]).top == i * step
                    &&& bands@[i].rows == band_rows(height as nat, step as nat, (i * step) as nat)
                },
        decreases height - top,
    {
        let left = height - top;
        let ghost k = bands.len() as int;
        if left <= step {
            bands.push(Band { top, rows: left });
            proof {
                assert((k + 1) * step == k * step + step) by (nonlinear_arith);
                lemma_div_exact(height + step - 1, step as int, k + 1);
            }
            top = height;
        } else {
            bands.push(Band { top, rows: step });
            assert(top + step == (k + 1) * step) by (nonlinear_arith)
                requires
                    top == k * step,
            ;
            top = top + step;
        }
    }
    bands
}

/// The fixed-band partition: `workers` bands of equal height (the height
/// divided by the worker count, rounded up), the last one possibly shorter
/// and, for small images, fewer bands than workers.
pub fn fixed_bands(height: usize, workers: usize) -> (r: Vec<Band>)
    requires
        workers > 0,
    ensures
        height > 0 ==> ceil_div(height as nat, workers as nat) > 0 && is_band_plan(
            r@,
            height as nat,
            ceil_div(height as nat, workers as nat),
        ),
        height == 0 ==> r@.len() == 0,
{
    let step = rows_per_band(height, workers);
    if height > 0 {
        proof {
            lemma_div_exact(workers as int, workers as int, 1);
            vstd::arithmetic::div_mod::lemma_div_is_ordered(
                workers as int,
                height + workers - 1,
                workers as int,
            );
        }
        band_plan(height, step)
    } else {
        Vec::new()
    }
}

/// The row-parallel partition: one band per image row.
pub fn row_bands(height: usize) -> (r: Vec<Band>)
    ensures
        is_band_plan(r@, height as nat, 1),
        r@.len() == height,
{
    proof {
        lemma_div_exact(height as int, 1, height as int);
    }
    band_plan(height, 1)
}

/// Every row of the image lies in exactly one band of a plan: the band whose
/// index is the row divided by the band height.
pub proof fn lemma_plan_covers_each_row(bands: Seq<Band>, height: nat, step: nat, row: nat)
    requires
        step > 0,
        is_band_plan(bands, height, step),
        row < height,
    ensures
        row / step < bands.len(),
        forall|j: int|
            0 <= j < bands.len() ==> ((#[trigger] bands[j]).top <= row < bands[j].top
                + bands[j].rows <==> j == row / step),
{
    let r = row as int;
    let s = step as int;
    let q = r / s;
    vstd::arithmetic::div_mod::lemma_fundamental_div_mod(r, s);
    assert(q * s <= r < q * s + s) by (nonlinear_arith)
        requires
            r == s * q + r % s,
            0 <= r % s < s,
    ;
    assert((q + 1) * s == q * s + s) by (nonlinear_arith);
    lemma_div_exact((q + 1) * s, s, q + 1);
    vstd::arithmetic::div_mod::lemma_div_is_ordered((q + 1) * s, height + s - 1, s);
    assert forall|j: int| 0 <= j < bands.len() implies ((#[trigger] bands[j]).top <= row
        < bands[j].top + bands[j].rows <==> j == q) by {
        if j < q {
            assert(j * s + s <= q * s) by (nonlinear_arith)
                requires
                    j < q,
                    s > 0,
            ;
        } else if j > q {
            assert(j * s >= q * s + s) by (nonlinear_arith)
                requires
                    j > q,
                    s > 0,
            ;
        }
    }
}

/// No band of a plan is empty, and each ends within the image.
pub proof fn lemma_plan_bands_nonempty(bands: Seq<Band>, height: nat, step: nat)
    requires
        step > 0,
        is_band_plan(bands, height, step),
    ensures
        forall|j: int|
            0 <= j < bands.len() ==> 0 < (#[trigger] bands[j]).rows && bands[j].top
                + bands[j].rows <= height,
{
    let s = step as int;
    let n = height + s - 1;
    let c = n / s;
    vstd::arithmetic::div_mod::lemma_fundamental_div_mod(n, s);
    assert forall|j: int| 0 <= j < bands.len() implies 0 < (#[trigger] bands[j]).rows
        && bands[j].top + bands[j].rows <= height by {
        assert(j * s + s <= c * s) by (nonlinear_arith)
            requires
                0 <= j < c,
                s > 0,
        ;
        assert(c * s <= n) by (nonlinear_arith)
            requires
                n == s * c + n % s,
                0 <= n % s,
        ;
    }
}

/// Each band of a plan ends where the next one starts, and the last one
/// ends at the bottom of the image: the bands leave no row out.
pub proof fn lemma_plan_band_end(bands: Seq<Band>, height: nat, step: nat, k: int)
    requires
        step > 0,
        is_band_plan(bands, height, step),
        0 <= k < bands.len(),
    ensures
        bands[k].top + bands[k].rows == if k + 1 < bands.len() {
            (k + 1) * step
        } else {
            height as int
        },
{
    let s = step as int;
    assert((k + 1) * s == k * s + s) by (nonlinear_arith);
    lemma_plan_bands_nonempty(bands, height, step);
    if k + 1 < bands.len() {
        assert(bands[k + 1].top + bands[k + 1].rows <= height);
    } else {
        let n = height + s - 1;
        vstd::arithmetic::div_mod::lemma_fundamental_div_mod(n, s);
        assert(k + 1 == n / s);
        assert((k + 1) * s > n - s) by (nonlinear_arith)
            requires
                n == s * (k + 1) + n % s,
                n % s < s,
        ;
    }
}

/// The bytes of a band in a row-major buffer `width` pixels wide: from
/// `top * width` up to `(top + rows) * width`.
pub fn band_bytes(band: Band, width: usize, height: usize) -> (r: (usize, usize))
    requires
        band.top + band.rows <= height,
        width * height <= usize::MAX,
    ensures
        r.0 == band.top * width,
        r.1 == (band.top + band.rows) * width,
        r.0 <= r.1 <= width * height,
{
    proof {
        assert(band.top * width <= (band.top + band.rows) * width <= width * height)
            by (nonlinear_arith)
            requires
                band.top + band.rows <= height,
        ;
    }
    (band.top * width, (band.top + band.rows) * width)
}

} // verus!
