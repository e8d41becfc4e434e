use vstd::prelude::*;
use crate::bands::{Band, is_band_plan, lemma_plan_band_end};
use crate::shading::{shade, shade_of};

verus! {

/// Position of pixel `(col, row)` in a row-major buffer `width` pixels wide.
pub open spec fn pixel_index(width: int, col: int, row: int) -> int {
    row * width + col
}

/// `byte` is the shade of some result that `escape` may give for `(col, row)`.
pub open spec fn shades_outcome<F: Fn(usize, usize) -> Option<u32>>(
    escape: F,
    col: usize,
    row: usize,
    byte: u8,
) -> bool {
    exists|e: Option<u32>| call_ensures(escape, (col, row), e) && byte == shade_of(e)
}

proof fn lemma_index_in_bounds(width: int, height: int, col: int, row: int)
    requires
        0 <= col < width,
        0 <= row < height,
    ensures
        0 <= pixel_index(width, col, row) < width * height,
{
    assert(0 <= row * width + col < width * height) by (nonlinear_arith)
        requires
            0 <= col < width,
            0 <= row < height,
    ;
}

proof fn lemma_earlier_rows_before(width: int, c: int, r: int, row: int)
    requires
        0 <= c < width,
        0 <= r < row,
    ensures
        pixel_index(width, c, r) < row * width,
{
    assert(r * width + c < row * width) by (nonlinear_arith)
        requires
            0 <= c < width,
            0 <= r < row,
    ;
}

/// Fills a buffer of `bounds.0` by `bounds.1` pixels in row-major order:
/// the byte of pixel `(col, row)` is the shade of what `escape` returns for it.
pub fn render<F: Fn(usize, usize) -> Option<u32>>(
    pixels: &mut [u8],
    bounds: (usize, usize),
    escape: F,
)
    requires
        old(pixels)@.len() == bounds.0 * bounds.1,
        forall|c: usize, r: usize|
            c < bounds.0 && r < bounds.1 ==> call_requires(escape, (c, r)),
    ensures
        final(pixels)@.len() == old(pixels)@.len(),
        forall|c: usize, r: usize|
            c < bounds.0 && r < bounds.1 ==> shades_outcome(
                escape,
                c,
                r,
                final(pixels)@[#[trigger] pixel_index(bounds.0 as int, c as int, r as int)],
            ),
{
    let (width, height) = bounds;
    let total = pixels.len();
    let mut row: usize = 0;
    while row < height
        invariant
            pixels@.len() == width * height,
            total == width * height,
            row <= height,
            forall|c: usize, r: usize|
                c < width && r < height ==> call_requires(escape, (c, r)),
            forall|c: usize, r: usize|
                c < width && r < row ==> shades_outcome(
                    escape,
                    c,
                    r,
                    pixels@[#[trigger] pixel_index(width as int, c as int, r as int)],
                ),
        decreases height - row,
    {
        let mut col: usize = 0;
        while col < width
            invariant
                pixels@.len() == width * height,
                total == width * height,
                row < height,
                col <= width,
                forall|c: usize, r: usize|
                    c < width && r < height ==> call_requires(escape, (c, r)),
                forall|c: usize, r: usize|
                    c < width && (r < row || (r == row && c < col)) ==> shades_outcome(
                        escape,
                        c,
                        r,
                        pixels@[#[trigger] pixel_index(width as int, c as int, r as int)],
                    ),
            decreases width - col,
        {
            proof {
                lemma_index_in_bounds(width as int, height as int, col as int, row as int);
            }
            let index = row * width + col;
            let e = escape(col, row);
            let ghost before = pixels@;
            pixels[index] = shade(e);
            assert forall|c: usize, r: usize|
                c < width && (r < row || (r == row && c <= col)) implies shades_outcome(
                    escape,
                    c,
                    r,
                    pixels@[#[trigger] pixel_index(width as int, c as int, r as int)],
                ) by {
                if r < row {
                    lemma_earlier_rows_before(width as int, c as int, r as int, row as int);
                    assert(pixels@[pixel_index(width as int, c as int, r as int)] == before[pixel_index(width as int, c as int, r as int)]);
                } else if c < col {
                    assert(pixels@[pixel_index(width as int, c as int, r as int)] == before[pixel_index(width as int, c as int, r as int)]);
                } else {
                    assert(call_ensures(escape, (col, row), e));
                }
            }
            col = col + 1;
        }
        row = row + 1;
    }
}

/// The image of `width` by `height` pixels, in row-major order, whose pixel
/// `(col, row)` shades the result `escape(col, row)`.
pub open spec fn image_of(
    width: nat,
    height: nat,
    escape: spec_fn(int, int) -> Option<u32>,
) -> Seq<u8> {
    Seq::new(width * height, |i: int| shade_of(escape(i % (width as int), i / (width as int))))
}

/// The per-pixel results as seen from a band starting at image row `top`.
pub open spec fn shifted(
    escape: spec_fn(int, int) -> Option<u32>,
    top: int,
) -> spec_fn(int, int) -> Option<u32> {
    |c: int, r: int| escape(c, top + r)
}

/// The images of the bands, each rendered on its own with rows counted from
/// its top, laid end to end in band order.
pub open spec fn bands_image(
    width: nat,
    bands: Seq<Band>,
    escape: spec_fn(int, int) -> Option<u32>,
) -> Seq<u8>
    decreases bands.len(),
{
    if bands.len() == 0 {
        Seq::empty()
    } else {
        bands_image(width, bands.drop_last(), escape) + image_of(
            width,
            bands.last().rows as nat,
            shifted(escape, bands.last().top as int),
        )
    }
}

proof fn lemma_image_append(
    width: nat,
    top: nat,
    rows: nat,
    escape: spec_fn(int, int) -> Option<u32>,
)
    requires
        width > 0,
    ensures
        image_of(width, top, escape) + image_of(width, rows, shifted(escape, top as int))
            == image_of(width, top + rows, escape),
{
    let w = width as int;
    let a = image_of(width, top, escape);
    let b = image_of(width, rows, shifted(escape, top as int));
    let whole = image_of(width, top + rows, escape);
    assert(w * top + w * rows == w * (top + rows)) by (nonlinear_arith);
    assert forall|i: int| 0 <= i < whole.len() implies (a + b)[i] == whole[i] by {
        if i >= a.len() {
            let j = i - w * top;
            vstd::arithmetic::div_mod::lemma_fundamental_div_mod(j, w);
            let q = j / w;
            let m = j % w;
            assert(i == (top + q) * w + m) by (nonlinear_arith)
                requires
                    j == w * q + m,
                    i == j + w * top,
            ;
            vstd::arithmetic::div_mod::lemma_fundamental_div_mod_converse_div(i, w, top + q, m);
            vstd::arithmetic::div_mod::lemma_fundamental_div_mod_converse_mod(i, w, top + q, m);
        }
    }
    assert(a + b =~= whole);
}

proof fn lemma_bands_prefix(
    width: nat,
    height: nat,
    step: nat,
    bands: Seq<Band>,
    escape: spec_fn(int, int) -> Option<u32>,
    k: int,
)
    requires
        width > 0,
        step > 0,
        is_band_plan(bands, height, step),
        0 <= k <= bands.len(),
    ensures
        k < bands.len() ==> bands_image(width, bands.take(k), escape) == image_of(
            width,
            (k * step) as nat,
            escape,
        ),
        k == bands.len() ==> bands_image(width, bands.take(k), escape) == image_of(
            width,
            height,
            escape,
        ),
    decreases k,
{
    if k == 0 {
        assert(bands_image(width, bands.take(0), escape) =~= image_of(width, 0, escape));
        if bands.len() == 0 {
            assert(height == 0) by (nonlinear_arith)
                requires
                    (height + step - 1) / (step as int) == 0,
                    step > 0,
            ;
        }
    } else {
        lemma_bands_prefix(width, height, step, bands, escape, k - 1);
        assert(bands.take(k).drop_last() =~= bands.take(k - 1));
        lemma_plan_band_end(bands, height, step, k - 1);
        let band = bands[k - 1];
        lemma_image_append(width, band.top as nat, band.rows as nat, escape);
    }
}

/// Rendering the bands of a plan one by one, each with its rows counted from
/// its own top, and laying their images end to end gives the image of the
/// whole: the partition does not change a single byte.
pub proof fn lemma_bands_image_is_whole_image(
    width: nat,
    height: nat,
    step: nat,
    bands: Seq<Band>,
    escape: spec_fn(int, int) -> Option<u32>,
)
    requires
        width > 0,
        step > 0,
        is_band_plan(bands, height, step),
    ensures
        bands_image(width, bands, escape) == image_of(width, height, escape),
{
    lemma_bands_prefix(width, height, step, bands, escape, bands.len() as int);
    assert(bands.take(bands.len() as int) =~= bands);
}

/// What `render` leaves in the buffer, for an evaluator whose result at each
/// pixel is `e(col, row)`, is the image that `e` gives.
pub proof fn lemma_render_is_image<F: Fn(usize, usize) -> Option<u32>>(
    pixels: Seq<u8>,
    bounds: (usize, usize),
    escape: F,
    e: spec_fn(int, int) -> Option<u32>,
)
    requires
        bounds.0 > 0,
        pixels.len() == bounds.0 * bounds.1,
        forall|c: usize, r: usize|
            c < bounds.0 && r < bounds.1 ==> shades_outcome(
                escape,
                c,
                r,
                pixels[#[trigger] pixel_index(bounds.0 as int, c as int, r as int)],
            ),
        forall|c: usize, r: usize, o: Option<u32>|
            #[trigger] call_ensures(escape, (c, r), o) ==> o == e(c as int, r as int),
    ensures
        pixels == image_of(bounds.0 as nat, bounds.1 as nat, e),
{
    let w = bounds.0 as int;
    let h = bounds.1 as int;
    let image = image_of(bounds.0 as nat, bounds.1 as nat, e);
    assert forall|i: int| 0 <= i < pixels.len() implies pixels[i] == image[i] by {
        vstd::arithmetic::div_mod::lemma_fundamental_div_mod(i, w);
        let c = i % w;
        let r = i / w;
        assert(r < h) by (nonlinear_arith)
            requires
                i == w * r + c,
                0 <= c,
                i < w * h,
                w > 0,
        ;
        assert(r >= 0) by (nonlinear_arith)
            requires
                i == w * r + c,
                c < w,
                i >= 0,
                w > 0,
        ;
        assert(pixel_index(w, c, r) == i) by (nonlinear_arith)
            requires
                i == w * r + c,
        ;
        assert(shades_outcome(escape, c as usize, r as usize, pixels[pixel_index(w, c, r)]));
    }
    assert(pixels =~= image);
}

} // verus!
