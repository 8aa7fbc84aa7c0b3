use vstd::prelude::*;

use crate::raster::{Band, Bounds, bands_chain, lemma_chain_start_le_height};

verus! {

/// An escape-time result a renderer may hand over: a point either never
/// escaped within the iteration limit, or escaped after fewer than 256
/// iterations, so the count fits the 8-bit intensity range.
pub open spec fn valid_escape(e: Option<usize>) -> bool {
    e matches Some(count) ==> count < 256
}

/// The intensity written for one escape-time result: black for a point
/// that never escaped, and otherwise brighter the longer the point
/// resisted before diverging.
pub open spec fn shade(e: Option<usize>) -> u8
    recommends
        valid_escape(e),
{
    match e {
        Option::None => 0,
        Option::Some(count) => if count < 256 {
            (255 - count) as u8
        } else {
            0
        },
    }
}

/// The bytes produced by shading every escape-time result of a buffer.
pub open spec fn shade_all(es: Seq<Option<usize>>) -> Seq<u8> {
    es.map_values(|e: Option<usize>| shade(e))
}

/// Map an escape-time result to a grayscale intensity.
pub fn intensity(escape: Option<usize>) -> (r: u8)
    requires
        valid_escape(escape),
    ensures
        r == shade(escape),
{
    match escape {
        None => 0,
        Some(count) => (255 - count) as u8,
    }
}

/// Whether a buffer of `len` bytes is exactly the size the grid needs.
/// A renderer's caller makes this check before handing a band over: a
/// mismatched buffer is a broken contract, not a recoverable state.
pub fn band_buffer_matches(len: usize, bounds: Bounds) -> (r: bool)
    ensures
        r <==> len == bounds.area(),
{
    match bounds.width.checked_mul(bounds.height) {
        Some(area) => len == area,
        None => false,
    }
}

/// The slice of a row-major whole-image buffer that belongs to one band:
/// everything between the band's first row and the row past its last.
pub open spec fn band_rows<A>(buf: Seq<A>, width: int, band: Band) -> Seq<A> {
    buf.subrange(band.top * width, (band.top + band.height) * width)
}

/// Fill a band's pixel buffer from the escape-time results of its points,
/// one byte per pixel in row-major order.
pub fn render_band(pixels: &mut Vec<u8>, bounds: Bounds, escapes: &Vec<Option<usize>>)
    requires
        bounds.wf(),
        old(pixels)@.len() == bounds.area(),
        escapes@.len() == bounds.area(),
        forall|i: int| 0 <= i < escapes@.len() ==> valid_escape(#[trigger] escapes@[i]),
    ensures
        final(pixels)@.len() == old(pixels)@.len(),
        final(pixels)@ == shade_all(escapes@),
{
    let width = bounds.width;
    let height = bounds.height;
    let mut row: usize = 0;
    while row < height
        invariant
            bounds.wf(),
            width == bounds.width,
            height == bounds.height,
            row <= height,
            pixels@.len() == bounds.area(),
            escapes@.len() == bounds.area(),
            forall|i: int| 0 <= i < escapes@.len() ==> valid_escape(#[trigger] escapes@[i]),
            forall|i: int| 0 <= i < row * width ==> pixels@[i] == shade(#[trigger] escapes@[i]),
        decreases height - row,
    {
        proof {
            vstd::arithmetic::mul::lemma_mul_inequality(
                row as int + 1,
                height as int,
                width as int,
            );
            assert((row + 1) * width == row * width + width) by (nonlinear_arith);
        }
        let base = row * width;
        let mut col: usize = 0;
        while col < width
            invariant
                bounds.wf(),
                width == bounds.width,
                height == bounds.height,
                row < height,
                col <= width,
                base == row * width,
                base + width <= bounds.area(),
                pixels@.len() == bounds.area(),
                escapes@.len() == bounds.area(),
                forall|i: int| 0 <= i < escapes@.len() ==> valid_escape(#[trigger] escapes@[i]),
                forall|i: int|
                    0 <= i < base + col ==> pixels@[i] == shade(#[trigger] escapes@[i]),
            decreases width - col,
        {
            let idx = base + col;
            pixels[idx] = intensity(escapes[idx]);
            col = col + 1;
        }
        row = row + 1;
        proof {
            assert(row * width == (row - 1) * width + width) by (nonlinear_arith);
        }
    }
    proof {
        assert(height * width == width * height) by (nonlinear_arith);
        assert(pixels@ =~= shade_all(escapes@));
    }
}

/// A zero-filled pixel buffer, the state of the image before any worker
/// has rendered its band.
pub fn zero_buffer(len: usize) -> (v: Vec<u8>)
    ensures
        v@.len() == len,
        forall|i: int| 0 <= i < len ==> v@[i] == 0u8,
{
    let mut v: Vec<u8> = Vec::new();
    while v.len() < len
        invariant
            v@.len() <= len,
            forall|i: int| 0 <= i < v@.len() ==> v@[i] == 0u8,
        decreases len - v@.len(),
    {
        v.push(0u8);
    }
    v
}

/// Render the whole image band by band, as the scheduler does with one
/// worker after another: split the rows into bands, shade each band's
/// escape-time results on their own, and lay the outputs end to end.
/// The result is byte for byte the shading of the whole buffer.
pub fn render_banded(bounds: Bounds, rows_per_band: usize, escapes: &Vec<Option<usize>>) -> (pixels:
    Vec<u8>)
    requires
        bounds.wf(),
        rows_per_band >= 1,
        escapes@.len() == bounds.area(),
        forall|i: int| 0 <= i < escapes@.len() ==> valid_escape(#[trigger] escapes@[i]),
    ensures
        pixels@.len() == bounds.area(),
        pixels@ == shade_all(escapes@),
{
    let width = bounds.width;
    let height = bounds.height;
    let bands = crate::raster::partition_bands(height, rows_per_band);
    let n = bands.len();
    let mut pixels: Vec<u8> = Vec::new();
    proof {
        let m = bands@.len() as int;
        assert forall|k: int|
            0 <= k < m - 1 implies (#[trigger] bands@[k]).top + bands@[k].height == bands@[k
            + 1].top by {
            assert((k + 1) * rows_per_band == k * rows_per_band + rows_per_band) by (nonlinear_arith);
        }
        assert forall|k: int| 0 <= k < m implies (#[trigger] bands@[k]).top <= height by {
            vstd::arithmetic::mul::lemma_mul_inequality(k, m - 1, rows_per_band as int);
        }
        assert(pixels@ =~= shade_all(escapes@.subrange(0, 0)));
    }
    let mut i: usize = 0;
    while i < n
        invariant
            bounds.wf(),
            width == bounds.width,
            height == bounds.height,
            escapes@.len() == bounds.area(),
            forall|k: int| 0 <= k < escapes@.len() ==> valid_escape(#[trigger] escapes@[k]),
            n == bands@.len(),
            i <= n,
            forall|k: int| 0 <= k < n ==> 1 <= (#[trigger] bands@[k]).height <= rows_per_band,
            forall|k: int|
                0 <= k < n - 1 ==> (#[trigger] bands@[k]).top + bands@[k].height
                    == bands@[k + 1].top,
            forall|k: int| 0 <= k < n ==> (#[trigger] bands@[k]).top <= height,
            bands@[n - 1].top + bands@[n - 1].height == height,
            i < n ==> pixels@.len() == bands@[i as int].top * width,
            i == n ==> pixels@.len() == bounds.area(),
            pixels@ == shade_all(escapes@.subrange(0, pixels@.len() as int)),
        decreases n - i,
    {
        let band = bands[i];
        proof {
            vstd::arithmetic::mul::lemma_mul_inequality(
                band.top as int,
                height as int,
                width as int,
            );
            vstd::arithmetic::mul::lemma_mul_inequality(
                band.top as int + band.height as int,
                height as int,
                width as int,
            );
            assert((band.top + band.height) * width == band.top * width + band.height * width)
                by (nonlinear_arith);
            vstd::arithmetic::mul::lemma_mul_inequality(
                band.height as int,
                height as int,
                width as int,
            );
            assert(height * width == width * height) by (nonlinear_arith);
            assert(band.height * width == width * band.height) by (nonlinear_arith);
        }
        let start = band.top * width;
        let stop = start + band.height * width;
        let mut band_escapes: Vec<Option<usize>> = Vec::new();
        let mut j = start;
        while j < stop
            invariant
                start <= j <= stop,
                stop <= escapes@.len(),
                band_escapes@ == escapes@.subrange(start as int, j as int),
                forall|k: int| 0 <= k < escapes@.len() ==> valid_escape(#[trigger] escapes@[k]),
            decreases stop - j,
        {
            band_escapes.push(escapes[j]);
            proof {
                assert(band_escapes@ =~= escapes@.subrange(start as int, j as int + 1));
            }
            j = j + 1;
        }
        let band_bounds = Bounds { width, height: band.height };
        let mut band_pixels = zero_buffer(band_escapes.len());
        render_band(&mut band_pixels, band_bounds, &band_escapes);
        proof {
            lemma_shade_concat(escapes@, 0, start as int, stop as int);
        }
        pixels.append(&mut band_pixels);
        i = i + 1;
        proof {
            if i < n {
                assert(bands@[i as int].top == bands@[i as int - 1].top + bands@[i as int
                    - 1].height);
            }
        }
    }
    proof {
        assert(escapes@.subrange(0, escapes@.len() as int) =~= escapes@);
    }
    pixels
}

/// The bytes of an image rendered band by band: each band's rows shaded
/// on their own, and the bands' outputs laid end to end in order.
pub open spec fn assemble(es: Seq<Option<usize>>, width: int, bands: Seq<Band>) -> Seq<u8>
    decreases bands.len(),
{
    if bands.len() == 0 {
        Seq::empty()
    } else {
        shade_all(band_rows(es, width, bands[0])) + assemble(es, width, bands.drop_first())
    }
}

/// Shading a buffer piecewise agrees with shading it whole: the shaded
/// bytes of two adjacent stretches, laid end to end, are the shaded bytes
/// of the combined stretch.
pub proof fn lemma_shade_concat(es: Seq<Option<usize>>, a: int, b: int, c: int)
    requires
        0 <= a <= b <= c <= es.len(),
    ensures
        shade_all(es.subrange(a, c)) == shade_all(es.subrange(a, b)) + shade_all(
            es.subrange(b, c),
        ),
{
    assert(shade_all(es.subrange(a, c)) =~= shade_all(es.subrange(a, b)) + shade_all(
        es.subrange(b, c),
    ));
}

/// Assembling a chain of bands that tiles the rows `start .. height`
/// yields exactly the shaded bytes of those rows.
proof fn lemma_assemble_chain(
    es: Seq<Option<usize>>,
    width: int,
    height: int,
    bands: Seq<Band>,
    start: int,
)
    requires
        width > 0,
        0 <= start,
        bands_chain(bands, start, height),
        height * width <= es.len(),
    ensures
        assemble(es, width, bands) == shade_all(es.subrange(start * width, height * width)),
    decreases bands.len(),
{
    lemma_chain_start_le_height(bands, start, height);
    if bands.len() == 0 {
        assert(assemble(es, width, bands) =~= shade_all(
            es.subrange(start * width, height * width),
        ));
    } else {
        let b = bands[0];
        lemma_chain_start_le_height(bands.drop_first(), start + b.height, height);
        lemma_assemble_chain(es, width, height, bands.drop_first(), start + b.height);
        vstd::arithmetic::mul::lemma_mul_inequality(start, start + b.height, width);
        vstd::arithmetic::mul::lemma_mul_inequality(start + b.height, height, width);
        vstd::arithmetic::mul::lemma_mul_inequality(0, start, width);
        lemma_shade_concat(es, start * width, (start + b.height) * width, height * width);
    }
}

/// Rendering band by band loses nothing: for any chain of bands that
/// tiles the whole image, the bands' shaded rows, concatenated in order,
/// are byte for byte the shaded whole-image buffer.
pub proof fn lemma_banded_render_complete(
    es: Seq<Option<usize>>,
    width: int,
    height: int,
    bands: Seq<Band>,
)
    requires
        width > 0,
        height >= 0,
        es.len() == width * height,
        bands_chain(bands, 0, height),
    ensures
        assemble(es, width, bands) == shade_all(es),
{
    assert(height * width == width * height) by (nonlinear_arith);
    lemma_assemble_chain(es, width, height, bands, 0);
    assert(es.subrange(0, height * width) =~= es);
}

/// The rendered image does not depend on how the rows were split among
/// workers: any two chains of bands that tile the whole image assemble
/// to byte-for-byte identical buffers.
pub proof fn lemma_partition_deterministic(
    es: Seq<Option<usize>>,
    width: int,
    height: int,
    first: Seq<Band>,
    second: Seq<Band>,
)
    requires
        width > 0,
        height >= 0,
        es.len() == width * height,
        bands_chain(first, 0, height),
        bands_chain(second, 0, height),
    ensures
        assemble(es, width, first) == assemble(es, width, second),
{
    lemma_banded_render_complete(es, width, height, first);
    lemma_banded_render_complete(es, width, height, second);
}

} // verus!
