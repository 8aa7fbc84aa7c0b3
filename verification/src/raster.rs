use vstd::prelude::*;

verus! {

/// The pixel grid: a positive width and height whose product fits in
/// `usize`, so a row-major buffer of one byte per pixel is addressable.
#[derive(Clone, Copy, Debug, PartialEq, Eq, Structural)]
pub struct Bounds {
    pub width: usize,
    pub height: usize,
}

impl Bounds {
    /// A well-formed grid: positive extent, addressable area.
    pub open spec fn wf(self) -> bool {
        &&& self.width > 0
        &&& self.height > 0
        &&& self.width * self.height <= usize::MAX
    }

    /// Number of pixels, which is also the byte length of the buffer.
    pub open spec fn area(self) -> int {
        self.width * self.height
    }
}

/// One horizontal strip of the image: the pixel rows
/// `top .. top + height` of the full grid, filled by a single worker.
#[derive(Clone, Copy, Debug, PartialEq, Eq, Structural)]
pub struct Band {
    pub top: usize,
    pub height: usize,
}

/// Ceiling division over the mathematical integers.
pub open spec fn ceil_div(a: int, b: int) -> int
    recommends
        b > 0,
{
    (a + b - 1) / b
}

/// How many rows each worker receives: the image height divided among
/// `worker_count` workers, rounded up so that the bands cover every row.
pub fn rows_per_band(height: usize, worker_count: usize) -> (r: usize)
    requires
        height > 0,
        worker_count > 0,
    ensures
        r == ceil_div(height as int, worker_count as int),
        r >= 1,
{
    let q = height / worker_count;
    let rem = height % worker_count;
    proof {
        vstd::arithmetic::div_mod::lemma_fundamental_div_mod(height as int, worker_count as int);
        if rem == 0 {
            assert(q >= 1) by (nonlinear_arith)
                requires
                    height as int == worker_count as int * (q as int),
                    height > 0,
                    worker_count > 0,
            ;
            vstd::arithmetic::div_mod::lemma_fundamental_div_mod_converse(
                height as int + worker_count as int - 1,
                worker_count as int,
                q as int,
                worker_count as int - 1,
            );
        } else {
            assert((q as int + 1) * worker_count as int == q as int * worker_count as int
                + worker_count as int) by (nonlinear_arith);
            assert(q < usize::MAX) by (nonlinear_arith)
                requires
                    height as int == worker_count as int * (q as int) + rem as int,
                    rem >= 1,
                    worker_count >= 1,
                    q >= 0,
                    height <= usize::MAX,
            ;
            vstd::arithmetic::div_mod::lemma_fundamental_div_mod_converse(
                height as int + worker_count as int - 1,
                worker_count as int,
                q as int + 1,
                rem as int - 1,
            );
        }
    }
    if rem == 0 {
        q
    } else {
        q + 1
    }
}

/// One worker per band never needs more workers than configured: splitting
/// `height` rows into bands of `ceil_div(height, worker_count)` rows each
/// yields at most `worker_count` bands.
pub proof fn lemma_band_count_within_workers(height: int, worker_count: int)
    requires
        height >= 1,
        worker_count >= 1,
    ensures
        1 <= ceil_div(height, worker_count),
        ceil_div(height, ceil_div(height, worker_count)) <= worker_count,
{
    let r = ceil_div(height, worker_count);
    vstd::arithmetic::div_mod::lemma_fundamental_div_mod(
        height + worker_count - 1,
        worker_count,
    );
    assert(worker_count * r >= height);
    assert(r >= 1) by (nonlinear_arith)
        requires
            worker_count * r >= height,
            height >= 1,
            worker_count >= 1,
    ;
    vstd::arithmetic::div_mod::lemma_fundamental_div_mod(height + r - 1, r);
    let q = ceil_div(height, r);
    assert(r * q <= height + r - 1);
    assert(q <= worker_count) by (nonlinear_arith)
        requires
            r * q <= height + r - 1,
            worker_count * r >= height,
            r >= 1,
            worker_count >= 1,
    ;
}

/// A chain of bands that tiles the rows `start .. height` consecutively:
/// each band begins exactly where the previous one ended.
pub open spec fn bands_chain(bands: Seq<Band>, start: int, height: int) -> bool
    decreases bands.len(),
{
    if bands.len() == 0 {
        start == height
    } else {
        &&& bands[0].top == start
        &&& bands[0].height >= 0
        &&& bands_chain(bands.drop_first(), start + bands[0].height, height)
    }
}

/// A chain only moves forward: its starting row is no further down
/// than the row where it ends.
pub proof fn lemma_chain_start_le_height(bands: Seq<Band>, start: int, height: int)
    requires
        bands_chain(bands, start, height),
    ensures
        start <= height,
    decreases bands.len(),
{
    if bands.len() > 0 {
        lemma_chain_start_le_height(bands.drop_first(), start + bands[0].height, height);
    }
}

/// Appending a band that begins at the end of a chain extends the chain.
proof fn lemma_chain_push(bands: Seq<Band>, start: int, end: int, b: Band)
    requires
        bands_chain(bands, start, end),
        b.top == end,
        b.height >= 0,
    ensures
        bands_chain(bands.push(b), start, end + b.height),
    decreases bands.len(),
{
    if bands.len() == 0 {
        assert(bands.push(b).drop_first() =~= Seq::<Band>::empty());
        assert(bands.push(b)[0] == b);
        assert(bands_chain(bands.push(b).drop_first(), start + b.height, end + b.height));
    } else {
        lemma_chain_push(bands.drop_first(), start + bands[0].height, end, b);
        assert(bands.push(b).drop_first() =~= bands.drop_first().push(b));
        assert(bands.push(b)[0] == bands[0]);
    }
}

/// Split the rows `0 .. height` into consecutive bands of `rows_per_band`
/// rows each, the last band holding whatever rows remain.  The bands are
/// disjoint by construction and cover the whole image.
pub fn partition_bands(height: usize, rows_per_band: usize) -> (bands: Vec<Band>)
    requires
        height > 0,
        rows_per_band > 0,
    ensures
        bands_chain(bands@, 0, height as int),
        bands@.len() == ceil_div(height as int, rows_per_band as int),
        bands@.len() >= 1,
        forall|i: int|
            0 <= i < bands@.len() ==> (#[trigger] bands@[i]).top == i * rows_per_band,
        forall|i: int| 0 <= i < bands@.len() ==> 1 <= (#[trigger] bands@[i]).height,
        forall|i: int|
            0 <= i < bands@.len() ==> (#[trigger] bands@[i]).height <= rows_per_band,
        forall|i: int|
            0 <= i < bands@.len() - 1 ==> (#[trigger] bands@[i]).height == rows_per_band,
        bands@[bands@.len() - 1].top + bands@[bands@.len() - 1].height == height,
{
    let mut bands: Vec<Band> = Vec::new();
    let mut top: usize = 0;
    while top < height
        invariant
            height > 0,
            rows_per_band > 0,
            top <= height,
            bands_chain(bands@, 0, top as int),
            bands@.len() * rows_per_band <= height ==> top == bands@.len() * rows_per_band,
            bands@.len() * rows_per_band > height ==> top == height,
            forall|i: int|
                0 <= i < bands@.len() ==> (#[trigger] bands@[i]).top == i * rows_per_band,
            forall|i: int| 0 <= i < bands@.len() ==> 1 <= (#[trigger] bands@[i]).height,
            forall|i: int|
                0 <= i < bands@.len() ==> (#[trigger] bands@[i]).height <= rows_per_band,
            forall|i: int|
                0 <= i < bands@.len() - 1
                    ==> (#[trigger] bands@[i]).height == rows_per_band,
            bands@.len() > 0 ==> bands@[bands@.len() - 1].top
                + bands@[bands@.len() - 1].height == top,
        decreases height - top,
    {
        let remaining = height - top;
        let h = if remaining < rows_per_band {
            remaining
        } else {
            rows_per_band
        };
        let b = Band { top, height: h };
        proof {
            lemma_chain_push(bands@, 0, top as int, b);
            assert((bands@.len() + 1) * rows_per_band == bands@.len() * rows_per_band
                + rows_per_band) by (nonlinear_arith);
            if bands@.len() > 0 {
                assert(bands@.len() * rows_per_band == (bands@.len() - 1) * rows_per_band
                    + rows_per_band) by (nonlinear_arith);
            }
        }
        bands.push(b);
        top = top + h;
    }
    proof {
        let n = bands@.len() as int;
        assert(n >= 1);
        assert(n * rows_per_band >= height);
        assert((n - 1) * rows_per_band == n * rows_per_band - rows_per_band)
            by (nonlinear_arith);
        assert((n - 1) * rows_per_band < height);
        vstd::arithmetic::div_mod::lemma_fundamental_div_mod_converse(
            height as int + rows_per_band as int - 1,
            rows_per_band as int,
            n,
            height + rows_per_band - 1 - n * rows_per_band,
        );
    }
    bands
}

} // verus!
