//! Partition of an image's rows into contiguous bands, one per worker, and
//! the per-band pixel loop that the tiled renderer runs in each worker.

use vstd::prelude::*;
use vstd::arithmetic::div_mod::{lemma_fundamental_div_mod, lemma_fundamental_div_mod_converse};

verus! {

/// Bytes per pixel of the RGBA8 frame buffer.
pub const BYTES_PER_PIXEL: usize = 4;

/// A half-open range of image rows, `[start, end)`.
#[derive(Clone, Copy, Debug, PartialEq, Eq, Structural)]
pub struct RowBand {
    pub start: usize,
    pub end: usize,
}

impl RowBand {
    /// Bytes that the band's rows take in an RGBA8 frame of `width` pixels
    /// per row.
    pub fn byte_len(&self, width: usize) -> (n: usize)
        requires
            self.start <= self.end,
            (self.end - self.start) * width * 4 <= usize::MAX,
        ensures
            n == (self.end - self.start) * width * 4,
    {
        let rows: usize = self.end - self.start;
        assert(rows * width <= rows * width * 4) by (nonlinear_arith);
        rows * width * BYTES_PER_PIXEL
    }
}

/// Size in bytes of an RGBA8 frame of `width` by `height` pixels, or `None`
/// where that size does not fit in a `usize`.
pub fn frame_len(width: usize, height: usize) -> (n: Option<usize>)
    ensures
        width * height * 4 <= usize::MAX ==> n == Some((width * height * 4) as usize),
        width * height * 4 > usize::MAX ==> n is None,
{
    match width.checked_mul(height) {
        Some(pixels) => {
            assert(pixels * 4 == width * height * 4);
            pixels.checked_mul(BYTES_PER_PIXEL)
        },
        None => {
            assert(width * height <= width * height * 4) by (nonlinear_arith);
            None
        },
    }
}

/// Number of workers for an image of `height` rows: the parallelism hint
/// (one when there is none), never more than the rows, and at least one.
pub open spec fn workers_for(hint: Option<usize>, height: int) -> int {
    let n: int = match hint {
        Some(n) => if n >= 1 { n as int } else { 1 },
        None => 1,
    };
    let rows: int = if height >= 1 { height } else { 1 };
    if n <= rows { n } else { rows }
}

/// Number of bands that `workers` workers cut `height` rows into: one per
/// worker, but never more than there are rows.
pub open spec fn band_count(height: int, workers: int) -> int {
    if workers <= height { workers } else { height }
}

/// Band `i` of `n` over `height` rows: `k = height / n` rows from row
/// `i * k`, the last band running to the bottom row and so absorbing the
/// remainder of the division.
pub open spec fn band_matches(b: RowBand, height: int, n: int, i: int) -> bool {
    let k = height / n;
    &&& b.start == i * k
    &&& b.end == if i == n - 1 { height } else { (i + 1) * k }
}

/// `bands` cuts the rows `[0, height)` into consecutive bands of
/// `height / bands.len()` rows, the last one absorbing the remainder;
/// there are no more bands than rows, and none for an image without rows.
pub open spec fn is_band_plan(bands: Seq<RowBand>, height: int) -> bool {
    &&& bands.len() <= height
    &&& bands.len() == 0 ==> height == 0
    &&& forall|i: int|
        0 <= i < bands.len() ==> band_matches(#[trigger] bands[i], height, bands.len() as int, i)
}

proof fn lemma_band_bounds(height: int, n: int, i: int)
    requires
        1 <= n <= height,
        0 <= i < n,
    ensures
        1 <= height / n,
        0 <= i * (height / n),
        (i + 1) * (height / n) <= height,
        i < n - 1 ==> (i + 1) * (height / n) <= (n - 1) * (height / n),
        (n - 1) * (height / n) < height,
        (i + 1) * (height / n) == i * (height / n) + height / n,
{
    let k = height / n;
    lemma_fundamental_div_mod(height, n);
    assert(k >= 1) by (nonlinear_arith)
        requires height == n * k + height % n, 0 <= height % n < n, n <= height;
    assert(n * k <= height);
    assert(0 <= i * k) by (nonlinear_arith)
        requires i >= 0, k >= 1;
    assert((i + 1) * k <= n * k) by (nonlinear_arith)
        requires i + 1 <= n, k >= 1;
    assert((i + 1) * k == i * k + k) by (nonlinear_arith);
    assert((n - 1) * k == n * k - k) by (nonlinear_arith);
    if i < n - 1 {
        assert((i + 1) * k <= (n - 1) * k) by (nonlinear_arith)
            requires i + 1 <= n - 1, k >= 1;
    }
}

/// The bands of a plan are non-empty, disjoint and in increasing order,
/// and together they hold every row of the image exactly once: row `row`
/// lies in band `min(row / k, n - 1)`, where `k = height / n`.
pub proof fn lemma_plan_partitions_rows(bands: Seq<RowBand>, height: int)
    requires
        is_band_plan(bands, height),
    ensures
        forall|i: int, j: int| 0 <= i < j < bands.len() ==> bands[i].end <= bands[j].start,
        forall|i: int| 0 <= i < bands.len() ==> bands[i].start < bands[i].end,
        bands.len() > 0 ==> bands[0].start == 0 && bands.last().end == height,
        forall|row: int|
            0 <= row < height ==> 0 <= #[trigger] band_of_row(row, height, bands.len() as int)
                < bands.len() && bands[band_of_row(row, height, bands.len() as int)].start <= row
                < bands[band_of_row(row, height, bands.len() as int)].end,
{
    let n = bands.len() as int;
    if n > 0 {
        assert(band_matches(bands[0], height, n, 0));
        assert(band_matches(bands[n - 1], height, n, n - 1));
        assert(0 * ((height as int) / n) == 0) by (nonlinear_arith);
    }
    assert forall|i: int, j: int| 0 <= i < j < bands.len() implies bands[i].end
        <= bands[j].start by {
        let k = height / n;
        assert(band_matches(bands[i], height, n, i));
        assert(band_matches(bands[j], height, n, j));
        lemma_band_bounds(height, n, i);
        assert((i + 1) * k <= j * k) by (nonlinear_arith)
            requires i < j, k >= 1;
    }
    assert forall|i: int| 0 <= i < bands.len() implies bands[i].start < bands[i].end by {
        assert(band_matches(bands[i], height, n, i));
        lemma_band_bounds(height, n, i);
    }
    assert forall|row: int| 0 <= row < height implies 0 <= #[trigger] band_of_row(row, height, n)
        < bands.len() && bands[band_of_row(row, height, n)].start <= row < bands[band_of_row(
        row,
        height,
        n,
    )].end by {
        let k = height / n;
        lemma_band_bounds(height, n, 0);
        lemma_fundamental_div_mod(row, k);
        let q = row / k;
        assert(0 <= q) by (nonlinear_arith)
            requires row == k * q + row % k, 0 <= row % k < k, row >= 0;
        assert(q * k <= row < (q + 1) * k) by (nonlinear_arith)
            requires row == k * q + row % k, 0 <= row % k < k;
        let i = band_of_row(row, height, n);
        assert(band_matches(bands[i], height, n, i));
        if q < n - 1 {
            lemma_band_bounds(height, n, q);
        } else {
            lemma_band_bounds(height, n, n - 1);
            assert((n - 1) * k <= q * k) by (nonlinear_arith)
                requires n - 1 <= q, k >= 1;
        }
    }
}

/// The band that holds row `row` when `height` rows are cut into `n` bands.
pub open spec fn band_of_row(row: int, height: int, n: int) -> int {
    let q = row / (height / n);
    if q < n - 1 { q } else { n - 1 }
}

/// Picks how many workers render an image of `height` rows, given the
/// platform's parallelism hint.
pub fn worker_count(hint: Option<usize>, height: usize) -> (n: usize)
    ensures
        n == workers_for(hint, height as int),
        n >= 1,
{
    let n: usize = match hint {
        Some(n) => if n >= 1 { n } else { 1 },
        None => 1,
    };
    let rows: usize = if height >= 1 { height } else { 1 };
    if n <= rows { n } else { rows }
}

/// Splits the rows `[0, height)` into one band per worker, never more
/// bands than rows: each band holds `height / n` rows and the last one
/// also the rows that are left over. An image without rows gets no band.
pub fn plan_bands(height: usize, workers: usize) -> (bands: Vec<RowBand>)
    requires
        workers >= 1,
    ensures
        is_band_plan(bands@, height as int),
        bands@.len() == band_count(height as int, workers as int),
{
    let n: usize = if workers <= height { workers } else { height };
    let mut bands: Vec<RowBand> = Vec::new();
    if n == 0 {
        return bands;
    }
    let k: usize = height / n;
    let mut i: usize = 0;
    let mut start: usize = 0;
    assert(0 * k == 0) by (nonlinear_arith);
    while i < n
        invariant
            1 <= n <= height,
            k == height / n,
            i <= n,
            start == i * k,
            bands@.len() == i,
            forall|j: int|
                0 <= j < bands@.len() ==> band_matches(#[trigger] bands@[j], height as int, n as int, j),
        decreases n - i,
    {
        proof {
            lemma_band_bounds(height as int, n as int, i as int);
        }
        let end: usize = if i == n - 1 { height } else { start + k };
        bands.push(RowBand { start, end });
        start = start + k;
        i = i + 1;
    }
    bands
}

/// The four bytes of pixel `q` of a band that starts at row `first_row` are
/// a colour that `shade` returned for that pixel's column and row.
pub open spec fn pixel_shaded<F: Fn(usize, usize) -> [u8; 4]>(
    shade: F,
    bytes: Seq<u8>,
    width: int,
    first_row: int,
    q: int,
) -> bool {
    exists|p: [u8; 4]|
        #[trigger] shade.ensures(((q % width) as usize, (first_row + q / width) as usize), p)
            && bytes.subrange(4 * q, 4 * q + 4) == p@
}

/// `bytes` holds the band's rows, row-major, each pixel as the RGBA bytes
/// that `shade` returned for it.
pub open spec fn band_shaded<F: Fn(usize, usize) -> [u8; 4]>(
    shade: F,
    bytes: Seq<u8>,
    band: RowBand,
    width: int,
) -> bool {
    &&& bytes.len() == (band.end - band.start) * width * 4
    &&& forall|q: int|
        0 <= q < (band.end - band.start) * width ==> #[trigger] pixel_shaded(
            shade,
            bytes,
            width,
            band.start as int,
            q,
        )
}

/// Shades every pixel of `band`, rows in increasing order and left to right
/// within a row, and writes its RGBA bytes into `chunk`, the band's own
/// part of the frame buffer. `shade(x, y)` gives the colour of the pixel at
/// column `x` and row `y` of the whole image.
pub fn render_band<F: Fn(usize, usize) -> [u8; 4]>(
    chunk: &mut [u8],
    band: RowBand,
    width: usize,
    shade: &F,
)
    requires
        band.start <= band.end,
        old(chunk)@.len() == (band.end - band.start) * width * 4,
        forall|x: usize, y: usize|
            x < width && band.start <= y < band.end ==> #[trigger] shade.requires((x, y)),
    ensures
        band_shaded(*shade, final(chunk)@, band, width as int),
{
    let ghost rows = band.end - band.start;
    let mut y: usize = band.start;
    let mut o: usize = 0;
    assert(0 * width == 0) by (nonlinear_arith);
    while y < band.end
        invariant
            band.start <= y <= band.end,
            rows == band.end - band.start,
            chunk@.len() == rows * width * 4,
            o == (y - band.start) * width * 4,
            forall|x: usize, yy: usize|
                x < width && band.start <= yy < band.end ==> #[trigger] shade.requires((x, yy)),
            forall|q: int|
                0 <= q < (y - band.start) * width ==> #[trigger] pixel_shaded(
                    *shade,
                    chunk@,
                    width as int,
                    band.start as int,
                    q,
                ),
        decreases band.end - y,
    {
        let ghost row = y - band.start;
        assert((row + 1) * width * 4 == row * width * 4 + width * 4) by (nonlinear_arith);
        assert(row + 1 <= rows);
        assert((row + 1) * width * 4 <= rows * width * 4) by (nonlinear_arith)
            requires row + 1 <= rows;
        let mut x: usize = 0;
        while x < width
            invariant
                band.start <= y < band.end,
                row == y - band.start,
                rows == band.end - band.start,
                chunk@.len() == rows * width * 4,
                (row + 1) * width * 4 <= rows * width * 4,
                x <= width,
                o == (row * width + x) * 4,
                forall|xx: usize, yy: usize|
                    xx < width && band.start <= yy < band.end ==> #[trigger] shade.requires((xx, yy)),
                forall|q: int|
                    0 <= q < row * width + x ==> #[trigger] pixel_shaded(
                        *shade,
                        chunk@,
                        width as int,
                        band.start as int,
                        q,
                    ),
            decreases width - x,
        {
            assert(o + 4 <= chunk@.len()) by (nonlinear_arith)
                requires
                    o == (row * width + x) * 4,
                    x < width,
                    (row + 1) * width * 4 <= chunk@.len();
            let px: [u8; 4] = shade(x, y);
            let ghost before = chunk@;
            chunk[o] = px[0];
            chunk[o + 1] = px[1];
            chunk[o + 2] = px[2];
            chunk[o + 3] = px[3];
            proof {
                let q = row * width + x;
                lemma_fundamental_div_mod_converse(q, width as int, row, x as int);
                assert(chunk@.subrange(4 * q, 4 * q + 4) =~= px@);
                assert((q % width as int) as usize == x);
                assert((band.start + q / width as int) as usize == y);
                assert(shade.ensures(((q % width as int) as usize, (band.start + q / width as int) as usize), px));
                assert(pixel_shaded(*shade, chunk@, width as int, band.start as int, q));
                assert forall|r: int| 0 <= r < q implies #[trigger] pixel_shaded(
                    *shade,
                    chunk@,
                    width as int,
                    band.start as int,
                    r,
                ) by {
                    assert(pixel_shaded(*shade, before, width as int, band.start as int, r));
                    let p = choose|p: [u8; 4]|
                        #[trigger] shade.ensures(
                            ((r % width as int) as usize, (band.start + r / width as int) as usize),
                            p,
                        ) && before.subrange(4 * r, 4 * r + 4) == p@;
                    assert(chunk@.subrange(4 * r, 4 * r + 4) =~= before.subrange(4 * r, 4 * r + 4));
                }
            }
            o = o + 4;
            x = x + 1;
        }
        assert(row * width + width == (row + 1) * width) by (nonlinear_arith);
        y = y + 1;
    }
}

/// The frame of `height` rows of `width` pixels, RGBA8, row-major and top
/// row first, where `colour(x, y)` is the RGBA of the pixel at column `x`
/// and row `y`.
pub open spec fn frame_bytes(width: int, height: int, colour: spec_fn(int, int) -> Seq<u8>) -> Seq<
    u8,
> {
    Seq::new((width * height * 4) as nat, |b: int| colour((b / 4) % width, (b / 4) / width)[b % 4])
}

/// What `shade` returns for the pixel at column `x` and row `y` is always
/// `colour(x, y)`: the pixel's colour depends on the pixel alone.
pub open spec fn shades_as<F: Fn(usize, usize) -> [u8; 4]>(
    shade: F,
    colour: spec_fn(int, int) -> Seq<u8>,
) -> bool {
    forall|x: usize, y: usize, p: [u8; 4]|
        #[trigger] shade.ensures((x, y), p) ==> p@ == colour(x as int, y as int)
}

/// A band written by `render_band` with a shader that depends on the pixel
/// alone is the band's own slice of the whole frame.
pub proof fn lemma_band_is_frame_slice<F: Fn(usize, usize) -> [u8; 4]>(
    shade: F,
    colour: spec_fn(int, int) -> Seq<u8>,
    bytes: Seq<u8>,
    band: RowBand,
    width: usize,
    height: usize,
)
    requires
        band.start <= band.end <= height,
        band_shaded(shade, bytes, band, width as int),
        shades_as(shade, colour),
    ensures
        bytes == frame_bytes(width as int, height as int, colour).subrange(
            band.start * width * 4,
            band.end * width * 4,
        ),
{
    let frame = frame_bytes(width as int, height as int, colour);
    let lo = band.start * width * 4;
    let hi = band.end * width * 4;
    assert(hi - lo == (band.end - band.start) * width * 4) by (nonlinear_arith)
        requires lo == band.start * width * 4, hi == band.end * width * 4;
    assert(lo <= hi) by (nonlinear_arith)
        requires band.start <= band.end, lo == band.start * width * 4, hi == band.end * width * 4;
    assert(hi <= width * height * 4) by (nonlinear_arith)
        requires band.end <= height, hi == band.end * width * 4;
    if width > 0 {
        assert forall|b: int| 0 <= b < bytes.len() implies bytes[b] == frame[lo + b] by {
            let q = b / 4;
            let c = b % 4;
            lemma_fundamental_div_mod(b, 4);
            assert(0 <= q < (band.end - band.start) * width);
            assert(pixel_shaded(shade, bytes, width as int, band.start as int, q));
            let p = choose|p: [u8; 4]|
                #[trigger] shade.ensures(
                    ((q % width as int) as usize, (band.start + q / width as int) as usize),
                    p,
                ) && bytes.subrange(4 * q, 4 * q + 4) == p@;
            lemma_fundamental_div_mod(q, width as int);
            let x = q % width as int;
            let r = q / width as int;
            assert(0 <= r) by (nonlinear_arith)
                requires q == width * r + x, 0 <= x < width, q >= 0;
            assert(r < band.end - band.start) by (nonlinear_arith)
                requires
                    q == width * r + x,
                    0 <= x < width,
                    q < (band.end - band.start) * width;
            assert(p@ == colour(x, band.start + r));
            assert(bytes[b] == p@[c]);
            let bb = lo + b;
            assert(bb == 4 * ((band.start + r) * width + x) + c) by (nonlinear_arith)
                requires
                    bb == band.start * width * 4 + b,
                    b == 4 * q + c,
                    q == width * r + x;
            lemma_fundamental_div_mod_converse(bb, 4, (band.start + r) * width + x, c);
            lemma_fundamental_div_mod_converse(
                (band.start + r) * width + x,
                width as int,
                band.start + r,
                x,
            );
        }
    } else {
        assert(bytes.len() == 0) by (nonlinear_arith)
            requires bytes.len() == (band.end - band.start) * width * 4, width == 0;
    }
    assert(bytes =~= frame.subrange(lo, hi));
}

proof fn lemma_band_prefix<F: Fn(usize, usize) -> [u8; 4]>(
    shade: F,
    colour: spec_fn(int, int) -> Seq<u8>,
    width: usize,
    height: usize,
    bands: Seq<RowBand>,
    chunks: Seq<Seq<u8>>,
    m: int,
)
    requires
        is_band_plan(bands, height as int),
        chunks.len() == bands.len(),
        forall|i: int|
            0 <= i < bands.len() ==> band_shaded(shade, #[trigger] chunks[i], bands[i], width as int),
        shades_as(shade, colour),
        0 <= m <= bands.len(),
    ensures
        chunks.take(m).flatten() == frame_bytes(width as int, height as int, colour).subrange(
            0,
            (if m == 0 { 0 } else { bands[m - 1].end as int }) * width * 4,
        ),
    decreases m,
{
    let frame = frame_bytes(width as int, height as int, colour);
    let n = bands.len() as int;
    if m == 0 {
        assert(chunks.take(0) =~= Seq::<Seq<u8>>::empty());
        assert(frame.subrange(0, 0 * (width as int) * 4) =~= Seq::<u8>::empty());
    } else {
        lemma_band_prefix(shade, colour, width, height, bands, chunks, m - 1);
        let b = bands[m - 1];
        assert(band_matches(b, height as int, n, m - 1));
        lemma_band_bounds(height as int, n, m - 1);
        let prev_end: int = if m - 1 == 0 { 0 } else { bands[m - 2].end as int };
        if m - 1 > 0 {
            assert(band_matches(bands[m - 2], height as int, n, m - 2));
            assert((m - 2 + 1) * ((height as int) / n) == (m - 1) * ((height as int) / n));
        } else {
            assert(0 * ((height as int) / n) == 0) by (nonlinear_arith);
        }
        assert(prev_end == b.start);
        assert(b.start <= b.end);
        lemma_band_is_frame_slice(shade, colour, chunks[m - 1], b, width, height);
        assert(chunks.take(m) =~= chunks.take(m - 1).push(chunks[m - 1]));
        chunks.take(m - 1).lemma_flatten_push(chunks[m - 1]);
        assert(b.start * width * 4 <= b.end * width * 4) by (nonlinear_arith)
            requires b.start <= b.end;
        assert(b.end * width * 4 <= width * height * 4) by (nonlinear_arith)
            requires b.end <= height;
        assert(frame.subrange(0, b.start * width * 4) + frame.subrange(
            b.start * width * 4,
            b.end * width * 4,
        ) =~= frame.subrange(0, b.end * width * 4));
    }
}

/// Writing every band of a plan with the same pixel-only shader and laying
/// the bands one after another gives the whole frame, row-major.
pub proof fn lemma_banded_frame<F: Fn(usize, usize) -> [u8; 4]>(
    shade: F,
    colour: spec_fn(int, int) -> Seq<u8>,
    width: usize,
    height: usize,
    bands: Seq<RowBand>,
    chunks: Seq<Seq<u8>>,
)
    requires
        is_band_plan(bands, height as int),
        chunks.len() == bands.len(),
        forall|i: int|
            0 <= i < bands.len() ==> band_shaded(shade, #[trigger] chunks[i], bands[i], width as int),
        shades_as(shade, colour),
    ensures
        chunks.flatten() == frame_bytes(width as int, height as int, colour),
{
    let n = bands.len() as int;
    lemma_band_prefix(shade, colour, width, height, bands, chunks, n);
    assert(chunks.take(n) =~= chunks);
    let frame = frame_bytes(width as int, height as int, colour);
    if n > 0 {
        assert(band_matches(bands[n - 1], height as int, n, n - 1));
    }
    assert(frame.subrange(0, (height as int) * width * 4) =~= frame) by {
        assert(height * width * 4 == width * height * 4) by (nonlinear_arith);
    }
}

/// The tiled renderer's output does not depend on how many workers it uses:
/// two plans for the same image, each band written with the same
/// pixel-only shader, give byte-identical frames, both equal to the
/// row-major frame of the pixels' colours.
pub proof fn lemma_frame_independent_of_workers<F: Fn(usize, usize) -> [u8; 4]>(
    shade: F,
    colour: spec_fn(int, int) -> Seq<u8>,
    width: usize,
    height: usize,
    bands_a: Seq<RowBand>,
    chunks_a: Seq<Seq<u8>>,
    bands_b: Seq<RowBand>,
    chunks_b: Seq<Seq<u8>>,
)
    requires
        is_band_plan(bands_a, height as int),
        is_band_plan(bands_b, height as int),
        chunks_a.len() == bands_a.len(),
        chunks_b.len() == bands_b.len(),
        forall|i: int|
            0 <= i < bands_a.len() ==> band_shaded(
                shade,
                #[trigger] chunks_a[i],
                bands_a[i],
                width as int,
            ),
        forall|i: int|
            0 <= i < bands_b.len() ==> band_shaded(
                shade,
                #[trigger] chunks_b[i],
                bands_b[i],
                width as int,
            ),
        shades_as(shade, colour),
    ensures
        chunks_a.flatten() == chunks_b.flatten(),
        chunks_a.flatten() == frame_bytes(width as int, height as int, colour),
{
    lemma_banded_frame(shade, colour, width, height, bands_a, chunks_a);
    lemma_banded_frame(shade, colour, width, height, bands_b, chunks_b);
}

} // verus!
