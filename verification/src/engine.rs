use vstd::prelude::*;

use crate::preprocessing::{region_is_valid, regions_check, RecPreProcessorError, RecTextRegion};

verus! {

/// In-memory ONNX assets for hosts without a filesystem (browser WASM).
#[derive(Debug, Clone, Copy)]
pub struct OnnxModelBytes<'a> {
    pub det: &'a [u8],
    pub rec: &'a [u8],
    pub text_line_ori: &'a [u8],
    pub doc_ori: &'a [u8],
    pub dictionary: &'a [u8],
}

/// The larger of two integers.
pub open spec fn max_int(a: int, b: int) -> int {
    if a < b { b } else { a }
}

/// The smaller of two integers.
pub open spec fn min_int(a: int, b: int) -> int {
    if a < b { a } else { b }
}

/// One side of a detected box clamped to `[0, limit]` (`limit` at least 1):
/// the start is `lo` raised to 0, the end is `hi` lowered to `limit`; an empty
/// span is widened by one, and when even that is empty (the start already at
/// the limit) the span becomes the last unit before the limit.
pub open spec fn clamp_span(lo: int, hi: int, limit: int) -> (int, int) {
    let start = max_int(lo, 0);
    let end = min_int(hi, limit);
    let end = if end <= start { min_int(start + 1, limit) } else { end };
    if end <= start {
        (max_int(limit - 1, 0), limit)
    } else {
        (start, end)
    }
}

/// The text region of a detected polygon from its bounds: `lo_x`/`lo_y` are
/// the polygon's least coordinates rounded down, `hi_x`/`hi_y` its greatest
/// rounded up; the box is clamped into the image (a side of 0 counts as 1).
pub open spec fn region_from_bounds_spec(
    lo_x: i64,
    lo_y: i64,
    hi_x: i64,
    hi_y: i64,
    image_w: u32,
    image_h: u32,
) -> RecTextRegion {
    let w = max_int(image_w as int, 1);
    let h = max_int(image_h as int, 1);
    let (x1, x2) = clamp_span(lo_x as int, hi_x as int, w);
    let (y1, y2) = clamp_span(lo_y as int, hi_y as int, h);
    RecTextRegion {
        x: x1 as u32,
        y: y1 as u32,
        width: (x2 - x1) as u32,
        height: (y2 - y1) as u32,
    }
}

/// `[start, end)` is what clamping `[lo, hi)` into `[0, limit)` must give: the
/// overlap of the two when they overlap; otherwise one unit where the clamped
/// start lies inside `[0, limit)`, and the last unit before `limit` when it
/// lies past it.
pub open spec fn spans_clamped(lo: int, hi: int, limit: int, start: int, end: int) -> bool {
    let first = if lo < 0 { 0 } else { lo };
    let last = if hi < limit { hi } else { limit };
    &&& first < last ==> start == first && end == last
    &&& last <= first && first < limit ==> start == first && end == first + 1
    &&& last <= first && first >= limit ==> start == limit - 1 && end == limit
}

/// Clamping a span into `[0, limit)` cuts it at the edges and never moves it:
/// an overlap with `[0, limit)` is kept exactly, and an empty or outside span
/// becomes a single unit, at its clamped start or at the last unit.
pub proof fn law_clamped_span_cuts_at_the_edges(lo: int, hi: int, limit: int)
    requires
        limit >= 1,
    ensures
        spans_clamped(lo, hi, limit, clamp_span(lo, hi, limit).0, clamp_span(lo, hi, limit).1),
{
}

proof fn lemma_clamp_span(lo: int, hi: int, limit: int)
    requires
        limit >= 1,
    ensures
        0 <= clamp_span(lo, hi, limit).0 < clamp_span(lo, hi, limit).1 <= limit,
{
}

/// One side of a box clamped into `[0, limit]`, in exact arithmetic.
fn clamp_span_exec(lo: i64, hi: i64, limit: u32) -> (span: (u32, u32))
    requires
        limit >= 1,
    ensures
        span.0 == clamp_span(lo as int, hi as int, limit as int).0,
        span.1 == clamp_span(lo as int, hi as int, limit as int).1,
{
    let limit_wide = limit as i128;
    let start: i128 = if (lo as i128) < 0 { 0 } else { lo as i128 };
    let mut end: i128 = if (hi as i128) < limit_wide { hi as i128 } else { limit_wide };
    if end <= start {
        end = if start + 1 < limit_wide { start + 1 } else { limit_wide };
    }
    if end <= start {
        (limit - 1, limit)
    } else {
        (start as u32, end as u32)
    }
}

/// The text region of a detected polygon from its bounds (least coordinates
/// rounded down, greatest rounded up), clamped into an image of the given size.
pub fn region_from_bounds(lo_x: i64, lo_y: i64, hi_x: i64, hi_y: i64, image_dims: (u32, u32)) -> (region: RecTextRegion)
    ensures
        region == region_from_bounds_spec(lo_x, lo_y, hi_x, hi_y, image_dims.0, image_dims.1),
        region.width >= 1 && region.height >= 1,
        region.x + region.width <= max_int(image_dims.0 as int, 1),
        region.y + region.height <= max_int(image_dims.1 as int, 1),
        spans_clamped(lo_x as int, hi_x as int, max_int(image_dims.0 as int, 1), region.x as int, region.x
            + region.width),
        spans_clamped(lo_y as int, hi_y as int, max_int(image_dims.1 as int, 1), region.y as int, region.y
            + region.height),
{
    proof {
        law_clamped_span_cuts_at_the_edges(lo_x as int, hi_x as int, max_int(image_dims.0 as int, 1));
        law_clamped_span_cuts_at_the_edges(lo_y as int, hi_y as int, max_int(image_dims.1 as int, 1));
    }
    let image_w = if image_dims.0 == 0 { 1 } else { image_dims.0 };
    let image_h = if image_dims.1 == 0 { 1 } else { image_dims.1 };
    let (x1, x2) = clamp_span_exec(lo_x, hi_x, image_w);
    let (y1, y2) = clamp_span_exec(lo_y, hi_y, image_h);
    proof {
        lemma_clamp_span(lo_x as int, hi_x as int, image_w as int);
        lemma_clamp_span(lo_y as int, hi_y as int, image_h as int);
    }
    RecTextRegion { x: x1, y: y1, width: x2 - x1, height: y2 - y1 }
}

/// A region made from detection bounds is always accepted by the recognition
/// checks of a non-empty image of that size.
pub proof fn law_detected_region_passes_recognition_checks(
    lo_x: i64,
    lo_y: i64,
    hi_x: i64,
    hi_y: i64,
    image_w: u32,
    image_h: u32,
)
    requires
        image_w >= 1,
        image_h >= 1,
    ensures
        region_is_valid(region_from_bounds_spec(lo_x, lo_y, hi_x, hi_y, image_w, image_h), image_w, image_h),
        regions_check(seq![region_from_bounds_spec(lo_x, lo_y, hi_x, hi_y, image_w, image_h)], image_w, image_h)
            == Ok::<(), RecPreProcessorError>(()),
{
    lemma_clamp_span(lo_x as int, hi_x as int, image_w as int);
    lemma_clamp_span(lo_y as int, hi_y as int, image_h as int);
    let r = region_from_bounds_spec(lo_x, lo_y, hi_x, hi_y, image_w, image_h);
    assert(region_is_valid(r, image_w, image_h));
    let s = seq![r];
    assert(forall|i: int| 0 <= i < s.len() ==> region_is_valid(#[trigger] s[i], image_w, image_h));
}

/// The number of lines asked for (at least one).
pub open spec fn line_total(line_count: u32) -> int {
    if line_count == 0 { 1 } else { line_count as int }
}

/// Strip `index` of a band split into `line_count` horizontal strips (at
/// least one). A band with at least one row per strip is shared evenly: each
/// strip starts where the one before ends and the last one also takes what
/// the even share leaves over. A band with fewer rows than strips gives each
/// strip one row, from the top down, the surplus strips on the bottom row. A
/// band of no height gives empty strips at its top.
pub open spec fn band_line(band: RecTextRegion, line_count: u32, index: int) -> RecTextRegion {
    let c = line_total(line_count);
    let h = band.height as int;
    let (y, height) = if h >= c {
        let base = h / c;
        (band.y + index * base, if index + 1 == c { h - (c - 1) * base } else { base })
    } else if h == 0 {
        (band.y as int, 0)
    } else {
        (band.y + min_int(index, h - 1), 1)
    };
    RecTextRegion { x: band.x, y: y as u32, width: band.width, height: height as u32 }
}

/// The share of each strip fits in the band: `c` shares of `h / c` take at
/// most `h`, and for `c <= h` each share is at least one row.
proof fn lemma_strip_share(h: int, c: int, index: int)
    requires
        1 <= c,
        h >= 0,
        0 <= index < c,
        h >= 1 ==> c <= h,
    ensures
        (h / c) * c <= h,
        index * (h / c) <= (c - 1) * (h / c),
        (c - 1) * (h / c) + h / c <= h,
        (index + 1) * (h / c) == index * (h / c) + h / c,
        h >= 1 ==> h / c >= 1,
{
    let base = h / c;
    assert(base * c <= h && base >= 0) by (nonlinear_arith)
        requires
            c >= 1,
            h >= 0,
            base == h / c,
    ;
    assert(index * base <= (c - 1) * base) by (nonlinear_arith)
        requires
            0 <= index < c,
            base >= 0,
    ;
    assert((c - 1) * base + base == c * base) by (nonlinear_arith);
    assert((index + 1) * base == index * base + base) by (nonlinear_arith);
    if h >= 1 {
        assert(base >= 1) by (nonlinear_arith)
            requires
                1 <= c <= h,
                base == h / c,
        ;
    }
}

/// Splits a band into `line_count` horizontal strips (at least one), as the
/// recognizer reads single text lines. Every strip lies inside the band,
/// spans its width and, for a band of some height, is at least one row high;
/// when the band has a row per strip, the strips tile it.
pub fn band_line_regions(band: RecTextRegion, line_count: u32) -> (lines: Vec<RecTextRegion>)
    requires
        band.y + band.height <= u32::MAX,
    ensures
        lines@.len() == line_total(line_count),
        forall|i: int| 0 <= i < lines@.len() ==> #[trigger] lines@[i] == band_line(band, line_count, i),
        forall|i: int|
            0 <= i < lines@.len() ==> {
                &&& band.y <= (#[trigger] lines@[i]).y
                &&& lines@[i].y + lines@[i].height <= band.y + band.height
                &&& band.height >= 1 ==> lines@[i].height >= 1
            },
{
    let count: u32 = if line_count == 0 { 1 } else { line_count };
    let h = band.height;
    let base = h / count;
    let mut lines: Vec<RecTextRegion> = Vec::new();
    let mut index: u32 = 0;
    while index < count
        invariant
            band.y + band.height <= u32::MAX,
            h == band.height,
            count == line_total(line_count),
            base == band.height as int / count as int,
            0 <= index <= count,
            lines@.len() == index,
            forall|i: int| 0 <= i < index ==> #[trigger] lines@[i] == band_line(band, line_count, i),
        decreases count - index,
    {
        let (y, height) = if h >= count {
            proof {
                lemma_strip_share(h as int, count as int, index as int);
            }
            (band.y + index * base, if index + 1 == count { h - index * base } else { base })
        } else if h == 0 {
            (band.y, 0)
        } else {
            (band.y + if index < h - 1 { index } else { h - 1 }, 1)
        };
        lines.push(RecTextRegion { x: band.x, y, width: band.width, height });
        index += 1;
    }
    proof {
        law_band_lines_tile_the_band(band, line_count);
    }
    lines
}

/// Strips stay inside their band on every band, one per line asked for: each
/// lies inside the band, spans its width and, for a band of some height, is
/// at least one row high; the first starts at the band's top. When the band
/// has at least a row per strip they tile it: each next strip starts where
/// the one before ends, and the last ends at the band's bottom.
pub proof fn law_band_lines_tile_the_band(band: RecTextRegion, line_count: u32)
    requires
        band.y + band.height <= u32::MAX,
    ensures
        forall|i: int|
            0 <= i < line_total(line_count) ==> {
                &&& band.y <= (#[trigger] band_line(band, line_count, i)).y
                &&& band_line(band, line_count, i).y + band_line(band, line_count, i).height <= band.y
                    + band.height
                &&& band_line(band, line_count, i).x == band.x
                &&& band_line(band, line_count, i).width == band.width
                &&& band.height >= 1 ==> band_line(band, line_count, i).height >= 1
            },
        band_line(band, line_count, 0).y == band.y,
        band.height >= line_total(line_count) ==> forall|i: int|
            0 <= i < line_total(line_count) - 1 ==> #[trigger] band_line(band, line_count, i + 1).y
                == band_line(band, line_count, i).y + band_line(band, line_count, i).height,
        band.height >= line_total(line_count) ==> band_line(band, line_count, line_total(line_count) - 1).y
            + band_line(band, line_count, line_total(line_count) - 1).height == band.y + band.height,
{
    let c = line_total(line_count);
    let h = band.height as int;
    assert forall|i: int| 0 <= i < c implies {
        &&& band.y <= (#[trigger] band_line(band, line_count, i)).y
        &&& band_line(band, line_count, i).y + band_line(band, line_count, i).height <= band.y + band.height
        &&& band_line(band, line_count, i).x == band.x
        &&& band_line(band, line_count, i).width == band.width
        &&& band.height >= 1 ==> band_line(band, line_count, i).height >= 1
    } by {
        if h >= c {
            lemma_strip_share(h, c, i);
        }
    }
    if h >= c {
        assert forall|i: int| 0 <= i < c - 1 implies #[trigger] band_line(band, line_count, i + 1).y
            == band_line(band, line_count, i).y + band_line(band, line_count, i).height by {
            lemma_strip_share(h, c, i);
            lemma_strip_share(h, c, i + 1);
        }
        lemma_strip_share(h, c, 0);
        lemma_strip_share(h, c, c - 1);
    }
}

/// The central address band of an image from its rounded margin, top and
/// height: the top is kept on the image's last row at most, the width is what
/// the two side margins leave (at least 1), and the height is cut to what is
/// left below the top (at least 1).
pub open spec fn address_band_spec(image_w: u32, image_h: u32, margin_x: u32, y: u32, height: u32) -> RecTextRegion {
    let margins = min_int(2 * margin_x, u32::MAX as int);
    let width = max_int(max_int(image_w - margins, 0), 1);
    let last_row = max_int(image_h - 1, 0);
    let below = max_int(image_h - y, 0);
    RecTextRegion {
        x: margin_x,
        y: min_int(y as int, last_row) as u32,
        width: width as u32,
        height: max_int(min_int(height as int, below), 1) as u32,
    }
}

/// The central address band of an image, from the band's margin, top and
/// height already rounded to whole pixels.
pub fn address_band(image_dims: (u32, u32), margin_x: u32, y: u32, height: u32) -> (band: RecTextRegion)
    ensures
        band == address_band_spec(image_dims.0, image_dims.1, margin_x, y, height),
        band.width >= 1 && band.height >= 1,
{
    let (image_w, image_h) = image_dims;
    let margins: u32 = if margin_x > u32::MAX / 2 { u32::MAX } else { 2 * margin_x };
    let width: u32 = if image_w > margins { image_w - margins } else { 0 };
    let width = if width < 1 { 1 } else { width };
    let last_row: u32 = if image_h > 1 { image_h - 1 } else { 0 };
    let below: u32 = if image_h > y { image_h - y } else { 0 };
    let cut = if height < below { height } else { below };
    RecTextRegion {
        x: margin_x,
        y: if y < last_row { y } else { last_row },
        width,
        height: if cut < 1 { 1 } else { cut },
    }
}

/// The long-side limits tried in turn by multi-scale detection.
pub open spec fn is_limit_candidate(fast: bool, default_limit: u32, x: u32) -> bool {
    if fast {
        x == 320
    } else {
        x == 960 || x == 800 || x == 640 || x == 480 || x == 320 || x == default_limit
    }
}

/// The long-side limits multi-scale detection tries, largest first, each once:
/// 320 alone on the fast path, else 960, 800, 640, 480, 320 and the configured one.
pub fn detection_scale_limits(fast: bool, default_limit: u32) -> (limits: Vec<u32>)
    ensures
        forall|i: int, j: int| 0 <= i < j < limits@.len() ==> limits@[i] > limits@[j],
        forall|x: u32| limits@.contains(x) <==> is_limit_candidate(fast, default_limit, x),
{
    let mut limits: Vec<u32> = Vec::new();
    if fast {
        limits.push(320);
        assert(limits@ == seq![320u32]);
        assert forall|x: u32| limits@.contains(x) <==> is_limit_candidate(fast, default_limit, x) by {
            if limits@.contains(x) {
                let k = choose|k: int| 0 <= k < limits@.len() && limits@[k] == x;
            }
            if x == 320 {
                assert(limits@[0] == x);
            }
        }
        return limits;
    }
    let base: [u32; 5] = [960, 800, 640, 480, 320];
    let mut placed = false;
    let mut k: usize = 0;
    while k < 5
        invariant
            0 <= k <= 5,
            base@ == seq![960u32, 800, 640, 480, 320],
            forall|i: int, j: int| 0 <= i < j < limits@.len() ==> limits@[i] > limits@[j],
            k > 0 ==> limits@.len() > 0 && limits@.last() == base@[k - 1],
            k == 0 ==> limits@.len() == 0,
            !placed ==> (k == 0 || default_limit < base@[k - 1]),
            forall|x: u32|
                limits@.contains(x) <==> ((exists|i: int| 0 <= i < k && base@[i] == x) || (placed
                    && x == default_limit)),
        decreases 5 - k,
    {
        let candidate = base[k];
        let ghost before = limits@;
        if !placed && default_limit > candidate {
            limits.push(default_limit);
            placed = true;
        } else if !placed && default_limit == candidate {
            placed = true;
        }
        let ghost middle = limits@;
        proof {
            assert(k > 0 ==> base@[k - 1] > base@[k as int]);
            assert forall|i: int, j: int| 0 <= i < j < middle.len() implies middle[i] > middle[j] by {
                if j == before.len() {
                    assert(middle[j] == default_limit);
                }
            }
            assert(middle.len() > 0 ==> middle.last() > candidate);
        }
        limits.push(candidate);
        proof {
            assert forall|i: int, j: int| 0 <= i < j < limits@.len() implies limits@[i] > limits@[j] by {
                if j == middle.len() {
                    assert(limits@[j] == candidate);
                    assert(middle[i] >= middle.last());
                } else {
                    assert(limits@[i] == middle[i]);
                    assert(limits@[j] == middle[j]);
                }
            }
            assert forall|x: u32|
                limits@.contains(x) <==> ((exists|i: int| 0 <= i < k + 1 && base@[i] == x) || (placed
                    && x == default_limit)) by {
                if limits@.contains(x) {
                    let m = choose|m: int| 0 <= m < limits@.len() && limits@[m] == x;
                    if m < before.len() {
                        assert(before[m] == x);
                        assert(before.contains(x));
                    } else if m < middle.len() {
                        assert(x == default_limit);
                    } else {
                        assert(base@[k as int] == x);
                    }
                }
                if exists|i: int| 0 <= i < k + 1 && base@[i] == x {
                    let i = choose|i: int| 0 <= i < k + 1 && base@[i] == x;
                    if i < k {
                        assert(before.contains(x));
                        let m = choose|m: int| 0 <= m < before.len() && before[m] == x;
                        assert(limits@[m] == x);
                    } else {
                        assert(limits@[limits@.len() - 1] == x);
                    }
                }
                if placed && x == default_limit {
                    if before.contains(x) {
                        let m = choose|m: int| 0 <= m < before.len() && before[m] == x;
                        assert(limits@[m] == x);
                    } else if middle.len() > before.len() {
                        assert(limits@[before.len() as int] == x);
                    } else {
                        assert(x == candidate);
                        assert(limits@[limits@.len() - 1] == x);
                    }
                }
            }
        }
        k += 1;
    }
    let ghost before = limits@;
    if !placed {
        limits.push(default_limit);
        proof {
            assert forall|i: int, j: int| 0 <= i < j < limits@.len() implies limits@[i] > limits@[j] by {
                if j == before.len() {
                    assert(before[i] >= before.last());
                } else {
                    assert(limits@[j] == before[j]);
                }
            }
        }
    }
    assert forall|x: u32| limits@.contains(x) <==> is_limit_candidate(fast, default_limit, x) by {
        if limits@.contains(x) {
            let m = choose|m: int| 0 <= m < limits@.len() && limits@[m] == x;
            if m < before.len() {
                assert(before[m] == x);
                assert(before.contains(x));
            }
        }
        if is_limit_candidate(fast, default_limit, x) {
            if x == default_limit && !placed {
                assert(limits@[limits@.len() - 1] == x);
            } else if x == default_limit {
                assert(before.contains(x));
                assert(limits@ == before);
            } else {
                let i: int = if x == 960 { 0 } else if x == 800 { 1 } else if x == 640 { 2 } else if x == 480 { 3 } else { 4 };
                assert(base@[i] == x);
                assert(exists|j: int| 0 <= j < 5 && base@[j] == x);
                assert(before.contains(x));
                let m = choose|m: int| 0 <= m < before.len() && before[m] == x;
                assert(limits@[m] == x);
            }
        }
    }
    limits
}


/// The values of colour channel `c` of an RGBA buffer, one per pixel.
pub open spec fn channel_values(rgba: Seq<u8>, c: int) -> Seq<u8> {
    Seq::new(rgba.len() / 4, |i: int| rgba[4 * i + c])
}

/// The least value of a sequence; 255 for an empty one.
pub open spec fn seq_min(s: Seq<u8>) -> u8
    decreases s.len(),
{
    if s.len() == 0 {
        255
    } else {
        let m = seq_min(s.drop_last());
        if s.last() < m { s.last() } else { m }
    }
}

/// The greatest value of a sequence; 0 for an empty one.
pub open spec fn seq_max(s: Seq<u8>) -> u8
    decreases s.len(),
{
    if s.len() == 0 {
        0
    } else {
        let m = seq_max(s.drop_last());
        if s.last() > m { s.last() } else { m }
    }
}

/// A channel value stretched from `[lo, hi]` onto `[0, 255]`, rounded to the
/// nearest integer (halves up); a flat channel (`hi <= lo`) is left as it is.
pub open spec fn stretched(v: u8, lo: u8, hi: u8) -> u8 {
    if hi <= lo {
        v
    } else {
        let d: int = if v > lo { v - lo } else { 0 };
        let r: int = hi - lo;
        let q: int = (510 * d + r) / (2 * r);
        if q > 255 { 255 } else { q as u8 }
    }
}

/// Byte `i` of the contrast-stretched copy of an RGBA buffer: each colour
/// channel stretched between its own least and greatest value, alpha kept.
pub open spec fn enhanced_byte(rgba: Seq<u8>, i: int) -> u8 {
    let c = i % 4;
    if c == 3 {
        rgba[i]
    } else {
        let values = channel_values(rgba, c);
        stretched(rgba[i], seq_min(values), seq_max(values))
    }
}

/// The contrast-stretched copy of an RGBA buffer.
pub open spec fn enhanced(rgba: Seq<u8>) -> Seq<u8> {
    Seq::new(rgba.len(), |i: int| enhanced_byte(rgba, i))
}

/// The least and greatest value of channel `c` of an RGBA buffer.
fn channel_bounds(rgba: &[u8], c: usize) -> (bounds: (u8, u8))
    requires
        rgba@.len() % 4 == 0,
        c < 4,
    ensures
        bounds.0 == seq_min(channel_values(rgba@, c as int)),
        bounds.1 == seq_max(channel_values(rgba@, c as int)),
{
    let len = rgba.len();
    let n = len / 4;
    let ghost values = channel_values(rgba@, c as int);
    let mut lo: u8 = 255;
    let mut hi: u8 = 0;
    let mut i: usize = 0;
    while i < n
        invariant
            len == rgba@.len(),
            n == rgba@.len() / 4,
            rgba@.len() % 4 == 0,
            c < 4,
            values == channel_values(rgba@, c as int),
            0 <= i <= n,
            lo == seq_min(values.take(i as int)),
            hi == seq_max(values.take(i as int)),
        decreases n - i,
    {
        assert(values.take(i as int + 1).drop_last() == values.take(i as int));
        assert(4 * i + c < rgba@.len()) by (nonlinear_arith)
            requires
                i < n,
                c < 4,
                n == rgba@.len() / 4,
        ;
        let v = rgba[4 * i + c];
        assert(v == values[i as int]);
        if v < lo {
            lo = v;
        }
        if v > hi {
            hi = v;
        }
        i += 1;
    }
    assert(values.take(n as int) == values);
    (lo, hi)
}

/// One channel value stretched from `[lo, hi]` onto `[0, 255]`.
fn stretch_value(v: u8, lo: u8, hi: u8) -> (r: u8)
    ensures
        r == stretched(v, lo, hi),
{
    if hi <= lo {
        return v;
    }
    let d: u32 = if v > lo { (v - lo) as u32 } else { 0 };
    let r: u32 = (hi - lo) as u32;
    let q: u32 = (510 * d + r) / (2 * r);
    if q > 255 { 255 } else { q as u8 }
}

/// Contrast stretch for a blurry frame (RGBA bytes, four per pixel): each
/// colour channel is mapped linearly from its own `[min, max]` onto
/// `[0, 255]`; a flat channel and the alpha channel stay as they are.
pub fn enhance_for_detection(rgba: &[u8]) -> (out: Vec<u8>)
    requires
        rgba@.len() % 4 == 0,
    ensures
        out@ == enhanced(rgba@),
{
    let (lo0, hi0) = channel_bounds(rgba, 0);
    let (lo1, hi1) = channel_bounds(rgba, 1);
    let (lo2, hi2) = channel_bounds(rgba, 2);
    let mut out: Vec<u8> = Vec::new();
    let mut i: usize = 0;
    while i < rgba.len()
        invariant
            rgba@.len() % 4 == 0,
            lo0 == seq_min(channel_values(rgba@, 0)),
            hi0 == seq_max(channel_values(rgba@, 0)),
            lo1 == seq_min(channel_values(rgba@, 1)),
            hi1 == seq_max(channel_values(rgba@, 1)),
            lo2 == seq_min(channel_values(rgba@, 2)),
            hi2 == seq_max(channel_values(rgba@, 2)),
            0 <= i <= rgba@.len(),
            out@.len() == i,
            forall|j: int| 0 <= j < i ==> #[trigger] out@[j] == enhanced_byte(rgba@, j),
        decreases rgba@.len() - i,
    {
        let c = i % 4;
        let v = rgba[i];
        let b = if c == 0 {
            stretch_value(v, lo0, hi0)
        } else if c == 1 {
            stretch_value(v, lo1, hi1)
        } else if c == 2 {
            stretch_value(v, lo2, hi2)
        } else {
            v
        };
        out.push(b);
        i += 1;
    }
    assert(out@ == enhanced(rgba@));
    out
}

/// Stretching sends a channel's least value to 0 and its greatest to 255.
pub proof fn law_stretch_reaches_both_ends(lo: u8, hi: u8)
    requires
        lo < hi,
    ensures
        stretched(lo, lo, hi) == 0,
        stretched(hi, lo, hi) == 255,
{
    let r: int = hi - lo;
    assert((510 * 0 + r) / (2 * r) == 0) by (nonlinear_arith)
        requires
            r > 0,
    ;
    assert((510 * r + r) / (2 * r) == 255) by (nonlinear_arith)
        requires
            r > 0,
    ;
}

/// Stretching keeps the order of channel values.
pub proof fn law_stretch_is_monotone(a: u8, b: u8, lo: u8, hi: u8)
    requires
        a <= b,
    ensures
        stretched(a, lo, hi) <= stretched(b, lo, hi),
{
    if lo < hi {
        let r: int = hi - lo;
        let da: int = if a > lo { a - lo } else { 0 };
        let db: int = if b > lo { b - lo } else { 0 };
        assert((510 * da + r) / (2 * r) <= (510 * db + r) / (2 * r)) by (nonlinear_arith)
            requires
                r > 0,
                0 <= da <= db,
        ;
    }
}

/// A channel that already spans `[0, 255]` is left unchanged, so a second
/// stretch of a stretched channel changes nothing.
pub proof fn law_full_range_is_unchanged(v: u8)
    ensures
        stretched(v, 0, 255) == v,
{
    let d: int = v as int;
    assert((510 * d + 255) / 510int == d) by (nonlinear_arith)
        requires
            0 <= d <= 255,
    ;
}

} // verus!

verus! {

/// The least and greatest value of a stretched channel are the stretched
/// least and greatest value.
proof fn lemma_bounds_of_stretched(s: Seq<u8>, lo: u8, hi: u8)
    requires
        s.len() > 0,
    ensures
        seq_min(s.map_values(|v: u8| stretched(v, lo, hi))) == stretched(seq_min(s), lo, hi),
        seq_max(s.map_values(|v: u8| stretched(v, lo, hi))) == stretched(seq_max(s), lo, hi),
    decreases s.len(),
{
    let t = s.map_values(|v: u8| stretched(v, lo, hi));
    assert(t.drop_last() == s.drop_last().map_values(|v: u8| stretched(v, lo, hi)));
    assert(t.last() == stretched(s.last(), lo, hi));
    if s.len() == 1 {
        assert(seq_min(s.drop_last()) == 255);
        assert(seq_max(s.drop_last()) == 0);
        assert(seq_min(t.drop_last()) == 255);
        assert(seq_max(t.drop_last()) == 0);
        assert(seq_min(s) == s.last());
        assert(seq_max(s) == s.last());
    } else {
        lemma_bounds_of_stretched(s.drop_last(), lo, hi);
        let m = seq_min(s.drop_last());
        let x = seq_max(s.drop_last());
        if s.last() < m {
            law_stretch_is_monotone(s.last(), m, lo, hi);
        } else {
            law_stretch_is_monotone(m, s.last(), lo, hi);
        }
        if s.last() > x {
            law_stretch_is_monotone(x, s.last(), lo, hi);
        } else {
            law_stretch_is_monotone(s.last(), x, lo, hi);
        }
    }
}

/// Channel `c` of the stretched buffer is channel `c` of the buffer with
/// each value stretched between that channel's bounds.
proof fn lemma_channel_of_enhanced(rgba: Seq<u8>, c: int)
    requires
        rgba.len() % 4 == 0,
        0 <= c < 3,
    ensures
        ({
            let values = channel_values(rgba, c);
            let lo = seq_min(values);
            let hi = seq_max(values);
            channel_values(enhanced(rgba), c) == values.map_values(|v: u8| stretched(v, lo, hi))
        }),
{
    let values = channel_values(rgba, c);
    let lo = seq_min(values);
    let hi = seq_max(values);
    let e = enhanced(rgba);
    assert forall|i: int| 0 <= i < rgba.len() / 4 implies #[trigger] channel_values(e, c)[i]
        == values.map_values(|v: u8| stretched(v, lo, hi))[i] by {
        assert((4 * i + c) % 4 == c && 0 <= 4 * i + c < rgba.len()) by (nonlinear_arith)
            requires
                0 <= i < rgba.len() / 4,
                0 <= c < 3,
        ;
    }
}

/// After one stretch a colour channel spans `[0, 255]`, or it was flat and
/// kept its bounds.
proof fn lemma_bounds_after_enhance(rgba: Seq<u8>, c: int)
    requires
        rgba.len() % 4 == 0,
        0 <= c < 3,
    ensures
        ({
            let values = channel_values(rgba, c);
            let lo = seq_min(values);
            let hi = seq_max(values);
            let lo2 = seq_min(channel_values(enhanced(rgba), c));
            let hi2 = seq_max(channel_values(enhanced(rgba), c));
            &&& hi <= lo ==> lo2 == lo && hi2 == hi
            &&& lo < hi ==> lo2 == 0 && hi2 == 255
        }),
{
    let values = channel_values(rgba, c);
    let lo = seq_min(values);
    let hi = seq_max(values);
    lemma_channel_of_enhanced(rgba, c);
    if values.len() > 0 {
        lemma_bounds_of_stretched(values, lo, hi);
        if lo < hi {
            law_stretch_reaches_both_ends(lo, hi);
        }
    } else {
        assert(channel_values(enhanced(rgba), c).len() == 0);
    }
}

/// Stretching a stretched buffer changes nothing: after one stretch every
/// colour channel either spans `[0, 255]` or was flat and left as it was.
pub proof fn law_enhance_is_idempotent(rgba: Seq<u8>)
    requires
        rgba.len() % 4 == 0,
    ensures
        enhanced(enhanced(rgba)) == enhanced(rgba),
{
    let e = enhanced(rgba);
    assert forall|i: int| 0 <= i < rgba.len() implies #[trigger] enhanced(e)[i] == e[i] by {
        let c = i % 4;
        if c < 3 {
            lemma_bounds_after_enhance(rgba, c);
            law_full_range_is_unchanged(e[i]);
        }
    }
}

} // verus!

verus! {

/// A setting of the engine builder that has no default and must be given.
#[derive(Debug, Clone, Copy, PartialEq, Eq, Structural)]
pub enum BuilderField {
    DetModelPath,
    RecModelPath,
    DictionaryPath,
}

/// The name under which a missing builder setting is reported.
pub open spec fn builder_field_name(field: BuilderField) -> Seq<char> {
    match field {
        BuilderField::DetModelPath => "det_model_path"@,
        BuilderField::RecModelPath => "rec_model_path"@,
        BuilderField::DictionaryPath => "dictionary_path"@,
    }
}

impl BuilderField {
    /// The name under which this setting is reported when it is missing.
    pub fn name(&self) -> (s: &'static str)
        ensures
            s@ == builder_field_name(*self),
    {
        match self {
            BuilderField::DetModelPath => "det_model_path",
            BuilderField::RecModelPath => "rec_model_path",
            BuilderField::DictionaryPath => "dictionary_path",
        }
    }
}

/// What the engine builder finds wrong with its settings before it touches
/// any file.
#[derive(Debug, Clone, Copy, PartialEq, Eq, Structural)]
pub enum BuilderError {
    /// A required setting was not given.
    MissingField { field: BuilderField },
    /// The recognition batch size is zero.
    ZeroRecBatchSize,
}

/// The name of the setting an error is about.
pub open spec fn builder_error_setting(e: BuilderError) -> Seq<char> {
    match e {
        BuilderError::MissingField { field } => builder_field_name(field),
        BuilderError::ZeroRecBatchSize => "rec_batch_size"@,
    }
}

impl BuilderError {
    /// The name of the builder setting this error is about.
    pub fn setting_name(&self) -> (s: &'static str)
        ensures
            s@ == builder_error_setting(*self),
    {
        match self {
            BuilderError::MissingField { field } => field.name(),
            BuilderError::ZeroRecBatchSize => "rec_batch_size",
        }
    }
}

/// Which required settings of the builder were given, and its batch size.
/// The orientation models are optional and take no part in the check.
#[derive(Debug, Clone, Copy, PartialEq, Eq, Structural)]
pub struct BuilderSettings {
    pub det_model_path: bool,
    pub rec_model_path: bool,
    pub dictionary_path: bool,
    pub rec_batch_size: usize,
}

/// The outcome of checking the builder's settings: the detection model, the
/// recognition model and the dictionary must be given (in that order), then
/// the batch size must be positive.
pub open spec fn builder_check(s: BuilderSettings) -> Result<(), BuilderError> {
    if !s.det_model_path {
        Err(BuilderError::MissingField { field: BuilderField::DetModelPath })
    } else if !s.rec_model_path {
        Err(BuilderError::MissingField { field: BuilderField::RecModelPath })
    } else if !s.dictionary_path {
        Err(BuilderError::MissingField { field: BuilderField::DictionaryPath })
    } else if s.rec_batch_size == 0 {
        Err(BuilderError::ZeroRecBatchSize)
    } else {
        Ok(())
    }
}

/// The builder accepts its settings exactly when the detection model, the
/// recognition model and the dictionary are all given and the batch size is
/// positive; a missing setting is reported by name, the earliest of the three
/// first, and a zero batch size only once all three are given.
pub proof fn law_builder_refuses_each_missing_setting(s: BuilderSettings)
    ensures
        builder_check(s) is Ok <==> s.det_model_path && s.rec_model_path && s.dictionary_path
            && s.rec_batch_size > 0,
        !s.det_model_path ==> builder_check(s) == Err::<(), BuilderError>(
            BuilderError::MissingField { field: BuilderField::DetModelPath },
        ),
        s.det_model_path && !s.rec_model_path ==> builder_check(s) == Err::<(), BuilderError>(
            BuilderError::MissingField { field: BuilderField::RecModelPath },
        ),
        s.det_model_path && s.rec_model_path && !s.dictionary_path ==> builder_check(s) == Err::<
            (),
            BuilderError,
        >(BuilderError::MissingField { field: BuilderField::DictionaryPath }),
        s.det_model_path && s.rec_model_path && s.dictionary_path && s.rec_batch_size == 0
            ==> builder_check(s) == Err::<(), BuilderError>(BuilderError::ZeroRecBatchSize),
{
}

/// Checks the builder's settings, reporting the first one that is missing or
/// wrong.
pub fn check_builder_settings(s: BuilderSettings) -> (res: Result<(), BuilderError>)
    ensures
        res == builder_check(s),
        res is Ok <==> s.det_model_path && s.rec_model_path && s.dictionary_path && s.rec_batch_size > 0,
        !s.det_model_path ==> res == Err::<(), BuilderError>(
            BuilderError::MissingField { field: BuilderField::DetModelPath },
        ),
        s.det_model_path && !s.rec_model_path ==> res == Err::<(), BuilderError>(
            BuilderError::MissingField { field: BuilderField::RecModelPath },
        ),
        s.det_model_path && s.rec_model_path && !s.dictionary_path ==> res == Err::<(), BuilderError>(
            BuilderError::MissingField { field: BuilderField::DictionaryPath },
        ),
        s.det_model_path && s.rec_model_path && s.dictionary_path && s.rec_batch_size == 0 ==> res == Err::<
            (),
            BuilderError,
        >(BuilderError::ZeroRecBatchSize),
{
    proof {
        law_builder_refuses_each_missing_setting(s);
    }
    if !s.det_model_path {
        Err(BuilderError::MissingField { field: BuilderField::DetModelPath })
    } else if !s.rec_model_path {
        Err(BuilderError::MissingField { field: BuilderField::RecModelPath })
    } else if !s.dictionary_path {
        Err(BuilderError::MissingField { field: BuilderField::DictionaryPath })
    } else if s.rec_batch_size == 0 {
        Err(BuilderError::ZeroRecBatchSize)
    } else {
        Ok(())
    }
}

/// What one detection attempt at a given scale came to.
#[derive(Debug, Clone, Copy, PartialEq, Eq, Structural)]
pub enum ScaleOutcome {
    /// The model could not run at this scale.
    Failed,
    /// The model ran and found no text.
    Empty,
    /// The model ran and found text.
    Found,
}

/// What the detection search asks for next.
#[derive(Debug, Clone, Copy, PartialEq, Eq, Structural)]
pub enum DetectionAction {
    /// Run detection with this long-side limit, on the contrast-stretched
    /// image when `enhanced` holds.
    Detect { limit: u32, enhanced: bool },
    /// The last attempt found text: stop there.
    Accept,
    /// Every attempt came to nothing.
    Exhausted,
}

/// The search over detection scales: every limit largest first, then, when
/// the search retries on a contrast-stretched image, every limit again on it.
pub struct DetectionSearch {
    limits: Vec<u32>,
    retry_enhanced: bool,
    issued: usize,
}

/// Attempt `i` of a search over `limits`, the second round on the stretched image.
pub open spec fn planned_attempt(limits: Seq<u32>, i: int) -> DetectionAction {
    if i < limits.len() {
        DetectionAction::Detect { limit: limits[i], enhanced: false }
    } else {
        DetectionAction::Detect { limit: limits[i - limits.len()], enhanced: true }
    }
}

/// The number of attempts a search plans.
pub open spec fn planned_total(limits: Seq<u32>, retry_enhanced: bool) -> int {
    if retry_enhanced { 2 * (limits.len() as int) } else { limits.len() as int }
}

impl DetectionSearch {
    /// The limits tried, largest first.
    pub closed spec fn limits(&self) -> Seq<u32> {
        self.limits@
    }

    /// Whether a second round runs on the contrast-stretched image.
    pub closed spec fn retries_enhanced(&self) -> bool {
        self.retry_enhanced
    }

    /// How many attempts have been asked for so far.
    pub closed spec fn issued(&self) -> int {
        self.issued as int
    }

    /// The search keeps within its plan.
    pub closed spec fn wf(&self) -> bool {
        &&& self.limits@.len() >= 1
        &&& self.limits@.len() <= 6
        &&& self.issued <= planned_total(self.limits@, self.retry_enhanced)
    }

    /// A search over the scales of `detection_scale_limits`; on the full
    /// path with `retry_enhanced` a failed first round is repeated on the
    /// contrast-stretched image, the fast path never retries.
    pub fn new(fast: bool, default_limit: u32, retry_enhanced: bool) -> (s: Self)
        ensures
            s.wf(),
            s.issued() == 0,
            s.retries_enhanced() == (retry_enhanced && !fast),
            forall|i: int, j: int| 0 <= i < j < s.limits().len() ==> s.limits()[i] > s.limits()[j],
            forall|x: u32| s.limits().contains(x) <==> is_limit_candidate(fast, default_limit, x),
    {
        let limits = detection_scale_limits(fast, default_limit);
        proof {
            lemma_limits_bounded(fast, default_limit, limits@);
        }
        DetectionSearch { limits, retry_enhanced: retry_enhanced && !fast, issued: 0 }
    }

    /// The next step of the search: after a success it accepts; otherwise it
    /// asks for the next planned attempt, or reports that all came to nothing.
    /// `last` is the outcome of the previous attempt (`None` before the first).
    pub fn step(&mut self, last: Option<ScaleOutcome>) -> (a: DetectionAction)
        requires
            old(self).wf(),
            last is None <==> old(self).issued() == 0,
        ensures
            final(self).wf(),
            final(self).limits() == old(self).limits(),
            final(self).retries_enhanced() == old(self).retries_enhanced(),
            last == Some(ScaleOutcome::Found) ==> a == DetectionAction::Accept && final(self).issued()
                == old(self).issued(),
            last != Some(ScaleOutcome::Found) && old(self).issued() < planned_total(
                old(self).limits(),
                old(self).retries_enhanced(),
            ) ==> a == planned_attempt(old(self).limits(), old(self).issued())
                && final(self).issued() == old(self).issued() + 1,
            last != Some(ScaleOutcome::Found) && old(self).issued() >= planned_total(
                old(self).limits(),
                old(self).retries_enhanced(),
            ) ==> a == DetectionAction::Exhausted && final(self).issued() == old(self).issued(),
            last != Some(ScaleOutcome::Found) && old(self).issued() < old(self).limits().len() ==> a
                == (DetectionAction::Detect {
                limit: old(self).limits()[old(self).issued()],
                enhanced: false,
            }),
            last != Some(ScaleOutcome::Found) && old(self).retries_enhanced() && old(self).limits().len()
                <= old(self).issued() < 2 * old(self).limits().len() ==> a == (DetectionAction::Detect {
                limit: old(self).limits()[old(self).issued() - old(self).limits().len()],
                enhanced: true,
            }),
            last != Some(ScaleOutcome::Found) && !old(self).retries_enhanced() && old(self).issued()
                >= old(self).limits().len() ==> a == DetectionAction::Exhausted,
            last != Some(ScaleOutcome::Found) && old(self).retries_enhanced() && old(self).issued() >= 2
                * old(self).limits().len() ==> a == DetectionAction::Exhausted,
    {
        proof {
            law_search_plans_every_limit(self.limits@, self.retry_enhanced, self.issued as int);
        }
        if last == Some(ScaleOutcome::Found) {
            return DetectionAction::Accept;
        }
        let n = self.limits.len();
        let total = if self.retry_enhanced { 2 * n } else { n };
        if self.issued >= total {
            return DetectionAction::Exhausted;
        }
        let i = self.issued;
        let action = if i < n {
            DetectionAction::Detect { limit: self.limits[i], enhanced: false }
        } else {
            DetectionAction::Detect { limit: self.limits[i - n], enhanced: true }
        };
        self.issued = i + 1;
        action
    }
}

/// A search tries every limit once on the image, largest first, and, when it
/// retries on the stretched copy, every limit once more on that copy; after
/// that it has nothing left to try.
pub proof fn law_search_plans_every_limit(limits: Seq<u32>, retry_enhanced: bool, i: int)
    requires
        0 <= i,
    ensures
        !retry_enhanced ==> planned_total(limits, retry_enhanced) == limits.len(),
        retry_enhanced ==> planned_total(limits, retry_enhanced) == 2 * limits.len(),
        i < limits.len() ==> planned_attempt(limits, i) == (DetectionAction::Detect {
            limit: limits[i],
            enhanced: false,
        }),
        limits.len() <= i < 2 * limits.len() ==> planned_attempt(limits, i) == (DetectionAction::Detect {
            limit: limits[i - limits.len()],
            enhanced: true,
        }),
{
}

/// The scale limits number between one and six.
proof fn lemma_limits_bounded(fast: bool, default_limit: u32, limits: Seq<u32>)
    requires
        forall|i: int, j: int| 0 <= i < j < limits.len() ==> limits[i] > limits[j],
        forall|x: u32| limits.contains(x) <==> is_limit_candidate(fast, default_limit, x),
    ensures
        1 <= limits.len() <= 6,
{
    assert(is_limit_candidate(fast, default_limit, 320));
    assert(limits.contains(320u32));
    if limits.len() > 6 {
        // seven strictly decreasing values, each one of at most six candidates
        let a = limits[0];
        let b = limits[1];
        let c = limits[2];
        let d = limits[3];
        let e = limits[4];
        let f = limits[5];
        let g = limits[6];
        assert(limits.contains(a) && limits.contains(b) && limits.contains(c) && limits.contains(d)
            && limits.contains(e) && limits.contains(f) && limits.contains(g));
        assert(false);
    }
}

} // verus!

verus! {

} // verus!
