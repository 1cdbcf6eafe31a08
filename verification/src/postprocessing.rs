use vstd::prelude::*;

use imageproc::contours::{find_contours, BorderType};
use imageproc::image::GrayImage;

verus! {

/// Errors that can occur during detection post-processing.
#[derive(Debug, PartialEq, Eq, Structural)]
pub enum DetPostProcessorError {
    /// Probability map contained no elements.
    EmptyProbabilityMap,
    /// Failed to construct an image buffer from the probability map.
    ImageCreationFailed,
}

/// A border of an 8-connected foreground region of a binary mask.
#[derive(Debug)]
pub struct TracedContour {
    /// The points of the border, as `(x, y)` pixel positions.
    pub points: Vec<(i32, i32)>,
    /// Whether the border encloses the region (rather than a hole in it).
    pub outer: bool,
    /// The position, in the same list of borders, of the enclosing border.
    pub parent: Option<usize>,
}

/// A traced border as plain values: its points, whether it is an outer
/// border, and the position of its parent border.
pub open spec fn contour_view(c: TracedContour) -> (Seq<(i32, i32)>, bool, Option<usize>) {
    (c.points@, c.outer, c.parent)
}

/// The borders that `imageproc::contours::find_contours` traces in the
/// `width` x `height` mask `pixels` (row-major, one byte per pixel, non-zero
/// pixels in the foreground), in the order it lists them.
pub uninterp spec fn traced_borders(width: u32, height: u32, pixels: Seq<u8>) -> Seq<
    (Seq<(i32, i32)>, bool, Option<usize>),
>;

/// Traces the borders of the foreground regions of a binary mask.
///
/// Calls `imageproc::contours::find_contours::<i32>` on the mask made into a
/// `GrayImage`; the contract claims only that the result, converted field by
/// field, is what that call returns for these arguments (`traced_borders`).
/// The call converts pixel positions to `i32` and numbers the borders it
/// finds with an `i32` counter; fewer than 2^31 pixels keep both in range.
#[verifier::external_body]
fn trace_borders(width: u32, height: u32, pixels: Vec<u8>) -> (borders: Vec<TracedContour>)
    requires
        pixels@.len() == width * height,
        width * height < 0x8000_0000,
    ensures
        borders@.map_values(|c: TracedContour| contour_view(c)) == traced_borders(
            width,
            height,
            pixels@,
        ),
{
    let image = GrayImage::from_vec(width, height, pixels).expect("buffer holds width * height");
    find_contours::<i32>(&image).into_iter().map(|c| TracedContour {
        points: c.points.iter().map(|p| (p.x, p.y)).collect(),
        outer: c.border_type == BorderType::Outer,
        parent: c.parent,
    }).collect()
}

/// Twice the signed area swept between two points and the origin.
pub open spec fn cross(a: (i32, i32), b: (i32, i32)) -> int {
    a.0 * b.1 - b.0 * a.1
}

/// The sum of `cross` over the consecutive pairs among the first `n` points.
pub open spec fn chain_sum(points: Seq<(i32, i32)>, n: int) -> int
    decreases n,
{
    if n <= 1 {
        0
    } else {
        chain_sum(points, n - 1) + cross(points[n - 2], points[n - 1])
    }
}

/// Twice the signed area of the polygon through `points` (shoelace formula,
/// closing edge from the last point back to the first included); zero for
/// fewer than three points.
pub open spec fn doubled_signed_area(points: Seq<(i32, i32)>) -> int {
    if points.len() < 3 {
        0
    } else {
        chain_sum(points, points.len() as int) + cross(points.last(), points[0])
    }
}

/// Twice the (unsigned) area of the polygon through `points`.
pub open spec fn doubled_area(points: Seq<(i32, i32)>) -> int {
    let a = doubled_signed_area(points);
    if a < 0 { -a } else { a }
}

proof fn lemma_product_bound(x: i32, y: i32)
    ensures
        -0x4000_0000_0000_0000 <= x * y <= 0x4000_0000_0000_0000,
{
    assert(-0x4000_0000_0000_0000 <= x * y <= 0x4000_0000_0000_0000) by (nonlinear_arith)
        requires
            -0x8000_0000 <= x < 0x8000_0000,
            -0x8000_0000 <= y < 0x8000_0000,
    ;
}

/// `cross` computed exactly in 128-bit integers.
fn cross_i128(a: (i32, i32), b: (i32, i32)) -> (c: i128)
    ensures
        c == cross(a, b),
        -0x8000_0000_0000_0000 <= c <= 0x8000_0000_0000_0000,
{
    proof {
        lemma_product_bound(a.0, b.1);
        lemma_product_bound(b.0, a.1);
    }
    let p = (a.0 as i64) * (b.1 as i64);
    let q = (b.0 as i64) * (a.1 as i64);
    (p as i128) - (q as i128)
}

/// Twice the signed area of the polygon through `points`, exactly.
pub fn contour_doubled_signed_area(points: &Vec<(i32, i32)>) -> (a: i128)
    ensures
        a == doubled_signed_area(points@),
        -points@.len() * 0x8000_0000_0000_0000 <= a <= points@.len() * 0x8000_0000_0000_0000,
{
    let n = points.len();
    if n < 3 {
        return 0;
    }
    let mut sum: i128 = 0;
    let mut i: usize = 1;
    while i < n
        invariant
            n == points@.len(),
            3 <= n,
            1 <= i <= n,
            sum == chain_sum(points@, i as int),
            -(i - 1) * 0x8000_0000_0000_0000 <= sum <= (i - 1) * 0x8000_0000_0000_0000,
        decreases n - i,
    {
        let c = cross_i128(points[i - 1], points[i]);
        assert(-(i as int) * 0x8000_0000_0000_0000 <= sum + c <= (i as int) * 0x8000_0000_0000_0000) by (nonlinear_arith)
            requires
                -(i - 1) * 0x8000_0000_0000_0000 <= sum <= (i - 1) * 0x8000_0000_0000_0000,
                -0x8000_0000_0000_0000 <= c <= 0x8000_0000_0000_0000,
                i <= 0xffff_ffff_ffff_ffff,
        ;
        sum = sum + c;
        i += 1;
    }
    let closing = cross_i128(points[n - 1], points[0]);
    assert(-(n as int) * 0x8000_0000_0000_0000 <= sum + closing <= (n as int) * 0x8000_0000_0000_0000) by (nonlinear_arith)
        requires
            -(n - 1) * 0x8000_0000_0000_0000 <= sum <= (n - 1) * 0x8000_0000_0000_0000,
            -0x8000_0000_0000_0000 <= closing <= 0x8000_0000_0000_0000,
    ;
    sum + closing
}

/// Twice the area of the polygon through `points`, exactly.
pub fn contour_doubled_area(points: &Vec<(i32, i32)>) -> (a: u128)
    ensures
        a == doubled_area(points@),
{
    let s = contour_doubled_signed_area(points);
    let len = points.len();
    assert(len <= 0xffff_ffff_ffff_ffff);
    assert(len * 0x8000_0000_0000_0000 < 0x8000_0000_0000_0000_0000_0000_0000_0000) by (nonlinear_arith)
        requires
            len <= 0xffff_ffff_ffff_ffff,
    ;
    if s < 0 {
        (-s) as u128
    } else {
        s as u128
    }
}

/// A traced border is kept as a text candidate: it has at least three points
/// and twice its area reaches `min_doubled_area`.
pub open spec fn keeps_contour(c: (Seq<(i32, i32)>, bool, Option<usize>), min_doubled_area: int) -> bool {
    c.0.len() >= 3 && doubled_area(c.0) >= min_doubled_area
}

/// The borders among the first `n` that are kept, in order.
pub open spec fn kept_contours(
    borders: Seq<(Seq<(i32, i32)>, bool, Option<usize>)>,
    min_doubled_area: int,
    n: int,
) -> Seq<(Seq<(i32, i32)>, bool, Option<usize>)>
    decreases n,
{
    if n <= 0 {
        Seq::empty()
    } else if keeps_contour(borders[n - 1], min_doubled_area) {
        kept_contours(borders, min_doubled_area, n - 1).push(borders[n - 1])
    } else {
        kept_contours(borders, min_doubled_area, n - 1)
    }
}

/// A border passes the text-candidate filter: at least three points and at
/// least `min_doubled_area` for twice its area, whatever its kind and parent.
pub open spec fn passes_size_filter(min_doubled_area: int) -> spec_fn((Seq<(i32, i32)>, bool, Option<usize>)) -> bool {
    |c: (Seq<(i32, i32)>, bool, Option<usize>)| c.0.len() >= 3 && doubled_area(c.0) >= min_doubled_area
}

/// The kept borders are exactly the borders, in order, that have at least
/// three points and reach the area threshold: neither whether a border is an
/// outer one or a hole nor its parent plays any part.
pub proof fn law_kept_contours_are_the_large_borders(
    borders: Seq<(Seq<(i32, i32)>, bool, Option<usize>)>,
    min_doubled_area: int,
    n: int,
)
    requires
        0 <= n <= borders.len(),
    ensures
        kept_contours(borders, min_doubled_area, n) == borders.take(n).filter(
            passes_size_filter(min_doubled_area),
        ),
    decreases n,
{
    reveal(Seq::filter);
    let t = borders.take(n);
    if n > 0 {
        law_kept_contours_are_the_large_borders(borders, min_doubled_area, n - 1);
        assert(t.drop_last() == borders.take(n - 1));
        assert(t.last() == borders[n - 1]);
    } else {
        assert(t.len() == 0);
    }
}

/// Keeps the traced borders that are text candidates: those with at least
/// three points and at least `min_doubled_area` for twice their area, in
/// their order.
pub fn keep_text_contours(borders: Vec<TracedContour>, min_doubled_area: u128) -> (contours: Vec<TracedContour>)
    ensures
        contours@.map_values(|c: TracedContour| contour_view(c)) == kept_contours(
            borders@.map_values(|c: TracedContour| contour_view(c)),
            min_doubled_area as int,
            borders@.len() as int,
        ),
        contours@.map_values(|c: TracedContour| contour_view(c)) == borders@.map_values(
            |c: TracedContour| contour_view(c),
        ).filter(passes_size_filter(min_doubled_area as int)),
{
    proof {
        let v = borders@.map_values(|c: TracedContour| contour_view(c));
        law_kept_contours_are_the_large_borders(v, min_doubled_area as int, v.len() as int);
        assert(v.take(v.len() as int) == v);
    }
    let ghost all = borders@.map_values(|c: TracedContour| contour_view(c));
    let mut kept: Vec<TracedContour> = Vec::new();
    for c in it: borders.into_iter()
        invariant
            it.seq().map_values(|c: TracedContour| contour_view(c)) == all,
            kept@.map_values(|c: TracedContour| contour_view(c)) == kept_contours(
                all,
                min_doubled_area as int,
                it.index() as int,
            ),
    {
        let ghost i = it.index();
        assert(contour_view(c) == all[i as int]);
        let area = contour_doubled_area(&c.points);
        let ghost before = kept@;
        if c.points.len() >= 3 && area >= min_doubled_area {
            kept.push(c);
            assert(kept@.map_values(|c: TracedContour| contour_view(c)) =~= before.map_values(
                |c: TracedContour| contour_view(c),
            ).push(all[i as int]));
        }
    }
    kept
}

/// Text candidates of a binarized probability map: the borders that
/// `find_contours` traces in the `width` x `height` mask, keeping those with at
/// least three points and at least `min_doubled_area` for twice their area.
pub fn extract_text_contours(width: u32, height: u32, mask: Vec<u8>, min_doubled_area: u128) -> (contours: Vec<TracedContour>)
    requires
        mask@.len() == width * height,
        width * height < 0x8000_0000,
    ensures
        contours@.map_values(|c: TracedContour| contour_view(c)) == kept_contours(
            traced_borders(width, height, mask@),
            min_doubled_area as int,
            traced_borders(width, height, mask@).len() as int,
        ),
        contours@.map_values(|c: TracedContour| contour_view(c)) == traced_borders(width, height, mask@).filter(
            passes_size_filter(min_doubled_area as int),
        ),
{
    let borders = trace_borders(width, height, mask);
    keep_text_contours(borders, min_doubled_area)
}

/// The points with the first one repeated at the end, unless it already is.
pub open spec fn closed_points(points: Seq<(i32, i32)>) -> Seq<(i32, i32)> {
    if points.len() >= 2 && points[0] != points.last() {
        points.push(points[0])
    } else {
        points
    }
}

/// The outer ring of a border: its points closed, and turned counter-clockwise
/// (reversed) when their signed area is negative.
pub open spec fn ring_of(points: Seq<(i32, i32)>) -> Seq<(i32, i32)> {
    if doubled_signed_area(points) < 0 {
        closed_points(points).reverse()
    } else {
        closed_points(points)
    }
}

/// The closed, counter-clockwise ring of a traced border, or `None` when the
/// border has fewer than three points.
pub fn contour_ring(points: &Vec<(i32, i32)>) -> (ring: Option<Vec<(i32, i32)>>)
    ensures
        points@.len() < 3 ==> ring is None,
        points@.len() >= 3 ==> (ring matches Some(r) && r@ == ring_of(points@)),
{
    let n = points.len();
    if n < 3 {
        return None;
    }
    let mut closed: Vec<(i32, i32)> = Vec::new();
    let mut i: usize = 0;
    while i < n
        invariant
            n == points@.len(),
            0 <= i <= n,
            closed@ == points@.take(i as int),
        decreases n - i,
    {
        closed.push(points[i]);
        i += 1;
        assert(closed@ =~= points@.take(i as int));
    }
    assert(closed@ =~= points@);
    let first = points[0];
    let last = points[n - 1];
    if first.0 != last.0 || first.1 != last.1 {
        closed.push(first);
    }
    assert(closed@ == closed_points(points@));
    let area = contour_doubled_signed_area(points);
    if area < 0 {
        let m = closed.len();
        let mut reversed: Vec<(i32, i32)> = Vec::new();
        let mut j: usize = 0;
        while j < m
            invariant
                m == closed@.len(),
                0 <= j <= m,
                reversed@ == closed@.reverse().take(j as int),
            decreases m - j,
        {
            reversed.push(closed[m - 1 - j]);
            j += 1;
            assert(reversed@ =~= closed@.reverse().take(j as int));
        }
        assert(reversed@ =~= closed@.reverse());
        Some(reversed)
    } else {
        Some(closed)
    }
}

/// A ring is closed: it ends where it starts, and it holds the border's points
/// plus at most the closing one.
pub proof fn law_ring_is_closed(points: Seq<(i32, i32)>)
    requires
        points.len() >= 3,
    ensures
        ring_of(points)[0] == ring_of(points).last(),
        ring_of(points).len() == points.len() || ring_of(points).len() == points.len() + 1,
{
    let c = closed_points(points);
    assert(c[0] == c.last());
    if doubled_signed_area(points) < 0 {
        let r = c.reverse();
        assert(r[0] == c[c.len() - 1]);
        assert(r.last() == c[0]);
    }
}


/// Every border the filter keeps has at least three points and reaches the
/// area threshold, and the kept borders are never more than the traced ones.
pub proof fn law_kept_contours_pass_filter(
    borders: Seq<(Seq<(i32, i32)>, bool, Option<usize>)>,
    min_doubled_area: int,
    n: int,
)
    requires
        0 <= n <= borders.len(),
    ensures
        kept_contours(borders, min_doubled_area, n).len() <= n,
        forall|k: int|
            0 <= k < kept_contours(borders, min_doubled_area, n).len() ==> keeps_contour(
                #[trigger] kept_contours(borders, min_doubled_area, n)[k],
                min_doubled_area,
            ),
    decreases n,
{
    if n > 0 {
        law_kept_contours_pass_filter(borders, min_doubled_area, n - 1);
        let prev = kept_contours(borders, min_doubled_area, n - 1);
        if keeps_contour(borders[n - 1], min_doubled_area) {
            let cur = kept_contours(borders, min_doubled_area, n);
            assert forall|k: int| 0 <= k < cur.len() implies keeps_contour(#[trigger] cur[k], min_doubled_area) by {
                if k < prev.len() {
                    assert(cur[k] == prev[k]);
                }
            }
        }
    }
}

/// Raising the area threshold never keeps more borders.
pub proof fn law_higher_threshold_keeps_fewer(
    borders: Seq<(Seq<(i32, i32)>, bool, Option<usize>)>,
    low: int,
    high: int,
    n: int,
)
    requires
        low <= high,
        0 <= n <= borders.len(),
    ensures
        kept_contours(borders, high, n).len() <= kept_contours(borders, low, n).len(),
    decreases n,
{
    if n > 0 {
        law_higher_threshold_keeps_fewer(borders, low, high, n - 1);
    }
}

} // verus!
