//! Which pixels a drawing colors, and in which color.

use vstd::prelude::*;

use crate::draw::{
    centre, distance, extended, id_color, law_line_colors_its_pixels, lcg, lemma_along_column,
    lemma_along_row, lemma_line_part, lemma_outline, lemma_pixels_apart, lemma_put,
    lemma_rounded,
    lemma_rounded_is, lemma_steps, lemma_tracks, lemma_trail, line_length, line_point, midpoint,
    on_line, pixel_start, seed, shown_id, trail_of, Canvas,
};
use crate::sort::Track;

verus! {

/// `v` lies between two values, whichever is the larger.
pub open spec fn between(a: int, b: int, v: int) -> bool {
    a <= v <= b || b <= v <= a
}

/// `v` is the integer nearest to the point `k` of `n` equal steps from `a` to `b`, halves
/// rounded away from `a`.
pub open spec fn is_nearest_step(a: int, b: int, k: int, n: int, v: int) -> bool {
    let went = if v >= a {
        v - a
    } else {
        a - v
    };
    let whole = if b >= a {
        b - a
    } else {
        a - b
    };
    &&& between(a, b, v)
    &&& n > 0 ==> 2 * (n * went) <= 2 * (k * whole) + n < 2 * (n * went) + 2 * n
}

/// `n` is the longer of the two extents of a line.
pub open spec fn is_extent(p: (int, int), q: (int, int), n: int) -> bool {
    &&& -n <= q.0 - p.0 <= n
    &&& -n <= q.1 - p.1 <= n
    &&& n == q.0 - p.0 || n == p.0 - q.0 || n == q.1 - p.1 || n == p.1 - q.1
}

/// `r` is the pixel nearest to one of the steps of the straight line from `p` to `q`, which
/// are as many as its longer extent.
pub open spec fn is_step_of_line(p: (int, int), q: (int, int), n: int, k: int, r: (int, int)) -> bool {
    &&& is_extent(p, q, n)
    &&& 0 <= k <= n
    &&& is_nearest_step(p.0, q.0, k, n, r.0)
    &&& is_nearest_step(p.1, q.1, k, n, r.1)
}

/// `r` is a pixel of the straight line from `p` to `q`.
pub open spec fn is_pixel_of_line(p: (int, int), q: (int, int), r: (int, int)) -> bool {
    exists|n: int, k: int| #[trigger] is_step_of_line(p, q, n, k, r)
}

proof fn lemma_nearest_step(a: int, b: int, k: int, n: int, v: int)
    requires
        0 <= k <= n,
        distance(a, b) <= n,
    ensures
        is_nearest_step(a, b, k, n, v) <==> v == crate::draw::toward(a, b, k, n),
{
    let d = distance(a, b);
    let went = if v >= a {
        v - a
    } else {
        a - v
    };
    lemma_steps(k, d, n);
    if n > 0 {
        lemma_rounded(k * d, n);
        let x = crate::draw::rounded(k * d, n);
        assert(2 * n * x == 2 * (n * x)) by (nonlinear_arith);
        assert(2 * n * went == 2 * (n * went)) by (nonlinear_arith);
        if is_nearest_step(a, b, k, n, v) {
            lemma_rounded_is(k * d, n, went);
        }
    }
}

/// The pixels of a line are those nearest to the straight line between its ends.
pub proof fn law_line_is_straight(p: (int, int), q: (int, int), r: (int, int))
    ensures
        on_line(p, q, r) <==> is_pixel_of_line(p, q, r),
{
    let n = line_length(p, q);
    if on_line(p, q, r) {
        let k = choose|k: int| 0 <= k <= n && #[trigger] line_point(p, q, k) == r;
        lemma_nearest_step(p.0, q.0, k, n, r.0);
        lemma_nearest_step(p.1, q.1, k, n, r.1);
        assert(is_step_of_line(p, q, n, k, r));
    }
    if is_pixel_of_line(p, q, r) {
        let (m, k) = choose|m: int, k: int| #[trigger] is_step_of_line(p, q, m, k, r);
        assert(m == n);
        lemma_nearest_step(p.0, q.0, k, n, r.0);
        lemma_nearest_step(p.1, q.1, k, n, r.1);
        assert(line_point(p, q, k) == r);
    }
}

/// `r` is on the border of the box with the corners `p` and `q`, whichever of them is the
/// upper or the left one.
pub open spec fn is_on_box(p: (int, int), q: (int, int), r: (int, int)) -> bool {
    ||| (r.1 == p.1 || r.1 == q.1) && between(p.0, q.0, r.0)
    ||| (r.0 == p.0 || r.0 == q.0) && between(p.1, q.1, r.1)
}

/// `r` is on the outline of a box: on its border, or on that of the box that is one pixel
/// larger or smaller on every side.
pub open spec fn is_on_outline(p: (int, int), q: (int, int), r: (int, int)) -> bool {
    ||| is_on_box((p.0 - 1, p.1 - 1), (q.0 + 1, q.1 + 1), r)
    ||| is_on_box(p, q, r)
    ||| is_on_box((p.0 + 1, p.1 + 1), (q.0 - 1, q.1 - 1), r)
}

proof fn lemma_box(
    canvas: Canvas,
    p: (int, int),
    q: (int, int),
    d: int,
    color: Seq<u8>,
    r: (int, int),
)
    requires
        canvas.wf(),
        canvas.covers(r),
        color.len() == 3,
    ensures
        canvas.sides(p, q, d, color).wf(),
        canvas.sides(p, q, d, color).covers(r),
        canvas.sides(p, q, d, color).color_at(r) == if is_on_box(
            (p.0 + d, p.1 + d),
            (q.0 - d, q.1 - d),
            r,
        ) {
            color
        } else {
            canvas.color_at(r)
        },
{
    let a = (p.0 + d, p.1 + d);
    let b = (q.0 - d, p.1 + d);
    let c = (q.0 - d, q.1 - d);
    let e = (p.0 + d, q.1 - d);
    let top = canvas.line(a, b, color);
    let right = top.line(b, c, color);
    let bottom = right.line(c, e, color);
    law_line_colors_its_pixels(canvas, a, b, color, r);
    law_line_colors_its_pixels(top, b, c, color, r);
    law_line_colors_its_pixels(right, c, e, color, r);
    law_line_colors_its_pixels(bottom, e, a, color, r);
    lemma_along_row(a, b, r);
    lemma_along_column(b, c, r);
    lemma_along_row(c, e, r);
    lemma_along_column(e, a, r);
}

/// An outline colors the borders of a box and of the boxes one pixel larger and smaller, and
/// no other pixels, whatever the box.
pub proof fn law_outline_colors_three_borders(
    canvas: Canvas,
    p: (int, int),
    q: (int, int),
    color: Seq<u8>,
    r: (int, int),
)
    requires
        canvas.wf(),
        0 <= r.0 < canvas.width <= i32::MAX,
        0 <= r.1 < canvas.height <= i32::MAX,
        color.len() == 3,
    ensures
        canvas.outline(p, q, color).wf(),
        canvas.outline(p, q, color).covers(r),
        canvas.outline(p, q, color).color_at(r) == if is_on_outline(p, q, r) {
            color
        } else {
            canvas.color_at(r)
        },
{
    let outer = canvas.sides(p, q, -1, color);
    let border = outer.sides(p, q, 0, color);
    lemma_box(canvas, p, q, -1, color, r);
    lemma_box(outer, p, q, 0, color, r);
    lemma_box(border, p, q, 1, color, r);
}

/// `v`, moved into the coordinates from 0 to `size - 1`, which are at least 0.
pub open spec fn moved_into(v: int, size: int) -> int {
    if v >= size {
        if size > 0 {
            size - 1
        } else {
            0
        }
    } else if v < 0 {
        0
    } else {
        v
    }
}

/// The pixel that stands for a point is the point itself if it lies on the canvas, and else
/// the pixel that is nearest to it.
pub proof fn law_points_are_moved_onto_the_canvas(canvas: Canvas, x: int, y: int)
    requires
        canvas.wf(),
    ensures
        canvas.nearest(x, y) == (moved_into(x, canvas.width), moved_into(y, canvas.height)),
        0 < canvas.width ==> 0 <= canvas.nearest(x, y).0 < canvas.width,
        0 < canvas.height ==> 0 <= canvas.nearest(x, y).1 < canvas.height,
        0 <= x < canvas.width ==> canvas.nearest(x, y).0 == x,
        0 <= y < canvas.height ==> canvas.nearest(x, y).1 == y,
{
}

/// The pixel `n` points on in a trail and the next one, both on a canvas of the given size.
pub open spec fn is_on_segment(
    width: int,
    height: int,
    points: Seq<(i32, i32)>,
    n: int,
    r: (int, int),
) -> bool {
    is_pixel_of_line(
        (moved_into(points[n].0 as int, width), moved_into(points[n].1 as int, height)),
        (moved_into(points[n + 1].0 as int, width), moved_into(points[n + 1].1 as int, height)),
        r,
    )
}

/// A pixel that a track covers on a canvas of the given size: one of the outline of its box
/// or of the lines between the points of its trail.
pub open spec fn is_on_track(
    width: int,
    height: int,
    t: Track,
    points: Seq<(i32, i32)>,
    r: (int, int),
) -> bool {
    ||| is_on_outline(
        (moved_into(t.x1 as int, width), moved_into(t.y1 as int, height)),
        (moved_into(t.x2 as int, width), moved_into(t.y2 as int, height)),
        r,
    )
    ||| exists|n: int|
        0 <= n && n + 1 < points.len() && #[trigger] is_on_segment(width, height, points, n, r)
}

proof fn lemma_trail_colors(
    canvas: Canvas,
    points: Seq<(i32, i32)>,
    color: Seq<u8>,
    m: int,
    r: (int, int),
)
    requires
        canvas.wf(),
        canvas.covers(r),
        color.len() == 3,
        m < points.len() || m <= 0,
    ensures
        canvas.trail(points, color, m).wf(),
        canvas.trail(points, color, m).covers(r),
        canvas.trail(points, color, m).color_at(r) == if exists|n: int|
            0 <= n < m && #[trigger] is_on_segment(canvas.width, canvas.height, points, n, r) {
            color
        } else {
            canvas.color_at(r)
        },
    decreases m,
{
    if m > 0 {
        lemma_trail_colors(canvas, points, color, m - 1, r);
        let before = canvas.trail(points, color, m - 1);
        let (a, b) = (points[m - 1], points[m]);
        let p = canvas.nearest(a.0 as int, a.1 as int);
        let q = canvas.nearest(b.0 as int, b.1 as int);
        law_line_colors_its_pixels(before, p, q, color, r);
        law_line_is_straight(p, q, r);
        law_points_are_moved_onto_the_canvas(canvas, a.0 as int, a.1 as int);
        law_points_are_moved_onto_the_canvas(canvas, b.0 as int, b.1 as int);
        let (w, h) = (canvas.width, canvas.height);
        assert(on_line(p, q, r) <==> is_on_segment(w, h, points, m - 1, r));
        if exists|n: int| 0 <= n < m - 1 && #[trigger] is_on_segment(w, h, points, n, r) {
            let n = choose|n: int| 0 <= n < m - 1 && #[trigger] is_on_segment(w, h, points, n, r);
            assert(0 <= n < m && is_on_segment(w, h, points, n, r));
        }
    }
}

proof fn lemma_track_colors(
    canvas: Canvas,
    t: Track,
    points: Seq<(i32, i32)>,
    color: Seq<u8>,
    r: (int, int),
)
    requires
        canvas.wf(),
        canvas.covers(r),
        color.len() == 3,
    ensures
        canvas.track(t, points, color).wf(),
        canvas.track(t, points, color).covers(r),
        canvas.track(t, points, color).width == canvas.width,
        canvas.track(t, points, color).height == canvas.height,
        canvas.track(t, points, color).color_at(r) == if is_on_track(
            canvas.width,
            canvas.height,
            t,
            points,
            r,
        ) {
            color
        } else {
            canvas.color_at(r)
        },
{
    let p = canvas.nearest(t.x1 as int, t.y1 as int);
    let q = canvas.nearest(t.x2 as int, t.y2 as int);
    let outlined = canvas.outline(p, q, color);
    law_points_are_moved_onto_the_canvas(canvas, t.x1 as int, t.y1 as int);
    law_points_are_moved_onto_the_canvas(canvas, t.x2 as int, t.y2 as int);
    law_outline_colors_three_borders(canvas, p, q, color, r);
    lemma_outline(canvas, p, q, color);
    lemma_trail_colors(outlined, points, color, points.len() - 1, r);
    lemma_trail(outlined, points, color, points.len() - 1);
    let (w, h) = (canvas.width, canvas.height);
    if exists|n: int| 0 <= n && n + 1 < points.len() && #[trigger] is_on_segment(w, h, points, n, r) {
        let n = choose|n: int|
            0 <= n && n + 1 < points.len() && #[trigger] is_on_segment(w, h, points, n, r);
        assert(0 <= n < points.len() - 1 && is_on_segment(w, h, points, n, r));
    }
}

/// The id that a track goes by: its global id, or its own if it has none.
pub open spec fn goes_by(t: Track, ids: Map<i64, i64>) -> i64 {
    match ids.index_opt(t.id) {
        Some(id) => id,
        None => t.id,
    }
}

/// The trail of an id.
pub open spec fn points_of(trails: Map<i64, Seq<(i32, i32)>>, id: i64) -> Seq<(i32, i32)> {
    match trails.index_opt(id) {
        Some(points) => points,
        None => Seq::empty(),
    }
}

/// A pixel that track `i` covers.
pub open spec fn is_covered_by(
    canvas: Canvas,
    tracks: Seq<Track>,
    ids: Map<i64, i64>,
    trails: Map<i64, Seq<(i32, i32)>>,
    i: int,
    r: (int, int),
) -> bool {
    is_on_track(
        canvas.width,
        canvas.height,
        tracks[i],
        points_of(trails, goes_by(tracks[i], ids)),
        r,
    )
}

/// What the last of `n` tracks does to the color of a pixel.
proof fn lemma_last_track(
    canvas: Canvas,
    tracks: Seq<Track>,
    ids: Map<i64, i64>,
    trails: Map<i64, Seq<(i32, i32)>>,
    n: int,
    r: (int, int),
)
    requires
        canvas.covers(r),
        0 < n <= tracks.len(),
        canvas.tracks(tracks, ids, trails, n - 1).wf(),
        canvas.tracks(tracks, ids, trails, n - 1).width == canvas.width,
        canvas.tracks(tracks, ids, trails, n - 1).height == canvas.height,
    ensures
        canvas.tracks(tracks, ids, trails, n).wf(),
        canvas.tracks(tracks, ids, trails, n).width == canvas.width,
        canvas.tracks(tracks, ids, trails, n).height == canvas.height,
        canvas.tracks(tracks, ids, trails, n).color_at(r) == if is_covered_by(
            canvas,
            tracks,
            ids,
            trails,
            n - 1,
            r,
        ) {
            id_color(goes_by(tracks[n - 1], ids))
        } else {
            canvas.tracks(tracks, ids, trails, n - 1).color_at(r)
        },
{
    let before = canvas.tracks(tracks, ids, trails, n - 1);
    let t = tracks[n - 1];
    let id = shown_id(t, ids);
    assert(id == goes_by(t, ids));
    assert(trail_of(trails, id) == points_of(trails, id));
    assert(before.covers(r));
    lemma_track_colors(before, t, trail_of(trails, id), id_color(id), r);
}

/// The canvas that tracks were drawn on can be drawn on.
proof fn lemma_tracks_wf(
    canvas: Canvas,
    tracks: Seq<Track>,
    ids: Map<i64, i64>,
    trails: Map<i64, Seq<(i32, i32)>>,
    n: int,
    r: (int, int),
)
    requires
        canvas.wf(),
        canvas.covers(r),
        0 <= n <= tracks.len(),
    ensures
        canvas.tracks(tracks, ids, trails, n).wf(),
        canvas.tracks(tracks, ids, trails, n).width == canvas.width,
        canvas.tracks(tracks, ids, trails, n).height == canvas.height,
    decreases n,
{
    if n > 0 {
        lemma_tracks_wf(canvas, tracks, ids, trails, n - 1, r);
        lemma_last_track(canvas, tracks, ids, trails, n, r);
    }
}

/// Tracks that do not cover a pixel leave its color.
proof fn lemma_uncovered(
    canvas: Canvas,
    tracks: Seq<Track>,
    ids: Map<i64, i64>,
    trails: Map<i64, Seq<(i32, i32)>>,
    k: int,
    n: int,
    r: (int, int),
)
    requires
        canvas.wf(),
        canvas.covers(r),
        0 <= k <= n <= tracks.len(),
        forall|j: int|
            k <= j < n ==> !#[trigger] is_covered_by(canvas, tracks, ids, trails, j, r),
    ensures
        canvas.tracks(tracks, ids, trails, n).color_at(r) == canvas.tracks(
            tracks,
            ids,
            trails,
            k,
        ).color_at(r),
    decreases n,
{
    if k < n {
        lemma_uncovered(canvas, tracks, ids, trails, k, n - 1, r);
        lemma_tracks_wf(canvas, tracks, ids, trails, n - 1, r);
        lemma_last_track(canvas, tracks, ids, trails, n, r);
        assert(!is_covered_by(canvas, tracks, ids, trails, n - 1, r));
    }
}

/// The last track that covers a pixel gives it its color.
proof fn lemma_covered(
    canvas: Canvas,
    tracks: Seq<Track>,
    ids: Map<i64, i64>,
    trails: Map<i64, Seq<(i32, i32)>>,
    i: int,
    r: (int, int),
)
    requires
        canvas.wf(),
        canvas.covers(r),
        0 <= i < tracks.len(),
        is_covered_by(canvas, tracks, ids, trails, i, r),
        forall|j: int|
            i < j < tracks.len() ==> !#[trigger] is_covered_by(canvas, tracks, ids, trails, j, r),
    ensures
        canvas.tracks(tracks, ids, trails, tracks.len() as int).color_at(r) == id_color(
            goes_by(tracks[i], ids),
        ),
{
    lemma_tracks_wf(canvas, tracks, ids, trails, i, r);
    lemma_last_track(canvas, tracks, ids, trails, i + 1, r);
    lemma_uncovered(canvas, tracks, ids, trails, i + 1, tracks.len() as int, r);
}

/// Every track is drawn. A pixel that tracks cover, by the outlines of their boxes or by
/// their trails, has the color of the id of the last such track, in each of its three bytes.
pub proof fn law_every_track_is_drawn(
    canvas: Canvas,
    tracks: Seq<Track>,
    ids: Map<i64, i64>,
    trails: Map<i64, Seq<(i32, i32)>>,
    i: int,
    r: (int, int),
    c: int,
)
    requires
        canvas.wf(),
        0 <= r.0 < canvas.width <= i32::MAX,
        0 <= r.1 < canvas.height <= i32::MAX,
        0 <= i < tracks.len(),
        is_covered_by(canvas, tracks, ids, trails, i, r),
        forall|j: int|
            i < j < tracks.len() ==> !#[trigger] is_covered_by(canvas, tracks, ids, trails, j, r),
        0 <= c < 3,
    ensures
        canvas.tracks(tracks, ids, trails, tracks.len() as int).bytes[3 * (r.1 * canvas.width + r.0)
            + c] == id_color(goes_by(tracks[i], ids))[c],
{
    let n = tracks.len() as int;
    let out = canvas.tracks(tracks, ids, trails, n);
    lemma_tracks_wf(canvas, tracks, ids, trails, n, r);
    lemma_covered(canvas, tracks, ids, trails, i, r);
    lemma_pixels_apart(out, r, r);
    let at = pixel_start(out.width, r.0, r.1);
    assert(out.color_at(r)[c] == out.bytes[at + c]);
}

/// A pixel that no track covers keeps its color.
pub proof fn law_other_pixels_stay(
    canvas: Canvas,
    tracks: Seq<Track>,
    ids: Map<i64, i64>,
    trails: Map<i64, Seq<(i32, i32)>>,
    r: (int, int),
    c: int,
)
    requires
        canvas.wf(),
        0 <= r.0 < canvas.width <= i32::MAX,
        0 <= r.1 < canvas.height <= i32::MAX,
        forall|i: int|
            0 <= i < tracks.len() ==> !#[trigger] is_covered_by(canvas, tracks, ids, trails, i, r),
        0 <= c < 3,
    ensures
        canvas.tracks(tracks, ids, trails, tracks.len() as int).bytes[3 * (r.1 * canvas.width + r.0)
            + c] == canvas.bytes[3 * (r.1 * canvas.width + r.0) + c],
{
    let n = tracks.len() as int;
    let out = canvas.tracks(tracks, ids, trails, n);
    lemma_tracks_wf(canvas, tracks, ids, trails, n, r);
    lemma_uncovered(canvas, tracks, ids, trails, 0, n, r);
    lemma_pixels_apart(out, r, r);
    lemma_pixels_apart(canvas, r, r);
    let at = pixel_start(out.width, r.0, r.1);
    assert(out.color_at(r)[c] == out.bytes[at + c]);
    assert(canvas.color_at(r)[c] == canvas.bytes[at + c]);
}

/// The corner of the box of a track has the color of its id, if the corner lies on the canvas
/// and no later track covers it.
pub proof fn law_corner_is_drawn(
    canvas: Canvas,
    tracks: Seq<Track>,
    ids: Map<i64, i64>,
    trails: Map<i64, Seq<(i32, i32)>>,
    i: int,
)
    requires
        canvas.wf(),
        0 <= i < tracks.len(),
        0 <= tracks[i].x1 < canvas.width <= i32::MAX,
        0 <= tracks[i].y1 < canvas.height <= i32::MAX,
        forall|j: int|
            i < j < tracks.len() ==> !#[trigger] is_covered_by(
                canvas,
                tracks,
                ids,
                trails,
                j,
                (tracks[i].x1 as int, tracks[i].y1 as int),
            ),
    ensures
        canvas.tracks(tracks, ids, trails, tracks.len() as int).color_at(
            (tracks[i].x1 as int, tracks[i].y1 as int),
        ) == id_color(goes_by(tracks[i], ids)),
{
    let r = (tracks[i].x1 as int, tracks[i].y1 as int);
    assert(is_covered_by(canvas, tracks, ids, trails, i, r));
    lemma_covered(canvas, tracks, ids, trails, i, r);
}

/// Coloring a pixel of a canvas colors it and no other. A pixel outside changes nothing.
pub proof fn law_pixel_is_colored(canvas: Canvas, p: (int, int), color: Seq<u8>, r: (int, int), c: int)
    requires
        canvas.wf(),
        0 <= r.0 < canvas.width <= i32::MAX,
        0 <= r.1 < canvas.height <= i32::MAX,
        color.len() == 3,
        0 <= c < 3,
    ensures
        canvas.put(p, color).bytes[3 * (r.1 * canvas.width + r.0) + c] == if p == r {
            color[c]
        } else {
            canvas.bytes[3 * (r.1 * canvas.width + r.0) + c]
        },
        p.0 < 0 || p.0 >= canvas.width || p.1 < 0 || p.1 >= canvas.height ==> canvas.put(p, color)
            == canvas,
{
    let out = canvas.put(p, color);
    assert(canvas.covers(r));
    lemma_put(canvas, p, color, r);
    lemma_pixels_apart(canvas, r, r);
    lemma_pixels_apart(out, r, r);
    let at = pixel_start(canvas.width, r.0, r.1);
    assert(out.color_at(r)[c] == out.bytes[at + c]);
    assert(canvas.color_at(r)[c] == canvas.bytes[at + c]);
}

/// A line colors the pixels of the straight line between its ends, as far as they lie on
/// the canvas, and no others.
pub proof fn law_line_is_drawn(
    canvas: Canvas,
    p: (int, int),
    q: (int, int),
    color: Seq<u8>,
    r: (int, int),
    c: int,
)
    requires
        canvas.wf(),
        0 <= r.0 < canvas.width <= i32::MAX,
        0 <= r.1 < canvas.height <= i32::MAX,
        color.len() == 3,
        0 <= c < 3,
    ensures
        canvas.line(p, q, color).bytes[3 * (r.1 * canvas.width + r.0) + c] == if is_pixel_of_line(
            p,
            q,
            r,
        ) {
            color[c]
        } else {
            canvas.bytes[3 * (r.1 * canvas.width + r.0) + c]
        },
{
    let out = canvas.line(p, q, color);
    law_line_colors_its_pixels(canvas, p, q, color, r);
    law_line_is_straight(p, q, r);
    lemma_line_part(canvas, p, q, color, line_length(p, q) + 1);
    lemma_pixels_apart(canvas, r, r);
    lemma_pixels_apart(out, r, r);
    let at = pixel_start(canvas.width, r.0, r.1);
    assert(out.color_at(r)[c] == out.bytes[at + c]);
    assert(canvas.color_at(r)[c] == canvas.bytes[at + c]);
}

/// `after` has the size of `before` and as many bytes, and those past the pixels are the same.
spec fn keeps_rest(before: Canvas, after: Canvas) -> bool {
    &&& after.width == before.width
    &&& after.height == before.height
    &&& after.bytes.len() == before.bytes.len()
    &&& forall|b: int|
        3 * before.width * before.height <= b < before.bytes.len() ==> #[trigger] after.bytes[b]
            == before.bytes[b]
}

proof fn lemma_line_keeps_rest(canvas: Canvas, p: (int, int), q: (int, int), color: Seq<u8>, n: int)
    requires
        canvas.wf(),
    ensures
        keeps_rest(canvas, canvas.line_part(p, q, color, n)),
    decreases n,
{
    if n > 0 {
        lemma_line_keeps_rest(canvas, p, q, color, n - 1);
        let before = canvas.line_part(p, q, color, n - 1);
        let r = line_point(p, q, n - 1);
        if before.covers(r) {
            lemma_pixels_apart(before, r, r);
            let (w, h) = (canvas.width, canvas.height);
            assert(r.1 * w + r.0 < w * h) by (nonlinear_arith)
                requires
                    0 <= r.0 < w,
                    0 <= r.1 < h,
            ;
            assert(3 * w * h == 3 * (w * h)) by (nonlinear_arith);
        }
    }
}

proof fn lemma_sides_keep_rest(canvas: Canvas, p: (int, int), q: (int, int), d: int, color: Seq<u8>)
    requires
        canvas.wf(),
    ensures
        keeps_rest(canvas, canvas.sides(p, q, d, color)),
{
    let a = (p.0 + d, p.1 + d);
    let b = (q.0 - d, p.1 + d);
    let c = (q.0 - d, q.1 - d);
    let e = (p.0 + d, q.1 - d);
    let top = canvas.line(a, b, color);
    let right = top.line(b, c, color);
    let bottom = right.line(c, e, color);
    lemma_line_keeps_rest(canvas, a, b, color, line_length(a, b) + 1);
    lemma_line_keeps_rest(top, b, c, color, line_length(b, c) + 1);
    lemma_line_keeps_rest(right, c, e, color, line_length(c, e) + 1);
    lemma_line_keeps_rest(bottom, e, a, color, line_length(e, a) + 1);
}

proof fn lemma_trail_keeps_rest(canvas: Canvas, points: Seq<(i32, i32)>, color: Seq<u8>, n: int)
    requires
        canvas.wf(),
    ensures
        keeps_rest(canvas, canvas.trail(points, color, n)),
    decreases n,
{
    if n > 0 {
        lemma_trail_keeps_rest(canvas, points, color, n - 1);
        let before = canvas.trail(points, color, n - 1);
        let (a, b) = (points[n - 1], points[n]);
        let p = canvas.nearest(a.0 as int, a.1 as int);
        let q = canvas.nearest(b.0 as int, b.1 as int);
        lemma_line_keeps_rest(before, p, q, color, line_length(p, q) + 1);
    }
}

/// Drawing tracks keeps the size of the frame, the number of its bytes and the bytes past
/// its pixels. A frame that is too large to draw on stays as it is.
pub proof fn law_drawing_keeps_the_rest(
    canvas: Canvas,
    tracks: Seq<Track>,
    ids: Map<i64, i64>,
    trails: Map<i64, Seq<(i32, i32)>>,
    n: int,
)
    requires
        canvas.wf(),
    ensures
        canvas.tracks(tracks, ids, trails, n).width == canvas.width,
        canvas.tracks(tracks, ids, trails, n).height == canvas.height,
        canvas.tracks(tracks, ids, trails, n).bytes.len() == canvas.bytes.len(),
        forall|b: int|
            3 * canvas.width * canvas.height <= b < canvas.bytes.len() ==> #[trigger] canvas.tracks(
                tracks,
                ids,
                trails,
                n,
            ).bytes[b] == canvas.bytes[b],
        canvas.width > i32::MAX || canvas.height > i32::MAX ==> canvas.tracks(
            tracks,
            ids,
            trails,
            n,
        ) == canvas,
    decreases n,
{
    lemma_tracks(canvas, tracks, ids, trails, n);
    if n > 0 {
        law_drawing_keeps_the_rest(canvas, tracks, ids, trails, n - 1);
        let before = canvas.tracks(tracks, ids, trails, n - 1);
        let t = tracks[n - 1];
        let id = shown_id(t, ids);
        let color = id_color(id);
        let points = trail_of(trails, id);
        let p = before.nearest(t.x1 as int, t.y1 as int);
        let q = before.nearest(t.x2 as int, t.y2 as int);
        let outer = before.sides(p, q, -1, color);
        let border = outer.sides(p, q, 0, color);
        lemma_sides_keep_rest(before, p, q, -1, color);
        lemma_sides_keep_rest(outer, p, q, 0, color);
        lemma_sides_keep_rest(border, p, q, 1, color);
        lemma_trail_keeps_rest(border.sides(p, q, 1, color), points, color, points.len() - 1);
    }
}

/// The last 120 points.
proof fn lemma_latest_twice(a: Seq<(i32, i32)>, b: Seq<(i32, i32)>, c: (i32, i32))
    requires
        b == crate::draw::latest(a),
    ensures
        crate::draw::latest(b.push(c)) == crate::draw::latest(a.push(c)),
{
    assert(crate::draw::latest(b.push(c)) =~= crate::draw::latest(a.push(c)));
}

/// The trail of an id that tracks go by: the points that it had, and after them the centres
/// of these tracks in their order; of all these the last 120. The trails of other ids stay.
pub proof fn law_trail_collects_the_centres(
    trails: Map<i64, Seq<(i32, i32)>>,
    tracks: Seq<Track>,
    ids: Map<i64, i64>,
    n: int,
    id: i64,
)
    requires
        0 <= n <= tracks.len(),
    ensures
        ({
            let added = tracks.take(n).filter(|t: Track| goes_by(t, ids) == id).map_values(
                |t: Track| (midpoint(t.x1, t.x2), midpoint(t.y1, t.y2)),
            );
            let all = points_of(trails, id) + added;
            if added.len() == 0 {
                extended(trails, tracks, ids, n).index_opt(id) == trails.index_opt(id)
            } else {
                extended(trails, tracks, ids, n).index_opt(id) == Some(
                    if all.len() <= 120 {
                        all
                    } else {
                        all.skip(all.len() - 120)
                    },
                )
            }
        }),
    decreases n,
{
    let named = |t: Track| goes_by(t, ids) == id;
    let middle = |t: Track| (midpoint(t.x1, t.x2), midpoint(t.y1, t.y2));
    let added = tracks.take(n).filter(named).map_values(middle);
    let all = points_of(trails, id) + added;
    reveal(Seq::filter);
    if n > 0 {
        law_trail_collects_the_centres(trails, tracks, ids, n - 1, id);
        let t = tracks[n - 1];
        let earlier = tracks.take(n - 1).filter(named);
        let old = points_of(trails, id) + earlier.map_values(middle);
        let before = extended(trails, tracks, ids, n - 1);
        assert(tracks.take(n).drop_last() =~= tracks.take(n - 1));
        assert(shown_id(t, ids) == goes_by(t, ids));
        if named(t) {
            assert(earlier.push(t).map_values(middle) =~= earlier.map_values(middle).push(
                middle(t),
            ));
            assert(all =~= old.push(centre(t)));
            let had = trail_of(before, id);
            if earlier.len() == 0 {
                assert(old =~= points_of(trails, id));
                assert(had == old);
            } else {
                assert(had =~= crate::draw::latest(old));
                lemma_latest_twice(old, had, centre(t));
            }
            assert(crate::draw::latest(all) =~= if all.len() <= 120 {
                all
            } else {
                all.skip(all.len() - 120)
            });
        } else {
            assert(added =~= earlier.map_values(middle));
        }
    }
}

/// The centre between two coordinates is half their sum, without its fraction, as long as the
/// sum fits in an `i32`; else half of the nearest number that does.
pub proof fn law_centre_is_halfway(a: i64, b: i64)
    ensures
        i32::MIN <= a + b <= i32::MAX ==> 2 * midpoint(a, b) == a + b || 2 * midpoint(a, b) + 1 == a
            + b && a + b > 0 || 2 * midpoint(a, b) - 1 == a + b && a + b < 0,
        a + b > i32::MAX ==> midpoint(a, b) == 0x3fff_ffff,
        a + b < i32::MIN ==> midpoint(a, b) == -0x4000_0000,
{
}

/// The color of an id in closed form: its three bytes are bits 24 to 31 of three linear
/// functions of the id, modulo two to the power 64.
pub proof fn law_color_is_linear_in_id(id: i64)
    ensures
        id_color(id).len() == 3,
        id_color(id)[0] == ((id * 1664525 + 1013904223) % 0x1_0000_0000_0000_0000) / 0x100_0000
            % 0x100,
        id_color(id)[1] == ((id * 2770643475625 + 1687669940693298) % 0x1_0000_0000_0000_0000)
            / 0x100_0000 % 0x100,
        id_color(id)[2] == ((id * 4611805331264703125int + 2809168808033525757673int)
            % 0x1_0000_0000_0000_0000) / 0x100_0000 % 0x100,
{
    lemma_lcg(id as int, seed(id), 1, 0);
    lemma_lcg(id as int, lcg(seed(id)), 1664525, 1013904223);
    lemma_lcg(id as int, lcg(lcg(seed(id))), 2770643475625, 1687669940693298);
    vstd::arithmetic::div_mod::lemma_mod_add_multiples_vanish(id as int, 0x1_0000_0000_0000_0000);
}

/// A step of the generator of a state that is linear in `x`.
proof fn lemma_lcg(x: int, s: int, a: int, b: int)
    requires
        s == (x * a + b) % 0x1_0000_0000_0000_0000,
    ensures
        lcg(s) == (x * (a * 1664525) + (b * 1664525 + 1013904223)) % 0x1_0000_0000_0000_0000,
{
    let m = 0x1_0000_0000_0000_0000int;
    let y = x * a + b;
    vstd::arithmetic::div_mod::lemma_mul_mod_noop_left(y, 1664525, m);
    vstd::arithmetic::div_mod::lemma_add_mod_noop(s * 1664525, 1013904223, m);
    vstd::arithmetic::div_mod::lemma_add_mod_noop(y * 1664525, 1013904223, m);
    assert(y * 1664525 + 1013904223 == x * (a * 1664525) + (b * 1664525 + 1013904223))
        by (nonlinear_arith)
        requires
            y == x * a + b,
    ;
}

/// The trails are those that the history holds, point by point.
pub proof fn law_trails_are_those_of_the_history(history: Map<i64, Vec<(i32, i32)>>, id: i64)
    ensures
        crate::draw::trails(history).contains_key(id) <==> history.contains_key(id),
        history.contains_key(id) ==> crate::draw::trails(history)[id] == history[id]@,
{
}

} // verus!
