//! Lightweight drawing of tracks into RGB frames.

use vstd::prelude::*;

use image::RgbImage;
use std::collections::HashMap;

use crate::sort::Track;

verus! {

broadcast use vstd::std_specs::hash::group_hash_axioms;

/// How many points of a trail are kept.
pub const TRAIL_LEN: usize = 120;

/// The trail of each shown id: the centres of its boxes, oldest first.
pub type History = HashMap<i64, Vec<(i32, i32)>>;

/// An RGB frame: rows from top to bottom, in each the pixels from left to right,
/// three bytes to a pixel.
#[verifier::external_body]
pub struct Frame {
    buffer: RgbImage,
}

/// The bytes of a frame.
pub uninterp spec fn frame_bytes(frame: Frame) -> Seq<u8>;

/// The number of columns of a frame.
pub uninterp spec fn frame_width(frame: Frame) -> int;

/// The number of rows of a frame.
pub uninterp spec fn frame_height(frame: Frame) -> int;

/// `image::ImageBuffer::from_raw` takes the bytes as they are. It refuses them
/// if they are fewer than three for each pixel or if the length of a row does not
/// fit in a `usize`, and only then.
#[verifier::external_body]
fn buffer_from_raw(width: u32, height: u32, bytes: Vec<u8>) -> (frame: Option<Frame>)
    ensures
        frame is Some <==> (bytes@.len() >= 3 * width * height && usize::MAX >= 3 * width),
        frame matches Some(f) ==> frame_bytes(f) == bytes@ && frame_width(f) == width
            && frame_height(f) == height,
{
    let buffer = RgbImage::from_raw(width, height, bytes)?;
    Some(Frame { buffer })
}

/// `image::ImageBuffer::into_raw` returns the bytes as they are.
#[verifier::external_body]
fn buffer_into_raw(frame: Frame) -> (bytes: Vec<u8>)
    ensures
        bytes@ == frame_bytes(frame),
{
    frame.buffer.into_raw()
}

/// `image::ImageBuffer::width` returns the number of columns.
#[verifier::external_body]
fn buffer_width(frame: &Frame) -> (width: u32)
    ensures
        width == frame_width(*frame),
{
    frame.buffer.width()
}

/// `image::ImageBuffer::height` returns the number of rows.
#[verifier::external_body]
fn buffer_height(frame: &Frame) -> (height: u32)
    ensures
        height == frame_height(*frame),
{
    frame.buffer.height()
}

/// `image::ImageBuffer::put_pixel` writes the three bytes of the pixel in column
/// `x` and row `y`, which lies in the frame, and no others.
#[verifier::external_body]
fn buffer_put_pixel(frame: &mut Frame, x: u32, y: u32, color: [u8; 3])
    requires
        x < frame_width(*old(frame)),
        y < frame_height(*old(frame)),
    ensures
        frame_bytes(*final(frame)) == with_pixel(
            frame_bytes(*old(frame)),
            frame_width(*old(frame)),
            x as int,
            y as int,
            color@,
        ),
        frame_width(*final(frame)) == frame_width(*old(frame)),
        frame_height(*final(frame)) == frame_height(*old(frame)),
{
    frame.buffer.put_pixel(x, y, image::Rgb(color));
}

/// `Clone::clone` of `image::ImageBuffer` returns a frame of the same size with
/// the same bytes.
#[verifier::external_body]
fn buffer_clone(frame: &Frame) -> (copy: Frame)
    ensures
        frame_bytes(copy) == frame_bytes(*frame),
        frame_width(copy) == frame_width(*frame),
        frame_height(copy) == frame_height(*frame),
{
    Frame { buffer: frame.buffer.clone() }
}

/// Where the three bytes of the pixel in column `x` and row `y` begin.
pub open spec fn pixel_start(width: int, x: int, y: int) -> int {
    3 * (y * width + x)
}

/// The bytes with one pixel in another color.
pub open spec fn with_pixel(bytes: Seq<u8>, width: int, x: int, y: int, color: Seq<u8>) -> Seq<u8> {
    let at = pixel_start(width, x, y);
    bytes.update(at, color[0]).update(at + 1, color[1]).update(at + 2, color[2])
}

/// What a frame shows.
pub ghost struct Canvas {
    pub bytes: Seq<u8>,
    pub width: int,
    pub height: int,
}

impl View for Frame {
    type V = Canvas;

    open spec fn view(&self) -> Canvas {
        Canvas {
            bytes: frame_bytes(*self),
            width: frame_width(*self),
            height: frame_height(*self),
        }
    }
}

impl Frame {
    /// A frame of the given size, if there are enough bytes for it and a row of it can
    /// be addressed.
    pub fn from_raw(width: u32, height: u32, bytes: Vec<u8>) -> (frame: Option<Frame>)
        ensures
            frame is Some <==> (bytes@.len() >= 3 * width * height && usize::MAX >= 3 * width),
            frame matches Some(f) ==> f@ == (Canvas {
                bytes: bytes@,
                width: width as int,
                height: height as int,
            }),
    {
        buffer_from_raw(width, height, bytes)
    }

    /// The bytes of the frame.
    pub fn into_raw(self) -> (bytes: Vec<u8>)
        ensures
            bytes@ == self@.bytes,
    {
        buffer_into_raw(self)
    }

    /// The number of columns.
    pub fn width(&self) -> (width: u32)
        ensures
            width == self@.width,
    {
        buffer_width(self)
    }

    /// The number of rows.
    pub fn height(&self) -> (height: u32)
        ensures
            height == self@.height,
    {
        buffer_height(self)
    }
}

/// A step of the linear congruential generator behind the colors.
pub open spec fn lcg(s: int) -> int {
    (s * 1664525 + 1013904223) % 0x1_0000_0000_0000_0000
}

/// The byte that a state of the generator gives: its bits 24 to 31.
pub open spec fn lcg_byte(s: int) -> u8 {
    ((s / 0x100_0000) % 0x100) as u8
}

/// The state that a generator starts in: the id modulo two to the power 64.
pub open spec fn seed(id: i64) -> int {
    if id >= 0 {
        id as int
    } else {
        id + 0x1_0000_0000_0000_0000
    }
}

/// The color of an id: the bytes of the first three states after its seed.
pub open spec fn id_color(id: i64) -> Seq<u8> {
    let s1 = lcg(seed(id));
    let s2 = lcg(s1);
    let s3 = lcg(s2);
    seq![lcg_byte(s1), lcg_byte(s2), lcg_byte(s3)]
}

fn lcg_next(s: u64) -> (n: u64)
    ensures
        n == lcg(s as int),
{
    let product: u64 = s.wrapping_mul(1664525);
    let n: u64 = product.wrapping_add(1013904223);
    proof {
        let m = 0x1_0000_0000_0000_0000int;
        assert(product == (s * 1664525) % m);
        assert(n == (product + 1013904223) % m);
        vstd::arithmetic::div_mod::lemma_add_mod_noop(s * 1664525, 1013904223, m);
    }
    n
}

fn lcg_output(s: u64) -> (b: u8)
    ensures
        b == lcg_byte(s as int),
{
    let shifted: u64 = s / 0x100_0000;
    let low: u64 = shifted % 0x100;
    low as u8
}

/// The color in which an id is drawn.
pub fn color_from_id(id: i64) -> (color: [u8; 3])
    ensures
        color@ == id_color(id),
{
    let start: u64 = if id >= 0 {
        id as u64
    } else {
        u64::MAX - (-(id + 1)) as u64
    };
    let s1: u64 = lcg_next(start);
    let s2: u64 = lcg_next(s1);
    let s3: u64 = lcg_next(s2);
    let color: [u8; 3] = [lcg_output(s1), lcg_output(s2), lcg_output(s3)];
    assert(color@ =~= id_color(id));
    color
}

/// How far apart two coordinates are.
pub open spec fn distance(a: int, b: int) -> int {
    if a <= b {
        b - a
    } else {
        a - b
    }
}

/// The number of steps of a line: the longer of its two extents.
pub open spec fn line_length(p: (int, int), q: (int, int)) -> int {
    if distance(p.0, q.0) >= distance(p.1, q.1) {
        distance(p.0, q.0)
    } else {
        distance(p.1, q.1)
    }
}

/// `a / n` rounded to the nearest integer, halves upwards; 0 if `n` is 0.
pub open spec fn rounded(a: int, n: int) -> int {
    if n == 0 {
        0
    } else {
        (2 * a + n) / (2 * n)
    }
}

/// The coordinate `k` of `n` equal steps from `a` towards `b`.
pub open spec fn toward(a: int, b: int, k: int, n: int) -> int {
    if a < b {
        a + rounded(k * distance(a, b), n)
    } else {
        a - rounded(k * distance(a, b), n)
    }
}

/// The pixel of a line after `k` steps.
pub open spec fn line_point(p: (int, int), q: (int, int), k: int) -> (int, int) {
    (toward(p.0, q.0, k, line_length(p, q)), toward(p.1, q.1, k, line_length(p, q)))
}

/// Whether a pixel is one of a line.
pub open spec fn on_line(p: (int, int), q: (int, int), r: (int, int)) -> bool {
    exists|k: int| 0 <= k <= line_length(p, q) && #[trigger] line_point(p, q, k) == r
}

impl Canvas {
    /// Whether a pixel lies on the canvas. No pixel lies on a canvas with more
    /// columns or rows than an `i32` can count.
    pub open spec fn covers(self, p: (int, int)) -> bool {
        &&& 0 <= p.0 < self.width <= i32::MAX
        &&& 0 <= p.1 < self.height <= i32::MAX
    }

    /// Whether there are bytes for every pixel, as there are in every frame that
    /// `Frame::from_raw` returns.
    pub open spec fn wf(self) -> bool {
        &&& 0 <= self.width
        &&& 0 <= self.height
        &&& self.bytes.len() >= 3 * self.width * self.height
    }

    /// The color of a pixel.
    pub open spec fn color_at(self, p: (int, int)) -> Seq<u8> {
        let at = pixel_start(self.width, p.0, p.1);
        self.bytes.subrange(at, at + 3)
    }

    /// The canvas with one pixel in another color, if it covers that pixel.
    pub open spec fn put(self, p: (int, int), color: Seq<u8>) -> Canvas {
        if self.covers(p) {
            Canvas { bytes: with_pixel(self.bytes, self.width, p.0, p.1, color), ..self }
        } else {
            self
        }
    }

    /// The canvas with the first `n` pixels of a line.
    pub open spec fn line_part(
        self,
        p: (int, int),
        q: (int, int),
        color: Seq<u8>,
        n: int,
    ) -> Canvas
        decreases n,
    {
        if n <= 0 {
            self
        } else {
            self.line_part(p, q, color, n - 1).put(line_point(p, q, n - 1), color)
        }
    }

    /// The canvas with a line.
    pub open spec fn line(self, p: (int, int), q: (int, int), color: Seq<u8>) -> Canvas {
        self.line_part(p, q, color, line_length(p, q) + 1)
    }

    /// The canvas with the four sides of a box, each moved inwards by `d`.
    pub open spec fn sides(self, p: (int, int), q: (int, int), d: int, color: Seq<u8>) -> Canvas {
        let (x1, y1) = (p.0 + d, p.1 + d);
        let (x2, y2) = (q.0 - d, q.1 - d);
        self.line((x1, y1), (x2, y1), color).line((x2, y1), (x2, y2), color).line(
            (x2, y2),
            (x1, y2),
            color,
        ).line((x1, y2), (x1, y1), color)
    }

    /// The canvas with the outline of a box, three pixels wide.
    pub open spec fn outline(self, p: (int, int), q: (int, int), color: Seq<u8>) -> Canvas {
        self.sides(p, q, -1, color).sides(p, q, 0, color).sides(p, q, 1, color)
    }

    /// The pixel of the canvas that is nearest to a point.
    pub open spec fn nearest(self, x: int, y: int) -> (int, int) {
        (clamped(x, self.width - 1), clamped(y, self.height - 1))
    }

    /// The canvas with the first `n` segments of a trail.
    pub open spec fn trail(self, points: Seq<(i32, i32)>, color: Seq<u8>, n: int) -> Canvas
        decreases n,
    {
        if n <= 0 {
            self
        } else {
            let (a, b) = (points[n - 1], points[n]);
            self.trail(points, color, n - 1).line(
                self.nearest(a.0 as int, a.1 as int),
                self.nearest(b.0 as int, b.1 as int),
                color,
            )
        }
    }

    /// The canvas with the outline and the trail of a track.
    pub open spec fn track(self, t: Track, points: Seq<(i32, i32)>, color: Seq<u8>) -> Canvas {
        self.outline(
            self.nearest(t.x1 as int, t.y1 as int),
            self.nearest(t.x2 as int, t.y2 as int),
            color,
        ).trail(points, color, points.len() - 1)
    }

    /// The canvas with the first `n` tracks, each in the color of the id that it
    /// is shown under and with the trail of that id.
    pub open spec fn tracks(
        self,
        tracks: Seq<Track>,
        ids: Map<i64, i64>,
        trails: Map<i64, Seq<(i32, i32)>>,
        n: int,
    ) -> Canvas
        decreases n,
    {
        if n <= 0 {
            self
        } else {
            let id = shown_id(tracks[n - 1], ids);
            self.tracks(tracks, ids, trails, n - 1).track(
                tracks[n - 1],
                trail_of(trails, id),
                id_color(id),
            )
        }
    }
}

/// `v`, moved up to 0 or down to `max`; 0 if `max` is negative.
pub open spec fn clamped(v: int, max: int) -> int {
    if v <= 0 || max <= 0 {
        0
    } else if v > max {
        max
    } else {
        v
    }
}

/// The id that a track is shown under: the one that `ids` gives for its own,
/// else its own.
pub open spec fn shown_id(t: Track, ids: Map<i64, i64>) -> i64 {
    if ids.contains_key(t.id) {
        ids[t.id]
    } else {
        t.id
    }
}

/// The centre between two coordinates whose sum is moved into the range of `i32`
/// first; halves are dropped.
pub open spec fn midpoint(a: i64, b: i64) -> i32 {
    let sum = if a + b > i32::MAX {
        i32::MAX as int
    } else if a + b < i32::MIN {
        i32::MIN as int
    } else {
        a + b
    };
    (if sum >= 0 {
        sum / 2
    } else {
        -((-sum) / 2)
    }) as i32
}

/// The centre of the box of a track.
pub open spec fn centre(t: Track) -> (i32, i32) {
    (midpoint(t.x1, t.x2), midpoint(t.y1, t.y2))
}

/// The last points of a trail, as many as are kept.
pub open spec fn latest(points: Seq<(i32, i32)>) -> Seq<(i32, i32)> {
    if points.len() > TRAIL_LEN {
        points.subrange(points.len() - TRAIL_LEN, points.len() as int)
    } else {
        points
    }
}

/// The trail of an id; without points if it has none yet.
pub open spec fn trail_of(trails: Map<i64, Seq<(i32, i32)>>, id: i64) -> Seq<(i32, i32)> {
    if trails.contains_key(id) {
        trails[id]
    } else {
        Seq::empty()
    }
}

/// The trails with the centres of the first `n` tracks added.
pub open spec fn extended(
    trails: Map<i64, Seq<(i32, i32)>>,
    tracks: Seq<Track>,
    ids: Map<i64, i64>,
    n: int,
) -> Map<i64, Seq<(i32, i32)>>
    decreases n,
{
    if n <= 0 {
        trails
    } else {
        let before = extended(trails, tracks, ids, n - 1);
        let id = shown_id(tracks[n - 1], ids);
        before.insert(id, latest(trail_of(before, id).push(centre(tracks[n - 1]))))
    }
}

/// The trails that a history holds.
pub open spec fn trails(history: Map<i64, Vec<(i32, i32)>>) -> Map<i64, Seq<(i32, i32)>> {
    history.map_values(|points: Vec<(i32, i32)>| points@)
}

/// What rounding means.
pub(crate) proof fn lemma_rounded(a: int, n: int)
    requires
        n > 0,
    ensures
        2 * n * rounded(a, n) <= 2 * a + n < 2 * n * rounded(a, n) + 2 * n,
{
    vstd::arithmetic::div_mod::lemma_fundamental_div_mod(2 * a + n, 2 * n);
    vstd::arithmetic::div_mod::lemma_mod_bound(2 * a + n, 2 * n);
}

/// A quotient between two bounds is what `rounded` gives.
pub(crate) proof fn lemma_rounded_is(a: int, n: int, r: int)
    requires
        n > 0,
        2 * n * r <= 2 * a + n < 2 * n * r + 2 * n,
    ensures
        rounded(a, n) == r,
{
    lemma_rounded(a, n);
    let s = rounded(a, n);
    assert(r == s) by (nonlinear_arith)
        requires
            n > 0,
            2 * n * r <= 2 * a + n < 2 * n * r + 2 * n,
            2 * n * s <= 2 * a + n < 2 * n * s + 2 * n,
    ;
}

/// The steps of a coordinate begin at 0, end at its distance and stay between;
/// along the longer extent each step counts.
pub(crate) proof fn lemma_steps(k: int, d: int, n: int)
    requires
        0 <= k <= n,
        0 <= d <= n,
    ensures
        0 <= rounded(k * d, n) <= d,
        k == 0 ==> rounded(k * d, n) == 0,
        k == n ==> rounded(k * d, n) == d,
        d == n ==> rounded(k * d, n) == k,
{
    if n > 0 {
        let r = rounded(k * d, n);
        lemma_rounded(k * d, n);
        assert(0 <= k * d <= n * d) by (nonlinear_arith)
            requires
                0 <= k <= n,
                0 <= d,
        ;
        assert(0 <= r <= d) by (nonlinear_arith)
            requires
                n > 0,
                0 <= k * d <= n * d,
                2 * n * r <= 2 * (k * d) + n < 2 * n * r + 2 * n,
        ;
        if k == 0 {
            assert(k * d == 0) by (nonlinear_arith)
                requires
                    k == 0,
            ;
            lemma_rounded_is(0, n, 0);
        }
        if k == n {
            assert(2 * n * d == 2 * (k * d)) by (nonlinear_arith)
                requires
                    k == n,
            ;
            lemma_rounded_is(k * d, n, d);
        }
        if d == n {
            assert(2 * n * k == 2 * (k * d)) by (nonlinear_arith)
                requires
                    d == n,
            ;
            lemma_rounded_is(k * d, n, k);
        }
    }
}

/// How the error term of a line decides about the next step of the coordinate
/// that has the smaller distance `b`, where `a` is the larger.
proof fn lemma_minor_step(a: int, b: int, k: int)
    requires
        0 <= b <= a,
        0 <= k < a,
    ensures
        ({
            let r = rounded(k * b, a);
            let e = b + k * b - r * a;
            &&& -a <= 2 * e <= 3 * a
            &&& 2 * e < a + 2 * b
            &&& 2 * e < a ==> rounded((k + 1) * b, a) == r
            &&& 2 * e >= a ==> rounded((k + 1) * b, a) == r + 1
        }),
{
    let r = rounded(k * b, a);
    let kb = k * b;
    let ar = r * a;
    lemma_rounded(kb, a);
    assert(2 * a * r == 2 * ar) by (nonlinear_arith)
        requires
            ar == r * a,
    ;
    assert((k + 1) * b == kb + b) by (nonlinear_arith)
        requires
            kb == k * b,
    ;
    assert(2 * a * (r + 1) == 2 * ar + 2 * a) by (nonlinear_arith)
        requires
            ar == r * a,
    ;
    if 2 * (b + kb - ar) < a {
        lemma_rounded_is(kb + b, a, r);
    } else {
        lemma_rounded_is(kb + b, a, r + 1);
    }
}

/// The error term of a line of extents `dx` and `dy` after `k` steps.
spec fn line_error(dx: int, dy: int, k: int) -> int {
    let n = if dx >= dy {
        dx
    } else {
        dy
    };
    dx - dy - rounded(k * dx, n) * dy + rounded(k * dy, n) * dx
}

/// The error term decides about the next step of both coordinates.
proof fn lemma_line_step(dx: int, dy: int, n: int, k: int)
    requires
        0 <= dx <= n,
        0 <= dy <= n,
        n == dx || n == dy,
        0 <= k < n,
    ensures
        ({
            let err = line_error(dx, dy, k);
            let x = rounded(k * dx, n);
            let y = rounded(k * dy, n);
            let next_x = rounded((k + 1) * dx, n);
            let next_y = rounded((k + 1) * dy, n);
            &&& -3 * n <= err <= 3 * n
            &&& next_x == if 2 * err >= -dy { x + 1 } else { x }
            &&& next_y == if 2 * err <= dx { y + 1 } else { y }
            &&& line_error(dx, dy, k + 1) == err - (if 2 * err >= -dy { dy } else { 0 })
                + (if 2 * err <= dx { dx } else { 0 })
        }),
{
    let x = rounded(k * dx, n);
    let y = rounded(k * dy, n);
    lemma_steps(k, dx, n);
    lemma_steps(k, dy, n);
    lemma_steps(k + 1, dx, n);
    lemma_steps(k + 1, dy, n);
    if dx >= dy {
        lemma_minor_step(dx, dy, k);
    } else {
        lemma_minor_step(dy, dx, k);
    }
    assert((x + 1) * dy == x * dy + dy) by (nonlinear_arith);
    assert((y + 1) * dx == y * dx + dx) by (nonlinear_arith);
}

/// Colors one pixel, if it lies in the frame.
pub fn pixel(img: &mut Frame, x: i32, y: i32, c: [u8; 3])
    ensures
        final(img)@ == old(img)@.put((x as int, y as int), c@),
{
    let width: u32 = buffer_width(img);
    let height: u32 = buffer_height(img);
    if x >= 0 && y >= 0 && width <= 0x7fff_ffff && height <= 0x7fff_ffff && (x as u32) < width && (
    y as u32) < height {
        buffer_put_pixel(img, x as u32, y as u32, c);
    }
}

fn extent(a: i32, b: i32) -> (d: i64)
    ensures
        d == distance(a as int, b as int),
{
    if a <= b {
        b as i64 - a as i64
    } else {
        a as i64 - b as i64
    }
}

/// Draws the line from (`x0`, `y0`) to (`x1`, `y1`), both ends with it.
pub fn line(img: &mut Frame, x0: i32, y0: i32, x1: i32, y1: i32, c: [u8; 3])
    ensures
        final(img)@ == old(img)@.line((x0 as int, y0 as int), (x1 as int, y1 as int), c@),
{
    let dx: i64 = extent(x0, x1);
    let sx: i32 = if x0 < x1 {
        1
    } else {
        -1
    };
    let dy: i64 = extent(y0, y1);
    let sy: i32 = if y0 < y1 {
        1
    } else {
        -1
    };
    let mut err: i64 = dx - dy;
    let mut x: i32 = x0;
    let mut y: i32 = y0;
    let ghost start = img@;
    let ghost p = (x0 as int, y0 as int);
    let ghost q = (x1 as int, y1 as int);
    let ghost n = line_length(p, q);
    let ghost mut k: int = 0;
    proof {
        lemma_steps(0, dx as int, n);
        lemma_steps(0, dy as int, n);
        assert(line_error(dx as int, dy as int, 0) == dx - dy) by (nonlinear_arith)
            requires
                rounded(0 * dx, n) == 0,
                rounded(0 * dy, n) == 0,
                n == if dx >= dy { dx as int } else { dy as int },
        ;
    }
    loop
        invariant_except_break
            img@ == start.line_part(p, q, c@, k),
        invariant
            dx == distance(p.0, q.0),
            dy == distance(p.1, q.1),
            sx == if x0 < x1 { 1int } else { -1int },
            sy == if y0 < y1 { 1int } else { -1int },
            p == (x0 as int, y0 as int),
            q == (x1 as int, y1 as int),
            n == line_length(p, q),
            0 <= k <= n,
            (x as int, y as int) == line_point(p, q, k),
            err == line_error(dx as int, dy as int, k),
        ensures
            img@ == start.line(p, q, c@),
        decreases n - k,
    {
        pixel(img, x, y, c);
        proof {
            lemma_steps(k, dx as int, n);
            lemma_steps(k, dy as int, n);
            assert(img@ == start.line_part(p, q, c@, k + 1));
        }
        if x == x1 && y == y1 {
            break;
        }
        proof {
            if k == n {
                lemma_steps(n, dx as int, n);
                lemma_steps(n, dy as int, n);
            }
            lemma_line_step(dx as int, dy as int, n, k);
            lemma_steps(k + 1, dx as int, n);
            lemma_steps(k + 1, dy as int, n);
        }
        let e: i64 = 2 * err;
        if e >= -dy {
            err = err - dy;
            x = x + sx;
        }
        if e <= dx {
            err = err + dx;
            y = y + sy;
        }
        proof {
            k = k + 1;
        }
    }
}

/// Draws the outline of a box, three pixels wide.
pub fn rect(img: &mut Frame, x1: i32, y1: i32, x2: i32, y2: i32, c: [u8; 3])
    requires
        i32::MIN < x1 < i32::MAX,
        i32::MIN < y1 < i32::MAX,
        i32::MIN < x2 < i32::MAX,
        i32::MIN < y2 < i32::MAX,
    ensures
        final(img)@ == old(img)@.outline((x1 as int, y1 as int), (x2 as int, y2 as int), c@),
{
    sides(img, x1 - 1, y1 - 1, x2 + 1, y2 + 1, c);
    sides(img, x1, y1, x2, y2, c);
    sides(img, x1 + 1, y1 + 1, x2 - 1, y2 - 1, c);
}

fn sides(img: &mut Frame, x1: i32, y1: i32, x2: i32, y2: i32, c: [u8; 3])
    ensures
        final(img)@ == old(img)@.sides((x1 as int, y1 as int), (x2 as int, y2 as int), 0, c@),
{
    line(img, x1, y1, x2, y1, c);
    line(img, x2, y1, x2, y2, c);
    line(img, x2, y2, x1, y2, c);
    line(img, x1, y2, x1, y1, c);
}

fn clamp_to(v: i64, size: u32) -> (r: i32)
    requires
        size <= i32::MAX,
    ensures
        r == clamped(v as int, size - 1),
        0 <= r < i32::MAX,
{
    if v <= 0 || size <= 1 {
        0
    } else if v > (size - 1) as i64 {
        (size - 1) as i32
    } else {
        v as i32
    }
}

fn middle(a: i64, b: i64) -> (m: i32)
    ensures
        m == midpoint(a, b),
{
    let wide: i128 = a as i128 + b as i128;
    let sum: i32 = if wide > i32::MAX as i128 {
        i32::MAX
    } else if wide < i32::MIN as i128 {
        i32::MIN
    } else {
        wide as i32
    };
    if sum >= 0 {
        sum / 2
    } else {
        (-((-(sum as i64)) / 2)) as i32
    }
}

fn shown(t: &Track, ids: &HashMap<i64, i64>) -> (id: i64)
    ensures
        id == shown_id(*t, ids@),
{
    match ids.get(&t.id) {
        Some(id) => *id,
        None => t.id,
    }
}

/// Adds the centre of a track to the trail of the id that it is shown under.
fn extend_trail(history: &mut History, id: i64, p: (i32, i32))
    ensures
        trails(final(history)@) == trails(old(history)@).insert(
            id,
            latest(trail_of(trails(old(history)@), id).push(p)),
        ),
{
    let mut points: Vec<(i32, i32)> = match history.remove(&id) {
        Some(points) => points,
        None => Vec::new(),
    };
    assert(points@ == trail_of(trails(old(history)@), id));
    points.push(p);
    if points.len() > TRAIL_LEN {
        let surplus: usize = points.len() - TRAIL_LEN;
        points = points.split_off(surplus);
    }
    history.insert(id, points);
    assert(trails(history@) =~= trails(old(history)@).insert(
        id,
        latest(trail_of(trails(old(history)@), id).push(p)),
    ));
}

/// Drawing a line keeps the size of the canvas; one that is too large to draw on
/// stays as it is.
pub(crate) proof fn lemma_line_part(canvas: Canvas, p: (int, int), q: (int, int), color: Seq<u8>, n: int)
    ensures
        canvas.line_part(p, q, color, n).width == canvas.width,
        canvas.line_part(p, q, color, n).height == canvas.height,
        canvas.width > i32::MAX || canvas.height > i32::MAX ==> canvas.line_part(p, q, color, n)
            == canvas,
    decreases n,
{
    if n > 0 {
        lemma_line_part(canvas, p, q, color, n - 1);
    }
}

/// As `lemma_line_part`, for an outline.
pub(crate) proof fn lemma_outline(canvas: Canvas, p: (int, int), q: (int, int), color: Seq<u8>)
    ensures
        canvas.outline(p, q, color).width == canvas.width,
        canvas.outline(p, q, color).height == canvas.height,
        canvas.width > i32::MAX || canvas.height > i32::MAX ==> canvas.outline(p, q, color)
            == canvas,
{
    assert forall|c: Canvas, a: (int, int), b: (int, int)|
        {
            &&& (#[trigger] c.line(a, b, color)).width == c.width
            &&& c.line(a, b, color).height == c.height
            &&& c.width > i32::MAX || c.height > i32::MAX ==> c.line(a, b, color) == c
        } by {
        lemma_line_part(c, a, b, color, line_length(a, b) + 1);
    }
}

/// As `lemma_line_part`, for a trail.
pub(crate) proof fn lemma_trail(canvas: Canvas, points: Seq<(i32, i32)>, color: Seq<u8>, n: int)
    ensures
        canvas.trail(points, color, n).width == canvas.width,
        canvas.trail(points, color, n).height == canvas.height,
        canvas.width > i32::MAX || canvas.height > i32::MAX ==> canvas.trail(points, color, n)
            == canvas,
    decreases n,
{
    if n > 0 {
        let before = canvas.trail(points, color, n - 1);
        let (a, b) = (points[n - 1], points[n]);
        let p = canvas.nearest(a.0 as int, a.1 as int);
        let q = canvas.nearest(b.0 as int, b.1 as int);
        lemma_trail(canvas, points, color, n - 1);
        lemma_line_part(before, p, q, color, line_length(p, q) + 1);
    }
}

/// As `lemma_line_part`, for tracks.
pub(crate) proof fn lemma_tracks(
    canvas: Canvas,
    tracks: Seq<Track>,
    ids: Map<i64, i64>,
    trails: Map<i64, Seq<(i32, i32)>>,
    n: int,
)
    ensures
        canvas.tracks(tracks, ids, trails, n).width == canvas.width,
        canvas.tracks(tracks, ids, trails, n).height == canvas.height,
        canvas.width > i32::MAX || canvas.height > i32::MAX ==> canvas.tracks(
            tracks,
            ids,
            trails,
            n,
        ) == canvas,
    decreases n,
{
    if n > 0 {
        lemma_tracks(canvas, tracks, ids, trails, n - 1);
        let before = canvas.tracks(tracks, ids, trails, n - 1);
        let t = tracks[n - 1];
        let id = shown_id(t, ids);
        let p = before.nearest(t.x1 as int, t.y1 as int);
        let q = before.nearest(t.x2 as int, t.y2 as int);
        let points = trail_of(trails, id);
        lemma_outline(before, p, q, id_color(id));
        lemma_trail(before.outline(p, q, id_color(id)), points, id_color(id), points.len() - 1);
    }
}

/// Draws the segments of a trail.
fn draw_trail(img: &mut Frame, points: &Vec<(i32, i32)>, c: [u8; 3])
    requires
        old(img)@.width <= i32::MAX,
        old(img)@.height <= i32::MAX,
    ensures
        final(img)@ == old(img)@.trail(points@, c@, points@.len() - 1),
{
    let width: u32 = buffer_width(img);
    let height: u32 = buffer_height(img);
    let ghost start = img@;
    let mut i: usize = 1;
    while i < points.len()
        invariant
            width == start.width <= i32::MAX,
            height == start.height <= i32::MAX,
            1 <= i,
            points.len() > 0 ==> i <= points.len(),
            points.len() == 0 ==> i == 1,
            img@ == start.trail(points@, c@, i - 1),
        decreases points.len() - i,
    {
        let (ax, ay): (i32, i32) = points[i - 1];
        let (bx, by): (i32, i32) = points[i];
        line(
            img,
            clamp_to(ax as i64, width),
            clamp_to(ay as i64, height),
            clamp_to(bx as i64, width),
            clamp_to(by as i64, height),
            c,
        );
        i = i + 1;
    }
}

/// Draws the outline of a track and its trail.
fn draw_track(img: &mut Frame, t: &Track, points: Option<&Vec<(i32, i32)>>, c: [u8; 3])
    requires
        old(img)@.width <= i32::MAX,
        old(img)@.height <= i32::MAX,
    ensures
        final(img)@ == old(img)@.track(
            *t,
            match points {
                Some(points) => points@,
                None => Seq::empty(),
            },
            c@,
        ),
{
    let width: u32 = buffer_width(img);
    let height: u32 = buffer_height(img);
    let x1: i32 = clamp_to(t.x1, width);
    let y1: i32 = clamp_to(t.y1, height);
    let x2: i32 = clamp_to(t.x2, width);
    let y2: i32 = clamp_to(t.y2, height);
    proof {
        lemma_outline(img@, (x1 as int, y1 as int), (x2 as int, y2 as int), c@);
    }
    rect(img, x1, y1, x2, y2, c);
    if let Some(points) = points {
        draw_trail(img, points, c);
    }
}

/// A copy of the frame with the tracks drawn into it. Each track adds the centre
/// of its box to the trail of the id that it is shown under, and is drawn with
/// that trail in the color of that id.
pub fn draw_tracks(
    img: &Frame,
    tracks: &[Track],
    ids: &HashMap<i64, i64>,
    history: &mut History,
) -> (out: Frame)
    ensures
        trails(final(history)@) == extended(
            trails(old(history)@),
            tracks@,
            ids@,
            tracks@.len() as int,
        ),
        out@ == img@.tracks(tracks@, ids@, trails(final(history)@), tracks@.len() as int),
{
    let mut out: Frame = buffer_clone(img);
    let mut i: usize = 0;
    while i < tracks.len()
        invariant
            i <= tracks@.len(),
            trails(history@) == extended(trails(old(history)@), tracks@, ids@, i as int),
        decreases tracks@.len() - i,
    {
        let t: &Track = &tracks[i];
        let id: i64 = shown(t, ids);
        extend_trail(history, id, (middle(t.x1, t.x2), middle(t.y1, t.y2)));
        i = i + 1;
    }
    let ghost drawn = trails(history@);
    proof {
        lemma_tracks(img@, tracks@, ids@, drawn, tracks@.len() as int);
    }
    if buffer_width(img) > 0x7fff_ffff || buffer_height(img) > 0x7fff_ffff {
        return out;
    }
    let mut i: usize = 0;
    while i < tracks.len()
        invariant
            i <= tracks@.len(),
            drawn == trails(history@),
            img@.width <= i32::MAX,
            img@.height <= i32::MAX,
            out@ == img@.tracks(tracks@, ids@, drawn, i as int),
        decreases tracks@.len() - i,
    {
        let t: &Track = &tracks[i];
        let id: i64 = shown(t, ids);
        proof {
            lemma_tracks(img@, tracks@, ids@, drawn, i as int);
        }
        draw_track(&mut out, t, history.get(&id), color_from_id(id));
        i = i + 1;
    }
    out
}

/// A line begins at its first end and ends at its second.
pub proof fn law_line_joins_its_ends(p: (int, int), q: (int, int))
    ensures
        line_point(p, q, 0) == p,
        line_point(p, q, line_length(p, q)) == q,
{
    let n = line_length(p, q);
    lemma_steps(0, distance(p.0, q.0), n);
    lemma_steps(0, distance(p.1, q.1), n);
    lemma_steps(n, distance(p.0, q.0), n);
    lemma_steps(n, distance(p.1, q.1), n);
}

/// Every pixel of a line lies in the box that its ends span.
pub proof fn law_line_stays_between_its_ends(p: (int, int), q: (int, int), k: int)
    requires
        0 <= k <= line_length(p, q),
    ensures
        p.0 <= line_point(p, q, k).0 <= q.0 || q.0 <= line_point(p, q, k).0 <= p.0,
        p.1 <= line_point(p, q, k).1 <= q.1 || q.1 <= line_point(p, q, k).1 <= p.1,
{
    lemma_steps(k, distance(p.0, q.0), line_length(p, q));
    lemma_steps(k, distance(p.1, q.1), line_length(p, q));
}

/// A line has no gaps: the next pixel is a neighbour of the last, if only by a
/// corner, and never the same.
pub proof fn law_line_has_no_gaps(p: (int, int), q: (int, int), k: int)
    requires
        0 <= k < line_length(p, q),
    ensures
        distance(line_point(p, q, k).0, line_point(p, q, k + 1).0) <= 1,
        distance(line_point(p, q, k).1, line_point(p, q, k + 1).1) <= 1,
        line_point(p, q, k) != line_point(p, q, k + 1),
{
    let n = line_length(p, q);
    let dx = distance(p.0, q.0);
    let dy = distance(p.1, q.1);
    lemma_line_step(dx, dy, n, k);
    lemma_steps(k, dx, n);
    lemma_steps(k, dy, n);
    lemma_steps(k + 1, dx, n);
    lemma_steps(k + 1, dy, n);
}

/// Pixels of a canvas have bytes of their own.
pub(crate) proof fn lemma_pixels_apart(canvas: Canvas, p: (int, int), r: (int, int))
    requires
        canvas.wf(),
        canvas.covers(p),
        canvas.covers(r),
    ensures
        0 <= pixel_start(canvas.width, p.0, p.1),
        pixel_start(canvas.width, p.0, p.1) + 3 <= canvas.bytes.len(),
        p != r ==> {
            ||| pixel_start(canvas.width, p.0, p.1) + 3 <= pixel_start(canvas.width, r.0, r.1)
            ||| pixel_start(canvas.width, r.0, r.1) + 3 <= pixel_start(canvas.width, p.0, p.1)
        },
{
    let w = canvas.width;
    let h = canvas.height;
    assert(0 <= p.1 * w && p.1 * w + w <= w * h) by (nonlinear_arith)
        requires
            0 <= p.1 < h,
            0 <= w,
    ;
    assert(3 * w * h == 3 * (w * h)) by (nonlinear_arith);
    if p.1 < r.1 {
        assert(p.1 * w + w <= r.1 * w) by (nonlinear_arith)
            requires
                p.1 < r.1,
                0 <= w,
        ;
    } else if r.1 < p.1 {
        assert(r.1 * w + w <= p.1 * w) by (nonlinear_arith)
            requires
                r.1 < p.1,
                0 <= w,
        ;
    }
}

/// What coloring a pixel does to the color of any pixel.
pub(crate) proof fn lemma_put(canvas: Canvas, p: (int, int), color: Seq<u8>, r: (int, int))
    requires
        canvas.wf(),
        canvas.covers(r),
        color.len() == 3,
    ensures
        canvas.put(p, color).wf(),
        canvas.put(p, color).color_at(r) == if p == r {
            color
        } else {
            canvas.color_at(r)
        },
{
    lemma_pixels_apart(canvas, r, r);
    if canvas.covers(p) {
        lemma_pixels_apart(canvas, p, r);
    }
    assert(canvas.put(p, color).color_at(r) =~= if p == r {
        color
    } else {
        canvas.color_at(r)
    });
}

/// What a part of a line does to the color of any pixel.
pub(crate) proof fn lemma_line_part_colors(
    canvas: Canvas,
    p: (int, int),
    q: (int, int),
    color: Seq<u8>,
    n: int,
    r: (int, int),
)
    requires
        canvas.wf(),
        canvas.covers(r),
        color.len() == 3,
    ensures
        canvas.line_part(p, q, color, n).wf(),
        canvas.line_part(p, q, color, n).covers(r),
        canvas.line_part(p, q, color, n).color_at(r) == if exists|k: int|
            0 <= k < n && #[trigger] line_point(p, q, k) == r {
            color
        } else {
            canvas.color_at(r)
        },
    decreases n,
{
    if n > 0 {
        let before = canvas.line_part(p, q, color, n - 1);
        lemma_line_part_colors(canvas, p, q, color, n - 1, r);
        lemma_put(before, line_point(p, q, n - 1), color, r);
        if exists|k: int| 0 <= k < n - 1 && #[trigger] line_point(p, q, k) == r {
            let k = choose|k: int| 0 <= k < n - 1 && #[trigger] line_point(p, q, k) == r;
            assert(0 <= k < n && line_point(p, q, k) == r);
        }
    }
}

/// A line colors its own pixels, as far as they lie on the canvas, and no others.
pub proof fn law_line_colors_its_pixels(
    canvas: Canvas,
    p: (int, int),
    q: (int, int),
    color: Seq<u8>,
    r: (int, int),
)
    requires
        canvas.wf(),
        canvas.covers(r),
        color.len() == 3,
    ensures
        canvas.line(p, q, color).wf(),
        canvas.line(p, q, color).covers(r),
        canvas.line(p, q, color).color_at(r) == if on_line(p, q, r) {
            color
        } else {
            canvas.color_at(r)
        },
{
    let n = line_length(p, q);
    lemma_line_part_colors(canvas, p, q, color, n + 1, r);
    if on_line(p, q, r) {
        let k = choose|k: int| 0 <= k <= n && #[trigger] line_point(p, q, k) == r;
        assert(0 <= k < n + 1 && line_point(p, q, k) == r);
    }
}

/// The pixels of a line along a row.
pub(crate) proof fn lemma_along_row(p: (int, int), q: (int, int), r: (int, int))
    requires
        p.1 == q.1,
    ensures
        on_line(p, q, r) <==> r.1 == p.1 && (p.0 <= r.0 <= q.0 || q.0 <= r.0 <= p.0),
{
    let n = line_length(p, q);
    if on_line(p, q, r) {
        let k = choose|k: int| 0 <= k <= n && #[trigger] line_point(p, q, k) == r;
        lemma_steps(k, n, n);
        lemma_steps(k, 0, n);
    }
    if r.1 == p.1 && (p.0 <= r.0 <= q.0 || q.0 <= r.0 <= p.0) {
        let k = distance(p.0, r.0);
        lemma_steps(k, n, n);
        lemma_steps(k, 0, n);
        assert(line_point(p, q, k) == r);
    }
}

/// The pixels of a line along a column.
pub(crate) proof fn lemma_along_column(p: (int, int), q: (int, int), r: (int, int))
    requires
        p.0 == q.0,
    ensures
        on_line(p, q, r) <==> r.0 == p.0 && (p.1 <= r.1 <= q.1 || q.1 <= r.1 <= p.1),
{
    let n = line_length(p, q);
    if on_line(p, q, r) {
        let k = choose|k: int| 0 <= k <= n && #[trigger] line_point(p, q, k) == r;
        lemma_steps(k, n, n);
        lemma_steps(k, 0, n);
    }
    if r.0 == p.0 && (p.1 <= r.1 <= q.1 || q.1 <= r.1 <= p.1) {
        let k = distance(p.1, r.1);
        lemma_steps(k, n, n);
        lemma_steps(k, 0, n);
        assert(line_point(p, q, k) == r);
    }
}

/// Whether a pixel is on the border of the box between two corners.
pub open spec fn on_border(p: (int, int), q: (int, int), r: (int, int)) -> bool {
    &&& p.0 <= r.0 <= q.0
    &&& p.1 <= r.1 <= q.1
    &&& r.0 == p.0 || r.0 == q.0 || r.1 == p.1 || r.1 == q.1
}

proof fn lemma_sides(canvas: Canvas, p: (int, int), q: (int, int), d: int, color: Seq<u8>, r: (int, int))
    requires
        canvas.wf(),
        canvas.covers(r),
        color.len() == 3,
        p.0 + d <= q.0 - d,
        p.1 + d <= q.1 - d,
    ensures
        canvas.sides(p, q, d, color).wf(),
        canvas.sides(p, q, d, color).covers(r),
        canvas.sides(p, q, d, color).color_at(r) == if on_border(
            (p.0 + d, p.1 + d),
            (q.0 - d, q.1 - d),
            r,
        ) {
            color
        } else {
            canvas.color_at(r)
        },
{
    let a = (p.0 + d, p.1 + d);
    let b = (q.0 - d, p.1 + d);
    let c = (q.0 - d, q.1 - d);
    let e = (p.0 + d, q.1 - d);
    let top = canvas.line(a, b, color);
    let right = top.line(b, c, color);
    let bottom = right.line(c, e, color);
    law_line_colors_its_pixels(canvas, a, b, color, r);
    law_line_colors_its_pixels(top, b, c, color, r);
    law_line_colors_its_pixels(right, c, e, color, r);
    law_line_colors_its_pixels(bottom, e, a, color, r);
    lemma_along_row(a, b, r);
    lemma_along_column(b, c, r);
    lemma_along_row(c, e, r);
    lemma_along_column(e, a, r);
}

/// The outline of a box that is at least two pixels wide and high has its border,
/// the pixels just outside of it and those just inside, and no others.
pub proof fn law_outline_is_three_pixels_wide(
    canvas: Canvas,
    p: (int, int),
    q: (int, int),
    color: Seq<u8>,
    r: (int, int),
)
    requires
        canvas.wf(),
        canvas.covers(r),
        color.len() == 3,
        p.0 + 2 <= q.0,
        p.1 + 2 <= q.1,
    ensures
        canvas.outline(p, q, color).color_at(r) == if {
            &&& p.0 - 1 <= r.0 <= q.0 + 1
            &&& p.1 - 1 <= r.1 <= q.1 + 1
            &&& !(p.0 + 1 < r.0 < q.0 - 1 && p.1 + 1 < r.1 < q.1 - 1)
        } {
            color
        } else {
            canvas.color_at(r)
        },
{
    let outer = canvas.sides(p, q, -1, color);
    let border = outer.sides(p, q, 0, color);
    lemma_sides(canvas, p, q, -1, color, r);
    lemma_sides(outer, p, q, 0, color, r);
    lemma_sides(border, p, q, 1, color, r);
}

/// Drawing tracks keeps the size of the frame.
pub proof fn law_drawing_keeps_size(
    canvas: Canvas,
    tracks: Seq<Track>,
    ids: Map<i64, i64>,
    trails: Map<i64, Seq<(i32, i32)>>,
)
    ensures
        canvas.tracks(tracks, ids, trails, tracks.len() as int).width == canvas.width,
        canvas.tracks(tracks, ids, trails, tracks.len() as int).height == canvas.height,
{
    lemma_tracks(canvas, tracks, ids, trails, tracks.len() as int);
}

/// No trail grows beyond the points that are kept.
pub proof fn law_trails_stay_short(
    trails: Map<i64, Seq<(i32, i32)>>,
    tracks: Seq<Track>,
    ids: Map<i64, i64>,
    n: int,
)
    requires
        forall|id: i64| #[trigger]
            trails.contains_key(id) ==> trails[id].len() <= TRAIL_LEN,
        n <= tracks.len(),
    ensures
        forall|id: i64| #[trigger]
            extended(trails, tracks, ids, n).contains_key(id) ==> extended(trails, tracks, ids, n)[id].len()
                <= TRAIL_LEN,
    decreases n,
{
    if n > 0 {
        law_trails_stay_short(trails, tracks, ids, n - 1);
        let before = extended(trails, tracks, ids, n - 1);
        let after = extended(trails, tracks, ids, n);
        assert forall|id: i64| #[trigger] after.contains_key(id) implies after[id].len()
            <= TRAIL_LEN by {
            if id != shown_id(tracks[n - 1], ids) {
                assert(before.contains_key(id));
            }
        }
    }
}

/// The trail of every track that is drawn ends at the centre of the last track
/// with the same shown id.
pub proof fn law_trail_ends_at_track(
    trails: Map<i64, Seq<(i32, i32)>>,
    tracks: Seq<Track>,
    ids: Map<i64, i64>,
    i: int,
    n: int,
)
    requires
        0 <= i < n <= tracks.len(),
        forall|j: int|
            i < j < n ==> shown_id(#[trigger] tracks[j], ids) != shown_id(tracks[i], ids),
    ensures
        extended(trails, tracks, ids, n).contains_key(shown_id(tracks[i], ids)),
        extended(trails, tracks, ids, n)[shown_id(tracks[i], ids)].last() == centre(tracks[i]),
    decreases n,
{
    if i < n - 1 {
        law_trail_ends_at_track(trails, tracks, ids, i, n - 1);
    }
}

} // verus!
