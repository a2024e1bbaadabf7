use vstd::prelude::*;
use vstd::arithmetic::div_mod::{
    lemma_fundamental_div_mod, lemma_fundamental_div_mod_converse, lemma_mod_bound,
};

verus! {

/// Width of the framebuffer in pixels.
pub const WIDTH: u32 = 360;

/// Height of the framebuffer in pixels.
pub const HEIGHT: u32 = 240;

/// Offset from `a` to `b` on a ring of circumference `size`: the plain
/// difference, folded once by `size` when it is longer than half the ring.
pub open spec fn ring_offset(a: int, b: int, size: int) -> int {
    let d: int = b - a;
    if 2 * d > size {
        d - size
    } else if 2 * d < -size {
        d + size
    } else {
        d
    }
}

/// `v` saturated into the range of `i32`.
pub open spec fn saturate_i32(v: int) -> int {
    if v < i32::MIN {
        i32::MIN as int
    } else if v > i32::MAX {
        i32::MAX as int
    } else {
        v
    }
}

/// Offset from `a` to `b` on the 360-pixel ring that lines are drawn on,
/// saturated into `i32`.
pub open spec fn wrapped_offset(a: int, b: int) -> int {
    saturate_i32(ring_offset(a, b, WIDTH as int))
}

/// Integer form of the ring offset between two pixel coordinates.
fn ring_offset_i32(a: i32, b: i32) -> (r: i32)
    ensures
        r == wrapped_offset(a as int, b as int),
{
    let d: i64 = b as i64 - a as i64;
    let w: i64 = if d > 180 {
        d - 360
    } else if d < -180 {
        d + 360
    } else {
        d
    };
    if w < i32::MIN as i64 {
        i32::MIN
    } else if w > i32::MAX as i64 {
        i32::MAX
    } else {
        w as i32
    }
}


/// Minor-axis steps taken after `k` major-axis steps on a line that spans
/// `major` by `minor` pixels: the exact `k * minor / major`, rounded to the
/// nearest integer with halves rounded up.
pub open spec fn minor_steps(major: int, minor: int, k: int) -> int {
    if major == 0 {
        0
    } else {
        (2 * minor * k + major) / (2 * major)
    }
}

/// Decision variable of the rasteriser after `k` major steps, measured along
/// the major axis.
pub open spec fn step_error(major: int, minor: int, k: int) -> int {
    major + major * minor_steps(major, minor, k) - minor - minor * k
}

/// How the rounded minor coordinate and the decision variable move when the
/// line advances one pixel along its major axis.
pub proof fn lemma_minor_step(major: int, minor: int, k: int)
    requires
        0 <= minor <= major,
        0 <= k < major,
    ensures
        2 * step_error(major, minor, k) > -minor,
        2 * step_error(major, minor, k) <= 3 * major,
        2 * step_error(major, minor, k) <= major ==> minor_steps(major, minor, k + 1)
            == minor_steps(major, minor, k) + 1,
        2 * step_error(major, minor, k) > major ==> minor_steps(major, minor, k + 1)
            == minor_steps(major, minor, k),
        step_error(major, minor, k + 1) == step_error(major, minor, k) - minor + (
        minor_steps(major, minor, k + 1) - minor_steps(major, minor, k)) * major,
{
    let d: int = 2 * major;
    let n: int = 2 * minor * k + major;
    let j: int = n / d;
    let r: int = n % d;
    lemma_fundamental_div_mod(n, d);
    lemma_mod_bound(n, d);
    assert(minor_steps(major, minor, k) == j);
    assert(d * j == 2 * (major * j)) by (nonlinear_arith)
        requires
            d == 2 * major,
    ;
    assert(2 * minor * k == 2 * (minor * k)) by (nonlinear_arith);
    assert(2 * minor * (k + 1) == 2 * (minor * k) + 2 * minor) by (nonlinear_arith);
    assert(minor * (k + 1) == minor * k + minor) by (nonlinear_arith);
    let n2: int = 2 * minor * (k + 1) + major;
    assert(n2 == n + 2 * minor);
    if r + 2 * minor >= d {
        assert((j + 1) * d == d * j + d) by (nonlinear_arith);
        lemma_fundamental_div_mod_converse(n2, d, j + 1, r + 2 * minor - d);
        assert(minor_steps(major, minor, k + 1) == j + 1);
        assert(major * (j + 1) == major * j + major) by (nonlinear_arith);
        assert((j + 1 - j) * major == major) by (nonlinear_arith);
    } else {
        assert(j * d == d * j) by (nonlinear_arith);
        lemma_fundamental_div_mod_converse(n2, d, j, r + 2 * minor);
        assert(minor_steps(major, minor, k + 1) == j);
        assert((j - j) * major == 0) by (nonlinear_arith);
    }
}

/// The rounded minor coordinate starts at 0, ends at `minor` and never
/// leaves that range.
pub proof fn lemma_minor_range(major: int, minor: int, k: int)
    requires
        0 <= minor <= major,
        0 <= k <= major,
    ensures
        0 <= minor_steps(major, minor, k) <= minor,
        k == 0 ==> minor_steps(major, minor, k) == 0,
        k == major ==> minor_steps(major, minor, k) == minor,
{
    if major > 0 {
        let d: int = 2 * major;
        let n: int = 2 * minor * k + major;
        let j: int = n / d;
        lemma_fundamental_div_mod(n, d);
        lemma_mod_bound(n, d);
        assert(0 <= minor * k <= minor * major) by (nonlinear_arith)
            requires
                0 <= minor,
                0 <= k <= major,
        ;
        assert(d * j == 2 * (major * j)) by (nonlinear_arith)
            requires
                d == 2 * major,
        ;
        assert(2 * minor * k == 2 * (minor * k)) by (nonlinear_arith);
        assert(0 <= j <= minor) by (nonlinear_arith)
            requires
                major > 0,
                0 <= n - d * j < d,
                d == 2 * major,
                n == 2 * (minor * k) + major,
                0 <= minor * k <= minor * major,
        ;
        if k == 0 {
            lemma_fundamental_div_mod_converse(n, d, 0, major);
        }
        if k == major {
            assert(2 * minor * k == minor * d) by (nonlinear_arith)
                requires
                    k == major,
                    d == 2 * major,
            ;
            lemma_fundamental_div_mod_converse(n, d, minor, major);
        }
    }
}


/// `from` moved `n` units toward `to`.
pub open spec fn toward(from: int, to: int, n: int) -> int {
    if from < to {
        from + n
    } else {
        from - n
    }
}

/// Distance between two coordinates on one axis.
pub open spec fn span(a: int, b: int) -> int {
    if a <= b {
        b - a
    } else {
        a - b
    }
}

/// Number of steps along the longer axis of the line from (x0, y0) to (x1, y1).
pub open spec fn line_steps(x0: int, y0: int, x1: int, y1: int) -> int {
    if span(x0, x1) >= span(y0, y1) {
        span(x0, x1)
    } else {
        span(y0, y1)
    }
}

/// The `k`-th point of the line from (x0, y0) to (x1, y1): `k` steps along the
/// longer axis, and along the shorter axis the exact coordinate rounded to the
/// nearest pixel (halves rounded away from the start).
pub open spec fn line_point(x0: int, y0: int, x1: int, y1: int, k: int) -> (int, int) {
    let w: int = span(x0, x1);
    let h: int = span(y0, y1);
    if w >= h {
        (toward(x0, x1, k), toward(y0, y1, minor_steps(w, h, k)))
    } else {
        (toward(x0, x1, minor_steps(h, w, k)), toward(y0, y1, k))
    }
}

/// Byte offset in the RGBA frame of the pixel that shows point `p`; both
/// coordinates are wrapped modulo the frame width.
pub open spec fn screen_offset(p: (int, int)) -> int {
    ((p.1 % (WIDTH as int)) * (WIDTH as int) + p.0 % (WIDTH as int)) * 4
}

/// Whether drawing point `p` writes byte `i` of a frame of `len` bytes: the
/// wrapped row must fall inside the frame height and the whole pixel inside
/// the buffer.
pub open spec fn point_covers(p: (int, int), len: int, i: int) -> bool {
    &&& p.1 % (WIDTH as int) < HEIGHT as int
    &&& screen_offset(p) + 3 < len
    &&& screen_offset(p) <= i < screen_offset(p) + 4
}

/// Offset of byte `o` (0 = red, 1 = green, 2 = blue, 3 = alpha) of the pixel
/// that shows point `p`, both coordinates wrapped by the frame width.
pub open spec fn pixel_byte(p: (int, int), o: int) -> int {
    ((p.1 % (WIDTH as int)) * (WIDTH as int) + p.0 % (WIDTH as int)) * 4 + o
}

/// The byte that line drawing writes at offset `i` of the frame: translucent
/// grey `(128, 128, 128, 100)` in RGBA order.
pub open spec fn line_byte(i: int) -> u8 {
    if i % 4 == 3 {
        100
    } else {
        128
    }
}

/// Whether one of the first `n` points of the line writes byte `i`.
pub open spec fn line_covers(x0: int, y0: int, x1: int, y1: int, len: int, n: int, i: int) -> bool {
    exists|k: int| 0 <= k < n && #[trigger] point_covers(line_point(x0, y0, x1, y1, k), len, i)
}

/// The endpoints that `drawline` joins, once the target is brought within half
/// a ring of the start, fit in `i32` and have offsets whose magnitude fits too.
pub open spec fn line_drawable(x0: int, x1: int, y0: int, y1: int) -> bool {
    let ox: int = wrapped_offset(x0, x1);
    let oy: int = wrapped_offset(y0, y1);
    &&& i32::MIN < ox
    &&& i32::MIN < oy
    &&& i32::MIN <= x0 + ox <= i32::MAX
    &&& i32::MIN <= y0 + oy <= i32::MAX
}

/// Writes the grey pixel for point (x, y), if it is on screen and inside the frame.
fn paint_point(frame: &mut [u8], x: i32, y: i32)
    ensures
        final(frame)@.len() == old(frame)@.len(),
        forall|i: int|
            0 <= i < old(frame)@.len() ==> final(frame)@[i] == (if point_covers(
                (x as int, y as int),
                old(frame)@.len() as int,
                i,
            ) {
                line_byte(i)
            } else {
                old(frame)@[i]
            }),
{
    let screen_x: i32 = match x.checked_rem_euclid(WIDTH as i32) {
        Some(r) => r,
        None => 0,
    };
    let screen_y: i32 = match y.checked_rem_euclid(WIDTH as i32) {
        Some(r) => r,
        None => 0,
    };
    let ghost p = (x as int, y as int);
    let ghost len: int = frame@.len() as int;
    assert(screen_x == p.0 % 360 && screen_y == p.1 % 360);
    if screen_x >= 0 && screen_x < WIDTH as i32 && screen_y >= 0 && screen_y < HEIGHT as i32 {
        let idx: usize = ((screen_y * WIDTH as i32) + screen_x) as usize * 4;
        assert(idx == screen_offset(p));
        if idx + 3 < frame.len() {
            frame[idx] = 128;
            frame[idx + 1] = 128;
            frame[idx + 2] = 128;
            frame[idx + 3] = 100;
            assert forall|i: int| 0 <= i < len implies frame@[i] == (if point_covers(p, len, i) {
                line_byte(i)
            } else {
                old(frame)@[i]
            }) by {
                if idx <= i < idx + 4 {
                    let q: int = (screen_y * 360 + screen_x) as int;
                    lemma_fundamental_div_mod_converse(i, 4, q, i - idx);
                }
            }
        }
    }
}

/// A line covers byte `i` with its first `n + 1` points exactly when its first
/// `n` do or its `n`-th point does.
proof fn lemma_covers_step(x0: int, y0: int, x1: int, y1: int, len: int, n: int, i: int)
    requires
        0 <= n,
    ensures
        line_covers(x0, y0, x1, y1, len, n + 1, i) == (line_covers(x0, y0, x1, y1, len, n, i)
            || point_covers(line_point(x0, y0, x1, y1, n), len, i)),
{
    if line_covers(x0, y0, x1, y1, len, n + 1, i) {
        let k: int = choose|k: int|
            0 <= k < n + 1 && #[trigger] point_covers(line_point(x0, y0, x1, y1, k), len, i);
        if k < n {
            assert(line_covers(x0, y0, x1, y1, len, n, i));
        }
    }
    if point_covers(line_point(x0, y0, x1, y1, n), len, i) {
        assert(0 <= n < n + 1);
    }
}

/// Whether `drawline` accepts these endpoints.
pub fn line_in_range(x0: i32, x1: i32, y0: i32, y1: i32) -> (r: bool)
    ensures
        r == line_drawable(x0 as int, x1 as int, y0 as int, y1 as int),
{
    let ox: i32 = ring_offset_i32(x0, x1);
    let oy: i32 = ring_offset_i32(y0, y1);
    let ex: i64 = x0 as i64 + ox as i64;
    let ey: i64 = y0 as i64 + oy as i64;
    ox > i32::MIN && oy > i32::MIN && i32::MIN as i64 <= ex && ex <= i32::MAX as i64 && i32::MIN
        as i64 <= ey && ey <= i32::MAX as i64
}

/// Draws a grey line on the `WIDTH`-wide RGBA frame from (x0, y0) toward
/// (x1, y1), taking the short way round the 360-pixel ring on each axis, and
/// wrapping every point back onto the screen.
pub fn drawline(frame: &mut [u8], x0: i32, x1: i32, y0: i32, y1: i32)
    requires
        line_drawable(x0 as int, x1 as int, y0 as int, y1 as int),
    ensures
        final(frame)@.len() == old(frame)@.len(),
        ({
            let ex: int = x0 + wrapped_offset(x0 as int, x1 as int);
            let ey: int = y0 + wrapped_offset(y0 as int, y1 as int);
            let n: int = line_steps(x0 as int, y0 as int, ex, ey) + 1;
            forall|i: int|
                0 <= i < old(frame)@.len() ==> final(frame)@[i] == (if line_covers(
                    x0 as int,
                    y0 as int,
                    ex,
                    ey,
                    old(frame)@.len() as int,
                    n,
                    i,
                ) {
                    line_byte(i)
                } else {
                    old(frame)@[i]
                })
        }),
        ({
            let ex: int = x0 + wrapped_offset(x0 as int, x1 as int);
            let ey: int = y0 + wrapped_offset(y0 as int, y1 as int);
            forall|k: int, o: int|
                #![trigger line_point(x0 as int, y0 as int, ex, ey, k), final(frame)@[pixel_byte(line_point(x0 as int, y0 as int, ex, ey, k), o)]]
                0 <= k <= line_steps(x0 as int, y0 as int, ex, ey) && 0 <= o < 4 && line_point(
                    x0 as int,
                    y0 as int,
                    ex,
                    ey,
                    k,
                ).1 % (WIDTH as int) < HEIGHT as int && pixel_byte(
                    line_point(x0 as int, y0 as int, ex, ey, k),
                    3,
                ) < old(frame)@.len() ==> final(frame)@[pixel_byte(
                    line_point(x0 as int, y0 as int, ex, ey, k),
                    o,
                )] == (if o == 3 {
                    100u8
                } else {
                    128u8
                })
        }),
        ({
            let ex: int = x0 + wrapped_offset(x0 as int, x1 as int);
            let ey: int = y0 + wrapped_offset(y0 as int, y1 as int);
            forall|i: int|
                0 <= i < old(frame)@.len() && #[trigger] final(frame)@[i] != old(frame)@[i] ==> exists|
                    k: int,
                |
                    #![trigger line_point(x0 as int, y0 as int, ex, ey, k)]
                    0 <= k <= line_steps(x0 as int, y0 as int, ex, ey) && line_point(
                        x0 as int,
                        y0 as int,
                        ex,
                        ey,
                        k,
                    ).1 % (WIDTH as int) < HEIGHT as int && pixel_byte(
                        line_point(x0 as int, y0 as int, ex, ey, k),
                        3,
                    ) < old(frame)@.len() && pixel_byte(line_point(x0 as int, y0 as int, ex, ey, k), 0)
                        <= i <= pixel_byte(line_point(x0 as int, y0 as int, ex, ey, k), 3)
        }),
{
    let ox: i32 = ring_offset_i32(x0, x1);
    let oy: i32 = ring_offset_i32(y0, y1);
    let ex: i32 = x0 + ox;
    let ey: i32 = y0 + oy;
    let dx: i64 = if ox < 0 { -(ox as i64) } else { ox as i64 };
    let sx: i32 = if x0 < ex { 1 } else { -1 };
    let dy: i64 = if oy < 0 { oy as i64 } else { -(oy as i64) };
    let sy: i32 = if y0 < ey { 1 } else { -1 };
    let mut error: i64 = dx + dy;
    let mut x: i32 = x0;
    let mut y: i32 = y0;

    let ghost len: int = frame@.len() as int;
    let ghost w: int = dx as int;
    let ghost h: int = -dy as int;
    let ghost xmajor = w >= h;
    let ghost major: int = if xmajor { w } else { h };
    let ghost minor: int = if xmajor { h } else { w };
    let ghost mut k: int = 0;
    assert(w == span(x0 as int, ex as int) && h == span(y0 as int, ey as int));
    proof {
        lemma_minor_range(major, minor, 0);
    }
    loop
        invariant_except_break
            0 <= k <= major,
            (x as int, y as int) == line_point(x0 as int, y0 as int, ex as int, ey as int, k),
            error == (if xmajor {
                step_error(major, minor, k)
            } else {
                -step_error(major, minor, k)
            }),
            frame@.len() == len,
            forall|i: int|
                0 <= i < len ==> frame@[i] == (if line_covers(
                    x0 as int,
                    y0 as int,
                    ex as int,
                    ey as int,
                    len,
                    k,
                    i,
                ) {
                    line_byte(i)
                } else {
                    old(frame)@[i]
                }),
        invariant
            len == old(frame)@.len(),
            ex == x0 + wrapped_offset(x0 as int, x1 as int),
            ey == y0 + wrapped_offset(y0 as int, y1 as int),
            w == span(x0 as int, ex as int),
            h == span(y0 as int, ey as int),
            dx == w,
            dy == -h,
            sx == (if x0 < ex { 1int } else { -1int }),
            sy == (if y0 < ey { 1int } else { -1int }),
            xmajor == (w >= h),
            major == (if xmajor { w } else { h }),
            minor == (if xmajor { h } else { w }),
            0 <= w <= 0x1_0000_0000,
            0 <= h <= 0x1_0000_0000,
        ensures
            frame@.len() == len,
            forall|i: int|
                0 <= i < len ==> frame@[i] == (if line_covers(
                    x0 as int,
                    y0 as int,
                    ex as int,
                    ey as int,
                    len,
                    major + 1,
                    i,
                ) {
                    line_byte(i)
                } else {
                    old(frame)@[i]
                }),
        decreases major - k,
    {
        paint_point(frame, x, y);
        assert forall|i: int| 0 <= i < len implies frame@[i] == (if line_covers(
            x0 as int,
            y0 as int,
            ex as int,
            ey as int,
            len,
            k + 1,
            i,
        ) {
            line_byte(i)
        } else {
            old(frame)@[i]
        }) by {
            lemma_covers_step(x0 as int, y0 as int, ex as int, ey as int, len, k, i);
        }
        proof {
            lemma_minor_range(major, minor, k);
            lemma_minor_range(major, minor, major);
        }
        if x == ex && y == ey {
            assert(k == major);
            break;
        }
        proof {
            lemma_minor_step(major, minor, k);
            lemma_minor_range(major, minor, k + 1);
        }
        let ghost f: int = step_error(major, minor, k);
        let ghost adv: int = minor_steps(major, minor, k + 1) - minor_steps(major, minor, k);
        assert(adv == 0 || adv == 1);
        let e2: i64 = 2 * error;
        assert(xmajor ==> (e2 >= dy && (e2 <= dx) == (adv == 1)));
        assert(!xmajor ==> (e2 <= dx && (e2 >= dy) == (adv == 1)));
        if e2 >= dy {
            error = error + dy;
            x = x + sx;
        }
        if e2 <= dx {
            error = error + dx;
            y = y + sy;
        }
        assert(adv * major == (if adv == 1 { major } else { 0 })) by (nonlinear_arith)
            requires
                adv == 0 || adv == 1,
        ;
        assert(error == (if xmajor { f - minor + adv * major } else { -(f - minor + adv * major) }));
        proof {
            k = k + 1;
        }
    }
    proof {
        let n: int = major + 1;
        assert forall|kk: int, o: int|
            #![trigger line_point(x0 as int, y0 as int, ex as int, ey as int, kk), frame@[pixel_byte(line_point(x0 as int, y0 as int, ex as int, ey as int, kk), o)]]
            0 <= kk <= line_steps(x0 as int, y0 as int, ex as int, ey as int) && 0 <= o < 4
                && line_point(x0 as int, y0 as int, ex as int, ey as int, kk).1 % (WIDTH as int)
                < HEIGHT as int && pixel_byte(
                line_point(x0 as int, y0 as int, ex as int, ey as int, kk),
                3,
            ) < len implies frame@[pixel_byte(
            line_point(x0 as int, y0 as int, ex as int, ey as int, kk),
            o,
        )] == (if o == 3 {
            100u8
        } else {
            128u8
        }) by {
            let p = line_point(x0 as int, y0 as int, ex as int, ey as int, kk);
            let i: int = pixel_byte(p, o);
            lemma_point_covers_pixel(p, len, o);
            assert(0 <= kk < n && point_covers(p, len, i));
            assert(line_covers(x0 as int, y0 as int, ex as int, ey as int, len, n, i));
        }
        assert forall|i: int| 0 <= i < len && #[trigger] frame@[i] != old(frame)@[i] implies exists|
            k: int,
        |
            #![trigger line_point(x0 as int, y0 as int, ex as int, ey as int, k)]
            0 <= k <= line_steps(x0 as int, y0 as int, ex as int, ey as int) && line_point(
                x0 as int,
                y0 as int,
                ex as int,
                ey as int,
                k,
            ).1 % (WIDTH as int) < HEIGHT as int && pixel_byte(
                line_point(x0 as int, y0 as int, ex as int, ey as int, k),
                3,
            ) < len && pixel_byte(line_point(x0 as int, y0 as int, ex as int, ey as int, k), 0) <= i
                <= pixel_byte(line_point(x0 as int, y0 as int, ex as int, ey as int, k), 3) by {
            assert(line_covers(x0 as int, y0 as int, ex as int, ey as int, len, n, i));
            let kk = choose|kk: int|
                0 <= kk < n && #[trigger] point_covers(
                    line_point(x0 as int, y0 as int, ex as int, ey as int, kk),
                    len,
                    i,
                );
            lemma_point_covers_only_pixel(
                line_point(x0 as int, y0 as int, ex as int, ey as int, kk),
                len,
                i,
            );
        }
    }
}

/// A line starts at its first endpoint and reaches its second after
/// `line_steps` steps.
pub proof fn lemma_line_endpoints(x0: int, y0: int, x1: int, y1: int)
    ensures
        line_point(x0, y0, x1, y1, 0) == (x0, y0),
        line_point(x0, y0, x1, y1, line_steps(x0, y0, x1, y1)) == (x1, y1),
{
    let w: int = span(x0, x1);
    let h: int = span(y0, y1);
    if w >= h {
        lemma_minor_range(w, h, 0);
        lemma_minor_range(w, h, w);
    } else {
        lemma_minor_range(h, w, 0);
        lemma_minor_range(h, w, h);
    }
}

/// Consecutive points of a line are neighbours: each step moves exactly one
/// pixel toward the target along the longer axis and at most one pixel toward
/// it along the shorter axis, so every point stays inside the bounding box.
pub proof fn lemma_line_step(x0: int, y0: int, x1: int, y1: int, k: int)
    requires
        0 <= k < line_steps(x0, y0, x1, y1),
    ensures
        ({
            let p = line_point(x0, y0, x1, y1, k);
            let q = line_point(x0, y0, x1, y1, k + 1);
            let w: int = span(x0, x1);
            let h: int = span(y0, y1);
            &&& w >= h ==> q.0 == toward(p.0, x1, 1)
            &&& w >= h ==> (q.1 == p.1 || q.1 == toward(p.1, y1, 1))
            &&& w < h ==> q.1 == toward(p.1, y1, 1)
            &&& w < h ==> (q.0 == p.0 || q.0 == toward(p.0, x1, 1))
            &&& span(p.0, x1) + span(x0, p.0) == w
            &&& span(p.1, y1) + span(y0, p.1) == h
        }),
{
    let w: int = span(x0, x1);
    let h: int = span(y0, y1);
    if w >= h {
        lemma_minor_step(w, h, k);
        lemma_minor_range(w, h, k);
        lemma_minor_range(w, h, k + 1);
    } else {
        lemma_minor_step(h, w, k);
        lemma_minor_range(h, w, k);
        lemma_minor_range(h, w, k + 1);
    }
}

/// Every point of a line lies within half a pixel of the exact line along the
/// shorter axis: `minor_steps` is `k * minor / major` rounded to nearest.
pub proof fn lemma_line_nearest(major: int, minor: int, k: int)
    requires
        0 <= minor <= major,
        0 < major,
    ensures
        -major < 2 * major * minor_steps(major, minor, k) - 2 * minor * k <= major,
{
    let d: int = 2 * major;
    let n: int = 2 * minor * k + major;
    let j: int = n / d;
    lemma_fundamental_div_mod(n, d);
    lemma_mod_bound(n, d);
    assert(d * j == 2 * major * j) by (nonlinear_arith)
        requires
            d == 2 * major,
    ;
}

/// Within one and a half turns of the ring, the folded offset is congruent to
/// the plain difference and lies within half a ring of zero.
pub proof fn lemma_ring_offset_folds(a: int, b: int, size: int)
    requires
        size > 0,
        -3 * size <= 2 * (b - a) <= 3 * size,
    ensures
        -size <= 2 * ring_offset(a, b, size) <= size,
        (ring_offset(a, b, size) - (b - a)) % size == 0,
{
    let d: int = b - a;
    if 2 * d > size {
        lemma_fundamental_div_mod_converse(-size, size, -1, 0);
    } else if 2 * d < -size {
        lemma_fundamental_div_mod_converse(size, size, 1, 0);
    } else {
        lemma_fundamental_div_mod_converse(0, size, 0, 0);
    }
}

/// Whether the pixel (sx, sy) lies on the screen.
pub open spec fn on_screen(sx: int, sy: int) -> bool {
    0 <= sx < WIDTH as int && 0 <= sy < HEIGHT as int
}

/// Byte offset in the RGBA frame of the on-screen pixel (sx, sy).
pub open spec fn pixel_offset(sx: int, sy: int) -> int {
    (sy * (WIDTH as int) + sx) * 4
}

/// Whether `plot` can write pixel (sx, sy) into a frame of `frame_len` bytes:
/// an off-screen pixel always can, an on-screen one when it lies inside the frame.
pub fn pixel_fits(frame_len: usize, sx: i32, sy: i32) -> (r: bool)
    ensures
        r == (on_screen(sx as int, sy as int) ==> pixel_offset(sx as int, sy as int) + 4
            <= frame_len),
{
    if sx >= 0 && sx < WIDTH as i32 && sy >= 0 && sy < HEIGHT as i32 {
        let idx: usize = ((sy * WIDTH as i32) + sx) as usize * 4;
        idx + 4 <= frame_len
    } else {
        true
    }
}

/// Sets the on-screen pixel (sx, sy) to the opaque colour `rgb`; a pixel off
/// the screen leaves the frame unchanged.
pub fn plot(frame: &mut [u8], sx: i32, sy: i32, rgb: (u8, u8, u8))
    requires
        on_screen(sx as int, sy as int) ==> pixel_offset(sx as int, sy as int) + 4 <= old(
            frame,
        )@.len(),
    ensures
        final(frame)@ == (if on_screen(sx as int, sy as int) {
            let o: int = pixel_offset(sx as int, sy as int);
            old(frame)@.update(o, rgb.0).update(o + 1, rgb.1).update(o + 2, rgb.2).update(
                o + 3,
                255u8,
            )
        } else {
            old(frame)@
        }),
{
    if sx >= 0 && sx < WIDTH as i32 && sy >= 0 && sy < HEIGHT as i32 {
        let idx: usize = ((sy * WIDTH as i32) + sx) as usize * 4;
        frame[idx] = rgb.0;
        frame[idx + 1] = rgb.1;
        frame[idx + 2] = rgb.2;
        frame[idx + 3] = 255;
    }
}

/// Sign of a particle's electric charge, as the renderer distinguishes it.
#[derive(Clone, Copy, Debug, PartialEq, Eq, Structural)]
pub enum Polarity {
    Positive,
    Negative,
    /// Zero charge, no charge at all, or a charge that compares neither way.
    Neutral,
}

/// Colour of a particle: cyan for positive charge, red for negative, white
/// otherwise.
pub fn particle_color(polarity: Polarity) -> (rgb: (u8, u8, u8))
    ensures
        rgb == (match polarity {
            Polarity::Positive => (0u8, 200u8, 255u8),
            Polarity::Negative => (255u8, 50u8, 50u8),
            Polarity::Neutral => (255u8, 255u8, 255u8),
        }),
{
    match polarity {
        Polarity::Positive => (0, 200, 255),
        Polarity::Negative => (255, 50, 50),
        Polarity::Neutral => (255, 255, 255),
    }
}

/// Drawing a point writes the four bytes of its pixel, grey (128, 128, 128)
/// with alpha 100, exactly when its wrapped row is one of the `HEIGHT` visible
/// rows and the whole pixel lies inside the frame.
pub proof fn lemma_point_covers_pixel(p: (int, int), len: int, o: int)
    requires
        0 <= o < 4,
    ensures
        point_covers(p, len, pixel_byte(p, o)) <==> (p.1 % (WIDTH as int) < HEIGHT as int
            && pixel_byte(p, 3) < len),
        line_byte(pixel_byte(p, o)) == (if o == 3 {
            100u8
        } else {
            128u8
        }),
        pixel_byte(p, 0) >= 0,
{
    let q: int = (p.1 % 360) * 360 + p.0 % 360;
    lemma_fundamental_div_mod_converse(q * 4 + o, 4, q, o);
}

/// No point outside the `HEIGHT` visible rows, and no pixel reaching past the
/// end of the frame, is ever drawn.
pub proof fn lemma_point_covers_only_pixel(p: (int, int), len: int, i: int)
    ensures
        point_covers(p, len, i) ==> p.1 % (WIDTH as int) < HEIGHT as int && pixel_byte(p, 3) < len
            && pixel_byte(p, 0) <= i <= pixel_byte(p, 3),
{
}

/// Saturation keeps values that fit in `i32` and sends the others to the
/// nearer bound.
pub proof fn lemma_saturate_i32(v: int)
    ensures
        i32::MIN <= saturate_i32(v) <= i32::MAX,
        i32::MIN <= v <= i32::MAX ==> saturate_i32(v) == v,
        v < i32::MIN ==> saturate_i32(v) == i32::MIN,
        v > i32::MAX ==> saturate_i32(v) == i32::MAX,
{
}

/// An offset of at most half a ring is kept as it is.
pub proof fn lemma_ring_offset_short(a: int, b: int, size: int)
    requires
        size > 0,
        -size <= 2 * (b - a) <= size,
    ensures
        ring_offset(a, b, size) == b - a,
{
}

/// Exactly the `WIDTH` x `HEIGHT` pixels are on screen, laid out row by row,
/// four bytes each.
pub proof fn lemma_screen_layout(sx: int, sy: int)
    ensures
        on_screen(sx, sy) <==> (0 <= sx < WIDTH as int && 0 <= sy < HEIGHT as int),
        on_screen(sx, sy) ==> 0 <= pixel_offset(sx, sy) && pixel_offset(sx, sy) + 4 <= (WIDTH as int)
            * (HEIGHT as int) * 4,
        pixel_offset(sx, sy) == 4 * (sy * (WIDTH as int) + sx),
        pixel_offset(sx + 1, sy) == pixel_offset(sx, sy) + 4,
        pixel_offset(sx, sy + 1) == pixel_offset(sx, sy) + 4 * (WIDTH as int),
{
    if on_screen(sx, sy) {
        assert(sy * 360 + sx <= 239 * 360 + 359) by (nonlinear_arith)
            requires
                0 <= sx < 360,
                0 <= sy < 240,
        ;
    }
}

/// Any line between points that lie within 2^30 of the origin can be drawn.
pub proof fn lemma_line_drawable_near(x0: int, x1: int, y0: int, y1: int)
    requires
        -0x4000_0000 <= x0 <= 0x4000_0000,
        -0x4000_0000 <= x1 <= 0x4000_0000,
        -0x4000_0000 <= y0 <= 0x4000_0000,
        -0x4000_0000 <= y1 <= 0x4000_0000,
    ensures
        line_drawable(x0, x1, y0, y1),
{
}

} // verus!
