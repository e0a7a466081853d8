//! Turning a canvas into bytes, and replaying recorded strokes.
use crate::brush::{Brush, BrushView};
use crate::color::{encoded, linear_to_srgb, to_unit, unit};
use crate::dab_surface::{Canvas, DabSurface};
use crate::double::Double;
use crate::elementary::{Answers, Elementary, Narrow, Wide};
use crate::fix15::{fraction, to_f32};
use crate::means::{lemma_over_close, lemma_over_finite, size};
use crate::rand::SampleRng;
use crate::range::{lemma_known, lemma_no_units, lemma_of_finite, lemma_one, lemma_over_order};
use crate::single::{lemma_magnitude_zero, lemma_of_exact, Single, ONE};
use crate::state::{new_memory, BrushState};
use crate::stroke::{after_event, after_finish, Event, Outcome};
use crate::surface::{visible, TiledSurface};
use crate::tile::{pixel, TilePixels};
use crate::tile_mem::MemSurface;
use vstd::arithmetic::div_mod::*;
use vstd::arithmetic::power2::*;
use vstd::prelude::*;

verus! {

/// Why a brush or a script could not be rendered.
#[derive(Clone, Debug)]
pub struct RenderError(pub String);

impl RenderError {
    /// The message.
    pub fn message(&self) -> (r: &str)
        ensures
            r@ == self.0@,
    {
        self.0.as_str()
    }
}

/// What a canvas holds at a pixel, if there is a tile.
pub open spec fn shown_at(tiles: Map<(i32, i32), TilePixels>, x: int, y: int) -> Option<
    [u16; 4],
> {
    let k = ((x / 64) as i32, (y / 64) as i32);
    if tiles.contains_key(k) {
        Some(pixel(tiles[k], x % 64, y % 64))
    } else {
        None
    }
}

/// 255.
pub const BYTE: u32 = 0x437f_0000;

/// Linear light as an sRGB byte.
pub open spec fn byte_of(v: Single, m: Answers) -> u8 {
    unit(encoded(v, m)).times(Single { bits: BYTE }).round().to_u8()
}

pub fn to_byte<N: Fn(Narrow) -> Single, W: Fn(Wide) -> Double>(
    v: Single,
    math: &Elementary<N, W>,
) -> (r: u8)
    requires
        math.wf(),
    ensures
        r == byte_of(v, math.answers()),
{
    to_unit(linear_to_srgb(v, math)).times(Single { bits: BYTE }).round().to_u8()
}

/// A colour channel of a pixel over white.
pub open spec fn channel_over_white(p: [u16; 4], c: int, m: Answers) -> u8 {
    let a = fraction(p@[3]);
    if a.le(Single { bits: 0 }) {
        255
    } else {
        byte_of(
            fraction(p@[c]).over(a).times(a).plus((Single { bits: ONE }).minus(a)),
            m,
        )
    }
}

/// A byte of a pixel over white.
pub open spec fn byte_over_white(p: Option<[u16; 4]>, c: int, m: Answers) -> u8 {
    match p {
        Some(p) => if c < 3 {
            channel_over_white(p, c, m)
        } else {
            255
        },
        None => 255,
    }
}

/// The byte at place `k` of a canvas over white, `w` pixels wide, row by row
/// and four bytes to a pixel.
pub open spec fn image_byte(
    tiles: Map<(i32, i32), TilePixels>,
    w: int,
    k: int,
    m: Answers,
) -> u8 {
    let n = k / 4;
    byte_over_white(shown_at(tiles, n % w, n / w), k % 4, m)
}

/// A canvas over white in sRGB bytes.
pub open spec fn image(
    tiles: Map<(i32, i32), TilePixels>,
    w: int,
    h: int,
    m: Answers,
) -> Seq<u8> {
    Seq::new((4 * (w * h)) as nat, |k: int| image_byte(tiles, w, k, m))
}

pub proof fn lemma_pixel_number(w: int, x: int, y: int)
    requires
        0 <= x < w,
        0 <= y,
    ensures
        (y * w + x) / w == y,
        (y * w + x) % w == x,
        y * w + x >= 0,
{
    lemma_fundamental_div_mod_converse(y * w + x, w, y, x);
    assert(y * w >= 0) by (nonlinear_arith)
        requires
            y >= 0,
            w > 0,
    ;
}

/// Appends the bytes of a pixel over white.
fn push_pixel<N: Fn(Narrow) -> Single, W: Fn(Wide) -> Double>(
    out: &mut Vec<u8>,
    p: Option<[u16; 4]>,
    math: &Elementary<N, W>,
)
    requires
        math.wf(),
    ensures
        final(out)@ == old(out)@ + seq![
            byte_over_white(p, 0, math.answers()),
            byte_over_white(p, 1, math.answers()),
            byte_over_white(p, 2, math.answers()),
            255u8,
        ],
{
    let ghost before = out@;
    match p {
        Some(p) => {
            let a = to_f32(p[3]);
            if a.le(Single { bits: 0 }) {
                out.push(255);
                out.push(255);
                out.push(255);
            } else {
                let white = (Single { bits: ONE }).minus(a);
                out.push(to_byte(to_f32(p[0]).over(a).times(a).plus(white), math));
                out.push(to_byte(to_f32(p[1]).over(a).times(a).plus(white), math));
                out.push(to_byte(to_f32(p[2]).over(a).times(a).plus(white), math));
            }
        },
        None => {
            out.push(255);
            out.push(255);
            out.push(255);
        },
    }
    out.push(255);
    assert(out@ =~= before + seq![
        byte_over_white(p, 0, math.answers()),
        byte_over_white(p, 1, math.answers()),
        byte_over_white(p, 2, math.answers()),
        255u8,
    ]);
}

/// A surface over white in sRGB bytes, row by row.
pub fn flatten<S: TiledSurface, N: Fn(Narrow) -> Single, W: Fn(Wide) -> Double>(
    surface: &S,
    w: u32,
    h: u32,
    math: &Elementary<N, W>,
) -> (out: Vec<u8>)
    requires
        surface.wf(),
        math.wf(),
        4 * (w * h) <= u32::MAX,
    ensures
        out@ == image(visible::<S>(surface.tiles()), w as int, h as int, math.answers()),
{
    let mut out: Vec<u8> = Vec::new();
    let mut y: u32 = 0;
    let ghost tiles = visible::<S>(surface.tiles());
    let ghost m = math.answers();
    assert(0 * w == 0);
    while y < h
        invariant
            y <= h,
            surface.wf(),
            math.wf(),
            tiles == visible::<S>(surface.tiles()),
            m == math.answers(),
            4 * (w * h) <= u32::MAX,
            out@.len() == 4 * (y * w),
            forall|k: int| 0 <= k < out@.len() ==> #[trigger] out@[k] == image_byte(
                tiles,
                w as int,
                k,
                m,
            ),
        decreases h - y,
    {
        let mut x: u32 = 0;
        while x < w
            invariant
                x <= w,
                y < h,
                surface.wf(),
                math.wf(),
                tiles == visible::<S>(surface.tiles()),
                m == math.answers(),
                out@.len() == 4 * (y * w + x),
                forall|k: int| 0 <= k < out@.len() ==> #[trigger] out@[k] == image_byte(
                    tiles,
                    w as int,
                    k,
                    m,
                ),
            decreases w - x,
        {
            let tx: u32 = x / 64;
            let ty: u32 = y / 64;
            let tile: Option<&TilePixels> = surface.tile_lookup(tx as i32, ty as i32);
            let start: u32 = x;
            while x < w && x - start < 64 && x / 64 == tx
                invariant
                    start <= x <= w,
                    x - start <= 64,
                    tx == start / 64,
                    ty == y / 64,
                    y < h,
                    tiles == visible::<S>(surface.tiles()),
                    m == math.answers(),
                    math.wf(),
                    tile == (if tiles.contains_key((tx as i32, ty as i32)) {
                        Some(&tiles[(tx as i32, ty as i32)])
                    } else {
                        None
                    }),
                    out@.len() == 4 * (y * w + x),
                    forall|k: int| 0 <= k < out@.len() ==> #[trigger] out@[k] == image_byte(
                        tiles,
                        w as int,
                        k,
                        m,
                    ),
                decreases w - x,
            {
                let p: Option<[u16; 4]> = match tile {
                    Some(t) => Some(t[(y % 64) as usize][(x % 64) as usize]),
                    None => None,
                };
                let ghost before = out@;
                let ghost n = y * w + x;
                proof {
                    lemma_pixel_number(w as int, x as int, y as int);
                    assert(p == shown_at(tiles, x as int, y as int));
                }
                push_pixel(&mut out, p, math);
                proof {
                    assert forall|k: int| 0 <= k < out@.len() implies #[trigger] out@[k]
                        == image_byte(tiles, w as int, k, m) by {
                        if k < before.len() {
                            assert(out@[k] == before[k]);
                        } else {
                            assert(k / 4 == n);
                            let c = k % 4;
                            assert(k == before.len() + c);
                            if c == 0 {
                            } else if c == 1 {
                            } else if c == 2 {
                            } else {
                            }
                        }
                    }
                }
                x += 1;
            }
        }
        assert(y * w + w == (y + 1) * w) by (nonlinear_arith);
        y += 1;
    }
    assert(4 * (h * w) == 4 * (w * h)) by (nonlinear_arith);
    assert(out@ =~= image(tiles, w as int, h as int, m));
    out
}

/// A recorded stroke.
#[derive(Clone, Debug)]
pub struct Script {
    pub width: u32,
    pub height: u32,
    /// Position, pressure and seconds since the event before.
    pub events: Vec<[Single; 4]>,
}

/// 10 s: longer than any pause inside a stroke.
pub const LONG_PAUSE: u64 = 0x4024_0000_0000_0000;

/// The event that a recorded one stands for.
pub open spec fn event_of(e: [Single; 4]) -> Event {
    Event {
        x: e@[0],
        y: e@[1],
        pressure: e@[2],
        xtilt: Single { bits: 0 },
        ytilt: Single { bits: 0 },
        dtime: Double::widen(e@[3]),
    }
}

/// The event that comes before the first one, at its place but long before
/// it and without pressure, so that the first one already paints.
pub open spec fn warm_up(e: [Single; 4]) -> Event {
    Event {
        pressure: Single { bits: 0 },
        dtime: Double { bits: LONG_PAUSE },
        ..event_of(e)
    }
}

/// A brush and a canvas after the first `n` events of a script.
pub open spec fn replayed(
    b: BrushView,
    start: Outcome<Canvas>,
    events: Seq<[Single; 4]>,
    n: nat,
    m: Answers,
) -> Outcome<Canvas>
    decreases n,
{
    if n == 0 {
        if events.len() == 0 {
            start
        } else {
            after_event::<MemSurface>(
                b,
                start.state,
                start.shown,
                start.rng,
                warm_up(events[0]),
                m,
            )
        }
    } else {
        let o = replayed(b, start, events, (n - 1) as nat, m);
        after_event::<MemSurface>(b, o.state, o.shown, o.rng, event_of(events[n - 1]), m)
    }
}

/// A canvas on which nothing is painted.
pub open spec fn bare_canvas() -> Canvas {
    Canvas { tiles: Map::empty(), lent: None }
}

/// Replays the events of a script on a fresh canvas.
fn replay<N: Fn(Narrow) -> Single, W: Fn(Wide) -> Double>(
    brush: &Brush,
    events: &Vec<[Single; 4]>,
    state: &mut BrushState,
    surface: &mut MemSurface,
    rng: &mut SampleRng,
    math: &Elementary<N, W>,
)
    requires
        brush.wf(),
        old(state).wf(),
        old(surface).ready(),
        old(rng).wf(),
        math.wf(),
    ensures
        final(state).wf(),
        final(surface).ready(),
        final(rng).wf(),
        ({
            let start = Outcome {
                state: *old(state),
                shown: old(surface).shown(),
                rng: *old(rng),
                painted: false,
            };
            let end = replayed(brush@, start, events@, events@.len(), math.answers());
            &&& *final(state) == end.state
            &&& final(surface).shown() == end.shown
            &&& *final(rng) == end.rng
        }),
{
    let ghost start = Outcome {
        state: *state,
        shown: surface.shown(),
        rng: *rng,
        painted: false,
    };
    let zero = Single { bits: 0 };
    if events.len() > 0 {
        let first = events[0];
        let pause = Double { bits: LONG_PAUSE };
        brush.stroke_to(state, surface, first[0], first[1], zero, zero, zero, pause, rng, math);
    }
    let mut i: usize = 0;
    while i < events.len()
        invariant
            i <= events@.len(),
            brush.wf(),
            state.wf(),
            surface.ready(),
            rng.wf(),
            math.wf(),
            zero == (Single { bits: 0 }),
            ({
                let now = replayed(brush@, start, events@, i as nat, math.answers());
                &&& *state == now.state
                &&& surface.shown() == now.shown
                &&& *rng == now.rng
            }),
        decreases events@.len() - i,
    {
        let ev = events[i];
        let dtime = Double::from_single(ev[3]);
        brush.stroke_to(state, surface, ev[0], ev[1], ev[2], zero, zero, dtime, rng, math);
        i += 1;
    }
}

/// What a script paints with a brush on a fresh canvas.
pub open spec fn rendered(b: BrushView, script: Script, m: Answers) -> Outcome<Canvas> {
    let start = Outcome {
        state: new_memory(1000),
        shown: bare_canvas(),
        rng: SampleRng { state: 1 },
        painted: false,
    };
    replayed(b, start, script.events@, script.events@.len(), m)
}

/// Replays a script with a brush on a fresh canvas, and returns the canvas
/// over white in sRGB bytes.  Every random number starts afresh, so one script
/// always comes out the same.
pub fn render<N: Fn(Narrow) -> Single, W: Fn(Wide) -> Double>(
    brush: &Brush,
    script: &Script,
    math: &Elementary<N, W>,
) -> (out: Vec<u8>)
    requires
        brush.wf(),
        math.wf(),
        4 * (script.width * script.height) <= u32::MAX,
    ensures
        out@ == image(
            rendered(brush@, *script, math.answers()).shown.tiles,
            script.width as int,
            script.height as int,
            math.answers(),
        ),
{
    let mut state = BrushState::default();
    let mut surface = MemSurface::new();
    let mut rng = SampleRng::new();
    assert(surface.shown() =~= bare_canvas());
    replay(brush, &script.events, &mut state, &mut surface, &mut rng, math);
    flatten(&surface, script.width, script.height, math)
}

/// What a script paints when the stroke is finished after it.
pub open spec fn rendered_finished(
    b: BrushView,
    script: Script,
    m: Answers,
) -> Outcome<Canvas> {
    let o = rendered(b, script, m);
    after_finish::<MemSurface>(b, o.state, o.shown, o.rng, m)
}

/// Like [`render`], but finishes the stroke.
pub fn render_with_finish<N: Fn(Narrow) -> Single, W: Fn(Wide) -> Double>(
    brush: &Brush,
    script: &Script,
    math: &Elementary<N, W>,
) -> (out: Vec<u8>)
    requires
        brush.wf(),
        math.wf(),
        4 * (script.width * script.height) <= u32::MAX,
    ensures
        out@ == image(
            rendered_finished(brush@, *script, math.answers()).shown.tiles,
            script.width as int,
            script.height as int,
            math.answers(),
        ),
{
    let mut state = BrushState::default();
    let mut surface = MemSurface::new();
    let mut rng = SampleRng::new();
    assert(surface.shown() =~= bare_canvas());
    replay(brush, &script.events, &mut state, &mut surface, &mut rng, math);
    brush.finish_stroke(&mut state, &mut surface, &mut rng, math);
    flatten(&surface, script.width, script.height, math)
}

/// The distance of two bytes.
pub open spec fn apart(a: u8, b: u8) -> int {
    if a >= b {
        a - b
    } else {
        b - a
    }
}

/// The sum of the distances of the first `n` bytes.
pub open spec fn total_apart(a: Seq<u8>, b: Seq<u8>, n: nat) -> int
    decreases n,
{
    if n == 0 {
        0
    } else {
        total_apart(a, b, (n - 1) as nat) + apart(a[n - 1], b[n - 1])
    }
}

/// 255.0.
pub const MOST_APART: u32 = 0x437f_0000;

/// The mean distance of the bytes of two buffers of the same length, at most
/// 255.
pub open spec fn mean_apart(a: Seq<u8>, b: Seq<u8>) -> Single {
    let most = Single { bits: MOST_APART };
    let mean = Single::of(total_apart(a, b, a.len())).over(Single::of(a.len() as int));
    if most.lt(mean) {
        most
    } else {
        mean
    }
}

/// The mean absolute difference of two buffers, in `[0, 255]`; not a number
/// when they are empty.
pub fn diff_mad(a: &[u8], b: &[u8]) -> (r: Single)
    requires
        a@.len() == b@.len(),
        255 * a@.len() <= u64::MAX,
    ensures
        r == mean_apart(a@, b@),
{
    let mut sum: u64 = 0;
    let mut i: usize = 0;
    while i < a.len()
        invariant
            i <= a@.len(),
            a@.len() == b@.len(),
            255 * a@.len() <= u64::MAX,
            sum == total_apart(a@, b@, i as nat),
            sum <= 255 * i,
        decreases a@.len() - i,
    {
        let x: u8 = a[i];
        let y: u8 = b[i];
        let d: u8 = if x >= y {
            x - y
        } else {
            y - x
        };
        sum = sum + d as u64;
        i += 1;
    }
    let most = Single { bits: MOST_APART };
    let mean = Single::from_u64(sum).over(Single::from_u64(a.len() as u64));
    if most.lt(mean) {
        most
    } else {
        mean
    }
}

/// A canvas without tiles is white.
pub proof fn law_bare_canvas_is_white(w: int, h: int, m: Answers)
    requires
        w >= 0,
        h >= 0,
    ensures
        image(Map::empty(), w, h, m) == Seq::new((4 * (w * h)) as nat, |k: int| 255u8),
{
}

/// A buffer does not differ from itself, and two buffers differ as much one
/// way as the other.
pub proof fn law_difference_is_a_distance(a: Seq<u8>, b: Seq<u8>, n: nat)
    requires
        n <= a.len(),
        n <= b.len(),
    ensures
        total_apart(a, a, n) == 0,
        total_apart(a, b, n) == total_apart(b, a, n),
        total_apart(a, b, n) == 0 ==> forall|i: int| 0 <= i < n ==> a[i] == b[i],
        total_apart(a, b, n) >= 0,
    decreases n,
{
    if n > 0 {
        law_difference_is_a_distance(a, b, (n - 1) as nat);
    }
}

/// The mean difference of buffers that are not empty is in `[0, 255]`.
pub proof fn law_mean_difference_is_in_range(a: Seq<u8>, b: Seq<u8>)
    requires
        a.len() == b.len(),
        a.len() > 0,
        255 * a.len() <= u64::MAX,
    ensures
        (Single { bits: 0 }).le(mean_apart(a, b)),
        mean_apart(a, b).le(Single { bits: MOST_APART }),
{
    let n = a.len();
    let t = total_apart(a, b, n);
    lemma_total_apart(a, b, n);
    lemma_magnitude_zero();
    lemma_no_units(Single { bits: MOST_APART });
    lemma_of_finite(n);
    lemma_of_finite(t as nat);
    lemma_over_order(Single::of(t), Single::of(t), Single::of(n as int));
}

proof fn lemma_total_apart(a: Seq<u8>, b: Seq<u8>, n: nat)
    ensures
        0 <= total_apart(a, b, n) <= 255 * n,
    decreases n,
{
    if n > 0 {
        lemma_total_apart(a, b, (n - 1) as nat);
    }
}

/// A picture is row by row, four bytes to a pixel: red, green, blue and alpha of
/// what the canvas holds there.
pub proof fn law_image_is_row_by_row(
    tiles: Map<(i32, i32), TilePixels>,
    w: int,
    h: int,
    x: int,
    y: int,
    c: int,
    m: Answers,
)
    requires
        0 <= x < w,
        0 <= y < h,
        0 <= c < 4,
    ensures
        image(tiles, w, h, m).len() == 4 * (w * h),
        0 <= 4 * (y * w + x) + c < 4 * (w * h),
        image(tiles, w, h, m)[4 * (y * w + x) + c] == byte_over_white(
            shown_at(tiles, x, y),
            c,
            m,
        ),
{
    lemma_pixel_number(w, x, y);
    assert(0 <= y * w + x < w * h) by (nonlinear_arith)
        requires
            0 <= x < w,
            0 <= y < h,
    ;
    let n = y * w + x;
    assert((4 * n + c) / 4 == n && (4 * n + c) % 4 == c);
}

/// What a canvas shows at a pixel is what its tile holds there: the tile that
/// the pixel lies in, 64 pixels wide and high, at its place in that tile.
pub proof fn law_pixels_are_found_in_their_tiles(
    tiles: Map<(i32, i32), TilePixels>,
    tx: i32,
    ty: i32,
    x: int,
    y: int,
)
    requires
        0 <= x < 64,
        0 <= y < 64,
        0 <= tx < 0x200_0000,
        0 <= ty < 0x200_0000,
    ensures
        tiles.contains_key((tx, ty)) ==> shown_at(tiles, 64 * tx + x, 64 * ty + y) == Some(
            pixel(tiles[(tx, ty)], x, y),
        ),
        !tiles.contains_key((tx, ty)) ==> shown_at(tiles, 64 * tx + x, 64 * ty + y) is None,
{
    assert((64 * tx + x) / 64 == tx && (64 * tx + x) % 64 == x);
    assert((64 * ty + y) / 64 == ty && (64 * ty + y) % 64 == y);
}

/// The mean difference of two buffers, times their length, is the sum of their
/// differences, to within a part in 2^22, where it is not held.
pub proof fn law_mean_difference_is_the_mean(a: Seq<u8>, b: Seq<u8>)
    requires
        a.len() == b.len(),
        0 < a.len() < 0x1_0000,
    ensures
        ({
            let n = a.len() as int;
            let total = total_apart(a, b, a.len());
            let mean = mean_apart(a, b);
            &&& 0 <= total <= 255 * n
            &&& mean.finite()
            &&& 0x40_0000 * size(mean.value() * n - total * pow2(149)) <= total * pow2(149)
                + 0x100_0000 * n
        }),
{
    let u = pow2(149) as int;
    let n = a.len() as int;
    let total = total_apart(a, b, a.len());
    lemma_one();
    lemma_total_bounds(a, b, a.len());
    lemma_of_exact(n as nat);
    lemma_of_exact(total as nat);
    let (p, q) = (Single::of(total), Single::of(n));
    let r = p.over(q);
    let most = Single { bits: MOST_APART };
    lemma_known(MOST_APART, 0xff_0000, 133);
    lemma_pow2_adds(16, 133);
    lemma_pow2_adds(8, 149);
    assert(pow2(16) == 0x1_0000 && pow2(8) == 256) by {
        lemma2_to64();
    }
    assert(n * u > 0) by (nonlinear_arith)
        requires
            n > 0,
            u > 0,
    ;
    assert(0 <= total * u <= 255 * (n * u)) by (nonlinear_arith)
        requires
            0 <= total <= 255 * n,
            u > 0,
    ;
    assert((total * u) * u < (256 * u) * (n * u)) by (nonlinear_arith)
        requires
            0 <= total * u <= 255 * (n * u),
            n * u > 0,
            u > 0,
    ;
    lemma_over_finite(p, q, 157);
    lemma_over_close(p, q);
    let rv = r.value();
    // One factor of u less.
    let e = rv * n - total * u;
    assert(rv * (n * u) - (total * u) * u == u * e) by (nonlinear_arith)
        requires
            e == rv * n - total * u,
    ;
    assert(size(u * e) == u * size(e)) by {
        assert(u * e < 0 <==> e < 0) by (nonlinear_arith)
            requires
                u > 0,
        ;
        assert(u * (-e) == -(u * e)) by (nonlinear_arith);
    }
    assert((total * u) * u >= 0) by (nonlinear_arith)
        requires
            total * u >= 0,
            u > 0,
    ;
    assert(0x100_0000 * size(e) <= total * u + 0x80_0000 * n) by (nonlinear_arith)
        requires
            0x100_0000 * (u * size(e)) <= (total * u) * u + 0x80_0000 * (n * u),
            u > 0,
    ;
    if most.lt(r) {
        // Held, the mean is no further off: it is at most 255.
        let mv = most.value();
        assert(mv == 255 * u);
        assert(mv * n == 255 * (n * u)) by (nonlinear_arith)
            requires
                mv == 255 * u,
        ;
        assert(mv * n <= rv * n) by (nonlinear_arith)
            requires
                mv <= rv,
                n > 0,
        ;
    }
}

proof fn lemma_total_bounds(a: Seq<u8>, b: Seq<u8>, n: nat)
    ensures
        0 <= total_apart(a, b, n) <= 255 * n,
    decreases n,
{
    if n > 0 {
        lemma_total_bounds(a, b, (n - 1) as nat);
    }
}

} // verus!
