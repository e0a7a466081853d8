//! Where the curve of a setting goes: through its knots, and straight between
//! them.
use crate::evaluator::{added, evaluated};
use crate::mapping::{between, curve, lemma_segment_end, segment_end, Knot, SettingView};
use crate::means::{
    close, lemma_over_close, lemma_over_finite, lemma_plus_close, lemma_times_close,
    lemma_times_finite, size, spans,
};
use crate::range::{lemma_negate, lemma_one, lemma_plus_near, lemma_plus_value, rounded};
use crate::single::Single;
use vstd::arithmetic::power2::*;
use vstd::prelude::*;

verus! {

/// A product of bounded numbers is bounded.
proof fn lemma_bounded(x: int, y: int, a: int, b: int)
    requires
        size(x) <= a,
        size(y) <= b,
    ensures
        size(x * y) <= a * b,
        size(x) * size(y) <= a * b,
{
    assert(size(x * y) == size(x) * size(y)) by (nonlinear_arith)
        requires
            size(x) == (if x < 0 {
                -x
            } else {
                x
            }),
            size(y) == (if y < 0 {
                -y
            } else {
                y
            }),
            size(x * y) == (if x * y < 0 {
                -(x * y)
            } else {
                x * y
            }),
    ;
    assert(size(x) * size(y) <= a * b) by (nonlinear_arith)
        requires
            0 <= size(x) <= a,
            0 <= size(y) <= b,
    ;
}

/// The two products of a line and their sum.  `h` bounds the heights, `d0` is
/// the width of the segment, `p0` and `q0` the ways from its ends; `p` and `q`
/// are these as computed, `a` and `b` the products and `s` their sum.
proof fn lemma_line_sum(
    u: int,
    h: int,
    d0: int,
    p0: int,
    q0: int,
    p: int,
    q: int,
    y0: int,
    y1: int,
    a: int,
    b: int,
    s: int,
)
    requires
        u > 0,
        h > 0,
        d0 >= 0x400_0000,
        h * d0 >= 0x400_0000 * u,
        size(p0) <= 8 * d0,
        size(q0) <= 9 * d0,
        size(y0) <= h,
        size(y1) <= h,
        close(p, p0, 1),
        close(q, q0, 1),
        close(u * a, y1 * p, u),
        close(u * b, y0 * q, u),
        close(s, a + b, 1),
    ensures
        size(s * u) <= 21 * (h * d0),
        0x100_0000 * size(s * u - (y1 * p + y0 * q)) <= 42 * (h * d0),
{
    let hd = h * d0;
    assert(0x10_0000 * size(p - p0) <= d0 && 0x10_0000 * size(q - q0) <= d0);
    let (yp, yq) = (y1 * p, y0 * q);
    lemma_bounded(y1, p, h, 9 * d0);
    lemma_bounded(y0, q, h, 10 * d0);
    assert(h * (9 * d0) == 9 * hd && h * (10 * d0) == 10 * hd) by (nonlinear_arith)
        requires
            hd == h * d0,
    ;
    let (ua, ub, us) = (u * a, u * b, s * u);
    assert(0x100_0000 * size(ua - yp) <= 10 * hd && 0x100_0000 * size(ub - yq) <= 11 * hd);
    let ab = u * (a + b);
    assert(ab == ua + ub) by (nonlinear_arith)
        requires
            ab == u * (a + b),
            ua == u * a,
            ub == u * b,
    ;
    assert(0x100_0000 * size(us - ab) <= size(ab) + 0x80_0000 * u) by {
        let e = s - (a + b);
        let sum = a + b;
        assert(us - ab == u * e) by (nonlinear_arith)
            requires
                us == s * u,
                ab == u * (a + b),
                e == s - (a + b),
        ;
        lemma_scaled_size(u, e);
        lemma_scaled_size(u, sum);
        assert(0x100_0000 * (u * size(e)) <= u * size(sum) + 0x80_0000 * u) by (nonlinear_arith)
            requires
                0x100_0000 * size(e) <= size(sum) + 0x80_0000,
                u > 0,
        ;
    }
    assert(size(ab) <= 20 * hd);
    assert(0x100_0000 * size(us - ab) <= 21 * hd);
}

/// How the roundings of a line add up: `d` is the width as computed and `r`
/// the quotient.
proof fn lemma_line_errors(
    u: int,
    h: int,
    d0: int,
    p0: int,
    q0: int,
    d: int,
    p: int,
    q: int,
    y0: int,
    y1: int,
    s: int,
    r: int,
)
    requires
        u > 0,
        h >= 0x400_0000,
        d0 >= 0x400_0000,
        size(p0) <= 8 * d0,
        size(q0) <= 9 * d0,
        size(y0) <= h,
        size(y1) <= h,
        close(p, p0, 1),
        close(q, q0, 1),
        close(d, d0, 1),
        size(s * u) <= 21 * (h * d0),
        0x100_0000 * size(s * u - (y1 * p + y0 * q)) <= 42 * (h * d0),
        close(r * d, s * u, d),
    ensures
        0x1_0000 * size(r * d0 - (y1 * p0 + y0 * q0)) <= h * d0,
{
    let hd = h * d0;
    assert(0x10_0000 * size(p - p0) <= d0 && 0x10_0000 * size(q - q0) <= d0 && 0x80_0000 * size(
        d - d0,
    ) <= d0);
    let (yp, yq, us) = (y1 * p, y0 * q, s * u);
    let rd = r * d;
    assert(0x400_0000 * d0 <= hd) by (nonlinear_arith)
        requires
            h >= 0x400_0000,
            d0 > 0,
            hd == h * d0,
    ;
    assert(0x100_0000 * size(rd - us) <= 22 * hd);
    assert(0x4_0000 * size(rd - (yp + yq)) <= hd);
    assert(size(rd) <= 22 * hd);
    let z = size(r);
    lemma_scaled_size(d, r);
    assert(d * r == rd) by (nonlinear_arith)
        requires
            rd == r * d,
    ;
    assert(z <= 23 * h) by (nonlinear_arith)
        requires
            d * z <= 22 * hd,
            hd == h * d0,
            0x80_0000 * d >= 0x7f_ffff * d0,
            d0 > 0,
            h > 0,
    ;
    lemma_bounded(y1, 0x10_0000 * (p - p0), h, d0);
    lemma_bounded(y0, 0x10_0000 * (q - q0), h, d0);
    lemma_bounded(r, 0x80_0000 * (d - d0), 23 * h, d0);
    let (e1, e2, e3) = (y1 * (p - p0), y0 * (q - q0), r * (d - d0));
    assert(y1 * (0x10_0000 * (p - p0)) == 0x10_0000 * e1) by (nonlinear_arith)
        requires
            e1 == y1 * (p - p0),
    ;
    assert(y0 * (0x10_0000 * (q - q0)) == 0x10_0000 * e2) by (nonlinear_arith)
        requires
            e2 == y0 * (q - q0),
    ;
    assert(r * (0x80_0000 * (d - d0)) == 0x80_0000 * e3) by (nonlinear_arith)
        requires
            e3 == r * (d - d0),
    ;
    assert(23 * h * d0 == 23 * hd) by (nonlinear_arith)
        requires
            hd == h * d0,
    ;
    let (f1, f2, f3) = (y1 * p0, y0 * q0, r * d0);
    assert(e1 == yp - f1) by (nonlinear_arith)
        requires
            e1 == y1 * (p - p0),
            yp == y1 * p,
            f1 == y1 * p0,
    ;
    assert(e2 == yq - f2) by (nonlinear_arith)
        requires
            e2 == y0 * (q - q0),
            yq == y0 * q,
            f2 == y0 * q0,
    ;
    assert(e3 == rd - f3) by (nonlinear_arith)
        requires
            e3 == r * (d - d0),
            rd == r * d,
            f3 == r * d0,
    ;
}

/// What is close to a product is not much larger.
proof fn lemma_product_below(u: int, a: int, exact: int, top: int)
    requires
        u > 0,
        size(exact) <= top * u,
        close(u * a, exact, u),
    ensures
        size(a) <= 2 * top + 1,
{
    lemma_scaled_size(u, a);
    let z = size(a);
    assert(u * z <= 2 * (top * u) + u);
    assert(z <= 2 * top + 1) by (nonlinear_arith)
        requires
            u * z <= 2 * (top * u) + u,
            u > 0,
    ;
}

proof fn lemma_scaled_size(u: int, x: int)
    requires
        u > 0,
    ensures
        size(u * x) == u * size(x),
{
    assert(u * x < 0 <==> x < 0) by (nonlinear_arith)
        requires
            u > 0,
    ;
    assert(u * (-x) == -(u * x)) by (nonlinear_arith);
}

/// Knots of heights of up to 2^k units, the first to the left of the second by
/// no less than 2^-44, and all places in a range that numbers have room for.
pub open spec fn segment(first: Knot, second: Knot, k: nat) -> bool {
    &&& spans(first.0, 200) && spans(second.0, 200)
    &&& first.0.value() + pow2(105) <= second.0.value()
    &&& spans(first.1, k) && spans(second.1, k)
    &&& 70 <= k <= 200
}

/// The line through two knots, as it is computed.
proof fn lemma_line(first: Knot, second: Knot, x: Single, k: nat)
    requires
        segment(first, second, k),
        x.finite(),
        size(x.value() - first.0.value()) <= 8 * (second.0.value() - first.0.value()),
    ensures
        between(first, second, x).finite(),
        ({
            let (x0, x1) = (first.0.value(), second.0.value());
            let (y0, y1) = (first.1.value(), second.1.value());
            0x1_0000 * size(
                between(first, second, x).value() * (x1 - x0) - (y1 * (x.value() - x0) + y0 * (x1
                    - x.value())),
            ) <= pow2(k) * (x1 - x0)
        }),
{
    let (x0, x1) = (first.0, second.0);
    let (y0, y1) = (first.1, second.1);
    let u = pow2(149) as int;
    let h = pow2(k) as int;
    let d0 = x1.value() - x0.value();
    let p0 = x.value() - x0.value();
    let q0 = x1.value() - x.value();
    lemma_one();
    lemma_pow2_pos(k);
    if y0.same_spec(y1) {
        let (yv, rv) = (y0.value(), between(first, second, x).value());
        assert(rv * d0 - (yv * p0 + yv * q0) == 0) by (nonlinear_arith)
            requires
                rv == yv,
                p0 + q0 == d0,
        ;
        assert(h * d0 >= 0) by (nonlinear_arith)
            requires
                h >= 0,
                d0 >= 0,
        ;
    } else {
        let p = x.minus_spec(x0);
        let q = x1.minus_spec(x);
        let d = x1.minus_spec(x0);
        lemma_pow2_unfold(201);
        lemma_pow2_unfold(202);
        lemma_pow2_unfold(203);
        lemma_pow2_unfold(204);
        lemma_pow2_unfold(205);
        lemma_pow2_unfold(206);
        lemma_negate(x0);
        lemma_negate(x);
        lemma_pow2_pos(200);
        lemma_plus_near(x, x0.negate_spec(), 206);
        lemma_plus_near(x1, x.negate_spec(), 206);
        lemma_plus_near(x1, x0.negate_spec(), 206);
        lemma_plus_close(x, x0.negate_spec());
        lemma_plus_close(x1, x.negate_spec());
        lemma_plus_close(x1, x0.negate_spec());
        lemma_pow2_adds(26, 79);
        lemma_pow2_pos(79);
        assert(pow2(26) == 0x400_0000) by {
            lemma2_to64();
        }
        assert(d0 >= 0x400_0000);
        assert(h >= 0x400_0000) by {
            lemma_pow2_strictly_increases(26, k);
        }
        assert(h * d0 >= 0x400_0000 * u) by {
            lemma_pow2_adds(70, 105);
            lemma_pow2_adds(26, 149);
            if k > 70 {
                lemma_pow2_strictly_increases(70, k);
            }
            assert(h * d0 >= pow2(70) * pow2(105)) by (nonlinear_arith)
                requires
                    h >= pow2(70),
                    d0 >= pow2(105),
                    pow2(70) >= 0,
                    pow2(105) >= 0,
            ;
        }
        // The products.
        let top = pow2(206) as int;
        assert(size(p.value()) <= top && size(q.value()) <= top) by {
            lemma_pow2_strictly_increases(182, 200);
        }
        lemma_bounded(y1.value(), p.value(), h, top);
        lemma_bounded(y0.value(), q.value(), h, top);
        lemma_pow2_adds(k, 206);
        lemma_pow2_adds(260, 149);
        lemma_pow2_strictly_increases(k + 206, 409);
        lemma_times_finite(y1, p, 260);
        lemma_times_finite(y0, q, 260);
        let a = y1.times_spec(p);
        let b = y0.times_spec(q);
        lemma_times_close(y1, p);
        lemma_times_close(y0, q);
        let most = pow2(257) as int;
        assert(h * top <= most * u) by {
            lemma_pow2_adds(257, 149);
            if k < 200 {
                lemma_pow2_strictly_increases(k + 206, 406);
            }
        }
        lemma_product_below(u, a.value(), y1.value() * p.value(), most);
        lemma_product_below(u, b.value(), y0.value() * q.value(), most);
        lemma_pow2_unfold(258);
        lemma_pow2_unfold(259);
        lemma_pow2_unfold(260);
        lemma_pow2_unfold(261);
        lemma_pow2_pos(257);
        lemma_plus_near(a, b, 261);
        let s = a.plus_spec(b);
        lemma_plus_close(a, b);
        lemma_line_sum(
            u,
            h,
            d0,
            p0,
            q0,
            p.value(),
            q.value(),
            y0.value(),
            y1.value(),
            a.value(),
            b.value(),
            s.value(),
        );
        // The quotient.
        let (sv, dv) = (s.value(), d.value());
        assert(size(sv) * pow2(149) < pow2(210) * dv) by {
            lemma_scaled_size(u, sv);
            assert(u * sv == sv * u && u * size(sv) == size(sv) * u) by (nonlinear_arith);
            lemma_pow2_adds(k, (210 - k) as nat);
            if k < 200 {
                lemma_pow2_strictly_increases(10, (210 - k) as nat);
            }
            assert(pow2(10) == 0x400) by {
                lemma2_to64();
            }
            let more = pow2((210 - k) as nat) as int;
            assert(21 * (h * d0) < (h * more) * dv) by (nonlinear_arith)
                requires
                    more >= 0x400,
                    0x80_0000 * dv >= 0x7f_ffff * d0,
                    d0 > 0,
                    h > 0,
            ;
        }
        lemma_over_finite(s, d, 210);
        lemma_over_close(s, d);
        lemma_line_errors(
            u,
            h,
            d0,
            p0,
            q0,
            d.value(),
            p.value(),
            q.value(),
            y0.value(),
            y1.value(),
            s.value(),
            s.over_spec(d).value(),
        );
    }
}

/// Knots from left to right, as a brush file lists them: heights of up to 2^k
/// units.
pub open spec fn ascending(points: Seq<Knot>, k: nat) -> bool {
    &&& points.len() >= 2
    &&& forall|i: int|
        1 <= i < points.len() ==> #[trigger] segment(points[i - 1], points[i], k)
}

proof fn lemma_ascending(points: Seq<Knot>, k: nat, i: int, j: int)
    requires
        ascending(points, k),
        0 <= i <= j < points.len(),
    ensures
        points[i].0.value() <= points[j].0.value(),
        i < j ==> points[i].0.value() < points[j].0.value(),
        points[i].0.finite(),
        points[j].0.finite(),
    decreases j - i,
{
    lemma_pow2_pos(105);
    if i < j {
        assert(segment(points[j - 1], points[j], k));
        lemma_ascending(points, k, i, j - 1);
    } else if i > 0 {
        assert(segment(points[i - 1], points[i], k));
    } else {
        let next: int = 1;
        assert(segment(points[next - 1], points[next], k));
    }
}

/// Whether `x` belongs to the segment that ends at knot `i`: between its ends,
/// or outside all knots and nearest to it.
pub open spec fn belongs(points: Seq<Knot>, x: Single, i: int) -> bool {
    &&& 1 <= i < points.len()
    &&& i == 1 || points[i - 1].0.value() < x.value()
    &&& i == points.len() - 1 || x.value() <= points[i].0.value()
}

/// Between two knots a curve is the straight line from one to the other, and
/// outside all knots, as far as eight times the width of the segment, the line
/// through the nearest two: at `x` it is the mean of the two heights, each
/// weighed by how near its knot is, to within a part in 2^16 of the heights.
pub proof fn law_curve_is_straight_between_knots(points: Seq<Knot>, x: Single, i: int, k: nat)
    requires
        ascending(points, k),
        x.finite(),
        belongs(points, x, i),
        size(x.value() - points[i - 1].0.value()) <= 8 * (points[i].0.value() - points[i
            - 1].0.value()),
    ensures
        curve(points, x).finite(),
        ({
            let (x0, y0) = (points[i - 1].0.value(), points[i - 1].1.value());
            let (x1, y1) = (points[i].0.value(), points[i].1.value());
            0x1_0000 * size(
                curve(points, x).value() * (x1 - x0) - (y1 * (x.value() - x0) + y0 * (x1
                    - x.value())),
            ) <= pow2(k) * (x1 - x0)
        }),
{
    let e = segment_end(points, x, 1);
    lemma_segment_end(points, x, 1);
    lemma_one();
    if e < i {
        lemma_ascending(points, k, e, i - 1);
        assert(x.le_spec(points[e].0));
    } else if i < e {
        lemma_ascending(points, k, i, e);
        assert(!x.le_spec(points[i].0));
    }
    assert(segment(points[i - 1], points[i], k));
    lemma_line(points[i - 1], points[i], x, k);
}

/// A curve passes through its knots, to within a part in 2^16 of their heights.
pub proof fn law_curve_passes_through_its_knots(points: Seq<Knot>, i: int, k: nat)
    requires
        ascending(points, k),
        0 <= i < points.len(),
    ensures
        curve(points, points[i].0).finite(),
        0x1_0000 * size(curve(points, points[i].0).value() - points[i].1.value()) <= pow2(k),
{
    let x = points[i].0;
    let end = if i == 0 {
        1
    } else {
        i
    };
    assert(segment(points[end - 1], points[end], k));
    lemma_ascending(points, k, end - 1, end);
    law_curve_is_straight_between_knots(points, x, end, k);
    let (x0, y0) = (points[end - 1].0.value(), points[end - 1].1.value());
    let (x1, y1) = (points[end].0.value(), points[end].1.value());
    let r = curve(points, x).value();
    let d = x1 - x0;
    let (z, y) = (x.value(), points[i].1.value());
    assert(y1 * (z - x0) + y0 * (x1 - z) == y * d) by (nonlinear_arith)
        requires
            z == x0 && y == y0 || z == x1 && y == y1,
            d == x1 - x0,
    ;
    assert(r * d - y * d == d * (r - y)) by (nonlinear_arith);
    lemma_scaled_size(d, r - y);
    let off = size(r - y);
    assert(0x1_0000 * off <= pow2(k)) by (nonlinear_arith)
        requires
            0x1_0000 * (d * off) <= pow2(k) * d,
            d > 0,
    ;
}

/// Between two knots a curve stays between their heights, to within a part in
/// 2^16 of the heights.
pub proof fn law_curve_stays_between_its_knots(
    points: Seq<Knot>,
    x: Single,
    i: int,
    low: int,
    high: int,
    k: nat,
)
    requires
        ascending(points, k),
        x.finite(),
        1 <= i < points.len(),
        points[i - 1].0.value() <= x.value() <= points[i].0.value(),
        i > 1 ==> points[i - 1].0.value() < x.value(),
        low <= points[i - 1].1.value() <= high,
        low <= points[i].1.value() <= high,
    ensures
        0x1_0000 * low - pow2(k) <= 0x1_0000 * curve(points, x).value(),
        0x1_0000 * curve(points, x).value() <= 0x1_0000 * high + pow2(k),
{
    assert(segment(points[i - 1], points[i], k));
    law_curve_is_straight_between_knots(points, x, i, k);
    let (x0, y0) = (points[i - 1].0.value(), points[i - 1].1.value());
    let (x1, y1) = (points[i].0.value(), points[i].1.value());
    let r = curve(points, x).value();
    let d = x1 - x0;
    let (p, q) = (x.value() - x0, x1 - x.value());
    lemma_pow2_pos(105);
    assert(low * d <= y1 * p + y0 * q <= high * d) by (nonlinear_arith)
        requires
            low <= y0 <= high,
            low <= y1 <= high,
            p >= 0,
            q >= 0,
            p + q == d,
    ;
    let h = pow2(k) as int;
    assert(0x1_0000 * low - h <= 0x1_0000 * r) by (nonlinear_arith)
        requires
            0x1_0000 * (low * d) - h * d <= 0x1_0000 * (r * d),
            d > 0,
    ;
    assert(0x1_0000 * r <= 0x1_0000 * high + h) by (nonlinear_arith)
        requires
            0x1_0000 * (r * d) <= 0x1_0000 * (high * d) + h * d,
            d > 0,
    ;
}

/// A curve without knots adds nothing, and one of a single knot is level.
pub proof fn law_short_curves_are_level(knot: Knot, x: Single)
    ensures
        curve(Seq::empty(), x).value() == 0,
        curve(seq![knot], x) == knot.1,
{
    lemma_one();
}

/// One more mapped input adds what its curve gives for that input, rounded
/// once, and no other input takes part in that.
pub proof fn law_mapped_inputs_add_up(s: SettingView, values: Seq<Single>)
    requires
        s.inputs.len() > 0,
    ensures
        ({
            let rest = SettingView { inputs: s.inputs.drop_last(), ..s };
            let own = curve(s.inputs.last().1, values[s.inputs.last().0.index_spec() as int]);
            let before = evaluated(rest, values);
            before.finite() && own.finite() ==> !evaluated(s, values).nan() && evaluated(
                s,
                values,
            ).value() == rounded(before.value() + own.value())
        }),
{
    let rest = SettingView { inputs: s.inputs.drop_last(), ..s };
    let n = (s.inputs.len() - 1) as nat;
    lemma_same_prefix(s, rest, values, n);
    let own = curve(s.inputs.last().1, values[s.inputs.last().0.index_spec() as int]);
    let before = evaluated(rest, values);
    if before.finite() && own.finite() {
        lemma_plus_value(before, own);
    }
}

proof fn lemma_same_prefix(s: SettingView, t: SettingView, values: Seq<Single>, n: nat)
    requires
        s.base == t.base,
        n <= s.inputs.len(),
        n <= t.inputs.len(),
        forall|i: int| 0 <= i < n ==> s.inputs[i] == t.inputs[i],
    ensures
        added(s.base, s.inputs, values, n) == added(t.base, t.inputs, values, n),
    decreases n,
{
    if n > 0 {
        lemma_same_prefix(s, t, values, (n - 1) as nat);
    }
}

} // verus!
