//! Integer incremental-error line rasterization.
//!
//! [`trace_line`] yields the discrete pixel path between two integer points:
//! the axis with the larger absolute delta advances one unit per step, and
//! the other axis accumulates an error term that steps it one unit whenever
//! the accumulated fraction crosses the half-step threshold. Both endpoints
//! are included; equal endpoints yield a single point. The tie at an exact
//! half step falls with the driving direction, so that tracing a segment
//! from either end visits the same points, in opposite order.

use vstd::prelude::*;

verus! {

/// A device coordinate.
pub type Coord = i64;

/// A device point.
pub type Vec2 = (Coord, Coord);

/// The mathematical value of a device point.
pub open spec fn vec2_model(p: Vec2) -> (int, int) {
    (p.0 as int, p.1 as int)
}

/// The mathematical values of a sequence of device points.
pub open spec fn points_model(s: Seq<Vec2>) -> Seq<(int, int)> {
    Seq::new(s.len(), |k: int| vec2_model(s[k]))
}

/// Absolute value.
pub open spec fn iabs(x: int) -> int {
    if x < 0 {
        -x
    } else {
        x
    }
}

/// Sign, in `{-1, 0, 1}`.
pub open spec fn sgn(x: int) -> int {
    if x > 0 {
        1
    } else if x < 0 {
        -1
    } else {
        0
    }
}

/// How many points the traced path between `a` and `b` holds: one per unit
/// along the driving axis, plus the starting point.
pub open spec fn line_len(a: (int, int), b: (int, int)) -> int {
    if iabs(b.0 - a.0) >= iabs(b.1 - a.1) {
        iabs(b.0 - a.0) + 1
    } else {
        iabs(b.1 - a.1) + 1
    }
}

/// How many unit steps the minor axis has taken after `k` driving-axis steps
/// of a line with driving delta `n` and minor delta `m`: the minor fraction
/// `k * m / n` rounded to the nearest integer, an exact half rounding up when
/// `tie_up` holds and down otherwise.
pub open spec fn minor_steps(k: int, m: int, n: int, tie_up: bool) -> int {
    if n <= 0 {
        0
    } else if tie_up {
        (2 * k * m + n) / (2 * n)
    } else {
        (2 * k * m + n - 1) / (2 * n)
    }
}

/// The `k`-th point of the traced path from `a` to `b`. The tie direction
/// follows the driving-axis sign, so the path read backwards is exactly the
/// path of the reversed segment.
pub open spec fn line_point(a: (int, int), b: (int, int), k: int) -> (int, int) {
    let dx = b.0 - a.0;
    let dy = b.1 - a.1;
    if iabs(dx) >= iabs(dy) {
        (a.0 + k * sgn(dx), a.1 + sgn(dy) * minor_steps(k, iabs(dy), iabs(dx), dx > 0))
    } else {
        (a.0 + sgn(dx) * minor_steps(k, iabs(dx), iabs(dy), dy > 0), a.1 + k * sgn(dy))
    }
}

/// The whole traced path from `a` to `b`.
pub open spec fn line_points(a: (int, int), b: (int, int)) -> Seq<(int, int)> {
    Seq::new(line_len(a, b) as nat, |k: int| line_point(a, b, k))
}

/// The minor axis never outruns its delta: after `k` of `n` driving steps it
/// has taken between `0` and `m` unit steps.
pub proof fn lemma_minor_steps_bounds(k: int, m: int, n: int, tie_up: bool)
    requires
        0 <= m <= n,
        1 <= n,
        0 <= k <= n,
    ensures
        0 <= minor_steps(k, m, n, tie_up) <= m,
{
    let num = if tie_up {
        2 * k * m + n
    } else {
        2 * k * m + n - 1
    };
    assert(2 * k * m >= 0) by {
        vstd::arithmetic::mul::lemma_mul_nonnegative(2 * k, m);
    }
    assert(num >= 0);
    vstd::arithmetic::div_mod::lemma_div_pos_is_pos(num, 2 * n);
    assert(2 * k * m <= 2 * n * m) by {
        vstd::arithmetic::mul::lemma_mul_inequality(2 * k, 2 * n, m);
    }
    assert(2 * n * m + n == (2 * n) * m + n) by (nonlinear_arith);
    vstd::arithmetic::div_mod::lemma_fundamental_div_mod_converse_div((2 * n) * m + n, 2 * n, m, n);
    assert((2 * n * m + n) / (2 * n) == m);
    vstd::arithmetic::div_mod::lemma_div_is_ordered(num, 2 * n * m + n, 2 * n);
}

/// One driving step advances the minor axis by one exactly when the doubled
/// error accumulator `2*k*m - 2*n*j` crosses the half-step threshold, at
/// which point it is pulled back by the driving delta. The accumulator stays
/// within one driving delta of zero.
pub proof fn lemma_minor_steps_succ(k: int, m: int, n: int, tie_up: bool)
    requires
        0 <= m <= n,
        1 <= n,
        0 <= k < n,
    ensures
        ({
            let j = minor_steps(k, m, n, tie_up);
            let acc = 2 * k * m - 2 * n * j;
            let stepped: bool = if tie_up {
                acc + 2 * m >= n
            } else {
                acc + 2 * m > n
            };
            &&& minor_steps(k + 1, m, n, tie_up) == j + (if stepped {
                1int
            } else {
                0int
            })
            &&& -n <= acc <= n + 1
        }),
{
    let j = minor_steps(k, m, n, tie_up);
    let num = if tie_up {
        2 * k * m + n
    } else {
        2 * k * m + n - 1
    };
    vstd::arithmetic::div_mod::lemma_fundamental_div_mod(num, 2 * n);
    vstd::arithmetic::div_mod::lemma_mod_division_less_than_divisor(num, 2 * n);
    let r = num % (2 * n);
    assert(j * (2 * n) == 2 * n * j) by (nonlinear_arith);
    assert((j + 1) * (2 * n) == 2 * n * j + 2 * n) by (nonlinear_arith);
    assert(num == j * (2 * n) + r);
    assert(2 * (k + 1) * m == 2 * k * m + 2 * m) by (nonlinear_arith);
    let num2 = num + 2 * m;
    if r + 2 * m < 2 * n {
        vstd::arithmetic::div_mod::lemma_fundamental_div_mod_converse_div(num2, 2 * n, j, r + 2 * m);
    } else {
        vstd::arithmetic::div_mod::lemma_fundamental_div_mod_converse_div(
            num2,
            2 * n,
            j + 1,
            r + 2 * m - 2 * n,
        );
    }
}

/// The doubled error accumulator stays within one driving delta of zero.
pub proof fn lemma_minor_steps_acc(k: int, m: int, n: int, tie_up: bool)
    requires
        0 <= m <= n,
        1 <= n,
        0 <= k,
    ensures
        -n <= 2 * k * m - 2 * n * minor_steps(k, m, n, tie_up) <= n + 1,
{
    let num = if tie_up {
        2 * k * m + n
    } else {
        2 * k * m + n - 1
    };
    vstd::arithmetic::div_mod::lemma_fundamental_div_mod(num, 2 * n);
    vstd::arithmetic::div_mod::lemma_mod_division_less_than_divisor(num, 2 * n);
    let j = minor_steps(k, m, n, tie_up);
    assert(j * (2 * n) == 2 * n * j) by (nonlinear_arith);
}

/// At the start nothing has accumulated: the minor axis has taken no steps.
pub proof fn lemma_minor_steps_zero(m: int, n: int, tie_up: bool)
    requires
        0 <= m <= n,
    ensures
        minor_steps(0, m, n, tie_up) == 0,
{
    if n >= 1 {
        assert(2 * 0 * m == 0) by (nonlinear_arith);
        if tie_up {
            vstd::arithmetic::div_mod::lemma_basic_div(n, 2 * n);
        } else {
            vstd::arithmetic::div_mod::lemma_basic_div(n - 1, 2 * n);
        }
    }
}

/// Every traced point lies in the box the segment spans.
pub proof fn lemma_line_point_in_box(a: (int, int), b: (int, int), k: int)
    requires
        0 <= k < line_len(a, b),
    ensures
        vstd::math::min(a.0, b.0) <= line_point(a, b, k).0 <= vstd::math::max(a.0, b.0),
        vstd::math::min(a.1, b.1) <= line_point(a, b, k).1 <= vstd::math::max(a.1, b.1),
{
    let dx = b.0 - a.0;
    let dy = b.1 - a.1;
    if iabs(dx) >= iabs(dy) {
        let n = iabs(dx);
        let m = iabs(dy);
        if n >= 1 {
            lemma_minor_steps_bounds(k, m, n, dx > 0);
        }
    } else {
        let n = iabs(dy);
        let m = iabs(dx);
        lemma_minor_steps_bounds(k, m, n, dy > 0);
    }
}

/// After all `n` driving steps the minor axis has taken all of its own.
proof fn lemma_minor_steps_full(m: int, n: int, tie_up: bool)
    requires
        0 <= m <= n,
        1 <= n,
    ensures
        minor_steps(n, m, n, tie_up) == m,
{
    assert(2 * n * m + n == m * (2 * n) + n) by (nonlinear_arith);
    assert(2 * n * m + n - 1 == m * (2 * n) + (n - 1)) by (nonlinear_arith);
    if tie_up {
        vstd::arithmetic::div_mod::lemma_fundamental_div_mod_converse_div(
            2 * n * m + n,
            2 * n,
            m,
            n,
        );
    } else {
        vstd::arithmetic::div_mod::lemma_fundamental_div_mod_converse_div(
            2 * n * m + n - 1,
            2 * n,
            m,
            n - 1,
        );
    }
}

/// A traced path includes both of its endpoints: it starts at `a` and, one
/// driving step at a time, ends exactly at `b`.
pub proof fn lemma_trace_endpoints(a: (int, int), b: (int, int))
    ensures
        line_len(a, b) >= 1,
        line_point(a, b, 0) == a,
        line_point(a, b, line_len(a, b) - 1) == b,
{
    let dx = b.0 - a.0;
    let dy = b.1 - a.1;
    lemma_sgn_abs(dx);
    lemma_sgn_abs(dy);
    assert(0 * sgn(dx) == 0 && 0 * sgn(dy) == 0) by (nonlinear_arith);
    assert(sgn(dx) * 0 == 0 && sgn(dy) * 0 == 0) by (nonlinear_arith);
    if iabs(dx) >= iabs(dy) {
        let n = iabs(dx);
        let m = iabs(dy);
        lemma_minor_steps_zero(m, n, dx > 0);
        if n >= 1 {
            lemma_minor_steps_full(m, n, dx > 0);
            assert(n * sgn(dx) == sgn(dx) * n) by (nonlinear_arith);
        }
    } else {
        let n = iabs(dy);
        let m = iabs(dx);
        lemma_minor_steps_zero(m, n, dy > 0);
        lemma_minor_steps_full(m, n, dy > 0);
        assert(n * sgn(dy) == sgn(dy) * n) by (nonlinear_arith);
    }
}

/// Rounding the minor fraction half-down walking one way mirrors rounding it
/// half-up walking the other way.
proof fn lemma_minor_reverse(k: int, m: int, n: int)
    requires
        0 <= m <= n,
        1 <= n,
        0 <= k <= n,
    ensures
        minor_steps(k, m, n, false) == m - minor_steps(n - k, m, n, true),
{
    let q = minor_steps(k, m, n, false);
    let num = 2 * k * m + n - 1;
    vstd::arithmetic::div_mod::lemma_fundamental_div_mod(num, 2 * n);
    vstd::arithmetic::div_mod::lemma_mod_division_less_than_divisor(num, 2 * n);
    let r = num % (2 * n);
    assert(q * (2 * n) == 2 * n * q) by (nonlinear_arith);
    assert(num == q * (2 * n) + r);
    assert(2 * (n - k) * m == 2 * n * m - 2 * k * m) by (nonlinear_arith);
    assert((m - q) * (2 * n) == 2 * n * m - 2 * n * q) by (nonlinear_arith);
    assert(2 * (n - k) * m + n == (m - q) * (2 * n) + (2 * n - 1 - r));
    vstd::arithmetic::div_mod::lemma_fundamental_div_mod_converse_div(
        2 * (n - k) * m + n,
        2 * n,
        m - q,
        2 * n - 1 - r,
    );
}

/// A sign times its own absolute value is the signed value back.
proof fn lemma_sgn_abs(x: int)
    ensures
        sgn(x) * iabs(x) == x,
        sgn(-x) == -sgn(x),
        iabs(-x) == iabs(x),
{
    if x > 0 {
        assert(1 * x == x) by (nonlinear_arith);
    } else if x < 0 {
        assert((-1) * (-x) == x) by (nonlinear_arith);
    } else {
        assert(0 * 0 == 0) by (nonlinear_arith);
    }
}

/// Walking `k` driving steps back from `b` lands where `n - k` driving steps
/// forward from `a` land.
proof fn lemma_mirror_coord(base_a: int, base_b: int, d: int, k: int, n: int)
    requires
        n == iabs(d),
        base_b == base_a + d,
    ensures
        base_b + k * sgn(-d) == base_a + (n - k) * sgn(d),
{
    lemma_sgn_abs(d);
    assert(sgn(d) * n == n * sgn(d)) by (nonlinear_arith);
    assert((n - k) * sgn(d) == n * sgn(d) - k * sgn(d)) by (nonlinear_arith);
    assert(k * sgn(-d) == -(k * sgn(d))) by (nonlinear_arith)
        requires
            sgn(-d) == -sgn(d),
    ;
}

/// Backing the minor axis `jr` steps off `b` lands where advancing it
/// `jf = m - jr` steps off `a` lands.
proof fn lemma_mirror_minor(base_a: int, base_b: int, d: int, m: int, jr: int, jf: int)
    requires
        m == iabs(d),
        base_b == base_a + d,
        jr == m - jf,
    ensures
        base_b + sgn(-d) * jr == base_a + sgn(d) * jf,
{
    lemma_sgn_abs(d);
    assert(sgn(d) * m == m * sgn(d)) by (nonlinear_arith);
    assert(sgn(-d) * jr == -(sgn(d) * m) + sgn(d) * jf) by (nonlinear_arith)
        requires
            sgn(-d) == -sgn(d) && jr == m - jf,
    ;
}

/// The `k`-th point of the reversed segment is the `k`-th point from the end
/// of the forward segment.
pub proof fn lemma_line_point_reverse(a: (int, int), b: (int, int), k: int)
    requires
        0 <= k < line_len(a, b),
    ensures
        line_len(b, a) == line_len(a, b),
        line_point(b, a, k) == line_point(a, b, line_len(a, b) - 1 - k),
{
    let dx = b.0 - a.0;
    let dy = b.1 - a.1;
    lemma_sgn_abs(dx);
    lemma_sgn_abs(dy);
    if iabs(dx) >= iabs(dy) {
        let n = iabs(dx);
        let m = iabs(dy);
        let kk = n - k;
        let tie_f = dx > 0;
        let tie_r = -dx > 0;
        let jf = minor_steps(kk, m, n, tie_f);
        let jr = minor_steps(k, m, n, tie_r);
        if n == 0 {
            assert(jr == m - jf);
        } else if dx > 0 {
            lemma_minor_reverse(k, m, n);
            assert(jr == m - jf);
        } else {
            lemma_minor_reverse(kk, m, n);
            assert(jr == m - jf);
        }
        lemma_mirror_coord(a.0, b.0, dx, k, n);
        lemma_mirror_minor(a.1, b.1, dy, m, jr, jf);
        assert(line_point(b, a, k).0 == line_point(a, b, kk).0);
        assert(line_point(b, a, k).1 == line_point(a, b, kk).1);
    } else {
        let n = iabs(dy);
        let m = iabs(dx);
        let kk = n - k;
        let tie_f = dy > 0;
        let tie_r = -dy > 0;
        let jf = minor_steps(kk, m, n, tie_f);
        let jr = minor_steps(k, m, n, tie_r);
        if dy > 0 {
            lemma_minor_reverse(k, m, n);
            assert(jr == m - jf);
        } else {
            lemma_minor_reverse(kk, m, n);
            assert(jr == m - jf);
        }
        lemma_mirror_coord(a.1, b.1, dy, k, n);
        lemma_mirror_minor(a.0, b.0, dx, m, jr, jf);
        assert(line_point(b, a, k).1 == line_point(a, b, kk).1);
        assert(line_point(b, a, k).0 == line_point(a, b, kk).0);
    }
}

/// Tracing a segment from either end is the same walk in opposite order: the
/// reversed path of `a` to `b` is exactly the path of `b` to `a`, and both
/// visit the same set of points.
pub proof fn lemma_trace_reversible(a: (int, int), b: (int, int))
    ensures
        line_points(b, a) == line_points(a, b).reverse(),
        line_points(b, a).to_set() == line_points(a, b).to_set(),
{
    let fwd = line_points(a, b);
    let rev = line_points(b, a);
    let len = line_len(a, b);
    assert forall|k: int| 0 <= k < len implies rev[k] == fwd.reverse()[k] by {
        lemma_line_point_reverse(a, b, k);
    }
    assert(line_len(b, a) == len) by {
        lemma_line_point_reverse(a, b, 0);
    }
    assert(rev =~= fwd.reverse());
    assert forall|x: (int, int)| rev.to_set().contains(x) implies fwd.to_set().contains(x) by {
        let i = choose|i: int| 0 <= i < rev.len() && rev[i] == x;
        assert(fwd[len - 1 - i] == x);
    }
    assert forall|x: (int, int)| fwd.to_set().contains(x) implies rev.to_set().contains(x) by {
        let i = choose|i: int| 0 <= i < fwd.len() && fwd[i] == x;
        assert(rev[len - 1 - i] == x);
    }
    assert(rev.to_set() =~= fwd.to_set());
}

/// Trace the pixel path from `a` to `b`, both endpoints included. The path
/// holds [`line_len`] points and its `k`-th point is [`line_point`]`(k)`; a
/// degenerate segment yields its one point. The length bound keeps the
/// result addressable as a vector.
pub fn trace_line(a: Vec2, b: Vec2) -> (r: Vec<Vec2>)
    requires
        line_len(vec2_model(a), vec2_model(b)) <= usize::MAX as int,
    ensures
        points_model(r@) == line_points(vec2_model(a), vec2_model(b)),
        r@.len() == line_len(vec2_model(a), vec2_model(b)),
{
    let ghost ma = vec2_model(a);
    let ghost mb = vec2_model(b);
    let ax: i128 = a.0 as i128;
    let ay: i128 = a.1 as i128;
    let bx: i128 = b.0 as i128;
    let by: i128 = b.1 as i128;
    let dx: i128 = bx - ax;
    let dy: i128 = by - ay;
    let adx: i128 = if dx < 0 {
        -dx
    } else {
        dx
    };
    let ady: i128 = if dy < 0 {
        -dy
    } else {
        dy
    };
    let drive_x: bool = adx >= ady;
    let n: i128 = if drive_x {
        adx
    } else {
        ady
    };
    let m: i128 = if drive_x {
        ady
    } else {
        adx
    };
    let sx: i128 = if dx > 0 {
        1
    } else if dx < 0 {
        -1
    } else {
        0
    };
    let sy: i128 = if dy > 0 {
        1
    } else if dy < 0 {
        -1
    } else {
        0
    };
    let tie_up: bool = if drive_x {
        dx > 0
    } else {
        dy > 0
    };
    proof {
        assert(n as int + 1 == line_len(ma, mb));
    }
    let steps: usize = n as usize;
    let count: usize = steps + 1;
    let mut out: Vec<Vec2> = Vec::new();
    let mut j: i128 = 0;
    let mut acc: i128 = 0;
    proof {
        lemma_minor_steps_zero(m as int, n as int, tie_up);
        assert(2 * 0 * (m as int) == 0 && 2 * (n as int) * 0 == 0) by (nonlinear_arith);
    }
    let mut k: usize = 0;
    while k < count
        invariant
            k <= count,
            count == steps + 1,
            steps == n,
            0 <= m <= n,
            n as int + 1 == line_len(ma, mb),
            ma == vec2_model(a),
            mb == vec2_model(b),
            ax == a.0 as int && ay == a.1 as int && bx == b.0 as int && by == b.1 as int,
            dx == bx - ax && dy == by - ay,
            sx == sgn(dx as int) && sy == sgn(dy as int),
            drive_x == (iabs(dx as int) >= iabs(dy as int)),
            n == (if drive_x {
                iabs(dx as int)
            } else {
                iabs(dy as int)
            }),
            m == (if drive_x {
                iabs(dy as int)
            } else {
                iabs(dx as int)
            }),
            tie_up == (if drive_x {
                dx > 0
            } else {
                dy > 0
            }),
            k < count ==> j == minor_steps(k as int, m as int, n as int, tie_up),
            k < count ==> acc == 2 * (k as int) * (m as int) - 2 * (n as int) * j,
            -(n as int) <= acc <= n as int + 1,
            0 <= j <= m,
            out@.len() == k,
            forall|i: int|
                0 <= i < k ==> vec2_model(#[trigger] out@[i]) == line_point(ma, mb, i),
        decreases count - k,
    {
        let px: i128 = if drive_x {
            ax + sx * (k as i128)
        } else {
            ax + sx * j
        };
        let py: i128 = if drive_x {
            ay + sy * j
        } else {
            ay + sy * (k as i128)
        };
        proof {
            assert((px as int, py as int) == line_point(ma, mb, k as int));
            lemma_line_point_in_box(ma, mb, k as int);
        }
        out.push((px as i64, py as i64));
        if k + 1 < count {
            proof {
                lemma_minor_steps_succ(k as int, m as int, n as int, tie_up);
                assert(2 * (k as int + 1) * (m as int) == 2 * (k as int) * (m as int) + 2 * (
                m as int)) by (nonlinear_arith);
                assert(2 * (n as int) * (j as int + 1) == 2 * (n as int) * (j as int) + 2 * (
                n as int)) by (nonlinear_arith);
            }
            acc = acc + 2 * m;
            let stepped: bool = if tie_up {
                acc >= n
            } else {
                acc > n
            };
            if stepped {
                j = j + 1;
                acc = acc - 2 * n;
            }
            proof {
                lemma_minor_steps_bounds(k as int + 1, m as int, n as int, tie_up);
                lemma_minor_steps_acc(k as int + 1, m as int, n as int, tie_up);
            }
        }
        k = k + 1;
    }
    proof {
        assert(points_model(out@) =~= line_points(ma, mb));
    }
    out
}

} // verus!
