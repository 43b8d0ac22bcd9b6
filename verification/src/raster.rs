use crate::surface::Surface;
use vstd::prelude::*;
use vstd::arithmetic::div_mod::{
    lemma_fundamental_div_mod, lemma_fundamental_div_mod_converse, lemma_mod_bound,
};
use vstd::math::abs;

verus! {

/// Rounded minor coordinate of the ideal segment from (a, fa) to (b, fb),
/// sampled at major coordinate t: the nearest integer to
/// fa + (t - a) * (fb - fa) / (b - a), halves rounding towards the larger
/// minor value.
pub open spec fn minor_at(a: int, fa: int, b: int, fb: int, t: int) -> int
    recommends
        a < b,
        a <= t <= b,
{
    (2 * (fa * (b - t) + fb * (t - a)) + (b - a)) / (2 * (b - a))
}

/// The pixels the rasterizer paints for the segment (x1,y1)-(x2,y2):
/// one pixel per major-axis coordinate between the endpoints, at the rounded
/// minor coordinate of the ideal segment there. The major axis is x when the
/// segment is at most as steep as a diagonal, y otherwise. The definition
/// depends only on the unordered pair of endpoints, so the painted set is
/// the same in both drawing directions.
pub open spec fn on_line(x1: int, y1: int, x2: int, y2: int, px: int, py: int) -> bool {
    if x1 == x2 && y1 == y2 {
        px == x1 && py == y1
    } else if abs(x2 - x1) >= abs(y2 - y1) {
        if x1 <= x2 {
            x1 <= px <= x2 && py == minor_at(x1, y1, x2, y2, px)
        } else {
            x2 <= px <= x1 && py == minor_at(x2, y2, x1, y1, px)
        }
    } else {
        if y1 <= y2 {
            y1 <= py <= y2 && px == minor_at(y1, x1, y2, x2, py)
        } else {
            y2 <= py <= y1 && px == minor_at(y2, x2, y1, x1, py)
        }
    }
}

/// Law: rasterizing a segment is direction-independent. Drawing from
/// (x1,y1) to (x2,y2) paints exactly the pixels of drawing from (x2,y2)
/// to (x1,y1).
pub proof fn lemma_on_line_symmetric(x1: int, y1: int, x2: int, y2: int, px: int, py: int)
    ensures
        on_line(x1, y1, x2, y2, px, py) == on_line(x2, y2, x1, y1, px, py),
{
}

/// Law: both endpoints of a segment are always painted.
pub proof fn lemma_on_line_endpoints(x1: int, y1: int, x2: int, y2: int)
    ensures
        on_line(x1, y1, x2, y2, x1, y1),
        on_line(x1, y1, x2, y2, x2, y2),
{
    if x1 == x2 && y1 == y2 {
    } else if abs(x2 - x1) >= abs(y2 - y1) {
        if x1 <= x2 {
            lemma_minor_at_ends(x1, y1, x2, y2);
        } else {
            lemma_minor_at_ends(x2, y2, x1, y1);
        }
    } else {
        if y1 <= y2 {
            lemma_minor_at_ends(y1, x1, y2, x2);
        } else {
            lemma_minor_at_ends(y2, x2, y1, x1);
        }
    }
}

/// At the endpoints the rounded minor coordinate is exact.
pub proof fn lemma_minor_at_ends(a: int, fa: int, b: int, fb: int)
    ensures
        a < b ==> minor_at(a, fa, b, fb, a) == fa,
        a < b ==> minor_at(a, fa, b, fb, b) == fb,
{
    if a < b {
        let d = b - a;
        assert(2 * (fa * (b - a) + fb * (a - a)) + d == fa * (2 * d) + d) by (nonlinear_arith)
            requires
                d == b - a,
        ;
        lemma_fundamental_div_mod_converse(2 * (fa * (b - a) + fb * (a - a)) + d, 2 * d, fa, d);
        assert(2 * (fa * (b - b) + fb * (b - a)) + d == fb * (2 * d) + d) by (nonlinear_arith)
            requires
                d == b - a,
        ;
        lemma_fundamental_div_mod_converse(2 * (fa * (b - b) + fb * (b - a)) + d, 2 * d, fb, d);
    }
}

/// Number of minor-axis advances after k major steps, when ties at a half
/// advance immediately: floor of k * dm / dd + 1/2.
pub(crate) open spec fn steps_up(dm: int, dd: int, k: int) -> int {
    (2 * k * dm + dd) / (2 * dd)
}

/// Number of minor-axis advances after k major steps, when ties at a half
/// are deferred one step: the same quotient with the midpoint excluded.
pub(crate) open spec fn steps_down(dm: int, dd: int, k: int) -> int {
    (2 * k * dm + dd - 1) / (2 * dd)
}

pub(crate) proof fn lemma_steps_zero(dm: int, dd: int)
    requires
        0 < dd,
    ensures
        steps_up(dm, dd, 0) == 0,
        steps_down(dm, dd, 0) == 0,
{
    assert(2 * 0 * dm + dd == 0 * (2 * dd) + dd) by (nonlinear_arith);
    lemma_fundamental_div_mod_converse(2 * 0 * dm + dd, 2 * dd, 0, dd);
    assert(2 * 0 * dm + dd - 1 == 0 * (2 * dd) + (dd - 1)) by (nonlinear_arith);
    lemma_fundamental_div_mod_converse(2 * 0 * dm + dd - 1, 2 * dd, 0, dd - 1);
}

pub(crate) proof fn lemma_steps_bounds(dm: int, dd: int, k: int)
    requires
        0 < dd,
        0 <= dm <= dd,
        0 <= k <= dd,
    ensures
        0 <= steps_up(dm, dd, k) <= dm,
        0 <= steps_down(dm, dd, k) <= dm,
{
    let x = 2 * k * dm + dd;
    let qu = steps_up(dm, dd, k);
    let qd = steps_down(dm, dd, k);
    lemma_fundamental_div_mod(x, 2 * dd);
    lemma_mod_bound(x, 2 * dd);
    lemma_fundamental_div_mod(x - 1, 2 * dd);
    lemma_mod_bound(x - 1, 2 * dd);
    assert(0 <= 2 * k * dm <= 2 * dd * dm) by (nonlinear_arith)
        requires
            0 <= k <= dd,
            0 <= dm,
    ;
    assert(x == 2 * dd * qu + x % (2 * dd));
    assert(x - 1 == 2 * dd * qd + (x - 1) % (2 * dd));
    assert(0 <= qu <= dm) by (nonlinear_arith)
        requires
            0 < dd,
            0 <= dm,
            0 <= 2 * k * dm <= 2 * dd * dm,
            x == 2 * k * dm + dd,
            x == 2 * dd * qu + x % (2 * dd),
            0 <= x % (2 * dd) < 2 * dd,
    ;
    assert(0 <= qd <= dm) by (nonlinear_arith)
        requires
            0 < dd,
            0 <= dm,
            0 <= 2 * k * dm <= 2 * dd * dm,
            x == 2 * k * dm + dd,
            x - 1 == 2 * dd * qd + (x - 1) % (2 * dd),
            0 <= (x - 1) % (2 * dd) < 2 * dd,
    ;
}

/// One major step changes the advance count by zero or one, decided by the
/// sign of the running error term; ties advance.
pub(crate) proof fn lemma_steps_up_step(dm: int, dd: int, k: int)
    requires
        0 < dd,
        0 <= dm <= dd,
        0 <= k,
    ensures
        steps_up(dm, dd, k + 1) == (if 2 * (k + 1) * dm - 2 * dd * steps_up(dm, dd, k) - dd >= 0 {
            steps_up(dm, dd, k) + 1
        } else {
            steps_up(dm, dd, k)
        }),
{
    let x = 2 * k * dm + dd;
    let q = steps_up(dm, dd, k);
    lemma_fundamental_div_mod(x, 2 * dd);
    lemma_mod_bound(x, 2 * dd);
    let r = x % (2 * dd);
    assert(2 * (k + 1) * dm + dd == x + 2 * dm) by (nonlinear_arith)
        requires
            x == 2 * k * dm + dd,
    ;
    assert(2 * (k + 1) * dm - 2 * dd * q - dd == r + 2 * dm - 2 * dd);
    if r + 2 * dm < 2 * dd {
        lemma_fundamental_div_mod_converse(x + 2 * dm, 2 * dd, q, r + 2 * dm);
    } else {
        assert(x + 2 * dm == 2 * dd * (q + 1) + (r + 2 * dm - 2 * dd)) by (nonlinear_arith)
            requires
                x == 2 * dd * q + r,
        ;
        lemma_fundamental_div_mod_converse(x + 2 * dm, 2 * dd, q + 1, r + 2 * dm - 2 * dd);
    }
}

/// The deferred-tie variant of the step rule: the count advances only when
/// the error term is strictly positive.
pub(crate) proof fn lemma_steps_down_step(dm: int, dd: int, k: int)
    requires
        0 < dd,
        0 <= dm <= dd,
        0 <= k,
    ensures
        steps_down(dm, dd, k + 1) == (if 2 * (k + 1) * dm - 2 * dd * steps_down(dm, dd, k) - dd
            >= 1 {
            steps_down(dm, dd, k) + 1
        } else {
            steps_down(dm, dd, k)
        }),
{
    let x = 2 * k * dm + dd - 1;
    let q = steps_down(dm, dd, k);
    lemma_fundamental_div_mod(x, 2 * dd);
    lemma_mod_bound(x, 2 * dd);
    let r = x % (2 * dd);
    assert(2 * (k + 1) * dm + dd - 1 == x + 2 * dm) by (nonlinear_arith)
        requires
            x == 2 * k * dm + dd - 1,
    ;
    assert(2 * (k + 1) * dm - 2 * dd * q - dd == r + 2 * dm - 2 * dd + 1);
    if r + 2 * dm < 2 * dd {
        lemma_fundamental_div_mod_converse(x + 2 * dm, 2 * dd, q, r + 2 * dm);
    } else {
        assert(x + 2 * dm == 2 * dd * (q + 1) + (r + 2 * dm - 2 * dd)) by (nonlinear_arith)
            requires
                x == 2 * dd * q + r,
        ;
        lemma_fundamental_div_mod_converse(x + 2 * dm, 2 * dd, q + 1, r + 2 * dm - 2 * dd);
    }
}

/// Along a rising segment the rounded minor coordinate is the start plus the
/// tie-advancing step count.
pub(crate) proof fn lemma_minor_at_up(a: int, fa: int, b: int, fb: int, t: int)
    requires
        a < b,
        fa <= fb,
        fb - fa <= b - a,
        a <= t <= b,
    ensures
        minor_at(a, fa, b, fb, t) == fa + steps_up(fb - fa, b - a, t - a),
{
    let dd = b - a;
    let dm = fb - fa;
    let k = t - a;
    let x = 2 * k * dm + dd;
    let q = steps_up(dm, dd, k);
    lemma_fundamental_div_mod(x, 2 * dd);
    lemma_mod_bound(x, 2 * dd);
    let r = x % (2 * dd);
    assert(2 * (fa * (b - t) + fb * (t - a)) + dd == (fa + q) * (2 * dd) + r) by (nonlinear_arith)
        requires
            x == 2 * dd * q + r,
            x == 2 * k * dm + dd,
            dd == b - a,
            dm == fb - fa,
            k == t - a,
    ;
    lemma_fundamental_div_mod_converse(
        2 * (fa * (b - t) + fb * (t - a)) + dd,
        2 * dd,
        fa + q,
        r,
    );
}

/// Along a falling segment the rounded minor coordinate is the start minus
/// the tie-deferring step count.
pub(crate) proof fn lemma_minor_at_down(a: int, fa: int, b: int, fb: int, t: int)
    requires
        a < b,
        fb < fa,
        fa - fb <= b - a,
        a <= t <= b,
    ensures
        minor_at(a, fa, b, fb, t) == fa - steps_down(fa - fb, b - a, t - a),
{
    let dd = b - a;
    let dm = fa - fb;
    let k = t - a;
    let x = 2 * k * dm + dd - 1;
    let q = steps_down(dm, dd, k);
    lemma_fundamental_div_mod(x, 2 * dd);
    lemma_mod_bound(x, 2 * dd);
    let r = x % (2 * dd);
    assert(2 * (fa * (b - t) + fb * (t - a)) + dd == (fa - q) * (2 * dd) + (2 * dd - 1
        - r)) by (nonlinear_arith)
        requires
            x == 2 * dd * q + r,
            x == 2 * k * dm + dd - 1,
            dd == b - a,
            dm == fa - fb,
            k == t - a,
    ;
    lemma_fundamental_div_mod_converse(
        2 * (fa * (b - t) + fb * (t - a)) + dd,
        2 * dd,
        fa - q,
        2 * dd - 1 - r,
    );
}

/// Minor coordinate painted at major coordinate t of an x-major span,
/// including the degenerate single-pixel span.
pub(crate) open spec fn span_minor(a: int, fa: int, b: int, fb: int, t: int) -> int {
    if a == b {
        fa
    } else {
        minor_at(a, fa, b, fb, t)
    }
}

impl Surface {
    /// Paint the rasterized segment from (x1,y1) to (x2,y2); every painted
    /// pixel is exactly one on_line pixel, every other pixel is untouched.
    /// Both endpoints must lie inside the surface.
    pub fn draw_line(&mut self, x1: usize, y1: usize, x2: usize, y2: usize, color: u32)
        requires
            old(self).wf(),
            x1 < old(self).w(),
            y1 < old(self).h(),
            x2 < old(self).w(),
            y2 < old(self).h(),
        ensures
            final(self).wf(),
            final(self).w() == old(self).w(),
            final(self).h() == old(self).h(),
            forall|px: int, py: int|
                0 <= px < final(self).w() && 0 <= py < final(self).h() ==> final(self).pix(px, py)
                    == (if on_line(x1 as int, y1 as int, x2 as int, y2 as int, px, py) {
                    color
                } else {
                    old(self).pix(px, py)
                }),
    {
        let dx = if x2 >= x1 {
            x2 - x1
        } else {
            x1 - x2
        };
        let dy = if y2 >= y1 {
            y2 - y1
        } else {
            y1 - y2
        };
        if dx >= dy {
            if x1 <= x2 {
                self.draw_span_x(x1, y1, x2, y2, color);
            } else {
                self.draw_span_x(x2, y2, x1, y1, color);
                proof {
                    assert forall|px: int, py: int| true implies on_line(
                        x1 as int,
                        y1 as int,
                        x2 as int,
                        y2 as int,
                        px,
                        py,
                    ) == on_line(x2 as int, y2 as int, x1 as int, y1 as int, px, py) by {
                        lemma_on_line_symmetric(x1 as int, y1 as int, x2 as int, y2 as int, px, py);
                    }
                }
            }
        } else {
            if y1 <= y2 {
                self.draw_span_y(x1, y1, x2, y2, color);
            } else {
                self.draw_span_y(x2, y2, x1, y1, color);
                proof {
                    assert forall|px: int, py: int| true implies on_line(
                        x1 as int,
                        y1 as int,
                        x2 as int,
                        y2 as int,
                        px,
                        py,
                    ) == on_line(x2 as int, y2 as int, x1 as int, y1 as int, px, py) by {
                        lemma_on_line_symmetric(x1 as int, y1 as int, x2 as int, y2 as int, px, py);
                    }
                }
            }
        }
    }

    /// Bresenham walk along x for a span that is at most as steep as a
    /// diagonal, already ordered so that x increases.
    fn draw_span_x(&mut self, xa: usize, ya: usize, xb: usize, yb: usize, color: u32)
        requires
            old(self).wf(),
            xa <= xb,
            xb < old(self).w(),
            ya < old(self).h(),
            yb < old(self).h(),
            xb - xa >= (if yb >= ya {
                yb - ya
            } else {
                ya - yb
            }),
        ensures
            final(self).wf(),
            final(self).w() == old(self).w(),
            final(self).h() == old(self).h(),
            forall|px: int, py: int|
                0 <= px < final(self).w() && 0 <= py < final(self).h() ==> final(self).pix(px, py)
                    == (if on_line(xa as int, ya as int, xb as int, yb as int, px, py) {
                    color
                } else {
                    old(self).pix(px, py)
                }),
    {
        if xa == xb {
            self.set_pixel(xa, ya, color);
            return ;
        }
        let dd = xb - xa;
        let up = yb >= ya;
        let dm = if up {
            yb - ya
        } else {
            ya - yb
        };
        let thr: i128 = if up {
            0
        } else {
            1
        };
        let mut f: i128 = 2 * (dm as i128) - (dd as i128);
        let mut x = xa;
        let mut y = ya;
        self.set_pixel(x, y, color);
        proof {
            lemma_minor_at_ends(xa as int, ya as int, xb as int, yb as int);
            lemma_steps_zero(dm as int, dd as int);
        }
        while x < xb
            invariant
                self.wf(),
                self.w() == old(self).w(),
                self.h() == old(self).h(),
                xa <= x <= xb,
                xa < xb,
                xb < self.w(),
                ya < self.h(),
                yb < self.h(),
                dd == xb - xa,
                up == (yb >= ya),
                dm == (if up {
                    yb - ya
                } else {
                    ya - yb
                }),
                dm <= dd,
                thr == (if up {
                    0int
                } else {
                    1int
                }),
                (if up {
                    ya <= y <= yb && y == ya + steps_up(dm as int, dd as int, x - xa)
                } else {
                    yb <= y <= ya && y == ya - steps_down(dm as int, dd as int, x - xa)
                }),
                f == 2 * (x - xa + 1) * (dm as int) - 2 * (dd as int) * (if up {
                    y - ya
                } else {
                    ya - y
                }) - (dd as int),
                -2 * (dd as int) <= f <= 2 * (dd as int) + 1,
                forall|px: int, py: int|
                    0 <= px < self.w() && 0 <= py < self.h() ==> self.pix(px, py) == (if xa <= px
                        <= x && py == span_minor(xa as int, ya as int, xb as int, yb as int, px) {
                        color
                    } else {
                        old(self).pix(px, py)
                    }),
            decreases xb - x,
        {
            let ghost k = x - xa;
            let ghost q: int = if up {
                y - ya
            } else {
                ya - y
            };
            proof {
                if up {
                    lemma_steps_up_step(dm as int, dd as int, k);
                } else {
                    lemma_steps_down_step(dm as int, dd as int, k);
                }
                lemma_steps_bounds(dm as int, dd as int, k + 1);
                assert(2 * (k + 1 + 1) * (dm as int) == 2 * (k + 1) * (dm as int) + 2 * (
                dm as int)) by (nonlinear_arith);
                assert(2 * (dd as int) * (q + 1) == 2 * (dd as int) * q + 2 * (
                dd as int)) by (nonlinear_arith);
            }
            if f >= thr {
                if up {
                    y = y + 1;
                } else {
                    y = y - 1;
                }
                f = f + 2 * (dm as i128) - 2 * (dd as i128);
            } else {
                f = f + 2 * (dm as i128);
            }
            x = x + 1;
            self.set_pixel(x, y, color);
            proof {
                if up {
                    lemma_minor_at_up(xa as int, ya as int, xb as int, yb as int, x as int);
                } else {
                    lemma_minor_at_down(xa as int, ya as int, xb as int, yb as int, x as int);
                }
            }
        }
        proof {
            assert forall|px: int, py: int|
                0 <= px < self.w() && 0 <= py < self.h() implies self.pix(px, py) == (if on_line(
                xa as int,
                ya as int,
                xb as int,
                yb as int,
                px,
                py,
            ) {
                color
            } else {
                old(self).pix(px, py)
            }) by {
                assert(abs(xb as int - xa as int) >= abs(yb as int - ya as int));
            }
        }
    }

    /// Bresenham walk along y for a span steeper than a diagonal, already
    /// ordered so that y increases.
    fn draw_span_y(&mut self, xa: usize, ya: usize, xb: usize, yb: usize, color: u32)
        requires
            old(self).wf(),
            ya <= yb,
            yb < old(self).h(),
            xa < old(self).w(),
            xb < old(self).w(),
            yb - ya > (if xb >= xa {
                xb - xa
            } else {
                xa - xb
            }),
        ensures
            final(self).wf(),
            final(self).w() == old(self).w(),
            final(self).h() == old(self).h(),
            forall|px: int, py: int|
                0 <= px < final(self).w() && 0 <= py < final(self).h() ==> final(self).pix(px, py)
                    == (if on_line(xa as int, ya as int, xb as int, yb as int, px, py) {
                    color
                } else {
                    old(self).pix(px, py)
                }),
    {
        let dd = yb - ya;
        let up = xb >= xa;
        let dm = if up {
            xb - xa
        } else {
            xa - xb
        };
        let thr: i128 = if up {
            0
        } else {
            1
        };
        let mut f: i128 = 2 * (dm as i128) - (dd as i128);
        let mut x = xa;
        let mut y = ya;
        self.set_pixel(x, y, color);
        proof {
            lemma_minor_at_ends(ya as int, xa as int, yb as int, xb as int);
            lemma_steps_zero(dm as int, dd as int);
        }
        while y < yb
            invariant
                self.wf(),
                self.w() == old(self).w(),
                self.h() == old(self).h(),
                ya <= y <= yb,
                ya < yb,
                yb < self.h(),
                xa < self.w(),
                xb < self.w(),
                dd == yb - ya,
                up == (xb >= xa),
                dm == (if up {
                    xb - xa
                } else {
                    xa - xb
                }),
                dm < dd,
                thr == (if up {
                    0int
                } else {
                    1int
                }),
                (if up {
                    xa <= x <= xb && x == xa + steps_up(dm as int, dd as int, y - ya)
                } else {
                    xb <= x <= xa && x == xa - steps_down(dm as int, dd as int, y - ya)
                }),
                f == 2 * (y - ya + 1) * (dm as int) - 2 * (dd as int) * (if up {
                    x - xa
                } else {
                    xa - x
                }) - (dd as int),
                -2 * (dd as int) <= f <= 2 * (dd as int) + 1,
                forall|px: int, py: int|
                    0 <= px < self.w() && 0 <= py < self.h() ==> self.pix(px, py) == (if ya <= py
                        <= y && px == span_minor(ya as int, xa as int, yb as int, xb as int, py) {
                        color
                    } else {
                        old(self).pix(px, py)
                    }),
            decreases yb - y,
        {
            let ghost k = y - ya;
            let ghost q: int = if up {
                x - xa
            } else {
                xa - x
            };
            proof {
                if up {
                    lemma_steps_up_step(dm as int, dd as int, k);
                } else {
                    lemma_steps_down_step(dm as int, dd as int, k);
                }
                lemma_steps_bounds(dm as int, dd as int, k + 1);
                assert(2 * (k + 1 + 1) * (dm as int) == 2 * (k + 1) * (dm as int) + 2 * (
                dm as int)) by (nonlinear_arith);
                assert(2 * (dd as int) * (q + 1) == 2 * (dd as int) * q + 2 * (
                dd as int)) by (nonlinear_arith);
            }
            if f >= thr {
                if up {
                    x = x + 1;
                } else {
                    x = x - 1;
                }
                f = f + 2 * (dm as i128) - 2 * (dd as i128);
            } else {
                f = f + 2 * (dm as i128);
            }
            y = y + 1;
            self.set_pixel(x, y, color);
            proof {
                if up {
                    lemma_minor_at_up(ya as int, xa as int, yb as int, xb as int, y as int);
                } else {
                    lemma_minor_at_down(ya as int, xa as int, yb as int, xb as int, y as int);
                }
            }
        }
        proof {
            assert forall|px: int, py: int|
                0 <= px < self.w() && 0 <= py < self.h() implies self.pix(px, py) == (if on_line(
                xa as int,
                ya as int,
                xb as int,
                yb as int,
                px,
                py,
            ) {
                color
            } else {
                old(self).pix(px, py)
            }) by {
                assert(abs(xb as int - xa as int) < abs(yb as int - ya as int));
            }
        }
    }
}


} // verus!
