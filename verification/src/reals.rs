//! Real numbers: powers, and the facts about products and orders that laws on signals need.

use vstd::prelude::*;

verus! {

/// `x`, multiplied by itself.
pub open spec fn square(x: real) -> real {
    x * x
}

/// `x` to the power of `n`.
pub open spec fn power(x: real, n: nat) -> real
    decreases n,
{
    if n == 0 {
        1real
    } else {
        x * power(x, (n - 1) as nat)
    }
}

/// Factors can be exchanged.
pub proof fn lemma_commute(x: real, y: real)
    by (nonlinear_arith)
    ensures
        x * y == y * x,
{
}

/// Products can be regrouped.
pub proof fn lemma_associate(x: real, y: real, z: real)
    by (nonlinear_arith)
    ensures
        (x * y) * z == x * (y * z),
{
}

/// A factor distributes over a sum and a difference.
pub proof fn lemma_distribute(x: real, y: real, z: real)
    by (nonlinear_arith)
    ensures
        x * (y + z) == x * y + x * z,
        x * (y - z) == x * y - x * z,
{
}

/// The sign of a factor is that of the product.
pub proof fn lemma_signs(x: real, y: real)
    by (nonlinear_arith)
    ensures
        x * (-y) == -(x * y),
        (-x) * y == -(x * y),
{
}

/// A product of positive numbers is positive.
pub proof fn lemma_positive(x: real, y: real)
    by (nonlinear_arith)
    requires
        x > 0real,
        y > 0real,
    ensures
        x * y > 0real,
{
}

/// A square is not negative, and that of a number other than 0 is positive.
pub proof fn lemma_square(x: real)
    ensures
        x * x >= 0real,
        x != 0real ==> x * x > 0real,
{
    if x > 0real {
        lemma_positive(x, x);
    } else if x < 0real {
        lemma_positive(-x, -x);
        lemma_signs(-x, x);
        lemma_signs(x, x);
    }
}

/// The middle factors of four can be exchanged.
proof fn lemma_regroup(p: real, q: real, r: real, s: real)
    ensures
        (p * q) * (r * s) == (p * r) * (q * s),
{
    lemma_associate(p * q, r, s);
    lemma_associate(p, q, r);
    lemma_commute(q, r);
    lemma_associate(p, r, q);
    lemma_associate(p * r, q, s);
}

/// A product of sums, written out.
proof fn lemma_expand(x: real, y: real, z: real, w: real)
    ensures
        (x + y) * (z + w) == x * z + x * w + y * z + y * w,
{
    lemma_distribute(x + y, z, w);
    lemma_commute(x + y, z);
    lemma_commute(x + y, w);
    lemma_distribute(z, x, y);
    lemma_distribute(w, x, y);
    lemma_commute(z, x);
    lemma_commute(z, y);
    lemma_commute(w, x);
    lemma_commute(w, y);
}

/// Products with differences, written out.
proof fn lemma_expand_difference(x: real, y: real, z: real, w: real)
    ensures
        (x - y) * (z + w) == x * z + x * w - y * z - y * w,
        (x + w) * (z - y) == x * z - x * y + w * z - w * y,
        (x - y) * (z - w) == x * z - x * w - y * z + y * w,
{
    lemma_expand(x, -y, z, w);
    lemma_signs(y, z);
    lemma_signs(y, w);
    lemma_expand(x, w, z, -y);
    lemma_signs(x, y);
    lemma_signs(w, y);
    lemma_expand(x, -y, z, -w);
    lemma_signs(x, w);
    lemma_signs(y, -w);
    assert(x + (-y) == x - y);
    assert(z + (-y) == z - y);
    assert(z + (-w) == z - w);
}

/// For complex numbers with the parts `a`, `b` and `c`, `d`, both multiplied by one with the
/// parts `re` and `im`, the product of the first's conjugate and the second is multiplied by the
/// square of that one's absolute value.
pub proof fn lemma_multiplied(re: real, im: real, a: real, b: real, c: real, d: real)
    ensures
        (re * a - im * b) * (re * c - im * d) + (re * b + im * a) * (re * d + im * c) == (re * re
            + im * im) * (a * c + b * d),
        (re * a - im * b) * (re * d + im * c) - (re * b + im * a) * (re * c - im * d) == (re * re
            + im * im) * (a * d - b * c),
{
    let rr = re * re;
    let ii = im * im;
    lemma_commute(re, im);
    lemma_expand_difference(re * a, im * b, re * c, im * d);
    lemma_expand(re * b, im * a, re * d, im * c);
    lemma_expand_difference(re * a, im * b, re * d, im * c);
    lemma_expand_difference(re * b, im * d, re * c, im * a);
    lemma_regroup(re, a, re, c);
    lemma_regroup(re, a, im, d);
    lemma_regroup(im, b, re, c);
    lemma_regroup(im, b, im, d);
    lemma_regroup(re, b, re, d);
    lemma_regroup(re, b, im, c);
    lemma_regroup(im, a, re, d);
    lemma_regroup(im, a, im, c);
    lemma_regroup(re, a, re, d);
    lemma_regroup(re, a, im, c);
    lemma_regroup(im, b, re, d);
    lemma_regroup(im, b, im, c);
    lemma_regroup(re, b, re, c);
    lemma_regroup(re, b, im, d);
    lemma_regroup(im, a, re, c);
    lemma_regroup(im, a, im, d);
    lemma_expand(rr, ii, a * c, b * d);
    lemma_distribute(rr + ii, a * d, b * c);
    lemma_commute(rr + ii, a * d);
    lemma_commute(rr + ii, b * c);
    lemma_distribute(a * d, rr, ii);
    lemma_distribute(b * c, rr, ii);
    lemma_commute(a * d, rr);
    lemma_commute(a * d, ii);
    lemma_commute(b * c, rr);
    lemma_commute(b * c, ii);
}

/// A product with 0 is 0.
pub proof fn lemma_zero(x: real, y: real)
    by (nonlinear_arith)
    requires
        x == 0real,
    ensures
        x * y == 0real,
{
}

/// A product with 1 is the other factor.
pub proof fn lemma_one(x: real, y: real)
    by (nonlinear_arith)
    requires
        x == 1real,
    ensures
        x * y == y,
{
}

/// A quotient times the divisor.
pub proof fn lemma_divide(x: real, y: real)
    by (nonlinear_arith)
    requires
        y != 0real,
    ensures
        (x / y) * y == x,
{
}

/// A factor that is not negative keeps an order.
pub proof fn lemma_ordered(x: real, y: real, z: real)
    requires
        x >= 0real,
        y <= z,
    ensures
        x * y <= x * z,
{
    lemma_distribute(x, z, y);
    if x > 0real && z > y {
        lemma_positive(x, z - y);
    }
}

/// A positive factor leaves an order to be seen.
pub proof fn lemma_ordered_converse(x: real, y: real, z: real)
    requires
        x > 0real,
        x * y <= x * z,
    ensures
        y <= z,
{
    if y > z {
        lemma_positive(x, y - z);
        lemma_distribute(x, y, z);
    }
}

/// The square of a product.
pub proof fn lemma_square_of_product(x: real, y: real)
    ensures
        square(x * y) == square(x) * square(y),
{
    lemma_regroup(x, y, x, y);
}

/// The powers of a number between 0 and 1 do not grow.
pub proof fn lemma_powers_shrink(x: real, j: nat, k: nat)
    requires
        0real <= x <= 1real,
        j <= k,
    ensures
        0real <= power(x, k) <= power(x, j) <= 1real,
    decreases k,
{
    if k == 0 {
    } else if j == k {
        lemma_powers_shrink(x, (j - 1) as nat, (k - 1) as nat);
        lemma_shrinks(x, power(x, (k - 1) as nat));
    } else {
        lemma_powers_shrink(x, j, (k - 1) as nat);
        lemma_shrinks(x, power(x, (k - 1) as nat));
    }
}

/// A factor between 0 and 1 makes a number no greater.
proof fn lemma_shrinks(x: real, y: real)
    requires
        0real <= x <= 1real,
        0real <= y,
    ensures
        0real <= x * y <= y,
{
    lemma_ordered(y, x, 1real);
    lemma_ordered(y, 0real, x);
    lemma_commute(x, y);
}

/// How many times a number `x` between 0 and 1 is multiplied by itself until it is below
/// `bound`.
pub open spec fn enough(x: real, bound: real) -> int {
    (1real / (bound * (1real - x))).floor() + 1
}

/// A power falls at least as fast as a hyperbola.
proof fn lemma_power_falls(x: real, n: nat)
    requires
        0real <= x < 1real,
    ensures
        power(x, n) * (1real + (n as real) * (1real - x)) <= 1real,
    decreases n,
{
    let d = 1real - x;
    if n > 0 {
        let k = (n - 1) as nat;
        let p = power(x, k);
        lemma_power_falls(x, k);
        lemma_powers_shrink(x, k, k);
        let before = 1real + (k as real) * d;
        let after = 1real + (n as real) * d;
        assert(n as real == k as real + 1real);
        lemma_commute(n as real, d);
        lemma_commute(k as real, d);
        lemma_distribute(d, k as real, 1real);
        assert(after == before + d);
        lemma_commute(x, after);
        lemma_distribute(after, 1real, d);
        assert(x == 1real - d);
        lemma_ordered(d, 0real, k as real);
        lemma_ordered(d, 1real, after);
        lemma_commute(d, after);
        assert(x * after <= before);
        lemma_commute(x, p);
        lemma_associate(p, x, after);
        lemma_ordered(p, x * after, before);
    } else {
        lemma_zero(n as real, d);
    }
}

/// The powers of a number below 1 fall below every bound.
pub proof fn law_powers_vanish(x: real, bound: real, n: nat)
    requires
        0real <= x < 1real,
        bound > 0real,
        n >= enough(x, bound),
    ensures
        power(x, n) < bound,
{
    let d = 1real - x;
    let p = power(x, n);
    lemma_power_falls(x, n);
    lemma_powers_shrink(x, n, n);
    lemma_positive(bound, d);
    let area = bound * d;
    let u = 1real / area;
    lemma_divide(1real, area);
    assert(n as real >= u);
    lemma_commute(u, area);
    lemma_ordered(area, u, n as real);
    lemma_associate(bound, d, n as real);
    lemma_commute(d, n as real);
    let rise = 1real + (n as real) * d;
    lemma_distribute(bound, 1real, (n as real) * d);
    assert(bound * rise >= 1real + bound);
    lemma_ordered(bound, p * rise, 1real);
    if p >= bound {
        lemma_commute(p, rise);
        lemma_ordered(d, 0real, n as real);
        lemma_ordered(rise, bound, p);
        lemma_commute(rise, bound);
    }
}

/// A product is at most half the sum of the squares, where one factor is weighed by `n`.
proof fn lemma_common(n: real, x: real, u: real)
    ensures
        n * (2real * (x * u)) <= square(x) + square(n) * square(u),
{
    let w = n * u;
    lemma_square(x - w);
    lemma_expand_difference(x, w, x, w);
    lemma_commute(w, x);
    lemma_square_of_product(n, u);
    lemma_associate(x, n, u);
    lemma_commute(x, n);
    lemma_associate(n, x, u);
    lemma_distribute(n, x * u, x * u);
}

/// A sum of `n` complex numbers of a power of at most `p`, and one more such number.
pub proof fn lemma_sum_power(n: real, p: real, x: real, y: real, u: real, v: real)
    requires
        n >= 0real,
        square(x) + square(y) <= square(n) * p,
        square(u) + square(v) <= p,
    ensures
        square(x + u) + square(y + v) <= square(n + 1real) * p,
{
    let both = x * u + y * v;
    let s = square(n);
    lemma_expand(x, u, x, u);
    lemma_expand(y, v, y, v);
    lemma_commute(u, x);
    lemma_commute(v, y);
    assert(square(x + u) + square(y + v) == square(x) + square(y) + 2real * both + square(u)
        + square(v));
    lemma_expand(n, 1real, n, 1real);
    lemma_commute(s + 2real * n + 1real, p);
    lemma_distribute(p, s + 2real * n, 1real);
    lemma_distribute(p, s, 2real * n);
    lemma_commute(p, s);
    lemma_commute(p, 2real * n);
    lemma_associate(2real, n, p);
    assert(square(n + 1real) * p == s * p + 2real * (n * p) + p);
    lemma_square(x);
    lemma_square(y);
    lemma_square(n);
    if n == 0real {
        lemma_zero(n, n);
        lemma_zero(n, p);
        lemma_zero(s, p);
        if x != 0real || y != 0real {
            assert(false);
        }
        lemma_zero(x, u);
        lemma_zero(y, v);
    } else {
        lemma_common(n, x, u);
        lemma_common(n, y, v);
        lemma_distribute(n, 2real * (x * u), 2real * (y * v));
        lemma_distribute(s, square(u), square(v));
        lemma_ordered(s, square(u) + square(v), p);
        assert(n * (2real * both) <= 2real * (s * p));
        lemma_associate(n, n, p);
        lemma_distribute(n, n * p, n * p);
        assert(n * (2real * (n * p)) == 2real * (s * p));
        lemma_ordered_converse(n, 2real * both, 2real * (n * p));
    }
}

/// The sum of the first `count` values of `f`.
pub open spec fn total(f: spec_fn(int) -> real, count: nat) -> real
    decreases count,
{
    if count == 0 {
        0real
    } else {
        total(f, (count - 1) as nat) + f(count - 1)
    }
}

/// Sums of the same values are the same.
pub proof fn lemma_same_total(f: spec_fn(int) -> real, g: spec_fn(int) -> real, count: nat)
    requires
        forall|k: int| 0 <= k < count ==> #[trigger] f(k) == g(k),
    ensures
        total(f, count) == total(g, count),
    decreases count,
{
    if count > 0 {
        lemma_same_total(f, g, (count - 1) as nat);
        assert(f(count - 1) == g(count - 1));
    }
}

/// The sum of equal values.
pub proof fn lemma_total_of_equal(f: spec_fn(int) -> real, x: real, count: nat)
    requires
        forall|k: int| 0 <= k < count ==> #[trigger] f(k) == x,
    ensures
        total(f, count) == count as real * x,
    decreases count,
{
    let n = count as real;
    if count == 0 {
        lemma_zero(n, x);
    } else {
        let k = (count - 1) as nat;
        lemma_total_of_equal(f, x, k);
        assert(f(count - 1) == x);
        assert(n == k as real + 1real);
        lemma_commute(n, x);
        lemma_commute(k as real, x);
        lemma_distribute(x, k as real, 1real);
    }
}

/// A quotient of a product.
pub proof fn lemma_quotient(x: real, y: real, z: real)
    requires
        y != 0real,
        x == y * z,
    ensures
        x / y == z,
{
    let q = x / y;
    lemma_divide(x, y);
    lemma_commute(q, y);
    lemma_distribute(y, q, z);
    lemma_commute(y, q - z);
    if q != z {
        lemma_nonzero(y, q - z);
    }
}

/// A product of numbers other than 0 is not 0.
pub proof fn lemma_nonzero(x: real, y: real)
    requires
        x != 0real,
        y != 0real,
    ensures
        x * y != 0real,
{
    lemma_signs(x, y);
    lemma_signs(-x, y);
    if x > 0real && y > 0real {
        lemma_positive(x, y);
    } else if x > 0real {
        lemma_positive(x, -y);
    } else if y > 0real {
        lemma_positive(-x, y);
    } else {
        lemma_positive(-x, -y);
    }
}

/// A sum of multiples is the multiple of the sum.
pub proof fn lemma_scaled_total(f: spec_fn(int) -> real, g: spec_fn(int) -> real, x: real, count: nat)
    requires
        forall|k: int| 0 <= k < count ==> #[trigger] g(k) == x * f(k),
    ensures
        total(g, count) == x * total(f, count),
    decreases count,
{
    if count == 0 {
        lemma_zero(0real, x);
        lemma_commute(0real, x);
    } else {
        let k = (count - 1) as nat;
        lemma_scaled_total(f, g, x, k);
        assert(g(count - 1) == x * f(count - 1));
        lemma_distribute(x, total(f, k), f(count - 1));
    }
}

/// Twice the half of a number.
pub proof fn lemma_half(x: real, half: real)
    by (nonlinear_arith)
    requires
        half == 1real / 2real,
    ensures
        2real * (x * half) == x,
{
}

} // verus!
