//! Fixed-point vectors: dot products and normalisation to unit length.
//!
//! A component is a signed fixed-point number (see [`crate::fixed`]), so a
//! vector of unit length has the squared length `ONE * ONE`. Normalisation
//! does not depend on the unit of its input: a vector may be handed to it in
//! any fixed-point unit, and comes back in units of 2^-30.

use vstd::prelude::*;

verus! {

/// The sum of the squares of the first `upto` components of `v`.
pub open spec fn squares_upto(v: Seq<i32>, upto: nat) -> nat
    decreases upto,
{
    if upto == 0 {
        0
    } else {
        squares_upto(v, (upto - 1) as nat) + (v[upto - 1] as int * v[upto - 1] as int) as nat
    }
}

/// The squared length of `v`.
pub open spec fn squared_length(v: Seq<i32>) -> nat {
    squares_upto(v, v.len())
}

/// The sum of the products of the first `upto` components of `a` and `b`.
pub open spec fn dot_upto(a: Seq<i32>, b: Seq<i32>, upto: nat) -> int
    decreases upto,
{
    if upto == 0 {
        0
    } else {
        dot_upto(a, b, (upto - 1) as nat) + a[upto - 1] as int * b[upto - 1] as int
    }
}

/// The dot product of two vectors of one length, in units of `2^-60`.
pub open spec fn dot_product(a: Seq<i32>, b: Seq<i32>) -> int {
    dot_upto(a, b, a.len())
}

/// Whether `r` is the integer square root of `t`: the largest integer whose
/// square is at most `t`.
pub open spec fn is_root(r: nat, t: nat) -> bool {
    r * r <= t < (r + 1) * (r + 1)
}

/// The integer square root of `t`.
pub open spec fn root(t: nat) -> nat {
    choose|r: nat| is_root(r, t)
}

/// How far `t` is below `2^124`.
pub open spec fn room(t: nat) -> nat {
    if t < 0x1000_0000_0000_0000_0000_0000_0000_0000 {
        (0x1000_0000_0000_0000_0000_0000_0000_0000 - t) as nat
    } else {
        0
    }
}

/// The power of two by which the components of a vector with the squared
/// length `t` are multiplied before its length is taken, so that the length
/// has 62 significant bits: the least power of two that lifts the squared
/// length to `2^124` or above.
pub open spec fn lift_factor(t: nat) -> nat
    decreases room(t),
{
    if 0 < t < 0x1000_0000_0000_0000_0000_0000_0000_0000 {
        2 * lift_factor(4 * t)
    } else {
        1
    }
}

/// `x / n` as a fixed-point number, rounded towards zero.
pub open spec fn scaled(x: int, n: int) -> int {
    if x >= 0 {
        (x * 0x4000_0000) / n
    } else {
        -((-x * 0x4000_0000) / n)
    }
}

/// `v` brought to unit length: each component divided by the length of `v`,
/// rounded towards zero. The length is computed on the lifted components (see
/// [`lift_factor`]) as the integer square root of their squared length. The
/// zero vector stays as it is.
pub open spec fn normalized(v: Seq<i32>) -> Seq<i32> {
    let t = squared_length(v);
    if t == 0 {
        v
    } else {
        let f = lift_factor(t);
        let n = root(t * f * f);
        Seq::new(v.len(), |i: int| scaled(v[i] * f, n as int) as i32)
    }
}

/// The sum of `(|c| + 1)^2` over the first `upto` components of `v`: the
/// squared length of `v` with every component moved one unit away from zero.
pub open spec fn widened_squares_upto(v: Seq<i32>, upto: nat) -> nat
    decreases upto,
{
    if upto == 0 {
        0
    } else {
        let c = v[upto - 1] as int;
        let m = if c < 0 {
            -c
        } else {
            c
        };
        widened_squares_upto(v, (upto - 1) as nat) + ((m + 1) * (m + 1)) as nat
    }
}

/// A number has at most one integer square root.
pub proof fn lemma_root_unique(a: nat, b: nat, t: nat)
    requires
        is_root(a, t),
        is_root(b, t),
    ensures
        a == b,
{
    if a < b {
        assert((a + 1) * (a + 1) <= b * b) by (nonlinear_arith)
            requires
                a + 1 <= b,
        ;
    }
    if b < a {
        assert((b + 1) * (b + 1) <= a * a) by (nonlinear_arith)
            requires
                b + 1 <= a,
        ;
    }
}

/// Any integer square root of `t` is the integer square root of `t`.
pub proof fn lemma_root_is(r: nat, t: nat)
    requires
        is_root(r, t),
    ensures
        root(t) == r,
{
    lemma_root_unique(r, root(t), t);
}

/// Every number has an integer square root.
pub proof fn lemma_root_exists(t: nat)
    ensures
        is_root(root(t), t),
    decreases t,
{
    if t == 0 {
        let z: nat = 0;
        assert(z * z <= 0 < (z + 1) * (z + 1)) by (nonlinear_arith)
            requires
                z == 0,
        ;
        assert(is_root(z, 0));
    } else {
        lemma_root_exists((t - 1) as nat);
        let r = root((t - 1) as nat);
        assert((r + 1) * (r + 1) == r * r + 2 * r + 1) by (nonlinear_arith);
        if t < (r + 1) * (r + 1) {
            assert(is_root(r, t));
        } else {
            let q = r + 1;
            assert((q + 1) * (q + 1) == r * r + 4 * r + 4) by (nonlinear_arith)
                requires
                    q == r + 1,
            ;
            assert(q * q == r * r + 2 * r + 1) by (nonlinear_arith)
                requires
                    q == r + 1,
            ;
            assert(is_root(q, t));
        }
    }
}

/// The lifted squared length lies between `2^124` and `2^126`.
pub proof fn lemma_lifted_range(t: nat)
    requires
        0 < t < 0x4000_0000_0000_0000_0000_0000_0000_0000,
    ensures
        0x1000_0000_0000_0000_0000_0000_0000_0000 <= t * lift_factor(t) * lift_factor(t)
            < 0x4000_0000_0000_0000_0000_0000_0000_0000,
        0 < lift_factor(t) < 0x8000_0000_0000_0000,
    decreases room(t),
{
    let f = lift_factor(t);
    if t < 0x1000_0000_0000_0000_0000_0000_0000_0000 {
        lemma_lifted_range(4 * t);
        let g = lift_factor(4 * t);
        assert(t * (2 * g) * (2 * g) == (4 * t) * g * g) by (nonlinear_arith);
    } else {
        assert(t * 1 * 1 == t) by (nonlinear_arith);
    }
    if f >= 0x8000_0000_0000_0000 {
        assert(t * f * f >= 0x4000_0000_0000_0000_0000_0000_0000_0000) by (nonlinear_arith)
            requires
                t >= 1,
                f >= 0x8000_0000_0000_0000,
        ;
    }
}

/// The squares of a prefix are bounded by its length, and no square exceeds
/// their sum.
pub proof fn lemma_squares_upto(v: Seq<i32>, upto: nat)
    requires
        upto <= v.len(),
    ensures
        squares_upto(v, upto) <= upto * 0x4000_0000_0000_0000,
        forall|i: int|
            0 <= i < upto ==> ((#[trigger] v[i]) as int) * (v[i] as int) <= squares_upto(v, upto),
    decreases upto,
{
    if upto > 0 {
        lemma_squares_upto(v, (upto - 1) as nat);
        let x = v[upto - 1] as int;
        assert(0 <= x * x <= 0x4000_0000_0000_0000) by (nonlinear_arith)
            requires
                -0x8000_0000 <= x <= 0x8000_0000,
        ;
    }
}

/// The products of a prefix are bounded by its length.
pub proof fn lemma_dot_upto(a: Seq<i32>, b: Seq<i32>, upto: nat)
    requires
        upto <= a.len(),
        upto <= b.len(),
    ensures
        -(upto * 0x4000_0000_0000_0000) <= dot_upto(a, b, upto) <= upto * 0x4000_0000_0000_0000,
    decreases upto,
{
    if upto > 0 {
        lemma_dot_upto(a, b, (upto - 1) as nat);
        let x = a[upto - 1] as int;
        let y = b[upto - 1] as int;
        assert(-0x4000_0000_0000_0000 <= x * y <= 0x4000_0000_0000_0000) by (nonlinear_arith)
            requires
                -0x8000_0000 <= x <= 0x8000_0000,
                -0x8000_0000 <= y <= 0x8000_0000,
        ;
    }
}

/// What scaling does to one lifted component `x` of a vector of length `n`:
/// with `y` the result, `|y| * n <= |x| * 1.0 < (|y| + 1) * n`, in squares.
pub proof fn lemma_scaled_component(x: int, n: int)
    requires
        n > 0,
        x * x < (n + 1) * (n + 1),
    ensures
        -0x4000_0000 <= scaled(x, n) <= 0x4000_0000,
        n * n * (scaled(x, n) * scaled(x, n)) <= 0x4000_0000 * 0x4000_0000 * (x * x),
        ({
            let y = scaled(x, n);
            let m = if y < 0 {
                -y
            } else {
                y
            };
            n * n * ((m + 1) * (m + 1)) >= 0x4000_0000 * 0x4000_0000 * (x * x)
        }),
{
    let a = if x < 0 {
        -x
    } else {
        x
    };
    assert(a * a == x * x) by (nonlinear_arith)
        requires
            a == x || a == -x,
    ;
    if a > n {
        assert(a * a >= (n + 1) * (n + 1)) by (nonlinear_arith)
            requires
                a >= n + 1,
                n >= 0,
        ;
    }
    let p = a * 0x4000_0000;
    let b = p / n;
    assert(b * n <= p < (b + 1) * n && 0 <= b <= 0x4000_0000) by (nonlinear_arith)
        requires
            b == p / n,
            p == a * 0x4000_0000,
            0 <= a <= n,
            n > 0,
    ;
    let y = scaled(x, n);
    assert(y == b || y == -b);
    assert(y * y == b * b) by (nonlinear_arith)
        requires
            y == b || y == -b,
    ;
    let m = if y < 0 {
        -y
    } else {
        y
    };
    assert(m == b);
    assert(n * n * (b * b) <= 0x4000_0000 * 0x4000_0000 * (a * a)) by (nonlinear_arith)
        requires
            0 <= b * n <= p,
            p == a * 0x4000_0000,
    ;
    assert(n * n * ((b + 1) * (b + 1)) >= 0x4000_0000 * 0x4000_0000 * (a * a)) by (nonlinear_arith)
        requires
            0 <= p < (b + 1) * n,
            p == a * 0x4000_0000,
    ;
}

/// A lifted component is no longer than the lifted vector.
proof fn lemma_lifted_component(v: Seq<i32>, i: int, f: int, n: int)
    requires
        0 <= i < v.len(),
        f > 0,
        is_root(n as nat, squared_length(v) * (f as nat) * (f as nat)),
        n >= 0,
    ensures
        (v[i] * f) * (v[i] * f) < (n + 1) * (n + 1),
{
    lemma_squares_upto(v, v.len());
    let x = v[i] as int;
    let t = squared_length(v) as int;
    assert(x * x <= t);
    assert((x * f) * (x * f) <= t * f * f) by (nonlinear_arith)
        requires
            x * x <= t,
            f > 0,
    ;
}

/// The sums behind the length of a normalised vector, over a prefix.
proof fn lemma_normalized_sums(v: Seq<i32>, f: int, n: int, upto: nat)
    requires
        n > 0,
        squared_length(v) > 0,
        f == lift_factor(squared_length(v)),
        f > 0,
        is_root(n as nat, squared_length(v) * (f as nat) * (f as nat)),
        upto <= v.len(),
    ensures
        n * n * squares_upto(normalized(v), upto) <= 0x4000_0000 * 0x4000_0000 * (f * f
            * squares_upto(v, upto)),
        n * n * widened_squares_upto(normalized(v), upto) >= 0x4000_0000 * 0x4000_0000 * (f * f
            * squares_upto(v, upto)),
        widened_squares_upto(normalized(v), upto) <= squares_upto(normalized(v), upto) + upto
            * 0x8000_0001,
    decreases upto,
{
    let u = normalized(v);
    lemma_root_is(n as nat, squared_length(v) * (f as nat) * (f as nat));
    if upto > 0 {
        let k = (upto - 1) as nat;
        lemma_normalized_sums(v, f, n, k);
        let x = v[upto - 1] as int;
        let xf = x * f;
        lemma_lifted_component(v, upto - 1, f, n);
        lemma_scaled_component(xf, n);
        let y = scaled(xf, n);
        assert(u[upto - 1] == y);
        let m = if y < 0 {
            -y
        } else {
            y
        };
        let su = squares_upto(u, k) as int;
        let sx = squares_upto(v, k) as int;
        let wu = widened_squares_upto(u, k) as int;
        let yy = y * y;
        let xx = x * x;
        let xxf = xf * xf;
        let mm = (m + 1) * (m + 1);
        assert(yy >= 0 && xx >= 0 && mm >= 0) by (nonlinear_arith)
            requires
                yy == y * y,
                xx == x * x,
                mm == (m + 1) * (m + 1),
        ;
        assert(xxf == f * f * xx) by (nonlinear_arith)
            requires
                xxf == (x * f) * (x * f),
                xx == x * x,
        ;
        assert(f * f * (sx + xx) == f * f * sx + f * f * xx) by (nonlinear_arith);
        assert(n * n * (su + yy) == n * n * su + n * n * yy) by (nonlinear_arith);
        assert(n * n * (wu + mm) == n * n * wu + n * n * mm) by (nonlinear_arith);
        let c: int = 0x1000_0000_0000_0000;
        let a1 = f * f * sx;
        let a2 = f * f * xx;
        assert(c * (a1 + a2) == c * a1 + c * a2) by (nonlinear_arith);
        assert(mm == yy + 2 * m + 1) by (nonlinear_arith)
            requires
                mm == (m + 1) * (m + 1),
                yy == y * y,
                m == y || m == -y,
        ;
        assert(squares_upto(u, upto) == su + yy);
        assert(squares_upto(v, upto) == sx + xx);
        assert(widened_squares_upto(u, upto) == wu + mm);
        assert(n * n * yy <= c * a2);
        assert(n * n * mm >= c * a2);
        assert(n * n * su <= c * a1);
        assert(n * n * wu >= c * a1);
    } else {
        assert(n * n * 0 == 0) by (nonlinear_arith);
        assert(f * f * 0 == 0) by (nonlinear_arith);
        assert(0x4000_0000 * 0x4000_0000 * 0 == 0) by (nonlinear_arith);
    }
}

/// A normalised vector has unit length up to the rounding of its components:
/// for every vector that is not zero, the squared length of the result is at
/// most 1.0, and falls short of 1.0 by at most `2^-29 + 2^-60` for each
/// component.
pub proof fn lemma_normalized_length(v: Seq<i32>)
    requires
        squared_length(v) > 0,
        v.len() <= u64::MAX,
    ensures
        normalized(v).len() == v.len(),
        squared_length(normalized(v)) <= 0x4000_0000 * 0x4000_0000,
        squared_length(normalized(v)) + v.len() * 0x8000_0001 >= 0x4000_0000 * 0x4000_0000,
{
    let t = squared_length(v);
    lemma_squares_upto(v, v.len());
    lemma_lifted_range(t);
    let f = lift_factor(t);
    let lifted = t * f * f;
    lemma_root_exists(lifted);
    let n = root(lifted) as int;
    if n < 0x4000_0000_0000_0000 {
        assert((n + 1) * (n + 1) <= 0x1000_0000_0000_0000_0000_0000_0000_0000) by (nonlinear_arith)
            requires
                0 <= n < 0x4000_0000_0000_0000,
        ;
    }
    lemma_normalized_sums(v, f as int, n, v.len());
    let u = normalized(v);
    let s = squared_length(u) as int;
    let w = widened_squares_upto(u, v.len()) as int;
    let c: int = 0x1000_0000_0000_0000;
    let l = lifted as int;
    assert((f as int) * (f as int) * (t as int) == l) by (nonlinear_arith)
        requires
            l == t * f * f,
    ;
    assert((n + 1) * (n + 1) == n * n + 2 * n + 1) by (nonlinear_arith);
    assert(w >= c) by (nonlinear_arith)
        requires
            n * n * w >= c * l,
            l >= n * n,
            n > 0,
            c > 0,
    ;
    assert(s <= c) by (nonlinear_arith)
        requires
            n * n * s <= c * l,
            l <= n * n + 2 * n,
            n >= 0x4000_0000_0000_0000,
            c == 0x1000_0000_0000_0000,
            s >= 0,
    ;
}

/// The integer square root of `t`.
pub fn integer_root(t: u128) -> (r: u128)
    ensures
        r == root(t as nat),
        is_root(r as nat, t as nat),
        r < 0x1_0000_0000_0000_0000,
{
    let mut lo: u128 = 0;
    let mut hi: u128 = 0x1_0000_0000_0000_0000;
    while hi - lo > 1
        invariant
            lo < hi <= 0x1_0000_0000_0000_0000,
            lo * lo <= t,
            t < hi * hi,
        decreases hi - lo,
    {
        let mid = lo + (hi - lo) / 2;
        assert(mid * mid <= 0xFFFF_FFFF_FFFF_FFFF * 0xFFFF_FFFF_FFFF_FFFF) by (nonlinear_arith)
            requires
                0 <= mid <= 0xFFFF_FFFF_FFFF_FFFF,
        ;
        if mid * mid <= t {
            lo = mid;
        } else {
            hi = mid;
        }
    }
    proof {
        lemma_root_is(lo as nat, t as nat);
    }
    lo
}

/// The dot product of two vectors of one length.
pub fn dot(a: &Vec<i32>, b: &Vec<i32>) -> (d: i128)
    requires
        a@.len() == b@.len(),
    ensures
        d == dot_product(a@, b@),
{
    let n = a.len();
    let mut d: i128 = 0;
    let mut i: usize = 0;
    while i < n
        invariant
            n == a@.len(),
            n == b@.len(),
            i <= n,
            d == dot_upto(a@, b@, i as nat),
        decreases n - i,
    {
        proof {
            lemma_dot_upto(a@, b@, i as nat);
            lemma_dot_upto(a@, b@, (i + 1) as nat);
        }
        d = d + (a[i] as i128) * (b[i] as i128);
        i = i + 1;
    }
    d
}

/// The squared length of a vector.
pub fn length_squared(v: &Vec<i32>) -> (t: u128)
    ensures
        t == squared_length(v@),
        t < 0x4000_0000_0000_0000_0000_0000_0000_0000,
{
    let n = v.len();
    let mut t: u128 = 0;
    let mut i: usize = 0;
    while i < n
        invariant
            n == v@.len(),
            i <= n,
            t == squares_upto(v@, i as nat),
        decreases n - i,
    {
        proof {
            lemma_squares_upto(v@, i as nat);
            lemma_squares_upto(v@, (i + 1) as nat);
        }
        let x = v[i] as i128;
        assert(0 <= x * x <= 0x4000_0000_0000_0000) by (nonlinear_arith)
            requires
                -0x8000_0000 <= x <= 0x8000_0000,
        ;
        t = t + (x * x) as u128;
        i = i + 1;
    }
    proof {
        lemma_squares_upto(v@, n as nat);
    }
    t
}

/// A component, lifted by `factor` and divided by the length `n`, as a
/// fixed-point number.
fn scale(x: i32, factor: u128, n: u128) -> (y: i32)
    requires
        0 < n < 0x1_0000_0000_0000_0000,
        0 < factor < 0x8000_0000_0000_0000,
        (x * factor) * (x * factor) < (n + 1) * (n + 1),
    ensures
        y == scaled(x * factor, n as int),
        -0x4000_0000 <= y <= 0x4000_0000,
{
    let magnitude: u128 = if x >= 0 {
        x as u128
    } else {
        (-(x as i64)) as u128
    };
    proof {
        lemma_scaled_component(x * factor, n as int);
        let m = magnitude as int;
        let f = factor as int;
        assert(0 <= m * f <= 0x8000_0000 * 0x8000_0000_0000_0000) by (nonlinear_arith)
            requires
                0 <= m <= 0x8000_0000,
                0 < f < 0x8000_0000_0000_0000,
        ;
        let a = m * f;
        assert(a == x * f || a == -(x * f)) by (nonlinear_arith)
            requires
                a == m * f,
                m == x || m == -x,
        ;
        assert(a * a == (x * f) * (x * f)) by (nonlinear_arith)
            requires
                a == x * f || a == -(x * f),
        ;
        if a > n {
            assert(a * a >= (n + 1) * (n + 1)) by (nonlinear_arith)
                requires
                    a >= n + 1,
                    n >= 0,
            ;
        }
        assert(a <= n);
        let xf = x * f;
        assert((x >= 0 ==> xf >= 0 && a == xf) && (x < 0 ==> xf < 0 && a == -xf))
            by (nonlinear_arith)
            requires
                xf == x * f,
                a == m * f,
                f > 0,
                x >= 0 ==> m == x,
                x < 0 ==> m == -x,
        ;
        assert(0 <= (a * 0x4000_0000) / (n as int) <= 0x4000_0000) by (nonlinear_arith)
            requires
                0 <= a <= n,
                n > 0,
        ;
    }
    let lifted = magnitude * factor;
    let quotient = (lifted * 0x4000_0000) / n;
    if x >= 0 {
        quotient as i32
    } else {
        -(quotient as i32)
    }
}

/// Brings `v` to unit length in place. The zero vector stays as it is.
pub fn l2_normalize(v: &mut Vec<i32>)
    ensures
        final(v)@ == normalized(old(v)@),
{
    let t = length_squared(v);
    if t == 0 {
        return;
    }
    let mut lifted: u128 = t;
    let mut factor: u128 = 1;
    proof {
        assert(t * 1 * 1 == t) by (nonlinear_arith);
        lemma_lifted_range(t as nat);
    }
    while lifted < 0x1000_0000_0000_0000_0000_0000_0000_0000
        invariant
            0 < t < 0x4000_0000_0000_0000_0000_0000_0000_0000,
            0 < lifted < 0x4000_0000_0000_0000_0000_0000_0000_0000,
            0 < factor,
            lifted == t * factor * factor,
            lift_factor(t as nat) == factor * lift_factor(lifted as nat),
            0 < lift_factor(t as nat) < 0x8000_0000_0000_0000,
        decreases room(lifted as nat),
    {
        proof {
            let g = lift_factor((4 * lifted) as nat);
            assert(factor * (2 * g) == (2 * factor) * g) by (nonlinear_arith);
            assert(t * (2 * factor) * (2 * factor) == 4 * (t * factor * factor))
                by (nonlinear_arith);
            if g == 0 {
                assert((2 * factor) * g == 0) by (nonlinear_arith)
                    requires
                        g == 0,
                ;
            }
            assert(2 * factor <= (2 * factor) * g) by (nonlinear_arith)
                requires
                    g >= 1,
                    factor > 0,
            ;
        }
        lifted = lifted * 4;
        factor = factor * 2;
    }
    proof {
        assert(factor * 1 == factor) by (nonlinear_arith);
    }
    let n = integer_root(lifted);
    proof {
        if n == 0 {
            assert((n + 1) * (n + 1) == 1) by (nonlinear_arith)
                requires
                    n == 0,
            ;
        }
    }
    let len = v.len();
    let mut i: usize = 0;
    while i < len
        invariant
            len == v@.len(),
            len == old(v)@.len(),
            i <= len,
            0 < n < 0x1_0000_0000_0000_0000,
            factor == lift_factor(squared_length(old(v)@)),
            0 < factor < 0x8000_0000_0000_0000,
            is_root(n as nat, squared_length(old(v)@) * (factor as nat) * (factor as nat)),
            forall|j: int|
                0 <= j < i ==> v@[j] == scaled(old(v)@[j] * factor, n as int) as i32,
            forall|j: int| i <= j < len ==> v@[j] == old(v)@[j],
        decreases len - i,
    {
        proof {
            lemma_lifted_component(old(v)@, i as int, factor as int, n as int);
        }
        let y = scale(v[i], factor, n);
        v.set(i, y);
        i = i + 1;
    }
    proof {
        assert(v@ =~= normalized(old(v)@));
    }
}

} // verus!
