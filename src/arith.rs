//! Small integer routines: primality by trial division, coprimality by the
//! subtractive Euclidean algorithm, and `u32` arithmetic that reports overflow.
use vstd::prelude::*;

verus! {

/// No `d` with `2 <= d < x / 2` divides `x`: the trial range that
/// `next_prime` scans, which is empty for `x < 6`.
pub open spec fn no_divisor_below_half(x: int) -> bool {
    forall|d: int| 2 <= d < x / 2 ==> #[trigger] (x % d) != 0
}

/// Greatest common divisor of two positive numbers, by repeated subtraction.
pub open spec fn gcd(a: int, b: int) -> int
    recommends
        a > 0,
        b > 0,
    decreases a + b,
    when a > 0 && b > 0
{
    if a == b {
        a
    } else if a > b {
        gcd(a - b, b)
    } else {
        gcd(a, b - a)
    }
}

/// `x` has no divisor `d` with `2 <= d < x`.
pub open spec fn no_proper_divisor(x: int) -> bool {
    forall|d: int| 2 <= d < x ==> #[trigger] (x % d) != 0
}

/// A divisor of `x` other than `x` itself is at most `x / 2`.
proof fn lemma_large_divisor(x: int, d: int)
    requires
        x > 0,
        x / 2 < d < x,
    ensures
        x % d != 0,
{
    assert(x % d != 0) by (nonlinear_arith)
        requires
            x > 0,
            x / 2 < d,
            d < x,
    {
        if x % d == 0 {
            let q = x / d;
            assert(x == q * d);
            assert(q >= 2 || q <= 1);
        }
    }
}

/// Whether `x` is prime: at least two, with no divisor between two and
/// `x - 1`. Trial division stops at `x / 2`.
pub fn is_prime(x: i32) -> (r: bool)
    ensures
        r == (x >= 2 && no_proper_divisor(x as int)),
{
    if x < 2 {
        return false;
    }
    let half: i32 = x / 2;
    let mut i: i32 = 2;
    while i <= half
        invariant
            x >= 2,
            half == x / 2,
            2 <= i,
            i <= half + 1,
            forall|d: int| 2 <= d < i ==> #[trigger] ((x as int) % d) != 0,
        decreases half + 1 - i,
    {
        if x % i == 0 {
            return false;
        }
        i = i + 1;
    }
    assert forall|d: int| 2 <= d < x implies #[trigger] ((x as int) % d) != 0 by {
        if d > half {
            lemma_large_divisor(x as int, d);
        }
    }
    true
}

/// Whether two non-negative numbers are coprime: both positive and with
/// greatest common divisor one.
pub fn are_coprime(nr: (i32, i32)) -> (r: bool)
    requires
        nr.0 >= 0,
        nr.1 >= 0,
    ensures
        r == (nr.0 > 0 && nr.1 > 0 && gcd(nr.0 as int, nr.1 as int) == 1),
{
    let mut a: i32 = nr.0;
    let mut b: i32 = nr.1;
    if a == 0 || b == 0 {
        return false;
    }
    while a != b
        invariant
            a > 0,
            b > 0,
            gcd(a as int, b as int) == gcd(nr.0 as int, nr.1 as int),
        decreases a + b,
    {
        if a > b {
            a = a - b;
        } else {
            b = b - a;
        }
    }
    a == 1
}

fn has_no_divisor_below_half(x: u32) -> (r: bool)
    ensures
        r == no_divisor_below_half(x as int),
{
    let half: u32 = x / 2;
    let mut d: u32 = 2;
    while d < half
        invariant
            half == x / 2,
            2 <= d,
            forall|e: int| 2 <= e < d ==> #[trigger] ((x as int) % e) != 0,
        decreases half - d,
    {
        if x % d == 0 {
            return false;
        }
        d = d + 1;
    }
    true
}

/// The least `u` with `x <= u < u16::MAX` and no divisor in `2 .. u / 2`, or
/// `None` when there is none.
pub fn next_prime(x: u16) -> (r: Option<u16>)
    ensures
        match r {
            Some(v) => x <= v < u16::MAX && no_divisor_below_half(v as int) && forall|u: int|
                x <= u < v ==> !#[trigger] no_divisor_below_half(u),
            None => forall|u: int| x <= u < u16::MAX ==> !#[trigger] no_divisor_below_half(u),
        },
{
    let mut u: u32 = x as u32;
    while u < u16::MAX as u32
        invariant
            x <= u <= u16::MAX,
            forall|w: int| x <= w < u ==> !#[trigger] no_divisor_below_half(w),
        decreases u16::MAX - u,
    {
        if has_no_divisor_below_half(u) {
            return Some(u as u16);
        }
        u = u + 1;
    }
    None
}

/// The error of the checked operations below.
#[derive(Debug, Clone, Copy, PartialEq, Eq, Structural)]
pub enum MathErr {
    Overflow,
}

/// `x + y`, or `Overflow` when the sum does not fit in a `u32`.
pub fn add_u32(x: u32, y: u32) -> (r: Result<u32, MathErr>)
    ensures
        x + y <= u32::MAX ==> r == Ok::<u32, MathErr>((x + y) as u32),
        x + y > u32::MAX ==> r == Err::<u32, MathErr>(MathErr::Overflow),
{
    let res: u64 = x as u64 + y as u64;
    if res <= u32::MAX as u64 {
        Ok(res as u32)
    } else {
        Err(MathErr::Overflow)
    }
}

/// `x * y`, or `Overflow` when the product does not fit in a `u32`.
pub fn mul_u32(x: u32, y: u32) -> (r: Result<u32, MathErr>)
    ensures
        x * y <= u32::MAX ==> r == Ok::<u32, MathErr>((x * y) as u32),
        x * y > u32::MAX ==> r == Err::<u32, MathErr>(MathErr::Overflow),
{
    assert((x as u64) * (y as u64) <= u32::MAX as u64 * u32::MAX as u64) by (nonlinear_arith);
    let res: u64 = x as u64 * y as u64;
    if res <= u32::MAX as u64 {
        Ok(res as u32)
    } else {
        Err(MathErr::Overflow)
    }
}

/// `(x + y) * z`, or `Overflow` when the sum or the product does not fit.
pub fn mul_of_sum(x: u32, y: u32, z: u32) -> (r: Result<u32, MathErr>)
    ensures
        x + y <= u32::MAX && (x + y) * z <= u32::MAX ==> r == Ok::<u32, MathErr>(
            ((x + y) * z) as u32,
        ),
        x + y > u32::MAX || (x + y) * z > u32::MAX ==> r == Err::<u32, MathErr>(
            MathErr::Overflow,
        ),
{
    let sum = match add_u32(x, y) {
        Ok(s) => s,
        Err(e) => {
            return Err(e);
        },
    };
    mul_u32(sum, z)
}

} // verus!
