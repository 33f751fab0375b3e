//! Checked 32-bit arithmetic: panicking and Result-returning addition and
//! multiplication, and a combined sum-then-product.

use vstd::arithmetic::div_mod::lemma_fundamental_div_mod;
use vstd::prelude::*;

verus! {

/// The arithmetic error kinds.
#[derive(PartialEq, Eq, Structural, Clone, Copy, Debug)]
pub enum Errors {
    U32Overflow,
}

/// The sum of two u32 values; the caller keeps it inside the type.
pub fn add(a: u32, b: u32) -> (r: u32)
    requires
        a + b <= u32::MAX,
    ensures
        r == a + b,
{
    a + b
}

/// The product of two u32 values; the caller keeps it inside the type and
/// the second factor positive.
pub fn multiply(a: u32, b: u32) -> (r: u32)
    requires
        b >= 1,
        a * b <= u32::MAX,
    ensures
        r == a * b,
{
    a * b
}

/// The sum of two u32 values, or the overflow error exactly when it does not
/// fit.
pub fn add2(a: u32, b: u32) -> (r: Result<u32, Errors>)
    ensures
        r is Ok <==> a + b <= u32::MAX,
        r matches Ok(v) ==> v == a + b,
        r matches Err(e) ==> e == Errors::U32Overflow,
{
    if a > u32::MAX - b {
        Err(Errors::U32Overflow)
    } else {
        Ok(a + b)
    }
}

/// The product of two u32 values, or the overflow error exactly when it does
/// not fit. The second factor must be positive.
pub fn multiply2(a: u32, b: u32) -> (r: Result<u32, Errors>)
    requires
        b >= 1,
    ensures
        r is Ok <==> a * b <= u32::MAX,
        r matches Ok(v) ==> v == a * b,
        r matches Err(e) ==> e == Errors::U32Overflow,
{
    proof {
        let m = u32::MAX as int;
        let bi = b as int;
        let ai = a as int;
        let h = m / bi;
        lemma_fundamental_div_mod(m, bi);
        if ai <= h {
            assert(ai * bi <= m) by (nonlinear_arith)
                requires
                    m == h * bi + (m % bi),
                    0 <= m % bi,
                    0 <= ai <= h,
                    bi >= 1,
            ;
        } else {
            assert(ai * bi > m) by (nonlinear_arith)
                requires
                    m == h * bi + (m % bi),
                    m % bi < bi,
                    ai >= h + 1,
                    bi >= 1,
                    h >= 0,
            ;
        }
    }
    if a > u32::MAX / b {
        Err(Errors::U32Overflow)
    } else {
        Ok(a * b)
    }
}

/// `(a + b) * c`, or the overflow error exactly when either step does not
/// fit in u32.
pub fn calculate(a: u32, b: u32, c: u32) -> (r: Result<u32, Errors>)
    requires
        c >= 1,
    ensures
        r is Ok <==> a + b <= u32::MAX && (a + b) * c <= u32::MAX,
        r matches Ok(v) ==> v == (a + b) * c,
        r matches Err(e) ==> e == Errors::U32Overflow,
{
    match add2(a, b) {
        Ok(sum) => multiply2(sum, c),
        Err(e) => Err(e),
    }
}

} // verus!
