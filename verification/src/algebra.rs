//! Facts about products of real numbers.

use vstd::prelude::*;

verus! {

/// The step of the telescoping product.
pub proof fn lemma_chain(
    pt: real,
    zt: real,
    et: real,
    start: real,
    pp: real,
    z: real,
    e: real,
    here: real,
    behind: real,
)
    requires
        pt * start == pp * here,
        zt * et * here == z * e * behind,
    ensures
        pt * zt * et * start == pp * z * e * behind,
{
    let a = pt * start;
    let b = zt * et;
    let c = z * e * behind;
    assert(pt * zt * et * start == a * b) by (nonlinear_arith)
        requires
            a == pt * start,
            b == zt * et,
    ;
    assert(a * b == pp * (b * here)) by (nonlinear_arith)
        requires
            a == pp * here,
    ;
    assert(b * here == c);
    assert(pp * c == pp * z * e * behind) by (nonlinear_arith)
        requires
            c == z * e * behind,
    ;
}

/// A product of three numbers, each of which is 0 or equal to another
/// number, is 0 or the product of the other numbers.
pub proof fn lemma_zero_or_same(a: real, b: real, c: real, x: real, y: real, z: real)
    requires
        a == 0 as real || a == x,
        b == 0 as real || b == y,
        c == 0 as real || c == z,
    ensures
        a * b * c == 0 as real || a * b * c == x * y * z,
{
    if a == 0 as real {
        assert(a * b * c == 0 as real) by (nonlinear_arith)
            requires
                a == 0 as real,
        ;
    } else if b == 0 as real {
        assert(a * b * c == 0 as real) by (nonlinear_arith)
            requires
                b == 0 as real,
        ;
    } else if c == 0 as real {
        assert(a * b * c == 0 as real) by (nonlinear_arith)
            requires
                c == 0 as real,
        ;
    }
}

/// A product of three numbers is 0 exactly if one of them is.
pub proof fn lemma_product_not_zero(a: real, b: real, c: real)
    ensures
        a * b * c != 0 as real <==> (a != 0 as real && b != 0 as real && c != 0 as real),
{
    let ab = a * b;
    assert(ab == 0 as real <==> (a == 0 as real || b == 0 as real)) by (nonlinear_arith)
        requires
            ab == a * b,
    ;
    assert(ab * c == 0 as real <==> (ab == 0 as real || c == 0 as real)) by (nonlinear_arith);
}

} // verus!
