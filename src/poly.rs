//! Polynomials over the integers, as coefficient sequences (constant term
//! first), and interpolation at a point modulo a field's characteristic.
use crate::field::ScalarField;
use vstd::arithmetic::div_mod::*;
use vstd::prelude::*;

verus! {

/// `c[0] + c[1] x + c[2] x^2 + ...`, by Horner's rule.
pub open spec fn poly_eval(c: Seq<int>, x: int) -> int
    decreases c.len(),
{
    if c.len() == 0 {
        0
    } else {
        c[0] + x * poly_eval(c.drop_first(), x)
    }
}

/// The quotient of `c` by `(x - a)`.
pub open spec fn quotient(c: Seq<int>, a: int) -> Seq<int>
    decreases c.len(),
{
    if c.len() <= 1 {
        Seq::empty()
    } else {
        seq![poly_eval(c.drop_first(), a)] + quotient(c.drop_first(), a)
    }
}

/// Synthetic division: `c(x) = c(a) + (x - a) q(x)` with `q` one shorter.
pub proof fn lemma_divide(c: Seq<int>, a: int, x: int)
    ensures
        poly_eval(c, x) == poly_eval(c, a) + (x - a) * poly_eval(quotient(c, a), x),
        quotient(c, a).len() == if c.len() == 0 { 0 } else { c.len() - 1 },
    decreases c.len(),
{
    if c.len() <= 1 {
        if c.len() == 1 {
            assert(c.drop_first().len() == 0);
            assert(poly_eval(c.drop_first(), x) == 0 && poly_eval(c.drop_first(), a) == 0);
        }
        assert(poly_eval(quotient(c, a), x) == 0);
    } else {
        let d = c.drop_first();
        lemma_divide(d, a, x);
        let q = quotient(c, a);
        let qd = quotient(d, a);
        assert(q.drop_first() =~= qd);
        let ed = poly_eval(d, a);
        let eqd = poly_eval(qd, x);
        let edx = poly_eval(d, x);
        assert(poly_eval(q, x) == ed + x * eqd);
        assert(c[0] + x * edx == c[0] + a * ed + (x - a) * (ed + x * eqd)) by (nonlinear_arith)
            requires
                edx == ed + (x - a) * eqd,
        ;
    }
}

/// A polynomial of at most one coefficient is constant.
pub proof fn lemma_constant(c: Seq<int>, x: int, y: int)
    requires
        c.len() <= 1,
    ensures
        poly_eval(c, x) == poly_eval(c, y),
{
    if c.len() == 1 {
        assert(c.drop_first().len() == 0);
        assert(poly_eval(c.drop_first(), x) == 0 && poly_eval(c.drop_first(), y) == 0);
    }
}

/// At zero a polynomial gives its constant term.
pub proof fn lemma_eval_zero(c: Seq<int>)
    requires
        c.len() > 0,
    ensures
        poly_eval(c, 0) == c[0],
{
}

/// The inverse of `a` modulo the characteristic, where there is one.
pub open spec fn inv_spec<F: ScalarField>(a: int) -> int {
    choose|b: int| 0 <= b < F::modulus() && (#[trigger] (a * b)) % (F::modulus() as int) == 1
}

/// Every nonzero residue has an inverse: what makes the characteristic a
/// prime.
pub open spec fn has_inverses<F: ScalarField>() -> bool {
    forall|a: int| 0 < a < F::modulus() ==> #[trigger] invertible::<F>(a)
}

/// `a` has an inverse modulo the characteristic.
pub open spec fn invertible<F: ScalarField>(a: int) -> bool {
    exists|b: int| 0 <= b < F::modulus() && (#[trigger] (a * b)) % (F::modulus() as int) == 1
}

/// An inverse is unique.
pub proof fn lemma_inverse_unique<F: ScalarField>(a: int, b: int)
    requires
        0 <= b < F::modulus(),
        (a * b) % (F::modulus() as int) == 1,
    ensures
        inv_spec::<F>(a) == b,
{
    let m = F::modulus() as int;
    F::lemma_modulus_bounds();
    let c = inv_spec::<F>(a);
    assert(0 <= c < m && (a * c) % m == 1);
    // b = b (a c) = (a b) c = c
    lemma_mul_mod_noop_right(b, a * c, m);
    lemma_mul_mod_noop_left(a * b, c, m);
    assert(b * (a * c) == (a * b) * c) by (nonlinear_arith);
    lemma_small_mod(b as nat, m as nat);
    lemma_small_mod(c as nat, m as nat);
}

/// Newton's scheme for the value at `z` of the polynomial of least degree
/// through the points `(xs[i], ys[i])`: peel off the last point and
/// interpolate the divided differences of the others.
pub open spec fn interp<F: ScalarField>(xs: Seq<int>, ys: Seq<int>, z: int) -> int
    decreases xs.len(),
{
    let p = F::modulus() as int;
    if xs.len() <= 1 {
        if ys.len() > 0 {
            ys[0] % p
        } else {
            0
        }
    } else {
        let l = xs.len() - 1;
        (ys[l] + (z - xs[l]) * interp::<F>(xs.subrange(0, l), divided::<F>(xs, ys), z)) % p
    }
}

/// The divided differences against the last point: `(ys[i] - yl) / (xs[i] - xl)`.
pub open spec fn divided<F: ScalarField>(xs: Seq<int>, ys: Seq<int>) -> Seq<int> {
    let p = F::modulus() as int;
    let l = xs.len() - 1;
    Seq::new(
        l as nat,
        |i: int| ((ys[i] - ys[l]) * inv_spec::<F>((xs[i] - xs[l]) % p)) % p,
    )
}

/// Points that differ modulo the characteristic.
pub open spec fn distinct_mod<F: ScalarField>(xs: Seq<int>) -> bool {
    forall|i: int, j: int|
        #![trigger xs[i], xs[j]]
        0 <= i < xs.len() && 0 <= j < xs.len() && i != j ==> (xs[i] - xs[j]) % (F::modulus() as int)
            != 0
}

/// Interpolating the values of a polynomial with no more coefficients than
/// points gives back the polynomial, at every point `z`.
pub proof fn lemma_interp<F: ScalarField>(xs: Seq<int>, ys: Seq<int>, c: Seq<int>, z: int)
    requires
        has_inverses::<F>(),
        xs.len() >= 1,
        ys.len() == xs.len(),
        c.len() <= xs.len(),
        distinct_mod::<F>(xs),
        forall|i: int|
            0 <= i < xs.len() ==> #[trigger] (ys[i] % (F::modulus() as int)) == poly_eval(c, xs[i])
                % (F::modulus() as int),
    ensures
        interp::<F>(xs, ys, z) == poly_eval(c, z) % (F::modulus() as int),
    decreases xs.len(),
{
    let p = F::modulus() as int;
    F::lemma_modulus_bounds();
    if xs.len() == 1 {
        lemma_constant(c, xs[0], z);
        assert(ys[0] % p == poly_eval(c, xs[0]) % p);
    } else {
        let l = xs.len() - 1;
        let xl = xs[l];
        let yl = ys[l];
        let q = quotient(c, xl);
        lemma_divide(c, xl, xl);
        let xs2 = xs.subrange(0, l);
        let ys2 = divided::<F>(xs, ys);
        assert forall|i: int| 0 <= i < xs2.len() implies #[trigger] (ys2[i] % p) == poly_eval(q, xs2[i]) % p by {
            let xi = xs[i];
            let d = (xi - xl) % p;
            assert(xs[i] == xs2[i]);
            assert(d != 0) by {
                assert(i != l);
            }
            assert(0 < d < p) by {
                lemma_mod_bound(xi - xl, p);
            }
            let w = inv_spec::<F>(d);
            assert(invertible::<F>(d));
            assert(0 <= w < p && (d * w) % p == 1);
            lemma_divide(c, xl, xi);
            let qi = poly_eval(q, xi);
            // ys[i] - yl == (xi - xl) * qi  (mod p)
            assert((ys[i] - yl) % p == ((xi - xl) * qi) % p) by {
                lemma_sub_mod_noop(ys[i], yl, p);
                lemma_sub_mod_noop(poly_eval(c, xi), poly_eval(c, xl), p);
            }
            // ((ys[i] - yl) * w) % p == qi % p
            lemma_mul_mod_noop_left(ys[i] - yl, w, p);
            lemma_mul_mod_noop_left((xi - xl) * qi, w, p);
            assert(((xi - xl) * qi) * w == qi * ((xi - xl) * w)) by (nonlinear_arith);
            lemma_mul_mod_noop_right(qi, (xi - xl) * w, p);
            lemma_mul_mod_noop_left(xi - xl, w, p);
            lemma_mod_twice((ys[i] - yl) * w, p);
            assert(ys2[i] == ((ys[i] - yl) * w) % p);
            assert(((ys[i] - yl) * w) % p == (((xi - xl) * qi) * w) % p);
            assert((((xi - xl) * qi) * w) % p == (qi * ((xi - xl) * w)) % p);
            assert((qi * ((xi - xl) * w)) % p == (qi * (((xi - xl) * w) % p)) % p);
            assert(((xi - xl) * w) % p == (d * w) % p);
            let e = ((xi - xl) * w) % p;
            assert(e == 1);
            assert(qi * e == qi) by (nonlinear_arith)
                requires
                    e == 1,
            ;
            assert(ys2[i] == qi % p);
            lemma_mod_twice(qi, p);
            assert(ys2[i] % p == qi % p);
        }
        assert(distinct_mod::<F>(xs2)) by {
            assert forall|i: int, j: int|
                #![trigger xs2[i], xs2[j]]
                0 <= i < xs2.len() && 0 <= j < xs2.len() && i != j implies (xs2[i] - xs2[j]) % p != 0 by {
                assert(xs2[i] == xs[i] && xs2[j] == xs[j]);
            }
        }
        lemma_interp::<F>(xs2, ys2, q, z);
        lemma_divide(c, xl, z);
        let r = interp::<F>(xs2, ys2, z);
        let eq = poly_eval(q, z);
        assert(r == eq % p);
        // (yl + (z - xl) * r) % p == (c(xl) + (z - xl) * q(z)) % p
        assert(yl % p == poly_eval(c, xl) % p);
        lemma_mul_mod_noop_right(z - xl, eq, p);
        lemma_add_mod_noop(yl, (z - xl) * r, p);
        lemma_add_mod_noop(poly_eval(c, xl), (z - xl) * eq, p);
    }
}

} // verus!
