//! Shamir sharing with threshold `t` among `n` parties: party `j` holds the
//! value at `j + 1` of a random polynomial of degree at most `t` whose
//! constant term is the secret.
use crate::error::ShareError;
use crate::field::{Fe, ScalarField};
use crate::poly::{
    distinct_mod, divided, has_inverses, interp, lemma_eval_zero, lemma_interp,
    lemma_inverse_unique, poly_eval,
};
use crate::rep3::{all_canonical, values_of};
use vstd::arithmetic::div_mod::*;
use vstd::prelude::*;

verus! {

/// The shares of one party for a vector of secrets: the values of the
/// polynomials at `index`.
#[derive(Clone, Debug)]
pub struct ShamirShare {
    pub index: usize,
    pub values: Vec<Fe>,
}

impl ShamirShare {
    pub open spec fn wf<F: ScalarField>(self) -> bool {
        all_canonical::<F>(self.values@)
    }
}

/// Elements read as integers.
pub open spec fn ints(v: Seq<Fe>) -> Seq<int> {
    Seq::new(v.len(), |i: int| v[i].value() as int)
}

/// The polynomial with constant term `s` and further coefficients `c`.
pub open spec fn share_poly(s: nat, c: Seq<Fe>) -> Seq<int> {
    seq![s as int] + ints(c)
}

/// `shares` is what splitting the secrets `s` among `n` parties gives, with
/// `cs[k]` the random coefficients of the polynomial of secret `k`.
pub open spec fn is_shamir_split<F: ScalarField>(
    s: Seq<nat>,
    cs: Seq<Seq<Fe>>,
    n: nat,
    shares: Seq<ShamirShare>,
) -> bool {
    &&& shares.len() == n
    &&& forall|j: int|
        0 <= j < n ==> {
            &&& (#[trigger] shares[j]).index == j + 1
            &&& shares[j].values@.len() == s.len()
            &&& shares[j].wf::<F>()
            &&& forall|k: int|
                0 <= k < s.len() ==> #[trigger] shares[j].values@[k].value() == poly_eval(
                    share_poly(s[k], cs[k]),
                    j + 1,
                ) % (F::modulus() as int)
        }
}

/// The points of a set of shares.
pub open spec fn points(shares: Seq<ShamirShare>) -> Seq<int> {
    Seq::new(shares.len(), |j: int| shares[j].index as int)
}

/// The values of secret `k` in a set of shares.
pub open spec fn column<F: ScalarField>(shares: Seq<ShamirShare>, k: int) -> Seq<int> {
    Seq::new(shares.len(), |j: int| shares[j].values@[k].value() as int)
}

/// Secret `k` as interpolation at zero opens it from `shares`.
pub open spec fn shamir_open<F: ScalarField>(shares: Seq<ShamirShare>, k: int) -> int {
    interp::<F>(points(shares), column::<F>(shares, k), 0)
}

/// Shares of equal width at pairwise distinct points.
pub open spec fn consistent(shares: Seq<ShamirShare>) -> bool {
    &&& forall|j: int|
        0 <= j < shares.len() ==> (#[trigger] shares[j]).values@.len() == shares[0].values@.len()
    &&& forall|i: int, j: int|
        #![trigger shares[i], shares[j]]
        0 <= i < shares.len() && 0 <= j < shares.len() && i != j ==> shares[i].index
            != shares[j].index
}

/// Two distinct canonical values differ modulo the characteristic.
pub proof fn lemma_diff_nonzero<F: ScalarField>(a: int, b: int)
    requires
        0 <= a < F::modulus(),
        0 <= b < F::modulus(),
        a != b,
    ensures
        (a - b) % (F::modulus() as int) != 0,
{
    let p = F::modulus() as int;
    F::lemma_modulus_bounds();
    if a > b {
        lemma_small_mod((a - b) as nat, p as nat);
    } else {
        lemma_mod_multiples_vanish(1, a - b, p);
        lemma_small_mod((p + (a - b)) as nat, p as nat);
    }
}

/// The value of `poly` at `x`, by Horner's rule in the field.
fn eval_at<F: ScalarField>(poly: &Vec<Fe>, x: Fe) -> (r: Fe)
    requires
        all_canonical::<F>(poly@),
        x.value() < F::modulus(),
    ensures
        r.value() < F::modulus(),
        r.value() == poly_eval(ints(poly@), x.value() as int) % (F::modulus() as int),
{
    let ghost p = F::modulus() as int;
    proof {
        F::lemma_modulus_bounds();
    }
    let len = poly.len();
    let mut acc = Fe::zero();
    let mut i: usize = len;
    proof {
        assert(ints(poly@).subrange(len as int, len as int).len() == 0);
        assert(poly_eval(ints(poly@).subrange(len as int, len as int), x.value() as int) == 0);
        lemma_small_mod(0, p as nat);
    }
    while i > 0
        invariant
            len == poly@.len(),
            all_canonical::<F>(poly@),
            x.value() < F::modulus(),
            p == F::modulus() as int,
            p > 0,
            i <= len,
            acc.value() < F::modulus(),
            acc.value() == poly_eval(ints(poly@).subrange(i as int, len as int), x.value() as int)
                % p,
        decreases i,
    {
        let ghost e = poly_eval(ints(poly@).subrange(i as int, len as int), x.value() as int);
        let m = F::mul(acc, x);
        acc = F::add(m, poly[i - 1]);
        proof {
            let c = poly@[i - 1].value() as int;
            let xv = x.value() as int;
            let tail = ints(poly@).subrange(i - 1, len as int);
            assert(tail.drop_first() =~= ints(poly@).subrange(i as int, len as int));
            assert(tail[0] == c);
            assert(poly_eval(tail, xv) == c + xv * e);
            lemma_mul_mod_noop_left(e, xv, p);
            lemma_add_mod_noop(e * xv, c, p);
            lemma_small_mod(c as nat, p as nat);
            lemma_mod_twice(e * xv, p);
            assert(e * xv == xv * e) by (nonlinear_arith);
        }
        i = i - 1;
    }
    assert(ints(poly@).subrange(0, len as int) =~= ints(poly@));
    acc
}

/// Newton interpolation at zero through the points `(xs[i], ys[i])`.
fn interpolate_at_zero<F: ScalarField>(xs: &Vec<Fe>, ys: &Vec<Fe>) -> (r: Fe)
    requires
        xs@.len() >= 1,
        ys@.len() == xs@.len(),
        all_canonical::<F>(xs@),
        all_canonical::<F>(ys@),
        forall|i: int, j: int|
            #![trigger xs@[i], xs@[j]]
            0 <= i < xs@.len() && 0 <= j < xs@.len() && i != j ==> xs@[i].value() != xs@[j].value(),
    ensures
        r.value() < F::modulus(),
        r.value() == interp::<F>(ints(xs@), ints(ys@), 0),
    decreases xs@.len(),
{
    let ghost p = F::modulus() as int;
    proof {
        F::lemma_modulus_bounds();
    }
    let n = xs.len();
    if n == 1 {
        proof {
            lemma_small_mod(ys@[0].value(), p as nat);
        }
        return ys[0];
    }
    let l = n - 1;
    let xl = xs[l];
    let yl = ys[l];
    let ghost gx = ints(xs@);
    let ghost gy = ints(ys@);
    let mut xs2: Vec<Fe> = Vec::new();
    let mut ys2: Vec<Fe> = Vec::new();
    let mut i: usize = 0;
    while i < l
        invariant
            n == xs@.len(),
            n == ys@.len(),
            l == n - 1,
            xl == xs@[l as int],
            yl == ys@[l as int],
            gx == ints(xs@),
            gy == ints(ys@),
            p == F::modulus() as int,
            p > 0,
            all_canonical::<F>(xs@),
            all_canonical::<F>(ys@),
            forall|a: int, b: int|
                #![trigger xs@[a], xs@[b]]
                0 <= a < xs@.len() && 0 <= b < xs@.len() && a != b ==> xs@[a].value()
                    != xs@[b].value(),
            i <= l,
            xs2@ == xs@.subrange(0, i as int),
            ys2@.len() == i,
            all_canonical::<F>(ys2@),
            forall|k: int| 0 <= k < i ==> #[trigger] ys2@[k].value() == divided::<F>(gx, gy)[k],
        decreases l - i,
    {
        let e = F::sub(xs[i], xl);
        proof {
            assert(xs@[i as int].value() != xs@[l as int].value());
            lemma_diff_nonzero::<F>(xs@[i as int].value() as int, xl.value() as int);
        }
        let w = F::inverse(e).unwrap();
        let d = F::sub(ys[i], yl);
        let y = F::mul(d, w);
        proof {
            let xi = xs@[i as int].value() as int;
            let yi = ys@[i as int].value() as int;
            lemma_inverse_unique::<F>(e.value() as int, w.value() as int);
            assert(gx[i as int] == xi && gx[l as int] == xl.value());
            assert(gy[i as int] == yi && gy[l as int] == yl.value());
            lemma_mul_mod_noop_left(yi - yl.value(), w.value() as int, p);
            assert(y.value() == divided::<F>(gx, gy)[i as int]);
        }
        xs2.push(xs[i]);
        ys2.push(y);
        i = i + 1;
    }
    proof {
        assert(ints(xs2@) =~= gx.subrange(0, l as int));
        assert(ints(ys2@) =~= divided::<F>(gx, gy));
    }
    let rec = interpolate_at_zero::<F>(&xs2, &ys2);
    let zx = F::sub(Fe::zero(), xl);
    let m = F::mul(zx, rec);
    let r = F::add(yl, m);
    proof {
        let rv = rec.value() as int;
        let x = xl.value() as int;
        lemma_mul_mod_noop_left(0 - x, rv, p);
        lemma_add_mod_noop(yl.value() as int, (0 - x) * rv, p);
        lemma_small_mod(yl.value(), p as nat);
        lemma_mod_twice((0 - x) * rv, p);
        assert(gy[l as int] == yl.value() && gx[l as int] == x);
    }
    r
}

/// Splits each secret among `n` parties with threshold `t`; `coeffs[k]`
/// holds the `t` random higher coefficients of the polynomial of secret `k`.
pub fn split<F: ScalarField>(secrets: &Vec<Fe>, coeffs: &Vec<Vec<Fe>>, t: usize, n: usize) -> (r: Result<Vec<ShamirShare>, ShareError>)
    requires
        all_canonical::<F>(secrets@),
        coeffs@.len() == secrets@.len(),
        forall|k: int|
            0 <= k < coeffs@.len() ==> (#[trigger] coeffs@[k])@.len() == t && all_canonical::<F>(
                coeffs@[k]@,
            ),
    ensures
        !(0 < t && t < n) ==> (r matches Err(ShareError::ShamirThreshold)),
        (0 < t && t < n) ==> (r matches Ok(sh) && is_shamir_split::<F>(
            values_of::<F>(secrets@),
            Seq::new(coeffs@.len(), |k: int| coeffs@[k]@),
            n as nat,
            sh@,
        )),
{
    if !(0 < t && t < n) {
        return Err(ShareError::ShamirThreshold);
    }
    proof {
        F::lemma_modulus_bounds();
    }
    let ghost s = values_of::<F>(secrets@);
    let ghost cs = Seq::new(coeffs@.len(), |k: int| coeffs@[k]@);
    let width = secrets.len();
    // the polynomial of each secret, constant term first
    let mut polys: Vec<Vec<Fe>> = Vec::new();
    let mut k: usize = 0;
    while k < width
        invariant
            width == secrets@.len(),
            coeffs@.len() == width,
            all_canonical::<F>(secrets@),
            forall|q: int|
                0 <= q < coeffs@.len() ==> (#[trigger] coeffs@[q])@.len() == t && all_canonical::<F>(
                    coeffs@[q]@,
                ),
            k <= width,
            polys@.len() == k,
            forall|q: int|
                0 <= q < k ==> all_canonical::<F>((#[trigger] polys@[q])@) && ints(polys@[q]@)
                    == share_poly(secrets@[q].value(), coeffs@[q]@),
        decreases width - k,
    {
        let mut poly: Vec<Fe> = Vec::new();
        poly.push(secrets[k]);
        let c = &coeffs[k];
        let mut i: usize = 0;
        while i < c.len()
            invariant
                poly@ == seq![secrets@[k as int]] + c@.subrange(0, i as int),
                i <= c@.len(),
            decreases c@.len() - i,
        {
            poly.push(c[i]);
            i = i + 1;
        }
        proof {
            assert(c@.subrange(0, c@.len() as int) =~= c@);
            assert(ints(poly@) =~= share_poly(secrets@[k as int].value(), coeffs@[k as int]@));
        }
        polys.push(poly);
        k = k + 1;
    }
    let mut shares: Vec<ShamirShare> = Vec::new();
    let mut j: usize = 0;
    while j < n
        invariant
            width == secrets@.len(),
            coeffs@.len() == width,
            polys@.len() == width,
            s == values_of::<F>(secrets@),
            cs == Seq::new(coeffs@.len(), |q: int| coeffs@[q]@),
            limb_base_lt::<F>(),
            forall|q: int|
                0 <= q < width ==> all_canonical::<F>((#[trigger] polys@[q])@) && ints(polys@[q]@)
                    == share_poly(secrets@[q].value(), coeffs@[q]@),
            j <= n,
            shares@.len() == j,
            forall|a: int|
                0 <= a < j ==> {
                    &&& (#[trigger] shares@[a]).index == a + 1
                    &&& shares@[a].values@.len() == s.len()
                    &&& shares@[a].wf::<F>()
                    &&& forall|q: int|
                        0 <= q < s.len() ==> #[trigger] shares@[a].values@[q].value() == poly_eval(
                            share_poly(s[q], cs[q]),
                            a + 1,
                        ) % (F::modulus() as int)
                },
        decreases n - j,
    {
        let x = Fe::from_u64((j + 1) as u64);
        let mut values: Vec<Fe> = Vec::new();
        let mut q: usize = 0;
        while q < width
            invariant
                width == secrets@.len(),
                polys@.len() == width,
                s == values_of::<F>(secrets@),
                cs == Seq::new(coeffs@.len(), |q: int| coeffs@[q]@),
                coeffs@.len() == width,
                x.value() == j + 1,
                x.value() < F::modulus(),
                forall|q: int|
                    0 <= q < width ==> all_canonical::<F>((#[trigger] polys@[q])@) && ints(
                        polys@[q]@,
                    ) == share_poly(secrets@[q].value(), coeffs@[q]@),
                q <= width,
                values@.len() == q,
                all_canonical::<F>(values@),
                forall|b: int|
                    0 <= b < q ==> #[trigger] values@[b].value() == poly_eval(
                        share_poly(s[b], cs[b]),
                        j + 1,
                    ) % (F::modulus() as int),
            decreases width - q,
        {
            let v = eval_at::<F>(&polys[q], x);
            proof {
                assert(s[q as int] == secrets@[q as int].value());
                assert(cs[q as int] == coeffs@[q as int]@);
            }
            values.push(v);
            q = q + 1;
        }
        shares.push(ShamirShare { index: j + 1, values });
        j = j + 1;
    }
    Ok(shares)
}

/// The characteristic exceeds every `u64`, so party indices stay distinct.
pub open spec fn limb_base_lt<F: ScalarField>() -> bool {
    crate::field::limb_base() < F::modulus()
}

/// Opens the secrets from the shares of at least `t + 1` distinct parties
/// by interpolation at zero. With `t` shares or fewer it fails.
pub fn reconstruct<F: ScalarField>(shares: &Vec<ShamirShare>, t: usize) -> (r: Result<Vec<Fe>, ShareError>)
    requires
        forall|j: int| 0 <= j < shares@.len() ==> (#[trigger] shares@[j]).wf::<F>(),
    ensures
        shares@.len() <= t ==> (r matches Err(ShareError::InsufficientShares)),
        (shares@.len() > t && !consistent(shares@)) ==> (r matches Err(ShareError::MismatchedShares)),
        (shares@.len() > t && consistent(shares@)) ==> (r matches Ok(v) && v@.len() == shares@[0].values@.len()
            && all_canonical::<F>(v@) && forall|k: int|
            0 <= k < v@.len() ==> #[trigger] v@[k].value() == shamir_open::<F>(shares@, k)),
{
    let m = shares.len();
    if m <= t {
        return Err(ShareError::InsufficientShares);
    }
    proof {
        F::lemma_modulus_bounds();
    }
    let width = shares[0].values.len();
    let mut j: usize = 0;
    while j < m
        invariant
            m == shares@.len(),
            m > t,
            width == shares@[0].values@.len(),
            j <= m,
            forall|a: int| 0 <= a < j ==> (#[trigger] shares@[a]).values@.len() == width,
        decreases m - j,
    {
        if shares[j].values.len() != width {
            return Err(ShareError::MismatchedShares);
        }
        j = j + 1;
    }
    let mut xs: Vec<Fe> = Vec::new();
    let mut i: usize = 0;
    while i < m
        invariant
            m == shares@.len(),
            m > t,
            forall|a: int| 0 <= a < m ==> (#[trigger] shares@[a]).values@.len() == width,
            width == shares@[0].values@.len(),
            limb_base_lt::<F>(),
            i <= m,
            xs@.len() == i,
            forall|a: int| 0 <= a < i ==> (#[trigger] xs@[a]).value() == shares@[a].index,
            forall|a: int, b: int|
                #![trigger shares@[a], shares@[b]]
                0 <= a < i && 0 <= b < i && a != b ==> shares@[a].index != shares@[b].index,
        decreases m - i,
    {
        let mut b: usize = 0;
        while b < i
            invariant
                m == shares@.len(),
                m > t,
                i < m,
                b <= i,
                forall|c: int| 0 <= c < b ==> shares@[c].index != #[trigger] shares@[i as int].index,
            decreases i - b,
        {
            if shares[b].index == shares[i].index {
                proof {
                    assert(!consistent(shares@)) by {
                        assert(shares@[b as int].index == shares@[i as int].index);
                    }
                }
                return Err(ShareError::MismatchedShares);
            }
            b = b + 1;
        }
        xs.push(Fe::from_u64(shares[i].index as u64));
        i = i + 1;
    }
    assert(consistent(shares@));
    assert forall|a: int, b: int|
        #![trigger xs@[a], xs@[b]]
        0 <= a < m && 0 <= b < m && a != b implies xs@[a].value() != xs@[b].value() by {
        assert(shares@[a].index != shares@[b].index);
    }
    assert(all_canonical::<F>(xs@));
    assert(ints(xs@) =~= points(shares@));
    let mut out: Vec<Fe> = Vec::new();
    let mut k: usize = 0;
    while k < width
        invariant
            m == shares@.len(),
            m > 0,
            forall|a: int| 0 <= a < m ==> (#[trigger] shares@[a]).values@.len() == width,
            forall|a: int| 0 <= a < m ==> (#[trigger] shares@[a]).wf::<F>(),
            xs@.len() == m,
            all_canonical::<F>(xs@),
            ints(xs@) == points(shares@),
            forall|a: int, b: int|
                #![trigger xs@[a], xs@[b]]
                0 <= a < m && 0 <= b < m && a != b ==> xs@[a].value() != xs@[b].value(),
            k <= width,
            out@.len() == k,
            all_canonical::<F>(out@),
            forall|q: int| 0 <= q < k ==> #[trigger] out@[q].value() == shamir_open::<F>(shares@, q),
        decreases width - k,
    {
        let mut ys: Vec<Fe> = Vec::new();
        let mut a: usize = 0;
        while a < m
            invariant
                m == shares@.len(),
                k < width,
                forall|c: int| 0 <= c < m ==> (#[trigger] shares@[c]).values@.len() == width,
                forall|c: int| 0 <= c < m ==> (#[trigger] shares@[c]).wf::<F>(),
                a <= m,
                ys@.len() == a,
                forall|c: int| 0 <= c < a ==> #[trigger] ys@[c] == shares@[c].values@[k as int],
            decreases m - a,
        {
            ys.push(shares[a].values[k]);
            a = a + 1;
        }
        proof {
            assert(ints(ys@) =~= column::<F>(shares@, k as int));
            assert forall|c: int| 0 <= c < ys@.len() implies #[trigger] ys@[c].value() < F::modulus() by {
                assert(shares@[c].wf::<F>());
            }
        }
        let v = interpolate_at_zero::<F>(&xs, &ys);
        out.push(v);
        k = k + 1;
    }
    Ok(out)
}

/// Any `t + 1` or more distinct shares of a Shamir split open to the
/// secret, in a field where every nonzero element has an inverse.
pub proof fn lemma_shamir_round_trip<F: ScalarField>(
    s: Seq<nat>,
    cs: Seq<Seq<Fe>>,
    t: nat,
    n: nat,
    shares: Seq<ShamirShare>,
    sel: Seq<int>,
    k: int,
)
    requires
        has_inverses::<F>(),
        0 < t < n,
        forall|q: int| 0 <= q < s.len() ==> #[trigger] s[q] < F::modulus(),
        forall|q: int| 0 <= q < s.len() ==> (#[trigger] cs[q]).len() == t,
        is_shamir_split::<F>(s, cs, n, shares),
        sel.len() >= t + 1,
        forall|a: int| 0 <= a < sel.len() ==> 0 <= #[trigger] sel[a] < n,
        forall|a: int, b: int|
            #![trigger sel[a], sel[b]]
            0 <= a < sel.len() && 0 <= b < sel.len() && a != b ==> sel[a] != sel[b],
        0 <= k < s.len(),
    ensures
        shamir_open::<F>(Seq::new(sel.len(), |a: int| shares[sel[a]]), k) == s[k],
{
    let p = F::modulus() as int;
    F::lemma_modulus_bounds();
    let sub = Seq::new(sel.len(), |a: int| shares[sel[a]]);
    let xs = points(sub);
    let ys = column::<F>(sub, k);
    let c = share_poly(s[k], cs[k]);
    assert forall|a: int| 0 <= a < xs.len() implies #[trigger] xs[a] == sel[a] + 1 && 0 < xs[a] < p by {
        assert(shares[sel[a]].index == sel[a] + 1);
    }
    assert(distinct_mod::<F>(xs)) by {
        assert forall|a: int, b: int|
            #![trigger xs[a], xs[b]]
            0 <= a < xs.len() && 0 <= b < xs.len() && a != b implies (xs[a] - xs[b]) % p != 0 by {
            assert(sel[a] != sel[b]);
            lemma_diff_nonzero::<F>(xs[a], xs[b]);
        }
    }
    assert forall|a: int| 0 <= a < xs.len() implies #[trigger] (ys[a] % p) == poly_eval(c, xs[a]) % p by {
        let j = sel[a];
        assert(shares[j].values@[k].value() == poly_eval(c, j + 1) % p);
        lemma_mod_twice(poly_eval(c, j + 1), p);
    }
    lemma_interp::<F>(xs, ys, c, 0);
    lemma_eval_zero(c);
    lemma_small_mod(s[k], p as nat);
}

} // verus!
