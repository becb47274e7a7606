//! Sharing a whole witness, the scheme-selection guards that come before
//! it, and the public-input list written next to a proof.
use crate::container::SharedWitness;
use crate::error::ShareError;
use crate::field::{digits_value, is_canonical_decimal, Fe, ScalarField};
use crate::rep3::{all_canonical, component_wf, is_rep3_split, values_of, Component, Rep3Share};
use crate::shamir::{is_shamir_split, ShamirShare};
use vstd::prelude::*;

verus! {

/// REP3 runs with threshold 1 among 3 parties only.
pub fn check_rep3_config(t: usize, n: usize) -> (r: Result<(), ShareError>)
    ensures
        r is Ok <==> (t == 1 && n == 3),
        t != 1 ==> (r matches Err(ShareError::Rep3Threshold)),
        (t == 1 && n != 3) ==> (r matches Err(ShareError::Rep3PartyCount)),
{
    if t != 1 {
        return Err(ShareError::Rep3Threshold);
    }
    if n != 3 {
        return Err(ShareError::Rep3PartyCount);
    }
    Ok(())
}

/// Shamir sharing needs `0 < t < n`.
pub fn check_shamir_config(t: usize, n: usize) -> (r: Result<(), ShareError>)
    ensures
        r is Ok <==> (0 < t && t < n),
        r is Err ==> (r matches Err(ShareError::ShamirThreshold)),
{
    if 0 < t && t < n {
        Ok(())
    } else {
        Err(ShareError::ShamirThreshold)
    }
}

fn slice_fes(v: &Vec<Fe>, from: usize, to: usize) -> (r: Vec<Fe>)
    requires
        from <= to <= v@.len(),
    ensures
        r@ == v@.subrange(from as int, to as int),
{
    let mut r: Vec<Fe> = Vec::new();
    let mut i: usize = from;
    while i < to
        invariant
            from <= i <= to,
            to <= v@.len(),
            r@ == v@.subrange(from as int, i as int),
        decreases to - i,
    {
        r.push(v[i]);
        i = i + 1;
    }
    r
}

/// Splits a witness under REP3 after checking the configuration: its first
/// `num_inputs` elements (the constant one among them) stay public in every
/// share, the rest is shared with the random components `c0` and `c1`.
pub fn split_witness_rep3<F: ScalarField>(
    witness: &Vec<Fe>,
    num_inputs: usize,
    t: usize,
    n: usize,
    c0: Component,
    c1: Component,
    additive: bool,
) -> (r: Result<(SharedWitness<Rep3Share>, SharedWitness<Rep3Share>, SharedWitness<Rep3Share>), ShareError>)
    requires
        num_inputs <= witness@.len(),
        all_canonical::<F>(witness@),
        component_wf::<F>(c0, (witness@.len() - num_inputs) as nat),
        component_wf::<F>(c1, (witness@.len() - num_inputs) as nat),
    ensures
        t != 1 ==> (r matches Err(ShareError::Rep3Threshold)),
        (t == 1 && n != 3) ==> (r matches Err(ShareError::Rep3PartyCount)),
        (t == 1 && n == 3) ==> (r matches Ok(w) && {
            &&& w.0.public_inputs@ == witness@.subrange(0, num_inputs as int)
            &&& w.1.public_inputs@ == witness@.subrange(0, num_inputs as int)
            &&& w.2.public_inputs@ == witness@.subrange(0, num_inputs as int)
            &&& is_rep3_split::<F>(
                values_of::<F>(witness@.subrange(num_inputs as int, witness@.len() as int)),
                c0,
                c1,
                additive,
                (w.0.witness, w.1.witness, w.2.witness),
            )
        }),
{
    check_rep3_config(t, n)?;
    let public = slice_fes(witness, 0, num_inputs);
    let secret = slice_fes(witness, num_inputs, witness.len());
    let (x, y, z) = crate::rep3::split::<F>(&secret, c0, c1, additive);
    Ok((
        SharedWitness { public_inputs: slice_fes(&public, 0, public.len()), witness: x },
        SharedWitness { public_inputs: slice_fes(&public, 0, public.len()), witness: y },
        SharedWitness { public_inputs: public, witness: z },
    ))
}

/// Splits a witness under Shamir sharing with threshold `t` among `n`
/// parties; `coeffs[k]` holds the random coefficients for secret element `k`.
pub fn split_witness_shamir<F: ScalarField>(
    witness: &Vec<Fe>,
    num_inputs: usize,
    t: usize,
    n: usize,
    coeffs: &Vec<Vec<Fe>>,
) -> (r: Result<Vec<SharedWitness<ShamirShare>>, ShareError>)
    requires
        num_inputs <= witness@.len(),
        all_canonical::<F>(witness@),
        coeffs@.len() == witness@.len() - num_inputs,
        forall|k: int|
            0 <= k < coeffs@.len() ==> (#[trigger] coeffs@[k])@.len() == t && all_canonical::<F>(
                coeffs@[k]@,
            ),
    ensures
        !(0 < t && t < n) ==> (r matches Err(ShareError::ShamirThreshold)),
        (0 < t && t < n) ==> (r matches Ok(ws) && ws@.len() == n && (forall|j: int|
            0 <= j < n ==> (#[trigger] ws@[j]).public_inputs@ == witness@.subrange(0, num_inputs as int))
            && is_shamir_split::<F>(
            values_of::<F>(witness@.subrange(num_inputs as int, witness@.len() as int)),
            Seq::new(coeffs@.len(), |k: int| coeffs@[k]@),
            n as nat,
            Seq::new(n as nat, |j: int| ws@[j].witness),
        )),
{
    check_shamir_config(t, n)?;
    let public = slice_fes(witness, 0, num_inputs);
    let secret = slice_fes(witness, num_inputs, witness.len());
    let mut shares = crate::shamir::split::<F>(&secret, coeffs, t, n)?;
    let ghost all = shares@;
    let mut out: Vec<SharedWitness<ShamirShare>> = Vec::new();
    while shares.len() > 0
        invariant
            all.len() == n,
            shares@ == all.subrange(out@.len() as int, n as int),
            out@.len() <= n,
            public@ == witness@.subrange(0, num_inputs as int),
            forall|j: int| 0 <= j < out@.len() ==> (#[trigger] out@[j]).public_inputs@ == public@ && out@[j].witness == all[j],
        decreases shares@.len(),
    {
        let s = shares.remove(0);
        out.push(SharedWitness { public_inputs: slice_fes(&public, 0, public.len()), witness: s });
    }
    assert(Seq::new(n as nat, |j: int| out@[j].witness) =~= all);
    Ok(out)
}

/// The public inputs as written next to a proof: decimal strings, without
/// the constant one in front, zero as "0".
pub fn public_inputs_to_strings<F: ScalarField>(public: &Vec<Fe>) -> (r: Vec<String>)
    requires
        all_canonical::<F>(public@),
    ensures
        r@.len() == if public@.len() == 0 { 0 } else { public@.len() - 1 },
        forall|i: int|
            0 <= i < r@.len() ==> if public@[i + 1].value() == 0 {
                #[trigger] r@[i]@ == seq!['0']
            } else {
                is_canonical_decimal(r@[i]@) && digits_value(r@[i]@) == public@[i + 1].value()
            },
{
    let mut r: Vec<String> = Vec::new();
    let mut i: usize = 1;
    while i < public.len()
        invariant
            1 <= i,
            public@.len() == 0 ==> i == 1,
            public@.len() > 0 ==> i <= public@.len(),
            all_canonical::<F>(public@),
            r@.len() == i - 1,
            forall|k: int|
                0 <= k < r@.len() ==> if public@[k + 1].value() == 0 {
                    #[trigger] r@[k]@ == seq!['0']
                } else {
                    is_canonical_decimal(r@[k]@) && digits_value(r@[k]@) == public@[k + 1].value()
                },
        decreases public@.len() - i,
    {
        if public[i].is_zero() {
            let z = "0".to_owned();
            proof {
                reveal_strlit("0");
                assert(z@ =~= seq!['0']);
            }
            r.push(z);
        } else {
            r.push(F::to_decimal(public[i]));
        }
        i = i + 1;
    }
    r
}

} // verus!
