//! Translation of REP3 shares into Shamir shares with threshold 1 among the
//! same three parties. Each party reshares its additive component with a
//! Shamir split and sends one sub-share to every party; each party adds up
//! the three sub-shares it receives.
use crate::error::ShareError;
use crate::field::{Fe, ScalarField};
use crate::poly::{distinct_mod, has_inverses, lemma_eval_zero, lemma_interp, poly_eval};
use crate::rep3::{all_canonical, component_to_values, values_of, Rep3Share};
use crate::shamir::{is_shamir_split, shamir_open, share_poly, split, ShamirShare};
use vstd::arithmetic::div_mod::*;
use vstd::prelude::*;

verus! {

/// The sharing schemes.
#[derive(Clone, Copy, Debug, PartialEq, Eq, Structural)]
pub enum Protocol {
    Rep3,
    Shamir,
}

/// Only REP3 to Shamir is a supported translation; anything else is refused
/// before any message is sent.
pub fn check_translation(src: Protocol, target: Protocol) -> (r: Result<(), ShareError>)
    ensures
        (src == Protocol::Rep3 && target == Protocol::Shamir) <==> r is Ok,
        r is Err ==> (r matches Err(ShareError::UnsupportedTranslation)),
{
    if src == Protocol::Rep3 && target == Protocol::Shamir {
        Ok(())
    } else {
        Err(ShareError::UnsupportedTranslation)
    }
}

/// The additive component that a REP3 party brings to the translation.
pub fn additive_component<F: ScalarField>(share: &Rep3Share) -> (r: Vec<Fe>)
    requires
        share.wf::<F>(),
    ensures
        values_of::<F>(r@) == share.own_values::<F>(),
        all_canonical::<F>(r@),
{
    component_to_values::<F>(&share.own, share.len)
}

/// The threshold of the translated sharing.
pub const TRANSLATION_THRESHOLD: usize = 1;

/// The number of parties of the translation.
pub const TRANSLATION_PARTIES: usize = 3;

/// First round: reshares this party's additive component; sub-share `j` is
/// sent to party `j`. `coeffs[k]` is the random linear coefficient for
/// element `k`.
pub fn reshare<F: ScalarField>(own: &Vec<Fe>, coeffs: &Vec<Vec<Fe>>) -> (r: Vec<ShamirShare>)
    requires
        all_canonical::<F>(own@),
        coeffs@.len() == own@.len(),
        forall|k: int|
            0 <= k < coeffs@.len() ==> (#[trigger] coeffs@[k])@.len() == 1 && all_canonical::<F>(
                coeffs@[k]@,
            ),
    ensures
        is_shamir_split::<F>(
            values_of::<F>(own@),
            Seq::new(coeffs@.len(), |k: int| coeffs@[k]@),
            3,
            r@,
        ),
{
    match split::<F>(own, coeffs, TRANSLATION_THRESHOLD, TRANSLATION_PARTIES) {
        Ok(sh) => sh,
        Err(_) => {
            proof {
                assert(false);
            }
            Vec::new()
        },
    }
}

/// `r` is the sum of the three sub-shares `x`, `y`, `z` for one party.
pub open spec fn is_sum_share<F: ScalarField>(
    x: ShamirShare,
    y: ShamirShare,
    z: ShamirShare,
    r: ShamirShare,
) -> bool {
    &&& r.index == x.index
    &&& r.values@.len() == x.values@.len()
    &&& r.wf::<F>()
    &&& forall|k: int|
        0 <= k < r.values@.len() ==> #[trigger] r.values@[k].value() == (x.values@[k].value()
            + y.values@[k].value() + z.values@[k].value()) % F::modulus()
}

/// Second round: adds up the sub-shares this party received into its Shamir
/// share. Sub-shares for different parties or of different widths are a
/// malformed message.
pub fn combine<F: ScalarField>(x: &ShamirShare, y: &ShamirShare, z: &ShamirShare) -> (r: Result<
    ShamirShare,
    ShareError,
>)
    requires
        x.wf::<F>(),
        y.wf::<F>(),
        z.wf::<F>(),
    ensures
        (x.index == y.index && y.index == z.index && x.values@.len() == y.values@.len()
            && y.values@.len() == z.values@.len()) ==> (r matches Ok(s) && is_sum_share::<F>(
            *x,
            *y,
            *z,
            s,
        )),
        !(x.index == y.index && y.index == z.index && x.values@.len() == y.values@.len()
            && y.values@.len() == z.values@.len()) ==> (r matches Err(ShareError::MalformedMessage)),
{
    if !(x.index == y.index && y.index == z.index && x.values.len() == y.values.len()
        && y.values.len() == z.values.len()) {
        return Err(ShareError::MalformedMessage);
    }
    let values = crate::rep3::sum3::<F>(&x.values, &y.values, &z.values);
    Ok(ShamirShare { index: x.index, values })
}

/// The coefficient-wise sum of three polynomials of equal length.
pub open spec fn poly_sum3(a: Seq<int>, b: Seq<int>, c: Seq<int>) -> Seq<int> {
    Seq::new(a.len(), |i: int| a[i] + b[i] + c[i])
}

proof fn lemma_eval_sum3(a: Seq<int>, b: Seq<int>, c: Seq<int>, x: int)
    requires
        a.len() == b.len() && b.len() == c.len(),
    ensures
        poly_eval(poly_sum3(a, b, c), x) == poly_eval(a, x) + poly_eval(b, x) + poly_eval(c, x),
    decreases a.len(),
{
    if a.len() > 0 {
        lemma_eval_sum3(a.drop_first(), b.drop_first(), c.drop_first(), x);
        assert(poly_sum3(a, b, c).drop_first() =~= poly_sum3(
            a.drop_first(),
            b.drop_first(),
            c.drop_first(),
        ));
        let ea = poly_eval(a.drop_first(), x);
        let eb = poly_eval(b.drop_first(), x);
        let ec = poly_eval(c.drop_first(), x);
        assert(x * (ea + eb + ec) == x * ea + x * eb + x * ec) by (nonlinear_arith);
    }
}

/// Translation preserves the secret: when the additive components `a0`,
/// `a1`, `a2` add up to `s`, each party reshares its own with a Shamir split
/// of threshold 1, and each party adds up what it receives, then any two or
/// more of the resulting shares open to `s`.
pub proof fn lemma_translation<F: ScalarField>(
    s: Seq<nat>,
    a0: Seq<nat>,
    a1: Seq<nat>,
    a2: Seq<nat>,
    cs0: Seq<Seq<Fe>>,
    cs1: Seq<Seq<Fe>>,
    cs2: Seq<Seq<Fe>>,
    sub0: Seq<ShamirShare>,
    sub1: Seq<ShamirShare>,
    sub2: Seq<ShamirShare>,
    combined: Seq<ShamirShare>,
    sel: Seq<int>,
    k: int,
)
    requires
        has_inverses::<F>(),
        a0.len() == s.len() && a1.len() == s.len() && a2.len() == s.len(),
        forall|q: int|
            0 <= q < s.len() ==> #[trigger] s[q] < F::modulus() && (a0[q] + a1[q] + a2[q])
                % F::modulus() == s[q],
        forall|q: int| 0 <= q < s.len() ==> (#[trigger] cs0[q]).len() == 1,
        forall|q: int| 0 <= q < s.len() ==> (#[trigger] cs1[q]).len() == 1,
        forall|q: int| 0 <= q < s.len() ==> (#[trigger] cs2[q]).len() == 1,
        is_shamir_split::<F>(a0, cs0, 3, sub0),
        is_shamir_split::<F>(a1, cs1, 3, sub1),
        is_shamir_split::<F>(a2, cs2, 3, sub2),
        combined.len() == 3,
        forall|j: int|
            0 <= j < 3 ==> is_sum_share::<F>(sub0[j], sub1[j], sub2[j], #[trigger] combined[j]),
        sel.len() >= 2,
        forall|a: int| 0 <= a < sel.len() ==> 0 <= #[trigger] sel[a] < 3,
        forall|a: int, b: int|
            #![trigger sel[a], sel[b]]
            0 <= a < sel.len() && 0 <= b < sel.len() && a != b ==> sel[a] != sel[b],
        0 <= k < s.len(),
    ensures
        shamir_open::<F>(Seq::new(sel.len(), |a: int| combined[sel[a]]), k) == s[k],
{
    let p = F::modulus() as int;
    F::lemma_modulus_bounds();
    let part = Seq::new(sel.len(), |a: int| combined[sel[a]]);
    let xs = crate::shamir::points(part);
    let ys = crate::shamir::column::<F>(part, k);
    let p0 = share_poly(a0[k], cs0[k]);
    let p1 = share_poly(a1[k], cs1[k]);
    let p2 = share_poly(a2[k], cs2[k]);
    let c = poly_sum3(p0, p1, p2);
    assert forall|a: int| 0 <= a < xs.len() implies #[trigger] xs[a] == sel[a] + 1 && 0 < xs[a] < p by {
        assert(sub0[sel[a]].index == sel[a] + 1);
        assert(combined[sel[a]].index == sub0[sel[a]].index);
    }
    assert(distinct_mod::<F>(xs)) by {
        assert forall|a: int, b: int|
            #![trigger xs[a], xs[b]]
            0 <= a < xs.len() && 0 <= b < xs.len() && a != b implies (xs[a] - xs[b]) % p != 0 by {
            assert(sel[a] != sel[b]);
            crate::shamir::lemma_diff_nonzero::<F>(xs[a], xs[b]);
        }
    }
    assert forall|a: int| 0 <= a < xs.len() implies #[trigger] (ys[a] % p) == poly_eval(c, xs[a]) % p by {
        let j = sel[a];
        let x = j + 1;
        let e0 = poly_eval(p0, x);
        let e1 = poly_eval(p1, x);
        let e2 = poly_eval(p2, x);
        assert(combined[j].values@.len() == sub0[j].values@.len());
        assert(sub0[j].values@[k].value() == e0 % p);
        assert(sub1[j].values@[k].value() == e1 % p);
        assert(sub2[j].values@[k].value() == e2 % p);
        assert(ys[a] == (e0 % p + e1 % p + e2 % p) % p);
        lemma_eval_sum3(p0, p1, p2, x);
        lemma_add_mod_noop(e0, e1, p);
        lemma_add_mod_noop(e0 + e1, e2, p);
        lemma_add_mod_noop(e0 % p + e1 % p, e2 % p, p);
        lemma_mod_twice(e2, p);
        lemma_mod_twice(e0 % p + e1 % p, p);
        lemma_mod_twice(e0 + e1 + e2, p);
        lemma_mod_twice(ys[a], p);
    }
    lemma_interp::<F>(xs, ys, c, 0);
    lemma_eval_zero(c);
    assert(c[0] == a0[k] + a1[k] + a2[k]);
}

/// The state of one party in a Shamir session: the configuration, and the
/// correlated randomness that preprocessing produced, consumed in order and
/// never regenerated.
pub struct ShamirSession {
    threshold: usize,
    num_parties: usize,
    party: usize,
    randomness: Vec<Fe>,
    used: usize,
}

impl ShamirSession {
    pub closed spec fn spec_threshold(&self) -> usize {
        self.threshold
    }

    pub closed spec fn spec_num_parties(&self) -> usize {
        self.num_parties
    }

    pub closed spec fn spec_party(&self) -> usize {
        self.party
    }

    /// The randomness not consumed yet, in the order it will be handed out.
    pub closed spec fn remaining(&self) -> Seq<Fe> {
        self.randomness@.subrange(self.used as int, self.randomness@.len() as int)
    }

    pub closed spec fn wf(&self) -> bool {
        self.used <= self.randomness@.len()
    }

    /// Opens a session after preprocessing; needs `0 < t < n` and a party
    /// among the `n`.
    pub fn new(threshold: usize, num_parties: usize, party: usize, randomness: Vec<Fe>) -> (r: Result<ShamirSession, ShareError>)
        ensures
            !(0 < threshold && threshold < num_parties) ==> (r matches Err(ShareError::ShamirThreshold)),
            (0 < threshold && threshold < num_parties && party >= num_parties) ==> (r matches Err(ShareError::MismatchedShares)),
            (0 < threshold && threshold < num_parties && party < num_parties) ==> (r matches Ok(s) && s.wf()
                && s.spec_threshold() == threshold && s.spec_num_parties() == num_parties
                && s.spec_party() == party && s.remaining() == randomness@),
    {
        if !(0 < threshold && threshold < num_parties) {
            return Err(ShareError::ShamirThreshold);
        }
        if party >= num_parties {
            return Err(ShareError::MismatchedShares);
        }
        let s = ShamirSession { threshold, num_parties, party, randomness, used: 0 };
        assert(s.remaining() =~= randomness@);
        Ok(s)
    }

    pub fn threshold(&self) -> (r: usize)
        ensures
            r == self.spec_threshold(),
    {
        self.threshold
    }

    pub fn num_parties(&self) -> (r: usize)
        ensures
            r == self.spec_num_parties(),
    {
        self.num_parties
    }

    pub fn party(&self) -> (r: usize)
        ensures
            r == self.spec_party(),
    {
        self.party
    }

    /// Hands out the next `count` random elements, or fails with
    /// `RandomnessExhausted` and consumes nothing where fewer are left.
    pub fn take(&mut self, count: usize) -> (r: Result<Vec<Fe>, ShareError>)
        requires
            old(self).wf(),
        ensures
            final(self).wf(),
            final(self).spec_threshold() == old(self).spec_threshold(),
            final(self).spec_num_parties() == old(self).spec_num_parties(),
            final(self).spec_party() == old(self).spec_party(),
            count > old(self).remaining().len() ==> (r matches Err(ShareError::RandomnessExhausted)) && final(self).remaining() == old(self).remaining(),
            count <= old(self).remaining().len() ==> (r matches Ok(v) && v@ == old(self).remaining().subrange(0, count as int)
                && final(self).remaining() == old(self).remaining().subrange(count as int, old(self).remaining().len() as int)),
    {
        let total = self.randomness.len();
        if count > total - self.used {
            return Err(ShareError::RandomnessExhausted);
        }
        let mut out: Vec<Fe> = Vec::new();
        let mut i: usize = 0;
        while i < count
            invariant
                self.used + count <= self.randomness@.len(),
                self.randomness@.len() == self.randomness.len(),
                i <= count,
                out@ == self.randomness@.subrange(self.used as int, self.used + i),
            decreases count - i,
        {
            let at = self.used + i;
            out.push(self.randomness[at]);
            i = i + 1;
        }
        let ghost before = self.remaining();
        self.used = self.used + count;
        assert(out@ =~= before.subrange(0, count as int));
        assert(self.remaining() =~= before.subrange(count as int, before.len() as int));
        Ok(out)
    }
}

/// First round with the session's randomness: reshares this party's
/// additive component, taking one preprocessed element per element as the
/// linear coefficient. Too little randomness left is an error.
pub fn reshare_from_session<F: ScalarField>(session: &mut ShamirSession, own: &Vec<Fe>) -> (r: Result<Vec<ShamirShare>, ShareError>)
    requires
        old(session).wf(),
        all_canonical::<F>(own@),
        all_canonical::<F>(old(session).remaining()),
    ensures
        final(session).wf(),
        own@.len() > old(session).remaining().len() ==> (r matches Err(ShareError::RandomnessExhausted)),
        own@.len() <= old(session).remaining().len() ==> (r matches Ok(sh) && is_shamir_split::<F>(
            values_of::<F>(own@),
            Seq::new(own@.len(), |k: int| seq![old(session).remaining()[k]]),
            3,
            sh@,
        ) && final(session).remaining() == old(session).remaining().subrange(own@.len() as int, old(session).remaining().len() as int)),
{
    let ghost rem = session.remaining();
    let rand = session.take(own.len())?;
    let mut coeffs: Vec<Vec<Fe>> = Vec::new();
    let mut k: usize = 0;
    while k < rand.len()
        invariant
            rand@ == rem.subrange(0, own@.len() as int),
            own@.len() <= rem.len(),
            all_canonical::<F>(rem),
            k <= rand@.len(),
            coeffs@.len() == k,
            forall|q: int| 0 <= q < k ==> (#[trigger] coeffs@[q])@ == seq![rand@[q]],
        decreases rand@.len() - k,
    {
        let mut c: Vec<Fe> = Vec::new();
        c.push(rand[k]);
        proof {
            assert(c@ =~= seq![rand@[k as int]]);
        }
        coeffs.push(c);
        k = k + 1;
    }
    proof {
        assert forall|q: int| 0 <= q < coeffs@.len() implies (#[trigger] coeffs@[q])@.len() == 1 && all_canonical::<F>(coeffs@[q]@) by {
            assert(rand@[q] == rem[q]);
        }
        assert(Seq::new(coeffs@.len(), |q: int| coeffs@[q]@) =~= Seq::new(own@.len(), |q: int| seq![rem[q]]));
    }
    Ok(reshare::<F>(own, &coeffs))
}

} // verus!
