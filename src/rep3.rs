//! Replicated sharing among exactly three parties with threshold 1.
//!
//! A secret `s` is written as `c0 + c1 + c2`; party `i` holds `c_i` and
//! `c_{i+1 mod 3}`, so any two parties together hold all three components.
//! In additive mode party `i` holds `c_i` alone.
use crate::error::ShareError;
use crate::field::{Fe, ScalarField};
use vstd::arithmetic::div_mod::*;
use vstd::prelude::*;

verus! {

/// One additive component of a whole vector of secrets: either its values,
/// or a seed from which each holder expands them.
#[derive(Clone, Debug)]
pub enum Component {
    Values(Vec<Fe>),
    Seed([u8; 32]),
}

pub fn copy_fes(v: &Vec<Fe>) -> (r: Vec<Fe>)
    ensures
        r@ == v@,
{
    let mut r: Vec<Fe> = Vec::new();
    let mut i: usize = 0;
    while i < v.len()
        invariant
            i <= v@.len(),
            r@ == v@.subrange(0, i as int),
        decreases v@.len() - i,
    {
        r.push(v[i]);
        i = i + 1;
    }
    assert(r@ == v@);
    r
}

/// The same component: equal values, or the same seed.
pub open spec fn same_component(a: Component, b: Component) -> bool {
    match (a, b) {
        (Component::Values(x), Component::Values(y)) => x@ == y@,
        (Component::Seed(s), Component::Seed(t)) => s == t,
        _ => false,
    }
}

impl Component {
    /// An equal copy.
    pub fn duplicate(&self) -> (r: Component)
        ensures
            same_component(r, *self),
    {
        match self {
            Component::Values(v) => Component::Values(copy_fes(v)),
            Component::Seed(s) => Component::Seed(*s),
        }
    }
}

/// The values a component stands for, for vectors of length `len`.
pub open spec fn component_values<F: ScalarField>(c: Component, len: nat) -> Seq<nat> {
    match c {
        Component::Values(v) => Seq::new(v@.len(), |i: int| v@[i].value()),
        Component::Seed(s) => Seq::new(len, |i: int| F::seed_value(s@, i as nat)),
    }
}

/// Values of the right length, each below the modulus.
pub open spec fn component_wf<F: ScalarField>(c: Component, len: nat) -> bool {
    match c {
        Component::Values(v) => v@.len() == len && forall|i: int|
            0 <= i < len ==> #[trigger] v@[i].value() < F::modulus(),
        Component::Seed(_) => true,
    }
}

/// The share of one party for a vector of `len` secrets. `next` is `None` in
/// additive mode.
#[derive(Clone, Debug)]
pub struct Rep3Share {
    pub party: usize,
    pub len: usize,
    pub own: Component,
    pub next: Option<Component>,
}

impl Rep3Share {
    pub open spec fn wf<F: ScalarField>(self) -> bool {
        &&& self.party < 3
        &&& component_wf::<F>(self.own, self.len as nat)
        &&& (self.next matches Some(c) ==> component_wf::<F>(c, self.len as nat))
    }

    pub open spec fn own_values<F: ScalarField>(self) -> Seq<nat> {
        component_values::<F>(self.own, self.len as nat)
    }

    pub open spec fn next_values<F: ScalarField>(self) -> Seq<nat> {
        match self.next {
            Some(c) => component_values::<F>(c, self.len as nat),
            None => Seq::empty(),
        }
    }
}

/// Canonical elements, read as numbers.
pub open spec fn values_of<F: ScalarField>(v: Seq<Fe>) -> Seq<nat> {
    Seq::new(v.len(), |i: int| v[i].value())
}

pub open spec fn all_canonical<F: ScalarField>(v: Seq<Fe>) -> bool {
    forall|i: int| 0 <= i < v.len() ==> #[trigger] v[i].value() < F::modulus()
}

/// The third component: `s - c0 - c1` element by element.
pub open spec fn third_component<F: ScalarField>(s: Seq<nat>, c0: Seq<nat>, c1: Seq<nat>) -> Seq<nat> {
    Seq::new(s.len(), |i: int| ((s[i] - c0[i] - c1[i]) % (F::modulus() as int)) as nat)
}

/// `shares` is what splitting the secrets `s` with the random components `c0`
/// and `c1` gives.
pub open spec fn is_rep3_split<F: ScalarField>(
    s: Seq<nat>,
    c0: Component,
    c1: Component,
    additive: bool,
    shares: (Rep3Share, Rep3Share, Rep3Share),
) -> bool {
    let len = s.len();
    let (x, y, z) = shares;
    &&& x.party == 0 && y.party == 1 && z.party == 2
    &&& x.len == len && y.len == len && z.len == len
    &&& x.wf::<F>() && y.wf::<F>() && z.wf::<F>()
    &&& same_component(x.own, c0) && same_component(y.own, c1)
    &&& z.own_values::<F>() == third_component::<F>(
        s,
        component_values::<F>(c0, len),
        component_values::<F>(c1, len),
    )
    &&& if additive {
        x.next is None && y.next is None && z.next is None
    } else {
        &&& x.next matches Some(n) && same_component(n, c1)
        &&& y.next matches Some(n) && same_component(n, z.own)
        &&& z.next matches Some(n) && same_component(n, c0)
    }
}

/// The secrets that two replicated shares open to: `first` is the party
/// whose successor holds `second`.
pub open spec fn rep3_open<F: ScalarField>(first: Rep3Share, second: Rep3Share) -> Seq<nat> {
    let a = first.own_values::<F>();
    let b = first.next_values::<F>();
    let c = second.next_values::<F>();
    Seq::new(first.len as nat, |i: int| ((a[i] + b[i] + c[i]) % F::modulus()) as nat)
}

/// Party `j` follows party `i` around the ring of three.
pub open spec fn follows(i: usize, j: usize) -> bool {
    j == (i + 1) % 3
}

/// The secrets that the two shares open to, whichever of them comes first.
pub open spec fn rep3_pair_open<F: ScalarField>(x: Rep3Share, y: Rep3Share) -> Seq<nat> {
    if follows(x.party, y.party) {
        rep3_open::<F>(x, y)
    } else {
        rep3_open::<F>(y, x)
    }
}

/// The secrets that three additive shares open to.
pub open spec fn additive_open<F: ScalarField>(x: Rep3Share, y: Rep3Share, z: Rep3Share) -> Seq<nat> {
    let a = x.own_values::<F>();
    let b = y.own_values::<F>();
    let c = z.own_values::<F>();
    Seq::new(x.len as nat, |i: int| ((a[i] + b[i] + c[i]) % F::modulus()) as nat)
}

/// The values of a component, materialised.
pub fn component_to_values<F: ScalarField>(c: &Component, len: usize) -> (r: Vec<Fe>)
    requires
        component_wf::<F>(*c, len as nat),
    ensures
        r@.len() == len,
        values_of::<F>(r@) == component_values::<F>(*c, len as nat),
        all_canonical::<F>(r@),
{
    match c {
        Component::Values(v) => {
            let r = copy_fes(v);
            assert(values_of::<F>(r@) == component_values::<F>(*c, len as nat));
            r
        },
        Component::Seed(s) => {
            let r = F::expand_seed(*s, len);
            assert(values_of::<F>(r@) == component_values::<F>(*c, len as nat));
            r
        },
    }
}

proof fn lemma_sum3<F: ScalarField>(a: nat, b: nat, c: nat)
    requires
        c < F::modulus(),
    ensures
        ((a + b) % F::modulus() + c) % F::modulus() == (a + b + c) % F::modulus(),
{
    let m = F::modulus() as int;
    F::lemma_modulus_bounds();
    lemma_add_mod_noop((a + b) as int, c as int, m);
    lemma_small_mod(c, m as nat);
    lemma_mod_twice((a + b) as int, m);
}

/// Splits each secret into three replicated shares, with `c0` and `c1` as
/// the random components. Seed components stay seeds in the shares.
pub fn split<F: ScalarField>(secrets: &Vec<Fe>, c0: Component, c1: Component, additive: bool) -> (r: (
    Rep3Share,
    Rep3Share,
    Rep3Share,
))
    requires
        all_canonical::<F>(secrets@),
        component_wf::<F>(c0, secrets@.len()),
        component_wf::<F>(c1, secrets@.len()),
    ensures
        is_rep3_split::<F>(values_of::<F>(secrets@), c0, c1, additive, r),
{
    let len = secrets.len();
    let a = component_to_values::<F>(&c0, len);
    let b = component_to_values::<F>(&c1, len);
    let ghost s = values_of::<F>(secrets@);
    let mut c: Vec<Fe> = Vec::new();
    let mut i: usize = 0;
    while i < len
        invariant
            len == secrets@.len(),
            a@.len() == len && b@.len() == len,
            all_canonical::<F>(secrets@) && all_canonical::<F>(a@) && all_canonical::<F>(b@),
            i <= len,
            c@.len() == i,
            all_canonical::<F>(c@),
            forall|k: int|
                0 <= k < i ==> #[trigger] c@[k].value() == (secrets@[k].value() - a@[k].value()
                    - b@[k].value()) % (F::modulus() as int),
        decreases len - i,
    {
        let d = F::sub(secrets[i], a[i]);
        let e = F::sub(d, b[i]);
        proof {
            let m = F::modulus() as int;
            F::lemma_modulus_bounds();
            lemma_sub_mod_noop(secrets@[i as int].value() - a@[i as int].value(), b@[i as int].value() as int, m);
            lemma_mod_twice(secrets@[i as int].value() - a@[i as int].value(), m);
            lemma_small_mod(b@[i as int].value(), m as nat);
        }
        c.push(e);
        i = i + 1;
    }
    let ghost cv = values_of::<F>(c@);
    assert(cv == third_component::<F>(s, values_of::<F>(a@), values_of::<F>(b@)));
    let c2 = Component::Values(c);
    assert(component_values::<F>(c2, len as nat) == cv);
    if additive {
        (
            Rep3Share { party: 0, len, own: c0, next: None },
            Rep3Share { party: 1, len, own: c1, next: None },
            Rep3Share { party: 2, len, own: c2, next: None },
        )
    } else {
        (
            Rep3Share { party: 0, len, own: c0.duplicate(), next: Some(c1.duplicate()) },
            Rep3Share { party: 1, len, own: c1, next: Some(c2.duplicate()) },
            Rep3Share { party: 2, len, own: c2, next: Some(c0) },
        )
    }
}

proof fn lemma_same_component_values<F: ScalarField>(a: Component, b: Component, len: nat)
    requires
        same_component(a, b),
    ensures
        component_values::<F>(a, len) == component_values::<F>(b, len),
{
}

/// `(u + (s - u) mod p) mod p == s` for a canonical `s`.
proof fn lemma_cancel<F: ScalarField>(u: int, s: nat)
    requires
        s < F::modulus(),
    ensures
        (u + (s - u) % (F::modulus() as int)) % (F::modulus() as int) == s,
{
    let m = F::modulus() as int;
    F::lemma_modulus_bounds();
    lemma_add_mod_noop(u, s - u, m);
    lemma_add_mod_noop(u, (s - u) % m, m);
    lemma_mod_twice(s - u, m);
    lemma_small_mod(s, m as nat);
}

/// Element-wise sum of three canonical vectors.
pub fn sum3<F: ScalarField>(a: &Vec<Fe>, b: &Vec<Fe>, c: &Vec<Fe>) -> (r: Vec<Fe>)
    requires
        a@.len() == b@.len() && b@.len() == c@.len(),
        all_canonical::<F>(a@) && all_canonical::<F>(b@) && all_canonical::<F>(c@),
    ensures
        r@.len() == a@.len(),
        all_canonical::<F>(r@),
        forall|i: int|
            0 <= i < a@.len() ==> #[trigger] r@[i].value() == (a@[i].value() + b@[i].value()
                + c@[i].value()) % F::modulus(),
{
    let mut r: Vec<Fe> = Vec::new();
    let mut i: usize = 0;
    while i < a.len()
        invariant
            a@.len() == b@.len() && b@.len() == c@.len(),
            all_canonical::<F>(a@) && all_canonical::<F>(b@) && all_canonical::<F>(c@),
            i <= a@.len(),
            r@.len() == i,
            all_canonical::<F>(r@),
            forall|k: int|
                0 <= k < i ==> #[trigger] r@[k].value() == (a@[k].value() + b@[k].value()
                    + c@[k].value()) % F::modulus(),
        decreases a@.len() - i,
    {
        let d = F::add(a[i], b[i]);
        let e = F::add(d, c[i]);
        proof {
            F::lemma_modulus_bounds();
            lemma_sum3::<F>(a@[i as int].value(), b@[i as int].value(), c@[i as int].value());
        }
        r.push(e);
        i = i + 1;
    }
    r
}

/// Opens the secrets from the shares of two distinct parties in replicated
/// mode. One share alone, or additive shares, do not suffice.
pub fn reconstruct<F: ScalarField>(x: &Rep3Share, y: &Rep3Share) -> (r: Result<
    Vec<Fe>,
    ShareError,
>)
    requires
        x.wf::<F>(),
        y.wf::<F>(),
    ensures
        (x.party == y.party || x.next is None || y.next is None) ==> (r matches Err(
            ShareError::InsufficientShares,
        )),
        (x.party != y.party && x.next is Some && y.next is Some && x.len != y.len) ==> (r matches Err(
            ShareError::MismatchedShares,
        )),
        (x.party != y.party && x.next is Some && y.next is Some && x.len == y.len) ==> (r matches Ok(v)
            && all_canonical::<F>(v@) && values_of::<F>(v@) == rep3_pair_open::<F>(*x, *y)),
{
    if x.party == y.party {
        return Err(ShareError::InsufficientShares);
    }
    let (xn, yn) = match (&x.next, &y.next) {
        (Some(xn), Some(yn)) => (xn, yn),
        _ => {
            return Err(ShareError::InsufficientShares);
        },
    };
    if x.len != y.len {
        return Err(ShareError::MismatchedShares);
    }
    let len = x.len;
    let (first, second) = if (x.party + 1) % 3 == y.party {
        (x, y)
    } else {
        (y, x)
    };
    assert(rep3_pair_open::<F>(*x, *y) == rep3_open::<F>(*first, *second));
    let (fneg, sn) = if (x.party + 1) % 3 == y.party {
        (xn, yn)
    } else {
        (yn, xn)
    };
    let a = component_to_values::<F>(&first.own, len);
    let b = component_to_values::<F>(fneg, len);
    let c = component_to_values::<F>(sn, len);
    let v = sum3::<F>(&a, &b, &c);
    proof {
        F::lemma_modulus_bounds();
        let o = rep3_open::<F>(*first, *second);
        assert(values_of::<F>(a@) == first.own_values::<F>());
        assert(values_of::<F>(b@) == first.next_values::<F>());
        assert(values_of::<F>(c@) == second.next_values::<F>());
        assert forall|k: int| 0 <= k < len implies #[trigger] values_of::<F>(v@)[k] == o[k] by {
            assert(values_of::<F>(a@)[k] == a@[k].value());
            assert(values_of::<F>(b@)[k] == b@[k].value());
            assert(values_of::<F>(c@)[k] == c@[k].value());
        }
        assert(values_of::<F>(v@) =~= o);
    }
    Ok(v)
}

/// Opens the secrets from the additive shares of all three parties.
pub fn reconstruct_additive<F: ScalarField>(x: &Rep3Share, y: &Rep3Share, z: &Rep3Share) -> (r:
    Result<Vec<Fe>, ShareError>)
    requires
        x.wf::<F>(),
        y.wf::<F>(),
        z.wf::<F>(),
    ensures
        (x.party == y.party || y.party == z.party || x.party == z.party) ==> (r matches Err(
            ShareError::InsufficientShares,
        )),
        (x.party != y.party && y.party != z.party && x.party != z.party && !(x.len == y.len && y.len
            == z.len)) ==> (r matches Err(ShareError::MismatchedShares)),
        (x.party != y.party && y.party != z.party && x.party != z.party && x.len == y.len && y.len
            == z.len) ==> (r matches Ok(v) && all_canonical::<F>(v@) && values_of::<F>(v@)
            == additive_open::<F>(*x, *y, *z)),
{
    if x.party == y.party || y.party == z.party || x.party == z.party {
        return Err(ShareError::InsufficientShares);
    }
    if x.len != y.len || y.len != z.len {
        return Err(ShareError::MismatchedShares);
    }
    let len = x.len;
    let a = component_to_values::<F>(&x.own, len);
    let b = component_to_values::<F>(&y.own, len);
    let c = component_to_values::<F>(&z.own, len);
    let v = sum3::<F>(&a, &b, &c);
    proof {
        F::lemma_modulus_bounds();
        let o = additive_open::<F>(*x, *y, *z);
        assert forall|k: int| 0 <= k < len implies #[trigger] values_of::<F>(v@)[k] == o[k] by {
            assert(values_of::<F>(a@)[k] == a@[k].value());
            assert(values_of::<F>(b@)[k] == b@[k].value());
            assert(values_of::<F>(c@)[k] == c@[k].value());
        }
        assert(values_of::<F>(v@) =~= o);
    }
    Ok(v)
}

/// The share of party `i` among three.
pub open spec fn share_of(shares: (Rep3Share, Rep3Share, Rep3Share), i: int) -> Rep3Share {
    if i == 0 {
        shares.0
    } else if i == 1 {
        shares.1
    } else {
        shares.2
    }
}

/// Splitting in replicated mode and opening from any two distinct parties
/// gives back the secrets, seeded or not.
pub proof fn lemma_rep3_round_trip<F: ScalarField>(
    s: Seq<nat>,
    c0: Component,
    c1: Component,
    shares: (Rep3Share, Rep3Share, Rep3Share),
    i: int,
    j: int,
)
    requires
        forall|k: int| 0 <= k < s.len() ==> #[trigger] s[k] < F::modulus(),
        component_wf::<F>(c0, s.len()),
        component_wf::<F>(c1, s.len()),
        is_rep3_split::<F>(s, c0, c1, false, shares),
        0 <= i < 3 && 0 <= j < 3 && i != j,
    ensures
        rep3_pair_open::<F>(share_of(shares, i), share_of(shares, j)) == s,
{
    F::lemma_modulus_bounds();
    let (x, y, z) = shares;
    let len = s.len();
    let a = component_values::<F>(c0, len);
    let b = component_values::<F>(c1, len);
    let c = z.own_values::<F>();
    lemma_same_component_values::<F>(x.own, c0, len);
    lemma_same_component_values::<F>(y.own, c1, len);
    let xn = x.next.unwrap();
    let yn = y.next.unwrap();
    let zn = z.next.unwrap();
    lemma_same_component_values::<F>(xn, c1, len);
    lemma_same_component_values::<F>(yn, z.own, len);
    lemma_same_component_values::<F>(zn, c0, len);
    assert(x.own_values::<F>() == a && x.next_values::<F>() == b);
    assert(y.own_values::<F>() == b && y.next_values::<F>() == c);
    assert(z.own_values::<F>() == c && z.next_values::<F>() == a);
    assert(a.len() == len && b.len() == len && c.len() == len);
    let m = F::modulus();
    assert forall|k: int| 0 <= k < len implies (#[trigger] a[k] + b[k] + c[k]) % m == s[k] && (b[k] + c[k] + a[k]) % m == s[k] && (c[k] + a[k] + b[k]) % m == s[k] by {
        lemma_cancel::<F>((a[k] + b[k]) as int, s[k]);
    }
    if i == 0 && j == 1 || i == 1 && j == 0 {
        assert(rep3_open::<F>(x, y) =~= s);
    } else if i == 1 && j == 2 || i == 2 && j == 1 {
        assert(rep3_open::<F>(y, z) =~= s);
    } else {
        assert(rep3_open::<F>(z, x) =~= s);
    }
}

/// Splitting in additive mode and opening from all three parties gives back
/// the secrets. (Two additive shares leave one component unknown.)
pub proof fn lemma_rep3_additive_round_trip<F: ScalarField>(
    s: Seq<nat>,
    c0: Component,
    c1: Component,
    shares: (Rep3Share, Rep3Share, Rep3Share),
)
    requires
        forall|k: int| 0 <= k < s.len() ==> #[trigger] s[k] < F::modulus(),
        component_wf::<F>(c0, s.len()),
        component_wf::<F>(c1, s.len()),
        is_rep3_split::<F>(s, c0, c1, true, shares),
    ensures
        additive_open::<F>(shares.0, shares.1, shares.2) == s,
{
    F::lemma_modulus_bounds();
    let (x, y, z) = shares;
    let len = s.len();
    let a = component_values::<F>(c0, len);
    let b = component_values::<F>(c1, len);
    let c = z.own_values::<F>();
    lemma_same_component_values::<F>(x.own, c0, len);
    lemma_same_component_values::<F>(y.own, c1, len);
    assert(x.own_values::<F>() == a && y.own_values::<F>() == b);
    assert(a.len() == len && b.len() == len && c.len() == len);
    let m = F::modulus();
    assert forall|k: int| 0 <= k < len implies (#[trigger] a[k] + b[k] + c[k]) % m == s[k] by {
        lemma_cancel::<F>((a[k] + b[k]) as int, s[k]);
    }
    assert(additive_open::<F>(x, y, z) =~= s);
}

} // verus!
