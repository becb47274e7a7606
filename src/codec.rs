//! The binary share file of a Shamir-shared witness: integers as eight
//! little-endian bytes, an element as its four limbs, a vector as its length
//! and then its elements.
use crate::container::SharedWitness;
use crate::field::Fe;
use crate::rep3::{Component, Rep3Share};
use crate::shamir::ShamirShare;
use vstd::prelude::*;

verus! {

#[verifier::opaque]
pub open spec fn enc_u64(v: u64) -> Seq<u8> {
    seq![
        (v & 0xff) as u8,
        ((v >> 8u64) & 0xff) as u8,
        ((v >> 16u64) & 0xff) as u8,
        ((v >> 24u64) & 0xff) as u8,
        ((v >> 32u64) & 0xff) as u8,
        ((v >> 40u64) & 0xff) as u8,
        ((v >> 48u64) & 0xff) as u8,
        ((v >> 56u64) & 0xff) as u8,
    ]
}

/// The integer in the first eight bytes.
#[verifier::opaque]
pub open spec fn dec_u64(b: Seq<u8>) -> u64 {
    (b[0] as u64) | ((b[1] as u64) << 8u64) | ((b[2] as u64) << 16u64) | ((b[3] as u64) << 24u64)
        | ((b[4] as u64) << 32u64) | ((b[5] as u64) << 40u64) | ((b[6] as u64) << 48u64) | ((
    b[7] as u64) << 56u64)
}

pub open spec fn enc_fe(x: Fe) -> Seq<u8> {
    enc_u64(x.l0) + enc_u64(x.l1) + enc_u64(x.l2) + enc_u64(x.l3)
}

pub open spec fn dec_fe(b: Seq<u8>) -> Fe {
    Fe {
        l0: dec_u64(b),
        l1: dec_u64(b.subrange(8, b.len() as int)),
        l2: dec_u64(b.subrange(16, b.len() as int)),
        l3: dec_u64(b.subrange(24, b.len() as int)),
    }
}

/// The elements one after another, without a length.
pub open spec fn enc_fes(s: Seq<Fe>) -> Seq<u8>
    decreases s.len(),
{
    if s.len() == 0 {
        Seq::empty()
    } else {
        enc_fe(s[0]) + enc_fes(s.drop_first())
    }
}

/// Reads `n` elements; the rest of the bytes comes back beside them.
pub open spec fn dec_fes(b: Seq<u8>, n: nat) -> Option<(Seq<Fe>, Seq<u8>)>
    decreases n,
{
    if n == 0 {
        Some((Seq::empty(), b))
    } else if b.len() < 32 {
        None
    } else {
        match dec_fes(b.subrange(32, b.len() as int), (n - 1) as nat) {
            Some((rest, r)) => Some((seq![dec_fe(b)] + rest, r)),
            None => None,
        }
    }
}

pub open spec fn enc_vec(s: Seq<Fe>) -> Seq<u8> {
    enc_u64(s.len() as u64) + enc_fes(s)
}

pub open spec fn dec_vec(b: Seq<u8>) -> Option<(Seq<Fe>, Seq<u8>)> {
    if b.len() < 8 {
        None
    } else {
        dec_fes(b.subrange(8, b.len() as int), dec_u64(b) as nat)
    }
}

/// What a share file says: the public values, the party's point and its
/// values.
pub open spec fn witness_view(w: SharedWitness<ShamirShare>) -> (Seq<Fe>, usize, Seq<Fe>) {
    (w.public_inputs@, w.witness.index, w.witness.values@)
}

pub open spec fn enc_witness(v: (Seq<Fe>, usize, Seq<Fe>)) -> Seq<u8> {
    enc_vec(v.0) + enc_u64(v.1 as u64) + enc_vec(v.2)
}

pub open spec fn dec_witness(b: Seq<u8>) -> Option<(Seq<Fe>, usize, Seq<Fe>)> {
    match dec_vec(b) {
        Some((public, r1)) => if r1.len() < 8 {
            None
        } else {
            match dec_vec(r1.subrange(8, r1.len() as int)) {
                Some((values, r2)) => if r2.len() == 0 {
                    Some((public, dec_u64(r1) as usize, values))
                } else {
                    None
                },
                None => None,
            }
        },
        None => None,
    }
}

proof fn lemma_u64_round_trip(v: u64, rest: Seq<u8>)
    ensures
        dec_u64(enc_u64(v) + rest) == v,
        (enc_u64(v) + rest).len() == 8 + rest.len(),
        (enc_u64(v) + rest).subrange(8, 8 + rest.len() as int) == rest,
{
    reveal(enc_u64);
    reveal(dec_u64);
    let b = enc_u64(v) + rest;
    assert(b.subrange(8, 8 + rest.len() as int) =~= rest);
    assert(b[0] == (v & 0xff) as u8 && b[1] == ((v >> 8u64) & 0xff) as u8);
    assert(b[2] == ((v >> 16u64) & 0xff) as u8 && b[3] == ((v >> 24u64) & 0xff) as u8);
    assert(b[4] == ((v >> 32u64) & 0xff) as u8 && b[5] == ((v >> 40u64) & 0xff) as u8);
    assert(b[6] == ((v >> 48u64) & 0xff) as u8 && b[7] == ((v >> 56u64) & 0xff) as u8);
    assert(v == (((v & 0xff) as u8) as u64) | ((((v >> 8u64) & 0xff) as u8) as u64) << 8u64 | ((((
    v >> 16u64) & 0xff) as u8) as u64) << 16u64 | ((((v >> 24u64) & 0xff) as u8) as u64) << 24u64
        | ((((v >> 32u64) & 0xff) as u8) as u64) << 32u64 | ((((v >> 40u64) & 0xff) as u8) as u64)
        << 40u64 | ((((v >> 48u64) & 0xff) as u8) as u64) << 48u64 | ((((v >> 56u64) & 0xff) as u8)
        as u64) << 56u64) by (bit_vector);
}

proof fn lemma_fe_round_trip(x: Fe, rest: Seq<u8>)
    ensures
        (enc_fe(x) + rest).len() == 32 + rest.len(),
        dec_fe(enc_fe(x) + rest) == x,
        (enc_fe(x) + rest).subrange(32, 32 + rest.len() as int) == rest,
{
    let b = enc_fe(x) + rest;
    let r3 = enc_u64(x.l3) + rest;
    let r2 = enc_u64(x.l2) + r3;
    let r1 = enc_u64(x.l1) + r2;
    assert(b =~= enc_u64(x.l0) + r1);
    lemma_u64_round_trip(x.l0, r1);
    lemma_u64_round_trip(x.l1, r2);
    lemma_u64_round_trip(x.l2, r3);
    lemma_u64_round_trip(x.l3, rest);
    assert(b.subrange(8, b.len() as int) =~= r1);
    assert(b.subrange(16, b.len() as int) =~= r2);
    assert(b.subrange(24, b.len() as int) =~= r3);
    assert(b.subrange(32, 32 + rest.len() as int) =~= rest);
}

proof fn lemma_fes_round_trip(s: Seq<Fe>, rest: Seq<u8>)
    ensures
        dec_fes(enc_fes(s) + rest, s.len()) == Some((s, rest)),
        enc_fes(s).len() == 32 * s.len(),
    decreases s.len(),
{
    if s.len() == 0 {
        assert(enc_fes(s) + rest =~= rest);
    } else {
        let t = s.drop_first();
        lemma_fes_round_trip(t, rest);
        let b = enc_fes(s) + rest;
        assert(b =~= enc_fe(s[0]) + (enc_fes(t) + rest));
        lemma_fe_round_trip(s[0], enc_fes(t) + rest);
        assert(b.subrange(32, b.len() as int) =~= enc_fes(t) + rest);
        assert(seq![s[0]] + t =~= s);
    }
}

proof fn lemma_vec_round_trip(s: Seq<Fe>, rest: Seq<u8>)
    requires
        s.len() <= u64::MAX,
    ensures
        dec_vec(enc_vec(s) + rest) == Some((s, rest)),
{
    let b = enc_vec(s) + rest;
    assert(b =~= enc_u64(s.len() as u64) + (enc_fes(s) + rest));
    lemma_u64_round_trip(s.len() as u64, enc_fes(s) + rest);
    assert(b.subrange(8, b.len() as int) =~= enc_fes(s) + rest);
    lemma_fes_round_trip(s, rest);
}

/// Reading a share file back gives what was written, field for field.
pub proof fn lemma_witness_round_trip(w: SharedWitness<ShamirShare>)
    ensures
        dec_witness(enc_witness(witness_view(w))) == Some(witness_view(w)),
{
    let v = witness_view(w);
    assert(w.public_inputs@.len() == w.public_inputs.len());
    assert(w.witness.values@.len() == w.witness.values.len());
    let tail = enc_vec(v.2);
    let r1 = enc_u64(v.1 as u64) + tail;
    assert(enc_witness(v) =~= enc_vec(v.0) + r1);
    lemma_vec_round_trip(v.0, r1);
    lemma_u64_round_trip(v.1 as u64, tail);
    assert(r1.subrange(8, r1.len() as int) =~= tail + Seq::<u8>::empty());
    lemma_vec_round_trip(v.2, Seq::<u8>::empty());
    let b = enc_witness(v);
    assert(dec_vec(b) == Some((v.0, r1)));
    assert(r1.len() >= 8);
    assert(dec_u64(r1) == v.1 as u64);
    assert(dec_vec(r1.subrange(8, r1.len() as int)) == Some((v.2, Seq::<u8>::empty())));
}

proof fn lemma_enc_fes_push(s: Seq<Fe>, x: Fe)
    ensures
        enc_fes(s.push(x)) == enc_fes(s) + enc_fe(x),
    decreases s.len(),
{
    if s.len() == 0 {
        assert(s.push(x).drop_first() =~= Seq::<Fe>::empty());
        assert(enc_fes(Seq::<Fe>::empty()) == Seq::<u8>::empty());
        assert(enc_fes(s.push(x)) =~= enc_fe(x));
        assert(enc_fes(s) + enc_fe(x) =~= enc_fe(x));
    } else {
        lemma_enc_fes_push(s.drop_first(), x);
        assert(s.push(x).drop_first() =~= s.drop_first().push(x));
        assert(enc_fes(s.push(x)) =~= enc_fe(s[0]) + (enc_fes(s.drop_first()) + enc_fe(x)));
    }
}

fn push_u64(out: &mut Vec<u8>, v: u64)
    ensures
        final(out)@ == old(out)@ + enc_u64(v),
{
    proof {
        reveal(enc_u64);
    }
    out.push((v & 0xff) as u8);
    out.push(((v >> 8u64) & 0xff) as u8);
    out.push(((v >> 16u64) & 0xff) as u8);
    out.push(((v >> 24u64) & 0xff) as u8);
    out.push(((v >> 32u64) & 0xff) as u8);
    out.push(((v >> 40u64) & 0xff) as u8);
    out.push(((v >> 48u64) & 0xff) as u8);
    out.push(((v >> 56u64) & 0xff) as u8);
    assert(final(out)@ =~= old(out)@ + enc_u64(v));
}

fn push_vec(out: &mut Vec<u8>, s: &Vec<Fe>)
    ensures
        final(out)@ == old(out)@ + enc_vec(s@),
{
    let ghost start = out@;
    push_u64(out, s.len() as u64);
    let mut i: usize = 0;
    while i < s.len()
        invariant
            i <= s@.len(),
            out@ == start + enc_u64(s@.len() as u64) + enc_fes(s@.subrange(0, i as int)),
        decreases s@.len() - i,
    {
        let x = s[i];
        push_u64(out, x.l0);
        push_u64(out, x.l1);
        push_u64(out, x.l2);
        push_u64(out, x.l3);
        proof {
            lemma_enc_fes_push(s@.subrange(0, i as int), x);
            assert(s@.subrange(0, i + 1) =~= s@.subrange(0, i as int).push(x));
        }
        i = i + 1;
    }
    proof {
        assert(s@.subrange(0, s@.len() as int) =~= s@);
    }
    assert(out@ =~= start + enc_vec(s@));
}

/// Writes a share file.
pub fn encode_witness(w: &SharedWitness<ShamirShare>) -> (r: Vec<u8>)
    ensures
        r@ == enc_witness(witness_view(*w)),
{
    let mut out: Vec<u8> = Vec::new();
    push_vec(&mut out, &w.public_inputs);
    push_u64(&mut out, w.witness.index as u64);
    push_vec(&mut out, &w.witness.values);
    assert(out@ =~= enc_witness(witness_view(*w)));
    out
}

fn read_u64(b: &Vec<u8>, pos: usize) -> (r: u64)
    requires
        pos + 8 <= b@.len(),
    ensures
        r == dec_u64(b@.subrange(pos as int, b@.len() as int)),
{
    proof {
        reveal(dec_u64);
    }
    let ghost t = b@.subrange(pos as int, b@.len() as int);
    assert(t[0] == b@[pos as int] && t[1] == b@[pos + 1] && t[2] == b@[pos + 2] && t[3] == b@[pos + 3]);
    assert(t[4] == b@[pos + 4] && t[5] == b@[pos + 5] && t[6] == b@[pos + 6] && t[7] == b@[pos + 7]);
    let len = b.len();
    assert(pos + 8 <= len);
    let x0 = b[pos] as u64;
    let x1 = b[pos + 1] as u64;
    let x2 = b[pos + 2] as u64;
    let x3 = b[pos + 3] as u64;
    let x4 = b[pos + 4] as u64;
    let x5 = b[pos + 5] as u64;
    let x6 = b[pos + 6] as u64;
    let x7 = b[pos + 7] as u64;
    x0 | (x1 << 8u64) | (x2 << 16u64) | (x3 << 24u64) | (x4 << 32u64) | (x5 << 40u64) | (x6 << 48u64) | (x7 << 56u64)
}

/// Reads `n` elements from `pos`; the position after them comes back.
fn read_fes(b: &Vec<u8>, pos: usize, n: u64) -> (r: Option<(Vec<Fe>, usize)>)
    requires
        pos <= b@.len(),
    ensures
        match dec_fes(b@.subrange(pos as int, b@.len() as int), n as nat) {
            Some((s, rest)) => r matches Some((v, end)) && v@ == s && end <= b@.len() && b@.subrange(
                end as int,
                b@.len() as int,
            ) == rest,
            None => r is None,
        },
{
    let ghost whole = dec_fes(b@.subrange(pos as int, b@.len() as int), n as nat);
    let mut out: Vec<Fe> = Vec::new();
    let mut at = pos;
    let mut i: u64 = 0;
    while i < n
        invariant
            pos <= at <= b@.len(),
            i <= n,
            whole == dec_fes(b@.subrange(pos as int, b@.len() as int), n as nat),
            whole == match dec_fes(b@.subrange(at as int, b@.len() as int), (n - i) as nat) {
                Some((rest, r)) => Some((out@ + rest, r)),
                None => None,
            },
        decreases n - i,
    {
        let ghost cur = b@.subrange(at as int, b@.len() as int);
        if b.len() - at < 32 {
            assert(dec_fes(cur, (n - i) as nat) is None);
            return None;
        }
        let l0 = read_u64(b, at);
        let l1 = read_u64(b, at + 8);
        let l2 = read_u64(b, at + 16);
        let l3 = read_u64(b, at + 24);
        let x = Fe { l0, l1, l2, l3 };
        proof {
            assert(cur.subrange(8, cur.len() as int) =~= b@.subrange(at + 8, b@.len() as int));
            assert(cur.subrange(16, cur.len() as int) =~= b@.subrange(at + 16, b@.len() as int));
            assert(cur.subrange(24, cur.len() as int) =~= b@.subrange(at + 24, b@.len() as int));
            assert(cur.subrange(32, cur.len() as int) =~= b@.subrange(at + 32, b@.len() as int));
            assert(x == dec_fe(cur));
            let next = dec_fes(b@.subrange(at + 32, b@.len() as int), (n - i - 1) as nat);
            if let Some((rest, r)) = next {
                assert(out@.push(x) + rest =~= out@ + (seq![x] + rest));
            }
        }
        out.push(x);
        at = at + 32;
        i = i + 1;
    }
    proof {
        assert(out@ + Seq::<Fe>::empty() =~= out@);
    }
    Some((out, at))
}

fn read_vec(b: &Vec<u8>, pos: usize) -> (r: Option<(Vec<Fe>, usize)>)
    requires
        pos <= b@.len(),
    ensures
        match dec_vec(b@.subrange(pos as int, b@.len() as int)) {
            Some((s, rest)) => r matches Some((v, end)) && v@ == s && end <= b@.len() && b@.subrange(
                end as int,
                b@.len() as int,
            ) == rest,
            None => r is None,
        },
{
    if b.len() - pos < 8 {
        return None;
    }
    let n = read_u64(b, pos);
    proof {
        let cur = b@.subrange(pos as int, b@.len() as int);
        assert(cur.subrange(8, cur.len() as int) =~= b@.subrange(pos + 8, b@.len() as int));
    }
    read_fes(b, pos + 8, n)
}

/// Reads a share file; `None` where the bytes are not one.
pub fn decode_witness(b: &Vec<u8>) -> (r: Option<SharedWitness<ShamirShare>>)
    ensures
        match dec_witness(b@) {
            Some(v) => r matches Some(w) && witness_view(w) == v,
            None => r is None,
        },
{
    assert(b@.subrange(0, b@.len() as int) =~= b@);
    let (public, at) = match read_vec(b, 0) {
        Some(x) => x,
        None => {
            return None;
        },
    };
    if b.len() - at < 8 {
        return None;
    }
    let index = read_u64(b, at);
    let ghost r1 = b@.subrange(at as int, b@.len() as int);
    assert(r1.subrange(8, r1.len() as int) =~= b@.subrange(at + 8, b@.len() as int));
    let (values, end) = match read_vec(b, at + 8) {
        Some(x) => x,
        None => {
            return None;
        },
    };
    if end != b.len() {
        return None;
    }
    Some(SharedWitness { public_inputs: public, witness: ShamirShare { index: index as usize, values } })
}

/// A component as the file holds it.
pub enum ComponentView {
    Values(Seq<Fe>),
    Seed(Seq<u8>),
}

pub open spec fn component_view(c: Component) -> ComponentView {
    match c {
        Component::Values(v) => ComponentView::Values(v@),
        Component::Seed(s) => ComponentView::Seed(s@),
    }
}

/// A tag byte, then the values or the 32 bytes of the seed.
pub open spec fn enc_component(c: ComponentView) -> Seq<u8> {
    match c {
        ComponentView::Values(v) => seq![0u8] + enc_vec(v),
        ComponentView::Seed(s) => seq![1u8] + s,
    }
}

pub open spec fn dec_component(b: Seq<u8>) -> Option<(ComponentView, Seq<u8>)> {
    if b.len() < 1 {
        None
    } else if b[0] == 0 {
        match dec_vec(b.subrange(1, b.len() as int)) {
            Some((v, r)) => Some((ComponentView::Values(v), r)),
            None => None,
        }
    } else if b[0] == 1 && b.len() >= 33 {
        Some((ComponentView::Seed(b.subrange(1, 33)), b.subrange(33, b.len() as int)))
    } else {
        None
    }
}

/// What a REP3 share file says: the public values, the party, the number of
/// secrets, and the party's components.
pub open spec fn rep3_witness_view(w: SharedWitness<Rep3Share>) -> (
    Seq<Fe>,
    usize,
    usize,
    ComponentView,
    Option<ComponentView>,
) {
    (
        w.public_inputs@,
        w.witness.party,
        w.witness.len,
        component_view(w.witness.own),
        match w.witness.next {
            Some(c) => Some(component_view(c)),
            None => None,
        },
    )
}

pub open spec fn enc_next(c: Option<ComponentView>) -> Seq<u8> {
    match c {
        Some(x) => seq![1u8] + enc_component(x),
        None => seq![0u8],
    }
}

pub open spec fn enc_rep3_witness(v: (Seq<Fe>, usize, usize, ComponentView, Option<ComponentView>)) -> Seq<u8> {
    enc_vec(v.0) + enc_u64(v.1 as u64) + enc_u64(v.2 as u64) + enc_component(v.3) + enc_next(v.4)
}

pub open spec fn dec_next(b: Seq<u8>) -> Option<(Option<ComponentView>, Seq<u8>)> {
    if b.len() < 1 {
        None
    } else if b[0] == 0 {
        Some((None, b.subrange(1, b.len() as int)))
    } else if b[0] == 1 {
        match dec_component(b.subrange(1, b.len() as int)) {
            Some((c, r)) => Some((Some(c), r)),
            None => None,
        }
    } else {
        None
    }
}

pub open spec fn dec_rep3_witness(b: Seq<u8>) -> Option<(Seq<Fe>, usize, usize, ComponentView, Option<ComponentView>)> {
    match dec_vec(b) {
        Some((public, r1)) => if r1.len() < 16 {
            None
        } else {
            match dec_component(r1.subrange(16, r1.len() as int)) {
                Some((own, r2)) => match dec_next(r2) {
                    Some((next, r3)) => if r3.len() == 0 {
                        Some((public, dec_u64(r1) as usize, dec_u64(r1.subrange(8, r1.len() as int)) as usize, own, next))
                    } else {
                        None
                    },
                    None => None,
                },
                None => None,
            }
        },
        None => None,
    }
}

proof fn lemma_component_round_trip(c: ComponentView, rest: Seq<u8>)
    requires
        c matches ComponentView::Seed(s) ==> s.len() == 32,
        c matches ComponentView::Values(v) ==> v.len() <= u64::MAX,
    ensures
        dec_component(enc_component(c) + rest) == Some((c, rest)),
{
    let b = enc_component(c) + rest;
    match c {
        ComponentView::Values(v) => {
            assert(b.subrange(1, b.len() as int) =~= enc_vec(v) + rest);
            lemma_vec_round_trip(v, rest);
        },
        ComponentView::Seed(s) => {
            assert(b.subrange(1, 33) =~= s);
            assert(b.subrange(33, b.len() as int) =~= rest);
        },
    }
}

/// Reading a REP3 share file back gives what was written, field for field.
pub proof fn lemma_rep3_witness_round_trip(w: SharedWitness<Rep3Share>)
    ensures
        dec_rep3_witness(enc_rep3_witness(rep3_witness_view(w))) == Some(rep3_witness_view(w)),
{
    let v = rep3_witness_view(w);
    assert(w.public_inputs@.len() == w.public_inputs.len());
    if let Component::Values(x) = w.witness.own {
        assert(x@.len() == x.len());
    }
    if let Some(Component::Values(x)) = w.witness.next {
        assert(x@.len() == x.len());
    }
    let tail = enc_component(v.3) + enc_next(v.4);
    let r1 = enc_u64(v.1 as u64) + (enc_u64(v.2 as u64) + tail);
    assert(enc_rep3_witness(v) =~= enc_vec(v.0) + r1);
    lemma_vec_round_trip(v.0, r1);
    lemma_u64_round_trip(v.1 as u64, enc_u64(v.2 as u64) + tail);
    lemma_u64_round_trip(v.2 as u64, tail);
    assert(r1.subrange(8, r1.len() as int) =~= enc_u64(v.2 as u64) + tail);
    assert(r1.subrange(16, r1.len() as int) =~= tail);
    lemma_component_round_trip(v.3, enc_next(v.4));
    let r2 = enc_next(v.4);
    match v.4 {
        Some(c) => {
            assert(r2.subrange(1, r2.len() as int) =~= enc_component(c) + Seq::<u8>::empty());
            lemma_component_round_trip(c, Seq::<u8>::empty());
        },
        None => {
            assert(r2.subrange(1, r2.len() as int) =~= Seq::<u8>::empty());
        },
    }
}

fn push_component(out: &mut Vec<u8>, c: &Component)
    ensures
        final(out)@ == old(out)@ + enc_component(component_view(*c)),
{
    let ghost start = out@;
    match c {
        Component::Values(v) => {
            out.push(0u8);
            push_vec(out, v);
            assert(final(out)@ =~= start + enc_component(component_view(*c)));
        },
        Component::Seed(s) => {
            out.push(1u8);
            let mut i: usize = 0;
            while i < 32
                invariant
                    i <= 32,
                    s@.len() == 32,
                    out@ == start + seq![1u8] + s@.subrange(0, i as int),
                decreases 32 - i,
            {
                out.push(s[i]);
                i = i + 1;
                assert(out@ =~= start + seq![1u8] + s@.subrange(0, i as int));
            }
            assert(s@.subrange(0, 32) =~= s@);
            assert(final(out)@ =~= start + enc_component(component_view(*c)));
        },
    }
}

/// Writes a REP3 share file.
pub fn encode_rep3_witness(w: &SharedWitness<Rep3Share>) -> (r: Vec<u8>)
    ensures
        r@ == enc_rep3_witness(rep3_witness_view(*w)),
{
    let mut out: Vec<u8> = Vec::new();
    push_vec(&mut out, &w.public_inputs);
    push_u64(&mut out, w.witness.party as u64);
    push_u64(&mut out, w.witness.len as u64);
    push_component(&mut out, &w.witness.own);
    let ghost before = out@;
    match &w.witness.next {
        Some(c) => {
            out.push(1u8);
            push_component(&mut out, c);
        },
        None => {
            out.push(0u8);
        },
    }
    assert(out@ =~= enc_rep3_witness(rep3_witness_view(*w)));
    out
}

fn read_component(b: &Vec<u8>, pos: usize) -> (r: Option<(Component, usize)>)
    requires
        pos <= b@.len(),
    ensures
        match dec_component(b@.subrange(pos as int, b@.len() as int)) {
            Some((c, rest)) => r matches Some((x, end)) && component_view(x) == c && end <= b@.len()
                && b@.subrange(end as int, b@.len() as int) == rest,
            None => r is None,
        },
{
    let ghost cur = b@.subrange(pos as int, b@.len() as int);
    if pos == b.len() {
        return None;
    }
    let tag = b[pos];
    assert(cur[0] == tag);
    if tag == 0 {
        assert(cur.subrange(1, cur.len() as int) =~= b@.subrange(pos + 1, b@.len() as int));
        match read_vec(b, pos + 1) {
            Some((v, end)) => Some((Component::Values(v), end)),
            None => None,
        }
    } else if tag == 1 && b.len() - pos >= 33 {
        let pos = pos + 1;
        let s: [u8; 32] = [b[pos], b[pos + 1], b[pos + 2], b[pos + 3], b[pos + 4], b[pos + 5], b[pos + 6], b[pos + 7], b[pos + 8], b[pos + 9], b[pos + 10], b[pos + 11], b[pos + 12], b[pos + 13], b[pos + 14], b[pos + 15], b[pos + 16], b[pos + 17], b[pos + 18], b[pos + 19], b[pos + 20], b[pos + 21], b[pos + 22], b[pos + 23], b[pos + 24], b[pos + 25], b[pos + 26], b[pos + 27], b[pos + 28], b[pos + 29], b[pos + 30], b[pos + 31]];
        proof {
            assert(s@ =~= cur.subrange(1, 33));
            assert(cur.subrange(33, cur.len() as int) =~= b@.subrange(pos + 32, b@.len() as int));
        }
        Some((Component::Seed(s), pos + 32))
    } else {
        None
    }
}

/// Reads a REP3 share file; `None` where the bytes are not one.
pub fn decode_rep3_witness(b: &Vec<u8>) -> (r: Option<SharedWitness<Rep3Share>>)
    ensures
        match dec_rep3_witness(b@) {
            Some(v) => r matches Some(w) && rep3_witness_view(w) == v,
            None => r is None,
        },
{
    assert(b@.subrange(0, b@.len() as int) =~= b@);
    let (public, at) = match read_vec(b, 0) {
        Some(x) => x,
        None => {
            return None;
        },
    };
    if b.len() - at < 16 {
        return None;
    }
    let party = read_u64(b, at);
    let len = read_u64(b, at + 8);
    let ghost r1 = b@.subrange(at as int, b@.len() as int);
    assert(r1.subrange(8, r1.len() as int) =~= b@.subrange(at + 8, b@.len() as int));
    assert(r1.subrange(16, r1.len() as int) =~= b@.subrange(at + 16, b@.len() as int));
    let (own, at2) = match read_component(b, at + 16) {
        Some(x) => x,
        None => {
            return None;
        },
    };
    let ghost r2 = b@.subrange(at2 as int, b@.len() as int);
    if at2 == b.len() {
        return None;
    }
    let tag = b[at2];
    assert(r2[0] == tag);
    let next: Option<Component>;
    let end: usize;
    if tag == 0 {
        next = None;
        end = at2 + 1;
        assert(r2.subrange(1, r2.len() as int) =~= b@.subrange(end as int, b@.len() as int));
    } else if tag == 1 {
        assert(r2.subrange(1, r2.len() as int) =~= b@.subrange(at2 + 1, b@.len() as int));
        match read_component(b, at2 + 1) {
            Some((c, e)) => {
                next = Some(c);
                end = e;
            },
            None => {
                return None;
            },
        }
    } else {
        return None;
    }
    if end != b.len() {
        return None;
    }
    Some(SharedWitness {
        public_inputs: public,
        witness: Rep3Share { party: party as usize, len: len as usize, own, next },
    })
}

} // verus!
