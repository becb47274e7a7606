//! Field-element literals of the plaintext input file: decimal, or
//! hexadecimal after `0x`, with an optional leading `-`; reduced modulo the
//! characteristic, then negated. Arrays nest and are read flat.
use crate::error::ShareError;
use crate::field::{digits_value, is_canonical_decimal, Fe, ScalarField};
use vstd::arithmetic::div_mod::*;
use vstd::prelude::*;
use vstd::string::StrSliceExecFns;

verus! {

/// A value of the input file as far as parsing reads it.
#[derive(Debug)]
pub enum JsonLiteral {
    Str(String),
    Array(Vec<JsonLiteral>),
    /// Any other value; holds its text.
    Other(String),
}

pub open spec fn is_hex_digit(c: char) -> bool {
    ('0' <= c && c <= '9') || ('a' <= c && c <= 'f') || ('A' <= c && c <= 'F')
}

pub open spec fn hex_digit_value(c: char) -> nat {
    if '0' <= c && c <= '9' {
        (c as u32 - '0' as u32) as nat
    } else if 'a' <= c && c <= 'f' {
        (c as u32 - 'a' as u32 + 10) as nat
    } else {
        (c as u32 - 'A' as u32 + 10) as nat
    }
}

/// The number that a string of hexadecimal digits spells.
pub open spec fn hex_value(s: Seq<char>) -> nat
    decreases s.len(),
{
    if s.len() == 0 {
        0
    } else {
        hex_value(s.drop_last()) * 16 + hex_digit_value(s.last())
    }
}

pub open spec fn is_hex_literal(body: Seq<char>) -> bool {
    body.len() >= 2 && body[0] == '0' && body[1] == 'x'
}

/// The value of an unsigned literal, if it is one.
pub open spec fn magnitude<F: ScalarField>(body: Seq<char>) -> Option<nat> {
    if is_hex_literal(body) {
        let h = body.subrange(2, body.len() as int);
        if h.len() > 0 && forall|i: int| 0 <= i < h.len() ==> #[trigger] is_hex_digit(h[i]) {
            Some(hex_value(h) % F::modulus())
        } else {
            None
        }
    } else if is_canonical_decimal(body) {
        Some(digits_value(body) % F::modulus())
    } else {
        None
    }
}

pub open spec fn is_negative(s: Seq<char>) -> bool {
    s.len() > 0 && s[0] == '-'
}

/// The field element a literal stands for, if it is one.
pub open spec fn literal_value<F: ScalarField>(s: Seq<char>) -> Option<nat> {
    let body = if is_negative(s) {
        s.drop_first()
    } else {
        s
    };
    match magnitude::<F>(body) {
        Some(m) => Some(
            if is_negative(s) {
                ((0 - m) % (F::modulus() as int)) as nat
            } else {
                m
            },
        ),
        None => None,
    }
}

proof fn lemma_literal_ascii<F: ScalarField>(s: Seq<char>)
    requires
        literal_value::<F>(s) is Some,
    ensures
        forall|i: int| 0 <= i < s.len() ==> '\0' <= #[trigger] s[i] <= '\u{7f}',
{
    let off: int = if is_negative(s) { 1 } else { 0 };
    let body = if is_negative(s) { s.drop_first() } else { s };
    assert forall|i: int| 0 <= i < s.len() implies '\0' <= #[trigger] s[i] <= '\u{7f}' by {
        if i >= off {
            assert(s[i] == body[i - off]);
            if is_hex_literal(body) {
                let h = body.subrange(2, body.len() as int);
                if i - off >= 2 {
                    assert(h[i - off - 2] == body[i - off]);
                    assert(is_hex_digit(h[i - off - 2]));
                }
            } else {
                assert(crate::field::is_digit(body[i - off]));
            }
        }
    }
}

fn hex_digit(c: char) -> (r: Option<u64>)
    ensures
        r is Some <==> is_hex_digit(c),
        r matches Some(d) ==> d == hex_digit_value(c) && d < 16,
{
    if '0' <= c && c <= '9' {
        Some((c as u32 - '0' as u32) as u64)
    } else if 'a' <= c && c <= 'f' {
        Some((c as u32 - 'a' as u32 + 10) as u64)
    } else if 'A' <= c && c <= 'F' {
        Some((c as u32 - 'A' as u32 + 10) as u64)
    } else {
        None
    }
}

/// Reads a literal; `None` where it is malformed.
pub fn parse_literal<F: ScalarField>(s: &str) -> (r: Option<Fe>)
    ensures
        r is Some <==> literal_value::<F>(s@) is Some,
        r matches Some(x) ==> x.value() < F::modulus() && x.value() == literal_value::<F>(
            s@,
        )->Some_0,
{
    let ghost p = F::modulus() as int;
    proof {
        F::lemma_modulus_bounds();
    }
    if !s.is_ascii() {
        proof {
            if literal_value::<F>(s@) is Some {
                lemma_literal_ascii::<F>(s@);
            }
        }
        return None;
    }
    let len = s.unicode_len();
    let neg = len > 0 && s.get_char(0) == '-';
    let start: usize = if neg { 1 } else { 0 };
    let body = s.substring_ascii(start, len);
    let ghost gbody = if is_negative(s@) { s@.drop_first() } else { s@ };
    assert(body@ =~= gbody);
    let blen = len - start;
    let mag: Fe;
    if blen >= 2 && s.get_char(start) == '0' && s.get_char(start + 1) == 'x' {
        let ghost h = gbody.subrange(2, gbody.len() as int);
        if blen == 2 {
            return None;
        }
        let sixteen = Fe::from_u64(16);
        let mut acc = Fe::zero();
        let mut i: usize = start + 2;
        proof {
            assert(gbody[0] == s@[start as int] && gbody[1] == s@[start + 1]);
            assert(is_hex_literal(gbody));
            assert(h =~= s@.subrange(start + 2, len as int));
            assert(h.subrange(0, 0).len() == 0);
            assert(hex_value(h.subrange(0, 0)) == 0);
            lemma_small_mod(0, p as nat);
        }
        while i < len
            invariant
                len == s@.len(),
                start + 2 <= i <= len,
                h == s@.subrange(start + 2, len as int),
                is_hex_literal(gbody),
                h == gbody.subrange(2, gbody.len() as int),
                gbody == (if is_negative(s@) { s@.drop_first() } else { s@ }),
                p == F::modulus() as int,
                p > 16,
                sixteen.value() == 16,
                acc.value() < F::modulus(),
                forall|j: int| 0 <= j < i - start - 2 ==> #[trigger] is_hex_digit(h[j]),
                acc.value() == hex_value(h.subrange(0, i - start - 2)) % F::modulus(),
            decreases len - i,
        {
            let c = s.get_char(i);
            match hex_digit(c) {
                None => {
                    proof {
                        assert(h[i - start - 2] == c);
                    }
                    return None;
                },
                Some(d) => {
                    let m = F::mul(acc, sixteen);
                    acc = F::add(m, Fe::from_u64(d));
                    proof {
                        let pre = h.subrange(0, i - start - 2);
                        let next = h.subrange(0, i - start - 1);
                        assert(next.drop_last() =~= pre);
                        assert(next.last() == c);
                        let hv = hex_value(pre);
                        lemma_mul_mod_noop_left(hv as int, 16, p);
                        lemma_add_mod_noop((hv * 16) as int, d as int, p);
                        lemma_small_mod(d as nat, p as nat);
                        lemma_mod_twice((hv * 16) as int, p);
                    }
                },
            }
            i = i + 1;
        }
        proof {
            assert(h.subrange(0, h.len() as int) =~= h);
        }
        mag = acc;
    } else {
        match F::from_decimal(body) {
            None => {
                return None;
            },
            Some(x) => {
                mag = x;
            },
        }
    }
    if neg {
        Some(F::sub(Fe::zero(), mag))
    } else {
        Some(mag)
    }
}

/// The elements a value of the input file stands for, read flat; `None`
/// where any literal in it is malformed or not a string.
pub open spec fn flatten<F: ScalarField>(v: JsonLiteral) -> Option<Seq<nat>>
    decreases v,
{
    match v {
        JsonLiteral::Str(s) => match literal_value::<F>(s@) {
            Some(x) => Some(seq![x]),
            None => None,
        },
        JsonLiteral::Array(items) => flatten_list::<F>(items@),
        JsonLiteral::Other(_) => None,
    }
}

pub open spec fn flatten_list<F: ScalarField>(items: Seq<JsonLiteral>) -> Option<Seq<nat>>
    decreases items,
{
    if items.len() == 0 {
        Some(Seq::empty())
    } else {
        match (flatten::<F>(items[0]), flatten_list::<F>(items.drop_first())) {
            (Some(a), Some(b)) => Some(a + b),
            _ => None,
        }
    }
}

/// The text of a value, for an error message.
fn describe(v: &JsonLiteral) -> (r: String)
    ensures
        v matches JsonLiteral::Str(s) ==> r@ == s@,
        v matches JsonLiteral::Other(t) ==> r@ == t@,
{
    match v {
        JsonLiteral::Str(s) => s.clone(),
        JsonLiteral::Other(t) => t.clone(),
        JsonLiteral::Array(_) => "[...]".to_owned(),
    }
}

/// Reads one field element; anything but a well-formed literal string is a
/// parse error that names the value.
pub fn parse_field<F: ScalarField>(v: &JsonLiteral) -> (r: Result<Fe, ShareError>)
    ensures
        v matches JsonLiteral::Str(s) ==> match literal_value::<F>(s@) {
            Some(x) => r matches Ok(e) && e.value() == x && x < F::modulus(),
            None => r matches Err(ShareError::Parse(t)) && t@ == s@,
        },
        v matches JsonLiteral::Other(t) ==> r matches Err(ShareError::Parse(u)) && u@ == t@,
        v is Array ==> r matches Err(ShareError::Parse(_)),
{
    match v {
        JsonLiteral::Str(s) => match parse_literal::<F>(s.as_str()) {
            Some(x) => Ok(x),
            None => Err(ShareError::Parse(describe(v))),
        },
        _ => Err(ShareError::Parse(describe(v))),
    }
}

/// Reads a value as a flat sequence of field elements: a literal gives one,
/// an array the elements of its items in order, nested arrays included.
pub fn parse_array<F: ScalarField>(v: &JsonLiteral) -> (r: Result<Vec<Fe>, ShareError>)
    ensures
        r is Ok <==> flatten::<F>(*v) is Some,
        r matches Ok(xs) ==> flatten::<F>(*v) == Some(Seq::new(xs@.len(), |i: int| xs@[i].value()))
            && forall|i: int| 0 <= i < xs@.len() ==> #[trigger] xs@[i].value() < F::modulus(),
        r matches Err(e) ==> e is Parse,
    decreases v,
{
    match v {
        JsonLiteral::Array(items) => {
            let mut out: Vec<Fe> = Vec::new();
            let mut i: usize = 0;
            while i < items.len()
                invariant
                    *v == JsonLiteral::Array(*items),
                    i <= items@.len(),
                    flatten_list::<F>(items@.subrange(0, i as int)) == Some(Seq::new(out@.len(), |j: int| out@[j].value())),
                    forall|j: int| 0 <= j < out@.len() ==> #[trigger] out@[j].value() < F::modulus(),
                decreases items@.len() - i,
            {
                proof {
                    assert(decreases_to!(*v => items@[i as int]));
                }
                let part = parse_array::<F>(&items[i]);
                match part {
                    Ok(xs) => {
                        let ghost before = Seq::new(out@.len(), |j: int| out@[j].value());
                        let mut k: usize = 0;
                        while k < xs.len()
                            invariant
                                k <= xs@.len(),
                                out@.len() == before.len() + k,
                                forall|j: int| 0 <= j < before.len() ==> #[trigger] out@[j].value() == before[j],
                                forall|j: int| 0 <= j < k ==> #[trigger] out@[before.len() + j] == xs@[j],
                                forall|j: int| 0 <= j < out@.len() ==> #[trigger] out@[j].value() < F::modulus(),
                                forall|j: int| 0 <= j < xs@.len() ==> #[trigger] xs@[j].value() < F::modulus(),
                            decreases xs@.len() - k,
                        {
                            out.push(xs[k]);
                            k = k + 1;
                        }
                        proof {
                            lemma_flatten_list_push::<F>(items@, i as int);
                            let xv = Seq::new(xs@.len(), |j: int| xs@[j].value());
                            assert forall|j: int| before.len() <= j < out@.len() implies #[trigger] out@[j].value() == xv[j - before.len()] by {
                                let q = j - before.len();
                                assert(out@[before.len() + q] == xs@[q]);
                            }
                            assert(Seq::new(out@.len(), |j: int| out@[j].value()) =~= before + xv);
                        }
                    },
                    Err(e) => {
                        proof {
                            lemma_flatten_list_none::<F>(items@, i as int);
                        }
                        return Err(e);
                    },
                }
                i = i + 1;
            }
            proof {
                assert(items@.subrange(0, items@.len() as int) =~= items@);
            }
            Ok(out)
        },
        _ => {
            match parse_field::<F>(v) {
                Ok(x) => {
                    let mut out: Vec<Fe> = Vec::new();
                    out.push(x);
                    proof {
                        assert(Seq::new(out@.len(), |j: int| out@[j].value()) =~= seq![x.value()]);
                    }
                    Ok(out)
                },
                Err(e) => Err(e),
            }
        },
    }
}

proof fn lemma_flatten_list_split<F: ScalarField>(items: Seq<JsonLiteral>, i: int)
    requires
        0 <= i < items.len(),
    ensures
        flatten_list::<F>(items.subrange(0, i + 1)) == match (
            flatten_list::<F>(items.subrange(0, i)),
            flatten::<F>(items[i]),
        ) {
            (Some(a), Some(b)) => Some(a + b),
            _ => None,
        },
    decreases i,
{
    let s = items.subrange(0, i + 1);
    assert(s[0] == items[0]);
    if i == 0 {
        assert(s.drop_first().len() == 0);
        assert(items.subrange(0, 0).len() == 0);
        assert(flatten_list::<F>(s.drop_first()) == Some(Seq::<nat>::empty()));
        assert(flatten_list::<F>(items.subrange(0, 0)) == Some(Seq::<nat>::empty()));
        let f = flatten::<F>(items[0]);
        if let Some(a) = f {
            assert(a + Seq::<nat>::empty() =~= a);
            assert(Seq::<nat>::empty() + a =~= a);
        }
    } else {
        let t = items.drop_first();
        lemma_flatten_list_split::<F>(t, i - 1);
        assert(s.drop_first() =~= t.subrange(0, i));
        assert(items.subrange(0, i).drop_first() =~= t.subrange(0, i - 1));
        assert(items.subrange(0, i)[0] == items[0]);
        assert(t[i - 1] == items[i]);
        let h = flatten::<F>(items[0]);
        let m = flatten_list::<F>(t.subrange(0, i - 1));
        let l = flatten::<F>(items[i]);
        assert(flatten_list::<F>(t.subrange(0, i)) == match (m, l) {
            (Some(b), Some(c)) => Some(b + c),
            _ => None::<Seq<nat>>,
        });
        assert(flatten_list::<F>(s) == match (h, flatten_list::<F>(t.subrange(0, i))) {
            (Some(a), Some(b)) => Some(a + b),
            _ => None::<Seq<nat>>,
        });
        assert(flatten_list::<F>(items.subrange(0, i)) == match (h, m) {
            (Some(a), Some(b)) => Some(a + b),
            _ => None::<Seq<nat>>,
        });
        if let (Some(a), Some(b), Some(c)) = (h, m, l) {
            assert(a + (b + c) =~= (a + b) + c);
        }
    }
}

proof fn lemma_flatten_list_push<F: ScalarField>(items: Seq<JsonLiteral>, i: int)
    requires
        0 <= i < items.len(),
    ensures
        flatten_list::<F>(items.subrange(0, i)) matches Some(a) ==> (flatten::<F>(items[i]) matches Some(b) ==> flatten_list::<F>(items.subrange(0, i + 1)) == Some(a + b)),
{
    lemma_flatten_list_split::<F>(items, i);
}

proof fn lemma_flatten_list_none<F: ScalarField>(items: Seq<JsonLiteral>, i: int)
    requires
        0 <= i < items.len(),
        flatten::<F>(items[i]) is None,
    ensures
        flatten_list::<F>(items) is None,
    decreases i,
{
    if i == 0 {
    } else {
        lemma_flatten_list_none::<F>(items.drop_first(), i - 1);
        assert(items.drop_first()[i - 1] == items[i]);
    }
}

} // verus!
