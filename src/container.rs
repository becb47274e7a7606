//! Share containers for a witness and for circuit inputs, and the merge of
//! inputs that several input owners shared independently.
use crate::error::ShareError;
use crate::field::{Fe, ScalarField};
use crate::rep3::{all_canonical, component_wf, copy_fes, is_rep3_split, values_of, Component, Rep3Share};
use vstd::prelude::*;

verus! {

/// A shared witness: the public values in the clear, and the share of the
/// further witness elements, in the order of the witness.
pub struct SharedWitness<S> {
    pub public_inputs: Vec<Fe>,
    pub witness: S,
}

/// The inputs of one party: public signals in the clear, secret signals as
/// shares, each under its name.
pub struct SharedInput<S> {
    pub public_inputs: Vec<(String, Vec<Fe>)>,
    pub shared_inputs: Vec<(String, S)>,
}

/// No name occurs twice.
pub open spec fn keys_unique<V>(e: Seq<(String, V)>) -> bool {
    forall|i: int, j: int|
        #![trigger e[i], e[j]]
        0 <= i < e.len() && 0 <= j < e.len() && i != j ==> e[i].0@ != e[j].0@
}

pub open spec fn has_key<V>(e: Seq<(String, V)>, k: Seq<char>) -> bool {
    exists|i: int| 0 <= i < e.len() && (#[trigger] e[i]).0@ == k
}

pub open spec fn key_index<V>(e: Seq<(String, V)>, k: Seq<char>) -> int {
    choose|i: int| 0 <= i < e.len() && (#[trigger] e[i]).0@ == k
}

/// The secret signals as a map from name to share.
pub open spec fn shared_view<S>(e: Seq<(String, S)>) -> Map<Seq<char>, S> {
    Map::new(|k: Seq<char>| has_key(e, k), |k: Seq<char>| e[key_index(e, k)].1)
}

/// The public signals as a map from name to values.
pub open spec fn public_view(e: Seq<(String, Vec<Fe>)>) -> Map<Seq<char>, Seq<Fe>> {
    Map::new(|k: Seq<char>| has_key(e, k), |k: Seq<char>| e[key_index(e, k)].1@)
}

impl<S> SharedInput<S> {
    pub open spec fn wf(&self) -> bool {
        keys_unique(self.public_inputs@) && keys_unique(self.shared_inputs@)
    }

    pub open spec fn public_map(&self) -> Map<Seq<char>, Seq<Fe>> {
        public_view(self.public_inputs@)
    }

    pub open spec fn shared_map(&self) -> Map<Seq<char>, S> {
        shared_view(self.shared_inputs@)
    }

    /// An input with no signals.
    pub fn new() -> (r: SharedInput<S>)
        ensures
            r.wf(),
            r.public_map() == Map::<Seq<char>, Seq<Fe>>::empty(),
            r.shared_map() == Map::<Seq<char>, S>::empty(),
    {
        let r = SharedInput { public_inputs: Vec::new(), shared_inputs: Vec::new() };
        assert(r.public_map() =~= Map::<Seq<char>, Seq<Fe>>::empty());
        assert(r.shared_map() =~= Map::<Seq<char>, S>::empty());
        r
    }
}

/// Two inputs can be merged: no secret name in both, and equal values
/// for every public name in both.
pub open spec fn mergeable<S>(
    ap: Map<Seq<char>, Seq<Fe>>,
    ash: Map<Seq<char>, S>,
    bp: Map<Seq<char>, Seq<Fe>>,
    bsh: Map<Seq<char>, S>,
) -> bool {
    &&& ash.dom().disjoint(bsh.dom())
    &&& forall|k: Seq<char>| #[trigger] ap.contains_key(k) && bp.contains_key(k) ==> ap[k] == bp[k]
}

proof fn lemma_index<V>(e: Seq<(String, V)>, i: int)
    requires
        keys_unique(e),
        0 <= i < e.len(),
    ensures
        has_key(e, e[i].0@),
        key_index(e, e[i].0@) == i,
{
    let k = e[i].0@;
    assert(has_key(e, k));
    let j = key_index(e, k);
    assert(e[j].0@ == k);
}

/// The position of `key` among the entries, if it is there.
fn find<V>(e: &Vec<(String, V)>, key: &String) -> (r: Option<usize>)
    ensures
        r is None <==> !has_key(e@, key@),
        r matches Some(i) ==> i < e@.len() && e@[i as int].0@ == key@,
{
    let mut i: usize = 0;
    while i < e.len()
        invariant
            i <= e@.len(),
            forall|j: int| 0 <= j < i ==> (#[trigger] e@[j]).0@ != key@,
        decreases e@.len() - i,
    {
        if e[i].0 == *key {
            return Some(i);
        }
        i = i + 1;
    }
    None
}

fn same_values(a: &Vec<Fe>, b: &Vec<Fe>) -> (r: bool)
    ensures
        r == (a@ == b@),
{
    if a.len() != b.len() {
        return false;
    }
    let mut i: usize = 0;
    while i < a.len()
        invariant
            a@.len() == b@.len(),
            i <= a@.len(),
            forall|j: int| 0 <= j < i ==> a@[j] == b@[j],
        decreases a@.len() - i,
    {
        if a[i] != b[i] {
            return false;
        }
        i = i + 1;
    }
    assert(a@ =~= b@);
    true
}

proof fn lemma_push_view<V>(e: Seq<(String, V)>, x: (String, V), k: Seq<char>)
    requires
        keys_unique(e),
        !has_key(e, x.0@),
    ensures
        keys_unique(e.push(x)),
        has_key(e.push(x), k) <==> (has_key(e, k) || k == x.0@),
        has_key(e, k) ==> e.push(x)[key_index(e.push(x), k)] == e[key_index(e, k)],
        k == x.0@ ==> e.push(x)[key_index(e.push(x), k)] == x,
{
    let f = e.push(x);
    assert forall|i: int, j: int|
        #![trigger f[i], f[j]]
        0 <= i < f.len() && 0 <= j < f.len() && i != j implies f[i].0@ != f[j].0@ by {
        if i < e.len() && j < e.len() {
            assert(e[i] == f[i] && e[j] == f[j]);
        } else if i < e.len() {
            assert(e[i] == f[i]);
        } else {
            assert(e[j] == f[j]);
        }
    }
    if has_key(f, k) {
        let i = key_index(f, k);
        if i < e.len() {
            assert(e[i] == f[i]);
            assert(has_key(e, k));
        }
    }
    if has_key(e, k) {
        let i = key_index(e, k);
        assert(f[i] == e[i]);
        lemma_index(f, i);
    }
    if k == x.0@ {
        lemma_index(f, e.len() as int);
    }
}

proof fn lemma_concat_view<V>(a: Seq<(String, V)>, b: Seq<(String, V)>, k: Seq<char>)
    requires
        keys_unique(a),
        keys_unique(b),
        forall|i: int| 0 <= i < a.len() ==> !has_key(b, (#[trigger] a[i]).0@),
    ensures
        keys_unique(a + b),
        has_key(a + b, k) <==> (has_key(a, k) || has_key(b, k)),
        has_key(a, k) ==> (a + b)[key_index(a + b, k)] == a[key_index(a, k)],
        has_key(b, k) ==> (a + b)[key_index(a + b, k)] == b[key_index(b, k)],
{
    let f = a + b;
    assert forall|i: int, j: int|
        #![trigger f[i], f[j]]
        0 <= i < f.len() && 0 <= j < f.len() && i != j implies f[i].0@ != f[j].0@ by {
        if i < a.len() && j < a.len() {
            assert(a[i] == f[i] && a[j] == f[j]);
        } else if i >= a.len() && j >= a.len() {
            assert(b[i - a.len()] == f[i] && b[j - a.len()] == f[j]);
        } else if i < a.len() {
            assert(a[i] == f[i] && b[j - a.len()] == f[j]);
            if f[i].0@ == f[j].0@ {
                assert(has_key(b, a[i].0@));
            }
        } else {
            assert(b[i - a.len()] == f[i] && a[j] == f[j]);
            if f[i].0@ == f[j].0@ {
                assert(has_key(b, a[j].0@));
            }
        }
    }
    if has_key(f, k) {
        let i = key_index(f, k);
        if i < a.len() {
            assert(a[i] == f[i]);
            assert(has_key(a, k));
        } else {
            assert(b[i - a.len()] == f[i]);
            assert(has_key(b, k));
        }
    }
    if has_key(a, k) {
        let i = key_index(a, k);
        assert(f[i] == a[i]);
        lemma_index(f, i);
    }
    if has_key(b, k) {
        let i = key_index(b, k);
        assert(f[a.len() + i] == b[i]);
        lemma_index(f, a.len() + i);
    }
}

impl<S> SharedInput<S> {
    /// Merges the inputs of two owners. A secret name in both is a
    /// `DuplicateKey`; a public name with two different values is a
    /// `Conflict`; otherwise the result holds the signals of both.
    pub fn merge(self, other: SharedInput<S>) -> (r: Result<SharedInput<S>, ShareError>)
        requires
            self.wf(),
            other.wf(),
        ensures
            mergeable(self.public_map(), self.shared_map(), other.public_map(), other.shared_map())
                <==> r is Ok,
            r matches Ok(m) ==> {
                &&& m.wf()
                &&& m.public_map() == self.public_map().union_prefer_right(other.public_map())
                &&& m.shared_map() == self.shared_map().union_prefer_right(other.shared_map())
            },
            !self.shared_map().dom().disjoint(other.shared_map().dom()) ==> (r matches Err(
                ShareError::DuplicateKey(k),
            ) && self.shared_map().contains_key(k@) && other.shared_map().contains_key(k@)),
            (self.shared_map().dom().disjoint(other.shared_map().dom()) && !mergeable(
                self.public_map(),
                self.shared_map(),
                other.public_map(),
                other.shared_map(),
            )) ==> (r matches Err(ShareError::Conflict(k)) && self.public_map().contains_key(k@)
                && other.public_map().contains_key(k@) && self.public_map()[k@]
                != other.public_map()[k@]),
    {
        let ghost ap = self.public_map();
        let ghost ash = self.shared_map();
        let ghost bp = other.public_map();
        let ghost bsh = other.shared_map();
        let ghost a_pub = self.public_inputs@;
        let ghost b_pub = other.public_inputs@;
        let ghost a_sh = self.shared_inputs@;
        let ghost b_sh = other.shared_inputs@;
        // secret names must be disjoint
        let mut i: usize = 0;
        while i < self.shared_inputs.len()
            invariant
                i <= a_sh.len(),
                a_sh == self.shared_inputs@,
                b_sh == other.shared_inputs@,
                keys_unique(a_sh),
                keys_unique(b_sh),
                ash == shared_view(a_sh),
                bsh == shared_view(b_sh),
                forall|j: int| 0 <= j < i ==> !has_key(b_sh, (#[trigger] a_sh[j]).0@),
            decreases a_sh.len() - i,
        {
            if let Some(j) = find(&other.shared_inputs, &self.shared_inputs[i].0) {
                let k = self.shared_inputs[i].0.clone();
                proof {
                    lemma_index(a_sh, i as int);
                    lemma_index(b_sh, j as int);
                    assert(ash.contains_key(k@) && bsh.contains_key(k@));
                }
                return Err(ShareError::DuplicateKey(k));
            }
            i = i + 1;
        }
        assert(ash.dom().disjoint(bsh.dom())) by {
            assert forall|k: Seq<char>| ash.contains_key(k) implies !bsh.contains_key(k) by {
                let j = key_index(a_sh, k);
                assert(a_sh[j].0@ == k);
            }
        }
        // public names in both must agree
        let mut i: usize = 0;
        while i < self.public_inputs.len()
            invariant
                i <= a_pub.len(),
                a_pub == self.public_inputs@,
                b_pub == other.public_inputs@,
                keys_unique(a_pub),
                keys_unique(b_pub),
                ap == public_view(a_pub),
                bp == public_view(b_pub),
                ash.dom().disjoint(bsh.dom()),
                ash == self.shared_map(),
                bsh == other.shared_map(),
                ap == self.public_map(),
                bp == other.public_map(),
                forall|j: int|
                    0 <= j < i ==> #[trigger] bp.contains_key(a_pub[j].0@) ==> ap[a_pub[j].0@]
                        == bp[a_pub[j].0@],
            decreases a_pub.len() - i,
        {
            if let Some(j) = find(&other.public_inputs, &self.public_inputs[i].0) {
                proof {
                    lemma_index(a_pub, i as int);
                    lemma_index(b_pub, j as int);
                }
                if !same_values(&self.public_inputs[i].1, &other.public_inputs[j].1) {
                    let k = self.public_inputs[i].0.clone();
                    proof {
                        assert(ap.contains_key(k@) && bp.contains_key(k@) && ap[k@] != bp[k@]);
                    }
                    return Err(ShareError::Conflict(k));
                }
            }
            i = i + 1;
        }
        assert(mergeable(ap, ash, bp, bsh)) by {
            assert forall|k: Seq<char>| #[trigger] ap.contains_key(k) && bp.contains_key(k) implies ap[k] == bp[k] by {
                let j = key_index(a_pub, k);
                assert(a_pub[j].0@ == k);
            }
        }
        let SharedInput { public_inputs: mut public, shared_inputs: mut shared } = self;
        let SharedInput { public_inputs: other_public, shared_inputs: mut other_shared } = other;
        shared.append(&mut other_shared);
        proof {
            assert forall|k: Seq<char>| true implies #[trigger] has_key(a_sh + b_sh, k) == (has_key(a_sh, k) || has_key(b_sh, k)) by {
                lemma_concat_view(a_sh, b_sh, k);
            }
            assert(shared@ == a_sh + b_sh);
            assert forall|k: Seq<char>| #[trigger] shared_view(a_sh + b_sh).contains_key(k) implies shared_view(a_sh + b_sh)[k] == ash.union_prefer_right(bsh)[k] by {
                lemma_concat_view(a_sh, b_sh, k);
            }
            assert(shared_view(shared@) =~= ash.union_prefer_right(bsh));
            lemma_concat_view(a_sh, b_sh, Seq::empty());
        }
        let mut j: usize = 0;
        while j < other_public.len()
            invariant
                j <= b_pub.len(),
                b_pub == other_public@,
                keys_unique(a_pub),
                keys_unique(b_pub),
                keys_unique(public@),
                ap == public_view(a_pub),
                bp == public_view(b_pub),
                mergeable(ap, ash, bp, bsh),
                forall|k: Seq<char>|
                    #[trigger] has_key(public@, k) <==> (has_key(a_pub, k) || exists|q: int|
                        0 <= q < j && (#[trigger] b_pub[q]).0@ == k),
                forall|k: Seq<char>|
                    #[trigger] has_key(public@, k) ==> public@[key_index(public@, k)].1@ == (if has_key(a_pub, k) {
                        ap[k]
                    } else {
                        bp[k]
                    }),
            decreases b_pub.len() - j,
        {
            let found = find(&public, &other_public[j].0);
            if found.is_none() {
                let entry = (other_public[j].0.clone(), copy_fes(&other_public[j].1));
                proof {
                    lemma_index(b_pub, j as int);
                    assert forall|k: Seq<char>| true implies #[trigger] has_key(public@.push(entry), k) <==> (has_key(a_pub, k) || exists|q: int| 0 <= q < j + 1 && (#[trigger] b_pub[q]).0@ == k) by {
                        lemma_push_view(public@, entry, k);
                        if k == entry.0@ {
                            assert(b_pub[j as int].0@ == k);
                        }
                        if exists|q: int| 0 <= q < j + 1 && (#[trigger] b_pub[q]).0@ == k {
                            let q = choose|q: int| 0 <= q < j + 1 && (#[trigger] b_pub[q]).0@ == k;
                            if q < j {
                                assert(has_key(public@, k));
                            }
                        }
                    }
                    assert forall|k: Seq<char>| #[trigger] has_key(public@.push(entry), k) implies public@.push(entry)[key_index(public@.push(entry), k)].1@ == (if has_key(a_pub, k) { ap[k] } else { bp[k] }) by {
                        lemma_push_view(public@, entry, k);
                    }
                    lemma_push_view(public@, entry, Seq::empty());
                }
                public.push(entry);
            } else {
                proof {
                    lemma_index(b_pub, j as int);
                    let k = b_pub[j as int].0@;
                    assert forall|k2: Seq<char>| true implies #[trigger] has_key(public@, k2) <==> (has_key(a_pub, k2) || exists|q: int| 0 <= q < j + 1 && (#[trigger] b_pub[q]).0@ == k2) by {
                        if k2 == k {
                            assert(b_pub[j as int].0@ == k2);
                        }
                        if exists|q: int| 0 <= q < j + 1 && (#[trigger] b_pub[q]).0@ == k2 {
                            let q = choose|q: int| 0 <= q < j + 1 && (#[trigger] b_pub[q]).0@ == k2;
                            if q < j {
                                assert(has_key(public@, k2));
                            }
                        }
                    }
                }
            }
            j = j + 1;
        }
        proof {
            assert forall|k: Seq<char>| #[trigger] public_view(public@).contains_key(k) == ap.union_prefer_right(bp).contains_key(k) by {
                if has_key(b_pub, k) {
                    let q = key_index(b_pub, k);
                    assert(b_pub[q].0@ == k);
                }
            }
            assert(public_view(public@) =~= ap.union_prefer_right(bp));
        }
        Ok(SharedInput { public_inputs: public, shared_inputs: shared })
    }
}

/// The public and secret maps of one input.
pub open spec fn input_maps<S>(x: SharedInput<S>) -> (Map<Seq<char>, Seq<Fe>>, Map<Seq<char>, S>) {
    (x.public_map(), x.shared_map())
}

/// The maps of two mergeable inputs, merged.
pub open spec fn merged<S>(
    a: (Map<Seq<char>, Seq<Fe>>, Map<Seq<char>, S>),
    b: (Map<Seq<char>, Seq<Fe>>, Map<Seq<char>, S>),
) -> (Map<Seq<char>, Seq<Fe>>, Map<Seq<char>, S>) {
    (a.0.union_prefer_right(b.0), a.1.union_prefer_right(b.1))
}

pub open spec fn can_merge<S>(
    a: (Map<Seq<char>, Seq<Fe>>, Map<Seq<char>, S>),
    b: (Map<Seq<char>, Seq<Fe>>, Map<Seq<char>, S>),
) -> bool {
    mergeable(a.0, a.1, b.0, b.1)
}

/// Merging the inputs one after another, from the first; `None` where a
/// step fails.
pub open spec fn fold_merge<S>(v: Seq<(Map<Seq<char>, Seq<Fe>>, Map<Seq<char>, S>)>) -> Option<
    (Map<Seq<char>, Seq<Fe>>, Map<Seq<char>, S>),
>
    decreases v.len(),
{
    if v.len() == 0 {
        None
    } else if v.len() == 1 {
        Some(v[0])
    } else {
        match fold_merge(v.drop_last()) {
            Some(m) => if can_merge(m, v.last()) {
                Some(merged(m, v.last()))
            } else {
                None
            },
            None => None,
        }
    }
}

proof fn lemma_fold_none<S>(v: Seq<(Map<Seq<char>, Seq<Fe>>, Map<Seq<char>, S>)>, n: int)
    requires
        1 <= n <= v.len(),
        fold_merge(v.subrange(0, n)) is None,
    ensures
        fold_merge(v) is None,
    decreases v.len() - n,
{
    if n < v.len() {
        let w = v.subrange(0, n + 1);
        assert(w.drop_last() =~= v.subrange(0, n));
        lemma_fold_none(v, n + 1);
    } else {
        assert(v.subrange(0, n) =~= v);
    }
}

/// Merges the inputs of all owners; fewer than two is an error.
pub fn merge_all<S>(inputs: Vec<SharedInput<S>>) -> (r: Result<SharedInput<S>, ShareError>)
    requires
        forall|i: int| 0 <= i < inputs@.len() ==> (#[trigger] inputs@[i]).wf(),
    ensures
        inputs@.len() < 2 ==> (r matches Err(ShareError::TooFewInputs)),
        inputs@.len() >= 2 ==> (r is Ok <==> fold_merge(
            Seq::new(inputs@.len(), |i: int| input_maps(inputs@[i])),
        ) is Some),
        r matches Ok(m) ==> m.wf() && Some(input_maps(m)) == fold_merge(
            Seq::new(inputs@.len(), |i: int| input_maps(inputs@[i])),
        ),
{
    if inputs.len() < 2 {
        return Err(ShareError::TooFewInputs);
    }
    let ghost all = Seq::new(inputs@.len(), |i: int| input_maps(inputs@[i]));
    let ghost orig = inputs@;
    let n = inputs.len();
    let mut rest = inputs;
    let mut acc = rest.remove(0);
    proof {
        assert(all.subrange(0, 1).len() == 1);
        assert(fold_merge(all.subrange(0, 1)) == Some(all[0]));
    }
    let mut done: usize = 1;
    while rest.len() > 0
        invariant
            n == orig.len(),
            n >= 2,
            orig == inputs@,
            all == Seq::new(orig.len(), |i: int| input_maps(orig[i])),
            forall|i: int| 0 <= i < orig.len() ==> (#[trigger] orig[i]).wf(),
            1 <= done <= n,
            rest@ == orig.subrange(done as int, n as int),
            acc.wf(),
            fold_merge(all.subrange(0, done as int)) == Some(input_maps(acc)),
        decreases rest@.len(),
    {
        let next = rest.remove(0);
        proof {
            assert(done < n);
            assert(next == orig[done as int]);
            let w = all.subrange(0, done + 1);
            assert(w.drop_last() =~= all.subrange(0, done as int));
            assert(w.last() == input_maps(next));
        }
        match acc.merge(next) {
            Ok(m) => {
                acc = m;
            },
            Err(e) => {
                proof {
                    lemma_fold_none(all, done + 1);
                }
                return Err(e);
            },
        }
        done = done + 1;
    }
    assert(all.subrange(0, n as int) =~= all);
    Ok(acc)
}

/// Merging is associative: for inputs whose secret names are pairwise
/// disjoint and whose public values agree pairwise, merging `a` with `b`
/// and then `c` succeeds exactly as merging `a` with the merge of `b` and
/// `c` does, with the same result.
pub proof fn lemma_merge_associative<S>(
    a: (Map<Seq<char>, Seq<Fe>>, Map<Seq<char>, S>),
    b: (Map<Seq<char>, Seq<Fe>>, Map<Seq<char>, S>),
    c: (Map<Seq<char>, Seq<Fe>>, Map<Seq<char>, S>),
)
    requires
        can_merge(a, b),
        can_merge(b, c),
        can_merge(a, c),
    ensures
        can_merge(merged(a, b), c),
        can_merge(b, c) && can_merge(a, merged(b, c)),
        merged(merged(a, b), c) == merged(a, merged(b, c)),
{
    let ab = merged(a, b);
    let bc = merged(b, c);
    assert forall|k: Seq<char>| #[trigger] ab.0.contains_key(k) && c.0.contains_key(k) implies ab.0[k] == c.0[k] by {
        if b.0.contains_key(k) {
            assert(b.0[k] == c.0[k]);
        }
    }
    assert forall|k: Seq<char>| #[trigger] a.0.contains_key(k) && bc.0.contains_key(k) implies a.0[k] == bc.0[k] by {
        if c.0.contains_key(k) {
            assert(a.0[k] == c.0[k]);
        } else {
            assert(a.0[k] == b.0[k]);
        }
    }
    assert(ab.1.dom().disjoint(c.1.dom()));
    assert(a.1.dom().disjoint(bc.1.dom()));
    assert(merged(ab, c).0 =~= merged(a, bc).0);
    assert(merged(ab, c).1 =~= merged(a, bc).1);
}

/// Merging is commutative on mergeable inputs.
pub proof fn lemma_merge_commutative<S>(
    a: (Map<Seq<char>, Seq<Fe>>, Map<Seq<char>, S>),
    b: (Map<Seq<char>, Seq<Fe>>, Map<Seq<char>, S>),
)
    requires
        can_merge(a, b),
    ensures
        can_merge(b, a),
        merged(a, b) == merged(b, a),
{
    assert forall|k: Seq<char>| #[trigger] b.0.contains_key(k) && a.0.contains_key(k) implies b.0[k] == a.0[k] by {
        assert(a.0[k] == b.0[k]);
    }
    assert(merged(a, b).0 =~= merged(b, a).0);
    assert(merged(a, b).1 =~= merged(b, a).1);
}

/// `k` is among the public names.
pub open spec fn is_public_name(names: Seq<String>, k: Seq<char>) -> bool {
    exists|j: int| 0 <= j < names.len() && (#[trigger] names[j])@ == k
}

fn contains_name(names: &Vec<String>, k: &String) -> (r: bool)
    ensures
        r == is_public_name(names@, k@),
{
    let mut j: usize = 0;
    while j < names.len()
        invariant
            j <= names@.len(),
            forall|q: int| 0 <= q < j ==> (#[trigger] names@[q])@ != k@,
        decreases names@.len() - j,
    {
        if names[j] == *k {
            return true;
        }
        j = j + 1;
    }
    false
}

/// Shares the signals of one input owner among the three REP3 parties: a
/// public signal goes in the clear to every party, a secret one is split
/// with the random components `masks[i]` of signal `i`.
pub fn share_input<F: ScalarField>(
    signals: &Vec<(String, Vec<Fe>)>,
    public_names: &Vec<String>,
    masks: Vec<(Component, Component)>,
    additive: bool,
) -> (r: (SharedInput<Rep3Share>, SharedInput<Rep3Share>, SharedInput<Rep3Share>))
    requires
        keys_unique(signals@),
        masks@.len() == signals@.len(),
        forall|i: int|
            0 <= i < signals@.len() ==> all_canonical::<F>((#[trigger] signals@[i]).1@)
                && component_wf::<F>(masks@[i].0, signals@[i].1@.len()) && component_wf::<F>(
                masks@[i].1,
                signals@[i].1@.len(),
            ),
    ensures
        r.0.wf() && r.1.wf() && r.2.wf(),
        forall|k: Seq<char>|
            #[trigger] r.0.public_map().contains_key(k) <==> has_key(signals@, k)
                && is_public_name(public_names@, k),
        forall|k: Seq<char>|
            #[trigger] r.0.shared_map().contains_key(k) <==> has_key(signals@, k)
                && !is_public_name(public_names@, k),
        r.1.public_map() == r.0.public_map() && r.2.public_map() == r.0.public_map(),
        r.1.shared_map().dom() == r.0.shared_map().dom() && r.2.shared_map().dom()
            == r.0.shared_map().dom(),
        forall|i: int|
            0 <= i < signals@.len() && is_public_name(public_names@, (#[trigger] signals@[i]).0@)
                ==> r.0.public_map()[signals@[i].0@] == signals@[i].1@,
        forall|i: int|
            0 <= i < signals@.len() && !is_public_name(public_names@, (#[trigger] signals@[i]).0@)
                ==> is_rep3_split::<F>(
                values_of::<F>(signals@[i].1@),
                masks@[i].0,
                masks@[i].1,
                additive,
                (
                    r.0.shared_map()[signals@[i].0@],
                    r.1.shared_map()[signals@[i].0@],
                    r.2.shared_map()[signals@[i].0@],
                ),
            ),
{
    let ghost m0 = masks@;
    let mut masks = masks;
    let mut p0: Vec<(String, Vec<Fe>)> = Vec::new();
    let mut p1: Vec<(String, Vec<Fe>)> = Vec::new();
    let mut p2: Vec<(String, Vec<Fe>)> = Vec::new();
    let mut s0: Vec<(String, Rep3Share)> = Vec::new();
    let mut s1: Vec<(String, Rep3Share)> = Vec::new();
    let mut s2: Vec<(String, Rep3Share)> = Vec::new();
    let mut i: usize = 0;
    while i < signals.len()
        invariant
            keys_unique(signals@),
            m0.len() == signals@.len(),
            masks@ == m0.subrange(i as int, m0.len() as int),
            forall|q: int|
                0 <= q < signals@.len() ==> all_canonical::<F>((#[trigger] signals@[q]).1@)
                    && component_wf::<F>(m0[q].0, signals@[q].1@.len()) && component_wf::<F>(
                    m0[q].1,
                    signals@[q].1@.len(),
                ),
            i <= signals@.len(),
            keys_unique(p0@) && keys_unique(p1@) && keys_unique(p2@),
            keys_unique(s0@) && keys_unique(s1@) && keys_unique(s2@),
            forall|k: Seq<char>|
                #[trigger] has_key(p0@, k) <==> (is_public_name(public_names@, k) && exists|q: int|
                    0 <= q < i && (#[trigger] signals@[q]).0@ == k),
            forall|k: Seq<char>| #[trigger] has_key(p1@, k) <==> has_key(p0@, k),
            forall|k: Seq<char>| #[trigger] has_key(p2@, k) <==> has_key(p0@, k),
            forall|k: Seq<char>|
                #[trigger] has_key(s0@, k) <==> (!is_public_name(public_names@, k) && exists|q: int|
                    0 <= q < i && (#[trigger] signals@[q]).0@ == k),
            forall|k: Seq<char>| #[trigger] has_key(s1@, k) <==> has_key(s0@, k),
            forall|k: Seq<char>| #[trigger] has_key(s2@, k) <==> has_key(s0@, k),
            forall|q: int|
                0 <= q < i && is_public_name(public_names@, (#[trigger] signals@[q]).0@) ==> {
                    &&& public_view(p0@)[signals@[q].0@] == signals@[q].1@
                    &&& public_view(p1@)[signals@[q].0@] == signals@[q].1@
                    &&& public_view(p2@)[signals@[q].0@] == signals@[q].1@
                },
            forall|q: int|
                0 <= q < i && !is_public_name(public_names@, (#[trigger] signals@[q]).0@)
                    ==> is_rep3_split::<F>(
                    values_of::<F>(signals@[q].1@),
                    m0[q].0,
                    m0[q].1,
                    additive,
                    (
                        shared_view(s0@)[signals@[q].0@],
                        shared_view(s1@)[signals@[q].0@],
                        shared_view(s2@)[signals@[q].0@],
                    ),
                ),
        decreases signals@.len() - i,
    {
        let (c0, c1) = masks.remove(0);
        let ghost name = signals@[i as int].0@;
        proof {
            assert(m0[i as int] == (c0, c1));
            assert forall|q: int| 0 <= q < i implies (#[trigger] signals@[q]).0@ != name by {
                assert(signals@[q] != signals@[i as int] || q == i);
            }
        }
        if contains_name(public_names, &signals[i].0) {
            let e0 = (signals[i].0.clone(), copy_fes(&signals[i].1));
            let e1 = (signals[i].0.clone(), copy_fes(&signals[i].1));
            let e2 = (signals[i].0.clone(), copy_fes(&signals[i].1));
            proof {
                assert forall|k: Seq<char>| true implies #[trigger] has_key(p0@.push(e0), k) == (has_key(p0@, k) || k == name) && has_key(p1@.push(e1), k) == (has_key(p1@, k) || k == name) && has_key(p2@.push(e2), k) == (has_key(p2@, k) || k == name) by {
                    lemma_push_view(p0@, e0, k);
                    lemma_push_view(p1@, e1, k);
                    lemma_push_view(p2@, e2, k);
                }
                assert forall|q: int| 0 <= q < i + 1 && is_public_name(public_names@, (#[trigger] signals@[q]).0@) implies {
                    &&& public_view(p0@.push(e0))[signals@[q].0@] == signals@[q].1@
                    &&& public_view(p1@.push(e1))[signals@[q].0@] == signals@[q].1@
                    &&& public_view(p2@.push(e2))[signals@[q].0@] == signals@[q].1@
                } by {
                    let k = signals@[q].0@;
                    lemma_push_view(p0@, e0, k);
                    lemma_push_view(p1@, e1, k);
                    lemma_push_view(p2@, e2, k);
                    if q < i {
                        assert(has_key(p0@, k));
                    }
                }
                lemma_push_view(p0@, e0, name);
                lemma_push_view(p1@, e1, name);
                lemma_push_view(p2@, e2, name);
            }
            p0.push(e0);
            p1.push(e1);
            p2.push(e2);
        } else {
            let (x, y, z) = crate::rep3::split::<F>(&signals[i].1, c0, c1, additive);
            let e0 = (signals[i].0.clone(), x);
            let e1 = (signals[i].0.clone(), y);
            let e2 = (signals[i].0.clone(), z);
            proof {
                assert forall|k: Seq<char>| true implies #[trigger] has_key(s0@.push(e0), k) == (has_key(s0@, k) || k == name) && has_key(s1@.push(e1), k) == (has_key(s1@, k) || k == name) && has_key(s2@.push(e2), k) == (has_key(s2@, k) || k == name) by {
                    lemma_push_view(s0@, e0, k);
                    lemma_push_view(s1@, e1, k);
                    lemma_push_view(s2@, e2, k);
                }
                assert forall|q: int| 0 <= q < i + 1 && !is_public_name(public_names@, (#[trigger] signals@[q]).0@) implies is_rep3_split::<F>(
                    values_of::<F>(signals@[q].1@),
                    m0[q].0,
                    m0[q].1,
                    additive,
                    (
                        shared_view(s0@.push(e0))[signals@[q].0@],
                        shared_view(s1@.push(e1))[signals@[q].0@],
                        shared_view(s2@.push(e2))[signals@[q].0@],
                    ),
                ) by {
                    let k = signals@[q].0@;
                    lemma_push_view(s0@, e0, k);
                    lemma_push_view(s1@, e1, k);
                    lemma_push_view(s2@, e2, k);
                    if q < i {
                        assert(has_key(s0@, k));
                    }
                }
                lemma_push_view(s0@, e0, name);
                lemma_push_view(s1@, e1, name);
                lemma_push_view(s2@, e2, name);
            }
            s0.push(e0);
            s1.push(e1);
            s2.push(e2);
        }
        i = i + 1;
    }
    let r0 = SharedInput { public_inputs: p0, shared_inputs: s0 };
    let r1 = SharedInput { public_inputs: p1, shared_inputs: s1 };
    let r2 = SharedInput { public_inputs: p2, shared_inputs: s2 };
    proof {
        assert forall|k: Seq<char>| #[trigger] r0.public_map().contains_key(k) <==> has_key(signals@, k) && is_public_name(public_names@, k) by {
            if has_key(signals@, k) {
                let q = key_index(signals@, k);
                assert(signals@[q].0@ == k);
            }
        }
        assert forall|k: Seq<char>| #[trigger] r0.shared_map().contains_key(k) <==> has_key(signals@, k) && !is_public_name(public_names@, k) by {
            if has_key(signals@, k) {
                let q = key_index(signals@, k);
                assert(signals@[q].0@ == k);
            }
        }
        assert forall|k: Seq<char>| #[trigger] r1.public_map().contains_key(k) implies r1.public_map()[k] == r0.public_map()[k] && r2.public_map()[k] == r0.public_map()[k] by {
            let q = choose|q: int| 0 <= q < signals@.len() && (#[trigger] signals@[q]).0@ == k;
            assert(is_public_name(public_names@, signals@[q].0@));
        }
        assert(r1.public_map() =~= r0.public_map());
        assert(r2.public_map() =~= r0.public_map());
        assert(r1.shared_map().dom() =~= r0.shared_map().dom());
        assert(r2.shared_map().dom() =~= r0.shared_map().dom());
    }
    (r0, r1, r2)
}

} // verus!
