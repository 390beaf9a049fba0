//! Duplicate-free vectors of job identifiers, viewed as sets.
//!
//! The engine stores every set of job identifiers (ancestors, children,
//! producers) as a `Vec<i64>` without duplicates; `id_set` is the set a
//! caller-visible contract speaks of.

use vstd::prelude::*;

verus! {

/// The set of identifiers held by a sequence.
pub open spec fn id_set(s: Seq<i64>) -> Set<i64> {
    Set::new(|x: i64| s.contains(x))
}

/// No identifier occurs twice.
pub open spec fn nodup(s: Seq<i64>) -> bool {
    forall|i: int, j: int| 0 <= i < j < s.len() ==> s[i] != s[j]
}

pub proof fn lemma_id_set_push(s: Seq<i64>, x: i64)
    ensures
        id_set(s.push(x)) == id_set(s).insert(x),
{
    assert forall|y: i64| id_set(s.push(x)).contains(y) <==> id_set(s).insert(x).contains(y) by {
        if s.push(x).contains(y) {
            let k = choose|k: int| 0 <= k < s.push(x).len() && s.push(x)[k] == y;
            if k < s.len() {
                assert(s[k] == y);
            }
        }
        if s.contains(y) {
            let k = choose|k: int| 0 <= k < s.len() && s[k] == y;
            assert(s.push(x)[k] == y);
        }
        if y == x {
            assert(s.push(x)[s.len() as int] == y);
        }
    }
    assert(id_set(s.push(x)) =~= id_set(s).insert(x));
}

/// Whether the sequence holds `x`.
pub fn contains_id(v: &Vec<i64>, x: i64) -> (b: bool)
    ensures
        b == v@.contains(x),
{
    let mut k: usize = 0;
    while k < v.len()
        invariant
            k <= v@.len(),
            forall|j: int| 0 <= j < k ==> v@[j] != x,
        decreases v@.len() - k,
    {
        if v[k] == x {
            return true;
        }
        k += 1;
    }
    false
}

/// Add `x` unless it is already present, as inserting into a set does.
pub fn push_unique(v: &mut Vec<i64>, x: i64)
    ensures
        final(v)@ == (if old(v)@.contains(x) {
            old(v)@
        } else {
            old(v)@.push(x)
        }),
        id_set(final(v)@) == id_set(old(v)@).insert(x),
        nodup(old(v)@) ==> nodup(final(v)@),
{
    let present = contains_id(v, x);
    if !present {
        v.push(x);
    }
    proof {
        if old(v)@.contains(x) {
            assert(id_set(old(v)@) =~= id_set(old(v)@).insert(x));
        } else {
            lemma_id_set_push(old(v)@, x);
        }
    }
}

/// Remove the first occurrence of `x`, if any.
pub fn remove_id(v: &mut Vec<i64>, x: i64)
    requires
        nodup(old(v)@),
    ensures
        nodup(final(v)@),
        id_set(final(v)@) == id_set(old(v)@).remove(x),
        final(v)@.len() == 0 <==> id_set(old(v)@).remove(x).is_empty(),
{
    let ghost s0 = v@;
    let mut k: usize = 0;
    while k < v.len()
        invariant
            k <= v@.len(),
            v@ == s0,
            s0 == old(v)@,
            nodup(s0),
            forall|j: int| 0 <= j < k ==> s0[j] != x,
        decreases v@.len() - k,
    {
        if v[k] == x {
            v.remove(k);
            proof {
                lemma_remove_at(s0, k as int, x);
            }
            return ;
        }
        k += 1;
    }
    proof {
        assert(!s0.contains(x));
        assert(id_set(s0) =~= id_set(s0).remove(x));
        lemma_id_set_empty_len(s0);
    }
}

proof fn lemma_remove_at(s: Seq<i64>, k: int, x: i64)
    requires
        nodup(s),
        0 <= k < s.len(),
        s[k] == x,
    ensures
        nodup(s.remove(k)),
        id_set(s.remove(k)) == id_set(s).remove(x),
        s.remove(k).len() == 0 <==> id_set(s).remove(x).is_empty(),
{
    let r = s.remove(k);
    assert forall|y: i64| id_set(r).contains(y) <==> id_set(s).remove(x).contains(y) by {
        if r.contains(y) {
            let j = choose|j: int| 0 <= j < r.len() && r[j] == y;
            if j < k {
                assert(s[j] == y);
            } else {
                assert(s[j + 1] == y);
            }
            assert(y != x);
        }
        if s.contains(y) && y != x {
            let j = choose|j: int| 0 <= j < s.len() && s[j] == y;
            if j < k {
                assert(r[j] == y);
            } else {
                assert(j != k);
                assert(r[j - 1] == y);
            }
        }
    }
    assert(id_set(r) =~= id_set(s).remove(x));
    lemma_id_set_empty_len(r);
}

/// A plain copy of the identifier vector.
pub fn copy_ids(v: &Vec<i64>) -> (r: Vec<i64>)
    ensures
        r@ == v@,
{
    let mut r: Vec<i64> = Vec::new();
    let mut k: usize = 0;
    while k < v.len()
        invariant
            k <= v@.len(),
            r@ == v@.take(k as int),
        decreases v@.len() - k,
    {
        r.push(v[k]);
        proof {
            assert(v@.take(k as int).push(v@[k as int]) =~= v@.take(k as int + 1));
        }
        k += 1;
    }
    proof {
        assert(v@.take(v@.len() as int) =~= v@);
    }
    r
}

/// A sequence is empty exactly when the set of its identifiers is.
pub proof fn lemma_id_set_empty_len(s: Seq<i64>)
    ensures
        s.len() == 0 <==> id_set(s).is_empty(),
{
    if s.len() == 0 {
        assert forall|y: i64| !id_set(s).contains(y) by {}
        assert(id_set(s) =~= Set::empty());
    } else {
        assert(s.contains(s[0]));
        assert(id_set(s).contains(s[0]));
    }
}

} // verus!
