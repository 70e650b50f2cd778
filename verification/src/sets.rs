//! Finite sets of atomic states kept as vectors of `u32`.
//!
//! Automaton state sets are held in vectors; a canonical set is a strictly
//! ascending vector, so two canonical vectors hold the same set exactly when
//! they are equal. This module gives the executable set operations and the
//! lemmas about canonical vectors that the automata need, together with the
//! finiteness of the family of subsets of a finite set (which bounds the
//! subset construction).

use vstd::prelude::*;
use vstd::set_lib::lemma_len_subset;

verus! {

/// A canonical state-set vector: strictly ascending, hence duplicate-free.
pub open spec fn strictly_sorted(s: Seq<u32>) -> bool {
    forall|i: int, j: int| 0 <= i < j < s.len() ==> s[i] < s[j]
}

/// The two state sets share at least one state.
pub open spec fn sets_intersect(a: Seq<u32>, b: Seq<u32>) -> bool {
    exists|x: u32| a.contains(x) && b.contains(x)
}

/// Every subset of `u`.
pub open spec fn powerset(u: Set<u32>) -> Set<Set<u32>> {
    Set::new(|s: Set<u32>| s.subset_of(u))
}

/// A fresh vector with the same elements, made without calling `clone` on
/// them; used where a structure is duplicated and its view must be kept.
pub fn copy_vec<T: Copy>(v: &Vec<T>) -> (r: Vec<T>)
    ensures
        r@ == v@,
{
    let mut r: Vec<T> = Vec::new();
    let mut i: usize = 0;
    while i < v.len()
        invariant
            i <= v.len(),
            r@ == v@.take(i as int),
        decreases v.len() - i,
    {
        r.push(v[i]);
        proof {
            assert(r@ =~= v@.take(i + 1));
        }
        i += 1;
    }
    proof {
        assert(v@.take(v@.len() as int) =~= v@);
    }
    r
}

pub fn vec_contains(v: &Vec<u32>, x: u32) -> (r: bool)
    ensures
        r == v@.contains(x),
{
    let mut i: usize = 0;
    while i < v.len()
        invariant
            i <= v.len(),
            forall|j: int| 0 <= j < i ==> v@[j] != x,
        decreases v.len() - i,
    {
        if v[i] == x {
            return true;
        }
        i += 1;
    }
    false
}

pub fn char_vec_contains(v: &Vec<char>, x: char) -> (r: bool)
    ensures
        r == v@.contains(x),
{
    let mut i: usize = 0;
    while i < v.len()
        invariant
            i <= v.len(),
            forall|j: int| 0 <= j < i ==> v@[j] != x,
        decreases v.len() - i,
    {
        if v[i] == x {
            return true;
        }
        i += 1;
    }
    false
}

pub fn vec_u32_eq(a: &Vec<u32>, b: &Vec<u32>) -> (r: bool)
    ensures
        r == (a@ == b@),
{
    if a.len() != b.len() {
        proof {
            assert(a@.len() != b@.len());
        }
        return false;
    }
    let mut i: usize = 0;
    while i < a.len()
        invariant
            i <= a.len(),
            a.len() == b.len(),
            forall|j: int| 0 <= j < i ==> a@[j] == b@[j],
        decreases a.len() - i,
    {
        if a[i] != b[i] {
            return false;
        }
        i += 1;
    }
    proof {
        assert(a@ =~= b@);
    }
    true
}

/// Insert `x` into a canonical vector, keeping it canonical.
pub fn sorted_insert(v: &mut Vec<u32>, x: u32)
    requires
        strictly_sorted(old(v)@),
    ensures
        strictly_sorted(final(v)@),
        final(v)@.to_set() == old(v)@.to_set().insert(x),
{
    let mut i: usize = 0;
    while i < v.len() && v[i] < x
        invariant
            i <= v.len(),
            strictly_sorted(v@),
            v == old(v),
            forall|j: int| 0 <= j < i ==> v@[j] < x,
        decreases v.len() - i,
    {
        i += 1;
    }
    if i < v.len() && v[i] == x {
        proof {
            assert(v@.contains(x));
            assert(v@.to_set() =~= old(v)@.to_set().insert(x));
        }
        return;
    }
    let ghost oldv = v@;
    v.insert(i, x);
    proof {
        assert(forall|j: int| 0 <= j < i ==> v@[j] == oldv[j]);
        assert(forall|j: int| i < j < v@.len() ==> v@[j] == oldv[j - 1]);
        assert(v@[i as int] == x);
        // below the insertion point everything is smaller, above it larger
        assert forall|j: int| i < j < v@.len() implies x < v@[j] by {
            assert(v@[j] == oldv[j - 1]);
            assert(x < oldv[i as int]);
            if j - 1 > i {
                assert(oldv[i as int] < oldv[j - 1]);
            }
        }
        assert(strictly_sorted(v@));
        assert forall|y: u32| v@.contains(y) implies oldv.to_set().insert(x).contains(y) by {
            let k = choose|k: int| 0 <= k < v@.len() && v@[k] == y;
            if k < i {
                assert(oldv[k] == y);
            } else if k > i {
                assert(oldv[k - 1] == y);
            }
        }
        assert forall|y: u32| oldv.to_set().insert(x).contains(y) implies v@.contains(y) by {
            if y == x {
                assert(v@[i as int] == y);
            } else {
                let k = choose|k: int| 0 <= k < oldv.len() && oldv[k] == y;
                if k < i {
                    assert(v@[k] == y);
                } else {
                    assert(v@[k + 1] == y);
                }
            }
        }
        assert(v@.to_set() =~= oldv.to_set().insert(x));
    }
}

/// The canonical vector holding the same set as `v`.
pub fn canonicalize(v: &Vec<u32>) -> (r: Vec<u32>)
    ensures
        strictly_sorted(r@),
        r@.to_set() == v@.to_set(),
{
    let mut r: Vec<u32> = Vec::new();
    let mut i: usize = 0;
    proof {
        assert(r@.to_set() =~= v@.take(0).to_set());
    }
    while i < v.len()
        invariant
            i <= v.len(),
            strictly_sorted(r@),
            r@.to_set() == v@.take(i as int).to_set(),
        decreases v.len() - i,
    {
        let ghost before = r@;
        sorted_insert(&mut r, v[i]);
        proof {
            assert(v@.take(i + 1).drop_last() =~= v@.take(i as int));
            assert(v@.take(i + 1).last() == v@[i as int]);
            assert forall|y: u32| r@.to_set().contains(y)
                implies v@.take(i + 1).to_set().contains(y) by {
                if y == v@[i as int] {
                    assert(v@.take(i + 1)[i as int] == y);
                } else {
                    assert(v@.take(i as int).contains(y));
                    let k = choose|k: int| 0 <= k < i && v@.take(i as int)[k] == y;
                    assert(v@.take(i + 1)[k] == y);
                }
            }
            assert forall|y: u32| v@.take(i + 1).to_set().contains(y)
                implies r@.to_set().contains(y) by {
                let k = choose|k: int| 0 <= k < i + 1 && #[trigger] v@.take(i + 1)[k] == y;
                if k < i {
                    assert(v@.take(i as int)[k] == y);
                }
            }
            assert(r@.to_set() =~= v@.take(i + 1).to_set());
        }
        i += 1;
    }
    proof {
        assert(v@.take(v@.len() as int) =~= v@);
    }
    r
}

/// Whether every element of `a` is an element of `b`.
pub fn vec_subset(a: &Vec<u32>, b: &Vec<u32>) -> (r: bool)
    ensures
        r == a@.to_set().subset_of(b@.to_set()),
{
    let mut i: usize = 0;
    while i < a.len()
        invariant
            i <= a.len(),
            forall|j: int| 0 <= j < i ==> b@.contains(a@[j]),
        decreases a.len() - i,
    {
        if !vec_contains(b, a[i]) {
            proof {
                assert(a@.to_set().contains(a@[i as int]));
            }
            return false;
        }
        i += 1;
    }
    proof {
        assert forall|x: u32| a@.to_set().contains(x) implies b@.to_set().contains(x) by {
            let k = choose|k: int| 0 <= k < a@.len() && a@[k] == x;
            assert(b@.contains(a@[k]));
        }
    }
    true
}

/// Whether the two vectors share an element.
pub fn vec_intersects(a: &Vec<u32>, b: &Vec<u32>) -> (r: bool)
    ensures
        r == sets_intersect(a@, b@),
{
    let mut i: usize = 0;
    while i < a.len()
        invariant
            i <= a.len(),
            forall|j: int| 0 <= j < i ==> !b@.contains(a@[j]),
        decreases a.len() - i,
    {
        if vec_contains(b, a[i]) {
            return true;
        }
        i += 1;
    }
    proof {
        assert forall|x: u32| !(a@.contains(x) && b@.contains(x)) by {
            if a@.contains(x) {
                let k = choose|k: int| 0 <= k < a@.len() && a@[k] == x;
                assert(!b@.contains(a@[k]));
            }
        }
    }
    false
}

/// Two canonical vectors with the same set of elements are the same vector.
pub proof fn lemma_canonical_unique(a: Seq<u32>, b: Seq<u32>)
    requires
        strictly_sorted(a),
        strictly_sorted(b),
        a.to_set() == b.to_set(),
    ensures
        a == b,
    decreases a.len(),
{
    if a.len() == 0 {
        if b.len() > 0 {
            assert(b.to_set().contains(b[0]));
            assert(a.contains(b[0]));
        }
        assert(a =~= b);
    } else {
        assert(a.to_set().contains(a[0]));
        assert(b.to_set().contains(a[0]));
        assert(b.to_set().contains(b[0]));
        assert(a.to_set().contains(b[0]));
        let ka = choose|k: int| 0 <= k < a.len() && a[k] == b[0];
        let kb = choose|k: int| 0 <= k < b.len() && b[k] == a[0];
        // each head is the least element, so the heads agree
        assert(a[0] <= a[ka]);
        assert(b[0] <= b[kb]);
        assert(a[0] == b[0]);
        let at = a.drop_first();
        let bt = b.drop_first();
        assert(strictly_sorted(at)) by {
            assert(forall|i: int, j: int|
                0 <= i < j < at.len() ==> at[i] == a[i + 1] && at[j] == a[j + 1]);
        }
        assert(strictly_sorted(bt)) by {
            assert(forall|i: int, j: int|
                0 <= i < j < bt.len() ==> bt[i] == b[i + 1] && bt[j] == b[j + 1]);
        }
        lemma_tail_set(a);
        lemma_tail_set(b);
        lemma_canonical_unique(at, bt);
        assert(a =~= seq![a[0]] + at);
        assert(b =~= seq![b[0]] + bt);
    }
}

/// For a canonical vector the tail holds the set without the head.
proof fn lemma_tail_set(a: Seq<u32>)
    requires
        strictly_sorted(a),
        a.len() > 0,
    ensures
        a.drop_first().to_set() == a.to_set().remove(a[0]),
{
    let at = a.drop_first();
    assert forall|y: u32| at.to_set().contains(y) implies a.to_set().remove(a[0]).contains(y) by {
        let k = choose|k: int| 0 <= k < at.len() && at[k] == y;
        assert(a[k + 1] == y);
        assert(a[0] < a[k + 1]);
    }
    assert forall|y: u32| a.to_set().remove(a[0]).contains(y) implies at.to_set().contains(y) by {
        let k = choose|k: int| 0 <= k < a.len() && a[k] == y;
        assert(k != 0);
        assert(at[k - 1] == y);
    }
    assert(at.to_set() =~= a.to_set().remove(a[0]));
}

/// The family of subsets of a finite set is finite.
pub proof fn lemma_powerset_finite(u: Set<u32>)
    requires
        u.finite(),
    ensures
        powerset(u).finite(),
    decreases u.len(),
{
    if u.len() == 0 {
        assert(u =~= Set::empty());
        assert forall|s: Set<u32>| powerset(u).contains(s) implies s =~= Set::empty() by {
            assert(s.subset_of(u));
        }
        assert(powerset(u) =~= Set::empty().insert(Set::<u32>::empty()));
    } else {
        let x = u.choose();
        assert(u.contains(x));
        let u0 = u.remove(x);
        lemma_powerset_finite(u0);
        let with_x = powerset(u0).map(|s: Set<u32>| s.insert(x));
        powerset(u0).lemma_map_finite(|s: Set<u32>| s.insert(x));
        assert forall|s: Set<u32>| powerset(u).contains(s)
            implies powerset(u0).union(with_x).contains(s) by {
            if s.contains(x) {
                let s0 = s.remove(x);
                assert(s0.subset_of(u0));
                assert(powerset(u0).contains(s0));
                assert(s0.insert(x) =~= s);
                assert(with_x.contains(s0.insert(x)));
            } else {
                assert(s.subset_of(u0));
            }
        }
        lemma_len_subset(powerset(u), powerset(u0).union(with_x));
    }
}

} // verus!
