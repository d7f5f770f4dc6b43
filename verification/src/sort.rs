//! A verified merge sort for values with a strict order of precedence.

use vstd::multiset::Multiset;
use vstd::prelude::*;

verus! {

/// Values that are listed in an order: a strict weak order.
pub trait Ranked: Sized {
    /// `self` is listed strictly before `other`.
    spec fn precedes(&self, other: &Self) -> bool;

    /// No two values precede each other.
    proof fn asymmetric(a: &Self, b: &Self)
        requires
            a.precedes(b),
        ensures
            !b.precedes(a),
    ;

    /// "Does not come after" is transitive.
    proof fn transitive(a: &Self, b: &Self, c: &Self)
        requires
            !b.precedes(a),
            !c.precedes(b),
        ensures
            !c.precedes(a),
    ;

    /// Decides the order.
    fn comes_first(&self, other: &Self) -> (r: bool)
        ensures
            r == self.precedes(other),
    ;
}

/// No value stands after one that it precedes.
pub open spec fn in_order<A: Ranked>(s: Seq<A>) -> bool {
    forall|i: int, j: int| 0 <= i < j < s.len() ==> !(#[trigger] s[j]).precedes(#[trigger] &s[i])
}

/// The values of `low` may all stand before those of `high`.
spec fn all_below<A: Ranked>(low: Seq<A>, high: Seq<A>) -> bool {
    forall|i: int, j: int|
        0 <= i < low.len() && 0 <= j < high.len() ==> !(#[trigger] high[j]).precedes(
            #[trigger] &low[i],
        )
}

/// The values of a list are those without the last, and the last.
proof fn lemma_popped<A>(before: Seq<A>, after: Seq<A>, x: A)
    requires
        before =~= after.push(x),
    ensures
        before.to_multiset() =~= after.to_multiset().insert(x),
{
    after.to_multiset_ensures();
    assert(before == after.push(x));
}

/// Merges two ordered lists.
fn merge<A: Ranked>(mut a: Vec<A>, mut b: Vec<A>) -> (r: Vec<A>)
    requires
        in_order(a@),
        in_order(b@),
    ensures
        in_order(r@),
        r@.to_multiset() == a@.to_multiset().add(b@.to_multiset()),
{
    broadcast use vstd::seq_lib::group_to_multiset_ensures;

    let ghost total = a@.to_multiset().add(b@.to_multiset());
    // The merged tail, last value first.
    let mut tail: Vec<A> = Vec::new();
    assert(tail@.to_multiset() =~= Multiset::<A>::empty());
    while a.len() > 0 || b.len() > 0
        invariant
            in_order(a@),
            in_order(b@),
            in_order(tail@.reverse()),
            all_below(a@, tail@),
            all_below(b@, tail@),
            a@.to_multiset().add(b@.to_multiset()).add(tail@.to_multiset()) =~= total,
        decreases a@.len() + b@.len(),
    {
        let from_a = if a.len() == 0 {
            false
        } else if b.len() == 0 {
            true
        } else {
            b[b.len() - 1].comes_first(&a[a.len() - 1])
        };
        let ghost a0 = a@;
        let ghost b0 = b@;
        let ghost t0 = tail@;
        if from_a {
            let x = a.pop().unwrap();
            proof {
                lemma_popped(a0, a@, x);
                if b0.len() > 0 {
                    A::asymmetric(&b0.last(), &x);
                }
                assert forall|i: int| 0 <= i < b0.len() implies !x.precedes(#[trigger] &b0[i]) by {
                    if i < b0.len() - 1 {
                        A::transitive(&b0[i], &b0.last(), &x);
                    }
                }
            }
            tail.push(x);
        } else {
            let x = b.pop().unwrap();
            proof {
                lemma_popped(b0, b@, x);
                assert forall|i: int| 0 <= i < a0.len() implies !x.precedes(#[trigger] &a0[i]) by {
                    if i < a0.len() - 1 {
                        assert(!a0.last().precedes(&a0[i]));
                        A::transitive(&a0[i], &a0.last(), &x);
                    }
                }
            }
            tail.push(x);
        }
        proof {
            let x = tail@.last();
            lemma_popped(tail@, t0, x);
            assert(tail@.reverse() =~= seq![x] + t0.reverse());
            assert forall|i: int, j: int| 0 <= i < j < tail@.len() implies !(
            #[trigger] tail@.reverse()[j]).precedes(#[trigger] &tail@.reverse()[i]) by {
                if i == 0 {
                    assert(tail@.reverse()[j] == t0[t0.len() - j]);
                } else {
                    assert(tail@.reverse()[j] == t0.reverse()[j - 1]);
                    assert(tail@.reverse()[i] == t0.reverse()[i - 1]);
                }
            }
        }
    }
    let mut out: Vec<A> = Vec::new();
    let ghost merged = tail@.reverse();
    assert(out@.to_multiset() =~= Multiset::<A>::empty());
    assert(merged.take(0) =~= out@);
    while tail.len() > 0
        invariant
            out@ == merged.take(out@.len() as int),
            merged.len() == tail@.len() + out@.len(),
            tail@.reverse() == merged.skip(out@.len() as int),
            tail@.to_multiset().add(out@.to_multiset()) =~= total,
        decreases tail@.len(),
    {
        let ghost t0 = tail@;
        let ghost o0 = out@;
        let x = tail.pop().unwrap();
        proof {
            lemma_popped(t0, tail@, x);
            assert(t0.reverse()[0] == x);
            assert(merged.skip(o0.len() as int)[0] == merged[o0.len() as int]);
        }
        out.push(x);
        proof {
            lemma_popped(out@, o0, x);
            assert(out@ =~= merged.take(out@.len() as int));
            assert(tail@.reverse() =~= t0.reverse().skip(1));
            assert(tail@.reverse() =~= merged.skip(out@.len() as int));
        }
    }
    assert(out@ =~= merged);
    out
}

/// Sorts `v` by precedence.
pub fn sort<A: Ranked>(v: Vec<A>) -> (r: Vec<A>)
    ensures
        in_order(r@),
        r@.to_multiset() == v@.to_multiset(),
    decreases v@.len(),
{
    let n = v.len();
    if n <= 1 {
        return v;
    }
    let mut left = v;
    let ghost whole = left@;
    let right = left.split_off(n / 2);
    proof {
        assert(whole =~= left@ + right@);
        vstd::seq_lib::lemma_multiset_commutative(left@, right@);
    }
    merge(sort(left), sort(right))
}

/// Two lists with the same values, each listed as often, have the same length,
/// and each value of one is a value of the other.
pub proof fn lemma_same_values<A>(a: Seq<A>, b: Seq<A>)
    requires
        a.to_multiset() == b.to_multiset(),
    ensures
        a.len() == b.len(),
        forall|x: A| a.contains(x) <==> b.contains(x),
{
    a.to_multiset_ensures();
    b.to_multiset_ensures();
    assert forall|x: A| a.contains(x) <==> b.contains(x) by {
        assert(a.contains(x) <==> a.to_multiset().count(x) > 0);
        assert(b.contains(x) <==> b.to_multiset().count(x) > 0);
    }
}

} // verus!
