//! Sorting by a total preorder.

use vstd::multiset::*;
use vstd::prelude::*;

verus! {

/// Values that can be put in order.
pub trait Ordered: Sized {
    /// Whether `self` may stand before `other`.
    spec fn before(self, other: Self) -> bool;

    proof fn order_is_total(a: Self, b: Self)
        ensures
            a.before(b) || b.before(a),
    ;

    proof fn order_is_transitive(a: Self, b: Self, c: Self)
        requires
            a.before(b),
            b.before(c),
        ensures
            a.before(c),
    ;

    fn goes_before(&self, other: &Self) -> (r: bool)
        ensures
            r == self.before(*other),
    ;
}

/// Whether each value may stand before every later one.
pub open spec fn in_order<T: Ordered>(s: Seq<T>) -> bool {
    forall|i: int, j: int| 0 <= i < j < s.len() ==> (#[trigger] s[i]).before(#[trigger] s[j])
}

/// Sorts values, keeping each as often as it occurs.
pub fn sorted<T: Ordered>(v: Vec<T>) -> (r: Vec<T>)
    ensures
        in_order(r@),
        r@.to_multiset() == v@.to_multiset(),
        r@.len() == v@.len(),
    decreases v@.len(),
{
    let mut v = v;
    let ghost all = v@;
    let n: usize = v.len();
    if n <= 1 {
        return v;
    }
    let half: usize = n / 2;
    let tail: Vec<T> = v.split_off(half);
    assert(all =~= v@ + tail@);
    let ghost head = v@;
    let ghost rest = tail@;
    let a: Vec<T> = sorted(v);
    let b: Vec<T> = sorted(tail);
    proof {
        vstd::seq_lib::lemma_multiset_commutative(head, rest);
    }
    merged(a, b)
}

/// Merges two sorted runs into one. Of values that may stand either way, those
/// of the first run come first.
fn merged<T: Ordered>(a: Vec<T>, b: Vec<T>) -> (r: Vec<T>)
    requires
        in_order(a@),
        in_order(b@),
        a@.len() + b@.len() <= usize::MAX,
    ensures
        in_order(r@),
        r@.to_multiset() == a@.to_multiset().add(b@.to_multiset()),
        r@.len() == a@.len() + b@.len(),
{
    let mut a = a;
    let mut b = b;
    let ghost a0 = a@;
    let ghost b0 = b@;
    // Both runs are taken from the back, so the result grows back to front.
    let mut rev: Vec<T> = Vec::new();
    proof {
        assert(rev@.to_multiset() =~= Multiset::empty()) by {
            rev@.to_multiset_ensures();
        }
        assert(a@.to_multiset().add(b@.to_multiset()).add(rev@.to_multiset()) =~= a@.to_multiset().add(
            b@.to_multiset(),
        ));
    }
    while a.len() > 0 || b.len() > 0
        invariant
            in_order(a@),
            in_order(b@),
            a@.len() + b@.len() + rev@.len() == a0.len() + b0.len(),
            a0.len() + b0.len() <= usize::MAX,
            a@.to_multiset().add(b@.to_multiset()).add(rev@.to_multiset()) == a0.to_multiset().add(
                b0.to_multiset(),
            ),
            forall|i: int, j: int| 0 <= i < j < rev@.len() ==> (#[trigger] rev@[j]).before(#[trigger] rev@[i]),
            forall|i: int, j: int|
                0 <= i < a@.len() && 0 <= j < rev@.len() ==> (#[trigger] a@[i]).before(#[trigger] rev@[j]),
            forall|i: int, j: int|
                0 <= i < b@.len() && 0 <= j < rev@.len() ==> (#[trigger] b@[i]).before(#[trigger] rev@[j]),
        decreases a@.len() + b@.len(),
    {
        let ghost a1 = a@;
        let ghost b1 = b@;
        let ghost r1 = rev@;
        let from_b: bool = if b.len() == 0 {
            false
        } else if a.len() == 0 {
            true
        } else {
            a[a.len() - 1].goes_before(&b[b.len() - 1])
        };
        if from_b {
            if let Some(x) = b.pop() {
                rev.push(x);
                proof {
                    assert(b1 =~= b@.push(x));
                    b@.to_multiset_ensures();
                    r1.to_multiset_ensures();
                    assert(a@.to_multiset().add(b@.to_multiset()).add(rev@.to_multiset())
                        =~= a1.to_multiset().add(b1.to_multiset()).add(r1.to_multiset()));
                    assert forall|i: int| 0 <= i < a@.len() implies (#[trigger] a@[i]).before(x) by {
                        let last = a1[a1.len() - 1];
                        if i < a1.len() - 1 {
                            assert(a1[i].before(last));
                            T::order_is_transitive(a1[i], last, x);
                        }
                    }
                    assert forall|i: int| 0 <= i < b@.len() implies (#[trigger] b@[i]).before(x) by {
                        assert(b1[i].before(b1[b1.len() - 1]));
                    }
                }
            }
        } else {
            if let Some(x) = a.pop() {
                rev.push(x);
                proof {
                    assert(a1 =~= a@.push(x));
                    a@.to_multiset_ensures();
                    r1.to_multiset_ensures();
                    assert(a@.to_multiset().add(b@.to_multiset()).add(rev@.to_multiset())
                        =~= a1.to_multiset().add(b1.to_multiset()).add(r1.to_multiset()));
                    assert forall|i: int| 0 <= i < b@.len() implies (#[trigger] b@[i]).before(x) by {
                        let last = b1[b1.len() - 1];
                        T::order_is_total(x, last);
                        if i < b1.len() - 1 {
                            assert(b1[i].before(last));
                            T::order_is_transitive(b1[i], last, x);
                        }
                    }
                    assert forall|i: int| 0 <= i < a@.len() implies (#[trigger] a@[i]).before(x) by {
                        assert(a1[i].before(a1[a1.len() - 1]));
                    }
                }
            }
        }
    }
    let ghost back = rev@;
    let mut out: Vec<T> = Vec::new();
    proof {
        a@.to_multiset_ensures();
        b@.to_multiset_ensures();
        out@.to_multiset_ensures();
        assert(a@.to_multiset() =~= Multiset::empty());
        assert(b@.to_multiset() =~= Multiset::empty());
        assert(out@.to_multiset() =~= Multiset::empty());
        assert(back.to_multiset() =~= a0.to_multiset().add(b0.to_multiset()));
        assert(rev@.to_multiset().add(out@.to_multiset()) =~= back.to_multiset());
    }
    while rev.len() > 0
        invariant
            rev@.len() + out@.len() == back.len(),
            rev@ == back.take(rev@.len() as int),
            forall|i: int| 0 <= i < out@.len() ==> #[trigger] out@[i] == back[back.len() - 1 - i],
            rev@.to_multiset().add(out@.to_multiset()) == back.to_multiset(),
        decreases rev@.len(),
    {
        let ghost r1 = rev@;
        let ghost o1 = out@;
        if let Some(x) = rev.pop() {
            out.push(x);
            proof {
                assert(rev@ =~= back.take(rev@.len() as int));
                assert(r1 =~= rev@.push(x));
                rev@.to_multiset_ensures();
                o1.to_multiset_ensures();
                assert(rev@.to_multiset().add(out@.to_multiset()) =~= r1.to_multiset().add(
                    o1.to_multiset(),
                ));
            }
        }
    }
    proof {
        rev@.to_multiset_ensures();
        assert(rev@.to_multiset() =~= Multiset::empty());
        assert(out@.to_multiset() =~= back.to_multiset());
    }
    out
}

/// Sorted values are the same values, and as different as before.
pub proof fn lemma_same_members<T>(a: Seq<T>, b: Seq<T>)
    requires
        a.to_multiset() == b.to_multiset(),
    ensures
        forall|i: int| 0 <= i < b.len() ==> a.contains(#[trigger] b[i]),
        forall|i: int| 0 <= i < a.len() ==> b.contains(#[trigger] a[i]),
        a.no_duplicates() ==> b.no_duplicates(),
{
    broadcast use vstd::seq_lib::group_to_multiset_ensures;

    if a.no_duplicates() {
        a.lemma_multiset_has_no_duplicates();
        b.lemma_multiset_has_no_duplicates_conv();
    }
    assert forall|i: int| 0 <= i < b.len() implies a.contains(#[trigger] b[i]) by {
        assert(b.contains(b[i]));
        assert(b.to_multiset().contains(b[i]));
        assert(a.to_multiset().contains(b[i]));
    }
    assert forall|i: int| 0 <= i < a.len() implies b.contains(#[trigger] a[i]) by {
        assert(a.contains(a[i]));
        assert(a.to_multiset().contains(a[i]));
    }
}

} // verus!
