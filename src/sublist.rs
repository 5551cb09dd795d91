use vstd::prelude::*;
use vstd::std_specs::cmp::PartialEqSpec;

verus! {

/// How two lists relate.
#[derive(Debug, Copy, Clone, PartialEq, Eq, Structural)]
pub enum Comparison {
    /// The lists are equal.
    Equal,
    /// The first list is a contiguous part of the second.
    Sublist,
    /// The second list is a contiguous part of the first.
    Superlist,
    /// None of the above.
    Other,
}

/// `b` is found in `a` starting at position `i`.
pub open spec fn occurs_at<T: PartialEq>(a: Seq<T>, b: Seq<T>, i: int) -> bool {
    &&& 0 <= i
    &&& i + b.len() <= a.len()
    &&& forall|k: int| 0 <= k < b.len() ==> (#[trigger] a[i + k]).eq_spec(&b[k])
}

/// `b` is found somewhere in `a`.
pub open spec fn occurs_in<T: PartialEq>(a: Seq<T>, b: Seq<T>) -> bool {
    exists|i: int| occurs_at(a, b, i)
}

/// What `compare` reports for `a` and `b`.
pub open spec fn comparison_of<T: PartialEq>(a: Seq<T>, b: Seq<T>) -> Comparison {
    if a.len() == b.len() && occurs_at(a, b, 0) {
        Comparison::Equal
    } else if a.len() > b.len() && occurs_in(a, b) {
        Comparison::Superlist
    } else if a.len() < b.len() && occurs_in(b, a) {
        Comparison::Sublist
    } else {
        Comparison::Other
    }
}

fn matches_at<T: PartialEq>(a: &[T], b: &[T], i: usize) -> (r: bool)
    requires
        i + b.len() <= a.len(),
    ensures
        T::obeys_eq_spec() ==> r == occurs_at(a@, b@, i as int),
{
    let mut k: usize = 0;
    while k < b.len()
        invariant
            i + b.len() <= a.len(),
            k <= b.len(),
            T::obeys_eq_spec() ==> forall|j: int| 0 <= j < k ==> (#[trigger] a@[i + j]).eq_spec(&b@[j]),
        decreases b.len() - k,
    {
        if !(a[i + k] == b[k]) {
            assert(T::obeys_eq_spec() ==> !a@[i + k].eq_spec(&b@[k as int]));
            return false;
        }
        k += 1;
    }
    true
}

fn find<T: PartialEq>(a: &[T], b: &[T]) -> (r: bool)
    requires
        b.len() <= a.len(),
    ensures
        T::obeys_eq_spec() ==> r == occurs_in(a@, b@),
{
    if b.len() == 0 {
        assert(occurs_at(a@, b@, 0));
        return true;
    }
    let mut i: usize = 0;
    while i <= a.len() - b.len()
        invariant
            1 <= b.len() <= a.len(),
            i <= a.len(),
            T::obeys_eq_spec() ==> forall|j: int| 0 <= j < i ==> !occurs_at(a@, b@, j),
        decreases a.len() - i,
    {
        if matches_at(a, b, i) {
            return true;
        }
        i += 1;
    }
    proof {
        if T::obeys_eq_spec() {
            assert forall|j: int| !occurs_at(a@, b@, j) by {
                if 0 <= j < i {
                }
            }
        }
    }
    false
}

/// Tells whether `a` equals `b`, is a contiguous part of it, contains it, or none of these.
pub fn compare<T: PartialEq>(a: &[T], b: &[T]) -> (r: Comparison)
    ensures
        T::obeys_eq_spec() ==> r == comparison_of(a@, b@),
{
    if a.len() > b.len() {
        if find(a, b) {
            Comparison::Superlist
        } else {
            Comparison::Other
        }
    } else if a.len() == b.len() {
        if matches_at(a, b, 0) {
            Comparison::Equal
        } else {
            Comparison::Other
        }
    } else {
        if find(b, a) {
            Comparison::Sublist
        } else {
            Comparison::Other
        }
    }
}

} // verus!
