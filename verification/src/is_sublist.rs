//! Classification of two lists as equal, sublist, superlist or unrelated.

use vstd::prelude::*;

verus! {

use vstd::std_specs::cmp::PartialEqSpec;

/// How two lists relate: `a` equals `b`, `a` occurs contiguously inside
/// `b`, `b` occurs contiguously inside `a`, or none of these.
#[derive(Debug, Copy, Clone, PartialEq, Eq, Structural)]
pub enum Comparison {
    Equal,
    Sublist,
    Superlist,
    Other,
}

/// The elements of `a` match the elements of `b` starting at offset `i`,
/// under the type's equality.
pub open spec fn matches_at<T: PartialEq + PartialEqSpec>(a: Seq<T>, b: Seq<T>, i: int) -> bool {
    forall|q: int| 0 <= q < a.len() ==> (#[trigger] a[q]).eq_spec(&b[i + q])
}

/// The two sequences have the same length and equal elements.
pub open spec fn seqs_equal<T: PartialEq + PartialEqSpec>(a: Seq<T>, b: Seq<T>) -> bool {
    a.len() == b.len() && matches_at(a, b, 0)
}

/// `a` occurs as a contiguous run inside `b`.
pub open spec fn is_substring_of<T: PartialEq + PartialEqSpec>(a: Seq<T>, b: Seq<T>) -> bool {
    exists|i: int| 0 <= i && i + a.len() <= b.len() && matches_at(a, b, i)
}

/// The exact classification `compare` returns.
pub open spec fn spec_compare<T: PartialEq + PartialEqSpec>(a: Seq<T>, b: Seq<T>) -> Comparison {
    if seqs_equal(a, b) {
        Comparison::Equal
    } else if is_substring_of(a, b) {
        Comparison::Sublist
    } else if is_substring_of(b, a) {
        Comparison::Superlist
    } else {
        Comparison::Other
    }
}

/// Element-wise equality of two slices.
fn slices_equal<T: PartialEq + PartialEqSpec>(a: &[T], b: &[T]) -> (r: bool)
    requires
        T::obeys_eq_spec(),
    ensures
        r == seqs_equal(a@, b@),
{
    if a.len() != b.len() {
        return false;
    }
    let mut q: usize = 0;
    while q < a.len()
        invariant
            T::obeys_eq_spec(),
            a@.len() == b@.len(),
            q <= a@.len(),
            forall|q2: int| 0 <= q2 < q ==> (#[trigger] a@[q2]).eq_spec(&b@[q2]),
        decreases a@.len() - q,
    {
        if !(a[q] == b[q]) {
            return false;
        }
        q += 1;
    }
    true
}

/// Does `a` occur as a contiguous run inside `b`?  The search compares `a`
/// against every window of `b` directly, so it is quadratic in the worst
/// case; the exact contract below is what callers rely on.
fn is_sublist<T: PartialEq + PartialEqSpec>(a: &[T], b: &[T]) -> (r: bool)
    requires
        T::obeys_eq_spec(),
    ensures
        r == is_substring_of(a@, b@),
{
    if a.len() > b.len() {
        return false;
    }
    if a.len() == 0 {
        proof {
            assert(matches_at(a@, b@, 0));
        }
        return true;
    }
    let bound = b.len() - a.len();
    let mut i: usize = 0;
    while i <= bound
        invariant
            T::obeys_eq_spec(),
            a@.len() <= b@.len(),
            bound == b@.len() - a@.len(),
            1 <= a@.len(),
            b@.len() <= usize::MAX,
            i <= bound + 1,
            forall|i2: int| 0 <= i2 < i ==> !matches_at(a@, b@, i2),
        decreases bound + 1 - i,
    {
        let mut q: usize = 0;
        let mut all = true;
        while q < a.len()
            invariant
                T::obeys_eq_spec(),
                a@.len() <= b@.len(),
                b@.len() <= usize::MAX,
                i <= b@.len() - a@.len(),
                q <= a@.len(),
                all ==> forall|q2: int| 0 <= q2 < q ==> (#[trigger] a@[q2]).eq_spec(&b@[i + q2]),
                !all ==> !matches_at(a@, b@, i as int),
            decreases a@.len() - q,
        {
            if !(a[q] == b[i + q]) {
                proof {
                    assert(!((a@[q as int]).eq_spec(&b@[i + q])));
                }
                all = false;
            }
            q += 1;
        }
        if all {
            proof {
                assert(matches_at(a@, b@, i as int));
            }
            return true;
        }
        i += 1;
    }
    false
}

/// Classifies `a` against `b`: equal, a contiguous sublist of `b`, a
/// superlist of `b`, or neither.
pub fn compare<T: PartialEq + PartialEqSpec>(a: &[T], b: &[T]) -> (r: Comparison)
    requires
        T::obeys_eq_spec(),
    ensures
        r == spec_compare(a@, b@),
{
    if slices_equal(a, b) {
        Comparison::Equal
    } else if is_sublist(a, b) {
        Comparison::Sublist
    } else if is_sublist(b, a) {
        Comparison::Superlist
    } else {
        Comparison::Other
    }
}

} // verus!

