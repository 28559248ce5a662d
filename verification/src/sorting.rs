//! Ascending order of coordinates.

use vstd::prelude::*;
use vstd::relations::{sorted_by, total_ordering};
use vstd::seq_lib::lemma_sorted_unique;

verus! {

/// The order of coordinates, as a relation.
pub open spec fn leq() -> spec_fn(i16, i16) -> bool {
    |a: i16, b: i16| a <= b
}

/// Whether no coordinate is larger than one that follows it.
pub open spec fn ascending(s: Seq<i16>) -> bool {
    forall|i: int, j: int| 0 <= i < j < s.len() ==> s[i] <= s[j]
}

/// The coordinates of `s` in ascending order.
pub open spec fn arranged(s: Seq<i16>) -> Seq<i16> {
    s.sort_by(leq())
}

/// `arranged` keeps every coordinate, as often as it occurs, and puts them
/// in ascending order.
pub proof fn lemma_arranged(s: Seq<i16>)
    ensures
        ascending(arranged(s)),
        arranged(s).to_multiset() == s.to_multiset(),
        arranged(s).len() == s.len(),
{
    assert(total_ordering(leq()));
    s.lemma_sort_by_ensures(leq());
    let t = arranged(s);
    assert forall|i: int, j: int| 0 <= i < j < t.len() implies t[i] <= t[j] by {
        assert(leq()(t[i], t[j]));
    }
    s.to_multiset_ensures();
    t.to_multiset_ensures();
}

/// Every coordinate of the arrangement is one of the given coordinates.
pub proof fn lemma_arranged_member(s: Seq<i16>, t: int)
    requires
        0 <= t < arranged(s).len(),
    ensures
        exists|u: int| 0 <= u < s.len() && s[u] == arranged(s)[t],
{
    assert(total_ordering(leq()));
    s.lemma_sort_by_ensures(leq());
    let x = arranged(s)[t];
    assert(arranged(s).contains(x));
    assert(s.contains(x));
}

/// There is one ascending arrangement only.
pub proof fn lemma_arranged_unique(s: Seq<i16>, t: Seq<i16>)
    requires
        ascending(t),
        t.to_multiset() == s.to_multiset(),
    ensures
        t == arranged(s),
{
    lemma_arranged(s);
    let u = arranged(s);
    assert(total_ordering(leq()));
    assert(sorted_by(t, leq()));
    assert(sorted_by(u, leq())) by {
        assert forall|i: int, j: int| 0 <= i < j < u.len() implies #[trigger] leq()(
            u[i],
            u[j],
        ) by {
            assert(u[i] <= u[j]);
        }
    }
    lemma_sorted_unique(t, u, leq());
}

/// Sorts with `slice::sort_unstable`: afterwards the vector holds the same
/// coordinates, each as often as before, in ascending order.
#[verifier::external_body]
fn sort_unstable(v: &mut Vec<i16>)
    ensures
        ascending(final(v)@),
        final(v)@.to_multiset() == old(v)@.to_multiset(),
{
    v.sort_unstable();
}

/// Puts the coordinates in ascending order.
pub fn sort(v: &mut Vec<i16>)
    ensures
        final(v)@ == arranged(old(v)@),
{
    let ghost before = v@;
    sort_unstable(v);
    proof {
        lemma_arranged_unique(before, v@);
    }
}

} // verus!
