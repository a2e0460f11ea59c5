//! The order in which an ordered set hands out its values.
use std::cmp::Ordering;
use vstd::laws_cmp::*;
use vstd::laws_eq::*;
use vstd::prelude::*;
use vstd::std_specs::cmp::{OrdSpec, PartialEqSpec, PartialOrdSpec};

verus! {

/// Whether each value of `s` is less than those that follow it.
pub open spec fn increasing<T: Ord>(s: Seq<T>) -> bool {
    forall|i: int, j: int| 0 <= i < j < s.len() ==> s[i].cmp_spec(&s[j]) is Less
}

/// The first of an increasing sequence is less than every other value of
/// it.
pub proof fn lemma_first_is_least<T: Ord>(s: Seq<T>, k: int)
    requires
        increasing(s),
        0 < k < s.len(),
    ensures
        s[0].cmp_spec(&s[k]) is Less,
{
}

/// References are ordered as what they refer to.
pub proof fn lemma_ref_order<T: Ord>()
    requires
        obeys_cmp::<T>(),
    ensures
        obeys_cmp::<&T>(),
{
    reveal(obeys_eq_spec_properties);
    reveal(obeys_cmp_partial_ord);
    reveal(obeys_cmp_ord);
    reveal(obeys_partial_cmp_spec_properties);
}

/// A sequence of references that the set calls increasing refers to
/// increasing values.
pub proof fn lemma_increasing<T: Ord>(s: Seq<&T>)
    requires
        obeys_cmp::<T>(),
        vstd::std_specs::btree::increasing_seq(s),
    ensures
        increasing(s.unref()),
{
    broadcast use vstd::std_specs::btree::axiom_increasing_seq_meaning;
    lemma_ref_order::<T>();
    assert(obeys_cmp::<&T>());
    assert(vstd::std_specs::btree::increasing_seq::<&T>(s));
    assert(forall|i: int, j: int|
        0 <= i < j < s.len() ==> OrdSpec::cmp_spec(&s[i], &s[j]) is Less);
    assert forall|i: int, j: int| 0 <= i < j < s.unref().len() implies s.unref()[i].cmp_spec(
        &s.unref()[j],
    ) is Less by {
        assert(OrdSpec::cmp_spec(&s[i], &s[j]) is Less);
        assert(s.unref()[i] == *s[i]);
        assert(s.unref()[j] == *s[j]);
    }
}

} // verus!
