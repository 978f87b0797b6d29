//! Set operations on voter sets, written as loops over their members.

use std::collections::BTreeSet;
use vstd::prelude::*;
use vstd::std_specs::iter::IteratorSpec;

verus! {

/// The members of a voter set are finitely many.
pub proof fn lemma_voters_finite(s: &BTreeSet<usize>)
    ensures
        s@.finite(),
        s.len() == s@.len(),
{
    let members = s.iter().remaining();
    vstd::seq_lib::seq_to_set_is_finite(members.unref());
}

/// Adds every member of `source` to `target`.
pub fn absorb(target: &mut BTreeSet<usize>, source: &BTreeSet<usize>)
    ensures
        final(target)@ == old(target)@.union(source@),
{
    let ghost before = target@;
    let ghost members = source.iter().remaining();
    for voter in it: source.iter()
        invariant
            it.seq() == members,
            members.unref().to_set() == source@,
            before.subset_of(target@),
            target@.subset_of(before.union(source@)),
            forall|j: int| 0 <= j < it.index() ==> target@.contains(*#[trigger] members[j]),
    {
        proof {
            assert(members.unref()[it.index()] == *voter);
            assert(members.unref().contains(*voter));
        }
        target.insert(*voter);
    }
    proof {
        let plain = members.unref();
        assert forall|v: usize| source@.contains(v) implies target@.contains(v) by {
            assert(plain.contains(v));
            let j = choose|j: int| 0 <= j < plain.len() && plain[j] == v;
            assert(*members[j] == v);
        }
    }
}

/// The members of `known` that `held` lacks.
pub fn missing_from(known: &BTreeSet<usize>, held: &BTreeSet<usize>) -> (missing: BTreeSet<usize>)
    ensures
        missing@ == known@.difference(held@),
{
    let mut missing = BTreeSet::new();
    let ghost members = known.iter().remaining();
    for voter in it: known.iter()
        invariant
            it.seq() == members,
            members.unref().to_set() == known@,
            missing@.subset_of(known@.difference(held@)),
            forall|j: int|
                0 <= j < it.index() && !held@.contains(*#[trigger] members[j])
                    ==> missing@.contains(*members[j]),
    {
        proof {
            assert(members.unref()[it.index()] == *voter);
            assert(members.unref().contains(*voter));
        }
        if !held.contains(voter) {
            missing.insert(*voter);
        }
    }
    proof {
        let plain = members.unref();
        assert forall|v: usize| known@.difference(held@).contains(v) implies missing@.contains(
            v,
        ) by {
            assert(plain.contains(v));
            let j = choose|j: int| 0 <= j < plain.len() && plain[j] == v;
            assert(*members[j] == v);
        }
    }
    missing
}

} // verus!
