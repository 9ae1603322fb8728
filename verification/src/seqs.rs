//! Lemmas about sequences and the multisets of their elements.

use vstd::prelude::*;

verus! {

/// Mapping a function over a sequence keeps multiset containment.
pub proof fn lemma_map_values_multiset_le<A, B>(f: spec_fn(A) -> B, sub: Seq<A>, full: Seq<A>)
    requires
        sub.to_multiset().subset_of(full.to_multiset()),
    ensures
        sub.map_values(f).to_multiset().subset_of(full.map_values(f).to_multiset()),
    decreases sub.len(),
{
    broadcast use vstd::seq_lib::group_to_multiset_ensures;

    if sub.len() > 0 {
        let x = sub.last();
        let head = sub.drop_last();
        assert(head.push(x) =~= sub);
        assert(sub.to_multiset().count(x) > 0);
        assert(full.to_multiset().count(x) > 0);
        assert(full.contains(x));
        let j = choose|j: int| 0 <= j < full.len() && full[j] == x;
        let rest = full.remove(j);
        assert(head.to_multiset().subset_of(rest.to_multiset())) by {
            assert(full.to_multiset() == rest.to_multiset().insert(x));
            assert(sub.to_multiset() == head.to_multiset().insert(x));
            assert forall|y: A| #[trigger] head.to_multiset().count(y) <= rest.to_multiset().count(
                y,
            ) by {
                if y == x {
                    assert(sub.to_multiset().count(x) == head.to_multiset().count(x) + 1);
                    assert(full.to_multiset().count(x) == rest.to_multiset().count(x) + 1);
                } else {
                    assert(sub.to_multiset().count(y) == head.to_multiset().count(y));
                    assert(full.to_multiset().count(y) == rest.to_multiset().count(y));
                }
            }
        }
        lemma_map_values_multiset_le(f, head, rest);
        let vhead = head.map_values(f);
        let vrest = rest.map_values(f);
        let vsub = sub.map_values(f);
        let vfull = full.map_values(f);
        assert(vsub =~= vhead.push(f(x)));
        assert(vfull =~= vrest.insert(j, f(x)));
        assert(vsub.to_multiset() == vhead.to_multiset().insert(f(x)));
        assert(vfull.to_multiset() == vrest.to_multiset().insert(f(x)));
        assert forall|y: B| #[trigger] vsub.to_multiset().count(y) <= vfull.to_multiset().count(
            y,
        ) by {
            assert(vhead.to_multiset().count(y) <= vrest.to_multiset().count(y));
            if y == f(x) {
                assert(vsub.to_multiset().count(y) == vhead.to_multiset().count(y) + 1);
                assert(vfull.to_multiset().count(y) == vrest.to_multiset().count(y) + 1);
            } else {
                assert(vsub.to_multiset().count(y) == vhead.to_multiset().count(y));
                assert(vfull.to_multiset().count(y) == vrest.to_multiset().count(y));
            }
        }
    }
}

/// Mapping a function over a sequence keeps multiset equality.
pub proof fn lemma_map_values_multiset_eq<A, B>(f: spec_fn(A) -> B, s1: Seq<A>, s2: Seq<A>)
    requires
        s1.to_multiset() == s2.to_multiset(),
    ensures
        s1.map_values(f).to_multiset() == s2.map_values(f).to_multiset(),
{
    lemma_map_values_multiset_le(f, s1, s2);
    lemma_map_values_multiset_le(f, s2, s1);
    let m1 = s1.map_values(f).to_multiset();
    let m2 = s2.map_values(f).to_multiset();
    assert forall|y: B| #[trigger] m1.count(y) == m2.count(y) by {
        assert(m1.count(y) <= m2.count(y));
        assert(m2.count(y) <= m1.count(y));
    }
    assert(m1 =~= m2);
}

/// Every element of a sequence is an element of any sequence with the same
/// multiset of elements.
pub proof fn lemma_same_multiset_same_members<A>(s1: Seq<A>, s2: Seq<A>)
    requires
        s1.to_multiset() == s2.to_multiset(),
    ensures
        forall|x: A| s1.contains(x) <==> s2.contains(x),
        s1.len() == s2.len(),
{
    broadcast use vstd::seq_lib::group_to_multiset_ensures;

    vstd::seq_lib::to_multiset_len(s1);
    vstd::seq_lib::to_multiset_len(s2);
    assert forall|x: A| s1.contains(x) <==> s2.contains(x) by {
        assert(s1.contains(x) <==> s1.to_multiset().count(x) > 0);
        assert(s2.contains(x) <==> s2.to_multiset().count(x) > 0);
    }
}

} // verus!
