use vstd::prelude::*;
use vstd::arithmetic::power2::{pow2, lemma_pow2_unfold};
use vstd::set_lib::{lemma_map_size_bound, lemma_len_subset, lemma_set_disjoint_lens};

verus! {

/// A family of distinct subsets of a finite set `u` is finite and has at most `2^|u|` members.
pub proof fn lemma_subsets_bound<A>(f: Set<Set<A>>, u: Set<A>)
    requires
        u.finite(),
        forall|s: Set<A>| #[trigger] f.contains(s) ==> s <= u,
    ensures
        f.finite(),
        f.len() <= pow2(u.len()),
    decreases u.len(),
{
    if u.len() == 0 {
        assert(u =~= Set::<A>::empty());
        let e = Set::<A>::empty();
        assert(f <= set![e]) by {
            assert forall|s: Set<A>| #[trigger] f.contains(s) implies set![e].contains(s) by {
                assert(s =~= e);
            }
        }
        lemma_len_subset(f, set![e]);
        assert(pow2(0) == 1) by {
            vstd::arithmetic::power2::lemma2_to64();
        }
    } else {
        let x = u.choose();
        let u2 = u.remove(x);
        let f0 = f.filter(|s: Set<A>| !s.contains(x));
        let f1 = f.filter(|s: Set<A>| s.contains(x));
        lemma_subsets_bound(f0, u2);
        let rm = |s: Set<A>| s.remove(x);
        let g1 = f1.map(rm);
        assert forall|s: Set<A>| #[trigger] g1.contains(s) implies s <= u2 by {
            let t = choose|t: Set<A>| f1.contains(t) && rm(t) == s;
        }
        lemma_subsets_bound(g1, u2);
        // f1 is the image of g1 under insertion of x
        let ins = |s: Set<A>| s.insert(x);
        assert(f1 =~= g1.map(ins)) by {
            assert forall|s: Set<A>| f1.contains(s) implies #[trigger] g1.map(ins).contains(s) by {
                assert(g1.contains(rm(s)));
                assert(ins(rm(s)) =~= s);
            }
            assert forall|s: Set<A>| #[trigger] g1.map(ins).contains(s) implies f1.contains(s) by {
                let t = choose|t: Set<A>| g1.contains(t) && ins(t) == s;
                let w = choose|w: Set<A>| f1.contains(w) && rm(w) == t;
                assert(ins(rm(w)) =~= w);
            }
        }
        g1.lemma_map_finite(ins);
        lemma_map_size_bound(g1, g1.map(ins), ins);
        assert(f =~= f0 + f1);
        assert(f0.disjoint(f1));
        lemma_set_disjoint_lens(f0, f1);
        lemma_pow2_unfold(u.len());
    }
}

} // verus!
