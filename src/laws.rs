//! Facts about the analysis as a whole, proved over its model.
use vstd::prelude::*;
use crate::facts::{
    AllFacts, Loan, Point, Region, base_requires, closed_requires, is_chain, point_set,
    subset_pairs,
};
use crate::location_insensitive::loans_by_point;

verus! {

/// Two results that both meet the contract of `compute` on the same facts
/// have the same points, and the same loans at each point.
pub proof fn lemma_result_determined(facts: AllFacts, m1: Map<Point, Vec<Loan>>, m2: Map<Point, Vec<Loan>>)
    requires
        loans_by_point(m1, facts.live_model()),
        loans_by_point(m2, facts.live_model()),
    ensures
        m1.dom() == m2.dom(),
        forall|p: Point| #[trigger] m1.contains_key(p) ==> m1[p]@.to_set() == m2[p]@.to_set(),
{
    assert(m1.dom() =~= m2.dom());
    assert forall|p: Point| #[trigger] m1.contains_key(p) implies m1[p]@.to_set() == m2[p]@.to_set() by {
        assert(m1[p]@.to_set() =~= m2[p]@.to_set());
    }
}

/// A chain of `subset` edges from a region that requires a loan leads to
/// regions that require it too.
pub proof fn lemma_requires_along_chain(
    base: Set<(Region, Loan)>,
    subset: Set<(Region, Region)>,
    b: Loan,
    chain: Seq<Region>,
)
    requires
        is_chain(subset, chain),
        closed_requires(base, subset).contains((chain[0], b)),
    ensures
        closed_requires(base, subset).contains((chain.last(), b)),
{
    let t = (chain[0], b);
    let path = choose|path: Seq<Region>| #[trigger] is_chain(subset, path) && base.contains((path[0], t.1)) && path.last() == t.0;
    let joined = path + chain.drop_first();
    assert(is_chain(subset, joined)) by {
        assert forall|i: int| 0 <= i < joined.len() - 1 implies #[trigger] subset.contains((joined[i], joined[i + 1])) by {
            if i < path.len() - 1 {
                assert(joined[i] == path[i] && joined[i + 1] == path[i + 1]);
            } else if i == path.len() - 1 {
                assert(joined[i] == chain[0] && joined[i + 1] == chain[1]);
                assert(subset.contains((chain[0], chain[0int + 1])));
            } else {
                let k = i - path.len() + 1;
                assert(joined[i] == chain[k] && joined[i + 1] == chain[k + 1]);
                assert(subset.contains((chain[k], chain[k + 1])));
            }
        }
    }
    assert(joined[0] == path[0]);
    assert(joined.last() == chain.last());
    let u = (chain.last(), b);
    assert(is_chain(subset, joined) && base.contains((joined[0], u.1)) && joined.last() == u.0);
}

proof fn lemma_closed_monotone(
    base1: Set<(Region, Loan)>,
    subset1: Set<(Region, Region)>,
    base2: Set<(Region, Loan)>,
    subset2: Set<(Region, Region)>,
)
    requires
        base1.subset_of(base2),
        subset1.subset_of(subset2),
    ensures
        closed_requires(base1, subset1).subset_of(closed_requires(base2, subset2)),
{
    assert forall|t: (Region, Loan)| #[trigger] closed_requires(base1, subset1).contains(t)
        implies closed_requires(base2, subset2).contains(t) by {
        let path = choose|path: Seq<Region>| #[trigger] is_chain(subset1, path) && base1.contains((path[0], t.1)) && path.last() == t.0;
        assert(is_chain(subset2, path)) by {
            assert forall|i: int| 0 <= i < path.len() - 1 implies #[trigger] subset2.contains((path[i], path[i + 1])) by {
                assert(subset1.contains((path[i], path[i + 1])));
            }
        }
    }
}

/// Adding tuples to any input relation never removes a live `(point, loan)`
/// pair from the result.
pub proof fn lemma_live_monotone(f1: AllFacts, f2: AllFacts)
    requires
        f1.cfg_edge@.to_set().subset_of(f2.cfg_edge@.to_set()),
        f1.universal_region@.to_set().subset_of(f2.universal_region@.to_set()),
        f1.outlives@.to_set().subset_of(f2.outlives@.to_set()),
        f1.borrow_region@.to_set().subset_of(f2.borrow_region@.to_set()),
        f1.region_live_at@.to_set().subset_of(f2.region_live_at@.to_set()),
    ensures
        f1.live_model().subset_of(f2.live_model()),
{
    assert(base_requires(f1.borrow_region@).subset_of(base_requires(f2.borrow_region@))) by {
        assert forall|t: (Region, Loan)| #[trigger] base_requires(f1.borrow_region@).contains(t)
            implies base_requires(f2.borrow_region@).contains(t) by {
            let i = choose|i: int| 0 <= i < f1.borrow_region@.len() && #[trigger] f1.borrow_region@[i].0 == t.0 && f1.borrow_region@[i].1 == t.1;
            assert(f1.borrow_region@.to_set().contains(f1.borrow_region@[i]));
            let j = f2.borrow_region@.index_of(f1.borrow_region@[i]);
            assert(f2.borrow_region@[j].0 == t.0);
        }
    }
    assert(subset_pairs(f1.outlives@).subset_of(subset_pairs(f2.outlives@))) by {
        assert forall|t: (Region, Region)| #[trigger] subset_pairs(f1.outlives@).contains(t)
            implies subset_pairs(f2.outlives@).contains(t) by {
            let i = choose|i: int| 0 <= i < f1.outlives@.len() && #[trigger] f1.outlives@[i].0 == t.0 && f1.outlives@[i].1 == t.1;
            assert(f1.outlives@.to_set().contains(f1.outlives@[i]));
            let j = f2.outlives@.index_of(f1.outlives@[i]);
            assert(f2.outlives@[j].0 == t.0);
        }
    }
    lemma_closed_monotone(
        base_requires(f1.borrow_region@),
        subset_pairs(f1.outlives@),
        base_requires(f2.borrow_region@),
        subset_pairs(f2.outlives@),
    );
    assert(point_set(f1.cfg_edge@).subset_of(point_set(f2.cfg_edge@))) by {
        assert forall|p: Point| #[trigger] point_set(f1.cfg_edge@).contains(p)
            implies point_set(f2.cfg_edge@).contains(p) by {
            let i = choose|i: int| 0 <= i < f1.cfg_edge@.len() && (#[trigger] f1.cfg_edge@[i].0 == p || f1.cfg_edge@[i].1 == p);
            assert(f1.cfg_edge@.to_set().contains(f1.cfg_edge@[i]));
            let j = f2.cfg_edge@.index_of(f1.cfg_edge@[i]);
            assert(f2.cfg_edge@[j].0 == p || f2.cfg_edge@[j].1 == p);
        }
    }
    assert(f1.region_live_model().subset_of(f2.region_live_model())) by {
        assert forall|t: (Region, Point)| #[trigger] f1.region_live_model().contains(t)
            implies f2.region_live_model().contains(t) by {
            if f1.region_live_at@.contains(t) {
                assert(f1.region_live_at@.to_set().contains(t));
            } else {
                assert(f1.universal_region@.to_set().contains(t.0));
                assert(f2.universal_region@.to_set().contains(t.0));
            }
        }
    }
    assert forall|t: (Point, Loan)| #[trigger] f1.live_model().contains(t) implies f2.live_model().contains(t) by {
        let r = choose|r: Region| #[trigger] f1.requires_model().contains((r, t.1)) && f1.region_live_model().contains((r, t.0));
        assert(f2.requires_model().contains((r, t.1)) && f2.region_live_model().contains((r, t.0)));
    }
}

} // verus!
