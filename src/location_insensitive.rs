//! The location-insensitive liveness pipeline: seeding, the `requires`
//! fixpoint, the liveness join and the point-keyed result.
use vstd::prelude::*;
use datafrog::Relation;
use std::collections::{HashMap, HashSet};
use crate::facts::{
    AllFacts, Point, Region, Loan, is_chain, chains_bounded, closed_requires, live_pairs, point_set, subset_pairs,
    base_requires, seeded_region_live,
};
use crate::output::Output;
use crate::relation::{
    relation_set, relation_tuples, relation_from_vec, relation_elements, relation_merge, relation_difference,
    join_swapped, swapped_join, well_formed, sorted_pairs, pair_lt,
};

verus! {

/// All pairs whose first component is in `a` and second in `b`.
pub open spec fn product(a: Set<u32>, b: Set<u32>) -> Set<(u32, u32)> {
    Set::new(|t: (u32, u32)| a.contains(t.0) && b.contains(t.1))
}

proof fn lemma_product_finite(a: Set<u32>, b: Set<u32>)
    requires
        a.finite(),
        b.finite(),
    ensures
        product(a, b).finite(),
    decreases a.len(),
{
    if a.len() == 0 {
        a.lemma_len0_is_empty();
        assert(product(a, b) =~= Set::empty());
    } else {
        let x = a.choose();
        lemma_product_finite(a.remove(x), b);
        let row = b.map(|v: u32| (x, v));
        b.lemma_map_finite(|v: u32| (x, v));
        assert forall|t: (u32, u32)| #[trigger] product(a, b).contains(t)
            implies product(a.remove(x), b).union(row).contains(t) by {
            if t.0 == x {
                assert(b.contains(t.1) && (|v: u32| (x, v))(t.1) == t);
            }
        }
        vstd::set_lib::lemma_set_subset_finite(product(a.remove(x), b).union(row), product(a, b));
    }
}

/// The regions and loans that a closed `requires` relation can mention.
pub open spec fn requires_universe(base: Set<(Region, Loan)>, subset: Set<(Region, Region)>) -> Set<(Region, Loan)> {
    product(base.map(|t: (Region, Loan)| t.0).union(subset.map(|t: (Region, Region)| t.1)), base.map(|t: (Region, Loan)| t.1))
}

proof fn lemma_universe_finite(base: Set<(Region, Loan)>, subset: Set<(Region, Region)>)
    requires
        base.finite(),
        subset.finite(),
    ensures
        requires_universe(base, subset).finite(),
        closed_requires(base, subset).subset_of(requires_universe(base, subset)),
{
    base.lemma_map_finite(|t: (Region, Loan)| t.0);
    base.lemma_map_finite(|t: (Region, Loan)| t.1);
    subset.lemma_map_finite(|t: (Region, Region)| t.1);
    lemma_product_finite(
        base.map(|t: (Region, Loan)| t.0).union(subset.map(|t: (Region, Region)| t.1)),
        base.map(|t: (Region, Loan)| t.1),
    );
    assert forall|t: (Region, Loan)| #[trigger] closed_requires(base, subset).contains(t)
        implies requires_universe(base, subset).contains(t) by {
        let path = choose|path: Seq<Region>| #[trigger] is_chain(subset, path) && base.contains((path[0], t.1)) && path.last() == t.0;
        assert(base.map(|t: (Region, Loan)| t.1).contains(t.1)) by {
            assert((|t: (Region, Loan)| t.1)((path[0], t.1)) == t.1);
        }
        if path.len() == 1 {
            assert((|t: (Region, Loan)| t.0)((path[0], t.1)) == t.0);
        } else {
            let i = path.len() - 2;
            assert(subset.contains((path[i], path[i + 1])));
            assert((|t: (Region, Region)| t.1)((path[i], path[i + 1])) == t.0);
        }
    }
}

/// One round of the propagation rule keeps `requires` inside its closure.
proof fn lemma_step_sound(base: Set<(Region, Loan)>, subset: Set<(Region, Region)>, req: Set<(Region, Loan)>)
    requires
        req.subset_of(closed_requires(base, subset)),
    ensures
        swapped_join(req, subset).subset_of(closed_requires(base, subset)),
{
    assert forall|t: (Region, Loan)| #[trigger] swapped_join(req, subset).contains(t)
        implies closed_requires(base, subset).contains(t) by {
        let k = choose|k: u32| #[trigger] req.contains((k, t.1)) && subset.contains((k, t.0));
        assert(closed_requires(base, subset).contains((k, t.1)));
        let path = choose|path: Seq<Region>| #[trigger] is_chain(subset, path) && base.contains((path[0], t.1)) && path.last() == k;
        let longer = path.push(t.0);
        assert(is_chain(subset, longer)) by {
            assert forall|i: int| 0 <= i < longer.len() - 1 implies #[trigger] subset.contains((longer[i], longer[i + 1])) by {
                if i < path.len() - 1 {
                    assert(longer[i] == path[i] && longer[i + 1] == path[i + 1]);
                }
            }
        }
        assert(longer[0] == path[0]);
    }
}

/// A relation that holds the base facts and is closed under the
/// propagation rule holds the whole closure.
proof fn lemma_closed_complete(base: Set<(Region, Loan)>, subset: Set<(Region, Region)>, req: Set<(Region, Loan)>)
    requires
        base.subset_of(req),
        swapped_join(req, subset).subset_of(req),
    ensures
        closed_requires(base, subset).subset_of(req),
{
    assert forall|t: (Region, Loan)| #[trigger] closed_requires(base, subset).contains(t) implies req.contains(t) by {
        let path = choose|path: Seq<Region>| #[trigger] is_chain(subset, path) && base.contains((path[0], t.1)) && path.last() == t.0;
        lemma_chain_end_in(base, subset, req, path, t.1);
    }
}

proof fn lemma_chain_end_in(
    base: Set<(Region, Loan)>,
    subset: Set<(Region, Region)>,
    req: Set<(Region, Loan)>,
    path: Seq<Region>,
    b: Loan,
)
    requires
        base.subset_of(req),
        swapped_join(req, subset).subset_of(req),
        is_chain(subset, path),
        base.contains((path[0], b)),
    ensures
        req.contains((path.last(), b)),
    decreases path.len(),
{
    if path.len() > 1 {
        let prefix = path.drop_last();
        assert(is_chain(subset, prefix)) by {
            assert forall|i: int| 0 <= i < prefix.len() - 1 implies #[trigger] subset.contains((prefix[i], prefix[i + 1])) by {
                assert(subset.contains((path[i], path[i + 1])));
            }
        }
        lemma_chain_end_in(base, subset, req, prefix, b);
        let i = path.len() - 2;
        assert(prefix.last() == path[i]);
        assert(subset.contains((path[i], path[i + 1])));
        assert(path.last() == path[i + 1]);
        assert(req.contains((path[i], b)) && subset.contains((path[i], path.last())));
        let t = (path.last(), b);
        assert(req.contains((path[i], t.1)) && subset.contains((path[i], t.0)));
        assert(swapped_join(req, subset).contains(t));
    }
}

proof fn lemma_join_union(a: Set<(Region, Loan)>, c: Set<(Region, Loan)>, subset: Set<(Region, Region)>)
    ensures
        swapped_join(a.union(c), subset) == swapped_join(a, subset).union(swapped_join(c, subset)),
{
    assert forall|t: (Region, Loan)| #[trigger] swapped_join(a.union(c), subset).contains(t)
        implies swapped_join(a, subset).union(swapped_join(c, subset)).contains(t) by {
        let k = choose|k: u32| #[trigger] a.union(c).contains((k, t.1)) && subset.contains((k, t.0));
        if a.contains((k, t.1)) {
            assert(swapped_join(a, subset).contains(t));
        } else {
            assert(swapped_join(c, subset).contains(t));
        }
    }
    assert forall|t: (Region, Loan)| #[trigger] swapped_join(a, subset).union(swapped_join(c, subset)).contains(t)
        implies swapped_join(a.union(c), subset).contains(t) by {
        if swapped_join(a, subset).contains(t) {
            let k = choose|k: u32| #[trigger] a.contains((k, t.1)) && subset.contains((k, t.0));
            assert(a.union(c).contains((k, t.1)));
        } else {
            let k = choose|k: u32| #[trigger] c.contains((k, t.1)) && subset.contains((k, t.0));
            assert(a.union(c).contains((k, t.1)));
        }
    }
    assert(swapped_join(a.union(c), subset) =~= swapped_join(a, subset).union(swapped_join(c, subset)));
}

proof fn lemma_sorted_no_duplicates(s: Seq<(u32, u32)>)
    requires
        sorted_pairs(s),
    ensures
        s.no_duplicates(),
{
    assert forall|i: int, j: int| 0 <= i < s.len() && 0 <= j < s.len() && i != j implies s[i] != s[j] by {
        if i < j {
            assert(pair_lt(s[i], s[j]));
        } else {
            assert(pair_lt(s[j], s[i]));
        }
    }
}

/// Closes `requires` under `subset` by semi-naive rounds. `stable` holds
/// the tuples already joined with `subset`, `recent` those found in the
/// previous round; each round joins only `recent` with `subset`
/// (every `(r1, b)` with `subset(r1, r2)` gives `(r2, b)`), moves `recent`
/// into `stable`, and keeps as the next `recent` what was not known yet.
/// It stops after the first round that finds nothing new. Returns the
/// closed relation and the number of rounds that were run: at most one more
/// than the number of edges of the longest `subset` chain.
pub fn close_requires(base: Relation<(Region, Loan)>, subset: &Relation<(Region, Region)>) -> (out: (Relation<(Region, Loan)>, usize))
    requires
        well_formed(base),
        well_formed(*subset),
    ensures
        relation_set(out.0) == closed_requires(relation_set(base), relation_set(*subset)),
        relation_tuples(out.0).no_duplicates(),
        well_formed(out.0),
        1 <= out.1 <= relation_set(out.0).len() - relation_set(base).len() + 1,
        relation_set(*subset).is_empty() ==> out.1 == 1,
        forall|n: nat| #[trigger] chains_bounded(relation_set(*subset), n) ==> out.1 <= n + 1,
{
    broadcast use vstd::seq_lib::seq_to_set_is_finite;
    let ghost b = relation_set(base);
    let ghost s = relation_set(*subset);
    let ghost universe = requires_universe(b, s);
    proof {
        lemma_universe_finite(b, s);
        assert forall|t: (Region, Loan)| #[trigger] b.contains(t) implies closed_requires(b, s).contains(t) by {
            assert(is_chain(s, seq![t.0]));
        }
    }
    let mut stable = relation_from_vec(Vec::new());
    let mut recent = base;
    let mut changed = true;
    let mut rounds: usize = 0;
    proof {
        assert(relation_set(stable) =~= Set::empty());
        assert(relation_set(stable).union(relation_set(recent)) =~= b);
        assert(swapped_join(Set::empty(), s) =~= Set::empty());
    }
    while changed
        invariant
            well_formed(stable),
            well_formed(recent),
            well_formed(*subset),
            s == relation_set(*subset),
            b.finite(),
            universe.finite(),
            closed_requires(b, s).subset_of(universe),
            b.subset_of(relation_set(stable).union(relation_set(recent))),
            relation_set(stable).union(relation_set(recent)).subset_of(closed_requires(b, s)),
            relation_set(stable).disjoint(relation_set(recent)),
            swapped_join(relation_set(stable), s).subset_of(relation_set(stable).union(relation_set(recent))),
            !changed ==> relation_set(recent).is_empty(),
            rounds <= relation_set(stable).union(relation_set(recent)).len() - b.len() + if changed { 0int } else { 1int },
            !changed ==> rounds >= 1,
            s.is_empty() ==> (changed && rounds == 0) || (!changed && rounds == 1),
            forall|t: (Region, Loan)| #[trigger] relation_set(recent).contains(t) ==> exists|path: Seq<Region>|
                #[trigger] is_chain(s, path) && b.contains((path[0], t.1)) && path.last() == t.0 && path.len() >= rounds + 1,
            (changed && rounds >= 1) ==> !relation_set(recent).is_empty(),
            forall|n: nat| #[trigger] chains_bounded(s, n) ==> rounds <= n + if changed { 0int } else { 1int },
        decreases 2 * (universe.len() - relation_set(stable).len()) + if changed { 1int } else { 0int },
    {
        let ghost st = relation_set(stable);
        let ghost rc = relation_set(recent);
        let candidates = join_swapped(&recent, subset);
        let merged = relation_merge(stable, recent);
        let fresh = relation_difference(&candidates, &merged);
        changed = relation_elements(&fresh).len() != 0;
        proof {
            let all = st.union(rc);
            let nw = relation_set(fresh);
            assert(relation_set(merged) == all);
            lemma_step_sound(b, s, rc);
            lemma_join_union(st, rc, s);
            assert(all.union(nw) =~= all.union(swapped_join(rc, s)));
            vstd::set_lib::lemma_len_subset(b, all);
            vstd::set_lib::lemma_len_subset(all, universe);
            vstd::set_lib::lemma_len_subset(st, all);
            if !changed {
                assert(nw =~= Set::empty());
                assert(all.union(nw) =~= all);
            } else {
                let t = relation_tuples(fresh)[0];
                assert(nw.contains(t));
                all.lemma_subset_not_in_lt(all.union(nw), t);
            }
            if !rc.is_empty() {
                let t = rc.choose();
                st.lemma_subset_not_in_lt(all, t);
            } else {
                assert(swapped_join(rc, s) =~= Set::empty());
                assert(nw =~= Set::empty());
            }
            if s.is_empty() {
                assert(swapped_join(rc, s) =~= Set::empty());
                assert(nw =~= Set::empty());
            }
        }
        let ghost old_rounds = rounds;
        if rounds < usize::MAX {
            rounds = rounds + 1;
        }
        proof {
            assert forall|t: (Region, Loan)| #[trigger] relation_set(fresh).contains(t) implies exists|path: Seq<Region>|
                #[trigger] is_chain(s, path) && b.contains((path[0], t.1)) && path.last() == t.0 && path.len() >= rounds + 1 by {
                assert(swapped_join(rc, s).contains(t));
                let k = choose|k: u32| #[trigger] rc.contains((k, t.1)) && s.contains((k, t.0));
                let path = choose|path: Seq<Region>| #[trigger] is_chain(s, path) && b.contains((path[0], t.1)) && path.last() == k && path.len() >= old_rounds + 1;
                let longer = path.push(t.0);
                assert(is_chain(s, longer)) by {
                    assert forall|i: int| 0 <= i < longer.len() - 1 implies #[trigger] s.contains((longer[i], longer[i + 1])) by {
                        if i < path.len() - 1 {
                            assert(longer[i] == path[i] && longer[i + 1] == path[i + 1]);
                        }
                    }
                }
                assert(longer[0] == path[0]);
            }
            assert forall|n: nat| #[trigger] chains_bounded(s, n) implies rounds <= n + if changed { 0int } else { 1int } by {
                if changed {
                    let t = relation_tuples(fresh)[0];
                    assert(relation_set(fresh).contains(t));
                    let path = choose|path: Seq<Region>| #[trigger] is_chain(s, path) && b.contains((path[0], t.1)) && path.last() == t.0 && path.len() >= rounds + 1;
                }
            }
        }
        stable = merged;
        recent = fresh;
    }
    proof {
        assert(relation_set(stable).union(relation_set(recent)) =~= relation_set(stable));
        lemma_closed_complete(b, s, relation_set(stable));
        lemma_sorted_no_duplicates(relation_tuples(stable));
    }
    (stable, rounds)
}

proof fn lemma_point_set_push(edges: Seq<(Point, Point)>, e: (Point, Point))
    ensures
        point_set(edges.push(e)) == point_set(edges).insert(e.0).insert(e.1),
{
    let longer = edges.push(e);
    assert forall|x: Point| point_set(longer).contains(x) implies point_set(edges).insert(e.0).insert(e.1).contains(x) by {
        let j = choose|j: int| 0 <= j < longer.len() && (#[trigger] longer[j].0 == x || longer[j].1 == x);
        if j < edges.len() {
            assert(edges[j] == longer[j]);
        }
    }
    assert forall|x: Point| point_set(edges).insert(e.0).insert(e.1).contains(x) implies point_set(longer).contains(x) by {
        if x == e.0 || x == e.1 {
            assert(longer[edges.len() as int] == e);
        } else {
            let j = choose|j: int| 0 <= j < edges.len() && (#[trigger] edges[j].0 == x || edges[j].1 == x);
            assert(edges[j] == longer[j]);
        }
    }
    assert(point_set(longer) =~= point_set(edges).insert(e.0).insert(e.1));
}

/// Adds `p` to `points` unless `seen` already holds it.
fn add_point(points: &mut Vec<Point>, seen: &mut HashSet<Point>, p: Point)
    requires
        old(seen)@ == old(points)@.to_set(),
        old(points)@.no_duplicates(),
    ensures
        final(seen)@ == final(points)@.to_set(),
        final(points)@.no_duplicates(),
        final(points)@.to_set() == old(points)@.to_set().insert(p),
{
    broadcast use vstd::std_specs::hash::group_hash_axioms;
    broadcast use vstd::seq_lib::group_seq_properties;
    if seen.insert(p) {
        points.push(p);
        assert(final(points)@.to_set() =~= old(points)@.to_set().insert(p));
    } else {
        assert(final(points)@.to_set() =~= old(points)@.to_set().insert(p));
    }
}

/// The points of the control-flow graph: both ends of every edge, each once.
pub fn all_points(cfg_edge: &Vec<(Point, Point)>) -> (points: Vec<Point>)
    ensures
        points@.to_set() == point_set(cfg_edge@),
        points@.no_duplicates(),
{
    broadcast use vstd::std_specs::hash::group_hash_axioms;
    let mut points: Vec<Point> = Vec::new();
    let mut seen: HashSet<Point> = HashSet::new();
    proof {
        assert(points@.to_set() =~= point_set(cfg_edge@.subrange(0, 0)));
    }
    let mut i: usize = 0;
    while i < cfg_edge.len()
        invariant
            i <= cfg_edge.len(),
            seen@ == points@.to_set(),
            points@.no_duplicates(),
            points@.to_set() == point_set(cfg_edge@.subrange(0, i as int)),
        decreases cfg_edge.len() - i,
    {
        let (p, q) = cfg_edge[i];
        let ghost done = points@.to_set();
        add_point(&mut points, &mut seen, p);
        add_point(&mut points, &mut seen, q);
        proof {
            lemma_point_set_push(cfg_edge@.subrange(0, i as int), (p, q));
            assert(cfg_edge@.subrange(0, i + 1) =~= cfg_edge@.subrange(0, i as int).push((p, q)));
        }
        i = i + 1;
    }
    assert(cfg_edge@.subrange(0, i as int) =~= cfg_edge@);
    points
}

/// Makes every universal region live at every point of the control-flow
/// graph, by adding those pairs to `region_live_at`.
pub fn seed_universal_regions(all_facts: &mut AllFacts)
    ensures
        final(all_facts).region_live_at@.to_set() == seeded_region_live(
            old(all_facts).region_live_at@,
            old(all_facts).universal_region@,
            old(all_facts).cfg_edge@,
        ),
        forall|r: Region, p: Point|
            old(all_facts).universal_region@.contains(r) && point_set(old(all_facts).cfg_edge@).contains(p)
                ==> final(all_facts).region_live_at@.contains((r, p)),
        final(all_facts).cfg_edge == old(all_facts).cfg_edge,
        final(all_facts).universal_region == old(all_facts).universal_region,
        final(all_facts).outlives == old(all_facts).outlives,
        final(all_facts).borrow_region == old(all_facts).borrow_region,
{
    let points = all_points(&all_facts.cfg_edge);
    let ghost start = all_facts.region_live_at@;
    let ghost universal = all_facts.universal_region@;
    let ghost pts = point_set(all_facts.cfg_edge@);
    let mut i: usize = 0;
    while i < all_facts.universal_region.len()
        invariant
            i <= all_facts.universal_region.len(),
            universal == all_facts.universal_region@,
            pts == points@.to_set(),
            all_facts.cfg_edge == old(all_facts).cfg_edge,
            all_facts.universal_region == old(all_facts).universal_region,
            all_facts.outlives == old(all_facts).outlives,
            all_facts.borrow_region == old(all_facts).borrow_region,
            start == old(all_facts).region_live_at@,
            pts == point_set(old(all_facts).cfg_edge@),
            all_facts.region_live_at@.to_set() == Set::new(|t: (Region, Point)| start.contains(t)
                || (exists|k: int| 0 <= k < i && #[trigger] universal[k] == t.0) && pts.contains(t.1)),
        decreases all_facts.universal_region.len() - i,
    {
        let r = all_facts.universal_region[i];
        let mut j: usize = 0;
        while j < points.len()
            invariant
                i < all_facts.universal_region.len(),
                j <= points.len(),
                r == universal[i as int],
                universal == all_facts.universal_region@,
                pts == points@.to_set(),
                all_facts.cfg_edge == old(all_facts).cfg_edge,
                all_facts.universal_region == old(all_facts).universal_region,
                all_facts.outlives == old(all_facts).outlives,
                all_facts.borrow_region == old(all_facts).borrow_region,
                start == old(all_facts).region_live_at@,
                pts == point_set(old(all_facts).cfg_edge@),
                all_facts.region_live_at@.to_set() == Set::new(|t: (Region, Point)| start.contains(t)
                    || (exists|k: int| 0 <= k < i && #[trigger] universal[k] == t.0) && pts.contains(t.1)
                    || t.0 == r && (exists|m: int| 0 <= m < j && #[trigger] points@[m] == t.1)),
            decreases points.len() - j,
        {
            let ghost before = all_facts.region_live_at@;
            all_facts.region_live_at.push((r, points[j]));
            proof {
                assert(all_facts.region_live_at@ == before.push((r, points@[j as int])));
                before.lemma_push_to_set_commute((r, points@[j as int]));
            }
            let ghost jj = j as int;
            j = j + 1;
            assert forall|t: (Region, Point)| #![auto] all_facts.region_live_at@.to_set().contains(t) == (start.contains(t)
                || (exists|k: int| 0 <= k < i && #[trigger] universal[k] == t.0) && pts.contains(t.1)
                || t.0 == r && (exists|m: int| 0 <= m < j && #[trigger] points@[m] == t.1)) by {
                if t == (r, points@[jj]) {
                    assert(points@[jj] == t.1);
                }
            }
            assert(all_facts.region_live_at@.to_set() =~= Set::new(|t: (Region, Point)| start.contains(t)
                || (exists|k: int| 0 <= k < i && #[trigger] universal[k] == t.0) && pts.contains(t.1)
                || t.0 == r && (exists|m: int| 0 <= m < j && #[trigger] points@[m] == t.1)));
        }
        i = i + 1;
        assert(all_facts.region_live_at@.to_set() =~= Set::new(|t: (Region, Point)| start.contains(t)
            || (exists|k: int| 0 <= k < i && #[trigger] universal[k] == t.0) && pts.contains(t.1))) by {
            assert forall|t: (Region, Point)| t.0 == r && pts.contains(t.1)
                implies (exists|m: int| 0 <= m < j && #[trigger] points@[m] == t.1) by {
                let m = points@.index_of(t.1);
            }
        }
    }
    proof {
        assert(all_facts.region_live_at@.to_set() =~= seeded_region_live(start, universal, old(all_facts).cfg_edge@)) by {
            broadcast use vstd::seq_lib::group_seq_properties;
            assert forall|t: (Region, Point)| universal.contains(t.0)
                implies (exists|k: int| 0 <= k < i && #[trigger] universal[k] == t.0) by {
                let k = universal.index_of(t.0);
            }
        }
        assert forall|r: Region, p: Point| universal.contains(r) && pts.contains(p)
            implies all_facts.region_live_at@.contains((r, p)) by {
            assert(seeded_region_live(start, universal, old(all_facts).cfg_edge@).contains((r, p)));
            assert(all_facts.region_live_at@.to_set().contains((r, p)));
        }
    }
}

/// `subset(r1, r2) :- outlives(r1, r2, _)`.
pub fn subset_relation(outlives: &Vec<(Region, Region, Point)>) -> (r: Relation<(Region, Region)>)
    ensures
        relation_set(r) == subset_pairs(outlives@),
        relation_tuples(r).no_duplicates(),
        well_formed(r),
{
    let mut pairs: Vec<(Region, Region)> = Vec::new();
    let mut i: usize = 0;
    while i < outlives.len()
        invariant
            i <= outlives.len(),
            pairs@.len() == i,
            forall|j: int| 0 <= j < i ==> #[trigger] pairs@[j] == (outlives@[j].0, outlives@[j].1),
        decreases outlives.len() - i,
    {
        pairs.push((outlives[i].0, outlives[i].1));
        i = i + 1;
    }
    let r = relation_from_vec(pairs);
    assert forall|t: (Region, Region)| pairs@.to_set().contains(t) == subset_pairs(outlives@).contains(t) by {
        if subset_pairs(outlives@).contains(t) {
            let j = choose|j: int| 0 <= j < outlives@.len() && #[trigger] outlives@[j].0 == t.0 && outlives@[j].1 == t.1;
            assert(pairs@[j] == t);
        }
        if pairs@.to_set().contains(t) {
            let j = pairs@.index_of(t);
            assert(outlives@[j].0 == t.0);
        }
    }
    assert(relation_set(r) =~= subset_pairs(outlives@));
    r
}

/// `requires(r, b) :- borrow_region(r, b, _)`.
pub fn base_requires_relation(borrow_region: &Vec<(Region, Loan, Point)>) -> (r: Relation<(Region, Loan)>)
    ensures
        relation_set(r) == base_requires(borrow_region@),
        relation_tuples(r).no_duplicates(),
        well_formed(r),
{
    let mut pairs: Vec<(Region, Loan)> = Vec::new();
    let mut i: usize = 0;
    while i < borrow_region.len()
        invariant
            i <= borrow_region.len(),
            pairs@.len() == i,
            forall|j: int| 0 <= j < i ==> #[trigger] pairs@[j] == (borrow_region@[j].0, borrow_region@[j].1),
        decreases borrow_region.len() - i,
    {
        pairs.push((borrow_region[i].0, borrow_region[i].1));
        i = i + 1;
    }
    let r = relation_from_vec(pairs);
    assert forall|t: (Region, Loan)| pairs@.to_set().contains(t) == base_requires(borrow_region@).contains(t) by {
        if base_requires(borrow_region@).contains(t) {
            let j = choose|j: int| 0 <= j < borrow_region@.len() && #[trigger] borrow_region@[j].0 == t.0 && borrow_region@[j].1 == t.1;
            assert(pairs@[j] == t);
        }
        if pairs@.to_set().contains(t) {
            let j = pairs@.index_of(t);
            assert(borrow_region@[j].0 == t.0);
        }
    }
    assert(relation_set(r) =~= base_requires(borrow_region@));
    r
}

/// `live(p, b) :- requires(r, b), region_live_at(r, p)`, keyed by point.
pub fn live_relation(req: &Relation<(Region, Loan)>, region_live_at: &Relation<(Region, Point)>) -> (r: Relation<(Point, Loan)>)
    requires
        well_formed(*req),
        well_formed(*region_live_at),
    ensures
        well_formed(r),
        relation_set(r) == live_pairs(relation_set(*req), relation_set(*region_live_at)),
        relation_tuples(r).no_duplicates(),
{
    let r = join_swapped(req, region_live_at);
    assert(relation_set(r) =~= live_pairs(relation_set(*req), relation_set(*region_live_at)));
    r
}

/// `m` maps each point at which some loan is live to those loans, each once,
/// and maps no other point.
pub open spec fn loans_by_point(m: Map<Point, Vec<Loan>>, live: Set<(Point, Loan)>) -> bool {
    &&& forall|p: Point| #[trigger] m.contains_key(p) <==> exists|b: Loan| live.contains((p, b))
    &&& forall|p: Point, b: Loan| m.contains_key(p) ==> (#[trigger] m[p]@.contains(b) <==> live.contains((p, b)))
    &&& forall|p: Point| #[trigger] m.contains_key(p) ==> m[p]@.no_duplicates()
}

/// Groups `(point, loan)` pairs by point.
pub fn group_by_point(pairs: &Vec<(Point, Loan)>) -> (m: HashMap<Point, Vec<Loan>>)
    requires
        pairs@.no_duplicates(),
    ensures
        loans_by_point(m@, pairs@.to_set()),
{
    broadcast use vstd::std_specs::hash::group_hash_axioms;
    let mut m: HashMap<Point, Vec<Loan>> = HashMap::new();
    let mut i: usize = 0;
    while i < pairs.len()
        invariant
            i <= pairs.len(),
            pairs@.no_duplicates(),
            loans_by_point(m@, pairs@.subrange(0, i as int).to_set()),
        decreases pairs.len() - i,
    {
        let ghost done = pairs@.subrange(0, i as int).to_set();
        let ghost before = m@;
        let (p, b) = pairs[i];
        let mut loans = match m.remove(&p) {
            Some(v) => v,
            None => Vec::new(),
        };
        let ghost old_loans = loans@;
        assert(!old_loans.contains(b)) by {
            if old_loans.contains(b) {
                assert(done.contains((p, b)));
                let j = pairs@.subrange(0, i as int).index_of((p, b));
                assert(pairs@[j] == pairs@[i as int]);
            }
        }
        assert(forall|x: Loan| old_loans.contains(x) <==> done.contains((p, x)));
        loans.push(b);
        m.insert(p, loans);
        assert(m@.dom() == before.dom().insert(p));
        assert(m@[p]@ == old_loans.push(b));
        assert(forall|q: Point| q != p && before.contains_key(q) ==> m@[q] == before[q]);
        i = i + 1;
        let ghost now = pairs@.subrange(0, i as int).to_set();
        assert(now =~= done.insert((p, b))) by {
            assert(pairs@.subrange(0, i as int) =~= pairs@.subrange(0, i - 1).push((p, b)));
            pairs@.subrange(0, i - 1).lemma_push_to_set_commute((p, b));
        }
        assert forall|q: Point| #[trigger] m@.contains_key(q) <==> exists|x: Loan| now.contains((q, x)) by {
            if q != p && m@.contains_key(q) {
                let x = choose|x: Loan| done.contains((q, x));
                assert(now.contains((q, x)));
            }
            if q != p && (exists|x: Loan| now.contains((q, x))) {
                let x = choose|x: Loan| now.contains((q, x));
                assert(done.contains((q, x)));
            }
            if q == p {
                assert(now.contains((p, b)));
            }
        }
        assert forall|q: Point, x: Loan| m@.contains_key(q) implies (#[trigger] m@[q]@.contains(x) <==> now.contains((q, x))) by {
            if q == p {
                vstd::seq_lib::lemma_seq_contains_after_push(old_loans, b, x);
                assert(m@[q]@.contains(x) <==> (x == b || old_loans.contains(x)));
                assert(now.contains((q, x)) <==> ((q, x) == (p, b) || done.contains((q, x))));
            } else {
                assert(m@[q] == before[q]);
                assert(before.contains_key(q));
                assert(before[q]@.contains(x) <==> done.contains((q, x)));
            }
        }
        assert forall|q: Point| #[trigger] m@.contains_key(q) implies m@[q]@.no_duplicates() by {
            if q == p {
                assert(m@[q]@ == old_loans.push(b));
                if !before.contains_key(p) {
                    assert(old_loans.len() == 0);
                }
            }
        }
    }
    assert(pairs@.subrange(0, pairs@.len() as int) =~= pairs@);
    m
}

/// Runs the analysis on `all_facts`: seeds the universal regions, closes
/// `requires` under `subset`, joins it with `region_live_at`, and groups
/// the live loans by point.
pub fn compute(dump_enabled: bool, all_facts: AllFacts) -> (result: Output)
    ensures
        result.dump_enabled == dump_enabled,
        loans_by_point(result.borrow_live_at@, all_facts.live_model()),
{
    let mut all_facts = all_facts;
    seed_universal_regions(&mut all_facts);
    let subset = subset_relation(&all_facts.outlives);
    let base = base_requires_relation(&all_facts.borrow_region);
    let region_live_at = relation_from_vec(all_facts.region_live_at);
    let (req, _rounds) = close_requires(base, &subset);
    let borrow_live_at = live_relation(&req, &region_live_at);
    let mut result = Output::new(dump_enabled);
    result.borrow_live_at = group_by_point(relation_elements(&borrow_live_at));
    result
}

} // verus!
