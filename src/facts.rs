use vstd::prelude::*;

verus! {

/// A location in the control-flow graph.
pub type Point = u32;

/// A lifetime (region) variable.
pub type Region = u32;

/// One borrow expression.
pub type Loan = u32;

/// The input relations of the analysis.
pub struct AllFacts {
    /// `(p, q)`: control flows from `p` to `q`.
    pub cfg_edge: Vec<(Point, Point)>,
    /// Regions live at every point.
    pub universal_region: Vec<Region>,
    /// `(r1, r2, p)`: `r1` outlives `r2`, asserted at `p`.
    pub outlives: Vec<(Region, Region, Point)>,
    /// `(r, b, p)`: loan `b` was taken into region `r` at `p`.
    pub borrow_region: Vec<(Region, Loan, Point)>,
    /// `(r, p)`: region `r` is live at `p`.
    pub region_live_at: Vec<(Region, Point)>,
}

/// Every point named by a control-flow edge, at either end.
pub open spec fn point_set(cfg_edge: Seq<(Point, Point)>) -> Set<Point> {
    Set::new(|p: Point| exists|i: int| 0 <= i < cfg_edge.len() && (#[trigger] cfg_edge[i].0 == p || cfg_edge[i].1 == p))
}

/// `subset(r1, r2)`: `outlives` with its point dropped.
pub open spec fn subset_pairs(outlives: Seq<(Region, Region, Point)>) -> Set<(Region, Region)> {
    Set::new(|t: (Region, Region)| exists|i: int| 0 <= i < outlives.len() && #[trigger] outlives[i].0 == t.0 && outlives[i].1 == t.1)
}

/// `requires(r, b)` before closure: `borrow_region` with its point dropped.
pub open spec fn base_requires(borrow_region: Seq<(Region, Loan, Point)>) -> Set<(Region, Loan)> {
    Set::new(|t: (Region, Loan)| exists|i: int| 0 <= i < borrow_region.len() && #[trigger] borrow_region[i].0 == t.0 && borrow_region[i].1 == t.1)
}

/// `region_live_at` after every universal region is made live at every point.
pub open spec fn seeded_region_live(
    region_live_at: Seq<(Region, Point)>,
    universal_region: Seq<Region>,
    cfg_edge: Seq<(Point, Point)>,
) -> Set<(Region, Point)> {
    Set::new(|t: (Region, Point)| region_live_at.contains(t)
        || (universal_region.contains(t.0) && point_set(cfg_edge).contains(t.1)))
}

/// `path` is a non-empty chain of regions, each step a `subset` edge.
pub open spec fn is_chain(subset: Set<(Region, Region)>, path: Seq<Region>) -> bool {
    &&& path.len() >= 1
    &&& forall|i: int| 0 <= i < path.len() - 1 ==> #[trigger] subset.contains((path[i], path[i + 1]))
}

/// No chain of `subset` edges has more than `n` edges.
pub open spec fn chains_bounded(subset: Set<(Region, Region)>, n: nat) -> bool {
    forall|path: Seq<Region>| #[trigger] is_chain(subset, path) ==> path.len() <= n + 1
}

/// The closed `requires` relation: `(r, b)` holds when a chain of `subset`
/// edges leads to `r` from a region into which `b` was borrowed.
pub open spec fn closed_requires(base: Set<(Region, Loan)>, subset: Set<(Region, Region)>) -> Set<(Region, Loan)> {
    Set::new(|t: (Region, Loan)| exists|path: Seq<Region>|
        #[trigger] is_chain(subset, path) && base.contains((path[0], t.1)) && path.last() == t.0)
}

/// Loan liveness keyed by point: `(p, b)` holds when some region that
/// requires `b` is live at `p`.
pub open spec fn live_pairs(req: Set<(Region, Loan)>, region_live: Set<(Region, Point)>) -> Set<(Point, Loan)> {
    Set::new(|t: (Point, Loan)| exists|r: Region| #[trigger] req.contains((r, t.1)) && region_live.contains((r, t.0)))
}

impl AllFacts {
    /// The `subset` relation of these facts.
    pub open spec fn subset_model(&self) -> Set<(Region, Region)> {
        subset_pairs(self.outlives@)
    }

    /// The closed `requires` relation of these facts.
    pub open spec fn requires_model(&self) -> Set<(Region, Loan)> {
        closed_requires(base_requires(self.borrow_region@), self.subset_model())
    }

    /// `region_live_at` with the universal regions seeded.
    pub open spec fn region_live_model(&self) -> Set<(Region, Point)> {
        seeded_region_live(self.region_live_at@, self.universal_region@, self.cfg_edge@)
    }

    /// The `(point, loan)` pairs at which a loan is live.
    pub open spec fn live_model(&self) -> Set<(Point, Loan)> {
        live_pairs(self.requires_model(), self.region_live_model())
    }
}

} // verus!
