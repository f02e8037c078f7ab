use vstd::prelude::*;
use std::collections::HashMap;
use crate::facts::{Loan, Point};

verus! {

/// The result of the analysis.
pub struct Output {
    /// Whether the caller asked for a report of the computation's size and time.
    pub dump_enabled: bool,
    /// For each point, the loans live there.
    pub borrow_live_at: HashMap<Point, Vec<Loan>>,
}

impl Output {
    /// An output with no live loans.
    pub fn new(dump_enabled: bool) -> (o: Output)
        ensures
            o.dump_enabled == dump_enabled,
            o.borrow_live_at@ == Map::<Point, Vec<Loan>>::empty(),
    {
        Output { dump_enabled, borrow_live_at: HashMap::new() }
    }
}

} // verus!
