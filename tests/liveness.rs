use std::collections::HashMap;

use borrowck_liveness::facts::AllFacts;
use borrowck_liveness::location_insensitive::{
    all_points, base_requires_relation, close_requires, compute, group_by_point, live_relation,
    seed_universal_regions, subset_relation,
};
use borrowck_liveness::output::Output;
use borrowck_liveness::relation::relation_difference;
use datafrog::Relation;

fn empty_facts() -> AllFacts {
    AllFacts {
        cfg_edge: Vec::new(),
        universal_region: Vec::new(),
        outlives: Vec::new(),
        borrow_region: Vec::new(),
        region_live_at: Vec::new(),
    }
}

fn sorted_lookup(out: &Output) -> Vec<(u32, Vec<u32>)> {
    let mut v: Vec<(u32, Vec<u32>)> = out
        .borrow_live_at
        .iter()
        .map(|(p, loans)| {
            let mut l = loans.clone();
            l.sort();
            (*p, l)
        })
        .collect();
    v.sort();
    v
}

#[test]
fn no_facts_gives_empty_lookup() {
    let out = compute(false, empty_facts());
    assert!(out.borrow_live_at.is_empty());
    assert!(!out.dump_enabled);
}

#[test]
fn one_loan_live_where_its_region_is_live() {
    let mut f = empty_facts();
    f.borrow_region = vec![(0, 0, 0)];
    f.region_live_at = vec![(0, 0)];
    let out = compute(true, f);
    assert!(out.dump_enabled);
    assert_eq!(sorted_lookup(&out), vec![(0, vec![0])]);
}

#[test]
fn loan_flows_through_outlives_edge() {
    let mut f = empty_facts();
    f.borrow_region = vec![(0, 0, 0)];
    f.region_live_at = vec![(0, 0), (1, 1)];
    f.outlives = vec![(0, 1, 0)];
    let out = compute(false, f);
    assert_eq!(sorted_lookup(&out), vec![(0, vec![0]), (1, vec![0])]);
}

#[test]
fn universal_region_live_at_every_point() {
    let mut f = empty_facts();
    f.universal_region = vec![0];
    f.cfg_edge = vec![(0, 1)];
    f.borrow_region = vec![(0, 0, 0)];
    let mut seeded = empty_facts();
    seeded.universal_region = vec![0];
    seeded.cfg_edge = vec![(0, 1)];
    seed_universal_regions(&mut seeded);
    let mut live = seeded.region_live_at.clone();
    live.sort();
    assert_eq!(live, vec![(0, 0), (0, 1)]);
    let out = compute(false, f);
    assert_eq!(sorted_lookup(&out), vec![(0, vec![0]), (1, vec![0])]);
}

#[test]
fn seeding_keeps_given_facts_and_adds_each_pair() {
    let mut f = empty_facts();
    f.universal_region = vec![3, 4];
    f.cfg_edge = vec![(1, 2), (2, 1), (2, 5)];
    f.region_live_at = vec![(9, 9)];
    seed_universal_regions(&mut f);
    let mut live = f.region_live_at.clone();
    live.sort();
    assert_eq!(live, vec![(3, 1), (3, 2), (3, 5), (4, 1), (4, 2), (4, 5), (9, 9)]);
    assert_eq!(f.universal_region, vec![3, 4]);
    assert_eq!(f.cfg_edge, vec![(1, 2), (2, 1), (2, 5)]);
}

#[test]
fn points_are_both_ends_once_each() {
    let mut points = all_points(&vec![(1, 2), (2, 3), (3, 1), (7, 7)]);
    points.sort();
    assert_eq!(points, vec![1, 2, 3, 7]);
    assert!(all_points(&Vec::new()).is_empty());
}

#[test]
fn subset_drops_point_and_duplicates() {
    let r = subset_relation(&vec![(2, 1, 5), (2, 1, 6), (0, 3, 0)]);
    assert_eq!(r.elements, vec![(0, 3), (2, 1)]);
}

#[test]
fn base_requires_drops_point() {
    let r = base_requires_relation(&vec![(4, 7, 1), (4, 7, 2), (1, 2, 3)]);
    assert_eq!(r.elements, vec![(1, 2), (4, 7)]);
}

#[test]
fn requires_follows_long_chain() {
    let base = Relation::from_vec(vec![(1, 10)]);
    let subset = Relation::from_vec(vec![(1, 2), (2, 3), (3, 4), (5, 6)]);
    let (req, rounds) = close_requires(base, &subset);
    assert_eq!(req.elements, vec![(1, 10), (2, 10), (3, 10), (4, 10)]);
    assert_eq!(rounds, 4);
}

#[test]
fn requires_closure_handles_cycles() {
    let base = Relation::from_vec(vec![(1, 10), (2, 20)]);
    let subset = Relation::from_vec(vec![(1, 2), (2, 1)]);
    let (req, _rounds) = close_requires(base, &subset);
    assert_eq!(req.elements, vec![(1, 10), (1, 20), (2, 10), (2, 20)]);
}

#[test]
fn no_subset_edges_takes_one_round() {
    let base = Relation::from_vec(vec![(1, 10), (2, 20)]);
    let subset: Relation<(u32, u32)> = Relation::from_vec(Vec::new());
    let (req, rounds) = close_requires(base, &subset);
    assert_eq!(rounds, 1);
    assert_eq!(req.elements, vec![(1, 10), (2, 20)]);
}

#[test]
fn live_relation_is_keyed_by_point() {
    let req = Relation::from_vec(vec![(1, 10), (2, 20)]);
    let live = Relation::from_vec(vec![(1, 5), (1, 6), (2, 5), (3, 7)]);
    let r = live_relation(&req, &live);
    assert_eq!(r.elements, vec![(5, 10), (5, 20), (6, 10)]);
}

#[test]
fn grouping_by_point() {
    let m = group_by_point(&vec![(5, 10), (5, 20), (6, 10)]);
    let mut expected: HashMap<u32, Vec<u32>> = HashMap::new();
    expected.insert(5, vec![10, 20]);
    expected.insert(6, vec![10]);
    assert_eq!(m, expected);
}

#[test]
fn repeated_runs_agree() {
    let build = || {
        let mut f = empty_facts();
        f.cfg_edge = vec![(0, 1), (1, 2)];
        f.universal_region = vec![5];
        f.outlives = vec![(0, 1, 0), (1, 5, 1), (5, 0, 2)];
        f.borrow_region = vec![(0, 7, 0), (1, 8, 1)];
        f.region_live_at = vec![(1, 2)];
        f
    };
    let a = sorted_lookup(&compute(false, build()));
    let b = sorted_lookup(&compute(false, build()));
    assert_eq!(a, b);
    assert_eq!(a, vec![(0, vec![7, 8]), (1, vec![7, 8]), (2, vec![7, 8])]);
}

#[test]
fn more_facts_never_remove_liveness() {
    let mut small = empty_facts();
    small.borrow_region = vec![(0, 1, 0)];
    small.region_live_at = vec![(0, 3)];
    let mut large = empty_facts();
    large.borrow_region = vec![(0, 1, 0), (2, 2, 0)];
    large.region_live_at = vec![(0, 3), (2, 4)];
    large.outlives = vec![(0, 2, 0)];
    let a = sorted_lookup(&compute(false, small));
    let b = sorted_lookup(&compute(false, large));
    assert_eq!(a, vec![(3, vec![1])]);
    assert_eq!(b, vec![(3, vec![1]), (4, vec![1, 2])]);
}

#[test]
fn region_never_live_contributes_nothing() {
    let mut f = empty_facts();
    f.borrow_region = vec![(0, 1, 0)];
    f.outlives = vec![(0, 2, 0)];
    f.region_live_at = vec![(3, 3)];
    let out = compute(false, f);
    assert!(out.borrow_live_at.is_empty());
}

#[test]
fn new_output_is_empty() {
    let o = Output::new(true);
    assert!(o.dump_enabled);
    assert!(o.borrow_live_at.is_empty());
}

#[test]
fn difference_keeps_only_unknown_tuples() {
    let a = Relation::from_vec(vec![(1, 1), (1, 2), (2, 0), (3, 3)]);
    let b = Relation::from_vec(vec![(0, 9), (1, 2), (3, 3), (4, 0)]);
    assert_eq!(relation_difference(&a, &b).elements, vec![(1, 1), (2, 0)]);
    let empty: Relation<(u32, u32)> = Relation::from_vec(Vec::new());
    assert_eq!(relation_difference(&a, &empty).elements, a.elements);
    assert!(relation_difference(&empty, &a).elements.is_empty());
}
