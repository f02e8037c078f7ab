//! The relations of the analysis are datafrog `Relation`s of pairs of
//! identifiers: sorted, deduplicated vectors of tuples.
use vstd::prelude::*;
use datafrog::Relation;

verus! {

#[verifier::external_type_specification]
#[verifier::external_body]
#[verifier::reject_recursive_types(Tuple)]
pub struct ExRelation<Tuple: Ord>(Relation<Tuple>);

/// The tuples that a relation holds, in its order.
pub uninterp spec fn relation_tuples(r: Relation<(u32, u32)>) -> Seq<(u32, u32)>;

/// The set of tuples that a relation holds.
pub open spec fn relation_set(r: Relation<(u32, u32)>) -> Set<(u32, u32)> {
    relation_tuples(r).to_set()
}

/// `a` comes before `b` in the lexicographic order of pairs.
pub open spec fn pair_lt(a: (u32, u32), b: (u32, u32)) -> bool {
    a.0 < b.0 || (a.0 == b.0 && a.1 < b.1)
}

/// `s` is strictly increasing: sorted, with no tuple twice.
pub open spec fn sorted_pairs(s: Seq<(u32, u32)>) -> bool {
    forall|i: int, j: int| 0 <= i < j < s.len() ==> #[trigger] pair_lt(s[i], s[j])
}

/// A relation's tuples are sorted and distinct, as datafrog keeps them.
pub open spec fn well_formed(r: Relation<(u32, u32)>) -> bool {
    sorted_pairs(relation_tuples(r))
}

/// Relies on `Relation::from_vec`: sorts and deduplicates the tuples.
#[verifier::external_body]
pub(crate) fn relation_from_vec(v: Vec<(u32, u32)>) -> (r: Relation<(u32, u32)>)
    ensures
        relation_set(r) == v@.to_set(),
        relation_tuples(r).no_duplicates(),
        well_formed(r),
{
    Relation::from_vec(v)
}

/// Relies on the public `elements` field of `Relation`: its tuples.
#[verifier::external_body]
pub(crate) fn relation_elements(r: &Relation<(u32, u32)>) -> (v: &Vec<(u32, u32)>)
    ensures
        v@ == relation_tuples(*r),
{
    &r.elements
}

/// Relies on `Relation::merge`: of two sorted relations, their sorted
/// union without duplicates.
#[verifier::external_body]
pub(crate) fn relation_merge(a: Relation<(u32, u32)>, b: Relation<(u32, u32)>) -> (r: Relation<(u32, u32)>)
    requires
        well_formed(a),
        well_formed(b),
    ensures
        relation_set(r) == relation_set(a).union(relation_set(b)),
        relation_tuples(r).no_duplicates(),
        well_formed(r),
{
    a.merge(b)
}

/// The pairs `(v2, v1)` for which some key `k` has `(k, v1)` in `a` and
/// `(k, v2)` in `b`.
pub open spec fn swapped_join(a: Set<(u32, u32)>, b: Set<(u32, u32)>) -> Set<(u32, u32)> {
    Set::new(|t: (u32, u32)| exists|k: u32| #[trigger] a.contains((k, t.1)) && b.contains((k, t.0)))
}

/// Relies on `Relation::from_join`: joins two sorted relations on their
/// first component; each match `(k, v1)`, `(k, v2)` yields `(v2, v1)`, and
/// the results are sorted and deduplicated.
#[verifier::external_body]
pub(crate) fn join_swapped(a: &Relation<(u32, u32)>, b: &Relation<(u32, u32)>) -> (r: Relation<(u32, u32)>)
    requires
        well_formed(*a),
        well_formed(*b),
    ensures
        relation_set(r) == swapped_join(relation_set(*a), relation_set(*b)),
        relation_tuples(r).no_duplicates(),
        well_formed(r),
{
    Relation::from_join(a, b, |_k: &u32, v1: &u32, v2: &u32| (*v2, *v1))
}

fn pair_less(a: (u32, u32), b: (u32, u32)) -> (r: bool)
    ensures
        r == pair_lt(a, b),
{
    a.0 < b.0 || (a.0 == b.0 && a.1 < b.1)
}

/// The tuples of `a` that `b` does not hold.
pub fn relation_difference(a: &Relation<(u32, u32)>, b: &Relation<(u32, u32)>) -> (r: Relation<(u32, u32)>)
    requires
        well_formed(*a),
        well_formed(*b),
    ensures
        relation_set(r) == relation_set(*a).difference(relation_set(*b)),
        relation_tuples(r).no_duplicates(),
        well_formed(r),
{
    let ea = relation_elements(a);
    let eb = relation_elements(b);
    let mut out: Vec<(u32, u32)> = Vec::new();
    let mut i: usize = 0;
    let mut j: usize = 0;
    while i < ea.len()
        invariant
            ea@ == relation_tuples(*a),
            eb@ == relation_tuples(*b),
            sorted_pairs(ea@),
            sorted_pairs(eb@),
            i <= ea.len(),
            j <= eb.len(),
            forall|l: int, k: int| 0 <= l < j && i <= k < ea.len() ==> #[trigger] pair_lt(eb@[l], ea@[k]),
            out@.to_set() == ea@.subrange(0, i as int).to_set().difference(eb@.to_set()),
        decreases ea.len() - i + eb.len() - j,
    {
        let x = ea[i];
        let ghost done = ea@.subrange(0, i as int);
        let ghost prev = out@;
        proof {
            assert(ea@.subrange(0, i + 1) =~= done.push(x));
            done.lemma_push_to_set_commute(x);
            prev.lemma_push_to_set_commute(x);
        }
        if j < eb.len() && pair_less(eb[j], x) {
            assert forall|k: int| i <= k < ea@.len() implies #[trigger] pair_lt(eb@[j as int], ea@[k]) by {
                if k > i {
                    assert(pair_lt(ea@[i as int], ea@[k]));
                }
            }
            j = j + 1;
        } else {
            if j == eb.len() || pair_less(x, eb[j]) {
                proof {
                    assert forall|l: int| 0 <= l < eb@.len() implies eb@[l] != x by {
                        if l < j {
                            assert(pair_lt(eb@[l], ea@[i as int]));
                        } else if l > j {
                            assert(pair_lt(eb@[j as int], eb@[l]));
                        }
                    }
                }
                out.push(x);
            } else {
                assert(eb@[j as int] == x);
            }
            i = i + 1;
            assert forall|t: (u32, u32)| out@.to_set().contains(t)
                == ea@.subrange(0, i as int).to_set().difference(eb@.to_set()).contains(t) by {
                if t == x {
                    if !out@.to_set().contains(t) {
                        assert(eb@[j as int] == x);
                    }
                }
            }
            assert(out@.to_set() =~= ea@.subrange(0, i as int).to_set().difference(eb@.to_set()));
        }
    }
    assert(ea@.subrange(0, i as int) =~= ea@);
    relation_from_vec(out)
}

} // verus!
