//! The comparison engine: which pairs are compared, how a pair is classified
//! from its coefficient outcomes, and how the verdicts fold into the output mapping.
use vstd::prelude::*;
use std::collections::HashMap;
use crate::classification::{Classification, ClassifyError, code_of, consensus, consensus_result};
use crate::pairs::{all_pairs, lemma_pair_enumeration, unordered_pairs};

verus! {

broadcast use vstd::std_specs::hash::group_hash_axioms;

/// A plane or a general quadric surface: an id, a category label, and the
/// coefficients of its defining equation (position carries meaning).
#[verifier::reject_recursive_types(C)]
pub struct GeoObject<C> {
    pub id: i64,
    pub kind: String,
    pub coefficients: Vec<C>,
}

/// The label that marks an object as a plane.
pub open spec fn is_plane_kind(kind: Seq<char>) -> bool {
    kind == "plane"@
}

/// Two objects are compared coefficient by coefficient only when their labels and
/// their numbers of coefficients are equal.
pub open spec fn same_shape<C>(a: GeoObject<C>, b: GeoObject<C>) -> bool {
    a.kind@ == b.kind@ && a.coefficients@.len() == b.coefficients@.len()
}

/// What a pair is classified as, given the outcomes of its coefficient positions.
pub open spec fn pair_result<C>(
    a: GeoObject<C>,
    b: GeoObject<C>,
    outcomes: Seq<Option<Classification>>,
) -> Result<Classification, ClassifyError> {
    if same_shape(a, b) {
        consensus_result(outcomes)
    } else {
        Ok(Classification::Different)
    }
}

/// Positions among the first `n` objects that are planes (`planes`) or are not.
pub open spec fn group_upto<C>(objs: Seq<GeoObject<C>>, planes: bool, n: int) -> Seq<usize>
    decreases n,
{
    if n <= 0 {
        Seq::empty()
    } else if is_plane_kind(objs[n - 1].kind@) == planes {
        group_upto(objs, planes, n - 1).push((n - 1) as usize)
    } else {
        group_upto(objs, planes, n - 1)
    }
}

/// Positions of the planes (`planes`) or of the other surfaces, in ascending order.
pub open spec fn group_of<C>(objs: Seq<GeoObject<C>>, planes: bool) -> Seq<usize> {
    group_upto(objs, planes, objs.len() as int)
}

/// The unordered pairs of a group, as pairs of object positions.
pub open spec fn pairs_within(g: Seq<usize>) -> Seq<(usize, usize)> {
    all_pairs(g.len() as int).map_values(|p: (usize, usize)| (g[p.0 as int], g[p.1 as int]))
}

/// Every pair to compare: first the pairs of planes, then those of the other surfaces.
pub open spec fn plan_of<C>(objs: Seq<GeoObject<C>>) -> Seq<(usize, usize)> {
    pairs_within(group_of(objs, true)) + pairs_within(group_of(objs, false))
}

/// No id is `i64::MIN`, whose negation does not fit an `i64`.
pub open spec fn ids_negatable<C>(objs: Seq<GeoObject<C>>) -> bool {
    forall|i: int| 0 <= i < objs.len() ==> #[trigger] objs[i].id != i64::MIN
}

/// The value recorded for the second object of a pair: the first one's id, signed by
/// the classification.
pub open spec fn encoded<C>(first: GeoObject<C>, c: Classification) -> i64 {
    (first.id * code_of(c)) as i64
}

/// The output after the first `k` verdicts of the plan, in order: a `Different`
/// verdict adds nothing, any other sets the entry of the pair's second object (the
/// last write wins), and the first fault ends the fold.
pub open spec fn merged_upto<C>(
    objs: Seq<GeoObject<C>>,
    plan: Seq<(usize, usize)>,
    verdicts: Seq<Result<Classification, ClassifyError>>,
    k: int,
) -> Result<Map<i64, i64>, ClassifyError>
    decreases k,
{
    if k <= 0 {
        Ok(Map::empty())
    } else {
        match merged_upto(objs, plan, verdicts, k - 1) {
            Err(e) => Err(e),
            Ok(m) => match verdicts[k - 1] {
                Err(e) => Err(e),
                Ok(c) => if c == Classification::Different {
                    Ok(m)
                } else {
                    let p = plan[k - 1];
                    Ok(m.insert(objs[p.1 as int].id, encoded(objs[p.0 as int], c)))
                },
            },
        }
    }
}

/// The output mapping for a whole plan.
pub open spec fn merged<C>(
    objs: Seq<GeoObject<C>>,
    plan: Seq<(usize, usize)>,
    verdicts: Seq<Result<Classification, ClassifyError>>,
) -> Result<Map<i64, i64>, ClassifyError> {
    merged_upto(objs, plan, verdicts, plan.len() as int)
}

impl<C> GeoObject<C> {
    /// Builds an object from its parts.
    pub fn new(id: i64, kind: String, coefficients: Vec<C>) -> (r: GeoObject<C>)
        ensures
            r.id == id,
            r.kind@ == kind@,
            r.coefficients@ == coefficients@,
    {
        GeoObject { id, kind, coefficients }
    }

    /// Whether this object is a plane, which takes scale alignment before comparison.
    pub fn is_plane(&self) -> (r: bool)
        ensures
            r == is_plane_kind(self.kind@),
    {
        let plane = "plane".to_owned();
        proof {
            reveal_strlit("plane");
        }
        self.kind == plane
    }
}

/// Whether two objects have equal labels and equal numbers of coefficients.
pub fn shapes_match<C>(a: &GeoObject<C>, b: &GeoObject<C>) -> (r: bool)
    ensures
        r == same_shape(*a, *b),
{
    a.coefficients.len() == b.coefficients.len() && a.kind == b.kind
}

/// Classifies a pair of objects. A mismatch of label or length is `Different` before
/// any coefficient is read; otherwise `outcomes` (one per position: `None` where both
/// coefficients are zero, else the scalar outcome) must agree unanimously.
pub fn classify_pair<C>(
    a: &GeoObject<C>,
    b: &GeoObject<C>,
    outcomes: &Vec<Option<Classification>>,
) -> (r: Result<Classification, ClassifyError>)
    ensures
        r == pair_result(*a, *b, outcomes@),
{
    if !shapes_match(a, b) {
        return Ok(Classification::Different);
    }
    consensus(outcomes)
}

/// A pair of equal shape with at least one informative position, whose informative
/// positions all have the outcome `c`, is classified `c`. Comparing an object with an
/// identical copy (every position `Same`) or with its negation (every position
/// `Opposite`) reduces to this once the scalar tests have been made.
pub proof fn lemma_unanimous_pair<C>(
    a: GeoObject<C>,
    b: GeoObject<C>,
    outcomes: Seq<Option<Classification>>,
    c: Classification,
)
    requires
        same_shape(a, b),
        exists|i: int| 0 <= i < outcomes.len() && #[trigger] outcomes[i] is Some,
        forall|i: int| 0 <= i < outcomes.len() && #[trigger] outcomes[i] is Some ==> outcomes[i] == Some(c),
    ensures
        pair_result(a, b, outcomes) == Ok::<Classification, ClassifyError>(c),
{
    let i = choose|i: int| 0 <= i < outcomes.len() && #[trigger] outcomes[i] is Some;
    assert(crate::classification::agrees(outcomes, c));
    let chosen = choose|d: Classification| crate::classification::agrees(outcomes, d);
    assert(outcomes[i] == Some(chosen));
}

/// A pair of equal shape whose every position is zero on both sides cannot be
/// classified: the fault is raised, never a classification.
pub proof fn lemma_degenerate_pair<C>(
    a: GeoObject<C>,
    b: GeoObject<C>,
    outcomes: Seq<Option<Classification>>,
)
    requires
        same_shape(a, b),
        forall|i: int| 0 <= i < outcomes.len() ==> #[trigger] outcomes[i] is None,
    ensures
        pair_result(a, b, outcomes) == Err::<Classification, ClassifyError>(
            ClassifyError::NoInformativeCoefficients,
        ),
{
}

proof fn lemma_group_upto<C>(objs: Seq<GeoObject<C>>, planes: bool, n: int)
    requires
        0 <= n <= objs.len() <= usize::MAX,
    ensures
        group_upto(objs, planes, n).len() <= n,
        forall|k: int| 0 <= k < group_upto(objs, planes, n).len() ==> {
            let g = #[trigger] group_upto(objs, planes, n)[k];
            &&& g < n
            &&& is_plane_kind(objs[g as int].kind@) == planes
        },
        forall|k: int, l: int|
            0 <= k < l < group_upto(objs, planes, n).len() ==> #[trigger] group_upto(
                objs,
                planes,
                n,
            )[k] < #[trigger] group_upto(objs, planes, n)[l],
    decreases n,
{
    if n > 0 {
        lemma_group_upto(objs, planes, n - 1);
        let prev = group_upto(objs, planes, n - 1);
        let cur = group_upto(objs, planes, n);
        if is_plane_kind(objs[n - 1].kind@) == planes {
            assert(cur == prev.push((n - 1) as usize));
            assert forall|k: int| 0 <= k < cur.len() implies {
                let g = #[trigger] cur[k];
                &&& g < n
                &&& is_plane_kind(objs[g as int].kind@) == planes
            } by {
                if k < prev.len() {
                    assert(cur[k] == prev[k]);
                }
            }
            assert forall|k: int, l: int| 0 <= k < l < cur.len() implies #[trigger] cur[k]
                < #[trigger] cur[l] by {
                assert(cur[k] == prev[k]);
                if l < prev.len() {
                    assert(cur[l] == prev[l]);
                }
            }
        }
    }
}

/// Positions of the planes (`planes`) or of the other surfaces, in ascending order.
pub fn group_indices<C>(objects: &Vec<GeoObject<C>>, planes: bool) -> (r: Vec<usize>)
    ensures
        r@ == group_of(objects@, planes),
{
    let mut r: Vec<usize> = Vec::new();
    let mut i: usize = 0;
    while i < objects.len()
        invariant
            0 <= i <= objects@.len(),
            r@ == group_upto(objects@, planes, i as int),
        decreases objects@.len() - i,
    {
        if objects[i].is_plane() == planes {
            r.push(i);
        }
        i = i + 1;
    }
    r
}

fn push_pairs_within(out: &mut Vec<(usize, usize)>, g: &Vec<usize>)
    ensures
        final(out)@ == old(out)@ + pairs_within(g@),
{
    let pairs = unordered_pairs(g.len());
    proof {
        lemma_pair_enumeration(g.len());
    }
    let ghost start = out@;
    let mut k: usize = 0;
    while k < pairs.len()
        invariant
            0 <= k <= pairs@.len(),
            pairs@ == all_pairs(g@.len() as int),
            forall|q: int| 0 <= q < pairs@.len() ==> {
                let p = #[trigger] pairs@[q];
                p.0 < p.1 && p.1 < g@.len()
            },
            out@ == start + pairs_within(g@).take(k as int),
        decreases pairs@.len() - k,
    {
        let (a, b) = pairs[k];
        out.push((g[a], g[b]));
        assert(pairs_within(g@).take(k + 1) =~= pairs_within(g@).take(k as int).push((g@[a as int], g@[b as int])));
        k = k + 1;
    }
    assert(pairs_within(g@).take(k as int) =~= pairs_within(g@));
}

/// The pairs to compare, as object positions: every unordered pair of planes, then
/// every unordered pair of the other surfaces, each group in upper-triangular order
/// over ascending positions. A plane is never paired with a surface.
pub fn comparison_plan<C>(objects: &Vec<GeoObject<C>>) -> (r: Vec<(usize, usize)>)
    ensures
        r@ == plan_of(objects@),
        forall|k: int| 0 <= k < r@.len() ==> {
            let p = #[trigger] r@[k];
            &&& p.0 < p.1 < objects@.len()
            &&& is_plane_kind(objects@[p.0 as int].kind@) == is_plane_kind(objects@[p.1 as int].kind@)
        },
{
    let n = objects.len();
    let planes = group_indices(objects, true);
    let surfaces = group_indices(objects, false);
    let mut r: Vec<(usize, usize)> = Vec::new();
    push_pairs_within(&mut r, &planes);
    push_pairs_within(&mut r, &surfaces);
    assert(r@ =~= plan_of(objects@));
    proof {
        lemma_plan_positions(objects@);
    }
    r
}

proof fn lemma_fault_persists<C>(
    objs: Seq<GeoObject<C>>,
    plan: Seq<(usize, usize)>,
    verdicts: Seq<Result<Classification, ClassifyError>>,
    k: int,
    j: int,
)
    requires
        0 <= k <= j,
        merged_upto(objs, plan, verdicts, k) is Err,
    ensures
        merged_upto(objs, plan, verdicts, j) == merged_upto(objs, plan, verdicts, k),
    decreases j - k,
{
    if j > k {
        lemma_fault_persists(objs, plan, verdicts, k, j - 1);
    }
}

/// Folds the verdicts of a plan, in its order, into the output mapping: id of the
/// second object of each pair to the first one's id, signed by the classification.
/// Pairs classified `Different` add nothing; a later entry for an id overwrites an
/// earlier one; the first fault aborts the whole comparison.
pub fn merge_verdicts<C>(
    objects: &Vec<GeoObject<C>>,
    plan: &Vec<(usize, usize)>,
    verdicts: &Vec<Result<Classification, ClassifyError>>,
) -> (r: Result<HashMap<i64, i64>, ClassifyError>)
    requires
        plan@.len() == verdicts@.len(),
        forall|k: int| 0 <= k < plan@.len() ==> {
            let p = #[trigger] plan@[k];
            p.0 < objects@.len() && p.1 < objects@.len()
        },
        ids_negatable(objects@),
    ensures
        match r {
            Ok(m) => merged(objects@, plan@, verdicts@) == Ok::<Map<i64, i64>, ClassifyError>(m@),
            Err(e) => merged(objects@, plan@, verdicts@) == Err::<Map<i64, i64>, ClassifyError>(e),
        },
{
    let mut out: HashMap<i64, i64> = HashMap::new();
    let mut k: usize = 0;
    while k < plan.len()
        invariant
            0 <= k <= plan@.len(),
            plan@.len() == verdicts@.len(),
            forall|q: int| 0 <= q < plan@.len() ==> {
                let p = #[trigger] plan@[q];
                p.0 < objects@.len() && p.1 < objects@.len()
            },
            ids_negatable(objects@),
            merged_upto(objects@, plan@, verdicts@, k as int) == Ok::<Map<i64, i64>, ClassifyError>(out@),
        decreases plan@.len() - k,
    {
        let (a, b) = plan[k];
        match verdicts[k] {
            Err(e) => {
                proof {
                    lemma_fault_persists(objects@, plan@, verdicts@, k + 1, plan@.len() as int);
                }
                return Err(e);
            },
            Ok(c) => {
                if c != Classification::Different {
                    let first = &objects[a];
                    assert(first.id != i64::MIN);
                    let value: i64 = if c == Classification::Same {
                        first.id
                    } else {
                        -first.id
                    };
                    assert(value == encoded(*first, c));
                    out.insert(objects[b].id, value);
                }
            },
        }
        k = k + 1;
    }
    Ok(out)
}

proof fn lemma_pairs_within_positions<C>(objs: Seq<GeoObject<C>>, planes: bool)
    requires
        objs.len() <= usize::MAX,
    ensures
        forall|k: int| 0 <= k < pairs_within(group_of(objs, planes)).len() ==> {
            let p = #[trigger] pairs_within(group_of(objs, planes))[k];
            &&& p.0 < p.1 < objs.len()
            &&& is_plane_kind(objs[p.0 as int].kind@) == planes
            &&& is_plane_kind(objs[p.1 as int].kind@) == planes
        },
{
    let g = group_of(objs, planes);
    lemma_group_upto(objs, planes, objs.len() as int);
    lemma_pair_enumeration(g.len() as usize);
    assert forall|k: int| 0 <= k < all_pairs(g.len() as int).len() implies {
        let q = #[trigger] all_pairs(g.len() as int)[k];
        q.0 < q.1 && q.1 < g.len()
    } by {
        assert(all_pairs(g.len() as int)[k] == all_pairs((g.len() as usize) as int)[k]);
    }
    assert forall|k: int| 0 <= k < pairs_within(g).len() implies {
        let p = #[trigger] pairs_within(g)[k];
        &&& p.0 < p.1 < objs.len()
        &&& is_plane_kind(objs[p.0 as int].kind@) == planes
        &&& is_plane_kind(objs[p.1 as int].kind@) == planes
    } by {
        let q = all_pairs(g.len() as int)[k];
        assert(q.0 < q.1 && q.1 < g.len());
        assert(g[q.0 as int] < g[q.1 as int]);
    }
}

proof fn lemma_plan_positions<C>(objs: Seq<GeoObject<C>>)
    requires
        objs.len() <= usize::MAX,
    ensures
        forall|k: int| 0 <= k < plan_of(objs).len() ==> {
            let p = #[trigger] plan_of(objs)[k];
            &&& p.0 < p.1 < objs.len()
            &&& is_plane_kind(objs[p.0 as int].kind@) == is_plane_kind(objs[p.1 as int].kind@)
        },
{
    lemma_pairs_within_positions(objs, true);
    lemma_pairs_within_positions(objs, false);
    let left = pairs_within(group_of(objs, true));
    let right = pairs_within(group_of(objs, false));
    assert forall|k: int| 0 <= k < plan_of(objs).len() implies {
        let p = #[trigger] plan_of(objs)[k];
        &&& p.0 < p.1 < objs.len()
        &&& is_plane_kind(objs[p.0 as int].kind@) == is_plane_kind(objs[p.1 as int].kind@)
    } by {
        if k < left.len() {
            assert(plan_of(objs)[k] == left[k]);
        } else {
            assert(plan_of(objs)[k] == right[k - left.len()]);
        }
    }
}

} // verus!
