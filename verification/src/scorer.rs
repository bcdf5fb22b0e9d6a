use vstd::prelude::*;

use crate::types::{FieldCondition, Filter, MapKey, PayloadType, PointOffsetType};
use crate::map_index::payload_keys;

verus! {

/// Bound on coordinate magnitude accepted by the simple storage, chosen
/// so that a squared distance over a full vector fits an `i64`.
pub const COORD_BOUND: i64 = 1048576;

/// Bound on vector dimension accepted by the simple storage.
pub const DIM_BOUND: usize = 1024;

/// Vector storage collaborator: random access scoring of stored points
/// against a query vector or against each other.  Higher score means
/// nearer; implementations fix the metric.
pub trait VectorStorage {
    /// The implementation's own internal invariant; scoring is promised
    /// only of a well-formed storage.
    spec fn storage_wf(&self) -> bool;

    spec fn vector_count_spec(&self) -> int;

    /// Whether a query vector is acceptable to this storage.
    spec fn query_ok(&self, q: Seq<i64>) -> bool;

    spec fn score_spec(&self, q: Seq<i64>, p: int) -> i64;

    spec fn score_internal_spec(&self, a: int, b: int) -> i64;

    fn vector_count(&self) -> (r: usize)
        ensures
            r as int == self.vector_count_spec(),
    ;

    fn score(&self, q: &Vec<i64>, p: PointOffsetType) -> (r: i64)
        requires
            self.query_ok(q@),
            (p as int) < self.vector_count_spec(),
        ensures
            r == self.score_spec(q@, p as int),
    ;

    fn score_internal(&self, a: PointOffsetType, b: PointOffsetType) -> (r: i64)
        requires
            self.storage_wf(),
            (a as int) < self.vector_count_spec(),
            (b as int) < self.vector_count_spec(),
        ensures
            r == self.score_internal_spec(a as int, b as int),
    ;
}

/// Condition checker collaborator: evaluates a filter against one point's
/// stored payload.
pub trait ConditionChecker {
    spec fn check_spec(&self, p: int, f: Filter) -> bool;

    fn check(&self, p: PointOffsetType, f: &Filter) -> (r: bool)
        ensures
            r == self.check_spec(p as int, *f),
    ;
}

/// Squared Euclidean distance over the first `n` coordinates.
pub open spec fn sq_dist_prefix(a: Seq<i64>, b: Seq<i64>, n: int) -> int
    decreases n,
{
    if n <= 0 {
        0
    } else {
        sq_dist_prefix(a, b, n - 1) + (a[n - 1] - b[n - 1]) * (a[n - 1] - b[n - 1])
    }
}

proof fn lemma_sq_dist_bound(a: Seq<i64>, b: Seq<i64>, n: int)
    requires
        0 <= n <= a.len(),
        n <= b.len(),
        forall|i: int| 0 <= i < n ==> -COORD_BOUND <= #[trigger] a[i] <= COORD_BOUND,
        forall|i: int| 0 <= i < n ==> -COORD_BOUND <= #[trigger] b[i] <= COORD_BOUND,
    ensures
        0 <= sq_dist_prefix(a, b, n) <= n * 0x40000000000,
    decreases n,
{
    if n > 0 {
        lemma_sq_dist_bound(a, b, n - 1);
        let d = a[n - 1] - b[n - 1];
        assert(0 <= d * d <= 0x40000000000) by (nonlinear_arith)
            requires
                -0x200000 <= d <= 0x200000,
        {
        }
        assert((n - 1) * 0x40000000000 + 0x40000000000 == n * 0x40000000000) by (nonlinear_arith);
    }
}

/// In-memory vector storage scoring by negated squared Euclidean
/// distance: a point identical to the query scores 0, the maximum.
pub struct SimpleVectorStorage {
    dim: usize,
    vectors: Vec<Vec<i64>>,
}

impl SimpleVectorStorage {
    pub closed spec fn dim_spec(&self) -> int {
        self.dim as int
    }

    pub closed spec fn vec_at(&self, p: int) -> Seq<i64> {
        self.vectors@[p]@
    }

    /// Dimensions agree and all coordinates are bounded, so that scoring
    /// arithmetic cannot overflow.
    pub closed spec fn wf(&self) -> bool {
        &&& self.dim <= DIM_BOUND
        &&& forall|p: int|
            0 <= p < self.vectors@.len() ==> (#[trigger] self.vectors@[p]@.len()) == self.dim
        &&& forall|p: int, i: int|
            0 <= p < self.vectors@.len() && 0 <= i < self.vectors@[p]@.len() ==> -COORD_BOUND <= (
            #[trigger] self.vectors@[p]@[i]) <= COORD_BOUND
    }

    pub fn new(dim: usize) -> (r: SimpleVectorStorage)
        requires
            dim <= DIM_BOUND,
        ensures
            r.wf(),
            r.vector_count_spec() == 0,
            r.dim_spec() == dim,
    {
        SimpleVectorStorage { dim, vectors: Vec::new() }
    }

    pub fn dim(&self) -> (r: usize)
        ensures
            r as int == self.dim_spec(),
    {
        self.dim
    }

    /// Stores one more vector; its id is the count before the call.
    pub fn add_vector(&mut self, v: Vec<i64>) -> (r: PointOffsetType)
        requires
            old(self).wf(),
            v@.len() == old(self).dim_spec(),
            forall|i: int| 0 <= i < v@.len() ==> -COORD_BOUND <= #[trigger] v@[i] <= COORD_BOUND,
            old(self).vector_count_spec() < usize::MAX,
        ensures
            final(self).wf(),
            final(self).dim_spec() == old(self).dim_spec(),
            final(self).vector_count_spec() == old(self).vector_count_spec() + 1,
            r as int == old(self).vector_count_spec(),
            final(self).vec_at(r as int) == v@,
            forall|p: int|
                0 <= p < old(self).vector_count_spec() ==> final(self).vec_at(p) == old(
                self,
                ).vec_at(p),
    {
        let r = self.vectors.len();
        self.vectors.push(v);
        r
    }

    fn neg_sq_dist(&self, q: &Vec<i64>, v: &Vec<i64>) -> (r: i64)
        requires
            q@.len() == v@.len(),
            q@.len() <= DIM_BOUND,
            forall|i: int| 0 <= i < q@.len() ==> -COORD_BOUND <= #[trigger] q@[i] <= COORD_BOUND,
            forall|i: int| 0 <= i < v@.len() ==> -COORD_BOUND <= #[trigger] v@[i] <= COORD_BOUND,
        ensures
            r as int == -sq_dist_prefix(q@, v@, q@.len() as int),
    {
        let n = q.len();
        let mut acc: i64 = 0;
        let mut i: usize = 0;
        while i < n
            invariant
                n == q@.len(),
                n == v@.len(),
                n <= DIM_BOUND,
                i <= n,
                forall|t: int| 0 <= t < n ==> -COORD_BOUND <= #[trigger] q@[t] <= COORD_BOUND,
                forall|t: int| 0 <= t < n ==> -COORD_BOUND <= #[trigger] v@[t] <= COORD_BOUND,
                acc as int == sq_dist_prefix(q@, v@, i as int),
                0 <= acc as int <= (i as int) * 0x40000000000,
            decreases n - i,
        {
            let d = q[i] - v[i];
            proof {
                assert(0 <= d * d <= 0x40000000000) by (nonlinear_arith)
                    requires
                        -0x200000 <= d <= 0x200000,
                {
                }
                assert((i as int) * 0x40000000000 + 0x40000000000 == ((i + 1) as int)
                    * 0x40000000000) by (nonlinear_arith);
                assert(((i + 1) as int) * 0x40000000000 <= 1024 * 0x40000000000) by (
                nonlinear_arith)
                    requires
                        i + 1 <= 1024,
                {
                }
            }
            acc = acc + d * d;
            i = i + 1;
        }
        -acc
    }
}

impl VectorStorage for SimpleVectorStorage {
    closed spec fn storage_wf(&self) -> bool {
        self.wf()
    }

    closed spec fn vector_count_spec(&self) -> int {
        self.vectors@.len() as int
    }

    closed spec fn query_ok(&self, q: Seq<i64>) -> bool {
        &&& self.wf()
        &&& q.len() == self.dim
        &&& forall|i: int| 0 <= i < q.len() ==> -COORD_BOUND <= #[trigger] q[i] <= COORD_BOUND
    }

    closed spec fn score_spec(&self, q: Seq<i64>, p: int) -> i64 {
        (-sq_dist_prefix(q, self.vectors@[p]@, self.dim as int)) as i64
    }

    closed spec fn score_internal_spec(&self, a: int, b: int) -> i64 {
        (-sq_dist_prefix(self.vectors@[a]@, self.vectors@[b]@, self.dim as int)) as i64
    }

    fn vector_count(&self) -> (r: usize) {
        self.vectors.len()
    }

    fn score(&self, q: &Vec<i64>, p: PointOffsetType) -> (r: i64) {
        proof {
            lemma_sq_dist_bound(q@, self.vectors@[p as int]@, self.dim as int);
        }
        self.neg_sq_dist(q, &self.vectors[p])
    }

    fn score_internal(&self, a: PointOffsetType, b: PointOffsetType) -> (r: i64) {
        proof {
            lemma_sq_dist_bound(self.vectors@[a as int]@, self.vectors@[b as int]@, self.dim as int);
        }
        self.neg_sq_dist(&self.vectors[a], &self.vectors[b])
    }
}

/// Whether a stored payload satisfies an exact-match condition: the
/// condition names a value and the payload holds it.
pub open spec fn payload_matches(p: PayloadType, c: FieldCondition) -> bool {
    match c.condition_key() {
        Some(k) => payload_keys(p).contains(k),
        None => false,
    }
}

/// Condition checker over an in-memory payload column: a point passes a
/// filter exactly when its stored payload holds the value the filter's
/// condition names.
pub struct SimpleConditionChecker {
    payloads: Vec<PayloadType>,
}

impl SimpleConditionChecker {
    pub closed spec fn payload_at(&self, p: int) -> PayloadType {
        self.payloads@[p]
    }

    pub closed spec fn payload_count_spec(&self) -> int {
        self.payloads@.len() as int
    }

    pub fn new() -> (r: SimpleConditionChecker)
        ensures
            r.payload_count_spec() == 0,
    {
        SimpleConditionChecker { payloads: Vec::new() }
    }

    /// Stores the payload of the next point, in point-id order.
    pub fn add_payload(&mut self, p: PayloadType)
        ensures
            final(self).payload_count_spec() == old(self).payload_count_spec() + 1,
            final(self).payload_at(old(self).payload_count_spec()) == p,
            forall|t: int|
                0 <= t < old(self).payload_count_spec() ==> final(self).payload_at(t) == old(
                self,
                ).payload_at(t),
    {
        self.payloads.push(p);
    }
}

impl ConditionChecker for SimpleConditionChecker {
    closed spec fn check_spec(&self, p: int, f: Filter) -> bool {
        0 <= p < self.payloads@.len() && payload_matches(self.payloads@[p], f.condition)
    }

    fn check(&self, p: PointOffsetType, f: &Filter) -> (r: bool) {
        if p >= self.payloads.len() {
            return false;
        }
        let cond_key: Option<MapKey> = match &f.condition.field_match {
            None => None,
            Some(m) => match &m.keyword {
                Some(s) => Some(MapKey::Keyword(s.clone())),
                None => match &m.integer {
                    Some(i) => Some(MapKey::Integer(*i)),
                    None => None,
                },
            },
        };
        match cond_key {
            None => false,
            Some(key) => {
                assert(f.condition.condition_key() == Some(key.view_key()));
                payload_contains(&self.payloads[p], &key)
            }
        }
    }
}

/// Whether the payload holds the value `key` denotes.
pub fn payload_contains(pl: &PayloadType, key: &MapKey) -> (r: bool)
    ensures
        r == payload_keys(*pl).contains(key.view_key()),
{
    let ghost pk = payload_keys(*pl);
    let ghost k = key.view_key();
    match pl {
        PayloadType::Keyword(ss) => {
            let n = ss.len();
            let mut i: usize = 0;
            while i < n
                invariant
                    n == ss@.len(),
                    i <= n,
                    pk == payload_keys(*pl),
                    k == key.view_key(),
                    *pl matches PayloadType::Keyword(ss2) && ss2@ == ss@,
                    pk.len() == n,
                    forall|t: int| 0 <= t < n ==> #[trigger] pk[t] == (0int, ss@[t]@, 0int),
                    forall|t: int| 0 <= t < i ==> #[trigger] pk[t] != k,
                decreases n - i,
            {
                let s: String = ss[i].clone();
                assert(s@ == ss@[i as int]@);
                let candidate = MapKey::Keyword(s);
                if crate::types::keys_equal(&candidate, key) {
                    assert(pk.contains(k)) by {
                        assert(pk[i as int] == k);
                    }
                    return true;
                }
                assert(pk[i as int] != k);
                i = i + 1;
            }
            proof {
                assert(!pk.contains(k)) by {
                    if pk.contains(k) {
                        let t = choose|t: int| 0 <= t < pk.len() && pk[t] == k;
                        assert(pk[t] != k);
                    }
                }
            }
            false
        }
        PayloadType::Integer(is) => {
            let n = is.len();
            let mut i: usize = 0;
            while i < n
                invariant
                    n == is@.len(),
                    i <= n,
                    pk == payload_keys(*pl),
                    k == key.view_key(),
                    *pl matches PayloadType::Integer(is2) && is2@ == is@,
                    pk.len() == n,
                    forall|t: int|
                        0 <= t < n ==> #[trigger] pk[t] == (
                        1int,
                        Seq::<char>::empty(),
                        is@[t] as int,
                        ),
                    forall|t: int| 0 <= t < i ==> #[trigger] pk[t] != k,
                decreases n - i,
            {
                let candidate = MapKey::Integer(is[i]);
                if crate::types::keys_equal(&candidate, key) {
                    assert(pk.contains(k)) by {
                        assert(pk[i as int] == k);
                    }
                    return true;
                }
                assert(pk[i as int] != k);
                i = i + 1;
            }
            proof {
                assert(!pk.contains(k)) by {
                    if pk.contains(k) {
                        let t = choose|t: int| 0 <= t < pk.len() && pk[t] == k;
                        assert(pk[t] != k);
                    }
                }
            }
            false
        }
    }
}

/// Composes the raw scorer with an optional filter and the condition
/// checker: the one admissibility primitive both construction and
/// filtered search go through.
pub struct FilteredScorer<'a, V: VectorStorage, C: ConditionChecker> {
    pub raw_scorer: &'a V,
    pub condition_checker: &'a C,
    pub filter: Option<&'a Filter>,
    pub query: &'a Vec<i64>,
}

impl<'a, V: VectorStorage, C: ConditionChecker> FilteredScorer<'a, V, C> {
    /// A point is admissible when no filter is present or the checker
    /// accepts it.
    pub open spec fn allowed(&self, p: int) -> bool {
        match self.filter {
            Some(f) => self.condition_checker.check_spec(p, *f),
            None => true,
        }
    }

    pub open spec fn points_count_spec(&self) -> int {
        self.raw_scorer.vector_count_spec()
    }

    pub open spec fn scorer_query_ok(&self) -> bool {
        self.raw_scorer.query_ok(self.query@)
    }

    pub fn check_point(&self, p: PointOffsetType) -> (r: bool)
        ensures
            r == self.allowed(p as int),
    {
        match self.filter {
            Some(f) => self.condition_checker.check(p, f),
            None => true,
        }
    }

    pub fn score_point(&self, p: PointOffsetType) -> (r: i64)
        requires
            self.scorer_query_ok(),
            (p as int) < self.points_count_spec(),
        ensures
            r == self.raw_scorer.score_spec(self.query@, p as int),
    {
        self.raw_scorer.score(self.query, p)
    }

    pub open spec fn query_view(&self) -> Seq<i64> {
        self.query@
    }

    /// The score when the point passes the filter, `None` when a filter
    /// is present and rejects it.
    pub fn score_if_allowed(&self, p: PointOffsetType) -> (r: Option<i64>)
        requires
            self.scorer_query_ok(),
            (p as int) < self.points_count_spec(),
        ensures
            match r {
                Some(s) => self.allowed(p as int) && s == self.raw_scorer.score_spec(
                    self.query@,
                    p as int,
                ),
                None => !self.allowed(p as int),
            },
    {
        if self.check_point(p) {
            Some(self.score_point(p))
        } else {
            None
        }
    }
}

/// What graph traversal needs of a scorer: a score and an admissibility
/// verdict per point.  Construction and filtered search use the same
/// traversal through this interface.
pub trait PointScorer {
    spec fn points_spec(&self) -> int;

    spec fn scorer_valid(&self) -> bool;

    spec fn score_at(&self, p: int) -> i64;

    spec fn allowed_at(&self, p: int) -> bool;

    fn score_of(&self, p: PointOffsetType) -> (r: i64)
        requires
            self.scorer_valid(),
            (p as int) < self.points_spec(),
        ensures
            r == self.score_at(p as int),
    ;

    fn allowed_of(&self, p: PointOffsetType) -> (r: bool)
        requires
            self.scorer_valid(),
            (p as int) < self.points_spec(),
        ensures
            r == self.allowed_at(p as int),
    ;
}

impl<'a, V: VectorStorage, C: ConditionChecker> PointScorer for FilteredScorer<'a, V, C> {
    open spec fn points_spec(&self) -> int {
        self.raw_scorer.vector_count_spec()
    }

    open spec fn scorer_valid(&self) -> bool {
        self.raw_scorer.query_ok(self.query@)
    }

    open spec fn score_at(&self, p: int) -> i64 {
        self.raw_scorer.score_spec(self.query@, p)
    }

    open spec fn allowed_at(&self, p: int) -> bool {
        self.allowed(p)
    }

    fn score_of(&self, p: PointOffsetType) -> (r: i64) {
        self.score_point(p)
    }

    fn allowed_of(&self, p: PointOffsetType) -> (r: bool) {
        self.check_point(p)
    }
}

/// Scores stored points against one stored target point: the scorer the
/// insertion path uses, with no filter.
pub struct InternalTargetScorer<'a, V: VectorStorage> {
    pub storage: &'a V,
    pub target: PointOffsetType,
}

impl<'a, V: VectorStorage> PointScorer for InternalTargetScorer<'a, V> {
    open spec fn points_spec(&self) -> int {
        self.storage.vector_count_spec()
    }

    open spec fn scorer_valid(&self) -> bool {
        self.storage.storage_wf() && (self.target as int) < self.storage.vector_count_spec()
    }

    open spec fn score_at(&self, p: int) -> i64 {
        self.storage.score_internal_spec(self.target as int, p)
    }

    open spec fn allowed_at(&self, p: int) -> bool {
        true
    }

    fn score_of(&self, p: PointOffsetType) -> (r: i64) {
        self.storage.score_internal(self.target, p)
    }

    fn allowed_of(&self, p: PointOffsetType) -> (r: bool) {
        true
    }
}

} // verus!
