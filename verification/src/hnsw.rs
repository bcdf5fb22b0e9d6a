use vstd::prelude::*;

use crate::graph::GraphLayers;
use crate::queue::{
    FixedLengthPriorityQueue, beats_eq, count_trues, distinct_ids, lemma_count_trues_le_len,
    lemma_count_trues_set, lemma_insert_sorted_len, lemma_push_model_distinct,
    lemma_beats_eq_trans, lemma_push_covers, lemma_push_model_elems, ordered,
};
use crate::scorer::{ConditionChecker, FilteredScorer, InternalTargetScorer, PointScorer,
    VectorStorage};
use crate::types::{
    Filter, OperationError, OperationResult, PointOffsetType, ScoredPointOffset,
};

verus! {

/// Default maximum connections per point per layer.
pub const DEFAULT_M: usize = 16;

/// Default beam width during construction.
pub const DEFAULT_EF_CONSTRUCT: usize = 100;

/// Hard cap on a point's assigned layer.
pub const MAX_LAYER: usize = 16;

/// Largest accepted `m` parameter, so that `m0 = 2 * m` cannot overflow.
pub const MAX_M_PARAM: usize = 100000;

/// Construction parameters of one graph instance, immutable once built.
#[derive(Clone, Copy, PartialEq, Eq, Structural, Debug)]
pub struct HnswConfig {
    pub m: usize,
    pub m0: usize,
    pub ef_construct: usize,
    pub ef: usize,
}

pub open spec fn config_valid(c: HnswConfig) -> bool {
    &&& 1 <= c.m <= MAX_M_PARAM
    &&& 1 <= c.m0
    &&& 1 <= c.ef_construct
    &&& 1 <= c.ef
}

/// An index kind request, as the caller supplies it.
#[derive(Clone, Copy, PartialEq, Eq, Structural, Debug)]
pub enum Indexes {
    Plain,
    Hnsw { m: usize, ef_construct: usize },
}

/// Per-search overrides.
#[derive(Clone, Copy, PartialEq, Eq, Structural, Debug)]
pub enum SearchParams {
    Hnsw { ef: usize },
}

/// Resolves the configuration an index opens with: a persisted one is
/// reused and never silently overwritten — parameters that contradict it
/// are a configuration mismatch; absent one, parameters are taken from
/// the request or the defaults.
pub fn resolve_config(existing: Option<HnswConfig>, requested: Option<Indexes>) -> (r:
    OperationResult<HnswConfig>)
    requires
        existing matches Some(c) ==> config_valid(c),
    ensures
        match existing {
            Some(c) => match requested {
                None => r == Ok::<HnswConfig, OperationError>(c),
                Some(Indexes::Hnsw { m, ef_construct }) => if m == c.m && ef_construct
                    == c.ef_construct {
                    r == Ok::<HnswConfig, OperationError>(c)
                } else {
                    r == Err::<HnswConfig, OperationError>(OperationError::ConfigMismatch)
                },
                Some(Indexes::Plain) => r == Err::<HnswConfig, OperationError>(
                    OperationError::ConfigMismatch,
                ),
            },
            None => match requested {
                None => r == Ok::<HnswConfig, OperationError>(
                    HnswConfig { m: 16, m0: 32, ef_construct: 100, ef: 100 },
                ),
                Some(Indexes::Hnsw { m, ef_construct }) => if 1 <= m && m <= MAX_M_PARAM && 1
                    <= ef_construct {
                    r == Ok::<HnswConfig, OperationError>(
                        HnswConfig { m, m0: (m + m) as usize, ef_construct, ef: ef_construct },
                    )
                } else {
                    r == Err::<HnswConfig, OperationError>(OperationError::Unsupported)
                },
                Some(Indexes::Plain) => r == Err::<HnswConfig, OperationError>(
                    OperationError::ConfigMismatch,
                ),
            },
        },
        r matches Ok(c) ==> config_valid(c),
    {
    match existing {
        Some(c) => match requested {
            None => Ok(c),
            Some(Indexes::Hnsw { m, ef_construct }) => {
                if m == c.m && ef_construct == c.ef_construct {
                    Ok(c)
                } else {
                    Err(OperationError::ConfigMismatch)
                }
            }
            Some(Indexes::Plain) => Err(OperationError::ConfigMismatch),
        },
        None => match requested {
            None => Ok(HnswConfig { m: 16, m0: 32, ef_construct: 100, ef: 100 }),
            Some(Indexes::Hnsw { m, ef_construct }) => {
                if 1 <= m && m <= MAX_M_PARAM && 1 <= ef_construct {
                    Ok(HnswConfig { m, m0: m + m, ef_construct, ef: ef_construct })
                } else {
                    Err(OperationError::Unsupported)
                }
            }
            Some(Indexes::Plain) => Err(OperationError::ConfigMismatch),
        },
    }
}

/// The beam width actually used: never below the number of results
/// requested, since a smaller beam could not even hold them.
pub fn effective_ef(req_ef: usize, top: usize) -> (r: usize)
    ensures
        r >= top,
        r >= req_ef,
        r == req_ef || r == top,
{
    if req_ef >= top {
        req_ef
    } else {
        top
    }
}

/// What holds of every point a beam or greedy step handles on `level`.
pub open spec fn traversal_item_ok<S: PointScorer>(
    graph: &GraphLayers,
    scorer: &S,
    level: int,
    it: ScoredPointOffset,
) -> bool {
    &&& (it.idx as int) < graph.num_points()
    &&& level < graph.layers_of(it.idx as int)
    &&& it.score == scorer.score_at(it.idx as int)
}

/// The beam's dominance guarantee for one admissible point: it is among
/// the kept results, or the results are at full width and even their
/// weakest scores at least as well as the point does.
pub open spec fn covered_one<S: PointScorer>(
    scorer: &S,
    results: Seq<ScoredPointOffset>,
    ef: int,
    p: int,
) -> bool {
    let it = ScoredPointOffset { idx: p as PointOffsetType, score: scorer.score_at(p) };
    results.contains(it) || (results.len() == ef && beats_eq(results.last(), it))
}

/// Every point the beam visited and the filter admits is covered by the
/// results: a returned result never scores below an unreturned visited
/// admissible point beyond the beam's width.
pub open spec fn beam_covered<S: PointScorer>(
    scorer: &S,
    results: Seq<ScoredPointOffset>,
    visited: Seq<bool>,
    n: int,
    ef: int,
) -> bool {
    forall|p: int|
        0 <= p < n && #[trigger] visited[p] && scorer.allowed_at(p) ==> covered_one(
            scorer,
            results,
            ef,
            p,
        )
}

/// A point the beam can hold on a layer: the beam's own entry, or the
/// target of some link present on that layer.
pub open spec fn reached_on_layer(
    graph: &GraphLayers,
    level: int,
    entry_idx: PointOffsetType,
    p: PointOffsetType,
) -> bool {
    p == entry_idx || exists|a: int, j: int|
        0 <= a < graph.num_points() && level < graph.layers_of(a) && 0 <= j < graph.links_at(
            a,
            level,
        ).len() && graph.links_at(a, level)[j] == p
}

/// What a search walked, related to what it returned: the trace holds
/// every returned point, and every admissible point in it is either
/// returned or scores no better than the weakest returned result.
pub open spec fn search_trace_ok<S: PointScorer>(
    scorer: &S,
    results: Seq<ScoredPointOffset>,
    visited: Seq<bool>,
    n: int,
) -> bool {
    &&& visited.len() == n
    &&& n > 0 ==> exists|q: int| 0 <= q < n && visited[q]
    &&& forall|t: int| 0 <= t < results.len() ==> visited[(#[trigger] results[t]).idx as int]
    &&& forall|p: int|
        0 <= p < n && #[trigger] visited[p] && scorer.allowed_at(p) ==> ({
            let it = ScoredPointOffset { idx: p as PointOffsetType, score: scorer.score_at(p) };
            results.contains(it) || (results.len() >= 1 && beats_eq(results.last(), it))
        })
}

/// Greedy single-best descent on one layer: hops to the best-scoring
/// neighbor while that strictly improves the score.
fn greedy_closest<S: PointScorer>(
    graph: &GraphLayers,
    scorer: &S,
    level: usize,
    entry: ScoredPointOffset,
) -> (r: ScoredPointOffset)
    requires
        graph.wf(),
        scorer.scorer_valid(),
        graph.num_points() <= scorer.points_spec(),
        traversal_item_ok(graph, scorer, level as int, entry),
    ensures
        traversal_item_ok(graph, scorer, level as int, r),
        r.score >= entry.score,
{
    let mut cur = entry;
    let mut improved = true;
    while improved
        invariant
            graph.wf(),
            scorer.scorer_valid(),
            graph.num_points() <= scorer.points_spec(),
            traversal_item_ok(graph, scorer, level as int, cur),
            cur.score >= entry.score,
        decreases i64::MAX - cur.score, (if improved {
            1int
        } else {
            0int
        }),
    {
        let links = graph.links_of(cur.idx, level);
        let n = links.len();
        let mut best = cur;
        let mut j: usize = 0;
        while j < n
            invariant
                graph.wf(),
                scorer.scorer_valid(),
                graph.num_points() <= scorer.points_spec(),
                n == links@.len(),
                j <= n,
                links@ == graph.links_at(cur.idx as int, level as int),
                (cur.idx as int) < graph.num_points(),
                (level as int) < graph.layers_of(cur.idx as int),
                traversal_item_ok(graph, scorer, level as int, best),
                best.score >= cur.score,
            decreases n - j,
        {
            let nb = links[j];
            proof {
                assert(graph.links_at(cur.idx as int, level as int)[j as int] == nb);
                graph.lemma_link_facts(cur.idx as int, level as int, j as int);
            }
            let s = scorer.score_of(nb);
            if s > best.score {
                best = ScoredPointOffset { idx: nb, score: s };
            }
            j = j + 1;
        }
        if best.score > cur.score {
            cur = best;
        } else {
            improved = false;
        }
    }
    cur
}

/// Beam search on one layer with breadth `ef`: walks the graph from the
/// entry, keeping the `ef` best admissible points found.  Points a filter
/// rejects are still walked through as stepping stones but are kept out
/// of the results.
#[verifier::rlimit(60)]
fn search_on_layer<S: PointScorer>(
    graph: &GraphLayers,
    scorer: &S,
    level: usize,
    ef: usize,
    entry: ScoredPointOffset,
) -> (r: (Vec<ScoredPointOffset>, Ghost<Seq<bool>>))
    requires
        graph.wf(),
        scorer.scorer_valid(),
        graph.num_points() <= scorer.points_spec(),
        1 <= ef,
        traversal_item_ok(graph, scorer, level as int, entry),
    ensures
        r.0@.len() <= ef,
        ordered(r.0@),
        distinct_ids(r.0@),
        forall|t: int|
            0 <= t < r.0@.len() ==> traversal_item_ok(graph, scorer, level as int, #[trigger] r.0@[t])
                && scorer.allowed_at(r.0@[t].idx as int),
        r.1@.len() == graph.num_points(),
        r.1@[entry.idx as int],
        beam_covered(scorer, r.0@, r.1@, graph.num_points(), ef as int),
        forall|t: int| 0 <= t < r.0@.len() ==> r.1@[(#[trigger] r.0@[t]).idx as int],
        forall|t: int|
            0 <= t < r.0@.len() ==> reached_on_layer(
                graph,
                level as int,
                entry.idx,
                (#[trigger] r.0@[t]).idx,
            ),
{
    let n = graph.point_count();
    let mut visited: Vec<bool> = Vec::new();
    let mut i: usize = 0;
    while i < n
        invariant
            i <= n,
            visited@.len() == i,
            count_trues(visited@) == 0,
            forall|t: int| 0 <= t < i ==> !(#[trigger] visited@[t]),
        decreases n - i,
    {
        let ghost pre = visited@;
        visited.push(false);
        proof {
            assert(visited@.drop_last() =~= pre);
        }
        i = i + 1;
    }
    let mut candidates = FixedLengthPriorityQueue::new(ef);
    let mut results = FixedLengthPriorityQueue::new(ef);
    let ghost pre0 = visited@;
    visited[entry.idx] = true;
    proof {
        assert(visited@ =~= pre0.update(entry.idx as int, true));
        lemma_count_trues_set(pre0, entry.idx as int);
        lemma_count_trues_le_len(visited@);
    }
    proof {
        lemma_push_model_elems(candidates@, entry, candidates.cap_spec());
        lemma_insert_sorted_len(candidates@, entry);
    }
    candidates.push(entry);
    if scorer.allowed_of(entry.idx) {
        proof {
            lemma_push_model_elems(results@, entry, results.cap_spec());
            lemma_push_model_distinct(results@, entry, results.cap_spec());
            lemma_push_covers(results@, entry, results.cap_spec());
        }
        results.push(entry);
        proof {
            assert forall|p: int|
                0 <= p < n as int && #[trigger] visited@[p] && scorer.allowed_at(p) implies
                covered_one(scorer, results@, ef as int, p) by {
                assert(pre0[p] == false);
                assert(p == entry.idx as int);
                assert(ScoredPointOffset { idx: p as PointOffsetType, score: scorer.score_at(p) }
                    == entry);
                assert(results@.contains(entry));
            }
        }
    } else {
        proof {
            assert forall|p: int|
                0 <= p < n as int && #[trigger] visited@[p] && scorer.allowed_at(p) implies
                covered_one(scorer, results@, ef as int, p) by {
                assert(pre0[p] == false);
                assert(p == entry.idx as int);
                assert(false);
            }
        }
    }
    while candidates.len() > 0
        invariant
            graph.wf(),
            scorer.scorer_valid(),
            graph.num_points() <= scorer.points_spec(),
            n as int == graph.num_points(),
            visited@.len() == n,
            0 <= count_trues(visited@) <= n,
            candidates.wf(),
            results.wf(),
            candidates.cap_spec() == ef,
            results.cap_spec() == ef,
            forall|t: int|
                0 <= t < candidates@.len() ==> traversal_item_ok(
                    graph,
                    scorer,
                    level as int,
                    #[trigger] candidates@[t],
                ) && visited@[candidates@[t].idx as int],
            forall|t: int|
                0 <= t < results@.len() ==> traversal_item_ok(
                    graph,
                    scorer,
                    level as int,
                    #[trigger] results@[t],
                ) && visited@[results@[t].idx as int] && scorer.allowed_at(
                    results@[t].idx as int,
                ),
            distinct_ids(results@),
            (entry.idx as int) < n as int,
            visited@[entry.idx as int],
            beam_covered(scorer, results@, visited@, n as int, ef as int),
            forall|t: int|
                0 <= t < results@.len() ==> reached_on_layer(
                    graph,
                    level as int,
                    entry.idx,
                    (#[trigger] results@[t]).idx,
                ),
        decreases candidates@.len() + n - count_trues(visited@),
    {
        let copt = candidates.pop_best();
        let cand = match copt {
            Some(c) => c,
            None => {
                proof {
                    assert(false);
                }
                entry
            }
        };
        let ghost m_pop = candidates@.len() + n as int - count_trues(visited@);
        if results.is_full() {
            proof {
                results.lemma_wf();
            }
            let w = results.worst();
            if cand.score < w.score {
                break ;
            }
        }
        let links = graph.links_of(cand.idx, level);
        let m = links.len();
        let mut j: usize = 0;
        while j < m
            invariant
                graph.wf(),
                scorer.scorer_valid(),
                graph.num_points() <= scorer.points_spec(),
                n as int == graph.num_points(),
                visited@.len() == n,
                0 <= count_trues(visited@) <= n,
                j <= m,
                m == links@.len(),
                links@ == graph.links_at(cand.idx as int, level as int),
                (cand.idx as int) < graph.num_points(),
                (level as int) < graph.layers_of(cand.idx as int),
                candidates.wf(),
                results.wf(),
                candidates.cap_spec() == ef,
                results.cap_spec() == ef,
                forall|t: int|
                    0 <= t < candidates@.len() ==> traversal_item_ok(
                        graph,
                        scorer,
                        level as int,
                        #[trigger] candidates@[t],
                    ) && visited@[candidates@[t].idx as int],
                forall|t: int|
                    0 <= t < results@.len() ==> traversal_item_ok(
                        graph,
                        scorer,
                        level as int,
                        #[trigger] results@[t],
                    ) && visited@[results@[t].idx as int] && scorer.allowed_at(
                        results@[t].idx as int,
                    ),
                distinct_ids(results@),
                (entry.idx as int) < n as int,
                visited@[entry.idx as int],
                beam_covered(scorer, results@, visited@, n as int, ef as int),
                forall|t: int|
                    0 <= t < results@.len() ==> reached_on_layer(
                        graph,
                        level as int,
                        entry.idx,
                        (#[trigger] results@[t]).idx,
                    ),
                candidates@.len() + n as int - count_trues(visited@) <= m_pop,
            decreases m - j,
        {
            let nb = links[j];
            proof {
                assert(graph.links_at(cand.idx as int, level as int)[j as int] == nb);
                graph.lemma_link_facts(cand.idx as int, level as int, j as int);
                assert(reached_on_layer(graph, level as int, entry.idx, nb));
            }
            if !visited[nb] {
                let ghost pre_visited = visited@;
                visited[nb] = true;
                proof {
                    assert(visited@ =~= pre_visited.update(nb as int, true));
                    lemma_count_trues_set(pre_visited, nb as int);
                    lemma_count_trues_le_len(visited@);
                }
                let s = scorer.score_of(nb);
                let spo = ScoredPointOffset { idx: nb, score: s };
                proof {
                    lemma_push_model_elems(candidates@, spo, candidates.cap_spec());
                    lemma_insert_sorted_len(candidates@, spo);
                }
                candidates.push(spo);
                if scorer.allowed_of(nb) {
                    let ghost rpre = results@;
                    proof {
                        assert(forall|t: int|
                            0 <= t < results@.len() ==> (#[trigger] results@[t]).idx != nb);
                        lemma_push_model_elems(results@, spo, results.cap_spec());
                        lemma_push_model_distinct(results@, spo, results.cap_spec());
                        results.lemma_wf();
                        lemma_push_covers(results@, spo, results.cap_spec());
                    }
                    results.push(spo);
                    proof {
                        assert forall|p: int|
                            0 <= p < n as int && #[trigger] visited@[p] && scorer.allowed_at(p)
                            implies covered_one(scorer, results@, ef as int, p) by {
                            let it = ScoredPointOffset {
                                idx: p as PointOffsetType,
                                score: scorer.score_at(p),
                            };
                            if p == nb as int {
                                assert(it == spo);
                            } else {
                                assert(pre_visited[p]);
                                assert(covered_one(scorer, rpre, ef as int, p));
                                if rpre.contains(it) {
                                    let q = choose|q: int| 0 <= q < rpre.len() && rpre[q] == it;
                                    assert(results@.contains(rpre[q]) || (results@.len()
                                        == ef as int && beats_eq(results@.last(), rpre[q])));
                                } else {
                                    assert(rpre.len() == ef as int && beats_eq(rpre.last(), it));
                                    assert(beats_eq(results@.last(), rpre.last()));
                                    lemma_beats_eq_trans(results@.last(), rpre.last(), it);
                                }
                            }
                        }
                    }
                }
            }
            j = j + 1;
        }
    }
    proof {
        results.lemma_wf();
    }
    (results.into_vec(), Ghost(visited@))
}

/// Diversity-aware neighbor selection: walking the candidates best-first,
/// one is kept only while room remains and it is nearer to the new point
/// than to every neighbor kept before it, so the chosen links cover
/// distinct directions instead of clustering.
fn select_neighbors<V: VectorStorage>(
    candidates: &Vec<ScoredPointOffset>,
    limit: usize,
    storage: &V,
    target: PointOffsetType,
) -> (r: Vec<ScoredPointOffset>)
    requires
        storage.storage_wf(),
        (target as int) < storage.vector_count_spec(),
        forall|t: int|
            0 <= t < candidates@.len() ==> ((#[trigger] candidates@[t]).idx as int)
                < storage.vector_count_spec(),
        distinct_ids(candidates@),
        1 <= limit,
    ensures
        r@.len() <= limit,
        distinct_ids(r@),
        forall|i: int| 0 <= i < r@.len() ==> (#[trigger] r@[i]).idx != target,
        forall|i: int| 0 <= i < r@.len() ==> candidates@.contains(#[trigger] r@[i]),
        (exists|t: int| 0 <= t < candidates@.len() && (#[trigger] candidates@[t]).idx != target)
            ==> r@.len() >= 1,
{
    let mut out: Vec<ScoredPointOffset> = Vec::new();
    let ghost mut srcs: Seq<int> = Seq::empty();
    let n = candidates.len();
    let mut i: usize = 0;
    while i < n
        invariant
            storage.storage_wf(),
            (target as int) < storage.vector_count_spec(),
            n == candidates@.len(),
            i <= n,
            1 <= limit,
            distinct_ids(candidates@),
            forall|t: int|
                0 <= t < candidates@.len() ==> ((#[trigger] candidates@[t]).idx as int)
                    < storage.vector_count_spec(),
            out@.len() <= limit,
            distinct_ids(out@),
            forall|t: int| 0 <= t < out@.len() ==> (#[trigger] out@[t]).idx != target,
            out@.len() == 0 ==> forall|q: int|
                0 <= q < i ==> (#[trigger] candidates@[q]).idx == target,
            srcs.len() == out@.len(),
            forall|t: int|
                0 <= t < out@.len() ==> 0 <= (#[trigger] srcs[t]) < i && candidates@[srcs[t]]
                    == out@[t],
        decreases n - i,
    {
        if out.len() >= limit {
            proof {
                lemma_selection_witness(candidates@, out@, srcs);
            }
            return out;
        }
        let c = candidates[i];
        if c.idx != target {
            let mut good = true;
            let k = out.len();
            let mut t: usize = 0;
            while t < k
                invariant
                    storage.storage_wf(),
                    k == out@.len(),
                    t <= k,
                    k == 0 ==> good,
                    (c.idx as int) < storage.vector_count_spec(),
                    forall|x: int|
                        0 <= x < candidates@.len() ==> ((#[trigger] candidates@[x]).idx as int)
                            < storage.vector_count_spec(),
                    n == candidates@.len(),
                    i < n,
                    srcs.len() == out@.len(),
                    forall|x: int|
                        0 <= x < out@.len() ==> 0 <= (#[trigger] srcs[x]) < i && candidates@[srcs[x]]
                            == out@[x],
                decreases k - t,
            {
                let s = out[t];
                proof {
                    assert(candidates@[srcs[t as int]] == out@[t as int]);
                }
                let cs = storage.score_internal(c.idx, s.idx);
                if cs > c.score {
                    good = false;
                }
                t = t + 1;
            }
            if good {
                proof {
                    assert forall|x: int| 0 <= x < out@.len() implies (#[trigger] out@[x]).idx
                        != c.idx by {
                        assert(candidates@[srcs[x]] == out@[x]);
                        assert(candidates@[srcs[x]].idx != candidates@[i as int].idx);
                    }
                    srcs = srcs.push(i as int);
                }
                out.push(c);
            }
        }
        i = i + 1;
    }
    proof {
        lemma_selection_witness(candidates@, out@, srcs);
    }
    out
}

/// Each kept element is one of the candidates, witnessed by its source
/// position.
proof fn lemma_selection_witness(
    candidates: Seq<ScoredPointOffset>,
    out: Seq<ScoredPointOffset>,
    srcs: Seq<int>,
)
    requires
        srcs.len() == out.len(),
        forall|t: int|
            0 <= t < out.len() ==> 0 <= (#[trigger] srcs[t]) < candidates.len()
                && candidates[srcs[t]] == out[t],
    ensures
        forall|t: int| 0 <= t < out.len() ==> candidates.contains(#[trigger] out[t]),
{
    assert forall|t: int| 0 <= t < out.len() implies candidates.contains(#[trigger] out[t]) by {
        assert(candidates[srcs[t]] == out[t]);
    }
}

/// Layered proximity graph index over a vector storage, with per-point
/// filter decisions delegated to a condition checker.
pub struct HNSWIndex<V: VectorStorage, C: ConditionChecker> {
    storage: V,
    checker: C,
    config: HnswConfig,
    graph: GraphLayers,
    rng: rand::rngs::StdRng,
}

impl<V: VectorStorage, C: ConditionChecker> HNSWIndex<V, C> {
    pub closed spec fn storage_spec(&self) -> V {
        self.storage
    }

    pub closed spec fn checker_spec(&self) -> C {
        self.checker
    }

    pub closed spec fn config_spec(&self) -> HnswConfig {
        self.config
    }

    pub closed spec fn graph_spec(&self) -> GraphLayers {
        self.graph
    }

    /// How many points the graph holds.
    pub closed spec fn indexed_count(&self) -> int {
        self.graph.num_points()
    }

    pub closed spec fn well_formed(&self) -> bool {
        &&& config_valid(self.config)
        &&& self.graph.wf()
        &&& self.storage.storage_wf()
        &&& self.graph.num_points() <= self.storage.vector_count_spec()
        &&& self.graph.m_spec() == self.config.m as int
        &&& self.graph.m0_spec() == self.config.m0 as int
    }

    /// A well-formed index carries a well-formed graph over the stored
    /// points, so the graph's own guarantees — symmetry among them —
    /// hold of it.
    pub proof fn lemma_well_formed_graph(&self)
        requires
            self.well_formed(),
        ensures
            self.graph_spec().wf(),
            self.indexed_count() == self.graph_spec().num_points(),
            self.indexed_count() <= self.storage_spec().vector_count_spec(),
            config_valid(self.config_spec()),
            self.graph_spec().m_spec() == self.config_spec().m as int,
            self.graph_spec().m0_spec() == self.config_spec().m0 as int,
            forall|l: int| #[trigger] self.graph_spec().cap(l) == if l == 0 {
                self.config_spec().m0 as int
            } else {
                self.config_spec().m as int
            },
    {
    }

    /// Graph symmetry, of every well-formed index: for any link `p -> b`
    /// on layer `l`, either `b -> p` stands on that layer too, or `b`'s
    /// neighbor list there is at full capacity.
    pub proof fn lemma_graph_symmetry(&self, p: int, l: int, j: int)
        requires
            self.well_formed(),
            0 <= p < self.graph_spec().num_points(),
            0 <= l < self.graph_spec().layers_of(p),
            0 <= j < self.graph_spec().links_at(p, l).len(),
        ensures
            ({
                let b = self.graph_spec().links_at(p, l)[j] as int;
                self.graph_spec().links_at(b, l).contains(p as PointOffsetType)
                    || self.graph_spec().links_at(b, l).len() >= self.graph_spec().cap(l)
            }),
    {
        self.graph.lemma_symmetric_or_full(p, l, j);
    }

    /// Read access to the graph, for callers that inspect its structure.
    pub fn graph(&self) -> (r: &GraphLayers)
        ensures
            r == self.graph_spec(),
    {
        &self.graph
    }

    /// Read access to the vector storage this index was built over.
    pub fn storage(&self) -> (r: &V)
        ensures
            r == self.storage_spec(),
    {
        &self.storage
    }

    pub fn new(storage: V, checker: C, config: HnswConfig, seed: u64) -> (r: Self)
        requires
            config_valid(config),
            storage.storage_wf(),
            storage.vector_count_spec() >= 0,
        ensures
            r.well_formed(),
            r.indexed_count() == 0,
            r.storage_spec() == storage,
            r.checker_spec() == checker,
            r.config_spec() == config,
    {
        let graph = GraphLayers::new(config.m, config.m0);
        let rng = crate::rng::rng_from_seed(seed);
        HNSWIndex { storage, checker, config, graph, rng }
    }

    /// Draws the new point's maximum layer: each further layer is reached
    /// with probability `1/m`, capped, so the share of points reaching
    /// layer `k` decays as `m^-k` and layer 0 is always reachable.
    fn sample_layer(&mut self) -> (r: usize)
        requires
            old(self).well_formed(),
        ensures
            r <= MAX_LAYER,
            final(self).well_formed(),
            final(self).storage_spec() == old(self).storage_spec(),
            final(self).checker_spec() == old(self).checker_spec(),
            final(self).config_spec() == old(self).config_spec(),
            final(self).graph_spec() == old(self).graph_spec(),
    {
        let m64 = self.config.m as u64;
        let mut level: usize = 0;
        let mut go = true;
        while go && level < MAX_LAYER
            invariant
                level <= MAX_LAYER,
                m64 >= 1,
                self.storage == old(self).storage,
                self.checker == old(self).checker,
                self.config == old(self).config,
                self.graph == old(self).graph,
                old(self).well_formed(),
            decreases MAX_LAYER - level, (if go {
                1int
            } else {
                0int
            }),
        {
            let draw = crate::rng::rng_next(&mut self.rng);
            if draw % m64 == 0 {
                level = level + 1;
            } else {
                go = false;
            }
        }
        level
    }

    /// Inserts the next point: draws its maximum layer, descends greedily
    /// from the entry through the layers above it, and on each layer from
    /// there down to 0 links it symmetrically to up to `m` (`2m` on layer
    /// 0) diverse neighbors out of an `ef_construct`-wide beam.
    pub fn link_point(&mut self, point_id: PointOffsetType)
        requires
            old(self).well_formed(),
            point_id as int == old(self).indexed_count(),
            old(self).indexed_count() < old(self).storage_spec().vector_count_spec(),
            old(self).indexed_count() < usize::MAX,
        ensures
            final(self).well_formed(),
            final(self).indexed_count() == old(self).indexed_count() + 1,
            final(self).storage_spec() == old(self).storage_spec(),
            final(self).checker_spec() == old(self).checker_spec(),
            final(self).config_spec() == old(self).config_spec(),
            old(self).indexed_count() > 0 ==> final(self).graph_spec().links_at(
                point_id as int,
                0,
            ).len() >= 1,
            forall|p: int, l2: int|
                0 <= p < old(self).indexed_count() && 0 <= l2 < old(self).graph_spec().layers_of(p)
                    ==> (#[trigger] final(self).graph_spec().links_at(p, l2)).len()
                    >= old(self).graph_spec().links_at(p, l2).len(),
            forall|p: int|
                0 <= p < old(self).indexed_count()
                    ==> (#[trigger] final(self).graph_spec().layers_of(p))
                    == old(self).graph_spec().layers_of(p),
    {
        let level = self.sample_layer();
        let entry_before = self.graph.entry_point();
        proof {
            self.graph.lemma_entry_facts();
        }
        self.graph.add_point(level);
        match entry_before {
            None => {}
            Some(e) => {
                let scorer = InternalTargetScorer { storage: &self.storage, target: point_id };
                let s0 = scorer.score_of(e.point);
                let mut cur = ScoredPointOffset { idx: e.point, score: s0 };
                let mut l = e.level;
                while l > level
                    invariant
                        self.graph.wf(),
                        self.storage == old(self).storage,
                        scorer.scorer_valid(),
                        self.graph.num_points() <= scorer.points_spec(),
                        traversal_item_ok(&self.graph, &scorer, l as int, cur),
                        cur.idx != point_id,
                        (point_id as int) < self.graph.num_points(),
                        self.graph.layers_of(point_id as int) == level + 1,
                        l <= e.level,
                        l as int >= (if (level as int) < (e.level as int) {
                            level as int
                        } else {
                            e.level as int
                        }),
                    decreases l,
                {
                    cur = greedy_closest(&self.graph, &scorer, l, cur);
                    l = l - 1;
                }
                let top_link = if level < e.level {
                    level
                } else {
                    e.level
                };
                let mut ll: usize = top_link + 1;
                while ll > 0
                    invariant
                        self.storage == old(self).storage,
                        self.checker == old(self).checker,
                        self.config == old(self).config,
                        scorer.target == point_id,
                        scorer.scorer_valid(),
                        config_valid(self.config),
                        self.storage.storage_wf(),
                        (point_id as int) < self.storage.vector_count_spec(),
                        self.graph.wf(),
                        self.graph.m_spec() == self.config.m as int,
                        self.graph.m0_spec() == self.config.m0 as int,
                        self.graph.num_points() == old(self).indexed_count() + 1,
                        self.graph.num_points() <= scorer.points_spec(),
                        self.graph.num_points() <= self.storage.vector_count_spec(),
                        (point_id as int) < self.graph.num_points(),
                        ll <= level + 1,
                        ll as int <= self.graph.layers_of(point_id as int),
                        traversal_item_ok(&self.graph, &scorer, ll as int - 1, cur),
                        cur.idx != point_id,
                        forall|x: int|
                            0 <= x < ll ==> (#[trigger] self.graph.links_at(point_id as int, x))
                                == Seq::<PointOffsetType>::empty(),
                        ll == 0 ==> self.graph.links_at(point_id as int, 0).len() >= 1,
                        forall|p: int, l2: int|
                            0 <= p < point_id as int && 0 <= l2 < old(self).graph_spec().layers_of(
                                p,
                            ) ==> (#[trigger] self.graph.links_at(p, l2)).len() >= old(
                                self,
                            ).graph_spec().links_at(p, l2).len(),
                        forall|p: int|
                            0 <= p < point_id as int ==> #[trigger] self.graph.layers_of(p) == old(
                                self,
                            ).graph_spec().layers_of(p),
                    decreases ll,
                {
                    let lay = ll - 1;
                    let (beam, beam_trace) = search_on_layer(
                        &self.graph,
                        &scorer,
                        lay,
                        self.config.ef_construct,
                        cur,
                    );
                    let cap: usize = if lay == 0 {
                        self.config.m0
                    } else {
                        self.config.m
                    };
                    proof {
                        assert forall|t: int|
                            0 <= t < beam@.len() implies ((#[trigger] beam@[t]).idx as int)
                            < self.storage.vector_count_spec() by {
                            assert(traversal_item_ok(&self.graph, &scorer, lay as int, beam@[t]));
                        }
                        // The new point has no links on this layer yet, so by
                        // symmetry no other point links to it: the beam cannot
                        // hold it.
                        assert forall|t: int|
                            0 <= t < beam@.len() implies (#[trigger] beam@[t]).idx != point_id by {
                            assert(reached_on_layer(&self.graph, lay as int, cur.idx, beam@[t].idx));
                            if beam@[t].idx == point_id {
                                let (a, j) = choose|a: int, j: int|
                                    0 <= a < self.graph.num_points() && (lay as int)
                                        < self.graph.layers_of(a) && 0 <= j < self.graph.links_at(
                                        a,
                                        lay as int,
                                    ).len() && self.graph.links_at(a, lay as int)[j] == point_id;
                                self.graph.lemma_symmetric_or_full(a, lay as int, j);
                                assert(self.graph.links_at(point_id as int, lay as int)
                                    == Seq::<PointOffsetType>::empty());
                                assert(self.graph.cap(lay as int) >= 1);
                                assert(false);
                            }
                        }
                        // The beam's own admissible entry guarantees a result.
                        assert(beam_trace@[cur.idx as int]);
                        assert(covered_one(&scorer, beam@, self.config.ef_construct as int,
                            cur.idx as int));
                        assert(beam@.len() >= 1);
                        assert(beam@[0].idx != point_id);
                    }
                    let selected = select_neighbors(&beam, cap, &self.storage, point_id);
                    let k = selected.len();
                    proof {
                        assert(cap as int == self.graph.cap(lay as int));
                    }
                    let ghost gpre = self.graph;
                    let mut t: usize = 0;
                    while t < k
                        invariant
                            t <= k,
                            k == selected@.len(),
                            k <= cap,
                            cap as int == self.graph.cap(lay as int),
                            self.storage == old(self).storage,
                            self.checker == old(self).checker,
                            self.config == old(self).config,
                            self.graph.wf(),
                            self.graph.m_spec() == gpre.m_spec(),
                            self.graph.m0_spec() == gpre.m0_spec(),
                            self.graph.num_points() == gpre.num_points(),
                            self.graph.entry_spec() == gpre.entry_spec(),
                            self.graph.num_points() <= self.storage.vector_count_spec(),
                            self.storage.storage_wf(),
                            (point_id as int) < self.graph.num_points(),
                            (lay as int) < self.graph.layers_of(point_id as int),
                            ll as int <= self.graph.layers_of(point_id as int),
                            forall|p: int|
                                0 <= p < self.graph.num_points() ==> #[trigger] self.graph.layers_of(
                                    p,
                                ) == gpre.layers_of(p),
                            distinct_ids(selected@),
                            forall|x: int|
                                0 <= x < selected@.len() ==> (#[trigger] selected@[x]).idx
                                    != point_id,
                            forall|x: int|
                                0 <= x < selected@.len() ==> ((#[trigger] selected@[x]).idx as int)
                                    < self.graph.num_points() && (lay as int)
                                    < self.graph.layers_of(selected@[x].idx as int),
                            self.graph.links_at(point_id as int, lay as int) == Seq::new(
                                t as nat,
                                |x: int| selected@[x].idx,
                            ),
                            forall|x: int|
                                0 <= x < ll && x != lay ==> (#[trigger] self.graph.links_at(
                                    point_id as int,
                                    x,
                                )) == Seq::<PointOffsetType>::empty(),
                            forall|p: int, l2: int|
                                0 <= p < point_id as int && 0 <= l2 < old(
                                    self,
                                ).graph_spec().layers_of(p) ==> (#[trigger] self.graph.links_at(
                                    p,
                                    l2,
                                )).len() >= old(self).graph_spec().links_at(p, l2).len(),
                            forall|p: int|
                                0 <= p < point_id as int ==> #[trigger] self.graph.layers_of(p)
                                    == old(self).graph_spec().layers_of(p),
                        decreases k - t,
                    {
                        let nb = selected[t];
                        proof {
                            assert(self.graph.links_at(point_id as int, lay as int).len()
                                == t as int);
                            assert forall|x: int|
                                0 <= x < self.graph.links_at(point_id as int, lay as int).len()
                                    implies (#[trigger] self.graph.links_at(
                                point_id as int,
                                lay as int,
                            )[x]) != nb.idx by {
                                assert(self.graph.links_at(point_id as int, lay as int)[x]
                                    == selected@[x].idx);
                                assert(selected@[x].idx != selected@[t as int].idx);
                            }
                            if self.graph.links_at(point_id as int, lay as int).contains(nb.idx) {
                                let w = choose|w: int|
                                    0 <= w < self.graph.links_at(point_id as int, lay as int).len()
                                        && self.graph.links_at(point_id as int, lay as int)[w]
                                        == nb.idx;
                                assert(false);
                            }
                        }
                        let ghost gstep = self.graph;
                        self.graph.link_pair(point_id, nb.idx, lay, &self.storage);
                        proof {
                            assert(self.graph.links_at(point_id as int, lay as int) =~= Seq::new(
                                (t + 1) as nat,
                                |x: int| selected@[x].idx,
                            ));
                            assert forall|x: int|
                                0 <= x < ll && x != lay implies (#[trigger] self.graph.links_at(
                                point_id as int,
                                x,
                            )) == Seq::<PointOffsetType>::empty() by {
                                assert(self.graph.links_at(point_id as int, x) == gstep.links_at(
                                    point_id as int,
                                    x,
                                ));
                            }
                            assert forall|p: int, l2: int|
                                0 <= p < point_id as int && 0 <= l2 < old(
                                    self,
                                ).graph_spec().layers_of(p) implies (#[trigger] self.graph.links_at(
                                p,
                                l2,
                            )).len() >= old(self).graph_spec().links_at(p, l2).len() by {
                                assert(gstep.layers_of(p) == old(self).graph_spec().layers_of(p));
                                if !(p == nb.idx as int && l2 == lay as int) {
                                    assert(self.graph.links_at(p, l2) == gstep.links_at(p, l2));
                                }
                            }
                        }
                        t = t + 1;
                    }
                    proof {
                        assert(self.graph.links_at(point_id as int, lay as int).len() == k as int);
                        assert(k >= 1);
                    }
                    let next = beam[0];
                    proof {
                        assert(traversal_item_ok(&gpre, &scorer, lay as int, next));
                        assert(next.idx != point_id);
                    }
                    cur = next;
                    ll = lay;
                }
            }
        }
    }

    /// Builds the whole index from the storage snapshot: links every
    /// stored point in id order, producing the same graph invariants as
    /// online insertion.
    pub fn build_index(&mut self) -> (r: OperationResult<()>)
        requires
            old(self).well_formed(),
        ensures
            final(self).well_formed(),
            r == Ok::<(), OperationError>(()),
            final(self).indexed_count() == final(self).storage_spec().vector_count_spec(),
            final(self).storage_spec() == old(self).storage_spec(),
            final(self).checker_spec() == old(self).checker_spec(),
            final(self).config_spec() == old(self).config_spec(),
            forall|q: int|
                old(self).indexed_count() <= q < final(self).indexed_count() && 1 <= q ==> (
                #[trigger] final(self).graph_spec().links_at(q, 0)).len() >= 1,
        {
        let total = self.storage.vector_count();
        let mut p = self.graph.point_count();
        if p >= total {
            return Ok(());
        }
        while p < total
            invariant
                p as int == self.indexed_count(),
                old(self).indexed_count() <= p as int,
                p <= total,
                total as int == self.storage.vector_count_spec(),
                self.well_formed(),
                self.storage == old(self).storage,
                self.checker == old(self).checker,
                self.config == old(self).config,
                forall|q: int|
                    old(self).indexed_count() <= q < p as int && 1 <= q ==> (
                    #[trigger] self.graph.links_at(q, 0)).len() >= 1,
            decreases total - p,
        {
            let ghost gpre = self.graph;
            self.link_point(p);
            proof {
                assert forall|q: int|
                    old(self).indexed_count() <= q < p as int + 1 && 1 <= q implies (
                #[trigger] self.graph.links_at(q, 0)).len() >= 1 by {
                    if q < p as int {
                        gpre.lemma_point_facts(q);
                        assert(self.graph.links_at(q, 0).len() >= gpre.links_at(q, 0).len());
                    }
                }
            }
            p = p + 1;
        }
        Ok(())
    }

    /// Beam search for the `top` nearest admissible points: greedy coarse
    /// descent from the top layer, then a layer-0 beam of width `ef`.
    /// Every result passes the scorer's filter; points failing it are
    /// walked through but never returned.
    pub fn search_with_condition(
        &self,
        top: usize,
        ef: usize,
        points_scorer: &FilteredScorer<V, C>,
    ) -> (r: Vec<ScoredPointOffset>)
        requires
            self.well_formed(),
            points_scorer.scorer_valid(),
            self.indexed_count() <= points_scorer.points_spec(),
        ensures
            r@.len() <= top,
            ordered(r@),
            distinct_ids(r@),
            forall|t: int|
                0 <= t < r@.len() ==> ((#[trigger] r@[t]).idx as int) < self.indexed_count()
                    && r@[t].score == points_scorer.score_at(r@[t].idx as int)
                    && points_scorer.allowed_at(r@[t].idx as int),
            self.indexed_count() > 0 && top >= 1 && (forall|p: int|
                0 <= p < self.indexed_count() ==> points_scorer.allowed_at(p)) ==> r@.len() >= 1,
            top >= 1 ==> exists|visited: Seq<bool>|
                search_trace_ok(points_scorer, r@, visited, self.indexed_count()),
    {
        match self.graph.entry_point() {
            None => {
                proof {
                    self.graph.lemma_entry_facts();
                }
                let out: Vec<ScoredPointOffset> = Vec::new();
                proof {
                    assert(out@.len() == 0);
                    assert(search_trace_ok(
                        points_scorer,
                        out@,
                        Seq::<bool>::empty(),
                        self.indexed_count(),
                    ));
                }
                out
            }
            Some(e) => {
                proof {
                    self.graph.lemma_entry_facts();
                }
                let s0 = points_scorer.score_of(e.point);
                let mut cur = ScoredPointOffset { idx: e.point, score: s0 };
                let mut l = e.level;
                while l > 0
                    invariant
                        self.graph.wf(),
                        points_scorer.scorer_valid(),
                        self.graph.num_points() <= points_scorer.points_spec(),
                        traversal_item_ok(&self.graph, points_scorer, l as int, cur),
                    decreases l,
                {
                    cur = greedy_closest(&self.graph, points_scorer, l, cur);
                    l = l - 1;
                }
                let ef1: usize = if ef < 1 {
                    1
                } else {
                    ef
                };
                let (beam, beam_trace) = search_on_layer(&self.graph, points_scorer, 0, ef1, cur);
                let mut out: Vec<ScoredPointOffset> = Vec::new();
                let m = beam.len();
                let mut t: usize = 0;
                while t < m && t < top
                    invariant
                        m == beam@.len(),
                        t <= m,
                        t <= top,
                        out@ == beam@.subrange(0, t as int),
                    decreases m - t,
                {
                    out.push(beam[t]);
                    proof {
                        assert(out@ =~= beam@.subrange(0, t + 1 as int));
                    }
                    t = t + 1;
                }
                proof {
                    assert forall|x: int, y: int| 0 <= x < y < out@.len() implies beats_eq(
                        #[trigger] out@[x],
                        #[trigger] out@[y],
                    ) by {
                        assert(out@[x] == beam@[x] && out@[y] == beam@[y]);
                    }
                    assert forall|x: int, y: int| 0 <= x < y < out@.len() implies (
                    #[trigger] out@[x]).idx != (#[trigger] out@[y]).idx by {
                        assert(out@[x] == beam@[x] && out@[y] == beam@[y]);
                    }
                    assert forall|x: int|
                        0 <= x < out@.len() implies ((#[trigger] out@[x]).idx as int)
                        < self.indexed_count() && out@[x].score == points_scorer.score_at(
                        out@[x].idx as int,
                    ) && points_scorer.allowed_at(out@[x].idx as int) by {
                        assert(out@[x] == beam@[x]);
                        assert(traversal_item_ok(&self.graph, points_scorer, 0, beam@[x]));
                    }
                    let vis = beam_trace@;
                    let nn = self.indexed_count();
                    assert forall|x: int|
                        0 <= x < out@.len() implies vis[(#[trigger] out@[x]).idx as int] by {
                        assert(out@[x] == beam@[x]);
                    }
                    if top >= 1 {
                        assert forall|p: int|
                            0 <= p < nn && #[trigger] vis[p] && points_scorer.allowed_at(p)
                            implies ({
                            let it = ScoredPointOffset {
                                idx: p as PointOffsetType,
                                score: points_scorer.score_at(p),
                            };
                            out@.contains(it) || (out@.len() >= 1 && beats_eq(out@.last(), it))
                        }) by {
                            let it = ScoredPointOffset {
                                idx: p as PointOffsetType,
                                score: points_scorer.score_at(p),
                            };
                            assert(covered_one(points_scorer, beam@, ef1 as int, p));
                            if beam@.contains(it) {
                                let q = choose|q: int| 0 <= q < beam@.len() && beam@[q] == it;
                                if q < out@.len() {
                                    assert(out@[q] == it);
                                    assert(out@.contains(it));
                                } else {
                                    assert(out@.len() == top);
                                    assert(out@.last() == beam@[out@.len() - 1]);
                                    assert(beats_eq(beam@[out@.len() - 1], beam@[q]));
                                }
                            } else {
                                assert(beam@.len() == ef1 as int && beats_eq(beam@.last(), it));
                                assert(out@.len() >= 1);
                                assert(out@.last() == beam@[out@.len() - 1]);
                                assert(beats_eq(beam@[out@.len() - 1], beam@[beam@.len() - 1]));
                                lemma_beats_eq_trans(out@.last(), beam@.last(), it);
                            }
                        }
                        assert(vis[cur.idx as int] && (cur.idx as int) < nn);
                        assert(search_trace_ok(points_scorer, out@, vis, nn));
                    }
                    assert((forall|p: int| 0 <= p < nn ==> points_scorer.allowed_at(p)) && top >= 1
                        ==> out@.len() >= 1) by {
                        if (forall|p: int| 0 <= p < nn ==> points_scorer.allowed_at(p)) && top
                            >= 1 {
                            assert(points_scorer.allowed_at(cur.idx as int));
                            assert(vis[cur.idx as int]);
                            assert(covered_one(points_scorer, beam@, ef1 as int, cur.idx as int));
                            assert(beam@.len() >= 1);
                        }
                    }
                }
                out
            }
        }
    }

    /// The public search entry: scores the query against the stored
    /// vectors, applies the caller's filter through the condition
    /// checker, and returns the `top` nearest admissible points.  The
    /// beam width is the request's `ef` (or the configured default),
    /// never less than `top`.
    pub fn search(
        &self,
        vector: &Vec<i64>,
        filter: Option<&Filter>,
        top: usize,
        params: Option<&SearchParams>,
    ) -> (r: Vec<ScoredPointOffset>)
        requires
            self.well_formed(),
            self.storage_spec().query_ok(vector@),
        ensures
            r@.len() <= top,
            ordered(r@),
            distinct_ids(r@),
            forall|t: int|
                0 <= t < r@.len() ==> ((#[trigger] r@[t]).idx as int) < self.indexed_count()
                    && r@[t].score == self.storage_spec().score_spec(vector@, r@[t].idx as int),
            filter matches Some(f) ==> forall|t: int|
                0 <= t < r@.len() ==> self.checker_spec().check_spec((#[trigger] r@[t]).idx as int, *f),
            self.indexed_count() > 0 && top >= 1 && filter is None ==> r@.len() >= 1,
            top >= 1 ==> exists|visited: Seq<bool>| {
                &&& visited.len() == self.indexed_count()
                &&& self.indexed_count() > 0 ==> exists|q: int|
                    0 <= q < self.indexed_count() && visited[q]
                &&& forall|t: int| 0 <= t < r@.len() ==> visited[(#[trigger] r@[t]).idx as int]
                &&& forall|p: int|
                    0 <= p < self.indexed_count() && #[trigger] visited[p] && (filter matches Some(
                        f,
                    ) ==> self.checker_spec().check_spec(p, *f)) ==> ({
                        let it = ScoredPointOffset {
                            idx: p as PointOffsetType,
                            score: self.storage_spec().score_spec(vector@, p),
                        };
                        r@.contains(it) || (r@.len() >= 1 && beats_eq(r@.last(), it))
                    })
            },
    {
        let req_ef = match params {
            None => self.config.ef,
            Some(p) => match p {
                SearchParams::Hnsw { ef } => *ef,
            },
        };
        // The beam is never narrower than the number of results asked for.
        let ef = effective_ef(req_ef, top);
        let points_scorer = FilteredScorer {
            raw_scorer: &self.storage,
            condition_checker: &self.checker,
            filter,
            query: vector,
        };
        let r = self.search_with_condition(top, ef, &points_scorer);
        proof {
            if filter is None {
                assert(forall|p: int|
                    0 <= p < self.indexed_count() ==> points_scorer.allowed_at(p));
            }
            if top >= 1 {
                let v = choose|v: Seq<bool>|
                    search_trace_ok(&points_scorer, r@, v, self.indexed_count());
                assert forall|p: int|
                    0 <= p < self.indexed_count() && #[trigger] v[p] && (filter matches Some(f)
                        ==> self.checker_spec().check_spec(p, *f)) implies ({
                    let it = ScoredPointOffset {
                        idx: p as PointOffsetType,
                        score: self.storage_spec().score_spec(vector@, p),
                    };
                    r@.contains(it) || (r@.len() >= 1 && beats_eq(r@.last(), it))
                }) by {
                    assert(points_scorer.allowed_at(p));
                }
            }
        }
        r
    }
}

} // verus!
