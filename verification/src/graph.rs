use vstd::prelude::*;

use crate::scorer::VectorStorage;
use crate::types::PointOffsetType;

verus! {

/// The graph's global entry: the point holding the highest layer.
#[derive(Clone, Copy, PartialEq, Eq, Structural, Debug)]
pub struct EntryPoint {
    pub point: PointOffsetType,
    pub level: usize,
}

/// Multi-layer proximity graph over point ids.  A point assigned maximum
/// layer `l` appears in every layer `0..=l`; each layer holds a bounded
/// neighbor list per point.
pub struct GraphLayers {
    m: usize,
    m0: usize,
    links: Vec<Vec<Vec<PointOffsetType>>>,
    entry: Option<EntryPoint>,
}

impl GraphLayers {
    pub closed spec fn num_points(&self) -> int {
        self.links@.len() as int
    }

    /// Number of layers the point appears in (its maximum layer plus one).
    pub closed spec fn layers_of(&self, p: int) -> int {
        self.links@[p]@.len() as int
    }

    pub closed spec fn links_at(&self, p: int, l: int) -> Seq<PointOffsetType> {
        self.links@[p]@[l]@
    }

    pub closed spec fn m_spec(&self) -> int {
        self.m as int
    }

    pub closed spec fn m0_spec(&self) -> int {
        self.m0 as int
    }

    /// Maximum neighbors per point on a layer: `m`, doubled on layer 0.
    pub open spec fn cap(&self, l: int) -> int {
        if l == 0 {
            self.m0_spec()
        } else {
            self.m_spec()
        }
    }

    pub closed spec fn entry_spec(&self) -> Option<EntryPoint> {
        self.entry
    }

    /// Every link lands on a stored point that also reaches this layer,
    /// and never on the point itself.
    pub closed spec fn links_valid(&self) -> bool {
        forall|p: int, l: int, j: int|
            0 <= p < self.num_points() && 0 <= l < self.layers_of(p) && 0 <= j < self.links_at(
                p,
                l,
            ).len() ==> 0 <= (#[trigger] self.links_at(p, l)[j]) < self.num_points()
                && self.links_at(p, l)[j] != p && l < self.layers_of(self.links_at(p, l)[j] as int)
    }

    /// Graph symmetry: for every link `a -> b` on a layer, either `b -> a`
    /// is present on that layer or `b`'s neighbor list there is at full
    /// capacity (the eviction case); never a dangling one-directional link
    /// outside that exception.
    pub closed spec fn links_symmetric_or_full(&self) -> bool {
        forall|p: int, l: int, j: int|
            0 <= p < self.num_points() && 0 <= l < self.layers_of(p) && 0 <= j < self.links_at(
                p,
                l,
            ).len() ==> ({
                let b = (#[trigger] self.links_at(p, l)[j]) as int;
                self.links_at(b, l).contains(p as PointOffsetType) || self.links_at(b, l).len()
                    >= self.cap(l)
            })
    }

    pub closed spec fn wf(&self) -> bool {
        &&& 1 <= self.m
        &&& 1 <= self.m0
        &&& forall|p: int| 0 <= p < self.num_points() ==> 1 <= #[trigger] self.layers_of(p)
        &&& forall|p: int, l: int|
            0 <= p < self.num_points() && 0 <= l < self.layers_of(p) ==> (#[trigger] self.links_at(
                p,
                l,
            )).len() <= self.cap(l)
        &&& self.links_valid()
        &&& self.links_symmetric_or_full()
        &&& match self.entry {
            Some(e) => {
                &&& (e.point as int) < self.num_points()
                &&& e.level as int + 1 == self.layers_of(e.point as int)
                &&& forall|p: int|
                    0 <= p < self.num_points() ==> #[trigger] self.layers_of(p) <= e.level as int
                        + 1
            },
            None => self.num_points() == 0,
        }
    }

    /// The symmetry invariant, re-stated over the public model so callers
    /// can rely on it of any well-formed graph.
    pub proof fn lemma_symmetric_or_full(&self, p: int, l: int, j: int)
        requires
            self.wf(),
            0 <= p < self.num_points(),
            0 <= l < self.layers_of(p),
            0 <= j < self.links_at(p, l).len(),
        ensures
            ({
                let b = self.links_at(p, l)[j] as int;
                self.links_at(b, l).contains(p as PointOffsetType) || self.links_at(b, l).len()
                    >= self.cap(l)
            }),
    {
    }

    /// What a well-formed graph guarantees of one link, re-stated over
    /// the public model.
    pub proof fn lemma_link_facts(&self, p: int, l: int, j: int)
        requires
            self.wf(),
            0 <= p < self.num_points(),
            0 <= l < self.layers_of(p),
            0 <= j < self.links_at(p, l).len(),
        ensures
            0 <= (self.links_at(p, l)[j] as int) < self.num_points(),
            self.links_at(p, l)[j] != p,
            l < self.layers_of(self.links_at(p, l)[j] as int),
            self.links_at(p, l).len() <= self.cap(l),
    {
    }

    /// Every stored point reaches layer 0.
    pub proof fn lemma_point_facts(&self, p: int)
        requires
            self.wf(),
            0 <= p < self.num_points(),
        ensures
            1 <= self.layers_of(p),
            self.links_at(p, 0).len() <= self.cap(0),
    {
    }

    /// The entry holds the graph's highest layer; without one the graph
    /// is empty.
    pub proof fn lemma_entry_facts(&self)
        requires
            self.wf(),
        ensures
            match self.entry_spec() {
                Some(e) => (e.point as int) < self.num_points() && e.level as int + 1
                    == self.layers_of(e.point as int) && forall|p: int|
                    0 <= p < self.num_points() ==> #[trigger] self.layers_of(p) <= e.level as int
                        + 1,
                None => self.num_points() == 0,
            },
            1 <= self.m_spec(),
            1 <= self.m0_spec(),
    {
    }

    pub fn new(m: usize, m0: usize) -> (r: GraphLayers)
        requires
            1 <= m,
            1 <= m0,
        ensures
            r.wf(),
            r.num_points() == 0,
            r.m_spec() == m,
            r.m0_spec() == m0,
            r.entry_spec() is None,
    {
        GraphLayers { m, m0, links: Vec::new(), entry: None }
    }

    pub fn point_count(&self) -> (r: usize)
        ensures
            r as int == self.num_points(),
    {
        self.links.len()
    }

    pub fn point_layers(&self, p: PointOffsetType) -> (r: usize)
        requires
            0 <= (p as int) < self.num_points(),
        ensures
            r as int == self.layers_of(p as int),
    {
        self.links[p].len()
    }

    pub fn entry_point(&self) -> (r: Option<EntryPoint>)
        ensures
            r == self.entry_spec(),
    {
        self.entry
    }

    /// The neighbors of `p` on layer `l`, in list order.
    pub fn links_of(&self, p: PointOffsetType, l: usize) -> (r: &Vec<PointOffsetType>)
        requires
            0 <= (p as int) < self.num_points(),
            (l as int) < self.layers_of(p as int),
        ensures
            r@ == self.links_at(p as int, l as int),
    {
        &self.links[p][l]
    }

    /// Appends the next point with empty neighbor lists on layers
    /// `0..=level`; it becomes the entry when it is the first point or
    /// reaches above the current entry's layer.
    #[verifier::rlimit(60)]
    pub fn add_point(&mut self, level: usize)
        requires
            old(self).wf(),
            old(self).num_points() < usize::MAX,
            level < usize::MAX,
        ensures
            final(self).wf(),
            final(self).m_spec() == old(self).m_spec(),
            final(self).m0_spec() == old(self).m0_spec(),
            final(self).num_points() == old(self).num_points() + 1,
            final(self).layers_of(old(self).num_points()) == level + 1,
            forall|l: int|
                0 <= l <= level ==> (#[trigger] final(self).links_at(old(self).num_points(), l))
                    == Seq::<PointOffsetType>::empty(),
            forall|p: int|
                0 <= p < old(self).num_points() ==> #[trigger] final(self).layers_of(p) == old(
                self,
                ).layers_of(p),
            forall|p: int, l: int|
                0 <= p < old(self).num_points() && 0 <= l < old(self).layers_of(p) ==> (
                #[trigger] final(self).links_at(p, l)) == old(self).links_at(p, l),
            (final(self).entry_spec() matches Some(e2) && (e2.point as int) < final(self).num_points()),
            match old(self).entry_spec() {
                Some(e) => final(self).entry_spec() == if level as int > e.level as int {
                    Some(EntryPoint { point: old(self).num_points() as PointOffsetType, level })
                } else {
                    Some(e)
                },
                None => final(self).entry_spec() == Some(
                    EntryPoint { point: old(self).num_points() as PointOffsetType, level },
                ),
            },
    {
        let p = self.links.len();
        let mut layers: Vec<Vec<PointOffsetType>> = Vec::new();
        let mut l: usize = 0;
        while l < level + 1
            invariant
                l <= level + 1,
                level < usize::MAX,
                layers@.len() == l,
                forall|t: int|
                    0 <= t < l ==> (#[trigger] layers@[t]@) == Seq::<PointOffsetType>::empty(),
            decreases level + 1 - l,
        {
            layers.push(Vec::new());
            l = l + 1;
        }
        proof {
            assert(forall|t: int|
                0 <= t < layers@.len() ==> (#[trigger] layers@[t]@) == Seq::<
                    PointOffsetType,
                >::empty());
        }
        self.links.push(layers);
        proof {
            assert(self.num_points() == old(self).num_points() + 1);
            assert(self.links@[p as int]@ == layers@);
            assert(self.layers_of(p as int) == level + 1);
            assert(forall|q: int|
                0 <= q < old(self).num_points() ==> #[trigger] self.layers_of(q) == old(
                self,
                ).layers_of(q));
            assert(forall|q: int, l2: int|
                0 <= q < old(self).num_points() && 0 <= l2 < old(self).layers_of(q) ==> (
                #[trigger] self.links_at(q, l2)) == old(self).links_at(q, l2));
            assert(forall|l2: int|
                0 <= l2 <= level ==> (#[trigger] self.links_at(p as int, l2)) == Seq::<
                    PointOffsetType,
                >::empty());
        }
        match self.entry {
            None => {
                self.entry = Some(EntryPoint { point: p, level });
            }
            Some(e) => {
                if level > e.level {
                    self.entry = Some(EntryPoint { point: p, level });
                }
            }
        }
        proof {
            assert forall|q: int| 0 <= q < self.num_points() implies 1 <= #[trigger] self.layers_of(
                q,
            ) by {
                if q < old(self).num_points() {
                    assert(self.layers_of(q) == old(self).layers_of(q));
                }
            }
            assert forall|q: int, l2: int|
                0 <= q < self.num_points() && 0 <= l2 < self.layers_of(q) implies (
            #[trigger] self.links_at(q, l2)).len() <= self.cap(l2) by {
                if q < old(self).num_points() {
                    assert(self.links_at(q, l2) == old(self).links_at(q, l2));
                } else {
                    assert(self.links_at(q, l2) == Seq::<PointOffsetType>::empty());
                }
            }
            match self.entry {
                Some(e2) => {
                    assert((e2.point as int) < self.num_points());
                    assert(e2.level as int + 1 == self.layers_of(e2.point as int));
                    assert forall|q: int| 0 <= q < self.num_points() implies #[trigger] self.layers_of(
                        q,
                    ) <= e2.level as int + 1 by {
                        if q < old(self).num_points() {
                            assert(self.layers_of(q) == old(self).layers_of(q));
                        }
                    }
                }
                None => {
                    assert(false);
                }
            }
            assert forall|q: int, l2: int, j: int|
                0 <= q < self.num_points() && 0 <= l2 < self.layers_of(q) && 0 <= j
                    < self.links_at(q, l2).len() implies 0 <= (#[trigger] self.links_at(q, l2)[j])
                < self.num_points() && self.links_at(q, l2)[j] != q && l2 < self.layers_of(
                self.links_at(q, l2)[j] as int,
            ) by {
                if q < old(self).num_points() {
                    assert(self.links_at(q, l2) == old(self).links_at(q, l2));
                    assert(old(self).links_at(q, l2)[j] == self.links_at(q, l2)[j]);
                    let c = old(self).links_at(q, l2)[j] as int;
                    assert(self.layers_of(c) == old(self).layers_of(c));
                }
            }
            assert forall|q: int, l2: int, j: int|
                0 <= q < self.num_points() && 0 <= l2 < self.layers_of(q) && 0 <= j
                    < self.links_at(q, l2).len() implies ({
                let b = (#[trigger] self.links_at(q, l2)[j]) as int;
                self.links_at(b, l2).contains(q as PointOffsetType) || self.links_at(b, l2).len()
                    >= self.cap(l2)
            }) by {
                if q < old(self).num_points() {
                    assert(self.links_at(q, l2) == old(self).links_at(q, l2));
                    old(self).lemma_symmetric_or_full(q, l2, j);
                    let b = old(self).links_at(q, l2)[j] as int;
                    assert(self.links_at(b, l2) == old(self).links_at(b, l2));
                }
            }
        }
    }

    /// Links the freshly added point `a` to existing neighbor `b` on one
    /// layer, symmetrically: `b` enters `a`'s list, and `a` enters `b`'s,
    /// evicting `b`'s weakest neighbor if `b`'s list is already full and
    /// `a` scores better against `b` than that neighbor does.
    #[verifier::rlimit(100)]
    pub fn link_pair<V: VectorStorage>(
        &mut self,
        a: PointOffsetType,
        b: PointOffsetType,
        level: usize,
        storage: &V,
    )
        requires
            old(self).wf(),
            storage.storage_wf(),
            old(self).num_points() <= storage.vector_count_spec(),
            0 <= (a as int) < old(self).num_points(),
            0 <= (b as int) < old(self).num_points(),
            a != b,
            (level as int) < old(self).layers_of(a as int),
            (level as int) < old(self).layers_of(b as int),
            old(self).links_at(a as int, level as int).len() < old(self).cap(level as int),
            !old(self).links_at(a as int, level as int).contains(b),
        ensures
            final(self).wf(),
            final(self).m_spec() == old(self).m_spec(),
            final(self).m0_spec() == old(self).m0_spec(),
            final(self).num_points() == old(self).num_points(),
            final(self).entry_spec() == old(self).entry_spec(),
            forall|p: int|
                0 <= p < old(self).num_points() ==> #[trigger] final(self).layers_of(p) == old(
                self,
                ).layers_of(p),
            final(self).links_at(a as int, level as int) == old(self).links_at(
                a as int,
                level as int,
            ).push(b),
            final(self).links_at(b as int, level as int).len() >= old(self).links_at(
                b as int,
                level as int,
            ).len(),
            forall|p: int, l: int|
                0 <= p < old(self).num_points() && 0 <= l < old(self).layers_of(p) && !(p
                    == a as int && l == level as int) && !(p == b as int && l == level as int)
                    ==> (#[trigger] final(self).links_at(p, l)) == old(self).links_at(p, l),
    {
        let a_list = &mut self.links[a];
        let a_layer = &mut a_list[level];
        a_layer.push(b);
        let cap: usize = if level == 0 {
            self.m0
        } else {
            self.m
        };
        let ghost mid = *self;
        proof {
            assert(mid.links_at(a as int, level as int) == old(self).links_at(
                a as int,
                level as int,
            ).push(b));
            assert(forall|p: int, l: int|
                0 <= p < mid.num_points() && 0 <= l < mid.layers_of(p) && !(p == a as int && l
                    == level as int) ==> (#[trigger] mid.links_at(p, l)) == old(self).links_at(
                    p,
                    l,
                ));
        }
        let b_list = &mut self.links[b];
        let b_layer = &mut b_list[level];
        proof {
            assert(b_layer@ == mid.links_at(b as int, level as int));
            assert(mid.links_at(b as int, level as int) == old(self).links_at(
                b as int,
                level as int,
            ));
            assert forall|t: int| 0 <= t < b_layer@.len() implies 0 <= (#[trigger] b_layer@[t] as int)
                < old(self).num_points() by {
                assert(old(self).links_at(b as int, level as int)[t] == b_layer@[t]);
            }
        }
        if b_layer.len() < cap {
            b_layer.push(a);
        } else {
            // Full list: find the weakest existing neighbor of b.
            let n = b_layer.len();
            let new_score = storage.score_internal(b, a);
            let mut weakest: usize = 0;
            let mut weakest_score: i64 = storage.score_internal(b, b_layer[0]);
            let mut j: usize = 1;
            while j < n
                invariant
                    n == b_layer@.len(),
                    n >= 1,
                    1 <= j <= n,
                    weakest < n,
                    storage.storage_wf(),
                    old(self).wf(),
                    old(self).num_points() <= storage.vector_count_spec(),
                    (b as int) < old(self).num_points(),
                    (level as int) < old(self).layers_of(b as int),
                    b_layer@ == old(self).links_at(b as int, level as int),
                    forall|t: int|
                        0 <= t < b_layer@.len() ==> 0 <= (#[trigger] b_layer@[t] as int) < old(
                        self,
                        ).num_points(),
                decreases n - j,
            {
                let s = storage.score_internal(b, b_layer[j]);
                if s < weakest_score || (s == weakest_score && b_layer[j]
                    > b_layer[weakest]) {
                    weakest = j;
                    weakest_score = s;
                }
                j = j + 1;
            }
            if new_score > weakest_score || (new_score == weakest_score && a
                < b_layer[weakest]) {
                b_layer[weakest] = a;
            }
        }
        proof {
            let post = *self;
            let bl_old = old(self).links_at(b as int, level as int);
            let bl_new = post.links_at(b as int, level as int);
            assert(cap as int == post.cap(level as int));
            // Frame: b's list was extended by a while below capacity, or
            // was full and had at most one position overwritten with a.
            assert((bl_old.len() < post.cap(level as int) && bl_new == bl_old.push(a)) || (
            bl_old.len() >= post.cap(level as int) && bl_new.len() == bl_old.len() && forall|t: int|
                0 <= t < bl_old.len() ==> #[trigger] bl_new[t] == bl_old[t] || bl_new[t] == a));
            assert(bl_new.len() >= bl_old.len());
            assert(post.links_at(a as int, level as int) == mid.links_at(a as int, level as int));
            assert(post.links_at(a as int, level as int).contains(b)) by {
                assert(post.links_at(a as int, level as int).last() == b);
            }
            assert forall|p: int, l: int, j: int|
                0 <= p < post.num_points() && 0 <= l < post.layers_of(p) && 0 <= j < post.links_at(
                    p,
                    l,
                ).len() implies 0 <= (#[trigger] post.links_at(p, l)[j]) < post.num_points()
                && post.links_at(p, l)[j] != p && l < post.layers_of(
                post.links_at(p, l)[j] as int,
            ) by {
                if p == a as int && l == level as int {
                    if j < old(self).links_at(a as int, level as int).len() {
                        assert(old(self).links_at(p, l)[j] == post.links_at(p, l)[j]);
                    } else {
                        assert(post.links_at(p, l)[j] == b);
                    }
                } else if p == b as int && l == level as int {
                    if j >= old(self).links_at(p, l).len() || post.links_at(p, l)[j] != old(
                        self,
                    ).links_at(p, l)[j] {
                        assert(post.links_at(p, l)[j] == a);
                    }
                } else {
                    assert(post.links_at(p, l) == old(self).links_at(p, l));
                }
            }
            assert forall|p: int, l: int, j: int|
                0 <= p < post.num_points() && 0 <= l < post.layers_of(p) && 0 <= j < post.links_at(
                    p,
                    l,
                ).len() implies ({
                let c = (#[trigger] post.links_at(p, l)[j]) as int;
                post.links_at(c, l).contains(p as PointOffsetType) || post.links_at(c, l).len()
                    >= post.cap(l)
            }) by {
                let c = post.links_at(p, l)[j] as int;
                let new_a_link = p == a as int && l == level as int && j == old(self).links_at(
                    a as int,
                    level as int,
                ).len();
                let new_b_link = p == b as int && l == level as int && (j >= bl_old.len()
                    || post.links_at(p, l)[j] != bl_old[j]);
                if new_a_link {
                    // The new link a -> b: b's side now holds a, or stayed full.
                    assert(c == b as int);
                    if bl_new == bl_old.push(a) {
                        assert(bl_new.last() == a);
                        assert(bl_new.contains(a));
                    } else {
                        assert(bl_new.len() >= post.cap(l));
                    }
                } else if new_b_link {
                    // The new back link b -> a: a's list holds b.
                    assert(c == a as int);
                    assert(post.links_at(a as int, level as int).contains(b)) by {
                        assert(post.links_at(a as int, level as int).last() == b);
                    }
                } else {
                    // A link already present: its clause held before.
                    assert(post.links_at(p, l)[j] == old(self).links_at(p, l)[j]);
                    old(self).lemma_symmetric_or_full(p, l, j);
                    if old(self).links_at(c, l).len() >= post.cap(l) {
                        // The old list was full; no list shrinks.
                        if c == a as int && l == level as int {
                            assert(post.links_at(c, l).len() >= post.cap(l));
                        } else if c == b as int && l == level as int {
                            assert(post.links_at(c, l).len() >= post.cap(l));
                        } else {
                            assert(post.links_at(c, l) == old(self).links_at(c, l));
                        }
                    } else {
                        assert(old(self).links_at(c, l).contains(p as PointOffsetType));
                        if c == a as int && l == level as int {
                            // a's list was extended: membership is kept.
                            lemma_contains_transfer(
                                old(self).links_at(c, l),
                                post.links_at(c, l),
                                p as PointOffsetType,
                            );
                        } else if c == b as int && l == level as int {
                            if bl_new == bl_old.push(a) {
                                lemma_contains_transfer(bl_old, bl_new, p as PointOffsetType);
                            } else {
                                // Eviction only happens on a full list.
                                assert(bl_new.len() >= post.cap(l));
                            }
                        } else {
                            assert(post.links_at(c, l) == old(self).links_at(c, l));
                        }
                    }
                }
            }
            assert forall|p: int|
                0 <= p < post.num_points() implies #[trigger] post.layers_of(p) == old(
                self,
            ).layers_of(p) by {
                assert(post.layers_of(p) == old(self).layers_of(p));
            }
            assert forall|p: int, l: int|
                0 <= p < post.num_points() && 0 <= l < post.layers_of(p) implies (
            #[trigger] post.links_at(p, l)).len() <= post.cap(l) by {
                if p == a as int && l == level as int {
                    assert(post.links_at(p, l) == old(self).links_at(p, l).push(b));
                } else if p == b as int && l == level as int {
                    if bl_old.len() < post.cap(level as int) && bl_new == bl_old.push(a) {
                        assert(bl_new.len() == bl_old.len() + 1);
                    } else {
                        assert(bl_new.len() == bl_old.len());
                    }
                } else {
                    assert(post.links_at(p, l) == old(self).links_at(p, l));
                }
            }
        }
    }
}

/// An element stays present when a list is either unchanged, extended, or
/// has one other position overwritten.
proof fn lemma_contains_transfer(
    pre: Seq<PointOffsetType>,
    post: Seq<PointOffsetType>,
    x: PointOffsetType,
)
    requires
        pre.contains(x),
        post.len() >= pre.len(),
        forall|t: int| 0 <= t < pre.len() ==> post[t] == pre[t] || !(pre[t] == x),
    ensures
        post.contains(x),
{
    let t = choose|t: int| 0 <= t < pre.len() && pre[t] == x;
    assert(post[t] == x);
}

} // verus!
