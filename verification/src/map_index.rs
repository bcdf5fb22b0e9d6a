use vstd::prelude::*;

use crate::types::{
    CardinalityEstimation, FieldCondition, MapKey, OperationError, OperationResult, PayloadType,
    PointOffsetType, PrimaryCondition, ValueKind, keys_equal,
};

verus! {

/// One value entry: the key and the ids of the points holding it,
/// in insertion order.
pub struct MapEntry {
    pub key: MapKey,
    pub ids: Vec<PointOffsetType>,
}

/// The ids recorded under key `k` across `entries`, in order.
pub open spec fn ids_in(entries: Seq<MapEntry>, k: (int, Seq<char>, int)) -> Seq<PointOffsetType>
    decreases entries.len(),
{
    if entries.len() == 0 {
        Seq::empty()
    } else {
        (if entries[0].key.view_key() == k {
            entries[0].ids@
        } else {
            Seq::empty()
        }) + ids_in(entries.drop_first(), k)
    }
}

/// How many of the keys in `ks` denote the value `k`.
pub open spec fn count_kv(ks: Seq<(int, Seq<char>, int)>, k: (int, Seq<char>, int)) -> nat
    decreases ks.len(),
{
    if ks.len() == 0 {
        0
    } else {
        count_kv(ks.drop_last(), k) + if ks.last() == k {
            1nat
        } else {
            0nat
        }
    }
}

/// The value views a payload contributes, one per occurrence.
pub open spec fn payload_keys(p: PayloadType) -> Seq<(int, Seq<char>, int)> {
    match p {
        PayloadType::Keyword(ss) => ss@.map_values(|s: String| (0int, s@, 0int)),
        PayloadType::Integer(is) => is@.map_values(|i: i64| (1int, Seq::<char>::empty(), i as int)),
    }
}

pub open spec fn payload_kind(p: PayloadType) -> ValueKind {
    match p {
        PayloadType::Keyword(_) => ValueKind::Keyword,
        PayloadType::Integer(_) => ValueKind::Integer,
    }
}

pub open spec fn kind_tag(kind: ValueKind) -> int {
    match kind {
        ValueKind::Keyword => 0,
        ValueKind::Integer => 1,
    }
}

/// Exact-match inverted index over one payload field: value to the ordered
/// sequence of point ids added under it.  One instance is monomorphic:
/// it indexes keyword values or integer values, decided at creation.
pub struct PersistedMapIndex {
    kind: ValueKind,
    entries: Vec<MapEntry>,
}

/// A finalized index, tagged with the value type it indexes.
pub enum FieldIndex {
    KeywordIndex(PersistedMapIndex),
    IntMapIndex(PersistedMapIndex),
}

proof fn lemma_ids_in_absent(entries: Seq<MapEntry>, k: (int, Seq<char>, int))
    requires
        forall|i: int| 0 <= i < entries.len() ==> (#[trigger] entries[i].key.view_key()) != k,
    ensures
        ids_in(entries, k) == Seq::<PointOffsetType>::empty(),
    decreases entries.len(),
{
    if entries.len() > 0 {
        lemma_ids_in_absent(entries.drop_first(), k);
        assert(ids_in(entries, k) =~= Seq::<PointOffsetType>::empty());
    }
}

proof fn lemma_ids_in_found(entries: Seq<MapEntry>, k: (int, Seq<char>, int), i: int)
    requires
        0 <= i < entries.len(),
        entries[i].key.view_key() == k,
        forall|a: int, b: int|
            0 <= a < b < entries.len() ==> (#[trigger] entries[a].key.view_key())
                != (#[trigger] entries[b].key.view_key()),
    ensures
        ids_in(entries, k) == entries[i].ids@,
    decreases entries.len(),
{
    if i == 0 {
        assert(forall|j: int|
            0 <= j < entries.drop_first().len() ==> (#[trigger] entries.drop_first()[j].key.view_key())
                != k);
        lemma_ids_in_absent(entries.drop_first(), k);
        assert(ids_in(entries, k) =~= entries[0].ids@);
    } else {
        lemma_ids_in_found(entries.drop_first(), k, i - 1);
        assert(ids_in(entries, k) =~= entries[i].ids@);
    }
}

impl PersistedMapIndex {
    /// The ids held under value `k`, in insertion order.
    pub closed spec fn ids_of(&self, k: (int, Seq<char>, int)) -> Seq<PointOffsetType> {
        ids_in(self.entries@, k)
    }

    /// The exact number of points holding value `k`.
    pub open spec fn card_of(&self, k: (int, Seq<char>, int)) -> nat {
        self.ids_of(k).len()
    }

    pub closed spec fn kind_spec(&self) -> ValueKind {
        self.kind
    }

    /// Well-formed: one entry per value, every key of the declared type.
    pub closed spec fn wf(&self) -> bool {
        &&& forall|a: int, b: int|
            0 <= a < b < self.entries@.len() ==> (#[trigger] self.entries@[a].key.view_key())
                != (#[trigger] self.entries@[b].key.view_key())
        &&& forall|i: int|
            0 <= i < self.entries@.len() ==> (#[trigger] self.entries@[i].key.kind_spec())
                == self.kind
    }

    /// An exact-match condition is serviced by this index only when it
    /// tests a value of the index's declared type.
    pub open spec fn applicable_key(&self, c: FieldCondition) -> Option<(int, Seq<char>, int)> {
        match c.condition_key() {
            Some(k) => if k.0 == kind_tag(self.kind_spec()) {
                Some(k)
            } else {
                None
            },
            None => None,
        }
    }

    pub fn new(kind: ValueKind) -> (r: PersistedMapIndex)
        ensures
            r.wf(),
            r.kind_spec() == kind,
            forall|k: (int, Seq<char>, int)| #[trigger] r.ids_of(k) == Seq::<PointOffsetType>::empty(),
    {
        PersistedMapIndex { kind, entries: Vec::new() }
    }

    fn find_entry(&self, value: &MapKey) -> (r: Option<usize>)
        ensures
            match r {
                Some(i) => i < self.entries@.len() && self.entries@[i as int].key.view_key()
                    == value.view_key(),
                None => forall|i: int|
                    0 <= i < self.entries@.len() ==> (#[trigger] self.entries@[i].key.view_key())
                        != value.view_key(),
            },
    {
        let n = self.entries.len();
        let mut i: usize = 0;
        while i < n
            invariant
                n == self.entries@.len(),
                i <= n,
                forall|j: int|
                    0 <= j < i ==> (#[trigger] self.entries@[j].key.view_key())
                        != value.view_key(),
            decreases n - i,
        {
            if keys_equal(&self.entries[i].key, value) {
                return Some(i);
            }
            i = i + 1;
        }
        None
    }

    /// The exact count of points holding `value`, as a tight bracket:
    /// `min == exp == max`, since the index is precise.
    pub fn match_cardinality(&self, value: &MapKey) -> (r: CardinalityEstimation)
        requires
            self.wf(),
        ensures
            r.min == self.card_of(value.view_key()),
            r.exp == self.card_of(value.view_key()),
            r.max == self.card_of(value.view_key()),
            r.primary_clauses@.len() == 0,
    {
        let values_count: usize = match self.find_entry(value) {
            None => {
                proof {
                    lemma_ids_in_absent(self.entries@, value.view_key());
                }
                0
            }
            Some(i) => {
                proof {
                    lemma_ids_in_found(self.entries@, value.view_key(), i as int);
                }
                self.entries[i].ids.len()
            }
        };
        CardinalityEstimation {
            primary_clauses: Vec::new(),
            min: values_count,
            exp: values_count,
            max: values_count,
        }
    }

    /// Appends `idx` under every value in `values`, in order: one more
    /// occurrence of `idx` per occurrence of the value.
    pub fn add_many(&mut self, idx: PointOffsetType, values: &Vec<MapKey>)
        requires
            old(self).wf(),
            forall|i: int|
                0 <= i < values@.len() ==> (#[trigger] values@[i].kind_spec())
                    == old(self).kind_spec(),
        ensures
            final(self).wf(),
            final(self).kind_spec() == old(self).kind_spec(),
            forall|k: (int, Seq<char>, int)| #[trigger] final(self).ids_of(k) == old(self).ids_of(
                k,
            ) + Seq::new(count_kv(values@.map_values(|v: MapKey| v.view_key()), k), |t: int| idx),
    {
        let ghost all = values@.map_values(|v: MapKey| v.view_key());
        let n = values.len();
        let mut j: usize = 0;
        while j < n
            invariant
                n == values@.len(),
                j <= n,
                self.wf(),
                self.kind_spec() == old(self).kind_spec(),
                forall|i: int|
                    0 <= i < values@.len() ==> (#[trigger] values@[i].kind_spec())
                        == old(self).kind_spec(),
                all == values@.map_values(|v: MapKey| v.view_key()),
                forall|k: (int, Seq<char>, int)| #[trigger] self.ids_of(k) == old(self).ids_of(k)
                    + Seq::new(count_kv(all.subrange(0, j as int), k), |t: int| idx),
            decreases n - j,
        {
            let ghost pre = *self;
            let ghost kv = values@[j as int].view_key();
            let value = &values[j];
            match self.find_entry(value) {
                Some(i) => {
                    proof {
                        lemma_ids_in_found(self.entries@, kv, i as int);
                    }
                    let entry = &mut self.entries[i];
                    entry.ids.push(idx);
                    proof {
                        lemma_update_effect(pre.entries@, self.entries@, i as int, kv, idx);
                    }
                }
                None => {
                    let mut ids: Vec<PointOffsetType> = Vec::new();
                    ids.push(idx);
                    let key = value.clone();
                    self.entries.push(MapEntry { key, ids });
                    proof {
                        lemma_append_effect(pre.entries@, self.entries@, kv, idx);
                    }
                }
            }
            proof {
                lemma_step_counts(all, j as int, kv);
                assert forall|k: (int, Seq<char>, int)| #[trigger] self.ids_of(k) == old(
                    self,
                ).ids_of(k) + Seq::new(
                    count_kv(all.subrange(0, j + 1 as int), k),
                    |t: int| idx,
                ) by {
                    if k == kv {
                        assert(self.ids_of(k) == pre.ids_of(k).push(idx));
                        assert(pre.ids_of(k) == old(self).ids_of(k) + Seq::new(
                            count_kv(all.subrange(0, j as int), k),
                            |t: int| idx,
                        ));
                        assert(self.ids_of(k) =~= old(self).ids_of(k) + Seq::new(
                            count_kv(all.subrange(0, j as int), k) + 1,
                            |t: int| idx,
                        ));
                    } else {
                        assert(self.ids_of(k) == pre.ids_of(k));
                    }
                }
            }
            j = j + 1;
        }
        proof {
            assert(all.subrange(0, n as int) =~= all);
        }
    }

    /// The ids recorded under `value`, in insertion order; empty when the
    /// value was never added.
    pub fn get_iterator(&self, value: &MapKey) -> (r: Vec<PointOffsetType>)
        requires
            self.wf(),
        ensures
            r@ == self.ids_of(value.view_key()),
    {
        match self.find_entry(value) {
            None => {
                proof {
                    lemma_ids_in_absent(self.entries@, value.view_key());
                }
                Vec::new()
            }
            Some(i) => {
                proof {
                    lemma_ids_in_found(self.entries@, value.view_key(), i as int);
                }
                let ids = &self.entries[i].ids;
                let mut out: Vec<PointOffsetType> = Vec::new();
                let mut t: usize = 0;
                let m = ids.len();
                while t < m
                    invariant
                        m == ids@.len(),
                        t <= m,
                        out@ == ids@.subrange(0, t as int),
                    decreases m - t,
                {
                    out.push(ids[t]);
                    proof {
                        assert(out@ =~= ids@.subrange(0, t + 1 as int));
                    }
                    t = t + 1;
                }
                proof {
                    assert(ids@.subrange(0, m as int) =~= ids@);
                }
                out
            }
        }
    }

    /// Matching ids for an exact-match condition on this field, or `None`
    /// when the condition is not such a test on this index's value type.
    pub fn filter(&self, condition: &FieldCondition) -> (r: Option<Vec<PointOffsetType>>)
        requires
            self.wf(),
        ensures
            match r {
                Some(v) => self.applicable_key(*condition) matches Some(k) && v@ == self.ids_of(k),
                None => self.applicable_key(*condition) is None,
            },
    {
        match &condition.field_match {
            None => None,
            Some(m) => match self.kind {
                ValueKind::Keyword => match &m.keyword {
                    Some(s) => {
                        let key = MapKey::Keyword(s.clone());
                        Some(self.get_iterator(&key))
                    }
                    None => None,
                },
                ValueKind::Integer => match (&m.keyword, &m.integer) {
                    (None, Some(i)) => {
                        let key = MapKey::Integer(*i);
                        Some(self.get_iterator(&key))
                    }
                    _ => None,
                },
            },
        }
    }

    /// The exact cardinality of an exact-match condition on this field,
    /// recording the condition as a usable primary clause; `None` when the
    /// condition is not such a test on this index's value type.
    pub fn estimate_cardinality(&self, condition: &FieldCondition) -> (r: Option<
        CardinalityEstimation,
    >)
        requires
            self.wf(),
        ensures
            match r {
                Some(est) => {
                    &&& self.applicable_key(*condition) matches Some(k)
                    &&& est.min == self.card_of(k)
                    &&& est.exp == self.card_of(k)
                    &&& est.max == self.card_of(k)
                    &&& est.primary_clauses@.len() == 1
                    &&& est.primary_clauses@[0] matches PrimaryCondition::Condition(c)
                        && c.condition_key() == condition.condition_key() && c.key@
                        == condition.key@
                },
                None => self.applicable_key(*condition) is None,
            },
    {
        let key: Option<MapKey> = match &condition.field_match {
            None => None,
            Some(m) => match self.kind {
                ValueKind::Keyword => match &m.keyword {
                    Some(s) => Some(MapKey::Keyword(s.clone())),
                    None => None,
                },
                ValueKind::Integer => match (&m.keyword, &m.integer) {
                    (None, Some(i)) => Some(MapKey::Integer(*i)),
                    _ => None,
                },
            },
        };
        match key {
            None => None,
            Some(k) => {
                let mut estimation = self.match_cardinality(&k);
                estimation.primary_clauses.push(PrimaryCondition::Condition(condition.clone()));
                Some(estimation)
            }
        }
    }

    /// Appends `id` under every value the payload holds.  Fails with a
    /// type mismatch, changing nothing, when the payload's value type is
    /// not the one this index was declared over.
    pub fn add(&mut self, id: PointOffsetType, value: &PayloadType) -> (r: OperationResult<()>)
        requires
            old(self).wf(),
        ensures
            final(self).wf(),
            final(self).kind_spec() == old(self).kind_spec(),
            payload_kind(*value) == old(self).kind_spec() <==> r is Ok,
            r is Err ==> (r matches Err(e) && e == OperationError::TypeMismatch && *final(self)
                == *old(self)),
            r is Ok ==> forall|k: (int, Seq<char>, int)| #[trigger] final(self).ids_of(k) == old(
                self,
            ).ids_of(k) + Seq::new(count_kv(payload_keys(*value), k), |t: int| id),
    {
        match value {
            PayloadType::Keyword(ss) => {
                match self.kind {
                    ValueKind::Keyword => {}
                    ValueKind::Integer => {
                        return Err(OperationError::TypeMismatch);
                    }
                }
                assert(self.kind_spec() == ValueKind::Keyword);
                let mut keys: Vec<MapKey> = Vec::new();
                let n = ss.len();
                let mut i: usize = 0;
                while i < n
                    invariant
                        n == ss@.len(),
                        i <= n,
                        keys@.len() == i,
                        forall|t: int|
                            0 <= t < i ==> (#[trigger] keys@[t].view_key()) == (
                            0int,
                            ss@[t]@,
                            0int,
                            ),
                        forall|t: int|
                            0 <= t < i ==> (#[trigger] keys@[t].kind_spec()) == ValueKind::Keyword,
                    decreases n - i,
                {
                    let s: String = ss[i].clone();
                    assert(s@ == ss@[i as int]@);
                    keys.push(MapKey::Keyword(s));
                    i = i + 1;
                }
                proof {
                    assert(keys@.map_values(|v: MapKey| v.view_key()) =~= payload_keys(*value));
                }
                self.add_many(id, &keys);
                Ok(())
            }
            PayloadType::Integer(is) => {
                match self.kind {
                    ValueKind::Integer => {}
                    ValueKind::Keyword => {
                        return Err(OperationError::TypeMismatch);
                    }
                }
                assert(self.kind_spec() == ValueKind::Integer);
                let mut keys: Vec<MapKey> = Vec::new();
                let n = is.len();
                let mut i: usize = 0;
                while i < n
                    invariant
                        n == is@.len(),
                        i <= n,
                        keys@.len() == i,
                        forall|t: int|
                            0 <= t < i ==> (#[trigger] keys@[t].view_key()) == (
                            1int,
                            Seq::<char>::empty(),
                            is@[t] as int,
                            ),
                        forall|t: int|
                            0 <= t < i ==> (#[trigger] keys@[t].kind_spec()) == ValueKind::Integer,
                    decreases n - i,
                {
                    keys.push(MapKey::Integer(is[i]));
                    i = i + 1;
                }
                proof {
                    assert(keys@.map_values(|v: MapKey| v.view_key()) =~= payload_keys(*value));
                }
                self.add_many(id, &keys);
                Ok(())
            }
        }
    }

    /// Finalizes the accumulated mapping into an immutable index, emptying
    /// this builder: a second `build` yields an index with no entries.
    pub fn build(&mut self) -> (r: FieldIndex)
        requires
            old(self).wf(),
        ensures
            final(self).wf(),
            final(self).kind_spec() == old(self).kind_spec(),
            forall|k: (int, Seq<char>, int)| #[trigger] final(self).ids_of(k)
                == Seq::<PointOffsetType>::empty(),
            match r {
                FieldIndex::KeywordIndex(inner) => old(self).kind_spec() == ValueKind::Keyword
                    && inner.wf() && inner.kind_spec() == ValueKind::Keyword && forall|
                    k: (int, Seq<char>, int),
                |
                    #[trigger] inner.ids_of(k) == old(self).ids_of(k),
                FieldIndex::IntMapIndex(inner) => old(self).kind_spec() == ValueKind::Integer
                    && inner.wf() && inner.kind_spec() == ValueKind::Integer && forall|
                    k: (int, Seq<char>, int),
                |
                    #[trigger] inner.ids_of(k) == old(self).ids_of(k),
            },
    {
        let mut data: Vec<MapEntry> = Vec::new();
        core::mem::swap(&mut data, &mut self.entries);
        match self.kind {
            ValueKind::Keyword => FieldIndex::KeywordIndex(
                PersistedMapIndex { kind: ValueKind::Keyword, entries: data },
            ),
            ValueKind::Integer => FieldIndex::IntMapIndex(
                PersistedMapIndex { kind: ValueKind::Integer, entries: data },
            ),
        }
    }
}

/// After appending one id under an existing entry, that value's id
/// sequence grows by the id and every other value's is unchanged.
proof fn lemma_update_effect(
    pre: Seq<MapEntry>,
    post: Seq<MapEntry>,
    i: int,
    kv: (int, Seq<char>, int),
    idx: PointOffsetType,
)
    requires
        0 <= i < pre.len(),
        post.len() == pre.len(),
        forall|t: int| 0 <= t < pre.len() && t != i ==> post[t] == pre[t],
        post[i].key.view_key() == pre[i].key.view_key(),
        post[i].key.kind_spec() == pre[i].key.kind_spec(),
        pre[i].key.view_key() == kv,
        post[i].ids@ == pre[i].ids@.push(idx),
        forall|a: int, b: int|
            0 <= a < b < pre.len() ==> (#[trigger] pre[a].key.view_key()) != (
            #[trigger] pre[b].key.view_key()),
    ensures
        forall|k: (int, Seq<char>, int)| #[trigger] ids_in(post, k) == if k == kv {
            ids_in(pre, k).push(idx)
        } else {
            ids_in(pre, k)
        },
{
    assert(forall|t: int|
        0 <= t < post.len() ==> (#[trigger] post[t].key.view_key()) == pre[t].key.view_key());
    assert forall|k: (int, Seq<char>, int)| #[trigger] ids_in(post, k) == if k == kv {
        ids_in(pre, k).push(idx)
    } else {
        ids_in(pre, k)
    } by {
        if k == kv {
            lemma_ids_in_found(pre, k, i);
            lemma_ids_in_found(post, k, i);
        } else {
            if exists|t: int| 0 <= t < pre.len() && (#[trigger] pre[t].key.view_key()) == k {
                let t = choose|t: int|
                    0 <= t < pre.len() && (#[trigger] pre[t].key.view_key()) == k;
                lemma_ids_in_found(pre, k, t);
                lemma_ids_in_found(post, k, t);
            } else {
                lemma_ids_in_absent(pre, k);
                lemma_ids_in_absent(post, k);
            }
        }
    }
}

/// After appending a fresh entry for a value not yet present, that value
/// maps to exactly the new id and every other value is unchanged.
proof fn lemma_append_effect(
    pre: Seq<MapEntry>,
    post: Seq<MapEntry>,
    kv: (int, Seq<char>, int),
    idx: PointOffsetType,
)
    requires
        post.len() == pre.len() + 1,
        forall|t: int| 0 <= t < pre.len() ==> post[t] == pre[t],
        post[pre.len() as int].key.view_key() == kv,
        post[pre.len() as int].ids@ == seq![idx],
        forall|i: int| 0 <= i < pre.len() ==> (#[trigger] pre[i].key.view_key()) != kv,
        forall|a: int, b: int|
            0 <= a < b < pre.len() ==> (#[trigger] pre[a].key.view_key()) != (
            #[trigger] pre[b].key.view_key()),
    ensures
        forall|k: (int, Seq<char>, int)| #[trigger] ids_in(post, k) == if k == kv {
            ids_in(pre, k).push(idx)
        } else {
            ids_in(pre, k)
        },
{
    assert forall|k: (int, Seq<char>, int)| #[trigger] ids_in(post, k) == if k == kv {
        ids_in(pre, k).push(idx)
    } else {
        ids_in(pre, k)
    } by {
        if k == kv {
            lemma_ids_in_absent(pre, k);
            lemma_ids_in_found(post, k, pre.len() as int);
            assert(ids_in(pre, k).push(idx) =~= seq![idx]);
        } else {
            if exists|t: int| 0 <= t < pre.len() && (#[trigger] pre[t].key.view_key()) == k {
                let t = choose|t: int|
                    0 <= t < pre.len() && (#[trigger] pre[t].key.view_key()) == k;
                lemma_ids_in_found(pre, k, t);
                lemma_ids_in_found(post, k, t);
            } else {
                lemma_ids_in_absent(pre, k);
                lemma_ids_in_absent(post, k);
            }
        }
    }
}

/// The estimate and the filter agree: the exact count an estimate
/// reports for a value is precisely how many ids the filter hands out
/// for it, for every index state and value.
pub proof fn lemma_cardinality_matches_filter(ix: PersistedMapIndex, k: (int, Seq<char>, int))
    ensures
        ix.card_of(k) == ix.ids_of(k).len(),
{
}

/// Single-use finalize: a builder that was emptied — as `build` leaves it
/// — reports zero cardinality for every value, so a second `build` yields
/// an index with empty cardinality everywhere.
pub proof fn lemma_second_build_empty(b: PersistedMapIndex, k: (int, Seq<char>, int))
    requires
        forall|k2: (int, Seq<char>, int)| #[trigger] b.ids_of(k2) == Seq::<PointOffsetType>::empty(),
    ensures
        b.card_of(k) == 0,
{
    assert(b.ids_of(k) == Seq::<PointOffsetType>::empty());
}

/// Extending the processed prefix by one key raises that key's count by
/// one and leaves every other count unchanged.
proof fn lemma_step_counts(all: Seq<(int, Seq<char>, int)>, j: int, kv: (int, Seq<char>, int))
    requires
        0 <= j < all.len(),
        all[j] == kv,
    ensures
        forall|k: (int, Seq<char>, int)| #[trigger] count_kv(all.subrange(0, j + 1), k) == count_kv(
            all.subrange(0, j),
            k,
        ) + if k == kv {
            1nat
        } else {
            0nat
        },
{
    assert(all.subrange(0, j + 1).drop_last() =~= all.subrange(0, j));
    assert(all.subrange(0, j + 1).last() == kv);
}

} // verus!
