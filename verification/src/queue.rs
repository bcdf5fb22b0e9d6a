use vstd::prelude::*;

use crate::types::ScoredPointOffset;

verus! {

/// `a` is strictly nearer than `b`: higher score, ties broken by the
/// smaller point id for determinism.
pub open spec fn beats(a: ScoredPointOffset, b: ScoredPointOffset) -> bool {
    a.score > b.score || (a.score == b.score && a.idx < b.idx)
}

pub open spec fn beats_eq(a: ScoredPointOffset, b: ScoredPointOffset) -> bool {
    beats(a, b) || a == b
}

/// Best-first: every earlier element beats or equals every later one.
pub open spec fn ordered(s: Seq<ScoredPointOffset>) -> bool {
    forall|i: int, j: int| 0 <= i < j < s.len() ==> beats_eq(#[trigger] s[i], #[trigger] s[j])
}

/// Where a new element lands in a best-first sequence.
pub open spec fn insert_sorted(s: Seq<ScoredPointOffset>, x: ScoredPointOffset) -> Seq<
    ScoredPointOffset,
>
    decreases s.len(),
{
    if s.len() == 0 {
        seq![x]
    } else if beats(x, s[0]) {
        seq![x] + s
    } else {
        seq![s[0]] + insert_sorted(s.drop_first(), x)
    }
}

/// The contents after pushing `x` on contents `s` of a queue bounded by
/// `cap`: the new element takes its rank, and whatever ranks beyond `cap`
/// is dropped.
pub open spec fn push_model(s: Seq<ScoredPointOffset>, x: ScoredPointOffset, cap: int) -> Seq<
    ScoredPointOffset,
> {
    let t = insert_sorted(s, x);
    if t.len() <= cap {
        t
    } else {
        t.subrange(0, cap)
    }
}

pub proof fn lemma_insert_sorted_len(s: Seq<ScoredPointOffset>, x: ScoredPointOffset)
    ensures
        insert_sorted(s, x).len() == s.len() + 1,
    decreases s.len(),
{
    if s.len() > 0 && !beats(x, s[0]) {
        lemma_insert_sorted_len(s.drop_first(), x);
    }
}

/// Inserting keeps the best-first order.
pub proof fn lemma_insert_sorted_ordered(s: Seq<ScoredPointOffset>, x: ScoredPointOffset)
    requires
        ordered(s),
    ensures
        ordered(insert_sorted(s, x)),
    decreases s.len(),
{
    lemma_insert_sorted_len(s, x);
    if s.len() == 0 {
    } else if beats(x, s[0]) {
    } else {
        assert(ordered(s.drop_first()));
        lemma_insert_sorted_ordered(s.drop_first(), x);
        lemma_insert_sorted_elems(s.drop_first(), x);
        let t = insert_sorted(s, x);
        let rest = insert_sorted(s.drop_first(), x);
        assert forall|i: int, j: int| 0 <= i < j < t.len() implies beats_eq(t[i], t[j]) by {
            if i == 0 {
                assert(t[j] == rest[j - 1]);
                if t[j] == x {
                    assert(beats_eq(s[0], x));
                } else {
                    assert(exists|q: int| 0 <= q < s.drop_first().len() && s.drop_first()[q] == t[j]);
                    let q = choose|q: int|
                        0 <= q < s.drop_first().len() && s.drop_first()[q] == t[j];
                    assert(beats_eq(s[0], s[q + 1]));
                }
            } else {
                assert(t[i] == rest[i - 1] && t[j] == rest[j - 1]);
            }
        }
    }
}

/// Every element of the inserted sequence is the new element or one of
/// the old ones.
pub proof fn lemma_insert_sorted_elems(s: Seq<ScoredPointOffset>, x: ScoredPointOffset)
    ensures
        forall|i: int|
            0 <= i < insert_sorted(s, x).len() ==> (#[trigger] insert_sorted(s, x)[i]) == x
                || exists|q: int| 0 <= q < s.len() && s[q] == insert_sorted(s, x)[i],
    decreases s.len(),
{
    lemma_insert_sorted_len(s, x);
    if s.len() == 0 {
    } else if beats(x, s[0]) {
    } else {
        lemma_insert_sorted_elems(s.drop_first(), x);
        let t = insert_sorted(s, x);
        let rest = insert_sorted(s.drop_first(), x);
        assert forall|i: int| 0 <= i < t.len() implies t[i] == x || exists|q: int|
            0 <= q < s.len() && s[q] == t[i] by {
            if i == 0 {
                assert(s[0] == t[0]);
            } else {
                assert(t[i] == rest[i - 1]);
                if rest[i - 1] != x {
                    let q = choose|q: int|
                        0 <= q < s.drop_first().len() && s.drop_first()[q] == rest[i - 1];
                    assert(s[q + 1] == t[i]);
                }
            }
        }
    }
}

/// In a best-first sequence, everything kept by the bound beats or equals
/// everything the bound drops: a bounded queue never discards an element
/// nearer than one it keeps.
pub proof fn lemma_retained_dominate(s: Seq<ScoredPointOffset>, x: ScoredPointOffset, cap: int)
    requires
        ordered(s),
        0 <= cap,
    ensures
        forall|i: int, j: int|
            0 <= i < push_model(s, x, cap).len() && cap <= j < insert_sorted(s, x).len()
                ==> beats_eq(#[trigger] push_model(s, x, cap)[i], #[trigger] insert_sorted(s, x)[j]),
{
    lemma_insert_sorted_ordered(s, x);
    lemma_insert_sorted_len(s, x);
}

/// Bounded priority structure over scored point ids, kept best-first;
/// pushing beyond the bound drops the weakest element.
pub struct FixedLengthPriorityQueue {
    items: Vec<ScoredPointOffset>,
    capacity: usize,
}

impl FixedLengthPriorityQueue {
    pub closed spec fn view(&self) -> Seq<ScoredPointOffset> {
        self.items@
    }

    pub closed spec fn cap_spec(&self) -> int {
        self.capacity as int
    }

    pub closed spec fn wf(&self) -> bool {
        &&& ordered(self.items@)
        &&& self.items@.len() <= self.capacity
        &&& self.capacity >= 1
    }

    /// Order and bound, stated publicly so callers can rely on them.
    pub proof fn lemma_wf(&self)
        requires
            self.wf(),
        ensures
            ordered(self@),
            self@.len() <= self.cap_spec(),
            self.cap_spec() >= 1,
    {
    }

    pub fn new(capacity: usize) -> (r: FixedLengthPriorityQueue)
        requires
            capacity >= 1,
        ensures
            r.wf(),
            r@ == Seq::<ScoredPointOffset>::empty(),
            r.cap_spec() == capacity,
    {
        FixedLengthPriorityQueue { items: Vec::new(), capacity }
    }

    pub fn len(&self) -> (r: usize)
        ensures
            r == self@.len(),
    {
        self.items.len()
    }

    pub fn is_full(&self) -> (r: bool)
        ensures
            r == (self@.len() >= self.cap_spec()),
    {
        self.items.len() >= self.capacity
    }

    /// The weakest element currently kept.
    pub fn worst(&self) -> (r: ScoredPointOffset)
        requires
            self@.len() > 0,
        ensures
            r == self@.last(),
    {
        self.items[self.items.len() - 1]
    }

    /// Removes and returns the nearest element.
    pub fn pop_best(&mut self) -> (r: Option<ScoredPointOffset>)
        requires
            old(self).wf(),
        ensures
            final(self).wf(),
            final(self).cap_spec() == old(self).cap_spec(),
            match r {
                Some(x) => old(self)@.len() > 0 && x == old(self)@[0] && final(self)@ == old(
                    self,
                )@.drop_first(),
                None => old(self)@.len() == 0 && final(self)@ == old(self)@,
            },
    {
        if self.items.len() == 0 {
            return None;
        }
        let x = self.items.remove(0);
        proof {
            assert(self.items@ =~= old(self).items@.drop_first());
        }
        Some(x)
    }

    /// Ranks the new element among the kept ones; past the bound the
    /// weakest is dropped.
    pub fn push(&mut self, x: ScoredPointOffset)
        requires
            old(self).wf(),
        ensures
            final(self).wf(),
            final(self).cap_spec() == old(self).cap_spec(),
            final(self)@ == push_model(old(self)@, x, old(self).cap_spec()),
    {
        proof {
            lemma_insert_sorted_len(self.items@, x);
            lemma_insert_sorted_ordered(self.items@, x);
        }
        let n = self.items.len();
        let mut p: usize = 0;
        while p < n && !(x.score > self.items[p].score || (x.score == self.items[p].score && x.idx
            < self.items[p].idx))
            invariant
                n == self.items@.len(),
                p <= n,
                forall|i: int| 0 <= i < p ==> beats_eq(#[trigger] self.items@[i], x),
            decreases n - p,
        {
            p = p + 1;
        }
        proof {
            lemma_insert_at(self.items@, x, p as int);
        }
        self.items.insert(p, x);
        if self.items.len() > self.capacity {
            self.items.pop();
            proof {
                assert(self.items@ =~= insert_sorted(old(self).items@, x).subrange(
                    0,
                    self.capacity as int,
                ));
            }
        }
    }

    /// Hands the kept elements out, best first.
    pub fn into_vec(self) -> (r: Vec<ScoredPointOffset>)
        ensures
            r@ == self@,
    {
        self.items
    }
}

/// No two elements name the same point.
pub open spec fn distinct_ids(s: Seq<ScoredPointOffset>) -> bool {
    forall|i: int, j: int| 0 <= i < j < s.len() ==> (#[trigger] s[i]).idx != (#[trigger] s[j]).idx
}

/// Every element a bounded push keeps is the new element or one of the
/// old ones.
pub proof fn lemma_push_model_elems(s: Seq<ScoredPointOffset>, x: ScoredPointOffset, cap: int)
    requires
        0 <= cap,
    ensures
        forall|i: int|
            0 <= i < push_model(s, x, cap).len() ==> (#[trigger] push_model(s, x, cap)[i]) == x
                || exists|q: int| 0 <= q < s.len() && s[q] == push_model(s, x, cap)[i],
{
    lemma_insert_sorted_len(s, x);
    lemma_insert_sorted_elems(s, x);
    let t = insert_sorted(s, x);
    let r = push_model(s, x, cap);
    assert forall|i: int| 0 <= i < r.len() implies (#[trigger] r[i]) == x || exists|q: int|
        0 <= q < s.len() && s[q] == r[i] by {
        assert(r[i] == t[i]);
    }
}

/// Pushing an element for a point not yet present keeps point ids
/// pairwise distinct.
pub proof fn lemma_insert_sorted_distinct(s: Seq<ScoredPointOffset>, x: ScoredPointOffset)
    requires
        distinct_ids(s),
        forall|i: int| 0 <= i < s.len() ==> (#[trigger] s[i]).idx != x.idx,
    ensures
        distinct_ids(insert_sorted(s, x)),
    decreases s.len(),
{
    lemma_insert_sorted_len(s, x);
    if s.len() == 0 {
    } else if beats(x, s[0]) {
        let t = insert_sorted(s, x);
        assert forall|i: int, j: int| 0 <= i < j < t.len() implies (#[trigger] t[i]).idx != (
        #[trigger] t[j]).idx by {
            if i > 0 {
                assert(t[i] == s[i - 1] && t[j] == s[j - 1]);
            } else {
                assert(t[j] == s[j - 1]);
            }
        }
    } else {
        assert(distinct_ids(s.drop_first()));
        lemma_insert_sorted_distinct(s.drop_first(), x);
        lemma_insert_sorted_elems(s.drop_first(), x);
        let t = insert_sorted(s, x);
        let rest = insert_sorted(s.drop_first(), x);
        assert forall|i: int, j: int| 0 <= i < j < t.len() implies (#[trigger] t[i]).idx != (
        #[trigger] t[j]).idx by {
            if i == 0 {
                assert(t[j] == rest[j - 1]);
                if rest[j - 1] == x {
                    assert(s[0].idx != x.idx);
                } else {
                    let q = choose|q: int|
                        0 <= q < s.drop_first().len() && s.drop_first()[q] == rest[j - 1];
                    assert(s[q + 1] == rest[j - 1]);
                    assert(s[0].idx != s[q + 1].idx);
                }
            } else {
                assert(t[i] == rest[i - 1] && t[j] == rest[j - 1]);
            }
        }
    }
}

/// Distinctness survives the capacity truncation too.
pub proof fn lemma_push_model_distinct(s: Seq<ScoredPointOffset>, x: ScoredPointOffset, cap: int)
    requires
        0 <= cap,
        distinct_ids(s),
        forall|i: int| 0 <= i < s.len() ==> (#[trigger] s[i]).idx != x.idx,
    ensures
        distinct_ids(push_model(s, x, cap)),
{
    lemma_insert_sorted_distinct(s, x);
    lemma_insert_sorted_len(s, x);
    let t = insert_sorted(s, x);
    let r = push_model(s, x, cap);
    assert forall|i: int, j: int| 0 <= i < j < r.len() implies (#[trigger] r[i]).idx != (
    #[trigger] r[j]).idx by {
        assert(r[i] == t[i] && r[j] == t[j]);
    }
}

pub proof fn lemma_beats_eq_trans(a: ScoredPointOffset, b: ScoredPointOffset, c: ScoredPointOffset)
    requires
        beats_eq(a, b),
        beats_eq(b, c),
    ensures
        beats_eq(a, c),
{
}

/// The inserted element is present after insertion.
pub proof fn lemma_insert_sorted_has(s: Seq<ScoredPointOffset>, x: ScoredPointOffset)
    ensures
        insert_sorted(s, x).contains(x),
    decreases s.len(),
{
    lemma_insert_sorted_len(s, x);
    if s.len() == 0 {
        assert(insert_sorted(s, x)[0] == x);
    } else if beats(x, s[0]) {
        assert(insert_sorted(s, x)[0] == x);
    } else {
        lemma_insert_sorted_has(s.drop_first(), x);
        let rest = insert_sorted(s.drop_first(), x);
        let q = choose|q: int| 0 <= q < rest.len() && rest[q] == x;
        assert(insert_sorted(s, x)[q + 1] == x);
    }
}

/// Insertion shifts each old element by at most one rank.
pub proof fn lemma_insert_sorted_shift(s: Seq<ScoredPointOffset>, x: ScoredPointOffset)
    ensures
        forall|q: int|
            0 <= q < s.len() ==> insert_sorted(s, x)[q] == #[trigger] s[q] || insert_sorted(s, x)[q
                + 1] == s[q],
    decreases s.len(),
{
    lemma_insert_sorted_len(s, x);
    if s.len() == 0 {
    } else if beats(x, s[0]) {
        assert forall|q: int| 0 <= q < s.len() implies insert_sorted(s, x)[q] == #[trigger] s[q]
            || insert_sorted(s, x)[q + 1] == s[q] by {
            assert(insert_sorted(s, x)[q + 1] == s[q]);
        }
    } else {
        lemma_insert_sorted_shift(s.drop_first(), x);
        let t = insert_sorted(s, x);
        let rest = insert_sorted(s.drop_first(), x);
        assert forall|q: int| 0 <= q < s.len() implies t[q] == #[trigger] s[q] || t[q + 1]
            == s[q] by {
            if q == 0 {
                assert(t[0] == s[0]);
            } else {
                assert(rest[q - 1] == s.drop_first()[q - 1] || rest[q] == s.drop_first()[q - 1]);
                assert(t[q] == rest[q - 1] && t[q + 1] == rest[q]);
                assert(s.drop_first()[q - 1] == s[q]);
            }
        }
    }
}

/// A bounded push keeps every element it saw, or keeps only better ones:
/// whatever is not kept scores no better than the kept weakest.
pub proof fn lemma_push_covers(s: Seq<ScoredPointOffset>, x: ScoredPointOffset, cap: int)
    requires
        ordered(s),
        1 <= cap,
        s.len() <= cap,
    ensures
        push_model(s, x, cap).len() == if s.len() < cap {
            s.len() as int + 1
        } else {
            cap
        },
        ordered(push_model(s, x, cap)),
        push_model(s, x, cap).contains(x) || (push_model(s, x, cap).len() == cap && beats_eq(
            push_model(s, x, cap).last(),
            x,
        )),
        forall|q: int|
            0 <= q < s.len() ==> push_model(s, x, cap).contains(#[trigger] s[q]) || (push_model(
                s,
                x,
                cap,
            ).len() == cap && beats_eq(push_model(s, x, cap).last(), s[q])),
        s.len() == cap ==> beats_eq(push_model(s, x, cap).last(), s.last()),
{
    lemma_insert_sorted_len(s, x);
    lemma_insert_sorted_ordered(s, x);
    lemma_insert_sorted_has(s, x);
    lemma_insert_sorted_shift(s, x);
    let t = insert_sorted(s, x);
    let r = push_model(s, x, cap);
    if t.len() <= cap {
        assert(r == t);
        assert(r.contains(x));
        assert forall|q: int| 0 <= q < s.len() implies r.contains(#[trigger] s[q]) || (r.len()
            == cap && beats_eq(r.last(), s[q])) by {
            if t[q] == s[q] {
                assert(r.contains(s[q]));
            } else {
                assert(t[q + 1] == s[q]);
                assert(r.contains(s[q]));
            }
        }
    } else {
        assert(s.len() == cap && t.len() == cap + 1);
        assert(r =~= t.subrange(0, cap));
        assert(r.len() == cap);
        assert(r.last() == t[cap - 1]);
        // The one rank past the bound is beaten by the kept weakest.
        assert(beats_eq(t[cap - 1], t[cap]));
        let w = choose|w: int| 0 <= w < t.len() && t[w] == x;
        if w < cap {
            assert(r[w] == x);
            assert(r.contains(x));
        } else {
            assert(w == cap);
            assert(beats_eq(r.last(), x));
        }
        assert forall|q: int| 0 <= q < s.len() implies r.contains(#[trigger] s[q]) || (r.len()
            == cap && beats_eq(r.last(), s[q])) by {
            if t[q] == s[q] {
                assert(r[q] == s[q]);
                assert(r.contains(s[q]));
            } else {
                assert(t[q + 1] == s[q]);
                if q + 1 < cap {
                    assert(r[q + 1] == s[q]);
                    assert(r.contains(s[q]));
                } else {
                    assert(beats_eq(t[cap - 1], t[q + 1]));
                }
            }
        }
        assert(t[cap - 1] == s.last() || t[cap] == s.last());
    }
}

/// How many entries of a mark vector are set.
pub open spec fn count_trues(s: Seq<bool>) -> int
    decreases s.len(),
{
    if s.len() == 0 {
        0
    } else {
        count_trues(s.drop_last()) + if s.last() {
            1int
        } else {
            0int
        }
    }
}

pub proof fn lemma_count_trues_le_len(s: Seq<bool>)
    ensures
        0 <= count_trues(s) <= s.len(),
    decreases s.len(),
{
    if s.len() > 0 {
        lemma_count_trues_le_len(s.drop_last());
    }
}

/// Setting a clear mark raises the count by one.
pub proof fn lemma_count_trues_set(s: Seq<bool>, i: int)
    requires
        0 <= i < s.len(),
        !s[i],
    ensures
        count_trues(s.update(i, true)) == count_trues(s) + 1,
    decreases s.len(),
{
    let t = s.update(i, true);
    if i == s.len() - 1 {
        assert(t.drop_last() =~= s.drop_last());
    } else {
        assert(t.drop_last() =~= s.drop_last().update(i, true));
        lemma_count_trues_set(s.drop_last(), i);
    }
}

/// Scanning to the first position the new element beats, and splicing it
/// there, is exactly the sorted insertion.
proof fn lemma_insert_at(s: Seq<ScoredPointOffset>, x: ScoredPointOffset, p: int)
    requires
        0 <= p <= s.len(),
        forall|i: int| 0 <= i < p ==> beats_eq(#[trigger] s[i], x),
        p < s.len() ==> beats(x, s[p]),
    ensures
        insert_sorted(s, x) == s.subrange(0, p) + seq![x] + s.subrange(p, s.len() as int),
    decreases s.len(),
{
    if s.len() == 0 {
        assert(insert_sorted(s, x) =~= s.subrange(0, p) + seq![x] + s.subrange(p, s.len() as int));
    } else if p == 0 {
        assert(beats(x, s[0]) || s.len() == 0);
        if beats(x, s[0]) {
            assert(insert_sorted(s, x) =~= s.subrange(0, 0) + seq![x] + s.subrange(
                0,
                s.len() as int,
            ));
        }
    } else {
        assert(beats_eq(s[0], x));
        assert(!beats(x, s[0])) by {
            if beats(x, s[0]) {
                assert(false);
            }
        }
        lemma_insert_at(s.drop_first(), x, p - 1);
        assert(insert_sorted(s, x) =~= s.subrange(0, p) + seq![x] + s.subrange(p, s.len() as int));
    }
}

} // verus!
