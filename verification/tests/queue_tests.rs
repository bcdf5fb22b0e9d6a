use segment::queue::FixedLengthPriorityQueue;
use segment::types::ScoredPointOffset;

fn spo(idx: usize, score: i64) -> ScoredPointOffset {
    ScoredPointOffset { idx, score }
}

#[test]
fn queue_keeps_best_within_bound() {
    let mut q = FixedLengthPriorityQueue::new(3);
    q.push(spo(1, 10));
    q.push(spo(2, 30));
    q.push(spo(3, 20));
    assert_eq!(q.len(), 3);
    assert!(q.is_full());
    // Pushing a better element evicts the weakest.
    q.push(spo(4, 25));
    let v = q.into_vec();
    assert_eq!(v, vec![spo(2, 30), spo(4, 25), spo(3, 20)]);
}

#[test]
fn queue_drops_weak_push_when_full() {
    let mut q = FixedLengthPriorityQueue::new(2);
    q.push(spo(1, 50));
    q.push(spo(2, 40));
    q.push(spo(3, 10));
    let v = q.into_vec();
    assert_eq!(v, vec![spo(1, 50), spo(2, 40)]);
}

#[test]
fn queue_breaks_ties_by_smaller_id() {
    let mut q = FixedLengthPriorityQueue::new(4);
    q.push(spo(9, 7));
    q.push(spo(2, 7));
    q.push(spo(5, 7));
    let v = q.into_vec();
    assert_eq!(v, vec![spo(2, 7), spo(5, 7), spo(9, 7)]);
}

#[test]
fn queue_pop_best_returns_front() {
    let mut q = FixedLengthPriorityQueue::new(3);
    assert_eq!(q.pop_best(), None);
    q.push(spo(1, 1));
    q.push(spo(2, 9));
    assert_eq!(q.pop_best(), Some(spo(2, 9)));
    assert_eq!(q.pop_best(), Some(spo(1, 1)));
    assert_eq!(q.pop_best(), None);
}

#[test]
fn queue_worst_is_last() {
    let mut q = FixedLengthPriorityQueue::new(3);
    q.push(spo(1, 5));
    q.push(spo(2, 8));
    assert_eq!(q.worst(), spo(1, 5));
}
