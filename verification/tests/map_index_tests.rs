use segment::map_index::{FieldIndex, PersistedMapIndex};
use segment::types::{FieldCondition, MapKey, Match, OperationError, PayloadType, ValueKind};

fn int_condition(v: i64) -> FieldCondition {
    FieldCondition {
        key: String::from("num"),
        field_match: Some(Match { keyword: None, integer: Some(v) }),
    }
}

fn kw_condition(s: &str) -> FieldCondition {
    FieldCondition {
        key: String::from("color"),
        field_match: Some(Match { keyword: Some(String::from(s)), integer: None }),
    }
}

#[test]
fn integer_index_scenario() {
    let mut builder = PersistedMapIndex::new(ValueKind::Integer);
    builder.add(1, &PayloadType::Integer(vec![5])).unwrap();
    builder.add(2, &PayloadType::Integer(vec![5])).unwrap();
    builder.add(3, &PayloadType::Integer(vec![7])).unwrap();
    let index = match builder.build() {
        FieldIndex::IntMapIndex(ix) => ix,
        FieldIndex::KeywordIndex(_) => panic!("wrong index kind"),
    };
    let est = index.estimate_cardinality(&int_condition(5)).unwrap();
    assert_eq!(est.min, 2);
    assert_eq!(est.exp, 2);
    assert_eq!(est.max, 2);
    assert_eq!(est.primary_clauses.len(), 1);
    let ids = index.filter(&int_condition(9)).unwrap();
    assert!(ids.is_empty());
}

#[test]
fn cardinality_counts_adds_exactly() {
    let mut builder = PersistedMapIndex::new(ValueKind::Integer);
    let mut expected = 0usize;
    for id in 0..20usize {
        let v = (id % 3) as i64;
        if v == 1 {
            expected += 1;
        }
        builder.add(id, &PayloadType::Integer(vec![v])).unwrap();
    }
    let index = match builder.build() {
        FieldIndex::IntMapIndex(ix) => ix,
        _ => panic!("wrong index kind"),
    };
    let est = index.estimate_cardinality(&int_condition(1)).unwrap();
    assert_eq!(est.exp, expected);
    let mut ids = index.filter(&int_condition(1)).unwrap();
    ids.sort();
    let mut want: Vec<usize> = (0..20usize).filter(|id| id % 3 == 1).collect();
    want.sort();
    assert_eq!(ids, want);
}

#[test]
fn second_build_yields_empty_index() {
    let mut builder = PersistedMapIndex::new(ValueKind::Integer);
    builder.add(1, &PayloadType::Integer(vec![5])).unwrap();
    builder.add(2, &PayloadType::Integer(vec![5])).unwrap();
    let first = match builder.build() {
        FieldIndex::IntMapIndex(ix) => ix,
        _ => panic!("wrong index kind"),
    };
    assert_eq!(first.match_cardinality(&MapKey::Integer(5)).exp, 2);
    let second = match builder.build() {
        FieldIndex::IntMapIndex(ix) => ix,
        _ => panic!("wrong index kind"),
    };
    assert_eq!(second.match_cardinality(&MapKey::Integer(5)).exp, 0);
    assert_eq!(second.match_cardinality(&MapKey::Integer(7)).exp, 0);
    assert!(second.filter(&int_condition(5)).unwrap().is_empty());
}

#[test]
fn keyword_index_counts_and_filters() {
    let mut builder = PersistedMapIndex::new(ValueKind::Keyword);
    builder
        .add(10, &PayloadType::Keyword(vec![String::from("red"), String::from("blue")]))
        .unwrap();
    builder.add(11, &PayloadType::Keyword(vec![String::from("red")])).unwrap();
    let index = match builder.build() {
        FieldIndex::KeywordIndex(ix) => ix,
        _ => panic!("wrong index kind"),
    };
    assert_eq!(index.match_cardinality(&MapKey::Keyword(String::from("red"))).exp, 2);
    assert_eq!(index.match_cardinality(&MapKey::Keyword(String::from("blue"))).exp, 1);
    assert_eq!(index.match_cardinality(&MapKey::Keyword(String::from("green"))).exp, 0);
    let ids = index.filter(&kw_condition("red")).unwrap();
    assert_eq!(ids, vec![10, 11]);
    assert_eq!(index.get_iterator(&MapKey::Keyword(String::from("blue"))), vec![10]);
}

#[test]
fn wrong_payload_kind_is_a_type_mismatch() {
    let mut builder = PersistedMapIndex::new(ValueKind::Keyword);
    let err = builder.add(1, &PayloadType::Integer(vec![5])).unwrap_err();
    assert_eq!(err, OperationError::TypeMismatch);
    // Nothing was recorded by the failed add.
    assert_eq!(builder.match_cardinality(&MapKey::Integer(5)).exp, 0);

    let mut int_builder = PersistedMapIndex::new(ValueKind::Integer);
    let err2 = int_builder.add(1, &PayloadType::Keyword(vec![String::from("red")])).unwrap_err();
    assert_eq!(err2, OperationError::TypeMismatch);
}

#[test]
fn inapplicable_condition_gives_none() {
    let mut builder = PersistedMapIndex::new(ValueKind::Integer);
    builder.add(1, &PayloadType::Integer(vec![5])).unwrap();
    let index = match builder.build() {
        FieldIndex::IntMapIndex(ix) => ix,
        _ => panic!("wrong index kind"),
    };
    // A keyword test cannot be serviced by an integer index.
    assert!(index.filter(&kw_condition("red")).is_none());
    assert!(index.estimate_cardinality(&kw_condition("red")).is_none());
    // A condition without an exact-match test is inapplicable too.
    let empty = FieldCondition { key: String::from("num"), field_match: None };
    assert!(index.filter(&empty).is_none());
}

#[test]
fn add_many_keeps_insertion_order() {
    let mut builder = PersistedMapIndex::new(ValueKind::Integer);
    builder.add_many(7, &vec![MapKey::Integer(1), MapKey::Integer(2)]);
    builder.add_many(8, &vec![MapKey::Integer(1)]);
    assert_eq!(builder.get_iterator(&MapKey::Integer(1)), vec![7, 8]);
    assert_eq!(builder.get_iterator(&MapKey::Integer(2)), vec![7]);
    assert_eq!(builder.get_iterator(&MapKey::Integer(3)), Vec::<usize>::new());
}
