use vstd::prelude::*;

verus! {

/// Identifier of a point's slot in storage; stable for the point's lifetime.
pub type PointOffsetType = usize;

/// A point id together with the score the scorer gave it.
/// Higher scores mean nearer points.
#[derive(Clone, Copy, PartialEq, Eq, Structural, Debug)]
pub struct ScoredPointOffset {
    pub idx: PointOffsetType,
    pub score: i64,
}

/// The value type a field index is declared over: one per index instance.
#[derive(Clone, Copy, PartialEq, Eq, Structural, Debug)]
pub enum ValueKind {
    Keyword,
    Integer,
}

/// One concrete value a payload can hold under an indexed field.
#[derive(Debug)]
pub enum MapKey {
    Keyword(String),
    Integer(i64),
}

impl MapKey {
    /// Mathematical identity of a key: variant tag, characters, number.
    /// Two keys denote the same value exactly when their views are equal.
    pub open spec fn view_key(&self) -> (int, Seq<char>, int) {
        match *self {
            MapKey::Keyword(s) => (0, s@, 0),
            MapKey::Integer(i) => (1, Seq::<char>::empty(), i as int),
        }
    }

    pub open spec fn kind_spec(&self) -> ValueKind {
        match *self {
            MapKey::Keyword(_) => ValueKind::Keyword,
            MapKey::Integer(_) => ValueKind::Integer,
        }
    }
}

impl Clone for MapKey {
    fn clone(&self) -> (r: Self)
        ensures
            r.view_key() == self.view_key(),
            r.kind_spec() == self.kind_spec(),
    {
        match self {
            MapKey::Keyword(s) => MapKey::Keyword(s.clone()),
            MapKey::Integer(i) => MapKey::Integer(*i),
        }
    }
}

/// Decides whether two keys denote the same value.
pub fn keys_equal(a: &MapKey, b: &MapKey) -> (r: bool)
    ensures
        r == (a.view_key() == b.view_key()),
{
    match (a, b) {
        (MapKey::Keyword(x), MapKey::Keyword(y)) => {
            let r = *x == *y;
            assert(r == (x@ == y@));
            assert(a.view_key().1 == x@ && b.view_key().1 == y@);
            r
        }
        (MapKey::Integer(x), MapKey::Integer(y)) => {
            let r = *x == *y;
            assert(a.view_key().2 == *x as int && b.view_key().2 == *y as int);
            r
        }
        _ => {
            assert(a.view_key().0 != b.view_key().0);
            false
        }
    }
}

/// The payload stored for a point under one field: multi-valued,
/// one variant per declared value type.
#[derive(Debug)]
pub enum PayloadType {
    Keyword(Vec<String>),
    Integer(Vec<i64>),
}

/// An exact-match test: at most one of the variants is set.
#[derive(Debug)]
pub struct Match {
    pub keyword: Option<String>,
    pub integer: Option<i64>,
}

impl Clone for Match {
    fn clone(&self) -> (r: Self)
        ensures
            r.match_key() == self.match_key(),
    {
        let keyword = match &self.keyword {
            Some(s) => Some(s.clone()),
            None => None,
        };
        Match { keyword, integer: self.integer }
    }
}

impl Match {
    /// The key this match tests for, if it is an exact-match test.
    pub open spec fn match_key(&self) -> Option<(int, Seq<char>, int)> {
        match self.keyword {
            Some(s) => Some((0, s@, 0)),
            None => match self.integer {
                Some(i) => Some((1, Seq::<char>::empty(), i as int)),
                None => None,
            },
        }
    }
}

/// A condition on one payload field.
#[derive(Debug)]
pub struct FieldCondition {
    pub key: String,
    pub field_match: Option<Match>,
}

impl Clone for FieldCondition {
    fn clone(&self) -> (r: Self)
        ensures
            r.condition_key() == self.condition_key(),
            r.key@ == self.key@,
    {
        let field_match = match &self.field_match {
            Some(m) => Some(m.clone()),
            None => None,
        };
        FieldCondition { key: self.key.clone(), field_match }
    }
}

impl FieldCondition {
    /// The key an exact-match condition asks for, `None` when the
    /// condition is not an exact-match test.
    pub open spec fn condition_key(&self) -> Option<(int, Seq<char>, int)> {
        match self.field_match {
            Some(m) => m.match_key(),
            None => None,
        }
    }
}

/// A filter predicate a search is restricted by.  The condition checker
/// collaborator evaluates it against one point's stored payload.
#[derive(Debug)]
pub struct Filter {
    pub condition: FieldCondition,
}

impl Clone for Filter {
    fn clone(&self) -> (r: Self)
        ensures
            r.condition.condition_key() == self.condition.condition_key(),
            r.condition.key@ == self.condition.key@,
    {
        Filter { condition: self.condition.clone() }
    }
}

/// A clause cheap enough to drive the scan through an index.
#[derive(Debug)]
pub enum PrimaryCondition {
    Condition(FieldCondition),
}

/// A conservative bracket on how many stored points satisfy a predicate,
/// together with the clauses that justify using it as a primary strategy.
#[derive(Debug)]
pub struct CardinalityEstimation {
    pub primary_clauses: Vec<PrimaryCondition>,
    pub min: usize,
    pub exp: usize,
    pub max: usize,
}

/// Error taxonomy: every failure is detected locally and propagated.
#[derive(Clone, Copy, PartialEq, Eq, Structural, Debug)]
pub enum OperationError {
    /// A payload value of the wrong declared type was fed to an index.
    TypeMismatch,
    /// Reopening with parameters that contradict a persisted configuration.
    ConfigMismatch,
    /// A parameter combination this index does not implement.
    Unsupported,
    /// An input/output failure surfaced by the caller's environment.
    Io,
}

pub type OperationResult<T> = Result<T, OperationError>;

} // verus!
