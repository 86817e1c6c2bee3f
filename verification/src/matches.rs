use vstd::prelude::*;

use crate::column::Column;
use crate::value::{Value, ValueView};

verus! {

/// One per-column constraint of a flat match vector: an equality test
/// against a concrete value, or the wildcard `Any`.
#[derive(Debug, PartialEq)]
pub enum Match {
    UInt(usize),
    Int(isize),
    Boolean(bool),
    Str(String),
    OwnedStr(String),
    Any,
}

/// The mathematical content of a [`Match`]: strings as character sequences.
pub enum MatchView {
    UInt(usize),
    Int(isize),
    Boolean(bool),
    Str(Seq<char>),
    OwnedStr(Seq<char>),
    Any,
}

impl View for Match {
    type V = MatchView;

    open spec fn view(&self) -> MatchView {
        match self {
            Match::UInt(u) => MatchView::UInt(*u),
            Match::Int(i) => MatchView::Int(*i),
            Match::Boolean(b) => MatchView::Boolean(*b),
            Match::Str(s) => MatchView::Str(s@),
            Match::OwnedStr(s) => MatchView::OwnedStr(s@),
            Match::Any => MatchView::Any,
        }
    }
}

impl DeepView for Match {
    type V = MatchView;

    open spec fn deep_view(&self) -> MatchView {
        self.view()
    }
}

impl Clone for Match {
    fn clone(&self) -> (r: Self)
        ensures
            r@ == self@,
    {
        match self {
            Match::UInt(u) => Match::UInt(*u),
            Match::Int(i) => Match::Int(*i),
            Match::Boolean(b) => Match::Boolean(*b),
            Match::Str(s) => Match::Str(s.clone()),
            Match::OwnedStr(s) => Match::OwnedStr(s.clone()),
            Match::Any => Match::Any,
        }
    }
}

/// The single value a non-wildcard matcher accepts; `None` for the wildcard.
pub open spec fn match_key(m: MatchView) -> Option<ValueView> {
    match m {
        MatchView::UInt(u) => Some(ValueView::UInt(u)),
        MatchView::Int(i) => Some(ValueView::Int(i)),
        MatchView::Boolean(b) => Some(ValueView::Boolean(b)),
        MatchView::Str(s) => Some(ValueView::Str(s)),
        MatchView::OwnedStr(s) => Some(ValueView::OwnedStr(s)),
        MatchView::Any => None,
    }
}

/// Whether a matcher accepts a value: the wildcard accepts everything, a
/// non-wildcard matcher accepts exactly the one value it names.
pub open spec fn match_admits(m: MatchView, v: ValueView) -> bool {
    match match_key(m) {
        Some(k) => v == k,
        None => true,
    }
}

/// Copies out the value a non-wildcard matcher accepts.
pub fn match_to_value(m: &Match) -> (r: Option<Value>)
    ensures
        match r {
            Some(v) => match_key(m@) == Some(v@),
            None => m@ is Any,
        },
{
    match m {
        Match::UInt(u) => Some(Value::UInt(*u)),
        Match::Int(i) => Some(Value::Int(*i)),
        Match::Boolean(b) => Some(Value::Boolean(*b)),
        Match::Str(s) => Some(Value::Str(s.clone())),
        Match::OwnedStr(s) => Some(Value::OwnedStr(s.clone())),
        Match::Any => None,
    }
}

/// Turns a row into the flat match vector that accepts exactly that row:
/// one equality matcher per cell.
pub fn exact_matches_of(vals: &Vec<Value>) -> (r: Vec<Match>)
    ensures
        r.deep_view() == exact_match_views(vals.deep_view()),
{
    let mut out: Vec<Match> = Vec::new();
    let mut i: usize = 0;
    while i < vals.len()
        invariant
            i <= vals@.len(),
            out@.len() == i,
            forall|j: int| 0 <= j < i ==> #[trigger] out@[j]@ == exact_match_of(vals@[j]@),
        decreases vals@.len() - i,
    {
        let m = match &vals[i] {
            Value::UInt(u) => Match::UInt(*u),
            Value::Int(v) => Match::Int(*v),
            Value::Boolean(b) => Match::Boolean(*b),
            Value::Str(s) => Match::Str(s.clone()),
            Value::OwnedStr(s) => Match::OwnedStr(s.clone()),
        };
        out.push(m);
        i += 1;
    }
    proof {
        assert forall|j: int| 0 <= j < out.deep_view().len() implies out.deep_view()[j]
            == exact_match_views(vals.deep_view())[j] by {
            crate::value::lemma_vec_deep_view_index(&out, j);
            crate::value::lemma_vec_deep_view_index(vals, j);
        }
        assert(out.deep_view() =~= exact_match_views(vals.deep_view()));
    }
    out
}

/// The flat match vector that accepts exactly the given row.
pub open spec fn exact_match_views(row: Seq<ValueView>) -> Seq<MatchView> {
    row.map_values(|v: ValueView| exact_match_of(v))
}

/// The matcher that accepts exactly the given value.
pub open spec fn exact_match_of(v: ValueView) -> MatchView {
    match v {
        ValueView::UInt(u) => MatchView::UInt(u),
        ValueView::Int(i) => MatchView::Int(i),
        ValueView::Boolean(b) => MatchView::Boolean(b),
        ValueView::Str(s) => MatchView::Str(s),
        ValueView::OwnedStr(s) => MatchView::OwnedStr(s),
    }
}

/// The materialized outcome of a successful query: the surviving rows,
/// copied out of the arena in ascending row-id order.
#[derive(Debug)]
pub struct MatchResults {
    data: Vec<Vec<Value>>,
}

impl View for MatchResults {
    type V = Seq<Seq<ValueView>>;

    closed spec fn view(&self) -> Seq<Seq<ValueView>> {
        self.data.deep_view()
    }
}

impl MatchResults {
    /// Wraps a list of materialized rows.
    pub fn new(d: Vec<Vec<Value>>) -> (r: Self)
        ensures
            r@ == d.deep_view(),
    {
        MatchResults { data: d }
    }

    /// The number of rows found.
    pub fn len(&self) -> (r: usize)
        ensures
            r == self@.len(),
    {
        self.data.len()
    }

    /// Whether no row was found.
    pub fn is_empty(&self) -> (r: bool)
        ensures
            r == (self@.len() == 0),
    {
        self.data.len() == 0
    }

    /// Borrows the found rows, in ascending row-id order.
    pub fn iter(&self) -> (r: &Vec<Vec<Value>>)
        ensures
            r.deep_view() == self@,
    {
        &self.data
    }
}

} // verus!
