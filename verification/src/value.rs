use vstd::prelude::*;

use crate::column::Column;
use crate::errs::Error;

verus! {

/// A concrete cell value, tagged with its column type.
///
/// Both string flavors are stored owned; they remain distinct types in the
/// schema, so a `Str` value never matches an `OwnedStr` column.
#[derive(Debug, PartialEq)]
pub enum Value {
    UInt(usize),
    Int(isize),
    Boolean(bool),
    Str(String),
    OwnedStr(String),
}

/// The mathematical content of a [`Value`]: strings as character sequences.
pub enum ValueView {
    UInt(usize),
    Int(isize),
    Boolean(bool),
    Str(Seq<char>),
    OwnedStr(Seq<char>),
}

impl View for Value {
    type V = ValueView;

    open spec fn view(&self) -> ValueView {
        match self {
            Value::UInt(u) => ValueView::UInt(*u),
            Value::Int(i) => ValueView::Int(*i),
            Value::Boolean(b) => ValueView::Boolean(*b),
            Value::Str(s) => ValueView::Str(s@),
            Value::OwnedStr(s) => ValueView::OwnedStr(s@),
        }
    }
}

impl DeepView for Value {
    type V = ValueView;

    open spec fn deep_view(&self) -> ValueView {
        self.view()
    }
}

/// Indexing a vector's deep view reads the element's deep view.
pub broadcast proof fn lemma_vec_deep_view_index<T: DeepView>(v: &Vec<T>, i: int)
    requires
        0 <= i < v@.len(),
    ensures
        #[trigger] v.deep_view()[i] == v@[i].deep_view(),
{
}

/// The column type a value belongs to.
pub open spec fn value_tag(v: ValueView) -> Column {
    match v {
        ValueView::UInt(_) => Column::UInt,
        ValueView::Int(_) => Column::Int,
        ValueView::Boolean(_) => Column::Boolean,
        ValueView::Str(_) => Column::Str,
        ValueView::OwnedStr(_) => Column::OwnedStr,
    }
}

impl Clone for Value {
    fn clone(&self) -> (r: Self)
        ensures
            r@ == self@,
    {
        match self {
            Value::UInt(u) => Value::UInt(*u),
            Value::Int(i) => Value::Int(*i),
            Value::Boolean(b) => Value::Boolean(*b),
            Value::Str(s) => Value::Str(s.clone()),
            Value::OwnedStr(s) => Value::OwnedStr(s.clone()),
        }
    }
}

/// Decides equality of two values, specified against their views.
pub fn value_eq(a: &Value, b: &Value) -> (r: bool)
    ensures
        r == (a@ == b@),
{
    match (a, b) {
        (Value::UInt(x), Value::UInt(y)) => x == y,
        (Value::Int(x), Value::Int(y)) => x == y,
        (Value::Boolean(x), Value::Boolean(y)) => x == y,
        (Value::Str(x), Value::Str(y)) => x.eq(y),
        (Value::OwnedStr(x), Value::OwnedStr(y)) => x.eq(y),
        _ => false,
    }
}

/// Abstract state of a [`ValueStore`]: the flattened cell contents, the row
/// width and the id the next inserted row will get.
pub struct ValueStoreView {
    pub vals: Seq<ValueView>,
    pub width: nat,
    pub next_id: nat,
}

/// Flat row-major arena holding every value ever inserted into a bucket.
///
/// Row `i` occupies the half-open cell range `[i*width, (i+1)*width)`. The
/// arena only grows; logical deletes leave it untouched.
pub struct ValueStore {
    vals: Vec<Value>,
    width: usize,
    next_id: usize,
}

impl View for ValueStore {
    type V = ValueStoreView;

    closed spec fn view(&self) -> ValueStoreView {
        ValueStoreView {
            vals: self.vals.deep_view(),
            width: self.width as nat,
            next_id: self.next_id as nat,
        }
    }
}

impl ValueStore {
    /// The arena always holds exactly `next_id` rows of `width` cells.
    pub open spec fn wf(self) -> bool {
        self@.vals.len() == self@.next_id * self@.width
    }

    /// Creates an empty arena for rows of `width` cells.
    pub fn new(width: usize) -> (r: Self)
        ensures
            r@.vals.len() == 0,
            r@.width == width,
            r@.next_id == 0,
            r.wf(),
    {
        ValueStore { vals: Vec::new(), width, next_id: 0 }
    }

    /// The fixed number of cells per row.
    pub fn width(&self) -> (r: usize)
        ensures
            r == self@.width,
    {
        self.width
    }

    /// The id the next inserted row will receive.
    pub fn next_id(&self) -> (r: usize)
        ensures
            r == self@.next_id,
    {
        self.next_id
    }

    /// Copies the cells of the half-open range `[start, end)` out of the
    /// arena.
    pub fn slice_at(&self, start: usize, end: usize) -> (r: Vec<Value>)
        requires
            start <= end <= self@.vals.len(),
        ensures
            r.deep_view() == self@.vals.subrange(start as int, end as int),
    {
        let mut out: Vec<Value> = Vec::new();
        let mut i: usize = start;
        while i < end
            invariant
                start <= i <= end <= self@.vals.len(),
                self@.vals.len() == self.vals@.len(),
                out@.len() == i - start,
                forall|j: int| 0 <= j < out@.len() ==> #[trigger] out@[j]@ == self.vals@[
                    start + j
                ]@,
            decreases end - i,
        {
            out.push(self.vals[i].clone());
            i += 1;
        }
        proof {
            assert forall|j: int| 0 <= j < out.deep_view().len() implies out.deep_view()[j]
                == self@.vals.subrange(start as int, end as int)[j] by {
                lemma_vec_deep_view_index(&out, j);
                lemma_vec_deep_view_index(&self.vals, start + j);
            }
            assert(out.deep_view() =~= self@.vals.subrange(start as int, end as int));
        }
        out
    }

    /// Appends one row: all of its cells, in schema order. The caller checks
    /// the row against the schema; the arena records it as given.
    pub fn insert(&mut self, vals: &Vec<Value>) -> (r: Result<(), Error>)
        requires
            old(self)@.next_id < usize::MAX,
            old(self).wf(),
            vals@.len() == old(self)@.width,
        ensures
            r is Ok,
            final(self)@.vals == old(self)@.vals + vals.deep_view(),
            final(self)@.width == old(self)@.width,
            final(self)@.next_id == old(self)@.next_id + 1,
            final(self).wf(),
    {
        let ghost n0 = old(self).vals@.len() as int;
        let mut i: usize = 0;
        while i < vals.len()
            invariant
                n0 == old(self).vals@.len(),
                i <= vals@.len(),
                self.vals@.len() == n0 + i,
                forall|j: int| 0 <= j < n0 ==> #[trigger] self.vals@[j] == old(self).vals@[j],
                forall|j: int| 0 <= j < i ==> #[trigger] self.vals@[n0 + j]@ == vals@[j]@,
                self.width == old(self).width,
                self.next_id == old(self).next_id,
            decreases vals@.len() - i,
        {
            self.vals.push(vals[i].clone());
            i += 1;
        }
        proof {
            assert forall|j: int| 0 <= j < self.vals.deep_view().len() implies self.vals.deep_view()[j]
                == (old(self)@.vals + vals.deep_view())[j] by {
                lemma_vec_deep_view_index(&self.vals, j);
                if j < n0 {
                    lemma_vec_deep_view_index(&old(self).vals, j);
                } else {
                    lemma_vec_deep_view_index(vals, j - n0);
                    assert(self.vals@[n0 + (j - n0)]@ == vals@[j - n0]@);
                }
            }
            assert(self@.vals =~= old(self)@.vals + vals.deep_view());
        }
        self.next_id = self.next_id + 1;
        proof {
            let w = old(self)@.width;
            let n = old(self)@.next_id;
            assert((n + 1) * w == n * w + w) by (nonlinear_arith);
        }
        Ok(())
    }

    /// The arena lives in memory, so its length fits a `usize`.
    pub proof fn lemma_len_bound(&self)
        ensures
            self@.vals.len() <= usize::MAX,
    {
        vstd::std_specs::vec::axiom_spec_len(&self.vals);
    }

    /// The number of rows the arena holds.
    pub fn rows(&self) -> (r: usize)
        requires
            self@.width > 0,
        ensures
            r == self@.vals.len() / self@.width,
    {
        self.vals.len() / self.width
    }
}

} // verus!
