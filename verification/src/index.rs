use vstd::prelude::*;

use roaring::RoaringBitmap;

use crate::bitmap::{bitmap_ids, bitmap_insert, bitmap_new};
use crate::column::Column;
use crate::matches::{match_key, match_to_value, Match};
use crate::value::{value_eq, value_tag, Value, ValueView};

verus! {

/// Roll-up numbers of one column index.
#[derive(Debug, Clone, Copy)]
pub struct IndexStats {
    /// Number of distinct values the column has ever seen. Deletes do not
    /// lower it.
    pub cardinality: usize,
}

/// Abstract state of an [`Index`]: the column type it serves and the
/// dictionary entries, each a value paired with its posting set of row ids.
pub struct IndexView {
    pub tag: Column,
    pub entries: Seq<(ValueView, Set<u32>)>,
}

impl IndexView {
    /// Whether some entry holds this value as its key.
    pub open spec fn contains_key(self, v: ValueView) -> bool {
        exists|i: int| 0 <= i < self.entries.len() && (#[trigger] self.entries[i]).0 == v
    }

    /// The posting set recorded for a value; empty if the value was never
    /// inserted.
    pub open spec fn posting(self, v: ValueView) -> Set<u32> {
        if self.contains_key(v) {
            let i = choose|i: int|
                0 <= i < self.entries.len() && (#[trigger] self.entries[i]).0 == v;
            self.entries[i].1
        } else {
            Set::<u32>::empty()
        }
    }

    /// Number of distinct keys.
    pub open spec fn cardinality(self) -> nat {
        self.entries.len()
    }

    /// Keys are unique and carry the index's column type; posting sets are
    /// finite.
    pub open spec fn wf(self) -> bool {
        &&& forall|i: int|
            0 <= i < self.entries.len() ==> value_tag((#[trigger] self.entries[i]).0) == self.tag
        &&& forall|i: int, j: int|
            0 <= i < j < self.entries.len() ==> (#[trigger] self.entries[i]).0 != (
            #[trigger] self.entries[j]).0
        &&& forall|i: int| 0 <= i < self.entries.len() ==> (#[trigger] self.entries[i]).1.finite()
    }
}

/// With unique keys, the posting recorded for the key at position `i` is
/// exactly that entry's set.
pub proof fn lemma_posting_at(iv: IndexView, i: int)
    requires
        iv.wf(),
        0 <= i < iv.entries.len(),
    ensures
        iv.contains_key(iv.entries[i].0),
        iv.posting(iv.entries[i].0) == iv.entries[i].1,
{
    assert(0 <= i < iv.entries.len() && (iv.entries[i]).0 == iv.entries[i].0);
    let k = choose|k: int|
        0 <= k < iv.entries.len() && (#[trigger] iv.entries[k]).0 == iv.entries[i].0;
    if k != i {
        assert(iv.entries[k].0 != iv.entries[i].0);
    }
}

/// Per-column inverted index: a dictionary from each value the column has
/// ever seen to the compressed bitmap of row ids holding that value.
///
/// Entries are kept as an association list with unique keys; postings are
/// never shrunk (deletes are tombstones held elsewhere).
pub struct Index {
    tag: Column,
    entries: Vec<(Value, RoaringBitmap)>,
}

impl View for Index {
    type V = IndexView;

    closed spec fn view(&self) -> IndexView {
        IndexView {
            tag: self.tag,
            entries: self.entries@.map_values(
                |e: (Value, RoaringBitmap)| (e.0@, bitmap_ids(e.1)),
            ),
        }
    }
}

impl Index {
    /// Creates the empty index of a column.
    pub fn new_by_column(col: &Column) -> (r: Index)
        ensures
            r@.tag == *col,
            r@.entries.len() == 0,
            r@.wf(),
    {
        let r = Index { tag: *col, entries: Vec::new() };
        proof {
            assert(r@.entries =~= Seq::<(ValueView, Set<u32>)>::empty());
        }
        r
    }

    /// Position of the entry whose key equals `val`, if any.
    fn find_key(&self, val: &Value) -> (r: Option<usize>)
        ensures
            match r {
                Some(i) => i < self.entries@.len() && self.entries@[i as int].0@ == val@,
                None => forall|j: int|
                    0 <= j < self.entries@.len() ==> (#[trigger] self.entries@[j]).0@ != val@,
            },
    {
        let mut i: usize = 0;
        while i < self.entries.len()
            invariant
                i <= self.entries@.len(),
                forall|j: int| 0 <= j < i ==> (#[trigger] self.entries@[j]).0@ != val@,
            decreases self.entries@.len() - i,
        {
            let e = &self.entries[i];
            if value_eq(&e.0, val) {
                return Some(i);
            }
            i += 1;
        }
        None
    }

    /// Adds row `id` to the posting of `val`, creating the posting if the
    /// value was never seen.
    pub fn insert(&mut self, val: &Value, id: u32)
        requires
            old(self)@.wf(),
            value_tag(val@) == old(self)@.tag,
        ensures
            final(self)@.wf(),
            final(self)@.tag == old(self)@.tag,
            forall|v: ValueView|
                final(self)@.contains_key(v) <==> (old(self)@.contains_key(v) || v == val@),
            forall|v: ValueView|
                v != val@ ==> final(self)@.posting(v) == old(self)@.posting(v),
            final(self)@.posting(val@) == old(self)@.posting(val@).insert(id),
            final(self)@.cardinality() == old(self)@.cardinality() + (if old(
                self,
            )@.contains_key(val@) {
                0int
            } else {
                1int
            }),
    {
        let found = self.find_key(val);
        match found {
            Some(i) => {
                proof {
                    lemma_posting_at(old(self)@, i as int);
                }
                let (k, mut bm) = self.entries.remove(i);
                bitmap_insert(&mut bm, id);
                self.entries.insert(i, (k, bm));
                proof {
                    let ov = old(self)@;
                    let nv = self@;
                    assert(nv.entries =~= ov.entries.update(
                        i as int,
                        (val@, ov.entries[i as int].1.insert(id)),
                    ));
                    lemma_insert_at_existing(ov, nv, i as int, val@, id);
                }
            },
            None => {
                let mut bm = bitmap_new();
                bitmap_insert(&mut bm, id);
                self.entries.push((val.clone(), bm));
                proof {
                    let ov = old(self)@;
                    let nv = self@;
                    assert(nv.entries =~= ov.entries.push(
                        (val@, Set::<u32>::empty().insert(id)),
                    ));
                    assert(forall|j: int|
                        0 <= j < ov.entries.len() ==> (#[trigger] ov.entries[j]).0 != val@);
                    lemma_insert_at_new(ov, nv, val@, id);
                }
            },
        }
    }

    /// The posting bitmap recorded for a value, if the value was ever seen
    /// in this column.
    pub fn get_value_index(&self, val: &Value) -> (r: Option<&RoaringBitmap>)
        requires
            self@.wf(),
        ensures
            match r {
                Some(bm) => self@.contains_key(val@) && bitmap_ids(*bm) == self@.posting(val@),
                None => !self@.contains_key(val@),
            },
    {
        let found = self.find_key(val);
        match found {
            Some(i) => {
                proof {
                    lemma_posting_at(self@, i as int);
                }
                Some(&self.entries[i].1)
            },
            None => {
                proof {
                    assert(forall|j: int|
                        0 <= j < self@.entries.len() ==> (#[trigger] self@.entries[j]).0
                            != val@);
                }
                None
            },
        }
    }

    /// The posting bitmap recorded for a non-wildcard matcher's value.
    pub fn get_match_index(&self, m: &Match) -> (r: Option<&RoaringBitmap>)
        requires
            self@.wf(),
            !(m@ is Any),
        ensures
            match r {
                Some(bm) => self@.contains_key(match_key(m@)->Some_0) && bitmap_ids(*bm)
                    == self@.posting(match_key(m@)->Some_0),
                None => !self@.contains_key(match_key(m@)->Some_0),
            },
    {
        let v = match match_to_value(m) {
            Some(v) => v,
            None => {
                return None;
            },
        };
        self.get_value_index(&v)
    }

    /// Roll-up numbers of this index.
    pub fn stats(&self) -> (r: IndexStats)
        ensures
            r.cardinality == self@.cardinality(),
    {
        IndexStats { cardinality: self.entries.len() }
    }
}

/// Effect of adding `id` under a key already present at position `i`.
proof fn lemma_insert_at_existing(ov: IndexView, nv: IndexView, i: int, key: ValueView, id: u32)
    requires
        ov.wf(),
        0 <= i < ov.entries.len(),
        ov.entries[i].0 == key,
        nv.tag == ov.tag,
        nv.entries == ov.entries.update(i, (key, ov.entries[i].1.insert(id))),
    ensures
        nv.wf(),
        forall|v: ValueView| nv.contains_key(v) <==> (ov.contains_key(v) || v == key),
        forall|v: ValueView| v != key ==> nv.posting(v) == ov.posting(v),
        nv.posting(key) == ov.posting(key).insert(id),
        nv.cardinality() == ov.cardinality(),
{
    assert forall|v: ValueView| nv.contains_key(v) implies (ov.contains_key(v) || v == key) by {
        let k = choose|k: int|
            0 <= k < nv.entries.len() && (#[trigger] nv.entries[k]).0 == v;
        if k != i {
            assert(ov.entries[k].0 == v);
        }
    }
    assert forall|v: ValueView| ov.contains_key(v) implies nv.contains_key(v) by {
        let k = choose|k: int|
            0 <= k < ov.entries.len() && (#[trigger] ov.entries[k]).0 == v;
        if k == i {
            assert(nv.entries[i].0 == v);
        } else {
            assert(nv.entries[k].0 == v);
        }
    }
    assert(nv.entries[i].0 == key);
    lemma_posting_at(ov, i);
    lemma_posting_at(nv, i);
    assert(nv.posting(key) == ov.posting(key).insert(id));
    assert forall|v: ValueView| v != key implies nv.posting(v) == ov.posting(v) by {
        if ov.contains_key(v) {
            let k = choose|k: int|
                0 <= k < ov.entries.len() && (#[trigger] ov.entries[k]).0 == v;
            assert(k != i);
            assert(nv.entries[k].0 == v);
            lemma_posting_at(ov, k);
            lemma_posting_at(nv, k);
        }
    }
}

/// Effect of adding `id` under a key not present before: the entry list
/// grows by one.
proof fn lemma_insert_at_new(ov: IndexView, nv: IndexView, key: ValueView, id: u32)
    requires
        ov.wf(),
        value_tag(key) == ov.tag,
        forall|j: int| 0 <= j < ov.entries.len() ==> (#[trigger] ov.entries[j]).0 != key,
        nv.tag == ov.tag,
        nv.entries == ov.entries.push((key, Set::<u32>::empty().insert(id))),
    ensures
        nv.wf(),
        forall|v: ValueView| nv.contains_key(v) <==> (ov.contains_key(v) || v == key),
        forall|v: ValueView| v != key ==> nv.posting(v) == ov.posting(v),
        nv.posting(key) == ov.posting(key).insert(id),
        nv.cardinality() == ov.cardinality() + 1,
{
    let n = ov.entries.len() as int;
    assert(nv.entries[n].0 == key);
    assert forall|v: ValueView| nv.contains_key(v) implies (ov.contains_key(v) || v == key) by {
        let k = choose|k: int|
            0 <= k < nv.entries.len() && (#[trigger] nv.entries[k]).0 == v;
        if k != n {
            assert(ov.entries[k].0 == v);
        }
    }
    assert forall|v: ValueView| ov.contains_key(v) implies nv.contains_key(v) by {
        let k = choose|k: int|
            0 <= k < ov.entries.len() && (#[trigger] ov.entries[k]).0 == v;
        assert(nv.entries[k].0 == v);
    }
    assert(nv.wf()) by {
        assert(forall|i: int|
            0 <= i < nv.entries.len() ==> value_tag((#[trigger] nv.entries[i]).0) == nv.tag);
        assert forall|i: int, j: int|
            0 <= i < j < nv.entries.len() implies (#[trigger] nv.entries[i]).0 != (
        #[trigger] nv.entries[j]).0 by {
            if j < n {
                assert(ov.entries[i].0 != ov.entries[j].0);
            } else {
                assert(nv.entries[i].0 == ov.entries[i].0);
            }
        }
    }
    lemma_posting_at(nv, n);
    assert(!ov.contains_key(key));
    assert(nv.posting(key) == ov.posting(key).insert(id)) by {
        assert(ov.posting(key) == Set::<u32>::empty());
    }
    assert forall|v: ValueView| v != key implies nv.posting(v) == ov.posting(v) by {
        if ov.contains_key(v) {
            let k = choose|k: int|
                0 <= k < ov.entries.len() && (#[trigger] ov.entries[k]).0 == v;
            assert(nv.entries[k].0 == v);
            lemma_posting_at(ov, k);
            lemma_posting_at(nv, k);
        } else {
            if nv.contains_key(v) {
                assert(v == key);
            }
        }
    }
}

} // verus!
