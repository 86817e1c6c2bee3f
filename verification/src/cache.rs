use vstd::prelude::*;

use crate::bucket::{
    flat_check, insert_check, pattern_check, Bucket, BucketBuilder, BucketStats, BucketView,
};
use crate::column::ColumnBuilder;
use crate::errs::Error;
use crate::matches::Match;
use crate::pattern::Pattern;
use crate::value::Value;

verus! {

/// Abstract state of a [`Cache`]: the buckets in insertion order, each
/// under its name. Names are unique.
pub type CacheView = Seq<(Seq<char>, BucketView)>;

/// Whether some bucket lives under this name.
pub open spec fn cache_has(cv: CacheView, name: Seq<char>) -> bool {
    exists|i: int| 0 <= i < cv.len() && (#[trigger] cv[i]).0 == name
}

/// Position of the bucket under this name.
pub open spec fn cache_index_of(cv: CacheView, name: Seq<char>) -> int {
    choose|i: int| 0 <= i < cv.len() && (#[trigger] cv[i]).0 == name
}

/// The bucket under this name.
pub open spec fn cache_at(cv: CacheView, name: Seq<char>) -> BucketView {
    cv[cache_index_of(cv, name)].1
}

/// Names are pairwise distinct.
pub open spec fn cache_names_unique(cv: CacheView) -> bool {
    forall|i: int, j: int|
        0 <= i < j < cv.len() ==> (#[trigger] cv[i]).0 != (#[trigger] cv[j]).0
}

/// The view a bucket fresh from a builder's schema has: the declared
/// columns and nothing else. Its token is left unconstrained; it comes
/// from a random source.
pub open spec fn fresh_bucket_view(bv: BucketView, cols: Seq<ColumnBuilder>) -> bool {
    &&& bv.cols == cols.map_values(|cb: ColumnBuilder| cb.as_column())
    &&& bv.vals.len() == 0
    &&& bv.deleted == Set::<u32>::empty()
    &&& bv.inserts == 0
    &&& bv.deletes == 0
}

/// With unique names, the entry at position `i` is the one its name finds.
pub proof fn lemma_cache_at(cv: CacheView, i: int)
    requires
        cache_names_unique(cv),
        0 <= i < cv.len(),
    ensures
        cache_has(cv, cv[i].0),
        cache_index_of(cv, cv[i].0) == i,
        cache_at(cv, cv[i].0) == cv[i].1,
{
    assert(0 <= i < cv.len() && cv[i].0 == cv[i].0);
    let k = choose|k: int| 0 <= k < cv.len() && (#[trigger] cv[k]).0 == cv[i].0;
    if k != i {
        assert(cv[k].0 != cv[i].0);
    }
}

/// Addition that stops at `usize::MAX` instead of wrapping.
pub open spec fn sat_add(a: int, b: int) -> int {
    if a + b > usize::MAX as int {
        usize::MAX as int
    } else {
        a + b
    }
}

/// Saturating sum of a sequence.
pub open spec fn sat_sum(s: Seq<int>) -> int
    decreases s.len(),
{
    if s.len() == 0 {
        0int
    } else {
        sat_add(sat_sum(s.drop_last()), s.last())
    }
}

/// Executable saturating addition.
fn sat_add_usize(a: usize, b: usize) -> (r: usize)
    ensures
        r as int == sat_add(a as int, b as int),
{
    if a > usize::MAX - b {
        usize::MAX
    } else {
        a + b
    }
}

/// Roll-up numbers over a whole cache, as returned by [`Cache::stats`]:
/// per-bucket statistics in bucket order, and saturating totals.
#[derive(Debug)]
pub struct CacheStats {
    /// Each bucket's statistics under its name, in cache order.
    pub buckets: Vec<(String, BucketStats)>,
    /// Total columns over all buckets.
    pub columns: usize,
    /// Total inserts over all buckets.
    pub inserts: usize,
    /// Total deletes over all buckets.
    pub deletes: usize,
    /// Total live rows over all buckets.
    pub rows: usize,
}

/// The named-bucket store: owns every bucket, mediates access by name, and
/// aggregates statistics.
pub struct Cache {
    buckets: Vec<(String, Bucket)>,
}

impl View for Cache {
    type V = CacheView;

    closed spec fn view(&self) -> CacheView {
        self.buckets@.map_values(|e: (String, Bucket)| (e.0@, e.1@))
    }
}

impl Cache {
    /// Bucket names are unique and every bucket satisfies its invariant.
    pub closed spec fn inv(&self) -> bool {
        &&& cache_names_unique(self@)
        &&& forall|i: int| 0 <= i < self.buckets@.len() ==> (#[trigger] self.buckets@[i]).1.inv()
    }

    /// Creates an empty cache.
    pub fn new() -> (r: Cache)
        ensures
            r@.len() == 0,
            r.inv(),
    {
        let r = Cache { buckets: Vec::new() };
        proof {
            assert(r@ =~= Seq::<(Seq<char>, BucketView)>::empty());
        }
        r
    }

    /// Position of the bucket under this name, if any.
    fn find_bucket(&self, name: &str) -> (r: Option<usize>)
        requires
            self.inv(),
        ensures
            match r {
                Some(i) => {
                    &&& i < self@.len()
                    &&& self@[i as int].0 == name@
                    &&& cache_has(self@, name@)
                    &&& cache_index_of(self@, name@) == i
                },
                None => !cache_has(self@, name@),
            },
    {
        let name_s: String = name.to_string();
        proof {
            vstd::string::to_string_from_display_ensures_for_str(name, name_s);
        }
        let mut i: usize = 0;
        while i < self.buckets.len()
            invariant
                self.inv(),
                name_s@ == name@,
                i <= self.buckets@.len(),
                forall|j: int| 0 <= j < i ==> (#[trigger] self.buckets@[j]).0@ != name@,
            decreases self.buckets@.len() - i,
        {
            let e = &self.buckets[i];
            if e.0.eq(&name_s) {
                proof {
                    lemma_cache_at(self@, i as int);
                }
                return Some(i);
            }
            i += 1;
        }
        proof {
            if cache_has(self@, name@) {
                let k = choose|k: int| 0 <= k < self@.len() && (#[trigger] self@[k]).0 == name@;
                assert(self.buckets@[k].0@ != name@);
            }
        }
        None
    }

    /// Builds a bucket from the builder's schema and stores it under the
    /// builder's name. A bucket already under that name is replaced, in
    /// place and without a diagnostic. Fails with `NoColumn` on an empty
    /// schema.
    pub fn new_bucket(&mut self, bb: BucketBuilder) -> (r: Result<(), Error>)
        requires
            old(self).inv(),
        ensures
            final(self).inv(),
            match r {
                Err(e) => {
                    &&& e == Error::NoColumn
                    &&& bb.columns@.len() == 0
                    &&& final(self)@ == old(self)@
                },
                Ok(_) => {
                    &&& bb.columns@.len() > 0
                    &&& exists|bv: BucketView|
                        #[trigger] fresh_bucket_view(bv, bb.columns@) && (if cache_has(
                            old(self)@,
                            bb.name@,
                        ) {
                            final(self)@ == old(self)@.update(
                                cache_index_of(old(self)@, bb.name@),
                                (bb.name@, bv),
                            )
                        } else {
                            final(self)@ == old(self)@.push((bb.name@, bv))
                        })
                },
            },
    {
        let BucketBuilder { name, columns } = bb;
        let rb = Bucket::new(columns);
        match rb {
            Err(e) => Err(e),
            Ok(b) => {
                let ghost bv = b@;
                let found = self.find_bucket(name.as_str());
                match found {
                    Some(i) => {
                        let _old_entry = self.buckets.remove(i);
                        self.buckets.insert(i, (name, b));
                        proof {
                            assert(fresh_bucket_view(bv, bb.columns@));
                            assert(self@ =~= old(self)@.update(i as int, (bb.name@, bv)));
                            assert forall|a: int, c: int|
                                0 <= a < c < self@.len() implies (#[trigger] self@[a]).0 != (
                            #[trigger] self@[c]).0 by {
                                assert(old(self)@[a].0 != old(self)@[c].0);
                            }
                        }
                        Ok(())
                    },
                    None => {
                        self.buckets.push((name, b));
                        proof {
                            assert(fresh_bucket_view(bv, bb.columns@));
                            assert(self@ =~= old(self)@.push((bb.name@, bv)));
                            assert forall|a: int, c: int|
                                0 <= a < c < self@.len() implies (#[trigger] self@[a]).0 != (
                            #[trigger] self@[c]).0 by {
                                if c < self@.len() - 1 {
                                    assert(old(self)@[a].0 != old(self)@[c].0);
                                } else {
                                    assert(self@[a].0 == old(self)@[a].0);
                                }
                            }
                        }
                        Ok(())
                    },
                }
            },
        }
    }

    /// Whether a bucket lives under this name.
    pub fn has_bucket(&self, bucket_name: &str) -> (r: bool)
        requires
            self.inv(),
        ensures
            r == cache_has(self@, bucket_name@),
    {
        let found = self.find_bucket(bucket_name);
        match found {
            Some(_) => true,
            None => false,
        }
    }

    /// Removes the bucket under this name, releasing its memory; silent if
    /// there is none.
    pub fn drop_bucket(&mut self, bucket_name: &str)
        requires
            old(self).inv(),
        ensures
            final(self).inv(),
            cache_has(old(self)@, bucket_name@) ==> final(self)@ == old(self)@.remove(
                cache_index_of(old(self)@, bucket_name@),
            ),
            !cache_has(old(self)@, bucket_name@) ==> final(self)@ == old(self)@,
    {
        let found = self.find_bucket(bucket_name);
        match found {
            Some(i) => {
                let _ = self.buckets.remove(i);
                proof {
                    assert(self@ =~= old(self)@.remove(i as int));
                    assert forall|a: int, c: int|
                        0 <= a < c < self@.len() implies (#[trigger] self@[a]).0 != (
                    #[trigger] self@[c]).0 by {
                        let a0: int = if a < i { a } else { a + 1 };
                        let c0: int = if c < i { c } else { c + 1 };
                        assert(old(self)@[a0].0 != old(self)@[c0].0);
                    }
                }
            },
            None => {},
        }
    }

    /// Borrows the bucket under this name for reading: queries, column
    /// capabilities, statistics.
    pub fn bucket(&self, bucket_name: &str) -> (r: Option<&Bucket>)
        requires
            self.inv(),
        ensures
            match r {
                Some(b) => {
                    &&& cache_has(self@, bucket_name@)
                    &&& b.inv()
                    &&& b@ == cache_at(self@, bucket_name@)
                },
                None => !cache_has(self@, bucket_name@),
            },
    {
        let found = self.find_bucket(bucket_name);
        match found {
            Some(i) => Some(&self.buckets[i].1),
            None => None,
        }
    }

    /// Roll-up numbers over every bucket, in cache order, with saturating
    /// totals.
    pub fn stats(&self) -> (r: CacheStats)
        requires
            self.inv(),
        ensures
            r.buckets@.len() == self@.len(),
            forall|i: int|
                0 <= i < self@.len() ==> {
                    let bs = #[trigger] r.buckets@[i];
                    &&& bs.0@ == self@[i].0
                    &&& bs.1.columns == self@[i].1.width()
                    &&& bs.1.inserts == self@[i].1.inserts
                    &&& bs.1.deletes == self@[i].1.deletes
                    &&& bs.1.rows == self@[i].1.inserts - self@[i].1.deletes
                    &&& bs.1.index_stats@.len() == self@[i].1.width()
                    &&& forall|k: int|
                        0 <= k < self@[i].1.width() ==> (
                        #[trigger] bs.1.index_stats@[k]).cardinality == self@[i].1.col_domain(
                            k,
                        ).len()
                },
            r.columns as int == sat_sum(
                self@.map_values(|e: (Seq<char>, BucketView)| e.1.width() as int),
            ),
            r.inserts as int == sat_sum(
                self@.map_values(|e: (Seq<char>, BucketView)| e.1.inserts as int),
            ),
            r.deletes as int == sat_sum(
                self@.map_values(|e: (Seq<char>, BucketView)| e.1.deletes as int),
            ),
            r.rows as int == sat_sum(
                self@.map_values(
                    |e: (Seq<char>, BucketView)| e.1.inserts - e.1.deletes,
                ),
            ),
    {
        let ghost cols_of = |e: (Seq<char>, BucketView)| e.1.width() as int;
        let ghost ins_of = |e: (Seq<char>, BucketView)| e.1.inserts as int;
        let ghost del_of = |e: (Seq<char>, BucketView)| e.1.deletes as int;
        let ghost rows_of = |e: (Seq<char>, BucketView)| e.1.inserts - e.1.deletes;
        let mut out: Vec<(String, BucketStats)> = Vec::new();
        let mut columns: usize = 0;
        let mut inserts: usize = 0;
        let mut deletes: usize = 0;
        let mut rows: usize = 0;
        let mut i: usize = 0;
        while i < self.buckets.len()
            invariant
                self.inv(),
                i <= self@.len(),
                out@.len() == i,
                cols_of == (|e: (Seq<char>, BucketView)| e.1.width() as int),
                ins_of == (|e: (Seq<char>, BucketView)| e.1.inserts as int),
                del_of == (|e: (Seq<char>, BucketView)| e.1.deletes as int),
                rows_of == (|e: (Seq<char>, BucketView)| e.1.inserts - e.1.deletes),
                forall|j: int|
                    0 <= j < i ==> {
                        let bs = #[trigger] out@[j];
                        &&& bs.0@ == self@[j].0
                        &&& bs.1.columns == self@[j].1.width()
                        &&& bs.1.inserts == self@[j].1.inserts
                        &&& bs.1.deletes == self@[j].1.deletes
                        &&& bs.1.rows == self@[j].1.inserts - self@[j].1.deletes
                        &&& bs.1.index_stats@.len() == self@[j].1.width()
                        &&& forall|k: int|
                            0 <= k < self@[j].1.width() ==> (
                            #[trigger] bs.1.index_stats@[k]).cardinality == self@[j].1.col_domain(
                                k,
                            ).len()
                    },
                columns as int == sat_sum(self@.take(i as int).map_values(cols_of)),
                inserts as int == sat_sum(self@.take(i as int).map_values(ins_of)),
                deletes as int == sat_sum(self@.take(i as int).map_values(del_of)),
                rows as int == sat_sum(self@.take(i as int).map_values(rows_of)),
            decreases self@.len() - i,
        {
            let e = &self.buckets[i];
            let bs = e.1.stats();
            let name_copy = e.0.clone();
            columns = sat_add_usize(columns, bs.columns);
            inserts = sat_add_usize(inserts, bs.inserts);
            deletes = sat_add_usize(deletes, bs.deletes);
            rows = sat_add_usize(rows, bs.rows);
            out.push((name_copy, bs));
            i += 1;
            proof {
                lemma_sat_sum_take_step(self@, cols_of, i as int);
                lemma_sat_sum_take_step(self@, ins_of, i as int);
                lemma_sat_sum_take_step(self@, del_of, i as int);
                lemma_sat_sum_take_step(self@, rows_of, i as int);
            }
        }
        proof {
            assert(self@.take(self@.len() as int) =~= self@);
        }
        CacheStats { buckets: out, columns, inserts, deletes, rows }
    }

    /// Inserts a row into the bucket under this name; `InvalidBucket` if
    /// there is none. See [`Bucket::insert`].
    pub fn insert(&mut self, bucket_name: &str, vals: Vec<Value>) -> (r: Result<(), Error>)
        requires
            old(self).inv(),
            cache_has(old(self)@, bucket_name@) ==> cache_at(old(self)@, bucket_name@).inserts
                < u32::MAX,
        ensures
            final(self).inv(),
            !cache_has(old(self)@, bucket_name@) ==> r == Err::<(), Error>(
                Error::InvalidBucket,
            ) && final(self)@ == old(self)@,
            cache_has(old(self)@, bucket_name@) ==> {
                let i = cache_index_of(old(self)@, bucket_name@);
                let ov = cache_at(old(self)@, bucket_name@);
                &&& final(self)@.len() == old(self)@.len()
                &&& forall|j: int|
                    0 <= j < old(self)@.len() && j != i ==> #[trigger] final(self)@[j] == old(self)@[j]
                &&& final(self)@[i].0 == old(self)@[i].0
                &&& match r {
                    Err(e) => insert_check(ov.cols, vals.deep_view()) == Some(e) && final(self)@[i].1 == ov,
                    Ok(_) => {
                        &&& insert_check(ov.cols, vals.deep_view()) is None
                        &&& final(self)@[i].1.token == ov.token
                        &&& final(self)@[i].1.cols == ov.cols
                        &&& final(self)@[i].1.vals == ov.vals + vals.deep_view()
                        &&& final(self)@[i].1.deleted == ov.deleted
                        &&& final(self)@[i].1.inserts == ov.inserts + 1
                        &&& final(self)@[i].1.deletes == ov.deletes
                    },
                }
            },
    {
        let found = self.find_bucket(bucket_name);
        match found {
            None => Err(Error::InvalidBucket),
            Some(i) => {
                let (n, mut b) = self.buckets.remove(i);
                let r = b.insert(vals);
                self.buckets.insert(i, (n, b));
                proof {
                    self.lemma_entry_back(old(self)@, i as int, b@);
                }
                r
            },
        }
    }

    /// Inserts a row into the bucket under this name unless an equivalent
    /// live row exists; `InvalidBucket` if there is none. See
    /// [`Bucket::insert_unique`].
    pub fn insert_unique(&mut self, bucket_name: &str, vals: Vec<Value>) -> (r: Result<
        bool,
        Error,
    >)
        requires
            old(self).inv(),
            cache_has(old(self)@, bucket_name@) ==> cache_at(old(self)@, bucket_name@).inserts
                < u32::MAX,
        ensures
            final(self).inv(),
            !cache_has(old(self)@, bucket_name@) ==> r == Err::<bool, Error>(
                Error::InvalidBucket,
            ) && final(self)@ == old(self)@,
            cache_has(old(self)@, bucket_name@) ==> {
                let i = cache_index_of(old(self)@, bucket_name@);
                let ov = cache_at(old(self)@, bucket_name@);
                &&& final(self)@.len() == old(self)@.len()
                &&& forall|j: int|
                    0 <= j < old(self)@.len() && j != i ==> #[trigger] final(self)@[j] == old(self)@[j]
                &&& final(self)@[i].0 == old(self)@[i].0
                &&& match r {
                    Err(e) => insert_check(ov.cols, vals.deep_view()) == Some(e) && final(self)@[i].1 == ov,
                    Ok(false) => {
                        &&& insert_check(ov.cols, vals.deep_view()) is None
                        &&& ov.has_live_row(vals.deep_view())
                        &&& final(self)@[i].1 == ov
                    },
                    Ok(true) => {
                        &&& insert_check(ov.cols, vals.deep_view()) is None
                        &&& !ov.has_live_row(vals.deep_view())
                        &&& final(self)@[i].1.token == ov.token
                        &&& final(self)@[i].1.cols == ov.cols
                        &&& final(self)@[i].1.vals == ov.vals + vals.deep_view()
                        &&& final(self)@[i].1.deleted == ov.deleted
                        &&& final(self)@[i].1.inserts == ov.inserts + 1
                        &&& final(self)@[i].1.deletes == ov.deletes
                    },
                }
            },
    {
        let found = self.find_bucket(bucket_name);
        match found {
            None => Err(Error::InvalidBucket),
            Some(i) => {
                let (n, mut b) = self.buckets.remove(i);
                let r = b.insert_unique(vals);
                self.buckets.insert(i, (n, b));
                proof {
                    self.lemma_entry_back(old(self)@, i as int, b@);
                }
                r
            },
        }
    }

    /// Deletes the rows a flat match vector selects in the bucket under
    /// this name; `InvalidBucket` if there is none. See [`Bucket::delete`].
    pub fn delete(&mut self, bucket_name: &str, matches: &Vec<Match>) -> (r: Result<
        usize,
        Error,
    >)
        requires
            old(self).inv(),
        ensures
            final(self).inv(),
            !cache_has(old(self)@, bucket_name@) ==> r == Err::<usize, Error>(
                Error::InvalidBucket,
            ) && final(self)@ == old(self)@,
            cache_has(old(self)@, bucket_name@) ==> {
                let i = cache_index_of(old(self)@, bucket_name@);
                let ov = cache_at(old(self)@, bucket_name@);
                &&& final(self)@.len() == old(self)@.len()
                &&& forall|j: int|
                    0 <= j < old(self)@.len() && j != i ==> #[trigger] final(self)@[j] == old(self)@[j]
                &&& final(self)@[i].0 == old(self)@[i].0
                &&& match r {
                    Err(e) => flat_check(ov.cols, matches.deep_view()) == Some(e) && final(self)@[i].1 == ov,
                    Ok(n) => {
                        &&& flat_check(ov.cols, matches.deep_view()) is None
                        &&& n == ov.flat_live_ids(matches.deep_view()).len()
                        &&& final(self)@[i].1.deleted == ov.deleted.union(
                            ov.flat_live_ids(matches.deep_view()).to_set(),
                        )
                        &&& final(self)@[i].1.deletes == ov.deletes + n
                        &&& final(self)@[i].1.inserts == ov.inserts
                        &&& final(self)@[i].1.vals == ov.vals
                        &&& final(self)@[i].1.cols == ov.cols
                        &&& final(self)@[i].1.token == ov.token
                    },
                }
            },
    {
        let found = self.find_bucket(bucket_name);
        match found {
            None => Err(Error::InvalidBucket),
            Some(i) => {
                let (n, mut b) = self.buckets.remove(i);
                let r = b.delete(matches);
                self.buckets.insert(i, (n, b));
                proof {
                    self.lemma_entry_back(old(self)@, i as int, b@);
                }
                r
            },
        }
    }

    /// Deletes the rows a pattern selects in the bucket under this name;
    /// `InvalidBucket` if there is none. See [`Bucket::delete_pattern`].
    pub fn delete_pattern(&mut self, bucket_name: &str, pattern: &Pattern) -> (r: Result<
        usize,
        Error,
    >)
        requires
            old(self).inv(),
        ensures
            final(self).inv(),
            !cache_has(old(self)@, bucket_name@) ==> r == Err::<usize, Error>(
                Error::InvalidBucket,
            ) && final(self)@ == old(self)@,
            cache_has(old(self)@, bucket_name@) ==> {
                let i = cache_index_of(old(self)@, bucket_name@);
                let ov = cache_at(old(self)@, bucket_name@);
                &&& final(self)@.len() == old(self)@.len()
                &&& forall|j: int|
                    0 <= j < old(self)@.len() && j != i ==> #[trigger] final(self)@[j] == old(self)@[j]
                &&& final(self)@[i].0 == old(self)@[i].0
                &&& match r {
                    Err(e) => pattern_check(*pattern, ov.token, ov.cols) == Some(e) && final(self)@[i].1 == ov,
                    Ok(n) => {
                        &&& pattern_check(*pattern, ov.token, ov.cols) is None
                        &&& n == ov.pattern_live_ids(*pattern).len()
                        &&& final(self)@[i].1.deleted == ov.deleted.union(
                            ov.pattern_live_ids(*pattern).to_set(),
                        )
                        &&& final(self)@[i].1.deletes == ov.deletes + n
                        &&& final(self)@[i].1.inserts == ov.inserts
                        &&& final(self)@[i].1.vals == ov.vals
                        &&& final(self)@[i].1.cols == ov.cols
                        &&& final(self)@[i].1.token == ov.token
                    },
                }
            },
    {
        let found = self.find_bucket(bucket_name);
        match found {
            None => Err(Error::InvalidBucket),
            Some(i) => {
                let (n, mut b) = self.buckets.remove(i);
                let r = b.delete_pattern(pattern);
                self.buckets.insert(i, (n, b));
                proof {
                    self.lemma_entry_back(old(self)@, i as int, b@);
                }
                r
            },
        }
    }

    /// After taking entry `i` out and putting it back with a new bucket,
    /// the cache view is the old one with entry `i`'s bucket replaced.
    proof fn lemma_entry_back(&self, ocv: CacheView, i: int, nb: BucketView)
        requires
            0 <= i < ocv.len(),
            cache_names_unique(ocv),
            self@.len() == ocv.len(),
            forall|j: int| 0 <= j < ocv.len() && j != i ==> #[trigger] self@[j] == ocv[j],
            self@[i].0 == ocv[i].0,
            self@[i].1 == nb,
        ensures
            cache_names_unique(self@),
            cache_has(self@, ocv[i].0),
    {
        assert forall|a: int, c: int|
            0 <= a < c < self@.len() implies (#[trigger] self@[a]).0 != (
        #[trigger] self@[c]).0 by {
            assert(ocv[a].0 != ocv[c].0);
        }
    }
}

/// One step of a saturating sum over a prefix.
proof fn lemma_sat_sum_take_step(
    cv: CacheView,
    f: spec_fn((Seq<char>, BucketView)) -> int,
    i: int,
)
    requires
        0 < i <= cv.len(),
    ensures
        sat_sum(cv.take(i).map_values(f)) == sat_add(
            sat_sum(cv.take(i - 1).map_values(f)),
            f(cv[i - 1]),
        ),
{
    let s = cv.take(i).map_values(f);
    assert(s.len() == i);
    assert(s.drop_last() =~= cv.take(i - 1).map_values(f));
    assert(s.last() == f(cv[i - 1]));
}

} // verus!
