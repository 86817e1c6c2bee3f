use vstd::prelude::*;

use roaring::RoaringBitmap;

use crate::bitmap::{
    bitmap_and, bitmap_clone, bitmap_contains, bitmap_ids, bitmap_insert, bitmap_is_empty,
    bitmap_len, bitmap_new, bitmap_or, bitmap_to_vec,
};
use crate::column::{Column, ColumnBuilder, ColumnRef};
use crate::errs::Error;
use crate::index::{Index, IndexStats, IndexView};
use crate::matches::{
    exact_match_of, exact_match_views, exact_matches_of, match_admits, match_key, Match,
    MatchResults, MatchView,
};
use crate::pattern::Pattern;
use crate::token::Token;
use crate::value::{value_tag, Value, ValueStore, ValueView};

verus! {

// ---------------------------------------------------------------------------
// Abstract model
// ---------------------------------------------------------------------------
/// Abstract state of a [`Bucket`]: everything its behaviour is specified
/// against. The per-column indices are derived data and do not appear here;
/// the bucket's invariant ties them to `vals`.
pub struct BucketView {
    /// The capability token issued at creation.
    pub token: Token,
    /// The schema: one column type per position.
    pub cols: Seq<Column>,
    /// The flattened arena: row `i` occupies `[i*width, (i+1)*width)`.
    pub vals: Seq<ValueView>,
    /// Ids of logically deleted rows.
    pub deleted: Set<u32>,
    /// Rows ever inserted; also the id the next row will get.
    pub inserts: nat,
    /// Rows ever deleted.
    pub deletes: nat,
}

impl BucketView {
    /// Number of columns.
    pub open spec fn width(self) -> nat {
        self.cols.len()
    }

    /// Rows ever inserted, tombstoned or not.
    pub open spec fn total(self) -> nat {
        self.inserts
    }

    /// The cell of row `id` at column `k`.
    pub open spec fn row_val(self, id: u32, k: int) -> ValueView {
        self.vals[id as int * self.width() as int + k]
    }

    /// Row `id` as a sequence of `width` cells.
    pub open spec fn row(self, id: u32) -> Seq<ValueView> {
        self.vals.subrange(
            id as int * self.width() as int,
            (id as int + 1) * self.width() as int,
        )
    }

    /// Whether row `id` exists and is not tombstoned.
    pub open spec fn live(self, id: u32) -> bool {
        id < self.total() && !self.deleted.contains(id)
    }

    /// Well-formedness: at least one column, a rectangular arena of typed
    /// cells, tombstones within range, and counters that agree with the
    /// arena and the tombstone set.
    pub open spec fn wf(self) -> bool {
        &&& self.cols.len() >= 1
        &&& self.vals.len() == self.total() * self.width()
        &&& self.total() <= u32::MAX
        &&& self.deletes <= self.inserts
        &&& self.deleted.finite()
        &&& self.deleted.len() == self.deletes
        &&& forall|id: u32| self.deleted.contains(id) ==> id < self.total()
        &&& forall|id: u32, k: int|
            id < self.total() && 0 <= k < self.width() ==> value_tag(
                #[trigger] self.row_val(id, k),
            ) == self.cols[k]
    }

    /// All row ids ever assigned, ascending.
    pub open spec fn all_ids(self) -> Seq<u32> {
        Seq::new(self.total(), |i: int| i as u32)
    }

    /// Whether row `id` satisfies every matcher of a flat match vector.
    pub open spec fn flat_match_at(self, ms: Seq<MatchView>, id: u32) -> bool {
        forall|k: int|
            0 <= k < self.width() ==> match_admits(ms[k], #[trigger] self.row_val(id, k))
    }

    /// The live rows a flat match vector selects, as ascending row ids.
    pub open spec fn flat_live_ids(self, ms: Seq<MatchView>) -> Seq<u32> {
        self.all_ids().filter(
            |id: u32| self.flat_match_at(ms, id) && !self.deleted.contains(id),
        )
    }

    /// The live rows a pattern selects, as ascending row ids.
    pub open spec fn pattern_live_ids(self, p: Pattern) -> Seq<u32> {
        self.all_ids().filter(
            |id: u32| pattern_matches(p, self, id) && !self.deleted.contains(id),
        )
    }

    /// The rows at the given ids, in order.
    pub open spec fn rows_at(self, ids: Seq<u32>) -> Seq<Seq<ValueView>> {
        ids.map_values(|id: u32| self.row(id))
    }

    /// Whether some live row holds exactly these cells.
    pub open spec fn has_live_row(self, row: Seq<ValueView>) -> bool {
        exists|id: u32| #[trigger] self.live(id) && self.row(id) == row
    }

    /// The distinct values column `k` has ever seen, tombstoned rows
    /// included: the domain whose size an index reports as cardinality.
    pub open spec fn col_domain(self, k: int) -> Set<ValueView> {
        Set::new(
            |v: ValueView|
                exists|id: u32| id < self.total() && #[trigger] self.row_val(id, k) == v,
        )
    }
}

// ---------------------------------------------------------------------------
// Validation, as specification functions
// ---------------------------------------------------------------------------
/// First type mismatch of a row against the schema, scanning from column `k`.
pub open spec fn row_type_errors(cols: Seq<Column>, vals: Seq<ValueView>, k: int) -> Option<Error>
    decreases cols.len() - k,
{
    if !(0 <= k < cols.len() && cols.len() == vals.len()) {
        None
    } else if value_tag(vals[k]) != cols[k] {
        Some(Error::WrongValueType(k as usize))
    } else {
        row_type_errors(cols, vals, k + 1)
    }
}

/// The error `insert` reports for this row, if any: arity first, then the
/// first ill-typed column.
pub open spec fn insert_check(cols: Seq<Column>, vals: Seq<ValueView>) -> Option<Error> {
    if cols.len() != vals.len() {
        Some(Error::WrongNumberOfValues(cols.len() as usize, vals.len() as usize))
    } else {
        row_type_errors(cols, vals, 0)
    }
}

/// Whether a matcher may stand at a column of this type: the wildcard fits
/// everywhere, a non-wildcard matcher must carry the column's type.
pub open spec fn match_type_ok(m: MatchView, c: Column) -> bool {
    match match_key(m) {
        Some(v) => value_tag(v) == c,
        None => true,
    }
}

/// First type mismatch of a match vector against the schema, scanning from
/// column `k`.
pub open spec fn match_type_errors(cols: Seq<Column>, ms: Seq<MatchView>, k: int) -> Option<Error>
    decreases cols.len() - k,
{
    if !(0 <= k < cols.len() && cols.len() == ms.len()) {
        None
    } else if !match_type_ok(ms[k], cols[k]) {
        Some(Error::WrongMatchType(k as usize))
    } else {
        match_type_errors(cols, ms, k + 1)
    }
}

/// Whether every matcher is the wildcard.
pub open spec fn all_wildcards(ms: Seq<MatchView>) -> bool {
    forall|k: int| 0 <= k < ms.len() ==> (#[trigger] ms[k]) is Any
}

/// The error `find` and `delete` report for this match vector, if any:
/// arity, then all-wildcards, then the first ill-typed matcher.
pub open spec fn flat_check(cols: Seq<Column>, ms: Seq<MatchView>) -> Option<Error> {
    if cols.len() != ms.len() {
        Some(Error::WrongNumberOfMatches(cols.len() as usize, ms.len() as usize))
    } else if all_wildcards(ms) {
        Some(Error::NothingToMatch)
    } else {
        match_type_errors(cols, ms, 0)
    }
}

/// The error evaluating a pattern against a bucket reports, if any. Subtrees
/// are checked left before right; a `Single` is checked token and range
/// first, then types.
pub open spec fn pattern_check(p: Pattern, token: Token, cols: Seq<Column>) -> Option<Error>
    decreases p,
{
    match p {
        Pattern::Single(cr, v) => {
            if cr.t != token || cr.id >= cols.len() {
                Some(Error::InvalidColumnRef)
            } else if cr.r != cols[cr.id as int] || value_tag(v@) != cols[cr.id as int] {
                Some(Error::InvalidColumnMatch)
            } else {
                None
            }
        },
        Pattern::And(l, r) => {
            if pattern_check(*l, token, cols) is Some {
                pattern_check(*l, token, cols)
            } else {
                pattern_check(*r, token, cols)
            }
        },
        Pattern::Or(l, r) => {
            if pattern_check(*l, token, cols) is Some {
                pattern_check(*l, token, cols)
            } else {
                pattern_check(*r, token, cols)
            }
        },
    }
}

/// Whether row `id` of the bucket satisfies a pattern: a `Single` is an
/// equality test on one cell, `And`/`Or` compose.
pub open spec fn pattern_matches(p: Pattern, bv: BucketView, id: u32) -> bool
    decreases p,
{
    match p {
        Pattern::Single(cr, v) => bv.row_val(id, cr.id as int) == v@,
        Pattern::And(l, r) => pattern_matches(*l, bv, id) && pattern_matches(*r, bv, id),
        Pattern::Or(l, r) => pattern_matches(*l, bv, id) || pattern_matches(*r, bv, id),
    }
}

/// Strictly ascending: each element is smaller than the next.
pub open spec fn strictly_ascending(s: Seq<u32>) -> bool {
    forall|a: int, b: int| 0 <= a < b < s.len() ==> s[a] < s[b]
}

/// Whether row `id` satisfies the first `upto` matchers.
spec fn prefix_match(bv: BucketView, ms: Seq<MatchView>, id: u32, upto: int) -> bool {
    forall|c: int| 0 <= c < upto ==> match_admits(ms[c], #[trigger] bv.row_val(id, c))
}

/// Whether an id lies in every one of the collected posting sets.
spec fn in_all(gsets: Seq<Set<u32>>, id: u32) -> bool {
    forall|t: int| 0 <= t < gsets.len() ==> (#[trigger] gsets[t]).contains(id)
}

/// A filtered sequence holds an element iff the base holds it and the
/// predicate accepts it.
proof fn lemma_filter_elems(s: Seq<u32>, pred: spec_fn(u32) -> bool)
    ensures
        forall|x: u32| #[trigger] s.filter(pred).contains(x) <==> (s.contains(x) && pred(x)),
    decreases s.len(),
{
    reveal(Seq::filter);
    if s.len() == 0 {
    } else {
        let butlast = s.drop_last();
        lemma_filter_elems(butlast, pred);
        assert forall|x: u32| #[trigger] s.filter(pred).contains(x) implies (s.contains(x)
            && pred(x)) by {
            let f = s.filter(pred);
            let i = choose|i: int| 0 <= i < f.len() && f[i] == x;
            if pred(s.last()) && i == f.len() - 1 {
                assert(s[s.len() - 1] == x);
            } else {
                assert(butlast.filter(pred).contains(x));
                let bi = choose|bi: int| 0 <= bi < butlast.len() && butlast[bi] == x;
                assert(s[bi] == x);
            }
        }
        assert forall|x: u32| (s.contains(x) && pred(x)) implies #[trigger] s.filter(
            pred,
        ).contains(x) by {
            let i = choose|i: int| 0 <= i < s.len() && s[i] == x;
            if i == s.len() - 1 {
                let f = s.filter(pred);
                assert(f[f.len() - 1] == x);
            } else {
                assert(butlast[i] == x);
                assert(butlast.filter(pred).contains(x));
                let bi = choose|bi: int|
                    0 <= bi < butlast.filter(pred).len() && butlast.filter(pred)[bi] == x;
                if pred(s.last()) {
                    assert(s.filter(pred)[bi] == x);
                }
            }
        }
    }
}

/// Filtering a strictly ascending sequence leaves it strictly ascending.
proof fn lemma_filter_ascending(s: Seq<u32>, pred: spec_fn(u32) -> bool)
    requires
        strictly_ascending(s),
    ensures
        strictly_ascending(s.filter(pred)),
    decreases s.len(),
{
    reveal(Seq::filter);
    if s.len() > 0 {
        let butlast = s.drop_last();
        lemma_filter_ascending(butlast, pred);
        lemma_filter_elems(butlast, pred);
        if pred(s.last()) {
            let f = s.filter(pred);
            let bf = butlast.filter(pred);
            assert forall|a: int, b: int| 0 <= a < b < f.len() implies f[a] < f[b] by {
                if b == f.len() - 1 {
                    assert(bf.contains(bf[a]));
                    assert(butlast.contains(f[a]));
                    let i = choose|i: int| 0 <= i < butlast.len() && butlast[i] == f[a];
                    assert(s[i] == f[a]);
                    assert(s[i] < s.last());
                } else {
                    assert(bf[a] < bf[b]);
                }
            }
        }
    }
}

/// Two strictly ascending sequences with the same members are equal.
proof fn lemma_ascending_unique(a: Seq<u32>, b: Seq<u32>)
    requires
        strictly_ascending(a),
        strictly_ascending(b),
        forall|x: u32| a.contains(x) <==> b.contains(x),
    ensures
        a == b,
    decreases a.len(),
{
    if a.len() == 0 {
        if b.len() > 0 {
            assert(b.contains(b[0]));
            assert(a.contains(b[0]));
        }
        assert(a =~= b);
    } else {
        assert(a.contains(a[0]));
        assert(b.contains(a[0]));
        assert(b.len() > 0);
        // The heads agree: each is its sequence's unique minimum.
        let j = choose|j: int| 0 <= j < b.len() && b[j] == a[0];
        if j > 0 {
            assert(b[0] < a[0]);
            assert(b.contains(b[0]));
            assert(a.contains(b[0]));
            let t = choose|t: int| 0 <= t < a.len() && a[t] == b[0];
            if t > 0 {
                assert(a[0] < a[t]);
            }
        }
        assert(a[0] == b[0]);
        let ta = a.drop_first();
        let tb = b.drop_first();
        assert forall|x: u32| ta.contains(x) <==> tb.contains(x) by {
            assert forall|x: u32| ta.contains(x) implies tb.contains(x) by {
                let i = choose|i: int| 0 <= i < ta.len() && ta[i] == x;
                assert(a[i + 1] == x);
                assert(a[0] < x);
                assert(b.contains(x));
                let u = choose|u: int| 0 <= u < b.len() && b[u] == x;
                assert(u != 0);
                assert(tb[u - 1] == x);
            }
            assert forall|x: u32| tb.contains(x) implies ta.contains(x) by {
                let i = choose|i: int| 0 <= i < tb.len() && tb[i] == x;
                assert(b[i + 1] == x);
                assert(b[0] < x);
                assert(a.contains(x));
                let u = choose|u: int| 0 <= u < a.len() && a[u] == x;
                assert(u != 0);
                assert(ta[u - 1] == x);
            }
        }
        lemma_ascending_unique(ta, tb);
        assert forall|i: int| 0 <= i < a.len() implies a[i] == b[i] by {
            if i > 0 {
                assert(ta[i - 1] == tb[i - 1]);
            }
        }
        assert(a =~= b);
    }
}

/// A sequence no value is a member of is empty.
proof fn lemma_no_member_empty(s: Seq<u32>)
    requires
        forall|x: u32| !s.contains(x),
    ensures
        s.len() == 0,
{
    if s.len() > 0 {
        assert(s.contains(s[0]));
    }
}

/// `all_ids` enumerates exactly the ids below `total`, ascending.
proof fn lemma_all_ids(bv: BucketView)
    requires
        bv.total() <= u32::MAX,
    ensures
        strictly_ascending(bv.all_ids()),
        forall|x: u32| #[trigger] bv.all_ids().contains(x) <==> x < bv.total(),
{
    assert forall|x: u32| #[trigger] bv.all_ids().contains(x) <==> x < bv.total() by {
        if x < bv.total() {
            assert(bv.all_ids()[x as int] == x);
        }
        if bv.all_ids().contains(x) {
            let i = choose|i: int| 0 <= i < bv.all_ids().len() && bv.all_ids()[i] == x;
        }
    }
}

/// A matcher check with no mismatch to find reports none.
proof fn lemma_match_type_ok_none(cols: Seq<Column>, ms: Seq<MatchView>, k: int)
    requires
        0 <= k,
        ms.len() == cols.len(),
        forall|j: int| k <= j < cols.len() ==> match_type_ok(#[trigger] ms[j], cols[j]),
    ensures
        match_type_errors(cols, ms, k) is None,
    decreases cols.len() - k,
{
    if k < cols.len() {
        lemma_match_type_ok_none(cols, ms, k + 1);
    }
}

/// A row that passes the insert check passes the find check as its own
/// exact match vector.
proof fn lemma_exact_match_check(cols: Seq<Column>, dv: Seq<ValueView>)
    requires
        insert_check(cols, dv) is None,
        cols.len() >= 1,
    ensures
        flat_check(cols, exact_match_views(dv)) is None,
{
    let ms = exact_match_views(dv);
    lemma_row_type_errors_none(cols, dv, 0);
    assert(ms[0] == exact_match_of(dv[0]));
    assert(!(ms[0] is Any));
    assert(!all_wildcards(ms));
    assert forall|j: int| 0 <= j < cols.len() implies match_type_ok(
        #[trigger] ms[j],
        cols[j],
    ) by {
        assert(ms[j] == exact_match_of(dv[j]));
        assert(value_tag(dv[j]) == cols[j]);
    }
    lemma_match_type_ok_none(cols, ms, 0);
}

/// A row slice reads the same cells as `row_val`.
proof fn lemma_row_index(bv: BucketView, id: u32, k: int)
    requires
        bv.wf(),
        id < bv.total(),
        0 <= k < bv.width(),
    ensures
        bv.row(id).len() == bv.width(),
        bv.row(id)[k] == bv.row_val(id, k),
{
    let w = bv.width() as int;
    let i = id as int;
    assert((i + 1) * w == i * w + w) by (nonlinear_arith);
    assert((i + 1) * w <= bv.total() * w) by (nonlinear_arith)
        requires
            0 <= i < bv.total(),
            w >= 0,
    ;
    assert(0 <= i * w) by (nonlinear_arith)
        requires
            0 <= i,
            0 <= w,
    ;
}

/// A row matches its own exact match vector, and nothing else does.
proof fn lemma_exact_match_at(bv: BucketView, dv: Seq<ValueView>, id: u32)
    requires
        bv.wf(),
        dv.len() == bv.width(),
        id < bv.total(),
    ensures
        bv.flat_match_at(exact_match_views(dv), id) <==> bv.row(id) == dv,
{
    let ms = exact_match_views(dv);
    if bv.flat_match_at(ms, id) {
        assert forall|k: int| 0 <= k < dv.len() implies bv.row(id)[k] == dv[k] by {
            assert(match_admits(ms[k], bv.row_val(id, k)));
            assert(ms[k] == exact_match_of(dv[k]));
            lemma_row_index(bv, id, k);
        }
        lemma_row_index(bv, id, 0);
        assert(bv.row(id) =~= dv);
    }
    if bv.row(id) == dv {
        assert forall|k: int| 0 <= k < bv.width() implies match_admits(
            ms[k],
            #[trigger] bv.row_val(id, k),
        ) by {
            lemma_row_index(bv, id, k);
            assert(bv.row_val(id, k) == dv[k]);
            assert(ms[k] == exact_match_of(dv[k]));
        }
    }
}

/// A finite set of ids below `n` holds at most `n` ids.
proof fn lemma_bounded_id_set_len(s: Set<u32>, n: nat)
    requires
        s.finite(),
        n <= u32::MAX,
        forall|id: u32| s.contains(id) ==> id < n,
    ensures
        s.len() <= n,
{
    let r = Set::<u32>::range(0u32, n as u32);
    vstd::set_lib::range_set_properties::<u32>(0u32, n as u32);
    assert(s.subset_of(r));
    vstd::set_lib::lemma_len_subset(s, r);
}

/// Coherence of one column's index with the bucket: every posting holds
/// exactly the rows whose cell at column `k` is the posting's key, every
/// row's cell at `k` is a key, and every key is some row's cell — so the
/// keys are exactly the column's value domain.
pub open spec fn index_coherent(iv: IndexView, bv: BucketView, k: int) -> bool {
    &&& iv.tag == bv.cols[k]
    &&& forall|v: ValueView, id: u32|
        iv.contains_key(v) ==> ((#[trigger] iv.posting(v).contains(id)) <==> (id < bv.total()
            && bv.row_val(id, k) == v))
    &&& forall|id: u32| id < bv.total() ==> iv.contains_key(#[trigger] bv.row_val(id, k))
    &&& forall|v: ValueView| #[trigger] iv.contains_key(v) ==> bv.col_domain(k).contains(v)
}

/// The keys of a coherent index are exactly the column's value domain, so
/// its entry count is the domain's size.
proof fn lemma_cardinality_is_domain(iv: IndexView, bv: BucketView, k: int)
    requires
        iv.wf(),
        index_coherent(iv, bv, k),
    ensures
        bv.col_domain(k).finite(),
        iv.cardinality() == bv.col_domain(k).len(),
{
    broadcast use vstd::seq_lib::seq_to_set_is_finite;

    let keys = iv.entries.map_values(|e: (ValueView, Set<u32>)| e.0);
    assert(keys.no_duplicates()) by {
        assert forall|a: int, b: int|
            0 <= a < keys.len() && 0 <= b < keys.len() && a != b implies keys[a]
            != keys[b] by {
            if a < b {
                assert(iv.entries[a].0 != iv.entries[b].0);
            } else {
                assert(iv.entries[b].0 != iv.entries[a].0);
            }
        }
    }
    assert(keys.to_set() =~= bv.col_domain(k)) by {
        assert forall|v: ValueView| #[trigger] keys.to_set().contains(v) implies
            bv.col_domain(k).contains(v) by {
            let e = choose|e: int| 0 <= e < keys.len() && keys[e] == v;
            assert(iv.entries[e].0 == v);
            assert(iv.contains_key(v));
        }
        assert forall|v: ValueView| #[trigger] bv.col_domain(k).contains(v) implies
            keys.to_set().contains(v) by {
            let id = choose|id: u32| id < bv.total() && #[trigger] bv.row_val(id, k) == v;
            assert(iv.contains_key(bv.row_val(id, k)));
            let e = choose|e: int|
                0 <= e < iv.entries.len() && (#[trigger] iv.entries[e]).0 == v;
            assert(keys[e] == v);
            assert(keys.contains(v));
        }
    }
    keys.unique_seq_to_set();
}

/// Appending one row leaves every old cell in place and lays the new row's
/// cells out at the end of the arena.
proof fn lemma_row_val_extend(ov: BucketView, nv: BucketView, row: Seq<ValueView>)
    requires
        ov.wf(),
        nv.cols == ov.cols,
        nv.inserts == ov.inserts + 1,
        nv.vals == ov.vals + row,
        row.len() == ov.width(),
    ensures
        forall|id: u32, k: int|
            id < ov.total() && 0 <= k < ov.width() ==> #[trigger] nv.row_val(id, k)
                == ov.row_val(id, k),
        forall|k: int|
            0 <= k < ov.width() ==> #[trigger] nv.row_val(ov.total() as u32, k) == row[k],
{
    let w = ov.width() as int;
    let t = ov.total() as int;
    assert forall|id: u32, k: int|
        id < ov.total() && 0 <= k < ov.width() implies #[trigger] nv.row_val(id, k)
        == ov.row_val(id, k) by {
        assert(0 <= id * w + k < t * w) by (nonlinear_arith)
            requires
                0 <= id < t,
                0 <= k < w,
        ;
    }
    assert forall|k: int| 0 <= k < ov.width() implies #[trigger] nv.row_val(
        ov.total() as u32,
        k,
    ) == row[k] by {
        assert(t * w + k - t * w == k);
        assert(nv.row_val(ov.total() as u32, k) == nv.vals[t * w + k]);
        assert(nv.vals[t * w + k] == row[k]);
    }
}

/// Adding the new row's cell to column `k`'s index turns an index coherent
/// with the old bucket into one coherent with the extended bucket.
proof fn lemma_coherent_after_insert(
    iv0: IndexView,
    iv1: IndexView,
    ov: BucketView,
    nv: BucketView,
    k: int,
    cell: ValueView,
    nid: u32,
)
    requires
        ov.wf(),
        0 <= k < ov.width(),
        index_coherent(iv0, ov, k),
        nv.cols == ov.cols,
        nv.inserts == ov.inserts + 1,
        nid == ov.total(),
        forall|id: u32, kk: int|
            id < ov.total() && 0 <= kk < ov.width() ==> #[trigger] nv.row_val(id, kk)
                == ov.row_val(id, kk),
        nv.row_val(nid, k) == cell,
        iv1.tag == iv0.tag,
        forall|v: ValueView| iv1.contains_key(v) <==> (iv0.contains_key(v) || v == cell),
        forall|v: ValueView| v != cell ==> iv1.posting(v) == iv0.posting(v),
        iv1.posting(cell) == iv0.posting(cell).insert(nid),
    ensures
        index_coherent(iv1, nv, k),
{
    assert forall|v: ValueView, id: u32| iv1.contains_key(v) implies ((
    #[trigger] iv1.posting(v).contains(id)) <==> (id < nv.total() && nv.row_val(id, k)
        == v)) by {
        if v == cell {
            assert(iv1.posting(v) == iv0.posting(cell).insert(nid));
            if id == nid {
                assert(iv1.posting(v).contains(id));
                assert(nv.row_val(id, k) == cell);
            } else {
                assert(iv1.posting(v).contains(id) == iv0.posting(cell).contains(id));
                if iv0.contains_key(cell) {
                    assert(iv0.posting(cell).contains(id) <==> (id < ov.total()
                        && ov.row_val(id, k) == cell));
                } else {
                    assert(iv0.posting(cell) == Set::<u32>::empty());
                    if id < ov.total() {
                        assert(iv0.contains_key(ov.row_val(id, k)));
                        if ov.row_val(id, k) == cell {
                            assert(iv0.contains_key(cell));
                        }
                    }
                }
                if id < nv.total() && id != nid {
                    assert(id < ov.total());
                    assert(nv.row_val(id, k) == ov.row_val(id, k));
                }
            }
        } else {
            assert(iv1.posting(v) == iv0.posting(v));
            assert(iv0.contains_key(v));
            assert(iv0.posting(v).contains(id) <==> (id < ov.total() && ov.row_val(id, k)
                == v));
            if id < nv.total() && id != nid {
                assert(nv.row_val(id, k) == ov.row_val(id, k));
            }
            if id == nid {
                assert(nv.row_val(id, k) == cell);
                assert(!iv0.posting(v).contains(id));
            }
        }
    }
    assert forall|id: u32| id < nv.total() implies iv1.contains_key(
        #[trigger] nv.row_val(id, k),
    ) by {
        if id == nid {
            assert(nv.row_val(id, k) == cell);
        } else {
            assert(nv.row_val(id, k) == ov.row_val(id, k));
            assert(iv0.contains_key(ov.row_val(id, k)));
        }
    }
    assert forall|v: ValueView| #[trigger] iv1.contains_key(v) implies nv.col_domain(
        k,
    ).contains(v) by {
        if v == cell {
            assert(nid < nv.total() && nv.row_val(nid, k) == v);
        } else {
            assert(iv0.contains_key(v));
            assert(ov.col_domain(k).contains(v));
            let id = choose|id: u32| id < ov.total() && #[trigger] ov.row_val(id, k) == v;
            assert(id < nv.total() && nv.row_val(id, k) == v);
        }
    }
}

// ---------------------------------------------------------------------------
// Validation, executable
// ---------------------------------------------------------------------------
/// Decides whether a value carries a column's type.
fn value_type_eq(l: &Column, r: &Value) -> (b: bool)
    ensures
        b == (value_tag(r@) == *l),
{
    match (l, r) {
        (Column::UInt, Value::UInt(_)) => true,
        (Column::Int, Value::Int(_)) => true,
        (Column::Boolean, Value::Boolean(_)) => true,
        (Column::Str, Value::Str(_)) => true,
        (Column::OwnedStr, Value::OwnedStr(_)) => true,
        _ => false,
    }
}

/// Decides whether a matcher may stand at a column of this type.
fn match_simple_type_eq(l: &Column, r: &Match) -> (b: bool)
    ensures
        b == match_type_ok(r@, *l),
{
    match (l, r) {
        (Column::UInt, Match::UInt(_)) => true,
        (Column::Int, Match::Int(_)) => true,
        (Column::Boolean, Match::Boolean(_)) => true,
        (Column::Str, Match::Str(_)) => true,
        (Column::OwnedStr, Match::OwnedStr(_)) => true,
        (_, Match::Any) => true,
        _ => false,
    }
}

/// Checks a row against the schema: arity, then cell types left to right.
fn validate_insert_value(cols: &Vec<Column>, vals: &Vec<Value>) -> (r: Result<(), Error>)
    ensures
        match r {
            Ok(_) => insert_check(cols@, vals.deep_view()) is None,
            Err(e) => insert_check(cols@, vals.deep_view()) == Some(e),
        },
{
    let ghost dv = vals.deep_view();
    if cols.len() != vals.len() {
        return Err(Error::WrongNumberOfValues(cols.len(), vals.len()));
    }
    let mut i: usize = 0;
    while i < cols.len()
        invariant
            dv == vals.deep_view(),
            cols@.len() == dv.len() == vals@.len(),
            i <= cols@.len(),
            row_type_errors(cols@, dv, 0) == row_type_errors(cols@, dv, i as int),
        decreases cols@.len() - i,
    {
        proof {
            crate::value::lemma_vec_deep_view_index(vals, i as int);
        }
        if !value_type_eq(&cols[i], &vals[i]) {
            return Err(Error::WrongValueType(i));
        }
        i += 1;
    }
    Ok(())
}

/// Checks a flat match vector against the schema: arity, then the
/// all-wildcards case, then matcher types left to right.
fn validate_find_simple_pattern(cols: &Vec<Column>, matches: &Vec<Match>) -> (r: Result<
    (),
    Error,
>)
    ensures
        match r {
            Ok(_) => flat_check(cols@, matches.deep_view()) is None,
            Err(e) => flat_check(cols@, matches.deep_view()) == Some(e),
        },
{
    let ghost dv = matches.deep_view();
    if cols.len() != matches.len() {
        return Err(Error::WrongNumberOfMatches(cols.len(), matches.len()));
    }
    let mut some_concrete: bool = false;
    let mut i: usize = 0;
    while i < matches.len()
        invariant
            dv == matches.deep_view(),
            cols@.len() == dv.len() == matches@.len(),
            i <= dv.len(),
            !some_concrete ==> forall|k: int| 0 <= k < i ==> (#[trigger] dv[k]) is Any,
            some_concrete ==> !all_wildcards(dv),
        decreases dv.len() - i,
    {
        proof {
            crate::value::lemma_vec_deep_view_index(matches, i as int);
        }
        match &matches[i] {
            Match::Any => {},
            _ => {
                some_concrete = true;
            },
        }
        i += 1;
    }
    if !some_concrete {
        return Err(Error::NothingToMatch);
    }
    let mut i: usize = 0;
    while i < cols.len()
        invariant
            dv == matches.deep_view(),
            cols@.len() == dv.len() == matches@.len(),
            i <= cols@.len(),
            !all_wildcards(dv),
            match_type_errors(cols@, dv, 0) == match_type_errors(cols@, dv, i as int),
        decreases cols@.len() - i,
    {
        proof {
            crate::value::lemma_vec_deep_view_index(matches, i as int);
        }
        if !match_simple_type_eq(&cols[i], &matches[i]) {
            return Err(Error::WrongMatchType(i));
        }
        i += 1;
    }
    Ok(())
}

/// Checks one pattern leaf's value against a column type; failure is always
/// `InvalidColumnMatch`.
fn single_pattern_type_match(refcol: &Column, refv: &Value) -> (r: Result<(), Error>)
    ensures
        match r {
            Ok(_) => value_tag(refv@) == *refcol,
            Err(e) => e == Error::InvalidColumnMatch && value_tag(refv@) != *refcol,
        },
{
    if value_type_eq(refcol, refv) {
        Ok(())
    } else {
        Err(Error::InvalidColumnMatch)
    }
}

/// A schema check that passes leaves every scanned cell well typed.
proof fn lemma_row_type_errors_none(cols: Seq<Column>, vals: Seq<ValueView>, k: int)
    requires
        0 <= k,
        vals.len() == cols.len(),
        row_type_errors(cols, vals, k) is None,
    ensures
        forall|j: int| k <= j < cols.len() ==> value_tag(#[trigger] vals[j]) == cols[j],
    decreases cols.len() - k,
{
    if k < cols.len() {
        lemma_row_type_errors_none(cols, vals, k + 1);
    }
}

/// A matcher check that passes leaves every scanned matcher well typed.
proof fn lemma_match_type_errors_none(cols: Seq<Column>, ms: Seq<MatchView>, k: int)
    requires
        0 <= k,
        ms.len() == cols.len(),
        match_type_errors(cols, ms, k) is None,
    ensures
        forall|j: int| k <= j < cols.len() ==> match_type_ok(#[trigger] ms[j], cols[j]),
    decreases cols.len() - k,
{
    if k < cols.len() {
        lemma_match_type_errors_none(cols, ms, k + 1);
    }
}

// ---------------------------------------------------------------------------
// Statistics
// ---------------------------------------------------------------------------
/// Roll-up numbers of one bucket, as returned by [`Bucket::stats`].
#[derive(Debug)]
pub struct BucketStats {
    /// Number of columns.
    pub columns: usize,
    /// Rows ever inserted.
    pub inserts: usize,
    /// Rows ever deleted.
    pub deletes: usize,
    /// Live rows: inserts minus deletes.
    pub rows: usize,
    /// Per-column index statistics, in schema order.
    pub index_stats: Vec<IndexStats>,
}

// ---------------------------------------------------------------------------
// The bucket
// ---------------------------------------------------------------------------
/// A named table: a typed row store with one inverted index per column, a
/// tombstone bitmap for logical deletes, and monotone operation counters.
pub struct Bucket {
    token: Token,
    columns: Vec<Column>,
    indices: Vec<Index>,
    deleted: RoaringBitmap,
    values: ValueStore,
    inserts: usize,
    deletes: usize,
}

impl View for Bucket {
    type V = BucketView;

    closed spec fn view(&self) -> BucketView {
        BucketView {
            token: self.token,
            cols: self.columns@,
            vals: self.values@.vals,
            deleted: bitmap_ids(self.deleted),
            inserts: self.inserts as nat,
            deletes: self.deletes as nat,
        }
    }
}

impl Bucket {
    /// The bucket's internal invariant: a well-formed view, one coherent
    /// index per column, and an arena that agrees with the counters.
    pub closed spec fn inv(&self) -> bool {
        &&& self@.wf()
        &&& self.indices@.len() == self.columns@.len()
        &&& self.values@.width == self.columns@.len()
        &&& self.values@.next_id == self.inserts
        &&& self.values.wf()
        &&& forall|k: int| 0 <= k < self.indices@.len() ==> (#[trigger] self.indices@[k])@.wf()
        &&& forall|k: int|
            0 <= k < self.indices@.len() ==> index_coherent(
                (#[trigger] self.indices@[k])@,
                self@,
                k,
            )
    }

    /// Number of distinct values column `k` has ever seen.
    pub closed spec fn index_cardinality(&self, k: int) -> nat {
        self.indices@[k]@.cardinality()
    }

    /// A bucket that satisfies its invariant has a well-formed view.
    pub proof fn lemma_inv_wf(&self)
        requires
            self.inv(),
        ensures
            self@.wf(),
    {
    }

    /// Law: a column index's cardinality is the number of distinct values
    /// the column has ever seen — deletes never lower it.
    pub proof fn lemma_index_cardinality_is_domain(&self, k: int)
        requires
            self.inv(),
            0 <= k < self@.width(),
        ensures
            self@.col_domain(k).finite(),
            self.index_cardinality(k) == self@.col_domain(k).len(),
    {
        lemma_cardinality_is_domain(self.indices@[k]@, self@, k);
    }

    /// Builds a bucket from a schema: fails with `NoColumn` on an empty
    /// schema, otherwise starts empty with a fresh token.
    pub fn new(cols: Vec<ColumnBuilder>) -> (r: Result<Bucket, Error>)
        ensures
            match r {
                Err(e) => e == Error::NoColumn && cols@.len() == 0,
                Ok(b) => {
                    &&& cols@.len() > 0
                    &&& b.inv()
                    &&& b@.cols == cols@.map_values(|cb: ColumnBuilder| cb.as_column())
                    &&& b@.vals.len() == 0
                    &&& b@.deleted == Set::<u32>::empty()
                    &&& b@.inserts == 0
                    &&& b@.deletes == 0
                    &&& forall|k: int|
                        0 <= k < cols@.len() ==> #[trigger] b.index_cardinality(k) == 0
                },
            },
    {
        let l = cols.len();
        if l == 0 {
            return Err(Error::NoColumn);
        }
        let mut col_vec: Vec<Column> = Vec::new();
        let mut i: usize = 0;
        while i < cols.len()
            invariant
                i <= cols@.len(),
                col_vec@.len() == i,
                forall|j: int| 0 <= j < i ==> #[trigger] col_vec@[j] == cols@[j].as_column(),
            decreases cols@.len() - i,
        {
            col_vec.push(cols[i].to_column());
            i += 1;
        }
        let mut indices: Vec<Index> = Vec::new();
        let mut i: usize = 0;
        while i < col_vec.len()
            invariant
                i <= col_vec@.len(),
                indices@.len() == i,
                forall|j: int|
                    0 <= j < i ==> (#[trigger] indices@[j])@.wf() && indices@[j]@.tag
                        == col_vec@[j] && indices@[j]@.entries.len() == 0,
            decreases col_vec@.len() - i,
        {
            indices.push(Index::new_by_column(&col_vec[i]));
            i += 1;
        }
        let b = Bucket {
            token: Token::new(),
            columns: col_vec,
            indices,
            deleted: bitmap_new(),
            values: ValueStore::new(l),
            inserts: 0,
            deletes: 0,
        };
        proof {
            assert(b@.cols =~= cols@.map_values(|cb: ColumnBuilder| cb.as_column()));
            assert(b@.vals.len() == 0 * b@.width());
            assert forall|k: int| 0 <= k < b.indices@.len() implies index_coherent(
                (#[trigger] b.indices@[k])@,
                b@,
                k,
            ) by {
                let iv = b.indices@[k]@;
                assert forall|v: ValueView| !iv.contains_key(v) by {
                    if iv.contains_key(v) {
                        let e = choose|e: int|
                            0 <= e < iv.entries.len() && (#[trigger] iv.entries[e]).0 == v;
                    }
                }
            }
        }
        Ok(b)
    }

    /// Number of live rows: rows ever inserted minus rows deleted, which is
    /// exactly how many row ids are not tombstoned.
    pub fn rows(&self) -> (r: usize)
        requires
            self.inv(),
        ensures
            r == self@.inserts - self@.deletes,
            r == self@.live_set().len(),
    {
        proof {
            lemma_live_row_count(self@);
        }
        self.inserts - self.deletes
    }

    /// Roll-up numbers: columns, counters, live rows, and each column
    /// index's cardinality — the number of distinct values that column has
    /// ever seen — in schema order.
    pub fn stats(&self) -> (r: BucketStats)
        requires
            self.inv(),
        ensures
            r.columns == self@.width(),
            r.inserts == self@.inserts,
            r.deletes == self@.deletes,
            r.rows == self@.inserts - self@.deletes,
            r.index_stats@.len() == self@.width(),
            forall|k: int|
                0 <= k < self@.width() ==> (#[trigger] r.index_stats@[k]).cardinality
                    == self.index_cardinality(k),
            forall|k: int|
                0 <= k < self@.width() ==> (#[trigger] r.index_stats@[k]).cardinality
                    == self@.col_domain(k).len(),
    {
        proof {
            assert forall|k: int| 0 <= k < self@.width() implies self.index_cardinality(k)
                == self@.col_domain(k).len() by {
                self.lemma_index_cardinality_is_domain(k);
            }
        }
        let mut is: Vec<IndexStats> = Vec::new();
        let mut i: usize = 0;
        while i < self.indices.len()
            invariant
                self.inv(),
                i <= self.indices@.len(),
                is@.len() == i,
                forall|k: int|
                    0 <= k < i ==> (#[trigger] is@[k]).cardinality == self.index_cardinality(k),
            decreases self.indices@.len() - i,
        {
            is.push(self.indices[i].stats());
            i += 1;
        }
        BucketStats {
            columns: self.columns.len(),
            inserts: self.inserts,
            deletes: self.deletes,
            rows: self.inserts - self.deletes,
            index_stats: is,
        }
    }

    /// Appends a validated row: arena, counter, and every column index.
    fn insert_at(&mut self, vals: &Vec<Value>)
        requires
            old(self).inv(),
            old(self)@.inserts < u32::MAX,
            insert_check(old(self)@.cols, vals.deep_view()) is None,
        ensures
            final(self).inv(),
            final(self)@.token == old(self)@.token,
            final(self)@.cols == old(self)@.cols,
            final(self)@.vals == old(self)@.vals + vals.deep_view(),
            final(self)@.deleted == old(self)@.deleted,
            final(self)@.inserts == old(self)@.inserts + 1,
            final(self)@.deletes == old(self)@.deletes,
            forall|k: int|
                0 <= k < old(self)@.width() ==> final(self).index_cardinality(k) >= old(self).index_cardinality(k),
            forall|k: int|
                0 <= k < old(self)@.width() ==> final(self).index_cardinality(k) == old(
                    self,
                ).index_cardinality(k) + (if old(self)@.col_domain(k).contains(
                    vals.deep_view()[k],
                ) {
                    0int
                } else {
                    1int
                }),
    {
        let ghost ov = old(self)@;
        let ghost dv = vals.deep_view();
        proof {
            lemma_row_type_errors_none(ov.cols, dv, 0);
        }
        let cur_id: usize = self.values.next_id();
        let res = self.values.insert(vals);
        self.inserts = self.inserts + 1;
        let ghost nv = self@;
        proof {
            lemma_row_val_extend(ov, nv, dv);
            assert(nv.vals.len() == nv.total() * nv.width()) by {
                assert((ov.total() + 1) * ov.width() == ov.total() * ov.width() + ov.width())
                    by (nonlinear_arith);
            }
            assert forall|id: u32, k: int|
                id < nv.total() && 0 <= k < nv.width() implies value_tag(
                #[trigger] nv.row_val(id, k)) == nv.cols[k] by {
                if id < ov.total() {
                    assert(value_tag(ov.row_val(id, k)) == ov.cols[k]);
                } else {
                    assert(nv.row_val(id, k) == dv[k]);
                }
            }
            assert(nv.wf());
        }
        let width = self.columns.len();
        let mut k: usize = 0;
        while k < width
            invariant
                old(self).inv(),
                nv == self@,
                ov == old(self)@,
                dv == vals.deep_view(),
                nv.wf(),
                nv.cols == ov.cols,
                nv.token == ov.token,
                nv.deleted == ov.deleted,
                nv.inserts == ov.inserts + 1,
                nv.deletes == ov.deletes,
                nv.vals == ov.vals + dv,
                dv.len() == ov.width(),
                width == ov.width(),
                cur_id == ov.total(),
                ov.total() < u32::MAX,
                forall|j: int| 0 <= j < width ==> value_tag(#[trigger] dv[j]) == ov.cols[j],
                forall|id: u32, kk: int|
                    id < ov.total() && 0 <= kk < ov.width() ==> #[trigger] nv.row_val(id, kk)
                        == ov.row_val(id, kk),
                forall|kk: int|
                    0 <= kk < ov.width() ==> #[trigger] nv.row_val(ov.total() as u32, kk)
                        == dv[kk],
                k <= width,
                vals@.len() == width,
                self.columns@ == nv.cols,
                self.indices@.len() == width,
                self.values@.width == width,
                self.values@.next_id == self.inserts,
                self.values.wf(),
                forall|j: int| 0 <= j < width ==> (#[trigger] self.indices@[j])@.wf(),
                forall|j: int|
                    0 <= j < k ==> index_coherent((#[trigger] self.indices@[j])@, nv, j),
                forall|j: int|
                    k <= j < width ==> #[trigger] self.indices@[j] == old(self).indices@[j],
                forall|j: int|
                    0 <= j < k ==> (#[trigger] self.indices@[j])@.cardinality() == old(
                        self,
                    ).index_cardinality(j) + (if ov.col_domain(j).contains(dv[j]) {
                        0int
                    } else {
                        1int
                    }),
            decreases width - k,
        {
            proof {
                crate::value::lemma_vec_deep_view_index(vals, k as int);
                assert(index_coherent(self.indices@[k as int]@, ov, k as int));
                assert(self.indices@[k as int]@.contains_key(dv[k as int])
                    <==> ov.col_domain(k as int).contains(dv[k as int])) by {
                    if ov.col_domain(k as int).contains(dv[k as int]) {
                        let id = choose|id: u32|
                            id < ov.total() && #[trigger] ov.row_val(id, k as int) == dv[
                                k as int
                            ];
                        assert(self.indices@[k as int]@.contains_key(ov.row_val(
                            id,
                            k as int,
                        )));
                    }
                }
            }
            let ghost iv0 = self.indices@[k as int]@;
            let ghost inds0 = self.indices@;
            let mut idx = self.indices.remove(k);
            idx.insert(&vals[k], cur_id as u32);
            self.indices.insert(k, idx);
            proof {
                assert(self.indices@ =~= inds0.update(k as int, self.indices@[k as int]));
                lemma_coherent_after_insert(
                    iv0,
                    self.indices@[k as int]@,
                    ov,
                    nv,
                    k as int,
                    dv[k as int],
                    cur_id as u32,
                );
            }
            k += 1;
        }
    }

    /// Inserts a row. The row must have one value per column, each of the
    /// column's type; a rejected row changes nothing. Duplicates are
    /// allowed. On success the row gets the next id, lands in the arena and
    /// in every column index, and the insert counter moves up by one;
    /// index cardinalities never shrink.
    pub fn insert(&mut self, vals: Vec<Value>) -> (r: Result<(), Error>)
        requires
            old(self).inv(),
            old(self)@.inserts < u32::MAX,
        ensures
            final(self).inv(),
            match r {
                Err(e) => {
                    &&& insert_check(old(self)@.cols, vals.deep_view()) == Some(e)
                    &&& final(self)@ == old(self)@
                    &&& forall|k: int|
                        0 <= k < old(self)@.width() ==> final(self).index_cardinality(k)
                            == old(self).index_cardinality(k)
                },
                Ok(_) => {
                    &&& insert_check(old(self)@.cols, vals.deep_view()) is None
                    &&& final(self)@.token == old(self)@.token
                    &&& final(self)@.cols == old(self)@.cols
                    &&& final(self)@.vals == old(self)@.vals + vals.deep_view()
                    &&& final(self)@.deleted == old(self)@.deleted
                    &&& final(self)@.inserts == old(self)@.inserts + 1
                    &&& final(self)@.deletes == old(self)@.deletes
                    &&& forall|k: int|
                        0 <= k < old(self)@.width() ==> final(self).index_cardinality(k)
                            >= old(self).index_cardinality(k)
                    &&& forall|k: int|
                        0 <= k < old(self)@.width() ==> final(self).index_cardinality(k)
                            == old(self).index_cardinality(k) + (if old(
                            self,
                        )@.col_domain(k).contains(vals.deep_view()[k]) {
                            0int
                        } else {
                            1int
                        })
                },
            },
    {
        if let Err(e) = validate_insert_value(&self.columns, &vals) {
            return Err(e);
        }
        self.insert_at(&vals);
        Ok(())
    }

    /// Drops tombstoned ids out of an ascending id list, keeping the order.
    fn filter_live(&self, ids_all: &Vec<u32>) -> (out: Vec<u32>)
        requires
            self.inv(),
            strictly_ascending(ids_all@),
        ensures
            strictly_ascending(out@),
            forall|id: u32|
                #[trigger] out@.contains(id) <==> (ids_all@.contains(id)
                    && !self@.deleted.contains(id)),
    {
        let mut out: Vec<u32> = Vec::new();
        let mut i: usize = 0;
        while i < ids_all.len()
            invariant
                self.inv(),
                strictly_ascending(ids_all@),
                i <= ids_all@.len(),
                strictly_ascending(out@),
                forall|a: int|
                    0 <= a < out@.len() ==> exists|t: int|
                        0 <= t < i && ids_all@[t] == #[trigger] out@[a],
                forall|id: u32|
                    #[trigger] out@.contains(id) <==> ((exists|t: int|
                        0 <= t < i && ids_all@[t] == id) && !self@.deleted.contains(id)),
            decreases ids_all@.len() - i,
        {
            let id = ids_all[i];
            if !bitmap_contains(&self.deleted, id) {
                let ghost out0 = out@;
                out.push(id);
                proof {
                    assert forall|a: int, b: int| 0 <= a < b < out@.len() implies out@[a]
                        < out@[b] by {
                        if b == out@.len() - 1 {
                            let t = choose|t: int| 0 <= t < i && ids_all@[t] == out0[a];
                            assert(ids_all@[t] < ids_all@[i as int]);
                        }
                    }
                    assert forall|x: u32| #[trigger] out@.contains(x) implies ((exists|t: int|
                        0 <= t < i + 1 && ids_all@[t] == x) && !self@.deleted.contains(
                        x,
                    )) by {
                        let a = choose|a: int| 0 <= a < out@.len() && out@[a] == x;
                        if a < out@.len() - 1 {
                            assert(out0.contains(x));
                        } else {
                            assert(ids_all@[i as int] == x);
                        }
                    }
                    assert forall|x: u32|
                        ((exists|t: int| 0 <= t < i + 1 && ids_all@[t] == x)
                            && !self@.deleted.contains(x)) implies #[trigger] out@.contains(
                        x,
                    ) by {
                        let t = choose|t: int| 0 <= t < i + 1 && ids_all@[t] == x;
                        if t < i {
                            assert(out0.contains(x));
                            let a = choose|a: int| 0 <= a < out0.len() && out0[a] == x;
                            assert(out@[a] == x);
                        } else {
                            assert(out@[out@.len() - 1] == x);
                        }
                    }
                }
            } else {
                proof {
                    assert forall|x: u32| #[trigger] out@.contains(x) implies ((exists|t: int|
                        0 <= t < i + 1 && ids_all@[t] == x) && !self@.deleted.contains(
                        x,
                    )) by {
                        let t = choose|t: int| 0 <= t < i && ids_all@[t] == x;
                    }
                    assert forall|x: u32|
                        ((exists|t: int| 0 <= t < i + 1 && ids_all@[t] == x)
                            && !self@.deleted.contains(x)) implies #[trigger] out@.contains(
                        x,
                    ) by {
                        let t = choose|t: int| 0 <= t < i + 1 && ids_all@[t] == x;
                        assert(t < i);
                    }
                }
            }
            i += 1;
        }
        proof {
            assert forall|id: u32| #[trigger] out@.contains(id) <==> (ids_all@.contains(id)
                && !self@.deleted.contains(id)) by {
                if ids_all@.contains(id) {
                    let t = choose|t: int| 0 <= t < ids_all@.len() && ids_all@[t] == id;
                }
            }
        }
        out
    }

    /// Evaluates a flat match vector to the ascending list of surviving row
    /// ids: posting lookups, intersection starting from the smallest
    /// posting, then tombstone subtraction.
    fn find_id(&self, matches: &Vec<Match>) -> (r: Result<Option<Vec<u32>>, Error>)
        requires
            self.inv(),
        ensures
            match r {
                Err(e) => flat_check(self@.cols, matches.deep_view()) == Some(e),
                Ok(None) => flat_check(self@.cols, matches.deep_view()) is None
                    && self@.flat_live_ids(matches.deep_view()).len() == 0,
                Ok(Some(ids)) => {
                    &&& flat_check(self@.cols, matches.deep_view()) is None
                    &&& ids@ == self@.flat_live_ids(matches.deep_view())
                    &&& ids@.len() > 0
                },
            },
    {
        let ghost dv = matches.deep_view();
        let ghost live_pred = |id: u32|
            self@.flat_match_at(dv, id) && !self@.deleted.contains(id);
        if let Err(e) = validate_find_simple_pattern(&self.columns, matches) {
            return Err(e);
        }
        let mut postings: Vec<&RoaringBitmap> = Vec::new();
        let ghost mut gsets: Seq<Set<u32>> = Seq::empty();
        let mut k: usize = 0;
        while k < matches.len()
            invariant
                self.inv(),
                dv == matches.deep_view(),
                live_pred == (|id: u32|
                    self@.flat_match_at(dv, id) && !self@.deleted.contains(id)),
                matches@.len() == dv.len() == self@.width(),
                k <= dv.len(),
                flat_check(self@.cols, dv) is None,
                postings@.len() == gsets.len(),
                forall|j: int|
                    0 <= j < gsets.len() ==> bitmap_ids(*(#[trigger] postings@[j]))
                        == gsets[j],
                forall|j: int| 0 <= j < gsets.len() ==> (#[trigger] gsets[j]).finite(),
                forall|j: int, id: u32|
                    0 <= j < gsets.len() && (#[trigger] gsets[j].contains(id)) ==> id
                        < self@.total(),
                postings@.len() > 0 || (forall|t: int|
                    0 <= t < k ==> (#[trigger] dv[t]) is Any),
                forall|id: u32|
                    id < self@.total() ==> (#[trigger] in_all(gsets, id) <==> prefix_match(
                        self@,
                        dv,
                        id,
                        k as int,
                    )),
            decreases dv.len() - k,
        {
            proof {
                crate::value::lemma_vec_deep_view_index(matches, k as int);
            }
            let ghost gsets0 = gsets;
            let m = &matches[k];
            let mut skip: bool = false;
            match m {
                Match::Any => {
                    skip = true;
                },
                _ => {},
            }
            if !skip {
                let got = self.indices[k].get_match_index(m);
                match got {
                    Some(bm) => {
                        postings.push(bm);
                        proof {
                            let vk = match_key(dv[k as int])->Some_0;
                            let s = bitmap_ids(*bm);
                            gsets = gsets.push(s);
                            let iv = self.indices@[k as int]@;
                            assert(index_coherent(iv, self@, k as int));
                            assert(s == iv.posting(vk));
                            assert forall|id: u32|
                                #[trigger] s.contains(id) implies id < self@.total() by {
                                assert(iv.posting(vk).contains(id) <==> (id < self@.total()
                                    && self@.row_val(id, k as int) == vk));
                            }
                            assert forall|id: u32| id < self@.total() implies (in_all(
                                gsets,
                                id,
                            ) <==> prefix_match(self@, dv, id, k as int + 1)) by {
                                assert(in_all(gsets, id) <==> (in_all(gsets0, id)
                                    && s.contains(id))) by {
                                    assert forall|t: int|
                                        0 <= t < gsets0.len() implies gsets[t]
                                        == gsets0[t] by {}
                                    assert(gsets[gsets0.len() as int] == s);
                                }
                                assert(s.contains(id) <==> (id < self@.total()
                                    && self@.row_val(id, k as int) == vk));
                                assert(match_admits(dv[k as int], self@.row_val(
                                    id,
                                    k as int,
                                )) <==> self@.row_val(id, k as int) == vk);
                                assert forall|c: int|
                                    prefix_match(self@, dv, id, k as int) && match_admits(
                                        dv[k as int],
                                        self@.row_val(id, k as int),
                                    ) && 0 <= c < k as int + 1 implies match_admits(
                                    dv[c],
                                    #[trigger] self@.row_val(id, c),
                                ) by {}
                            }
                        }
                    },
                    None => {
                        proof {
                            let vk = match_key(dv[k as int])->Some_0;
                            let iv = self.indices@[k as int]@;
                            assert(index_coherent(iv, self@, k as int));
                            lemma_all_ids(self@);
                            assert forall|id: u32|
                                !#[trigger] self@.all_ids().filter(live_pred).contains(
                                    id,
                                ) by {
                                lemma_filter_elems(self@.all_ids(), live_pred);
                                if self@.all_ids().contains(id) && live_pred(id) {
                                    assert(id < self@.total());
                                    assert(match_admits(dv[k as int], self@.row_val(
                                        id,
                                        k as int,
                                    )));
                                    assert(self@.row_val(id, k as int) == vk);
                                    assert(iv.contains_key(self@.row_val(id, k as int)));
                                }
                            }
                            lemma_no_member_empty(self@.all_ids().filter(live_pred));
                            assert(self@.flat_live_ids(dv) =~= self@.all_ids().filter(
                                live_pred,
                            ));
                        }
                        return Ok(None);
                    },
                }
            }
            k += 1;
        }
        proof {
            assert(postings@.len() > 0) by {
                assert(!all_wildcards(dv));
                let t = choose|t: int| 0 <= t < dv.len() && !((#[trigger] dv[t]) is Any);
            }
        }
        // Plan: start from the smallest posting, intersect the rest in
        // order, stop early once the running result is empty.
        let mut min_i: usize = 0;
        let mut best: u64 = bitmap_len(postings[0]);
        let mut j: usize = 1;
        while j < postings.len()
            invariant
                min_i < postings@.len(),
                j <= postings@.len(),
                postings@.len() == gsets.len(),
                forall|t: int| 0 <= t < gsets.len() ==> (#[trigger] gsets[t]).finite(),
                forall|t: int|
                    0 <= t < gsets.len() ==> bitmap_ids(*(#[trigger] postings@[t]))
                        == gsets[t],
            decreases postings@.len() - j,
        {
            let l = bitmap_len(postings[j]);
            if l < best {
                min_i = j;
                best = l;
            }
            j += 1;
        }
        let mut acc: RoaringBitmap = bitmap_clone(postings[min_i]);
        let mut emptied: bool = false;
        let mut j: usize = 0;
        while j < postings.len() && !emptied
            invariant
                j <= postings@.len(),
                min_i < postings@.len(),
                postings@.len() == gsets.len(),
                forall|t: int|
                    0 <= t < gsets.len() ==> bitmap_ids(*(#[trigger] postings@[t]))
                        == gsets[t],
                bitmap_ids(acc).finite(),
                forall|id: u32|
                    #[trigger] bitmap_ids(acc).contains(id) ==> gsets[min_i as int].contains(
                        id,
                    ),
                forall|id: u32, t: int|
                    0 <= t < j && #[trigger] bitmap_ids(acc).contains(id) ==> (
                    #[trigger] gsets[t]).contains(id),
                forall|id: u32| in_all(gsets, id) ==> #[trigger] bitmap_ids(acc).contains(id),
                emptied ==> bitmap_ids(acc) == Set::<u32>::empty(),
            decreases postings@.len() - j,
        {
            if j != min_i {
                acc = bitmap_and(&acc, postings[j]);
            }
            if bitmap_is_empty(&acc) {
                emptied = true;
            }
            j += 1;
        }
        proof {
            assert forall|id: u32| #[trigger] bitmap_ids(acc).contains(id) <==> (in_all(
                gsets,
                id,
            ) && id < self@.total()) by {
                if emptied {
                } else {
                    if bitmap_ids(acc).contains(id) {
                        assert forall|t: int| 0 <= t < gsets.len() implies (
                        #[trigger] gsets[t]).contains(id) by {}
                        assert(gsets[min_i as int].contains(id));
                    }
                }
                if in_all(gsets, id) {
                    assert(gsets[0].contains(id));
                }
            }
        }
        let ids_all = bitmap_to_vec(&acc);
        proof {
            assert forall|a: int, b: int| 0 <= a < b < ids_all@.len() implies ids_all@[a]
                < ids_all@[b] by {}
        }
        let out = self.filter_live(&ids_all);
        proof {
            lemma_all_ids(self@);
            lemma_filter_elems(self@.all_ids(), live_pred);
            lemma_filter_ascending(self@.all_ids(), live_pred);
            assert(self@.flat_live_ids(dv) =~= self@.all_ids().filter(live_pred));
            assert forall|id: u32| out@.contains(id) <==> self@.flat_live_ids(dv).contains(
                id,
            ) by {
                if out@.contains(id) {
                    assert(ids_all@.contains(id));
                    assert(bitmap_ids(acc).contains(id));
                    assert(prefix_match(self@, dv, id, self@.width() as int));
                    assert(self@.flat_match_at(dv, id));
                }
                if self@.flat_live_ids(dv).contains(id) {
                    assert(self@.all_ids().contains(id) && live_pred(id));
                    assert(prefix_match(self@, dv, id, self@.width() as int)) by {
                        assert forall|c: int|
                            0 <= c < self@.width() implies match_admits(
                            dv[c],
                            #[trigger] self@.row_val(id, c),
                        ) by {}
                    }
                    assert(bitmap_ids(acc).contains(id));
                    assert(ids_all@.contains(id));
                }
            }
            lemma_ascending_unique(out@, self@.flat_live_ids(dv));
        }
        if out.len() == 0 {
            Ok(None)
        } else {
            Ok(Some(out))
        }
    }

    /// Copies the rows at the given ids out of the arena, in order.
    fn get_by_ids(&self, ids: &Vec<u32>) -> (r: MatchResults)
        requires
            self.inv(),
            forall|j: int| 0 <= j < ids@.len() ==> #[trigger] ids@[j] < self@.total(),
        ensures
            r@ == self@.rows_at(ids@),
    {
        let w = self.values.width();
        let mut out: Vec<Vec<Value>> = Vec::new();
        let mut i: usize = 0;
        while i < ids.len()
            invariant
                self.inv(),
                w == self@.width(),
                i <= ids@.len(),
                out@.len() == i,
                forall|j: int| 0 <= j < ids@.len() ==> #[trigger] ids@[j] < self@.total(),
                forall|j: int|
                    0 <= j < i ==> (#[trigger] out@[j]).deep_view() == self@.row(ids@[j]),
            decreases ids@.len() - i,
        {
            let id = ids[i] as usize;
            proof {
                self.values.lemma_len_bound();
                assert((id + 1) * w as int <= self@.total() * w as int) by (nonlinear_arith)
                    requires
                        0 <= id < self@.total(),
                        w >= 0,
                ;
                assert(id * w as int + w as int == (id + 1) * w as int) by (nonlinear_arith);
                assert(id * w as int + w as int <= usize::MAX);
            }
            let row = self.values.slice_at(id * w, id * w + w);
            out.push(row);
            i += 1;
        }
        let r = MatchResults::new(out);
        proof {
            assert forall|j: int| 0 <= j < out.deep_view().len() implies out.deep_view()[j]
                == self@.rows_at(ids@)[j] by {
                crate::value::lemma_vec_deep_view_index(&out, j);
            }
            assert(r@ =~= self@.rows_at(ids@));
        }
        r
    }

    /// Looks up the rows a flat match vector selects: one matcher per
    /// column, wildcards allowed but not everywhere. Returns the surviving
    /// rows in ascending id order, `None` when nothing survives, and the
    /// first validation error otherwise.
    pub fn find(&self, matches: &Vec<Match>) -> (r: Result<Option<MatchResults>, Error>)
        requires
            self.inv(),
        ensures
            match r {
                Err(e) => flat_check(self@.cols, matches.deep_view()) == Some(e),
                Ok(None) => flat_check(self@.cols, matches.deep_view()) is None
                    && self@.flat_live_ids(matches.deep_view()).len() == 0,
                Ok(Some(res)) => {
                    &&& flat_check(self@.cols, matches.deep_view()) is None
                    &&& self@.flat_live_ids(matches.deep_view()).len() > 0
                    &&& res@ == self@.rows_at(self@.flat_live_ids(matches.deep_view()))
                },
            },
    {
        let found = self.find_id(matches);
        match found {
            Err(e) => Err(e),
            Ok(None) => Ok(None),
            Ok(Some(ids)) => {
                proof {
                    lemma_all_ids(self@);
                    lemma_filter_elems(
                        self@.all_ids(),
                        |id: u32|
                            self@.flat_match_at(matches.deep_view(), id)
                                && !self@.deleted.contains(id),
                    );
                    assert(self@.flat_live_ids(matches.deep_view()) == self@.all_ids().filter(
                        |id: u32|
                            self@.flat_match_at(matches.deep_view(), id)
                                && !self@.deleted.contains(id),
                    ));
                    assert forall|j: int| 0 <= j < ids@.len() implies #[trigger] ids@[j]
                        < self@.total() by {
                        assert(ids@.contains(ids@[j]));
                    }
                }
                Ok(Some(self.get_by_ids(&ids)))
            },
        }
    }

    /// Tombstones the given live, pairwise distinct row ids and counts them.
    fn delete_by_ids(&mut self, ids: &Vec<u32>) -> (c: usize)
        requires
            old(self).inv(),
            forall|j: int|
                0 <= j < ids@.len() ==> old(self)@.live(#[trigger] ids@[j]),
            forall|a: int, b: int| 0 <= a < b < ids@.len() ==> ids@[a] != ids@[b],
        ensures
            final(self).inv(),
            c == ids@.len(),
            final(self)@.deleted == old(self)@.deleted.union(ids@.to_set()),
            final(self)@.deletes == old(self)@.deletes + c,
            final(self)@.inserts == old(self)@.inserts,
            final(self)@.vals == old(self)@.vals,
            final(self)@.cols == old(self)@.cols,
            final(self)@.token == old(self)@.token,
            forall|k: int|
                0 <= k < old(self)@.width() ==> final(self).index_cardinality(k) == old(self).index_cardinality(k),
    {
        let ghost ov = old(self)@;
        let mut c: usize = 0;
        let mut i: usize = 0;
        while i < ids.len()
            invariant
                old(self).inv(),
                ov == old(self)@,
                forall|j: int| 0 <= j < ids@.len() ==> ov.live(#[trigger] ids@[j]),
                forall|a: int, b: int| 0 <= a < b < ids@.len() ==> ids@[a] != ids@[b],
                i <= ids@.len(),
                c == i,
                self.token == old(self).token,
                self.columns@ == old(self).columns@,
                self.indices@ == old(self).indices@,
                self.values@ == old(self).values@,
                self.inserts == old(self).inserts,
                self.deletes == old(self).deletes,
                bitmap_ids(self.deleted).finite(),
                bitmap_ids(self.deleted).len() == ov.deletes + i,
                forall|x: u32|
                    #[trigger] bitmap_ids(self.deleted).contains(x) <==> (ov.deleted.contains(
                        x,
                    ) || (exists|t: int| 0 <= t < i && ids@[t] == x)),
            decreases ids@.len() - i,
        {
            let id = ids[i];
            proof {
                assert(!bitmap_ids(self.deleted).contains(id)) by {
                    if bitmap_ids(self.deleted).contains(id) {
                        if !ov.deleted.contains(id) {
                            let t = choose|t: int| 0 <= t < i && ids@[t] == id;
                        }
                    }
                }
            }
            bitmap_insert(&mut self.deleted, id);
            c += 1;
            i += 1;
            proof {
                assert forall|x: u32| #[trigger] bitmap_ids(self.deleted).contains(x) <==> (
                ov.deleted.contains(x) || (exists|t: int| 0 <= t < i && ids@[t] == x)) by {
                    if x == id {
                        assert(ids@[i - 1] == x);
                    } else {
                        if exists|t: int| 0 <= t < i && ids@[t] == x {
                            let t = choose|t: int| 0 <= t < i && ids@[t] == x;
                            assert(t < i - 1);
                        }
                    }
                }
            }
        }
        proof {
            assert forall|x: u32| bitmap_ids(self.deleted).contains(x) implies x
                < ov.total() by {
                if !ov.deleted.contains(x) {
                    let t = choose|t: int| 0 <= t < ids@.len() && ids@[t] == x;
                }
            }
            lemma_bounded_id_set_len(bitmap_ids(self.deleted), ov.total());
        }
        self.deletes = self.deletes + c;
        proof {
            let nv = self@;
            assert(nv.deleted =~= ov.deleted.union(ids@.to_set()));
            assert forall|id: u32| nv.deleted.contains(id) implies id < nv.total() by {
                if !ov.deleted.contains(id) {
                    let t = choose|t: int| 0 <= t < ids@.len() && ids@[t] == id;
                }
            }
            lemma_bounded_id_set_len(nv.deleted, nv.total());
            assert forall|id: u32, k: int|
                id < nv.total() && 0 <= k < nv.width() implies value_tag(
                #[trigger] nv.row_val(id, k)) == nv.cols[k] by {
                assert(nv.row_val(id, k) == ov.row_val(id, k));
                assert(value_tag(ov.row_val(id, k)) == ov.cols[k]);
            }
            assert(nv.wf());
            assert forall|k: int|
                0 <= k < self.indices@.len() implies index_coherent(
                (#[trigger] self.indices@[k])@,
                nv,
                k,
            ) by {
                assert(index_coherent(self.indices@[k]@, ov, k));
                assert forall|v: ValueView, id: u32|
                    self.indices@[k]@.contains_key(v) implies ((
                #[trigger] self.indices@[k]@.posting(v).contains(id)) <==> (id < nv.total()
                    && nv.row_val(id, k) == v)) by {
                    assert(nv.row_val(id, k) == ov.row_val(id, k));
                }
                assert forall|id: u32| id < nv.total() implies self.indices@[k]@.contains_key(
                    #[trigger] nv.row_val(id, k),
                ) by {
                    assert(nv.row_val(id, k) == ov.row_val(id, k));
                    assert(self.indices@[k]@.contains_key(ov.row_val(id, k)));
                }
                assert forall|v: ValueView|
                    #[trigger] self.indices@[k]@.contains_key(v) implies nv.col_domain(
                    k,
                ).contains(v) by {
                    assert(ov.col_domain(k).contains(v));
                    let id = choose|id: u32|
                        id < ov.total() && #[trigger] ov.row_val(id, k) == v;
                    assert(id < nv.total() && nv.row_val(id, k) == v);
                }
            }
        }
        c
    }

    /// Deletes the rows a flat match vector selects: they are tombstoned,
    /// not removed, so row ids and index postings survive. Returns how many
    /// rows were newly deleted, or the first validation error.
    pub fn delete(&mut self, matches: &Vec<Match>) -> (r: Result<usize, Error>)
        requires
            old(self).inv(),
        ensures
            final(self).inv(),
            match r {
                Err(e) => {
                    &&& flat_check(old(self)@.cols, matches.deep_view()) == Some(e)
                    &&& final(self)@ == old(self)@
                    &&& forall|k: int|
                        0 <= k < old(self)@.width() ==> final(self).index_cardinality(k)
                            == old(self).index_cardinality(k)
                },
                Ok(n) => {
                    &&& flat_check(old(self)@.cols, matches.deep_view()) is None
                    &&& n == old(self)@.flat_live_ids(matches.deep_view()).len()
                    &&& final(self)@.deleted == old(self)@.deleted.union(
                        old(self)@.flat_live_ids(matches.deep_view()).to_set(),
                    )
                    &&& final(self)@.deletes == old(self)@.deletes + n
                    &&& final(self)@.inserts == old(self)@.inserts
                    &&& final(self)@.vals == old(self)@.vals
                    &&& final(self)@.cols == old(self)@.cols
                    &&& final(self)@.token == old(self)@.token
                    &&& forall|k: int|
                        0 <= k < old(self)@.width() ==> final(self).index_cardinality(k)
                            == old(self).index_cardinality(k)
                },
            },
    {
        let ghost dv = matches.deep_view();
        let ghost live_pred = |id: u32|
            self@.flat_match_at(dv, id) && !self@.deleted.contains(id);
        let found = self.find_id(matches);
        match found {
            Err(e) => Err(e),
            Ok(None) => {
                proof {
                    assert(self@.flat_live_ids(dv).to_set() =~= Set::<u32>::empty()) by {
                        if exists|x: u32| self@.flat_live_ids(dv).to_set().contains(x) {
                            let x = choose|x: u32|
                                self@.flat_live_ids(dv).to_set().contains(x);
                        }
                    }
                    assert(self@.deleted.union(self@.flat_live_ids(dv).to_set())
                        =~= self@.deleted);
                }
                Ok(0)
            },
            Ok(Some(ids)) => {
                proof {
                    lemma_all_ids(self@);
                    lemma_filter_elems(self@.all_ids(), live_pred);
                    lemma_filter_ascending(self@.all_ids(), live_pred);
                    assert(self@.flat_live_ids(dv) =~= self@.all_ids().filter(live_pred));
                    assert forall|j: int| 0 <= j < ids@.len() implies self@.live(
                        #[trigger] ids@[j],
                    ) by {
                        assert(ids@.contains(ids@[j]));
                    }
                }
                let c = self.delete_by_ids(&ids);
                Ok(c)
            },
        }
    }

    /// Evaluates a pattern bottom-up to the bitmap of matching row ids,
    /// tombstones not yet subtracted. Each leaf is re-validated against
    /// this bucket; the first failure, left subtree before right, aborts.
    fn walk_pattern(&self, pattern: &Pattern) -> (r: Result<RoaringBitmap, Error>)
        requires
            self.inv(),
        ensures
            match r {
                Err(e) => pattern_check(*pattern, self@.token, self@.cols) == Some(e),
                Ok(bm) => {
                    &&& pattern_check(*pattern, self@.token, self@.cols) is None
                    &&& bitmap_ids(bm).finite()
                    &&& forall|id: u32|
                        #[trigger] bitmap_ids(bm).contains(id) <==> (id < self@.total()
                            && pattern_matches(*pattern, self@, id))
                },
            },
        decreases *pattern,
    {
        match pattern {
            Pattern::Single(refcr, refv) => {
                let col_id = refcr.id;
                if refcr.t != self.token || col_id >= self.columns.len() {
                    return Err(Error::InvalidColumnRef);
                }
                let actual: Column = self.columns[col_id];
                if refcr.r != actual {
                    return Err(Error::InvalidColumnMatch);
                }
                if let Err(e) = single_pattern_type_match(&actual, refv) {
                    return Err(e);
                }
                let got = self.indices[col_id].get_value_index(refv);
                proof {
                    assert(index_coherent(self.indices@[col_id as int]@, self@, col_id as int));
                }
                match got {
                    Some(b) => Ok(bitmap_clone(b)),
                    None => {
                        let r = bitmap_new();
                        proof {
                            let iv = self.indices@[col_id as int]@;
                            assert forall|id: u32| !(id < self@.total() && pattern_matches(
                                *pattern,
                                self@,
                                id,
                            )) by {
                                if id < self@.total() && self@.row_val(id, col_id as int)
                                    == refv@ {
                                    assert(iv.contains_key(self@.row_val(id, col_id as int)));
                                }
                            }
                        }
                        Ok(r)
                    },
                }
            },
            Pattern::And(l, r) => {
                let bl = match self.walk_pattern(l) {
                    Ok(b) => b,
                    Err(e) => {
                        return Err(e);
                    },
                };
                let br = match self.walk_pattern(r) {
                    Ok(b) => b,
                    Err(e) => {
                        return Err(e);
                    },
                };
                Ok(bitmap_and(&bl, &br))
            },
            Pattern::Or(l, r) => {
                let bl = match self.walk_pattern(l) {
                    Ok(b) => b,
                    Err(e) => {
                        return Err(e);
                    },
                };
                let br = match self.walk_pattern(r) {
                    Ok(b) => b,
                    Err(e) => {
                        return Err(e);
                    },
                };
                Ok(bitmap_or(&bl, &br))
            },
        }
    }

    /// Evaluates a pattern to the ascending list of surviving row ids.
    fn find_pattern_internal(&self, pattern: &Pattern) -> (r: Result<Option<Vec<u32>>, Error>)
        requires
            self.inv(),
        ensures
            match r {
                Err(e) => pattern_check(*pattern, self@.token, self@.cols) == Some(e),
                Ok(None) => pattern_check(*pattern, self@.token, self@.cols) is None
                    && self@.pattern_live_ids(*pattern).len() == 0,
                Ok(Some(ids)) => {
                    &&& pattern_check(*pattern, self@.token, self@.cols) is None
                    &&& ids@ == self@.pattern_live_ids(*pattern)
                    &&& ids@.len() > 0
                },
            },
    {
        let ghost live_pred = |id: u32|
            pattern_matches(*pattern, self@, id) && !self@.deleted.contains(id);
        let walked = self.walk_pattern(pattern);
        match walked {
            Err(e) => Err(e),
            Ok(b) => {
                let ids_all = bitmap_to_vec(&b);
                proof {
                    assert forall|a: int, bb: int| 0 <= a < bb < ids_all@.len() implies
                        ids_all@[a] < ids_all@[bb] by {}
                }
                let out = self.filter_live(&ids_all);
                proof {
                    lemma_all_ids(self@);
                    lemma_filter_elems(self@.all_ids(), live_pred);
                    lemma_filter_ascending(self@.all_ids(), live_pred);
                    assert(self@.pattern_live_ids(*pattern) =~= self@.all_ids().filter(
                        live_pred,
                    ));
                    assert forall|id: u32| out@.contains(id) <==> self@.pattern_live_ids(
                        *pattern,
                    ).contains(id) by {
                        if out@.contains(id) {
                            assert(ids_all@.contains(id));
                            assert(bitmap_ids(b).contains(id));
                        }
                        if self@.pattern_live_ids(*pattern).contains(id) {
                            assert(self@.all_ids().contains(id) && live_pred(id));
                            assert(bitmap_ids(b).contains(id));
                            assert(ids_all@.contains(id));
                        }
                    }
                    lemma_ascending_unique(out@, self@.pattern_live_ids(*pattern));
                }
                if out.len() == 0 {
                    Ok(None)
                } else {
                    Ok(Some(out))
                }
            },
        }
    }

    /// Looks up the rows a pattern selects, in ascending id order; `None`
    /// when nothing survives, the first validation error otherwise.
    pub fn find_pattern(&self, pattern: &Pattern) -> (r: Result<Option<MatchResults>, Error>)
        requires
            self.inv(),
        ensures
            match r {
                Err(e) => pattern_check(*pattern, self@.token, self@.cols) == Some(e),
                Ok(None) => pattern_check(*pattern, self@.token, self@.cols) is None
                    && self@.pattern_live_ids(*pattern).len() == 0,
                Ok(Some(res)) => {
                    &&& pattern_check(*pattern, self@.token, self@.cols) is None
                    &&& self@.pattern_live_ids(*pattern).len() > 0
                    &&& res@ == self@.rows_at(self@.pattern_live_ids(*pattern))
                },
            },
    {
        let found = self.find_pattern_internal(pattern);
        match found {
            Err(e) => Err(e),
            Ok(None) => Ok(None),
            Ok(Some(ids)) => {
                proof {
                    lemma_all_ids(self@);
                    lemma_filter_elems(
                        self@.all_ids(),
                        |id: u32|
                            pattern_matches(*pattern, self@, id) && !self@.deleted.contains(
                                id,
                            ),
                    );
                    assert forall|j: int| 0 <= j < ids@.len() implies #[trigger] ids@[j]
                        < self@.total() by {
                        assert(ids@.contains(ids@[j]));
                    }
                }
                Ok(Some(self.get_by_ids(&ids)))
            },
        }
    }

    /// Deletes the rows a pattern selects; tombstoned, not removed. Returns
    /// how many rows were newly deleted, or the first validation error.
    pub fn delete_pattern(&mut self, pattern: &Pattern) -> (r: Result<usize, Error>)
        requires
            old(self).inv(),
        ensures
            final(self).inv(),
            match r {
                Err(e) => {
                    &&& pattern_check(*pattern, old(self)@.token, old(self)@.cols) == Some(e)
                    &&& final(self)@ == old(self)@
                    &&& forall|k: int|
                        0 <= k < old(self)@.width() ==> final(self).index_cardinality(k)
                            == old(self).index_cardinality(k)
                },
                Ok(n) => {
                    &&& pattern_check(*pattern, old(self)@.token, old(self)@.cols) is None
                    &&& n == old(self)@.pattern_live_ids(*pattern).len()
                    &&& final(self)@.deleted == old(self)@.deleted.union(
                        old(self)@.pattern_live_ids(*pattern).to_set(),
                    )
                    &&& final(self)@.deletes == old(self)@.deletes + n
                    &&& final(self)@.inserts == old(self)@.inserts
                    &&& final(self)@.vals == old(self)@.vals
                    &&& final(self)@.cols == old(self)@.cols
                    &&& final(self)@.token == old(self)@.token
                    &&& forall|k: int|
                        0 <= k < old(self)@.width() ==> final(self).index_cardinality(k)
                            == old(self).index_cardinality(k)
                },
            },
    {
        let ghost live_pred = |id: u32|
            pattern_matches(*pattern, self@, id) && !self@.deleted.contains(id);
        let found = self.find_pattern_internal(pattern);
        match found {
            Err(e) => Err(e),
            Ok(None) => {
                proof {
                    assert(self@.pattern_live_ids(*pattern).to_set() =~= Set::<u32>::empty())
                        by {
                        if exists|x: u32|
                            self@.pattern_live_ids(*pattern).to_set().contains(x) {
                            let x = choose|x: u32|
                                self@.pattern_live_ids(*pattern).to_set().contains(x);
                        }
                    }
                    assert(self@.deleted.union(self@.pattern_live_ids(*pattern).to_set())
                        =~= self@.deleted);
                }
                Ok(0)
            },
            Ok(Some(ids)) => {
                proof {
                    lemma_all_ids(self@);
                    lemma_filter_elems(self@.all_ids(), live_pred);
                    lemma_filter_ascending(self@.all_ids(), live_pred);
                    assert(self@.pattern_live_ids(*pattern) =~= self@.all_ids().filter(
                        live_pred,
                    ));
                    assert forall|j: int| 0 <= j < ids@.len() implies self@.live(
                        #[trigger] ids@[j],
                    ) by {
                        assert(ids@.contains(ids@[j]));
                    }
                }
                let c = self.delete_by_ids(&ids);
                Ok(c)
            },
        }
    }

    /// Inserts a row unless an equivalent live row already exists. Type
    /// checks are those of `insert`. Tombstoned rows count as absent, so a
    /// row equal to a deleted one is inserted anew. Returns whether the row
    /// was inserted.
    pub fn insert_unique(&mut self, vals: Vec<Value>) -> (r: Result<bool, Error>)
        requires
            old(self).inv(),
            old(self)@.inserts < u32::MAX,
        ensures
            final(self).inv(),
            match r {
                Err(e) => {
                    &&& insert_check(old(self)@.cols, vals.deep_view()) == Some(e)
                    &&& final(self)@ == old(self)@
                    &&& forall|k: int|
                        0 <= k < old(self)@.width() ==> final(self).index_cardinality(k)
                            == old(self).index_cardinality(k)
                },
                Ok(false) => {
                    &&& insert_check(old(self)@.cols, vals.deep_view()) is None
                    &&& old(self)@.has_live_row(vals.deep_view())
                    &&& final(self)@ == old(self)@
                    &&& forall|k: int|
                        0 <= k < old(self)@.width() ==> final(self).index_cardinality(k)
                            == old(self).index_cardinality(k)
                },
                Ok(true) => {
                    &&& insert_check(old(self)@.cols, vals.deep_view()) is None
                    &&& !old(self)@.has_live_row(vals.deep_view())
                    &&& final(self)@.token == old(self)@.token
                    &&& final(self)@.cols == old(self)@.cols
                    &&& final(self)@.vals == old(self)@.vals + vals.deep_view()
                    &&& final(self)@.deleted == old(self)@.deleted
                    &&& final(self)@.inserts == old(self)@.inserts + 1
                    &&& final(self)@.deletes == old(self)@.deletes
                    &&& forall|k: int|
                        0 <= k < old(self)@.width() ==> final(self).index_cardinality(k)
                            >= old(self).index_cardinality(k)
                    &&& forall|k: int|
                        0 <= k < old(self)@.width() ==> final(self).index_cardinality(k)
                            == old(self).index_cardinality(k) + (if old(
                            self,
                        )@.col_domain(k).contains(vals.deep_view()[k]) {
                            0int
                        } else {
                            1int
                        })
                },
            },
    {
        let ghost dv = vals.deep_view();
        if let Err(e) = validate_insert_value(&self.columns, &vals) {
            return Err(e);
        }
        let ms = exact_matches_of(&vals);
        proof {
            lemma_exact_match_check(self@.cols, dv);
        }
        let ghost mdv = ms.deep_view();
        let ghost live_pred = |id: u32|
            self@.flat_match_at(mdv, id) && !self@.deleted.contains(id);
        let found = self.find_id(&ms);
        match found {
            Err(e) => {
                proof {
                    assert(false);
                }
                Err(e)
            },
            Ok(Some(ids)) => {
                proof {
                    lemma_all_ids(self@);
                    lemma_filter_elems(self@.all_ids(), live_pred);
                    assert(self@.flat_live_ids(mdv) =~= self@.all_ids().filter(live_pred));
                    let x = self@.flat_live_ids(mdv)[0];
                    assert(self@.flat_live_ids(mdv).contains(x));
                    assert(self@.live(x));
                    lemma_exact_match_at(self@, dv, x);
                    assert(self@.row(x) == dv);
                }
                Ok(false)
            },
            Ok(None) => {
                proof {
                    if old(self)@.has_live_row(dv) {
                        let x = choose|x: u32| self@.live(x) && self@.row(x) == dv;
                        lemma_exact_match_at(self@, dv, x);
                        lemma_all_ids(self@);
                        lemma_filter_elems(self@.all_ids(), live_pred);
                        assert(self@.flat_live_ids(mdv) =~= self@.all_ids().filter(
                            live_pred,
                        ));
                        assert(self@.flat_live_ids(mdv).contains(x));
                    }
                }
                self.insert_at(&vals);
                Ok(true)
            },
        }
    }

    /// Issues a capability for column `col_num`, if it exists.
    pub fn get_column_ref(&self, col_num: usize) -> (r: Option<ColumnRef>)
        ensures
            match r {
                Some(cr) => col_num < self@.width() && cr == (ColumnRef {
                    id: col_num,
                    t: self@.token,
                    r: self@.cols[col_num as int],
                }),
                None => col_num >= self@.width(),
            },
    {
        if col_num < self.columns.len() {
            Some(ColumnRef { id: col_num, t: self.token, r: self.columns[col_num] })
        } else {
            None
        }
    }
}

// ---------------------------------------------------------------------------
// Laws
// ---------------------------------------------------------------------------
impl BucketView {
    /// The set of live row ids.
    pub open spec fn live_set(self) -> Set<u32> {
        Set::new(|id: u32| self.live(id))
    }
}

/// What a flat query's result holds, member for member: the ids below
/// `total` that satisfy every matcher and are not tombstoned, ascending.
pub proof fn lemma_flat_live_ids_spec(bv: BucketView, ms: Seq<MatchView>)
    requires
        bv.total() <= u32::MAX,
    ensures
        strictly_ascending(bv.flat_live_ids(ms)),
        forall|id: u32|
            #[trigger] bv.flat_live_ids(ms).contains(id) <==> (id < bv.total()
                && bv.flat_match_at(ms, id) && !bv.deleted.contains(id)),
{
    let pred = |id: u32| bv.flat_match_at(ms, id) && !bv.deleted.contains(id);
    lemma_all_ids(bv);
    lemma_filter_elems(bv.all_ids(), pred);
    lemma_filter_ascending(bv.all_ids(), pred);
    assert(bv.flat_live_ids(ms) == bv.all_ids().filter(pred));
}

/// What a pattern query's result holds, member for member.
pub proof fn lemma_pattern_live_ids_spec(bv: BucketView, p: Pattern)
    requires
        bv.total() <= u32::MAX,
    ensures
        strictly_ascending(bv.pattern_live_ids(p)),
        forall|id: u32|
            #[trigger] bv.pattern_live_ids(p).contains(id) <==> (id < bv.total()
                && pattern_matches(p, bv, id) && !bv.deleted.contains(id)),
{
    let pred = |id: u32| pattern_matches(p, bv, id) && !bv.deleted.contains(id);
    lemma_all_ids(bv);
    lemma_filter_elems(bv.all_ids(), pred);
    lemma_filter_ascending(bv.all_ids(), pred);
    assert(bv.pattern_live_ids(p) == bv.all_ids().filter(pred));
}

/// Law: a find with a row's exact match vector selects precisely the live
/// rows holding that row. In particular a row just inserted is found, under
/// its id, until a delete matching it runs; and a delete by exact match
/// tombstones every live duplicate at once.
pub proof fn lemma_exact_match_finds_all(bv: BucketView, row: Seq<ValueView>)
    requires
        bv.wf(),
        row.len() == bv.width(),
    ensures
        forall|id: u32|
            #[trigger] bv.flat_live_ids(exact_match_views(row)).contains(id) <==> (bv.live(
                id,
            ) && bv.row(id) == row),
{
    lemma_flat_live_ids_spec(bv, exact_match_views(row));
    assert forall|id: u32|
        #[trigger] bv.flat_live_ids(exact_match_views(row)).contains(id) <==> (bv.live(id)
            && bv.row(id) == row) by {
        if id < bv.total() {
            lemma_exact_match_at(bv, row, id);
        }
    }
}

/// Law: after deleting what a match vector selects, the same query finds
/// nothing.
pub proof fn lemma_delete_then_find_none(bv: BucketView, after: BucketView, ms: Seq<MatchView>)
    requires
        bv.wf(),
        after.cols == bv.cols,
        after.vals == bv.vals,
        after.inserts == bv.inserts,
        after.deleted == bv.deleted.union(bv.flat_live_ids(ms).to_set()),
    ensures
        after.flat_live_ids(ms).len() == 0,
{
    lemma_flat_live_ids_spec(bv, ms);
    lemma_flat_live_ids_spec(after, ms);
    assert forall|id: u32| !(#[trigger] after.flat_live_ids(ms).contains(id)) by {
        if after.flat_live_ids(ms).contains(id) {
            assert(bv.flat_match_at(ms, id)) by {
                assert forall|c: int| 0 <= c < bv.width() implies match_admits(
                    ms[c],
                    #[trigger] bv.row_val(id, c),
                ) by {
                    assert(match_admits(ms[c], after.row_val(id, c)));
                    assert(after.row_val(id, c) == bv.row_val(id, c));
                }
            }
            assert(bv.flat_live_ids(ms).contains(id));
            assert(after.deleted.contains(id));
        }
    }
    lemma_no_member_empty(after.flat_live_ids(ms));
}

/// Law: a flat match vector and a pattern that accept the same rows select
/// the same result, id for id and row for row.
pub proof fn lemma_flat_pattern_equivalence(bv: BucketView, ms: Seq<MatchView>, p: Pattern)
    requires
        bv.total() <= u32::MAX,
        forall|id: u32|
            id < bv.total() ==> (#[trigger] bv.flat_match_at(ms, id) <==> pattern_matches(
                p,
                bv,
                id,
            )),
    ensures
        bv.flat_live_ids(ms) == bv.pattern_live_ids(p),
        bv.rows_at(bv.flat_live_ids(ms)) == bv.rows_at(bv.pattern_live_ids(p)),
{
    lemma_flat_live_ids_spec(bv, ms);
    lemma_pattern_live_ids_spec(bv, p);
    lemma_ascending_unique(bv.flat_live_ids(ms), bv.pattern_live_ids(p));
}

/// Whether a pattern is an And-tree whose every leaf repeats one matcher of
/// the flat vector `ms`: a genuine capability for its column, carrying the
/// value that the matcher at that column names.
pub open spec fn mirrors_matchers(
    p: Pattern,
    ms: Seq<MatchView>,
    token: Token,
    cols: Seq<Column>,
) -> bool
    decreases p,
{
    match p {
        Pattern::Single(cr, v) => {
            &&& cr.t == token
            &&& cr.id < cols.len()
            &&& cr.r == cols[cr.id as int]
            &&& ms[cr.id as int] == exact_match_of(v@)
        },
        Pattern::And(l, r) => mirrors_matchers(*l, ms, token, cols) && mirrors_matchers(
            *r,
            ms,
            token,
            cols,
        ),
        Pattern::Or(_, _) => false,
    }
}

/// The columns an And-tree's leaves test.
pub open spec fn covered_cols(p: Pattern) -> Set<int>
    decreases p,
{
    match p {
        Pattern::Single(cr, _) => Set::<int>::empty().insert(cr.id as int),
        Pattern::And(l, r) => covered_cols(*l).union(covered_cols(*r)),
        Pattern::Or(_, _) => Set::<int>::empty(),
    }
}

/// A mirroring And-tree accepts a row iff every column it covers matches.
proof fn lemma_mirrors_matchers_semantics(
    p: Pattern,
    ms: Seq<MatchView>,
    bv: BucketView,
    id: u32,
)
    requires
        mirrors_matchers(p, ms, bv.token, bv.cols),
    ensures
        pattern_matches(p, bv, id) <==> (forall|c: int|
            covered_cols(p).contains(c) ==> match_admits(ms[c], #[trigger] bv.row_val(id, c))),
    decreases p,
{
    match p {
        Pattern::Single(cr, v) => {
            let c0 = cr.id as int;
            assert(covered_cols(p).contains(c0));
            assert(match_admits(ms[c0], bv.row_val(id, c0)) <==> bv.row_val(id, c0) == v@);
            if forall|c: int|
                covered_cols(p).contains(c) ==> match_admits(
                    ms[c],
                    #[trigger] bv.row_val(id, c),
                ) {
                assert(match_admits(ms[c0], bv.row_val(id, c0)));
            }
        },
        Pattern::And(l, r) => {
            lemma_mirrors_matchers_semantics(*l, ms, bv, id);
            lemma_mirrors_matchers_semantics(*r, ms, bv, id);
            if pattern_matches(p, bv, id) {
                assert forall|c: int| covered_cols(p).contains(c) implies match_admits(
                    ms[c],
                    #[trigger] bv.row_val(id, c),
                ) by {
                    if covered_cols(*l).contains(c) {
                        assert(match_admits(ms[c], bv.row_val(id, c)));
                    } else {
                        assert(covered_cols(*r).contains(c));
                    }
                }
            }
            if forall|c: int|
                covered_cols(p).contains(c) ==> match_admits(
                    ms[c],
                    #[trigger] bv.row_val(id, c),
                ) {
                assert forall|c: int| covered_cols(*l).contains(c) implies match_admits(
                    ms[c],
                    #[trigger] bv.row_val(id, c),
                ) by {
                    assert(covered_cols(p).contains(c));
                }
                assert forall|c: int| covered_cols(*r).contains(c) implies match_admits(
                    ms[c],
                    #[trigger] bv.row_val(id, c),
                ) by {
                    assert(covered_cols(p).contains(c));
                }
            }
        },
        Pattern::Or(_, _) => {},
    }
}

/// Law: a flat match vector and the And-tree of its non-wildcard matchers,
/// taken as `Single` leaves through this bucket's own column capabilities,
/// select the same result, id for id and row for row. This is the
/// structural form of the flat/pattern equivalence: nothing is assumed of
/// the pattern beyond its shape.
pub proof fn lemma_flat_as_and_tree(bv: BucketView, ms: Seq<MatchView>, p: Pattern)
    requires
        bv.wf(),
        ms.len() == bv.width(),
        mirrors_matchers(p, ms, bv.token, bv.cols),
        forall|c: int|
            0 <= c < ms.len() && !((#[trigger] ms[c]) is Any) ==> covered_cols(p).contains(c),
    ensures
        bv.flat_live_ids(ms) == bv.pattern_live_ids(p),
        bv.rows_at(bv.flat_live_ids(ms)) == bv.rows_at(bv.pattern_live_ids(p)),
{
    assert forall|id: u32|
        id < bv.total() implies (#[trigger] bv.flat_match_at(ms, id) <==> pattern_matches(
        p,
        bv,
        id,
    )) by {
        lemma_mirrors_matchers_semantics(p, ms, bv, id);
        lemma_mirrors_covered_in_range(p, ms, bv.token, bv.cols);
        if bv.flat_match_at(ms, id) {
            assert forall|c: int| covered_cols(p).contains(c) implies match_admits(
                ms[c],
                #[trigger] bv.row_val(id, c),
            ) by {
                assert(0 <= c < bv.width());
            }
        }
        if pattern_matches(p, bv, id) {
            assert forall|c: int| 0 <= c < bv.width() implies match_admits(
                ms[c],
                #[trigger] bv.row_val(id, c),
            ) by {
                if !(ms[c] is Any) {
                    assert(covered_cols(p).contains(c));
                }
            }
        }
    }
    lemma_flat_pattern_equivalence(bv, ms, p);
}

/// Every column a mirroring And-tree covers lies in the schema.
proof fn lemma_mirrors_covered_in_range(
    p: Pattern,
    ms: Seq<MatchView>,
    token: Token,
    cols: Seq<Column>,
)
    requires
        mirrors_matchers(p, ms, token, cols),
    ensures
        forall|c: int| #[trigger] covered_cols(p).contains(c) ==> 0 <= c < cols.len(),
    decreases p,
{
    match p {
        Pattern::Single(cr, _) => {
            assert(covered_cols(p) == Set::<int>::empty().insert(cr.id as int));
            assert forall|c: int| #[trigger] covered_cols(p).contains(c) implies 0 <= c
                < cols.len() by {
                assert(Set::<int>::empty().insert(cr.id as int).contains(c));
                assert(c == cr.id as int);
            }
        },
        Pattern::And(l, r) => {
            lemma_mirrors_covered_in_range(*l, ms, token, cols);
            lemma_mirrors_covered_in_range(*r, ms, token, cols);
            assert(covered_cols(p) == covered_cols(*l).union(covered_cols(*r)));
            assert forall|c: int| #[trigger] covered_cols(p).contains(c) implies 0 <= c
                < cols.len() by {
                if covered_cols(*l).contains(c) {
                } else {
                    assert(covered_cols(*r).contains(c));
                }
            }
        },
        Pattern::Or(_, _) => {
            assert(!mirrors_matchers(p, ms, token, cols));
        },
    }
}

/// Whether some leaf of a pattern carries a token other than `token`.
pub open spec fn has_foreign_leaf(p: Pattern, token: Token) -> bool
    decreases p,
{
    match p {
        Pattern::Single(cr, _) => cr.t != token,
        Pattern::And(l, r) => has_foreign_leaf(*l, token) || has_foreign_leaf(*r, token),
        Pattern::Or(l, r) => has_foreign_leaf(*l, token) || has_foreign_leaf(*r, token),
    }
}

/// Law: a pattern holding any leaf whose capability was issued by another
/// bucket never evaluates: its check reports an error. (Which error wins is
/// the first failure in left-before-right order; an isolated foreign leaf
/// reports `InvalidColumnRef`, see `lemma_foreign_token_invalid`.)
pub proof fn lemma_foreign_leaf_never_passes(p: Pattern, token: Token, cols: Seq<Column>)
    requires
        has_foreign_leaf(p, token),
    ensures
        pattern_check(p, token, cols) is Some,
    decreases p,
{
    match p {
        Pattern::Single(_, _) => {},
        Pattern::And(l, r) => {
            if has_foreign_leaf(*l, token) {
                lemma_foreign_leaf_never_passes(*l, token, cols);
            } else {
                lemma_foreign_leaf_never_passes(*r, token, cols);
            }
        },
        Pattern::Or(l, r) => {
            if has_foreign_leaf(*l, token) {
                lemma_foreign_leaf_never_passes(*l, token, cols);
            } else {
                lemma_foreign_leaf_never_passes(*r, token, cols);
            }
        },
    }
}

/// Law: conjunction of patterns is commutative — the two orders select the
/// same rows.
pub proof fn lemma_and_commutative(bv: BucketView, a: Pattern, b: Pattern)
    requires
        bv.total() <= u32::MAX,
    ensures
        bv.pattern_live_ids(Pattern::And(Box::new(a), Box::new(b))) == bv.pattern_live_ids(
            Pattern::And(Box::new(b), Box::new(a)),
        ),
{
    let p1 = Pattern::And(Box::new(a), Box::new(b));
    let p2 = Pattern::And(Box::new(b), Box::new(a));
    lemma_pattern_live_ids_spec(bv, p1);
    lemma_pattern_live_ids_spec(bv, p2);
    lemma_ascending_unique(bv.pattern_live_ids(p1), bv.pattern_live_ids(p2));
}

/// Law: conjunction of patterns is associative.
pub proof fn lemma_and_associative(bv: BucketView, a: Pattern, b: Pattern, c: Pattern)
    requires
        bv.total() <= u32::MAX,
    ensures
        bv.pattern_live_ids(
            Pattern::And(Box::new(Pattern::And(Box::new(a), Box::new(b))), Box::new(c)),
        ) == bv.pattern_live_ids(
            Pattern::And(Box::new(a), Box::new(Pattern::And(Box::new(b), Box::new(c)))),
        ),
{
    let p1 = Pattern::And(Box::new(Pattern::And(Box::new(a), Box::new(b))), Box::new(c));
    let p2 = Pattern::And(Box::new(a), Box::new(Pattern::And(Box::new(b), Box::new(c))));
    lemma_pattern_live_ids_spec(bv, p1);
    lemma_pattern_live_ids_spec(bv, p2);
    assert forall|id: u32| pattern_matches(p1, bv, id) <==> pattern_matches(p2, bv, id) by {
        reveal_with_fuel(pattern_matches, 3);
    }
    lemma_ascending_unique(bv.pattern_live_ids(p1), bv.pattern_live_ids(p2));
}

/// Law: `p and p` selects what `p` selects.
pub proof fn lemma_and_idempotent(bv: BucketView, p: Pattern)
    requires
        bv.total() <= u32::MAX,
    ensures
        bv.pattern_live_ids(Pattern::And(Box::new(p), Box::new(p))) == bv.pattern_live_ids(p),
{
    let p1 = Pattern::And(Box::new(p), Box::new(p));
    lemma_pattern_live_ids_spec(bv, p1);
    lemma_pattern_live_ids_spec(bv, p);
    lemma_ascending_unique(bv.pattern_live_ids(p1), bv.pattern_live_ids(p));
}

/// Law: `p or p` selects what `p` selects.
pub proof fn lemma_or_idempotent(bv: BucketView, p: Pattern)
    requires
        bv.total() <= u32::MAX,
    ensures
        bv.pattern_live_ids(Pattern::Or(Box::new(p), Box::new(p))) == bv.pattern_live_ids(p),
{
    let p1 = Pattern::Or(Box::new(p), Box::new(p));
    lemma_pattern_live_ids_spec(bv, p1);
    lemma_pattern_live_ids_spec(bv, p);
    lemma_ascending_unique(bv.pattern_live_ids(p1), bv.pattern_live_ids(p));
}

/// Law: a pattern leaf whose capability bears another bucket's token is
/// rejected as an invalid column reference, whatever else it carries.
pub proof fn lemma_foreign_token_invalid(cr: ColumnRef, v: Value, token: Token, cols: Seq<Column>)
    requires
        cr.t != token,
    ensures
        pattern_check(Pattern::Single(cr, v), token, cols) == Some(Error::InvalidColumnRef),
{
}

/// Law: the live rows number exactly inserts minus deletes — the counters
/// a bucket reports never drift from its actual content.
pub proof fn lemma_live_row_count(bv: BucketView)
    requires
        bv.wf(),
    ensures
        bv.live_set().finite(),
        bv.live_set().len() == bv.inserts - bv.deletes,
{
    let n = bv.total() as u32;
    let r = Set::<u32>::range(0u32, n);
    vstd::set_lib::range_set_properties::<u32>(0u32, n);
    assert(bv.live_set().subset_of(r));
    vstd::set_lib::lemma_len_subset(bv.live_set(), r);
    assert(bv.live_set().disjoint(bv.deleted));
    vstd::set_lib::lemma_set_disjoint_lens(bv.live_set(), bv.deleted);
    assert(bv.live_set() + bv.deleted =~= r);
}

/// Accumulates a name and a schema; handed to [`crate::Cache::new_bucket`]
/// to build the bucket.
pub struct BucketBuilder {
    /// The name the bucket will live under in the cache.
    pub name: String,
    /// The schema under construction, in column order.
    pub columns: Vec<ColumnBuilder>,
}

impl BucketBuilder {
    /// Starts a builder with the given bucket name and no columns.
    pub fn new(name: &str) -> (r: BucketBuilder)
        ensures
            r.name@ == name@,
            r.columns@.len() == 0,
    {
        BucketBuilder { name: name.to_string(), columns: Vec::new() }
    }

    /// Appends one column to the schema.
    pub fn add_column(self, col: ColumnBuilder) -> (r: Self)
        ensures
            r.name == self.name,
            r.columns@ == self.columns@.push(col),
    {
        let mut b = self;
        b.columns.push(col);
        b
    }
}

} // verus!
