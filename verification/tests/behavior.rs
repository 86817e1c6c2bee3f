use oxide::{
    Bucket, BucketBuilder, Cache, ColumnBuilder, Error, Match, Pattern, Value, ValueStore,
};

fn five_col_cache(n: &str) -> Cache {
    let mut c = Cache::new();
    let mut bb = BucketBuilder::new(n);
    bb = bb.add_column(ColumnBuilder::Int);
    bb = bb.add_column(ColumnBuilder::UInt);
    bb = bb.add_column(ColumnBuilder::Boolean);
    bb = bb.add_column(ColumnBuilder::Str);
    bb = bb.add_column(ColumnBuilder::OwnedStr);
    c.new_bucket(bb).unwrap();
    c
}

fn row_a() -> Vec<Value> {
    vec![
        Value::Int(-1),
        Value::UInt(1),
        Value::Boolean(false),
        Value::Str("a".to_owned()),
        Value::OwnedStr("b".to_owned()),
    ]
}

fn exact_of_row_a() -> Vec<Match> {
    vec![
        Match::Int(-1),
        Match::UInt(1),
        Match::Boolean(false),
        Match::Str("a".to_owned()),
        Match::OwnedStr("b".to_owned()),
    ]
}

#[test]
fn exact_find_after_insert() {
    let n = "t";
    let mut c = five_col_cache(n);
    c.insert(n, row_a()).unwrap();
    let r = c.bucket(n).unwrap();
    let res = r.find(&exact_of_row_a()).unwrap().unwrap();
    assert_eq!(1, res.len());
    assert_eq!(&row_a(), &res.iter()[0]);
}

#[test]
fn duplicate_rows_deleted_together() {
    let n = "t";
    let mut c = five_col_cache(n);
    c.insert(n, row_a()).unwrap();
    c.insert(n, row_a()).unwrap();
    {
        let r = c.bucket(n).unwrap();
        let res = r.find(&exact_of_row_a()).unwrap().unwrap();
        assert_eq!(2, res.len());
        assert_eq!(2, r.rows());
    }
    let deleted = c.delete(n, &exact_of_row_a()).unwrap();
    assert_eq!(2, deleted);
    let r = c.bucket(n).unwrap();
    assert_eq!(0, r.rows());
    // an identical find right after the delete comes up empty
    assert!(matches!(r.find(&exact_of_row_a()), Ok(None)));
}

#[test]
fn delete_count_drops_row_count() {
    let n = "t";
    let mut c = five_col_cache(n);
    c.insert(n, row_a()).unwrap();
    c.insert(
        n,
        vec![
            Value::Int(-1),
            Value::UInt(7),
            Value::Boolean(true),
            Value::Str("z".to_owned()),
            Value::OwnedStr("z".to_owned()),
        ],
    )
    .unwrap();
    c.insert(
        n,
        vec![
            Value::Int(5),
            Value::UInt(8),
            Value::Boolean(true),
            Value::Str("z".to_owned()),
            Value::OwnedStr("z".to_owned()),
        ],
    )
    .unwrap();
    let before = c.bucket(n).unwrap().rows();
    let ms = vec![
        Match::Int(-1),
        Match::Any,
        Match::Any,
        Match::Any,
        Match::Any,
    ];
    let deleted = c.delete(n, &ms).unwrap();
    assert_eq!(2, deleted);
    assert_eq!(before - deleted, c.bucket(n).unwrap().rows());
}

#[test]
fn row_count_tracks_counters() {
    let n = "t";
    let mut c = five_col_cache(n);
    for _ in 0..3 {
        c.insert(n, row_a()).unwrap();
    }
    {
        let r = c.bucket(n).unwrap();
        let s = r.stats();
        assert_eq!(r.rows(), s.inserts - s.deletes);
        assert_eq!(3, s.rows);
    }
    c.delete(n, &exact_of_row_a()).unwrap();
    let r = c.bucket(n).unwrap();
    let s = r.stats();
    assert_eq!(r.rows(), s.inserts - s.deletes);
    assert_eq!(0, s.rows);
    assert_eq!(3, s.inserts);
    assert_eq!(3, s.deletes);
}

#[test]
fn cardinality_never_decreases() {
    let n = "t";
    let mut c = five_col_cache(n);
    let mut last = vec![0usize; 5];
    let rows = [
        (-1isize, 1usize, false, "a", "b"),
        (-2, 2, true, "b", "a"),
        (-1, 1, false, "a", "b"),
        (-3, 1, true, "a", "c"),
    ];
    for (i0, u, b, s, o) in rows {
        c.insert(
            n,
            vec![
                Value::Int(i0),
                Value::UInt(u),
                Value::Boolean(b),
                Value::Str(s.to_owned()),
                Value::OwnedStr(o.to_owned()),
            ],
        )
        .unwrap();
        let stats = c.bucket(n).unwrap().stats();
        for k in 0..5 {
            assert!(stats.index_stats[k].cardinality >= last[k]);
            last[k] = stats.index_stats[k].cardinality;
        }
    }
    c.delete(n, &exact_of_row_a()).unwrap();
    let stats = c.bucket(n).unwrap().stats();
    for k in 0..5 {
        assert!(stats.index_stats[k].cardinality >= last[k]);
    }
}

#[test]
fn flat_and_pattern_find_agree() {
    let n = "t";
    let mut c = five_col_cache(n);
    c.insert(n, row_a()).unwrap();
    c.insert(
        n,
        vec![
            Value::Int(-1),
            Value::UInt(9),
            Value::Boolean(true),
            Value::Str("q".to_owned()),
            Value::OwnedStr("q".to_owned()),
        ],
    )
    .unwrap();
    c.insert(
        n,
        vec![
            Value::Int(4),
            Value::UInt(9),
            Value::Boolean(true),
            Value::Str("q".to_owned()),
            Value::OwnedStr("q".to_owned()),
        ],
    )
    .unwrap();
    let r = c.bucket(n).unwrap();
    let ms = vec![
        Match::Int(-1),
        Match::Any,
        Match::Any,
        Match::Any,
        Match::Any,
    ];
    let flat = r.find(&ms).unwrap().unwrap();
    let c1 = r.get_column_ref(0).unwrap();
    let p = Pattern::new(c1, Value::Int(-1));
    let tree = r.find_pattern(&p).unwrap().unwrap();
    assert_eq!(flat.iter(), tree.iter());
}

#[test]
fn pattern_and_commutes() {
    let n = "t";
    let mut c = five_col_cache(n);
    c.insert(n, row_a()).unwrap();
    c.insert(
        n,
        vec![
            Value::Int(-1),
            Value::UInt(2),
            Value::Boolean(true),
            Value::Str("a".to_owned()),
            Value::OwnedStr("b".to_owned()),
        ],
    )
    .unwrap();
    let r = c.bucket(n).unwrap();
    let c1 = r.get_column_ref(0).unwrap();
    let c3 = r.get_column_ref(2).unwrap();
    let ab = Pattern::new(c1, Value::Int(-1)).and(Pattern::new(c3, Value::Boolean(false)));
    let ba = Pattern::new(c3, Value::Boolean(false)).and(Pattern::new(c1, Value::Int(-1)));
    let res_ab = r.find_pattern(&ab).unwrap().unwrap();
    let res_ba = r.find_pattern(&ba).unwrap().unwrap();
    assert_eq!(res_ab.iter(), res_ba.iter());
}

#[test]
fn pattern_self_combination_changes_nothing() {
    let n = "t";
    let mut c = five_col_cache(n);
    c.insert(n, row_a()).unwrap();
    c.insert(
        n,
        vec![
            Value::Int(-2),
            Value::UInt(2),
            Value::Boolean(true),
            Value::Str("a".to_owned()),
            Value::OwnedStr("b".to_owned()),
        ],
    )
    .unwrap();
    let r = c.bucket(n).unwrap();
    let c1 = r.get_column_ref(0).unwrap();
    let single = r
        .find_pattern(&Pattern::new(c1, Value::Int(-1)))
        .unwrap()
        .unwrap();
    let or_both = Pattern::new(c1, Value::Int(-1)).or(Pattern::new(c1, Value::Int(-1)));
    let and_both = Pattern::new(c1, Value::Int(-1)).and(Pattern::new(c1, Value::Int(-1)));
    let res_or = r.find_pattern(&or_both).unwrap().unwrap();
    let res_and = r.find_pattern(&and_both).unwrap().unwrap();
    assert_eq!(single.iter(), res_or.iter());
    assert_eq!(single.iter(), res_and.iter());
}

#[test]
fn foreign_column_ref_is_rejected() {
    let mut c = Cache::new();
    let mut bb = BucketBuilder::new("a");
    bb = bb.add_column(ColumnBuilder::UInt);
    c.new_bucket(bb).unwrap();
    let mut bb = BucketBuilder::new("b");
    bb = bb.add_column(ColumnBuilder::UInt);
    c.new_bucket(bb).unwrap();
    c.insert("b", vec![Value::UInt(1)]).unwrap();

    let ref_a = c.bucket("a").unwrap().get_column_ref(0).unwrap();
    let p = Pattern::new(ref_a, Value::UInt(1));
    let rb = c.bucket("b").unwrap();
    assert!(matches!(rb.find_pattern(&p), Err(Error::InvalidColumnRef)));
    drop(rb);
    assert!(matches!(
        c.delete_pattern("b", &p),
        Err(Error::InvalidColumnRef)
    ));
}

#[test]
fn missing_bucket_is_invalid() {
    let mut c = Cache::new();
    assert!(matches!(
        c.insert("nope", vec![Value::UInt(1)]),
        Err(Error::InvalidBucket)
    ));
    assert!(matches!(
        c.insert_unique("nope", vec![Value::UInt(1)]),
        Err(Error::InvalidBucket)
    ));
    assert!(matches!(
        c.delete("nope", &vec![Match::UInt(1)]),
        Err(Error::InvalidBucket)
    ));
    assert!(c.bucket("nope").is_none());
}

#[test]
fn insert_unique_after_delete_reinserts() {
    let n = "t";
    let mut c = five_col_cache(n);
    assert_eq!(Ok(true), c.insert_unique(n, row_a()));
    assert_eq!(Ok(false), c.insert_unique(n, row_a()));
    assert_eq!(Ok(1), c.delete(n, &exact_of_row_a()));
    // the deleted row counts as absent, so the same row goes in anew
    assert_eq!(Ok(true), c.insert_unique(n, row_a()));
    let r = c.bucket(n).unwrap();
    assert_eq!(1, r.rows());
    assert_eq!(2, r.stats().inserts);
}

#[test]
fn new_bucket_replaces_same_name() {
    let n = "t";
    let mut c = five_col_cache(n);
    c.insert(n, row_a()).unwrap();
    assert_eq!(1, c.bucket(n).unwrap().rows());
    let mut bb = BucketBuilder::new(n);
    bb = bb.add_column(ColumnBuilder::UInt);
    c.new_bucket(bb).unwrap();
    let r = c.bucket(n).unwrap();
    assert_eq!(0, r.rows());
    assert_eq!(1, r.stats().columns);
    // a fresh bucket's indices have seen no value yet
    assert_eq!(0, r.stats().index_stats[0].cardinality);
}

#[test]
fn cache_stats_roll_up() {
    let mut c = Cache::new();
    let mut bb = BucketBuilder::new("x");
    bb = bb.add_column(ColumnBuilder::UInt);
    c.new_bucket(bb).unwrap();
    let mut bb = BucketBuilder::new("y");
    bb = bb.add_column(ColumnBuilder::UInt);
    bb = bb.add_column(ColumnBuilder::Int);
    c.new_bucket(bb).unwrap();
    c.insert("x", vec![Value::UInt(1)]).unwrap();
    c.insert("x", vec![Value::UInt(2)]).unwrap();
    c.insert("y", vec![Value::UInt(1), Value::Int(-1)]).unwrap();
    c.delete("x", &vec![Match::UInt(1)]).unwrap();
    let s = c.stats();
    assert_eq!(2, s.buckets.len());
    assert_eq!(3, s.columns);
    assert_eq!(3, s.inserts);
    assert_eq!(1, s.deletes);
    assert_eq!(2, s.rows);
    assert_eq!("x", s.buckets[0].0);
    assert_eq!(2, s.buckets[0].1.inserts);
    assert_eq!("y", s.buckets[1].0);
    assert_eq!(1, s.buckets[1].1.inserts);
}

#[test]
fn bucket_direct_use() {
    let b = Bucket::new(vec![ColumnBuilder::UInt, ColumnBuilder::Str]);
    let mut b = b.unwrap();
    b.insert(vec![Value::UInt(3), Value::Str("x".to_owned())])
        .unwrap();
    assert_eq!(1, b.rows());
    assert!(b.get_column_ref(2).is_none());
    let found = b
        .find(&vec![Match::UInt(3), Match::Any])
        .unwrap()
        .unwrap();
    assert_eq!(1, found.len());
    assert!(!found.is_empty());
    // a value never inserted matches nothing
    assert!(matches!(
        b.find(&vec![Match::UInt(4), Match::Any]),
        Ok(None)
    ));
    assert!(matches!(
        Bucket::new(vec![]),
        Err(Error::NoColumn)
    ));
}

#[test]
fn value_store_layout() {
    let mut vs = ValueStore::new(2);
    assert_eq!(2, vs.width());
    assert_eq!(0, vs.next_id());
    assert_eq!(0, vs.rows());
    vs.insert(&vec![Value::UInt(1), Value::UInt(2)]).unwrap();
    vs.insert(&vec![Value::UInt(3), Value::UInt(4)]).unwrap();
    assert_eq!(2, vs.next_id());
    assert_eq!(2, vs.rows());
    let second = vs.slice_at(2, 4);
    assert_eq!(vec![Value::UInt(3), Value::UInt(4)], second);
}
