use oxide::{BucketBuilder, Cache, ColumnBuilder};

#[test]
fn apis_create_bucket() {
    let mut c = Cache::new();
    {
        let mut bb = BucketBuilder::new("foo");
        bb = bb.add_column(ColumnBuilder::UInt);
        c.new_bucket(bb).unwrap();
    };

    assert_eq!(true, c.has_bucket("foo"));
    let s = "foo".to_owned();
    assert_eq!(true, c.has_bucket(&s));

    assert_eq!(false, c.has_bucket("bar"));
}
