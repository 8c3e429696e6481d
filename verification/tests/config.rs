use pxml::Config;

#[test]
fn defaults_are_the_documented_values() {
    let c = Config::default();
    assert_eq!(c.parallel_threshold(), 4 * 1024 * 1024);
    assert_eq!(c.min_records(), 64);
    assert!(c.record_path().is_empty());
}

#[test]
fn new_matches_default() {
    let (a, b) = (Config::new(), Config::default());
    assert_eq!(a.parallel_threshold(), b.parallel_threshold());
    assert_eq!(a.min_records(), b.min_records());
    assert_eq!(a.record_path(), b.record_path());
}

/// Builders chain in any order and only touch their own field.
#[test]
fn builders_are_independent_and_chainable() {
    let c = Config::new()
        .with_min_records(7)
        .with_record_path(["a", "b"])
        .with_parallel_threshold(123);

    assert_eq!(c.parallel_threshold(), 123);
    assert_eq!(c.min_records(), 7);
    assert_eq!(c.record_path(), [Box::from("a"), Box::from("b")]);
}

/// A later call replaces the earlier value rather than accumulating.
#[test]
fn builders_overwrite_on_repeat() {
    let c = Config::new()
        .with_record_path(["first"])
        .with_record_path(["second"])
        .with_min_records(1)
        .with_min_records(2);

    assert_eq!(c.record_path(), [Box::from("second")]);
    assert_eq!(c.min_records(), 2);
}

/// `with_record_path` accepts the string types a caller actually has.
#[test]
fn record_path_accepts_common_string_types() {
    let from_str = Config::new().with_record_path(["objects"]);
    let from_string = Config::new().with_record_path(vec![String::from("objects")]);
    let from_boxed = Config::new().with_record_path(vec![Box::<str>::from("objects")]);

    assert_eq!(from_str.record_path(), from_string.record_path());
    assert_eq!(from_str.record_path(), from_boxed.record_path());
}
