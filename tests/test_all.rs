use itoa_bench::data::Data;
use itoa_bench::harness::verify;

#[test]
fn test_all() {
    let data = Data::random(1000, false);
    assert!(verify(&data).is_none());
}

#[test]
fn test_all_unpredictable() {
    let data = Data::random(200, true);
    assert!(verify(&data).is_none());
}
