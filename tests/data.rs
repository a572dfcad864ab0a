use itoa_bench::data::{bucket_bounds, fill, Data};
use rand::SeedableRng;
use itoa_bench::harness::{is_compared, same_bytes};
use itoa_bench::registry::Algorithm;
use itoa_bench::unsigned::{saturating_pow, Unsigned};

#[test]
fn bucket_bounds_u32() {
    assert_eq!(bucket_bounds::<u32>(1), (0, 9));
    assert_eq!(bucket_bounds::<u32>(2), (10, 99));
    assert_eq!(bucket_bounds::<u32>(9), (100000000, 999999999));
    assert_eq!(bucket_bounds::<u32>(10), (1000000000, u32::MAX));
}

#[test]
fn bucket_bounds_u64_and_u128() {
    assert_eq!(bucket_bounds::<u64>(20), (10000000000000000000, u64::MAX));
    assert_eq!(bucket_bounds::<u64>(19), (1000000000000000000, 9999999999999999999));
    assert_eq!(bucket_bounds::<u128>(39), (10u128.pow(38), u128::MAX));
    assert_eq!(bucket_bounds::<u128>(1), (0, 9));
}

#[test]
fn buckets_are_contiguous() {
    for len in 1..20u32 {
        let (_, hi) = bucket_bounds::<u64>(len);
        let (lo, _) = bucket_bounds::<u64>(len + 1);
        assert_eq!(hi + 1, lo);
        assert_eq!(hi.to_string().len(), len as usize);
        assert_eq!(lo.to_string().len(), len as usize + 1);
    }
}

#[test]
fn saturating_power() {
    assert_eq!(saturating_pow(10u32, 9), 1000000000);
    assert_eq!(saturating_pow(10u32, 10), u32::MAX);
    assert_eq!(saturating_pow(10u64, 0), 1);
    assert_eq!(saturating_pow(0u64, 3), 0);
    assert_eq!(u32::max_digits(), 10);
    assert_eq!(u128::max_digits(), 39);
    assert_eq!(Unsigned::wrapping_add(u32::MAX, 1u32), 0);
    assert_eq!(Unsigned::wrapping_sub(0u64, 1u64), u64::MAX);
}

#[test]
fn data_by_length() {
    let data = Data::random(50, false);
    assert_eq!(data.u32.by_length.len(), 10);
    assert_eq!(data.u64.by_length.len(), 20);
    assert_eq!(data.u128.by_length.len(), 39);
    assert!(data.u64.mixed.is_empty());
    for (i, vec) in data.u64.by_length.iter().enumerate() {
        assert_eq!(vec.len(), 50);
        for v in vec {
            assert_eq!(v.to_string().len(), i + 1);
        }
    }
}

#[test]
fn data_unpredictable() {
    let data = Data::random(40, true);
    assert_eq!(data.u32.mixed.len(), 40);
    for (i, vec) in data.u32.by_length.iter().enumerate() {
        assert_eq!(vec.len(), 80);
        let own = vec.iter().filter(|v| v.to_string().len() == i + 1).count();
        let mixed_here = data.u32.mixed.iter().filter(|v| v.to_string().len() == i + 1).count();
        assert_eq!(own, 40 + mixed_here);
    }
    let mut lengths: Vec<usize> = data.u32.mixed.iter().map(|v| v.to_string().len()).collect();
    lengths.sort();
    assert_eq!(lengths.iter().filter(|&&n| n == 1).count(), 4);
}

#[test]
fn data_is_reproducible() {
    let a = Data::random(20, true);
    let b = Data::random(20, true);
    assert_eq!(a.u64.by_length, b.u64.by_length);
    assert_eq!(a.u128.mixed, b.u128.mixed);
}

#[test]
fn harness_helpers() {
    assert!(same_bytes(b"123", b"123"));
    assert!(!same_bytes(b"123", b"124"));
    assert!(!same_bytes(b"12", b"123"));
    assert!(!is_compared(Algorithm::Core));
    assert!(!is_compared(Algorithm::Null));
    assert!(is_compared(Algorithm::Itoa));
}

#[test]
fn mixed_is_shuffled() {
    let data = Data::random(100, true);
    let in_turn = data
        .u64
        .mixed
        .iter()
        .enumerate()
        .filter(|(k, v)| v.to_string().len() == k % 20 + 1)
        .count();
    assert!(in_turn < 100);
    let mut own: Vec<u64> = data.u64.by_length[3].iter().copied().filter(|v| v.to_string().len() == 4).collect();
    own.sort();
    assert!(own.len() >= 100);
}

#[test]
fn fill_appends_to_existing_arrays() {
    let mut rng = rand::rngs::SmallRng::seed_from_u64(7);
    let mut data: Vec<Vec<u32>> = (0..10).map(|i| vec![i as u32]).collect();
    fill(&mut rng, &mut data, 5);
    for (i, vec) in data.iter().enumerate() {
        assert_eq!(vec.len(), 6);
        assert_eq!(vec[0], i as u32);
        for v in &vec[1..] {
            assert_eq!(v.to_string().len(), i + 1);
        }
    }
}
