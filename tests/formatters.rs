use itoa_bench::bcd::u64toa_bcd;
use itoa_bench::bcd4::{u32toa_bcd4, u64toa_bcd4};
use itoa_bench::branchlut2::u64toa_branchlut2;
use itoa_bench::countdecimaldigit::count_decimal_digit_64;
use itoa_bench::countlut::u64toa_countlut;
use itoa_bench::itoa_jeaiii::u64toa_jeaiii;
use itoa_bench::itoa_ljust::u64toa_amartin;
use itoa_bench::lut::u64toa_lut;
use itoa_bench::mwilson::u64toa_mwilson;
use itoa_bench::numbuffer::{u128toa_numbuffer, u32toa_numbuffer, u64toa_numbuffer};
use itoa_bench::oracle::{u128toa_core, u128toa_itoa, u32toa_core, u32toa_itoa, u64toa_core, u64toa_itoa};
use itoa_bench::registry::{all, Algorithm, Width};
use itoa_bench::yy::u64toa_yy;

fn every_u64(v: u64) -> Vec<(String, Vec<u8>)> {
    let mut out = Vec::new();
    for alg in all() {
        if alg == Algorithm::Null {
            continue;
        }
        if let Some(s) = alg.run_u64(v) {
            out.push((alg.name().to_string(), s.as_bytes().to_vec()));
        }
    }
    out
}

fn check_u64(v: u64, expected: &str) {
    for (name, bytes) in every_u64(v) {
        assert_eq!(bytes, expected.as_bytes(), "{name} on {v}");
    }
}

#[test]
fn scenario_zero() {
    check_u64(0, "0");
}

#[test]
fn scenario_nine() {
    check_u64(9, "9");
}

#[test]
fn scenario_ten() {
    check_u64(10, "10");
}

#[test]
fn scenario_ninety_nine() {
    check_u64(99, "99");
}

#[test]
fn scenario_hundred() {
    check_u64(100, "100");
}

#[test]
fn scenario_max_u32() {
    check_u64(4294967295, "4294967295");
    assert_eq!(u32toa_core(u32::MAX).as_bytes(), b"4294967295");
    assert_eq!(u32toa_itoa(u32::MAX).as_bytes(), b"4294967295");
    assert_eq!(u32toa_numbuffer(u32::MAX).as_bytes(), b"4294967295");
}

#[test]
fn scenario_max_u64() {
    check_u64(18446744073709551615, "18446744073709551615");
}

#[test]
fn max_u128() {
    let expected = u128::MAX.to_string();
    assert_eq!(u128toa_core(u128::MAX).as_bytes(), expected.as_bytes());
    assert_eq!(u128toa_itoa(u128::MAX).as_bytes(), expected.as_bytes());
    assert_eq!(u128toa_numbuffer(u128::MAX).as_bytes(), expected.as_bytes());
}

#[test]
fn boundaries_every_power_of_ten() {
    let mut p: u64 = 1;
    for _ in 0..20 {
        for v in [p - 1, p, p.saturating_add(1)] {
            check_u64(v, &v.to_string());
        }
        p = p.saturating_mul(10);
    }
}

#[test]
fn length_is_digit_count() {
    for v in [0u64, 7, 10, 12345, 99999999, 100000000, 1u64 << 40, u64::MAX] {
        let n = v.to_string().len();
        assert_eq!(count_decimal_digit_64(v) as usize, n);
        for (name, bytes) in every_u64(v) {
            assert_eq!(bytes.len(), n, "{name} on {v}");
        }
    }
}

#[test]
fn no_leading_zero() {
    for v in [1u64, 5, 10, 1000, 10000001, 1u64 << 63] {
        for (name, bytes) in every_u64(v) {
            assert_ne!(bytes[0], b'0', "{name} on {v}");
        }
    }
    for (_, bytes) in every_u64(0) {
        assert_eq!(bytes, b"0");
    }
}

#[test]
fn deterministic() {
    for v in [0u64, 42, 123456789012, u64::MAX] {
        assert_eq!(every_u64(v), every_u64(v));
    }
}

#[test]
fn each_algorithm_by_name() {
    let v: u64 = 1234567890123456789;
    let e = b"1234567890123456789";
    assert_eq!(u64toa_branchlut2(v).as_bytes(), e);
    assert_eq!(u64toa_countlut(v).as_bytes(), e);
    assert_eq!(u64toa_lut(v).as_bytes(), e);
    assert_eq!(u64toa_amartin(v).as_bytes(), e);
    assert_eq!(u64toa_mwilson(v).as_bytes(), e);
    assert_eq!(u64toa_yy(v).as_bytes(), e);
    assert_eq!(u64toa_core(v).as_bytes(), e);
    assert_eq!(u64toa_itoa(v).as_bytes(), e);
    assert_eq!(u64toa_numbuffer(v).as_bytes(), e);
    assert_eq!(u64toa_jeaiii(v).as_bytes(), e);
    assert_eq!(u64toa_bcd(v).as_bytes(), e);
    assert_eq!(u64toa_bcd4(v).as_bytes(), e);
}

#[test]
fn every_length_every_algorithm() {
    let mut v: u64 = 0;
    for len in 1..=20u32 {
        let lo = if len == 1 { 0 } else { 10u64.pow(len - 1) };
        let hi = if len == 20 { u64::MAX } else { 10u64.pow(len) - 1 };
        for x in [lo, hi, lo / 2 + hi / 2, lo + 7, hi - 3] {
            check_u64(x, &x.to_string());
            v = v.wrapping_add(x);
        }
    }
    check_u64(v, &v.to_string());
}

#[test]
fn pseudo_random_values() {
    let mut x: u64 = 0x9e3779b97f4a7c15;
    for _ in 0..2000 {
        x ^= x << 13;
        x ^= x >> 7;
        x ^= x << 17;
        for v in [x, x >> 8, x >> 20, x >> 33, x >> 45, x >> 57] {
            check_u64(v, &v.to_string());
        }
    }
}

#[test]
fn bcd4_on_u32() {
    for v in [0u32, 1, 9, 10, 99, 100, 999, 1000, 9999, 10000, 123456, 99999999, 100000000, u32::MAX] {
        assert_eq!(u32toa_bcd4(v).as_bytes(), v.to_string().as_bytes());
    }
}

#[test]
fn jeaiii_fraction_edges() {
    for len in 1..=10u32 {
        let lo = if len == 1 { 0 } else { 10u64.pow(len - 1) };
        let hi = (10u64.pow(len) - 1).min(u32::MAX as u64);
        for v in [lo, hi, lo + 1, hi - 1] {
            assert_eq!(u64toa_jeaiii(v).as_bytes(), v.to_string().as_bytes());
        }
    }
    for v in [4294967296u64, 99999999999999999, 100000000000000000, 429496729600000000] {
        assert_eq!(u64toa_jeaiii(v).as_bytes(), v.to_string().as_bytes());
    }
}

#[test]
fn null_writes_nothing() {
    assert_eq!(Algorithm::Null.run_u64(123).unwrap().len(), 0);
    assert!(Algorithm::Yy.run_u32(1).is_none());
    assert!(Algorithm::Core.supports(Width::U128));
    assert!(!Algorithm::Lut.supports(Width::U32));
}

#[test]
fn u32_and_u128_routines() {
    for v in [0u32, 9, 10, 65535, 100000, u32::MAX] {
        for alg in all() {
            if alg == Algorithm::Null {
                continue;
            }
            if let Some(s) = alg.run_u32(v) {
                assert_eq!(s.as_bytes(), v.to_string().as_bytes());
            }
        }
    }
    for v in [0u128, 1, u64::MAX as u128 + 1, 10u128.pow(38), u128::MAX] {
        for alg in all() {
            if alg == Algorithm::Null {
                continue;
            }
            if let Some(s) = alg.run_u128(v) {
                assert_eq!(s.as_bytes(), v.to_string().as_bytes());
            }
        }
    }
}
