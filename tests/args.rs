use itoa_bench::args::{parse, Type};
use itoa_bench::registry::Algorithm;

fn tokens(list: &[&str]) -> Vec<String> {
    list.iter().map(|s| s.to_string()).collect()
}

#[test]
fn no_tokens_selects_everything() {
    let args = parse(&tokens(&[])).ok().unwrap();
    assert!(!args.unpredictable);
    assert_eq!(args.benchmark[0], ("core", Type::U32(Algorithm::Core)));
    assert_eq!(args.benchmark.len(), 4 * 3 + 2 + 8);
}

#[test]
fn algorithm_alone_selects_its_widths() {
    let args = parse(&tokens(&["itoa", "yy"])).ok().unwrap();
    assert_eq!(
        args.benchmark,
        vec![
            ("itoa", Type::U32(Algorithm::Itoa)),
            ("itoa", Type::U64(Algorithm::Itoa)),
            ("itoa", Type::U128(Algorithm::Itoa)),
            ("yy", Type::U64(Algorithm::Yy)),
        ]
    );
}

#[test]
fn algorithm_with_width() {
    let args = parse(&tokens(&["--unpredictable", "core:u128"])).ok().unwrap();
    assert!(args.unpredictable);
    assert_eq!(args.benchmark, vec![("core", Type::U128(Algorithm::Core))]);
}

#[test]
fn flag_alone_selects_everything() {
    let args = parse(&tokens(&["--unpredictable"])).ok().unwrap();
    assert!(args.unpredictable);
    assert_eq!(args.benchmark.len(), 22);
}

#[test]
fn bcd4_has_two_widths() {
    let args = parse(&tokens(&["bcd4", "jeaiii:u64"])).ok().unwrap();
    assert_eq!(
        args.benchmark,
        vec![
            ("bcd4", Type::U32(Algorithm::Bcd4)),
            ("bcd4", Type::U64(Algorithm::Bcd4)),
            ("jeaiii", Type::U64(Algorithm::Jeaiii)),
        ]
    );
}

#[test]
fn unknown_algorithm_is_refused() {
    let err = parse(&tokens(&["yy", "nope", "lut:u7"])).err().unwrap();
    assert_eq!(err.token, "nope");
}

#[test]
fn unsupported_width_is_refused() {
    let err = parse(&tokens(&["lut:u32"])).err().unwrap();
    assert_eq!(err.token, "lut:u32");
    let err = parse(&tokens(&["core:u16"])).err().unwrap();
    assert_eq!(err.token, "core:u16");
}
