use cpfuzz::sample_integer;
use cpfuzz::random_permutation;
use cpfuzz::Specification;
use cpfuzz::SpecificationError;
use cpfuzz::Error;

fn parse(src: &[u8]) -> Specification {
    Specification::parse(&src.to_vec()).expect("specification should parse")
}

fn tokens(out: &[u8]) -> Vec<i64> {
    String::from_utf8(out.to_vec())
        .expect("generated bytes are ASCII")
        .split_whitespace()
        .map(|t| t.parse().expect("generated tokens are integers"))
        .collect()
}

#[test]
fn end_to_end_pinned_spec() {
    let spec = parse(b"int n 1 1\narr a n 5 5");
    for _ in 0..10 {
        let out = spec.generate().expect("pinned specification generates");
        assert_eq!(out, b"1 \n5 \n".to_vec());
    }
}

#[test]
fn pinned_integer_always_equal() {
    let spec = parse(b"int x 7 7");
    for _ in 0..20 {
        let out = spec.generate().expect("pinned integer generates");
        assert_eq!(out, b"7 \n".to_vec());
    }
}

#[test]
fn negative_pinned_integer() {
    let spec = parse(b"int a -5 -5");
    let out = spec.generate().expect("negative pinned integer generates");
    assert_eq!(out, b"-5 \n".to_vec());
}

#[test]
fn inverted_bounds_always_fail() {
    let spec = parse(b"int x 5 3");
    for _ in 0..10 {
        assert!(spec.generate().is_err());
    }
}

#[test]
fn inverted_array_bounds_fail() {
    let spec = parse(b"arr a 0 5 3");
    assert!(spec.generate().is_err());
}

#[test]
fn sampled_integer_stays_in_range() {
    let spec = parse(b"int x 2 5");
    for _ in 0..50 {
        let out = spec.generate().expect("valid range generates");
        let vals = tokens(&out);
        assert_eq!(vals.len(), 1);
        assert!((2..=5).contains(&vals[0]));
    }
}

#[test]
fn permutation_is_permutation() {
    let spec = parse(b"perm p 6");
    for _ in 0..10 {
        let out = spec.generate().expect("permutation generates");
        let mut vals = tokens(&out);
        vals.sort();
        assert_eq!(vals, vec![1, 2, 3, 4, 5, 6]);
    }
}

#[test]
fn empty_permutation_emits_nothing() {
    let spec = parse(b"perm p 0");
    let out = spec.generate().expect("empty permutation generates");
    assert_eq!(out, b"\n".to_vec(), "a separator but no values");
}

#[test]
fn shape_is_deterministic() {
    let spec = parse(b"int a 1 100 int b 1 100\narr c 3 0 9");
    let first = spec.generate().expect("generates");
    let second = spec.generate().expect("generates");
    assert_eq!(tokens(&first).len(), tokens(&second).len());
    assert_eq!(
        first.iter().filter(|&&b| b == b'\n').count(),
        second.iter().filter(|&&b| b == b'\n').count()
    );
    assert_eq!(tokens(&first).len(), 5);
    assert_eq!(first.iter().filter(|&&b| b == b'\n').count(), 2);
}

#[test]
fn undefined_variable_fails() {
    let spec = parse(b"arr a n 1 2");
    assert!(spec.generate().is_err());
}

#[test]
fn forward_binding_feeds_array_length() {
    let spec = parse(b"int n 3 3\narr a n 2 2");
    let out = spec.generate().expect("bound length generates");
    assert_eq!(out, b"3 \n2 2 2 \n".to_vec());
}

#[test]
fn variable_as_bound() {
    let spec = parse(b"int n 4 4\nint m n n");
    let out = spec.generate().expect("variable bounds generate");
    assert_eq!(out, b"4 \n4 \n".to_vec());
}

#[test]
fn multiple_declarations_share_a_line() {
    let spec = parse(b"int a 1 1 int b 2 2");
    let out = spec.generate().expect("two declarations generate");
    assert_eq!(out, b"1 2 \n".to_vec());
}

#[test]
fn blank_line_separates_records() {
    let spec = parse(b"int a 1 1\n\nint b 2 2");
    let out = spec.generate().expect("blank line generates");
    assert_eq!(out, b"1 \n\n2 \n".to_vec());
}

#[test]
fn carriage_returns_are_stripped() {
    let spec = parse(b"int a 1 1\r\nint b 2 2\r\n");
    let out = spec.generate().expect("CRLF source generates");
    assert_eq!(out, b"1 \n2 \n".to_vec());
}

#[test]
fn largest_literal_round_trips() {
    let spec = parse(b"int x 9223372036854775807 9223372036854775807");
    let out = spec.generate().expect("largest literal generates");
    assert_eq!(out, b"9223372036854775807 \n".to_vec());
}

#[test]
fn smallest_literal_round_trips() {
    let spec = parse(b"int x -9223372036854775808 -9223372036854775808");
    let out = spec.generate().expect("smallest literal generates");
    assert_eq!(out, b"-9223372036854775808 \n".to_vec());
}

#[test]
fn overflowing_literal_reads_as_variable() {
    let spec = parse(b"int x 99999999999999999999 99999999999999999999");
    assert!(spec.generate().is_err());
}

#[test]
fn parse_rejects_unknown_keyword() {
    assert!(Specification::parse(&b"bogus x 1 2".to_vec()).is_err());
}

#[test]
fn parse_rejects_missing_fields() {
    assert!(Specification::parse(&b"int x 1".to_vec()).is_err());
    assert!(Specification::parse(&b"arr a 1 2".to_vec()).is_err());
    assert!(Specification::parse(&b"perm p".to_vec()).is_err());
}

#[test]
fn parse_accepts_empty_source() {
    let spec = parse(b"");
    assert_eq!(spec.generate().expect("empty specification generates"), Vec::<u8>::new());
}

#[test]
fn sample_integer_pinned_and_inverted() {
    assert_eq!(sample_integer(3, 3), Ok(3));
    assert!(sample_integer(5, 3).is_err());
    for _ in 0..20 {
        let v = sample_integer(-2, 2).expect("valid range samples");
        assert!((-2..=2).contains(&v));
    }
}

#[test]
fn random_permutation_of_zero_and_five() {
    assert_eq!(random_permutation(0), Vec::<i64>::new());
    let mut p = random_permutation(5);
    p.sort();
    assert_eq!(p, vec![1, 2, 3, 4, 5]);
}

#[test]
fn specification_error_wraps() {
    let e = Error::from(SpecificationError::Any);
    assert!(matches!(e, Error::Specification(SpecificationError::Any)));
    let io = std::io::Error::new(std::io::ErrorKind::Other, "gone");
    assert!(matches!(Error::from(io), Error::Io(_)));
}

#[test]
fn array_values_stay_in_range() {
    let spec = parse(b"arr a 5 2 4");
    for _ in 0..20 {
        let out = spec.generate().expect("array generates");
        let vals = tokens(&out);
        assert_eq!(vals.len(), 5);
        assert!(vals.iter().all(|v| (2..=4).contains(v)));
    }
}

#[test]
fn single_element_permutation() {
    let spec = parse(b"perm p 1");
    assert_eq!(spec.generate().expect("generates"), b"1 \n".to_vec());
}
