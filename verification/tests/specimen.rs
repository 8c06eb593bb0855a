use cov::specimen::{
    compute, factorial, parse_decimal, parse_number_in_middle, ramsey, Fibonacci,
};

#[test]
fn test() {
    assert_eq!(ramsey(1, 10000), 1);
    assert_eq!(ramsey(10000, 2), 10000);
}

#[test]
fn test_plus() {
    assert_eq!(compute(1, "+", 2), 3);
    assert_eq!(compute(4, "+", 5), 9);
}

#[test]
fn test_max_min() {
    assert_eq!(compute(12, "max", 8), 12);
    assert_eq!(compute(5, "max", 5), 5);
    assert_eq!(compute(2, "min", 1), 1);
}

#[test]
fn test_pow() {
    assert_eq!(compute(-6, "^", 5), -7776);
}

#[test]
fn test_ramsey_table() {
    assert_eq!(ramsey(3, 3), 6);
    assert_eq!(ramsey(5, 4), 25);
    assert_eq!(ramsey(9, 3), 36);
}

#[test]
fn test_compute_rest() {
    assert_eq!(compute(5, "/", 3), 1);
    assert_eq!(compute(-7, "/", 2), -3);
    assert_eq!(compute(7, "/", -2), -3);
    assert_eq!(compute(-7, "/", -2), 3);
    assert_eq!(compute(5, "-", 8), -3);
    assert_eq!(compute(-4, "*", 6), -24);
    assert_eq!(compute(3, "^", 0), 1);
    assert_eq!(compute(3, "^", -2), 1);
}

#[test]
fn test_factorial() {
    assert_eq!(factorial(0), 1);
    assert_eq!(factorial(5), 120);
    assert_eq!(factorial(20), 2432902008176640000);
}

#[test]
fn test_fibonacci() {
    let mut f = Fibonacci::new();
    let mut seen = Vec::new();
    for _ in 0..8 {
        seen.push(f.next().unwrap());
    }
    assert_eq!(seen, vec![1, 1, 2, 3, 5, 8, 13, 21]);
}

#[test]
fn test_parse_number_in_middle() {
    assert_eq!(parse_number_in_middle("abc123def"), Some(123));
    assert_eq!(parse_number_in_middle("1234"), Some(1234));
    assert_eq!(parse_number_in_middle("12e56"), Some(12));
    assert_eq!(parse_number_in_middle("???"), None);
    assert_eq!(parse_number_in_middle("99999999999999999999"), None);
}

#[test]
fn test_parse_decimal() {
    assert_eq!(parse_decimal("0"), Some(0));
    assert_eq!(parse_decimal("007"), Some(7));
    assert_eq!(parse_decimal("4294967295"), Some(4294967295));
    assert_eq!(parse_decimal("4294967296"), None);
    assert_eq!(parse_decimal(""), None);
    assert_eq!(parse_decimal("12a"), None);
    assert_eq!(parse_decimal("+12"), None);
}

#[test]
fn test_digits_of_other_scripts_are_no_number() {
    assert_eq!(parse_number_in_middle("\u{0663} 12"), None);
}
