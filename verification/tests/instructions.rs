use puzzle_solvers::instructions::{
    parse_do, parse_mul, starts_with, sum_enabled_mul, sum_mul, MulError,
};
use puzzle_solvers::number::{find_byte, parse_u32_range, skip_digits};

#[test]
fn numbers_in_a_range_of_text() {
    assert_eq!(parse_u32_range(b"ab123cd", 2, 5), Some(123));
    assert_eq!(parse_u32_range(b"ab123cd", 2, 4), Some(12));
    assert_eq!(parse_u32_range(b"ab123cd", 2, 6), None);
    assert_eq!(parse_u32_range(b"ab123cd", 2, 2), None);
    assert_eq!(parse_u32_range(b"0", 0, 1), Some(0));
    assert_eq!(parse_u32_range(b"007", 0, 3), Some(7));
}

#[test]
fn numbers_may_have_a_plus_sign_only() {
    assert_eq!(parse_u32_range(b"+42", 0, 3), Some(42));
    assert_eq!(parse_u32_range(b"+", 0, 1), None);
    assert_eq!(parse_u32_range(b"-42", 0, 3), None);
    assert_eq!(parse_u32_range(b"++42", 0, 4), None);
    assert_eq!(parse_u32_range(b"4+2", 0, 3), None);
    assert_eq!(parse_u32_range(b" 42", 0, 3), None);
    assert_eq!(parse_u32_range(b"42 ", 0, 3), None);
}

#[test]
fn numbers_must_fit_into_32_bits() {
    assert_eq!(parse_u32_range(b"4294967295", 0, 10), Some(u32::MAX));
    assert_eq!(parse_u32_range(b"4294967296", 0, 10), None);
    assert_eq!(parse_u32_range(b"4294967300", 0, 10), None);
    assert_eq!(parse_u32_range(b"99999999999999999999999", 0, 23), None);
    assert_eq!(parse_u32_range(b"00000000000000000000001", 0, 23), Some(1));
    assert_eq!(parse_u32_range(b"42949672950", 0, 11), None);
}

#[test]
fn numbers_agree_with_the_standard_parser() {
    for text in ["0", "1", "+1", "12a", "", "+", "4294967295", "4294967296", "000", "1 ", "٣"] {
        let expected = text.parse::<u32>().ok();
        assert_eq!(parse_u32_range(text.as_bytes(), 0, text.len()), expected);
    }
}

#[test]
fn skipping_digits_and_finding_bytes() {
    assert_eq!(skip_digits(b"123,45", 0), 3);
    assert_eq!(skip_digits(b"123,45", 3), 3);
    assert_eq!(skip_digits(b"123,45", 4), 6);
    assert_eq!(skip_digits(b"123,45", 6), 6);
    assert_eq!(find_byte(b"1,2,3", b',', 0), 1);
    assert_eq!(find_byte(b"1,2,3", b',', 2), 3);
    assert_eq!(find_byte(b"1,2,3", b',', 4), 5);
    assert_eq!(find_byte(b"", b',', 0), 0);
}

#[test]
fn prefixes() {
    assert!(starts_with(b"mul(1,2)", b"mul("));
    assert!(starts_with(b"mul(", b"mul("));
    assert!(starts_with(b"mul(", b""));
    assert!(!starts_with(b"mul", b"mul("));
    assert!(!starts_with(b"mal(1,2)", b"mul("));
    assert!(!starts_with(b"xmul(", b"mul("));
}

#[test]
fn switches() {
    assert_eq!(parse_do(b"do()"), Some(true));
    assert_eq!(parse_do(b"do()mul(1,2)"), Some(true));
    assert_eq!(parse_do(b"don't()"), Some(false));
    assert_eq!(parse_do(b"don't()do()"), Some(false));
    assert_eq!(parse_do(b"do"), None);
    assert_eq!(parse_do(b"do(x)"), None);
    assert_eq!(parse_do(b"don't("), None);
    assert_eq!(parse_do(b"dont()"), None);
    assert_eq!(parse_do(b"xdo()"), None);
    assert_eq!(parse_do(b""), None);
}

#[test]
fn multiplications() {
    assert_eq!(parse_mul(b"mul(2,4)"), Ok(Some(8)));
    assert_eq!(parse_mul(b"mul(44,46)rest"), Ok(Some(2024)));
    assert_eq!(parse_mul(b"mul(123,4)"), Ok(Some(492)));
    assert_eq!(parse_mul(b"mul(0,0)"), Ok(Some(0)));
    assert_eq!(parse_mul(b"mul(65535,65537)"), Ok(Some(u32::MAX)));
}

#[test]
fn text_that_is_no_multiplication() {
    assert_eq!(parse_mul(b""), Ok(None));
    assert_eq!(parse_mul(b"mul"), Ok(None));
    assert_eq!(parse_mul(b"mul("), Ok(None));
    assert_eq!(parse_mul(b"mul(4"), Ok(None));
    assert_eq!(parse_mul(b"mul(4*"), Ok(None));
    assert_eq!(parse_mul(b"mul(4,"), Ok(None));
    assert_eq!(parse_mul(b"mul(4,5"), Ok(None));
    assert_eq!(parse_mul(b"mul(6,9!"), Ok(None));
    assert_eq!(parse_mul(b"mul ( 2 , 4 )"), Ok(None));
    assert_eq!(parse_mul(b"mul(2, 4)"), Ok(None));
    assert_eq!(parse_mul(b"mul[3,7]"), Ok(None));
    assert_eq!(parse_mul(b"mul(3)7,1)"), Ok(None));
    assert_eq!(parse_mul(b"xmul(2,4)"), Ok(None));
    assert_eq!(parse_mul(b"mul(-2,4)"), Ok(None));
}

#[test]
fn multiplications_that_cannot_be_carried_out() {
    assert_eq!(parse_mul(b"mul(,4)"), Err(MulError::BadMultiplicand));
    assert_eq!(parse_mul(b"mul(,)"), Err(MulError::BadMultiplicand));
    assert_eq!(parse_mul(b"mul(4294967296,1)"), Err(MulError::BadMultiplicand));
    assert_eq!(parse_mul(b"mul(4,)"), Err(MulError::BadMultiplier));
    assert_eq!(parse_mul(b"mul(1,4294967296)"), Err(MulError::BadMultiplier));
    assert_eq!(parse_mul(b"mul(65536,65536)"), Err(MulError::ProductOverflow));
    assert_eq!(parse_mul(b"mul(4294967295,2)"), Err(MulError::ProductOverflow));
}

#[test]
fn sample_program() {
    let data = b"xmul(2,4)%&mul[3,7]!@^do_not_mul(5,5)+mul(32,64]then(mul(11,8)mul(8,5))";
    assert_eq!(sum_mul(data), Ok(161));
}

#[test]
fn sample_program_with_switches() {
    let data = b"xmul(2,4)&mul[3,7]!^don't()_mul(5,5)+mul(32,64](mul(11,8)undo()?mul(8,5))";
    assert_eq!(sum_mul(data), Ok(161));
    assert_eq!(sum_enabled_mul(data), Ok(48));
}

#[test]
fn sums_of_nothing() {
    assert_eq!(sum_mul(b""), Ok(0));
    assert_eq!(sum_enabled_mul(b""), Ok(0));
    assert_eq!(sum_mul(b"do()don't()"), Ok(0));
    assert_eq!(sum_enabled_mul(b"don't()mul(3,3)"), Ok(0));
    assert_eq!(sum_enabled_mul(b"don't()don't()do()mul(3,3)"), Ok(9));
}

#[test]
fn faults_in_a_program() {
    assert_eq!(sum_mul(b"mul(1,1)mul(,1)mul(65536,65536)"), Err(MulError::BadMultiplicand));
    assert_eq!(sum_mul(b"mul(65535,65537)mul(1,1)"), Err(MulError::SumOverflow));
    assert_eq!(sum_mul(b"mul(65535,65537)mul(0,1)"), Ok(u32::MAX));
    // A multiplication that is switched off is still read.
    assert_eq!(sum_enabled_mul(b"don't()mul(1,)"), Err(MulError::BadMultiplier));
    assert_eq!(sum_enabled_mul(b"don't()mul(65535,65537)mul(1,1)"), Ok(0));
    assert_eq!(sum_enabled_mul(b"mul(65535,65537)mul(1,1)"), Err(MulError::SumOverflow));
}
