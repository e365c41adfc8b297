use task_manager::arith::{add_u32, are_coprime, is_prime, mul_of_sum, mul_u32, next_prime, MathErr};
use task_manager::chars::{
    add_chars_n, add_str, char_to_number, char_to_number_hex, text_to_lowercase,
    text_to_uppercase, to_lowercase, to_lowercase_n, to_uppercase, to_uppercase_n, FuncError,
};

#[test]
fn primes_by_trial_division() {
    assert!(!is_prime(0));
    assert!(!is_prime(1));
    assert!(is_prime(2));
    assert!(is_prime(7));
    assert!(!is_prime(9));
    assert!(is_prime(97));
    assert!(!is_prime(100));
    assert!(!is_prime(4));
    assert!(!is_prime(6));
    assert!(is_prime(3));
    assert!(!is_prime(25));
    assert!(!is_prime(-7));
    assert!(is_prime(7919));
}

#[test]
fn coprime_pairs() {
    assert!(are_coprime((8, 15)));
    assert!(!are_coprime((6, 9)));
    assert!(!are_coprime((0, 5)));
    assert!(are_coprime((1, 1)));
    assert!(!are_coprime((7, 7)));
}

#[test]
fn next_prime_values() {
    assert_eq!(next_prime(24), Some(29));
    assert_eq!(next_prime(29), Some(29));
    assert_eq!(next_prime(u16::MAX), None);
}

#[test]
fn checked_arithmetic() {
    assert_eq!(add_u32(2, 3), Ok(5));
    assert_eq!(add_u32(u32::MAX, 1), Err(MathErr::Overflow));
    assert_eq!(mul_u32(6, 7), Ok(42));
    assert_eq!(mul_u32(1 << 16, 1 << 16), Err(MathErr::Overflow));
    assert_eq!(mul_of_sum(2, 3, 4), Ok(20));
    assert_eq!(mul_of_sum(u32::MAX, 1, 1), Err(MathErr::Overflow));
    assert_eq!(mul_of_sum(1 << 16, 0, 1 << 16), Err(MathErr::Overflow));
}

#[test]
fn letter_case() {
    assert_eq!(to_uppercase('a'), Ok('A'));
    assert_eq!(to_uppercase('Q'), Ok('Q'));
    assert_eq!(to_uppercase('1'), Err((FuncError::NotLetter, '1')));
    assert_eq!(to_lowercase('Z'), Ok('z'));
    assert_eq!(to_lowercase('!'), Err((FuncError::NotLetter, '!')));
    assert_eq!(to_uppercase_n('z'), Ok('Z'));
    assert_eq!(to_lowercase_n('A'), Ok('a'));
    assert_eq!(to_lowercase_n('é'), Err(FuncError::NotLetter));
}

#[test]
fn digits() {
    assert_eq!(char_to_number('7'), Ok(7));
    assert_eq!(char_to_number('x'), Err((FuncError::NotDigit, 'x')));
    assert_eq!(char_to_number('ß'), Err((FuncError::NotAscii, 'ß')));
    assert_eq!(char_to_number_hex('B'), Ok(11));
    assert_eq!(char_to_number_hex('9'), Ok(9));
    assert_eq!(char_to_number_hex('b'), Err((FuncError::NotBase16Digit, 'b')));
    assert_eq!(char_to_number_hex('€'), Err((FuncError::NotAscii, '€')));
}

#[test]
fn text_case() {
    assert_eq!(text_to_uppercase("abcXyz"), Ok("ABCXYZ".to_string()));
    assert_eq!(text_to_lowercase("HeLLo"), Ok("hello".to_string()));
    assert_eq!(text_to_uppercase("no way"), Err(FuncError::NotLetter));
    assert_eq!(text_to_lowercase(""), Ok(String::new()));
}

#[test]
fn appending() {
    assert_eq!(add_chars_n("ab".to_string(), 'z', 3), "abzzz");
    assert_eq!(add_chars_n("ab".to_string(), 'z', -2), "ab");
    assert_eq!(add_str("I ".to_string(), "💚"), "I 💚");
}
