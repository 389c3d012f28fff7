use bf::check_brackets;
use bf::BfError;
use bf::BfErrorType;

fn chars(s: &str) -> Vec<char> {
    s.chars().collect()
}

#[test]
fn empty_program_validates() {
    assert!(check_brackets(&chars("")).is_ok());
}

#[test]
fn no_brackets_validates() {
    assert!(check_brackets(&chars("+-<>.,ab")).is_ok());
}

#[test]
fn balanced_pair_validates() {
    assert!(check_brackets(&chars("[]")).is_ok());
}

#[test]
fn balanced_nested_validates() {
    assert!(check_brackets(&chars("[[][]]")).is_ok());
    assert!(check_brackets(&chars("+[->[+[-]]<]")).is_ok());
}

#[test]
fn lone_close_fails_at_zero() {
    let e = check_brackets(&chars("]")).unwrap_err();
    assert_eq!(e.location, 0);
    assert_eq!(e.error_type, BfErrorType::UnmatchedBrackets);
}

#[test]
fn lone_open_fails_at_zero() {
    let e = check_brackets(&chars("[")).unwrap_err();
    assert_eq!(e.location, 0);
    assert_eq!(e.error_type, BfErrorType::UnmatchedBrackets);
}

#[test]
fn stray_close_fails_at_its_offset() {
    let e = check_brackets(&chars("[]]")).unwrap_err();
    assert_eq!(e.location, 2);
}

#[test]
fn close_before_open_fails_at_close() {
    let e = check_brackets(&chars("][")).unwrap_err();
    assert_eq!(e.location, 0);
}

#[test]
fn first_stray_close_wins() {
    let e = check_brackets(&chars("+]+]")).unwrap_err();
    assert_eq!(e.location, 1);
}

#[test]
fn unclosed_open_reports_innermost() {
    // two opens, the second one closed: the unclosed one is at offset 0
    let e = check_brackets(&chars("[[]")).unwrap_err();
    assert_eq!(e.location, 0);
    // two opens, neither closed: the innermost (last-opened) is at offset 1
    let e = check_brackets(&chars("[[")).unwrap_err();
    assert_eq!(e.location, 1);
}

#[test]
fn unclosed_open_offset_skips_other_characters() {
    let e = check_brackets(&chars("++[--")).unwrap_err();
    assert_eq!(e.location, 2);
}

#[test]
fn bf_error_new_carries_fields() {
    let e = BfError::new(7, BfErrorType::UnmatchedBrackets);
    assert_eq!(e.location, 7);
    assert_eq!(e.error_type, BfErrorType::UnmatchedBrackets);
}
