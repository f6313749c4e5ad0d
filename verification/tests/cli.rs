use fibcalc::memory_budget::parse_memory_limit;
use fibcalc::output::{format_number, format_result};
use fibcalc::presenter::CLIResultPresenter;
use num_bigint::BigUint;


#[test]
fn format_number_thousands() {
    assert_eq!(format_number(1_000_000), "1,000,000");
    assert_eq!(format_number(42), "42");
    assert_eq!(format_number(1234), "1,234");
}

#[test]
fn format_result_short() {
    let value = BigUint::from(12345u64);
    let s = format_result(&value, false);
    assert_eq!(s, "12345");
}

#[test]
fn presenter_quiet_mode() {
    let presenter = CLIResultPresenter::new(false, true);
    // In quiet mode, should just print the number
    // (Testing output capture is complex, so we just verify construction)
    assert!(presenter.quiet());
}

#[test]
fn presenter_verbose_mode() {
    let presenter = CLIResultPresenter::new(true, false);
    assert!(presenter.verbose());
    assert!(!presenter.quiet());
}

#[test]
fn parse_memory_limit_values() {
    assert_eq!(parse_memory_limit("8G").unwrap(), 8 * 1024 * 1024 * 1024);
    assert_eq!(parse_memory_limit("512M").unwrap(), 512 * 1024 * 1024);
    assert_eq!(parse_memory_limit("1024K").unwrap(), 1024 * 1024);
    assert_eq!(parse_memory_limit("").unwrap(), 0);
}

#[test]
fn parse_memory_limit_invalid() {
    assert!(parse_memory_limit("abc").is_err());
}

#[test]
fn parse_memory_limit_number_beyond_usize() {
    let e = parse_memory_limit("999999999999999999999999999G").unwrap_err();
    assert!(e.starts_with("invalid memory limit: "));
    let e = parse_memory_limit("99999999999999999999999999").unwrap_err();
    assert!(e.starts_with("invalid memory limit: "));
}
