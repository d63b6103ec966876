use mazegen::config::parse_usize;
use mazegen::Config;
use mazegen::Mode;

fn args(a: &[&str]) -> Vec<String> {
    a.iter().map(|s| s.to_string()).collect()
}

#[test]
fn parse_usize_accepts_plain_numbers() {
    assert_eq!(parse_usize("0"), Some(0));
    assert_eq!(parse_usize("5"), Some(5));
    assert_eq!(parse_usize("123"), Some(123));
    assert_eq!(parse_usize("007"), Some(7));
}

#[test]
fn parse_usize_accepts_one_leading_plus() {
    assert_eq!(parse_usize("+5"), Some(5));
    assert_eq!(parse_usize("+123"), Some(123));
    assert_eq!(parse_usize("+0"), Some(0));
}

#[test]
fn parse_usize_rejects_malformed_input() {
    assert_eq!(parse_usize(""), None);
    assert_eq!(parse_usize("12a"), None);
    assert_eq!(parse_usize("-3"), None);
    assert_eq!(parse_usize(" 5"), None);
    assert_eq!(parse_usize("+"), None);
    assert_eq!(parse_usize("++5"), None);
    assert_eq!(parse_usize("+x"), None);
    assert_eq!(parse_usize("5+"), None);
    assert_eq!(parse_usize("99999999999999999999999999999999"), None);
}

#[test]
fn valid_configuration_is_accepted() {
    let a = args(&["prog", "5", "3", "c"]);
    let c = Config::new(&a).unwrap();
    assert_eq!(c.size, 5);
    assert_eq!(c.count, 3);
    assert!(matches!(c.mode, Mode::Computer));

    let a = args(&["prog", "7", "1", "cs"]);
    assert!(matches!(Config::new(&a).unwrap().mode, Mode::ComputerStep));
    let a = args(&["prog", "7", "1", "v"]);
    assert!(matches!(Config::new(&a).unwrap().mode, Mode::Verbose));
    let a = args(&["prog", "7", "1", "p"]);
    assert!(matches!(Config::new(&a).unwrap().mode, Mode::Print));
}

#[test]
fn plus_signed_numbers_are_accepted() {
    let a = args(&["prog", "+5", "+3", "c"]);
    let c = Config::new(&a).unwrap();
    assert_eq!(c.size, 5);
    assert_eq!(c.count, 3);
    assert!(matches!(c.mode, Mode::Computer));
}

#[test]
fn too_few_arguments_are_rejected() {
    let a = args(&["prog", "5", "3"]);
    assert_eq!(Config::new(&a).unwrap_err(), "not enough arguments");
}

#[test]
fn unparseable_numbers_are_rejected() {
    let a = args(&["prog", "five", "3", "c"]);
    assert_eq!(Config::new(&a).unwrap_err(), "not a valid number");
    let a = args(&["prog", "5", "many", "c"]);
    assert_eq!(Config::new(&a).unwrap_err(), "not a valid number");
}

#[test]
fn unknown_mode_is_rejected() {
    let a = args(&["prog", "5", "3", "x"]);
    assert_eq!(Config::new(&a).unwrap_err(), "not a valid mode");
}

#[test]
fn small_size_is_rejected_before_any_output() {
    let a = args(&["prog", "4", "1", "p"]);
    assert_eq!(Config::new(&a).unwrap_err(), "size must be greater than 4");
}

#[test]
fn even_size_is_rejected() {
    let a = args(&["prog", "6", "1", "c"]);
    assert_eq!(Config::new(&a).unwrap_err(), "size must be odd number");
}

#[test]
fn zero_count_is_rejected() {
    let a = args(&["prog", "5", "0", "c"]);
    assert_eq!(Config::new(&a).unwrap_err(), "must specify positive count");
}
