use wxapkg::logging::{is_normal, is_verbose, LogLevel};

#[test]
fn stored_levels_read_back() {
    let mut stored: u8 = 0;
    wxapkg::logging::set(&mut stored, LogLevel::Quiet);
    assert!(!is_normal(stored));
    assert!(!is_verbose(stored));
    wxapkg::logging::set(&mut stored, LogLevel::Normal);
    assert_eq!(stored, 1);
    assert!(is_normal(stored));
    assert!(!is_verbose(stored));
    wxapkg::logging::set(&mut stored, LogLevel::Verbose);
    assert!(is_normal(stored));
    assert!(is_verbose(stored));
}

#[test]
fn level_codes_are_ordered() {
    assert_eq!(LogLevel::Quiet.code(), 0);
    assert_eq!(LogLevel::Normal.code(), 1);
    assert_eq!(LogLevel::Verbose.code(), 2);
    assert!(is_normal(200) && is_verbose(200));
}
