use taskboard::service::has_session_cookie;

#[test]
fn session_cookie_found_in_any_part() {
    assert!(has_session_cookie("session=booo"));
    assert!(has_session_cookie("theme=dark; session=abc"));
    assert!(has_session_cookie("a=1;session="));
    assert!(has_session_cookie("a=1;\t  session=x; b=2"));
}

#[test]
fn session_cookie_needs_exact_name() {
    assert!(!has_session_cookie(""));
    assert!(!has_session_cookie("session"));
    assert!(!has_session_cookie("session =x"));
    assert!(!has_session_cookie("mysession=x"));
    assert!(!has_session_cookie("a=session=x"));
    assert!(!has_session_cookie("sessions=x"));
}
