use systemd_traefik_configuration_provider::helpers::sanitize_filename;

#[test]
fn test_sanitize_filename_alphanumeric() {
    assert_eq!(sanitize_filename("myapp.service"), "myapp.service");
}

#[test]
fn test_sanitize_filename_with_special_chars() {
    assert_eq!(sanitize_filename("my@app!service"), "my_app_service");
}

#[test]
fn test_sanitize_filename_with_allowed_chars() {
    assert_eq!(sanitize_filename("my-app_service.tar"), "my-app_service.tar");
}

#[test]
fn test_sanitize_filename_only_special_chars() {
    assert_eq!(sanitize_filename("@#$%"), "untitled");
}

#[test]
fn sanitize_empty_string() {
    let result = sanitize_filename("");
    assert_eq!(result, "untitled");
}

#[test]
fn sanitize_is_idempotent_on_samples() {
    for input in ["my@app!service", "__a__b__", "", "@#$%", "héllo wörld", "a..b--c", "  spaced  out  "] {
        let first = sanitize_filename(input);
        let second = sanitize_filename(&first);
        assert_eq!(first, second);
    }
}

#[test]
fn sanitize_output_is_safe_and_not_empty() {
    for input in ["", " ", "a/b\\c", "日本語", "\u{0}\u{7f}", "_", "x\ty\nz", "…"] {
        let result = sanitize_filename(input);
        assert!(!result.is_empty());
        for c in result.chars() {
            assert!(c.is_ascii_alphanumeric() || c == '.' || c == '-' || c == '_');
        }
        assert!(!result.starts_with('_'));
        assert!(!result.ends_with('_'));
        assert!(!result.contains("__"));
    }
}

#[test]
fn sanitize_whitespace_gives_fallback() {
    assert_eq!(sanitize_filename("   "), "untitled");
    assert_eq!(sanitize_filename("\t\n"), "untitled");
    assert_eq!(sanitize_filename("___"), "untitled");
    assert_eq!(sanitize_filename("!?*"), "untitled");
}

#[test]
fn sanitize_transliterates_to_ascii() {
    assert_eq!(sanitize_filename("áéó"), "aeo");
    assert_eq!(sanitize_filename("Æneid.service"), "AEneid.service");
}

#[test]
fn sanitize_collapses_runs_of_underscores() {
    assert_eq!(sanitize_filename("a__b"), "a_b");
    assert_eq!(sanitize_filename("a@@@@b"), "a_b");
    assert_eq!(sanitize_filename("a_b"), "a_b");
    assert_eq!(sanitize_filename("a @ b"), "a_b");
}

#[test]
fn sanitize_trims_underscores_at_both_ends() {
    assert_eq!(sanitize_filename("_a_"), "a");
    assert_eq!(sanitize_filename("@a@"), "a");
    assert_eq!(sanitize_filename("__web.service__"), "web.service");
}

#[test]
fn sanitize_keeps_allowed_characters() {
    assert_eq!(sanitize_filename("ABCxyz019.-"), "ABCxyz019.-");
    assert_eq!(sanitize_filename("..--.."), "..--..");
}
