use dam_application::Secret;

#[test]
fn debug_redacts_the_value_and_expose_returns_it() {
    let secret: Secret = "SUPERSECRETTOKEN".into();
    assert_eq!(secret.redacted(), "Secret(<redacted>)");
    assert_eq!(secret.expose(), "SUPERSECRETTOKEN");
}

#[test]
fn a_secret_from_a_string_exposes_that_string() {
    let secret = Secret::from(String::from("tok"));
    assert_eq!(secret.expose(), "tok");
    assert_eq!(secret.duplicate().expose(), "tok");
}
