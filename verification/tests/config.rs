use dam_application::config::{Config, CredentialSpec, FilterConfig, RemoteConfig};
use dam_application::credentials::resolve_credentials;
use dam_application::errors::{Refusal, UseCaseError};
use dam_application::ports::{CredentialError, CredentialSource, RemoteName, Resolutions};
use dam_application::Secret;

/// Hands back a literal's value; anything else has no source here.
struct Echo;

impl CredentialSource for Echo {
    fn resolved(&self) -> Resolutions {
        unreachable!("what a source was asked is stated in proofs only")
    }

    fn resolve(&mut self, spec: &CredentialSpec) -> Result<Secret, CredentialError> {
        match spec {
            CredentialSpec::Literal { value, .. } => Ok(value.duplicate()),
            CredentialSpec::Command { name, .. } => Err(CredentialError::CommandFailed {
                name: name.clone(),
                why: "the vault is locked".to_string(),
            }),
            CredentialSpec::Env { name, var } => {
                Err(CredentialError::EnvUnset { name: name.clone(), var: var.clone() })
            }
        }
    }
}

fn remote(specs: Vec<CredentialSpec>) -> RemoteConfig {
    RemoteConfig {
        name: RemoteName("todoist".to_string()),
        helper: "todoist".to_string(),
        url: "todoist::".to_string(),
        credentials: specs,
        stale: None,
        deadline: None,
        path: None,
    }
}

fn literal(name: &str, value: &str) -> CredentialSpec {
    CredentialSpec::Literal { name: name.to_string(), value: Secret::new(value.to_string()) }
}

/// A secret has no `Debug` at all, so a config cannot be printed whole; the
/// one text the library gives of a credential is its redacted form.
#[test]
fn a_config_holding_a_literal_credential_never_debug_prints_it() {
    const TOKEN: &str = "SUPERSECRETTOKEN";
    let mut config = Config::empty();
    config.remotes.push(remote(vec![literal("api_token", TOKEN)]));
    for r in &config.remotes {
        for spec in &r.credentials {
            if let CredentialSpec::Literal { value, .. } = spec {
                assert!(!value.redacted().contains(TOKEN));
                assert_eq!(value.expose(), TOKEN);
            }
        }
    }
}

#[test]
fn the_address_is_the_text_after_the_helper_name() {
    let mut remote = RemoteConfig {
        name: RemoteName("gcal".to_string()),
        helper: "gcal".to_string(),
        url: "gcal::primary,team@group.calendar.google.com".to_string(),
        credentials: vec![],
        stale: None,
        deadline: None,
        path: None,
    };
    assert_eq!(remote.address(), "primary,team@group.calendar.google.com");
    remote.url = "todoist::".to_string();
    assert_eq!(remote.address(), "");
}

#[test]
fn the_address_starts_after_the_first_separator_only() {
    let mut r = remote(vec![]);
    r.url = "gcal::a::b".to_string();
    assert_eq!(r.address(), "a::b");
    r.url = "no-separator".to_string();
    assert_eq!(r.address(), "");
}

#[test]
fn each_declared_credential_is_resolved_by_name() {
    let r = remote(vec![literal("api_token", "abc")]);
    let out = resolve_credentials(&mut Echo, &r, &vec!["api_token".to_string()]).unwrap();
    assert_eq!(out.len(), 1);
    assert_eq!(out[0].0, "api_token");
    assert_eq!(out[0].1.expose(), "abc");
}

#[test]
fn a_declared_credential_with_no_spec_is_refused_by_name() {
    let r = remote(vec![]);
    let err = resolve_credentials(&mut Echo, &r, &vec!["api_token".to_string()]).err().expect("the resolution is refused");
    assert_eq!(
        err,
        UseCaseError::Refused(Refusal::MissingCredential {
            remote: "todoist".to_string(),
            name: "api_token".to_string(),
        })
    );
}

#[test]
fn the_first_missing_name_is_the_one_refused() {
    let r = remote(vec![literal("second", "x")]);
    let declared = vec!["first".to_string(), "second".to_string(), "third".to_string()];
    let err = resolve_credentials(&mut Echo, &r, &declared).err().expect("the resolution is refused");
    assert_eq!(
        err,
        UseCaseError::Refused(Refusal::MissingCredential {
            remote: "todoist".to_string(),
            name: "first".to_string(),
        })
    );
}

#[test]
fn nothing_on_the_credential_path_reveals_the_value() {
    const TOKEN: &str = "SUPERSECRETTOKEN";
    let r = remote(vec![literal("api_token", TOKEN)]);
    let resolved = resolve_credentials(&mut Echo, &r, &vec!["api_token".to_string()]).unwrap();
    assert!(!resolved[0].1.redacted().contains(TOKEN));
    let errors = [
        UseCaseError::Refused(Refusal::MissingCredential {
            remote: "todoist".to_string(),
            name: "api_token".to_string(),
        }),
        UseCaseError::Credential(CredentialError::Missing("api_token".to_string())),
        UseCaseError::Credential(CredentialError::CommandFailed {
            name: "api_token".to_string(),
            why: "the vault is locked".to_string(),
        }),
        UseCaseError::Credential(CredentialError::EnvUnset {
            name: "api_token".to_string(),
            var: "DAM_TODOIST_API_TOKEN".to_string(),
        }),
    ];
    for e in errors {
        assert!(!e.message().contains(TOKEN));
        assert!(!format!("{e:?}").contains(TOKEN));
    }
}

#[test]
fn a_source_that_cannot_resolve_is_its_own_error() {
    let r = remote(vec![CredentialSpec::Env {
        name: "api_token".to_string(),
        var: "DAM_TOKEN".to_string(),
    }]);
    let err = resolve_credentials(&mut Echo, &r, &vec!["api_token".to_string()]).err().expect("the resolution is refused");
    assert_eq!(
        err,
        UseCaseError::Credential(CredentialError::EnvUnset {
            name: "api_token".to_string(),
            var: "DAM_TOKEN".to_string(),
        })
    );
}

#[test]
fn undeclared_specs_are_not_resolved() {
    let r = remote(vec![literal("extra", "x")]);
    assert!(resolve_credentials(&mut Echo, &r, &vec![]).unwrap().is_empty());
}

#[test]
fn a_spec_names_what_it_declares() {
    assert_eq!(literal("api_token", "x").name(), "api_token");
    let env = CredentialSpec::Env { name: "key".to_string(), var: "DAM_KEY".to_string() };
    assert_eq!(env.name(), "key");
    let command = CredentialSpec::Command { name: "pass".to_string(), argv: vec!["pass".to_string()] };
    assert_eq!(command.name(), "pass");
}

#[test]
fn a_remote_and_a_filter_are_found_by_their_first_name() {
    let mut config = Config::empty();
    assert!(config.remote("todoist").is_none());
    config.remotes.push(remote(vec![]));
    config.filters.push(FilterConfig { name: "today".to_string(), query: "due:today".to_string() });
    config.filters.push(FilterConfig { name: "today".to_string(), query: "later".to_string() });
    assert_eq!(config.remote("todoist").unwrap().helper, "todoist");
    assert!(config.remote("gcal").is_none());
    assert_eq!(config.filter("today").unwrap().query, "due:today");
    assert!(config.filter("week").is_none());
}
