use registry_manager::config::{
    commit_author, commit_message, repository_key, validate, ConfigError,
};

fn token() -> String {
    format!("github_pat_{}", "a".repeat(82))
}

#[test]
fn valid_settings_pass() {
    let t = token();
    assert_eq!(t.len(), 93);
    assert_eq!(validate(Some(&t), Some("paperback-community/foo"), Some("0.9/stable")), Ok(()));
    assert_eq!(validate(Some(&t), Some("paperback-community/"), Some("/testing")), Ok(()));
}

#[test]
fn token_must_be_there_and_well_formed() {
    let t = token();
    let repo = Some("paperback-community/foo");
    let branch = Some("0.9/stable");
    assert_eq!(validate(None, repo, branch), Err(ConfigError::MissingToken));
    assert_eq!(validate(Some(&t[..92]), repo, branch), Err(ConfigError::InvalidToken));
    let long = format!("{}a", t);
    assert_eq!(validate(Some(&long), repo, branch), Err(ConfigError::InvalidToken));
    let other = format!("ghp_{}", "a".repeat(89));
    assert_eq!(other.len(), 93);
    assert_eq!(validate(Some(&other), repo, branch), Err(ConfigError::InvalidToken));
    assert_eq!(validate(Some(""), repo, branch), Err(ConfigError::InvalidToken));
}

#[test]
fn token_length_is_counted_in_bytes() {
    let wide = format!("github_pat_{}é", "a".repeat(80));
    assert_eq!(wide.len(), 93);
    assert_eq!(wide.chars().count(), 92);
    assert_eq!(
        validate(Some(&wide), Some("paperback-community/foo"), Some("0.9/stable")),
        Ok(())
    );
}

#[test]
fn repository_must_be_there_and_in_the_namespace() {
    let t = token();
    let branch = Some("0.9/stable");
    assert_eq!(validate(Some(&t), None, branch), Err(ConfigError::MissingRepository));
    assert_eq!(validate(Some(&t), Some("someone/foo"), branch), Err(ConfigError::InvalidRepository));
    assert_eq!(
        validate(Some(&t), Some("paperback-community"), branch),
        Err(ConfigError::InvalidRepository)
    );
    assert_eq!(validate(Some(&t), Some(""), branch), Err(ConfigError::InvalidRepository));
}

#[test]
fn branch_must_be_there_and_end_in_a_channel() {
    let t = token();
    let repo = Some("paperback-community/foo");
    assert_eq!(validate(Some(&t), repo, None), Err(ConfigError::MissingBranch));
    assert_eq!(validate(Some(&t), repo, Some("0.9/nightly")), Err(ConfigError::InvalidBranch));
    assert_eq!(validate(Some(&t), repo, Some("stable")), Err(ConfigError::InvalidBranch));
    assert_eq!(validate(Some(&t), repo, Some("0.9/stable/")), Err(ConfigError::InvalidBranch));
    assert_eq!(validate(Some(&t), repo, Some("/stable")), Ok(()));
    assert_eq!(validate(Some(&t), repo, Some("0.9/testing")), Ok(()));
}

#[test]
fn first_fault_is_reported() {
    assert_eq!(validate(None, None, None), Err(ConfigError::MissingToken));
    assert_eq!(validate(Some("x"), None, None), Err(ConfigError::InvalidToken));
    let t = token();
    assert_eq!(validate(Some(&t), Some("x"), None), Err(ConfigError::InvalidRepository));
}

#[test]
fn key_is_the_name_without_the_namespace() {
    assert_eq!(repository_key("paperback-community/foo-extensions"), Some(String::from("foo-extensions")));
    assert_eq!(repository_key("paperback-community/"), Some(String::new()));
    assert_eq!(repository_key("someone/foo"), None);
    assert_eq!(repository_key(""), None);
}

#[test]
fn commit_message_defaults_to_key_and_branch() {
    assert_eq!(
        commit_message(None, "foo-extensions", "0.9/stable"),
        "Registry management (foo-extensions, 0.9/stable)"
    );
    assert_eq!(commit_message(Some(String::from("custom")), "foo", "0.9/stable"), "custom");
    assert_eq!(commit_message(Some(String::new()), "foo", "0.9/stable"), "");
}

#[test]
fn commit_author_defaults_to_the_automation_account() {
    let a = commit_author(None, None);
    assert_eq!(a.name, "github-actions[bot]");
    assert_eq!(a.email, "github-actions[bot]@users.noreply.github.com");
    let b = commit_author(Some(String::from("me")), None);
    assert_eq!(b.name, "me");
    assert_eq!(b.email, "github-actions[bot]@users.noreply.github.com");
    let c = commit_author(None, Some(String::from("me@example.org")));
    assert_eq!(c.name, "github-actions[bot]");
    assert_eq!(c.email, "me@example.org");
}
