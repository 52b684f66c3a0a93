//! The settings of a run: which of them are acceptable, and what stands in
//! for those that are left out.

use vstd::prelude::*;
use vstd::string::StringSliceAdditionalSpecFns;
use crate::requests::Author;
use crate::text::{ends_with, has_prefix, has_suffix, starts_with, strip_prefix};

verus! {

/// Why the settings of a run are refused.
#[derive(Clone, Copy, Debug, PartialEq, Eq, Structural)]
pub enum ConfigError {
    MissingToken,
    InvalidToken,
    MissingRepository,
    InvalidRepository,
    MissingBranch,
    InvalidBranch,
}

/// The namespace that every source repository lives in.
pub open spec fn namespace() -> Seq<char> {
    "paperback-community/"@
}

/// An access token is fine-grained and 93 bytes long.
pub open spec fn token_valid(token: &str) -> bool {
    has_prefix(token@, "github_pat_"@) && token.spec_bytes().len() == 93
}

/// A source repository is named with the namespace in front.
pub open spec fn repository_valid(repository: &str) -> bool {
    has_prefix(repository@, namespace()) && repository.spec_bytes().len() >= 20
}

/// A branch ends in the channel, stable or testing.
pub open spec fn branch_valid(branch: &str) -> bool {
    (has_suffix(branch@, "/stable"@) || has_suffix(branch@, "/testing"@))
        && branch.spec_bytes().len() >= 7
}

/// The first fault in the settings, if there is one: the token is looked at
/// first, then the repository, then the branch.
pub open spec fn config_error(
    token: Option<&str>,
    repository: Option<&str>,
    branch: Option<&str>,
) -> Option<ConfigError> {
    if token is None {
        Some(ConfigError::MissingToken)
    } else if !token_valid(token->0) {
        Some(ConfigError::InvalidToken)
    } else if repository is None {
        Some(ConfigError::MissingRepository)
    } else if !repository_valid(repository->0) {
        Some(ConfigError::InvalidRepository)
    } else if branch is None {
        Some(ConfigError::MissingBranch)
    } else if !branch_valid(branch->0) {
        Some(ConfigError::InvalidBranch)
    } else {
        None
    }
}

/// Checks the access token, the source repository and the branch of a run.
pub fn validate(token: Option<&str>, repository: Option<&str>, branch: Option<&str>) -> (r: Result<
    (),
    ConfigError,
>)
    ensures
        match r {
            Ok(_) => config_error(token, repository, branch) is None,
            Err(e) => config_error(token, repository, branch) == Some(e),
        },
{
    match token {
        None => {
            return Err(ConfigError::MissingToken);
        },
        Some(value) => {
            if !starts_with(value, "github_pat_") || value.as_bytes().len() != 93 {
                return Err(ConfigError::InvalidToken);
            }
        },
    }
    match repository {
        None => {
            return Err(ConfigError::MissingRepository);
        },
        Some(value) => {
            if !starts_with(value, "paperback-community/") || value.as_bytes().len() < 20 {
                return Err(ConfigError::InvalidRepository);
            }
        },
    }
    match branch {
        None => {
            return Err(ConfigError::MissingBranch);
        },
        Some(value) => {
            if (!ends_with(value, "/stable") && !ends_with(value, "/testing")) || value.as_bytes().len() < 7 {
                return Err(ConfigError::InvalidBranch);
            }
        },
    }
    Ok(())
}

/// The key under which the ledger files a source repository: its name
/// without the namespace.
pub fn repository_key(repository: &str) -> (r: Option<String>)
    ensures
        r is Some <==> has_prefix(repository@, namespace()),
        r is Some ==> r->0@ == repository@.skip(namespace().len() as int),
{
    strip_prefix(repository, "paperback-community/")
}

/// The message of a commit that names none: the key of the source and the
/// branch.
pub open spec fn default_message(key: Seq<char>, branch: Seq<char>) -> Seq<char> {
    "Registry management ("@ + key + ", "@ + branch + ")"@
}

/// The message of the commit: the one that was given, or the default.
pub fn commit_message(given: Option<String>, key: &str, branch: &str) -> (r: String)
    ensures
        r@ == match given {
            Some(message) => message@,
            None => default_message(key@, branch@),
        },
{
    match given {
        Some(message) => message,
        None => {
            let mut r = "Registry management (".to_owned();
            r.append(key);
            r.append(", ");
            r.append(branch);
            r.append(")");
            r
        },
    }
}

/// The author of the commit: name and address as given, or those of the
/// automation account.
pub fn commit_author(name: Option<String>, email: Option<String>) -> (r: Author)
    ensures
        r.name@ == match name {
            Some(n) => n@,
            None => "github-actions[bot]"@,
        },
        r.email@ == match email {
            Some(e) => e@,
            None => "github-actions[bot]@users.noreply.github.com"@,
        },
{
    Author {
        name: match name {
            Some(n) => n,
            None => "github-actions[bot]".to_owned(),
        },
        email: match email {
            Some(e) => e,
            None => "github-actions[bot]@users.noreply.github.com".to_owned(),
        },
    }
}

} // verus!
