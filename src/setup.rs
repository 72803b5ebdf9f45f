//! The decisions taken before a run starts: the home directory, the backup
//! directory, and whether a passphrase was confirmed.

use vstd::prelude::*;
use crate::naming::same_text;

verus! {

/// What the platform's lookup of the user's home directory gave.
pub enum HomeDir {
    /// The platform knows no home directory.
    Missing,
    /// The platform's home directory is not valid Unicode.
    NotUnicode,
    Found(String),
}

/// Why a backup cannot start.
#[derive(Clone, Copy, PartialEq, Eq, Structural, Debug)]
pub enum SetupError {
    /// The platform's home directory is not valid Unicode.
    HomeNotUnicode,
    /// Neither the platform nor the `HOME` variable gives a home directory.
    NoHome,
}

impl SetupError {
    /// A message for the user.
    pub fn message(&self) -> (r: &'static str)
        ensures
            r@.len() > 0,
    {
        proof {
            reveal_strlit("home dir exists but is not a dir");
            reveal_strlit("no home var and no dirs::home_dir");
        }
        match self {
            SetupError::HomeNotUnicode => "home dir exists but is not a dir",
            SetupError::NoHome => "no home var and no dirs::home_dir",
        }
    }
}

/// The user's home directory: the platform's, else the `HOME` variable's
/// value (`env_home`, `None` where it is unset or not Unicode).
pub fn resolve_home(platform: HomeDir, env_home: Option<String>) -> (r: Result<String, SetupError>)
    ensures
        platform matches HomeDir::Found(h) ==> r == Ok::<String, SetupError>(h),
        platform is NotUnicode ==> r == Err::<String, SetupError>(SetupError::HomeNotUnicode),
        platform is Missing ==> match env_home {
            Some(h) => r == Ok::<String, SetupError>(h),
            None => r == Err::<String, SetupError>(SetupError::NoHome),
        },
{
    match platform {
        HomeDir::Found(h) => Ok(h),
        HomeDir::NotUnicode => Err(SetupError::HomeNotUnicode),
        HomeDir::Missing => match env_home {
            Some(h) => Ok(h),
            None => Err(SetupError::NoHome),
        },
    }
}

/// The directory the archives are written to: the one given, else the
/// user's home directory.
pub fn ensure_backup_dir(backdir: Option<&str>, user_home: &str) -> (r: String)
    ensures
        r@ == match backdir {
            Some(d) => d@,
            None => user_home@,
        },
{
    match backdir {
        Some(d) => String::from_str(d),
        None => String::from_str(user_home),
    }
}

/// Whether the passphrase typed a second time confirms the first.
pub fn passphrase_confirmed(first: &str, second: &str) -> (r: bool)
    ensures
        r == (first@ == second@),
{
    same_text(first, second)
}

} // verus!
