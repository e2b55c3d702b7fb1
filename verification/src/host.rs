//! What the library needs to know of the machine it runs on.
use vstd::prelude::*;

verus! {

/// The operating system family, which decides where configuration lives.
#[derive(Debug, Clone, Copy, PartialEq, Eq)]
pub enum Platform {
    Windows,
    MacOs,
    /// Linux and the other Unix systems.
    Other,
}

/// The platform and the `APPDATA` directory (read on Windows only).
#[derive(Debug)]
pub struct HostEnv {
    pub platform: Platform,
    pub appdata: Option<String>,
}

/// The user's home directory.
/// Trusted: `dirs::home_dir`, turned into a string (lossily for a path that
/// is not UTF-8). It reads the environment, so nothing is promised of it.
#[verifier::external_body]
pub(crate) fn home_dir() -> (r: Option<String>) {
    match dirs::home_dir() {
        Some(p) => Some(p.to_string_lossy().into_owned()),
        None => None,
    }
}

/// The views of a list of strings.
pub open spec fn string_views(v: Seq<String>) -> Seq<Seq<char>> {
    v.map_values(|s: String| s@)
}

/// The view of an optional string.
pub open spec fn opt_view(o: Option<String>) -> Option<Seq<char>> {
    match o {
        Some(s) => Some(s@),
        None => None,
    }
}

/// The view of an optional path given as its components.
pub open spec fn path_view(p: Option<Vec<String>>) -> Option<Seq<Seq<char>>> {
    match p {
        Some(v) => Some(string_views(v@)),
        None => None,
    }
}

/// A copy of an optional string.
pub fn copy_opt(o: &Option<String>) -> (r: Option<String>)
    ensures
        opt_view(r) == opt_view(*o),
{
    match o {
        Some(s) => Some(s.clone()),
        None => None,
    }
}

} // verus!
