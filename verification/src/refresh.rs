//! When and how the local clone of the registry is brought up to date.
use vstd::prelude::*;

verus! {

/// Where the registry is cloned from.
pub const REGISTRY_URL: &'static str = "https://github.com/getecosphere/lxs-registry.git";

/// Seconds between two refreshes of the registry.
pub const REFRESH_INTERVAL_SECS: u64 = 600;

/// Whether a refresh is due, given the whole seconds since the last one (`None` when that
/// time cannot be read, in which case a refresh is due).
pub fn refresh_due(elapsed_secs: Option<u64>) -> (r: bool)
    ensures
        r == match elapsed_secs {
            None => true,
            Some(s) => s >= REFRESH_INTERVAL_SECS,
        },
{
    match elapsed_secs {
        None => true,
        Some(s) => s >= REFRESH_INTERVAL_SECS,
    }
}

/// The `git` command that brings the cache at `cache` up to date.
pub struct GitCommand {
    /// The arguments to `git`.
    pub args: Vec<String>,
    /// The cache holds no clone yet: it is cleared first, its parent directory is created,
    /// and a failure of the command fails the refresh. Otherwise a failure is ignored.
    pub fresh_clone: bool,
}

/// The views of a list of strings.
pub open spec fn texts(v: Seq<String>) -> Seq<Seq<char>> {
    v.map_values(|s: String| s@)
}

/// A shallow clone of the registry into `cache` when it holds no clone yet (`has_git` is
/// false), else a fast-forward pull inside it.
pub fn refresh_command(cache: &str, has_git: bool) -> (c: GitCommand)
    ensures
        c.fresh_clone == !has_git,
        !has_git ==> texts(c.args@) == seq!["clone"@, "--depth"@, "1"@, REGISTRY_URL@, cache@],
        has_git ==> texts(c.args@) == seq!["-C"@, cache@, "pull"@, "--ff-only"@],
{
    let mut args: Vec<String> = Vec::new();
    if !has_git {
        args.push(String::from_str("clone"));
        args.push(String::from_str("--depth"));
        args.push(String::from_str("1"));
        args.push(String::from_str(REGISTRY_URL));
        args.push(String::from_str(cache));
    } else {
        args.push(String::from_str("-C"));
        args.push(String::from_str(cache));
        args.push(String::from_str("pull"));
        args.push(String::from_str("--ff-only"));
    }
    proof {
        assert(texts(args@) =~= if !has_git {
            seq!["clone"@, "--depth"@, "1"@, REGISTRY_URL@, cache@]
        } else {
            seq!["-C"@, cache@, "pull"@, "--ff-only"@]
        });
    }
    GitCommand { args, fresh_clone: !has_git }
}

} // verus!
