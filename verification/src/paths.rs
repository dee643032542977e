//! Well-known locations, modelled as plain path strings. The caller
//! supplies the home directory — only it can ask the platform for one —
//! and turns the returned strings into real paths.

use vstd::prelude::*;

verus! {

/// The global state directory under a home directory.
pub fn global_dir(home: &str) -> (r: String)
    ensures
        r@ == home@ + "/.worktree"@,
{
    let mut s = home.to_owned();
    s.append("/.worktree");
    s
}

/// The global worktrees storage directory.
pub fn global_worktrees_dir(home: &str) -> (r: String)
    ensures
        r@ == home@ + "/.worktree/worktrees"@,
{
    let mut s = home.to_owned();
    s.append("/.worktree/worktrees");
    s
}

/// The shared port allocations file.
pub fn allocations_file(home: &str) -> (r: String)
    ensures
        r@ == home@ + "/.worktree/port-allocations.json"@,
{
    let mut s = home.to_owned();
    s.append("/.worktree/port-allocations.json");
    s
}

/// The per-project configuration directory, relative to a project root.
pub fn project_config_dir() -> (r: String)
    ensures
        r@ == ".worktree"@,
{
    ".worktree".to_owned()
}

/// The per-project configuration directory under a given root.
pub fn project_config_dir_in(root: &str) -> (r: String)
    ensures
        r@ == root@ + "/.worktree"@,
{
    let mut s = root.to_owned();
    s.append("/.worktree");
    s
}

/// The project settings file, relative to a project root.
pub fn settings_file() -> (r: String)
    ensures
        r@ == ".worktree/settings.json"@,
{
    ".worktree/settings.json".to_owned()
}

/// The project settings file under a given root.
pub fn settings_file_in(root: &str) -> (r: String)
    ensures
        r@ == root@ + "/.worktree/settings.json"@,
{
    let mut s = root.to_owned();
    s.append("/.worktree/settings.json");
    s
}

/// The local, uncommitted settings file, relative to a project root.
pub fn local_settings_file() -> (r: String)
    ensures
        r@ == ".worktree/settings.local.json"@,
{
    ".worktree/settings.local.json".to_owned()
}

/// The local, uncommitted settings file under a given root.
pub fn local_settings_file_in(root: &str) -> (r: String)
    ensures
        r@ == root@ + "/.worktree/settings.local.json"@,
{
    let mut s = root.to_owned();
    s.append("/.worktree/settings.local.json");
    s
}

/// The setup script, relative to a project root.
pub fn setup_script() -> (r: String)
    ensures
        r@ == ".worktree/setup.sh"@,
{
    ".worktree/setup.sh".to_owned()
}

/// The run script, relative to a project root.
pub fn run_script() -> (r: String)
    ensures
        r@ == ".worktree/run.sh"@,
{
    ".worktree/run.sh".to_owned()
}

/// The stop script, relative to a project root.
pub fn stop_script() -> (r: String)
    ensures
        r@ == ".worktree/stop.sh"@,
{
    ".worktree/stop.sh".to_owned()
}

/// The close script, relative to a project root.
pub fn close_script() -> (r: String)
    ensures
        r@ == ".worktree/close.sh"@,
{
    ".worktree/close.sh".to_owned()
}

/// The setup notes file, relative to a project root.
pub fn setup_md() -> (r: String)
    ensures
        r@ == ".worktree/SETUP.md"@,
{
    ".worktree/SETUP.md".to_owned()
}

/// The marker file whose existence proves that a worktree for `key`
/// lives under the global worktrees directory. A key is either
/// `project/name` or a bare name; either way the marker sits at the
/// key's path under that directory.
pub fn worktree_state_path(worktrees_dir: &str, key: &str) -> (r: String)
    ensures
        r@ == worktrees_dir@ + "/"@ + key@ + "/state.json"@,
{
    let mut s = worktrees_dir.to_owned();
    s.append("/");
    s.append(key);
    s.append("/state.json");
    s
}

} // verus!
