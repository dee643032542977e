use worktree_core::paths;
use worktree_core::terminal::{get_manual_command, terminal_for_program, Terminal};

#[test]
fn global_locations_hang_off_the_home_directory() {
    assert_eq!(paths::global_dir("/home/me"), "/home/me/.worktree");
    assert_eq!(paths::global_worktrees_dir("/home/me"), "/home/me/.worktree/worktrees");
    assert_eq!(paths::allocations_file("/home/me"), "/home/me/.worktree/port-allocations.json");
}

#[test]
fn project_locations_are_relative_to_the_project() {
    assert_eq!(paths::project_config_dir(), ".worktree");
    assert_eq!(paths::settings_file(), ".worktree/settings.json");
    assert_eq!(paths::local_settings_file(), ".worktree/settings.local.json");
    assert_eq!(paths::setup_script(), ".worktree/setup.sh");
    assert_eq!(paths::run_script(), ".worktree/run.sh");
    assert_eq!(paths::stop_script(), ".worktree/stop.sh");
    assert_eq!(paths::close_script(), ".worktree/close.sh");
    assert_eq!(paths::setup_md(), ".worktree/SETUP.md");
}

#[test]
fn rooted_project_locations_join_the_root() {
    assert_eq!(paths::project_config_dir_in("/repo"), "/repo/.worktree");
    assert_eq!(paths::settings_file_in("/repo"), "/repo/.worktree/settings.json");
    assert_eq!(paths::local_settings_file_in("/repo"), "/repo/.worktree/settings.local.json");
}

#[test]
fn marker_path_covers_both_key_shapes() {
    let dir = "/home/me/.worktree/worktrees";
    assert_eq!(
        paths::worktree_state_path(dir, "proj/feature"),
        "/home/me/.worktree/worktrees/proj/feature/state.json"
    );
    assert_eq!(
        paths::worktree_state_path(dir, "bare"),
        "/home/me/.worktree/worktrees/bare/state.json"
    );
}

#[test]
fn terminal_names_read_well() {
    assert_eq!(Terminal::AppleTerminal.name(), "Terminal.app");
    assert_eq!(Terminal::ITerm2.name(), "iTerm2");
    assert_eq!(Terminal::Warp.name(), "Warp");
    assert_eq!(Terminal::Ghostty.name(), "Ghostty");
    assert_eq!(Terminal::VSCode.name(), "VS Code");
    assert_eq!(Terminal::GnomeTerminal.name(), "GNOME Terminal");
    assert_eq!(Terminal::Konsole.name(), "Konsole");
    assert_eq!(Terminal::Xfce4Terminal.name(), "Xfce Terminal");
    assert_eq!(Terminal::Kitty.name(), "Kitty");
    assert_eq!(Terminal::Alacritty.name(), "Alacritty");
}

#[test]
fn term_program_values_map_to_terminals() {
    assert_eq!(terminal_for_program("Apple_Terminal"), Some(Terminal::AppleTerminal));
    assert_eq!(terminal_for_program("iTerm.app"), Some(Terminal::ITerm2));
    assert_eq!(terminal_for_program("WarpTerminal"), Some(Terminal::Warp));
    assert_eq!(terminal_for_program("ghostty"), Some(Terminal::Ghostty));
    assert_eq!(terminal_for_program("vscode"), Some(Terminal::VSCode));
    assert_eq!(terminal_for_program("xterm"), None);
    assert_eq!(terminal_for_program(""), None);
}

#[test]
fn manual_command_quotes_the_directory() {
    assert_eq!(get_manual_command("/tmp/wt"), "cd '/tmp/wt' && $SHELL");
}
