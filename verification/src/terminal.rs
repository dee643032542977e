//! Terminal emulators the tool can open a worktree in. Detection probes
//! the environment and the filesystem, so the caller does it; the mapping
//! from a reported program name to a terminal, and each terminal's
//! display name, are plain logic and live here.

use vstd::prelude::*;

use crate::strings::str_eq;

verus! {

/// Supported terminal emulators.
#[derive(Debug, Clone, Copy, PartialEq, Eq, Structural)]
pub enum Terminal {
    AppleTerminal,
    ITerm2,
    Warp,
    Ghostty,
    VSCode,
    GnomeTerminal,
    Konsole,
    Xfce4Terminal,
    Kitty,
    Alacritty,
}

impl Terminal {
    /// The display name of each terminal.
    pub open spec fn spec_name(self) -> Seq<char> {
        match self {
            Terminal::AppleTerminal => "Terminal.app"@,
            Terminal::ITerm2 => "iTerm2"@,
            Terminal::Warp => "Warp"@,
            Terminal::Ghostty => "Ghostty"@,
            Terminal::VSCode => "VS Code"@,
            Terminal::GnomeTerminal => "GNOME Terminal"@,
            Terminal::Konsole => "Konsole"@,
            Terminal::Xfce4Terminal => "Xfce Terminal"@,
            Terminal::Kitty => "Kitty"@,
            Terminal::Alacritty => "Alacritty"@,
        }
    }

    /// A human-readable name for the terminal.
    pub fn name(&self) -> (r: &'static str)
        ensures
            r@ == self.spec_name(),
    {
        match self {
            Terminal::AppleTerminal => "Terminal.app",
            Terminal::ITerm2 => "iTerm2",
            Terminal::Warp => "Warp",
            Terminal::Ghostty => "Ghostty",
            Terminal::VSCode => "VS Code",
            Terminal::GnomeTerminal => "GNOME Terminal",
            Terminal::Konsole => "Konsole",
            Terminal::Xfce4Terminal => "Xfce Terminal",
            Terminal::Kitty => "Kitty",
            Terminal::Alacritty => "Alacritty",
        }
    }
}

/// The terminal a `TERM_PROGRAM` environment value names, if any; the
/// caller reads the variable and falls back to probing for installed
/// terminals when the value names none.
pub open spec fn spec_terminal_for_program(program: Seq<char>) -> Option<Terminal> {
    if program == "Apple_Terminal"@ {
        Some(Terminal::AppleTerminal)
    } else if program == "iTerm.app"@ {
        Some(Terminal::ITerm2)
    } else if program == "WarpTerminal"@ {
        Some(Terminal::Warp)
    } else if program == "ghostty"@ {
        Some(Terminal::Ghostty)
    } else if program == "vscode"@ {
        Some(Terminal::VSCode)
    } else {
        None
    }
}

/// Map the value of the `TERM_PROGRAM` environment variable to the
/// terminal it names.
pub fn terminal_for_program(program: &str) -> (r: Option<Terminal>)
    ensures
        r == spec_terminal_for_program(program@),
{
    if str_eq(program, "Apple_Terminal") {
        Some(Terminal::AppleTerminal)
    } else if str_eq(program, "iTerm.app") {
        Some(Terminal::ITerm2)
    } else if str_eq(program, "WarpTerminal") {
        Some(Terminal::Warp)
    } else if str_eq(program, "ghostty") {
        Some(Terminal::Ghostty)
    } else if str_eq(program, "vscode") {
        Some(Terminal::VSCode)
    } else {
        None
    }
}

/// The shell command a user can run by hand to work in `dir` when no
/// supported terminal could be launched.
pub fn get_manual_command(dir: &str) -> (r: String)
    ensures
        r@ == "cd '"@ + dir@ + "' && $SHELL"@,
{
    let mut s = "cd '".to_owned();
    s.append(dir);
    s.append("' && $SHELL");
    s
}

} // verus!
