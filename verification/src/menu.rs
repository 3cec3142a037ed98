//! The menu bar's commands: which action an item id names, the two pane
//! toggles, and the About text. Opening windows and dialogs is the caller's.
use vstd::prelude::*;

use crate::text::{chars_of, push_str, str_eq, string_from_chars};

verus! {

/// Whether the repo list and the commit pane are shown.
#[derive(Debug, Clone, Copy, PartialEq, Eq)]
pub struct PaneVisibility {
    pub repo_list: bool,
    pub commit_pane: bool,
}

impl Default for PaneVisibility {
    fn default() -> (v: Self)
        ensures
            v.repo_list && v.commit_pane,
    {
        PaneVisibility { repo_list: true, commit_pane: true }
    }
}

/// What a menu item asks for.
#[derive(Debug, Clone, Copy, PartialEq, Eq)]
pub enum MenuAction {
    CloseWindow,
    Exit,
    ToggleRepoList,
    ToggleCommitPane,
    About,
    OpenLogs,
    Unknown,
}

pub open spec fn menu_action_spec(id: Seq<char>) -> MenuAction {
    if id == "close-window"@ {
        MenuAction::CloseWindow
    } else if id == "exit"@ {
        MenuAction::Exit
    } else if id == "toggle-repo-list"@ {
        MenuAction::ToggleRepoList
    } else if id == "toggle-commit-pane"@ {
        MenuAction::ToggleCommitPane
    } else if id == "about"@ {
        MenuAction::About
    } else if id == "open-logs"@ {
        MenuAction::OpenLogs
    } else {
        MenuAction::Unknown
    }
}

/// The action a menu item's id names.
pub fn menu_action(id: &str) -> (a: MenuAction)
    ensures
        a == menu_action_spec(id@),
{
    if str_eq(id, "close-window") {
        MenuAction::CloseWindow
    } else if str_eq(id, "exit") {
        MenuAction::Exit
    } else if str_eq(id, "toggle-repo-list") {
        MenuAction::ToggleRepoList
    } else if str_eq(id, "toggle-commit-pane") {
        MenuAction::ToggleCommitPane
    } else if str_eq(id, "about") {
        MenuAction::About
    } else if str_eq(id, "open-logs") {
        MenuAction::OpenLogs
    } else {
        MenuAction::Unknown
    }
}

impl PaneVisibility {
    /// The visibility after a toggle action; any other action changes nothing.
    pub fn toggled(self, action: MenuAction) -> (v: PaneVisibility)
        ensures
            action == MenuAction::ToggleRepoList ==> v == (PaneVisibility {
                repo_list: !self.repo_list,
                ..self
            }),
            action == MenuAction::ToggleCommitPane ==> v == (PaneVisibility {
                commit_pane: !self.commit_pane,
                ..self
            }),
            action != MenuAction::ToggleRepoList && action != MenuAction::ToggleCommitPane ==> v
                == self,
    {
        match action {
            MenuAction::ToggleRepoList => PaneVisibility { repo_list: !self.repo_list, ..self },
            MenuAction::ToggleCommitPane => PaneVisibility { commit_pane: !self.commit_pane, ..self },
            _ => self,
        }
    }
}

/// Toggling a pane twice leaves both panes as they were.
pub proof fn law_toggle_twice_restores(v: PaneVisibility, action: MenuAction)
    ensures
        ({
            let once = if action == MenuAction::ToggleRepoList {
                PaneVisibility { repo_list: !v.repo_list, ..v }
            } else if action == MenuAction::ToggleCommitPane {
                PaneVisibility { commit_pane: !v.commit_pane, ..v }
            } else {
                v
            };
            let twice = if action == MenuAction::ToggleRepoList {
                PaneVisibility { repo_list: !once.repo_list, ..once }
            } else if action == MenuAction::ToggleCommitPane {
                PaneVisibility { commit_pane: !once.commit_pane, ..once }
            } else {
                once
            };
            twice == v
        }),
{
}

/// The About box: the app's version, then the git version with the binary
/// reads go through, or that no git was found.
pub open spec fn about_spec(
    app_version: Seq<char>,
    git_version: Option<Seq<char>>,
    read_binary: Option<Seq<char>>,
) -> Seq<char> {
    "Corgit "@ + app_version + "\n"@ + match git_version {
        Some(v) => "Git "@ + v + " ("@ + match read_binary {
            Some(b) => b,
            None => "git"@,
        } + ")"@,
        None => "Git not found"@,
    }
}

pub open spec fn opt_str(o: Option<&str>) -> Option<Seq<char>> {
    match o {
        Some(s) => Some(s@),
        None => None,
    }
}

pub fn about_message(app_version: &str, git_version: Option<&str>, read_binary: Option<&str>) -> (m:
    String)
    ensures
        m@ == about_spec(app_version@, opt_str(git_version), opt_str(read_binary)),
{
    let mut v: Vec<char> = Vec::new();
    push_str(&mut v, "Corgit ");
    push_str(&mut v, app_version);
    push_str(&mut v, "\n");
    match git_version {
        Some(g) => {
            push_str(&mut v, "Git ");
            push_str(&mut v, g);
            push_str(&mut v, " (");
            match read_binary {
                Some(b) => push_str(&mut v, b),
                None => push_str(&mut v, "git"),
            }
            push_str(&mut v, ")");
        },
        None => push_str(&mut v, "Git not found"),
    }
    proof {
        assert(v@ =~= about_spec(app_version@, opt_str(git_version), opt_str(read_binary)));
    }
    string_from_chars(v.as_slice())
}

} // verus!
