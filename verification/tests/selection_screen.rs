use deployer::schedule::execution_graph;
use deployer::tui::{graph_rows, GraphRow, Key, KeyOutcome, ListRow};
use deployer::{App, Config, Group, Repository, View};

fn repo(path: &str) -> Repository {
    Repository { path: path.to_string(), delta_ms: 6_000, dry: false }
}

fn config() -> Config {
    Config {
        groups: vec![
            Group { repositories: vec![repo("repo1"), repo("repo2")] },
            Group { repositories: vec![repo("repo3")] },
        ],
        root_path: None,
        branch: "dev".to_string(),
        commit_message: "Force deploy of dev".to_string(),
    }
}

#[test]
fn new_app_starts_on_selection() {
    let app = App::new(config());
    assert_eq!(app.view, View::Selection);
    assert_eq!(app.root_path, "..");
    assert_eq!((app.cursor_group, app.cursor_repo), (0, 0));
    assert!(app.selected_repos.is_empty());
    assert!(!app.confirmed);
    assert!(app.error_message.is_none());
}

#[test]
fn cursor_moves_across_groups() {
    let mut app = App::new(config());
    app.handle_key(Key::Down);
    assert_eq!((app.cursor_group, app.cursor_repo), (0, 1));
    app.handle_key(Key::Down);
    assert_eq!((app.cursor_group, app.cursor_repo), (1, 0));
    app.handle_key(Key::Down);
    assert_eq!((app.cursor_group, app.cursor_repo), (1, 0));
    app.handle_key(Key::Up);
    assert_eq!((app.cursor_group, app.cursor_repo), (0, 1));
    app.handle_key(Key::Up);
    app.handle_key(Key::Up);
    assert_eq!((app.cursor_group, app.cursor_repo), (0, 0));
}

#[test]
fn space_toggles_and_c_clears() {
    let mut app = App::new(config());
    app.handle_key(Key::Char(' '));
    assert!(app.selected_repos.contains(0, 0));
    app.handle_key(Key::Down);
    app.handle_key(Key::Char(' '));
    assert!(app.selected_repos.contains(0, 1));
    app.handle_key(Key::Char(' '));
    assert!(!app.selected_repos.contains(0, 1));
    app.handle_key(Key::Char('c'));
    assert!(app.selected_repos.is_empty());
}

#[test]
fn enter_without_selection_shows_error() {
    let mut app = App::new(config());
    assert_eq!(app.handle_key(Key::Enter), KeyOutcome::Continue);
    assert_eq!(app.view, View::Error);
    assert_eq!(
        app.error_message.as_deref(),
        Some("No repositories selected. Please select at least one.")
    );
    app.handle_key(Key::Esc);
    assert_eq!(app.view, View::RootPrompt);
    assert!(app.error_message.is_none());
}

#[test]
fn root_prompt_edits_path() {
    let mut app = App::new(config());
    app.handle_key(Key::Char(' '));
    app.handle_key(Key::Enter);
    assert_eq!(app.view, View::RootPrompt);
    app.handle_key(Key::Backspace);
    app.handle_key(Key::Char('x'));
    assert_eq!(app.root_path, ".x");
    app.handle_key(Key::Backspace);
    app.handle_key(Key::Backspace);
    app.handle_key(Key::Backspace);
    assert_eq!(app.root_path, "");
    app.handle_key(Key::Char('c'));
    assert_eq!(app.root_path, "c");
    assert_eq!(app.handle_key(Key::Enter), KeyOutcome::CheckRepositories);
    app.handle_key(Key::Esc);
    assert_eq!(app.view, View::Selection);
}

#[test]
fn missing_repositories_are_reported() {
    let mut app = App::new(config());
    app.handle_key(Key::Char(' '));
    app.handle_key(Key::Down);
    app.handle_key(Key::Down);
    app.handle_key(Key::Char(' '));
    app.handle_key(Key::Enter);
    assert_eq!(app.repos_to_check(), vec![(0, 0), (1, 0)]);
    assert_eq!(
        app.validate_repos(&vec![false, false]),
        Err("The following repositories were not found under '..':\nrepo1, repo3".to_string())
    );
    assert_eq!(
        app.validate_repos(&vec![true, false]),
        Err("The following repositories were not found under '..':\nrepo3".to_string())
    );
    assert_eq!(app.validate_repos(&vec![true, true]), Ok(()));
    app.submit_root(&vec![true, false]);
    assert_eq!(app.view, View::Error);
    assert_eq!(
        app.error_message.as_deref(),
        Some("The following repositories were not found under '..':\nrepo3")
    );
    app.handle_key(Key::Enter);
    app.submit_root(&vec![true, true]);
    assert_eq!(app.view, View::Confirmation);
}

#[test]
fn confirmation_keys() {
    let mut app = App::new(config());
    app.handle_key(Key::Char(' '));
    app.handle_key(Key::Enter);
    app.submit_root(&vec![true]);
    assert_eq!(app.view, View::Confirmation);
    app.handle_key(Key::Char('n'));
    assert_eq!(app.view, View::Selection);
    app.handle_key(Key::Enter);
    app.submit_root(&vec![true]);
    app.handle_key(Key::Esc);
    assert_eq!(app.view, View::RootPrompt);
    app.handle_key(Key::Enter);
    app.submit_root(&vec![true]);
    assert_eq!(app.handle_key(Key::Char('y')), KeyOutcome::Exit);
    assert!(app.confirmed);
}

#[test]
fn quit_and_ctrl_c_exit() {
    let mut app = App::new(config());
    assert_eq!(app.handle_key(Key::Char('q')), KeyOutcome::Exit);
    assert!(!app.confirmed);
    app.handle_key(Key::Char(' '));
    app.handle_key(Key::Enter);
    assert_eq!(app.handle_key(Key::CtrlC), KeyOutcome::Exit);
    assert_eq!(app.view, View::RootPrompt);
    assert!(!app.confirmed);
}

#[test]
fn selected_repo_outside_config_is_not_checked() {
    let mut c = config();
    c.groups.push(Group { repositories: vec![] });
    let mut app = App::new(c);
    app.handle_key(Key::Down);
    app.handle_key(Key::Down);
    app.handle_key(Key::Down);
    assert_eq!((app.cursor_group, app.cursor_repo), (2, 0));
    app.handle_key(Key::Char(' '));
    assert!(app.selected_repos.contains(2, 0));
    assert!(app.repos_to_check().is_empty());
    assert_eq!(app.validate_repos(&vec![]), Ok(()));
}

#[test]
fn list_rows_show_headers_marks_and_cursor() {
    let mut app = App::new(config());
    app.handle_key(Key::Down);
    app.handle_key(Key::Char(' '));
    let rows = app.list_rows();
    assert_eq!(
        rows,
        vec![
            ListRow::Header { number: 1 },
            ListRow::Repo { group: 0, repo: 0, selected: false, at_cursor: false },
            ListRow::Repo { group: 0, repo: 1, selected: true, at_cursor: true },
            ListRow::Header { number: 2 },
            ListRow::Repo { group: 1, repo: 0, selected: false, at_cursor: false },
        ]
    );
}

#[test]
fn help_texts_per_view() {
    assert_eq!(View::RootPrompt.help_text(), "Enter: Confirm | Esc: Back | Ctrl+c: Exit");
    assert_eq!(View::Confirmation.help_text(), "y/Enter: Yes | n: No | Esc: Back | Ctrl+c: Exit");
    assert_eq!(View::Error.help_text(), "Enter/Esc: Dismiss | Ctrl+c: Exit");
    assert!(View::Selection.help_text().starts_with("↑/↓: Navigate | Space: Toggle"));
}

#[test]
fn graph_rows_mark_arrows_last_repos_and_total() {
    let mut app = App::new(config());
    assert_eq!(
        graph_rows(&execution_graph(&app.config, &app.selected_repos)),
        vec![GraphRow::Placeholder]
    );
    app.handle_key(Key::Char(' '));
    app.handle_key(Key::Down);
    app.handle_key(Key::Char(' '));
    app.handle_key(Key::Down);
    app.handle_key(Key::Char(' '));
    let rows = graph_rows(&execution_graph(&app.config, &app.selected_repos));
    assert_eq!(
        rows,
        vec![
            GraphRow::GroupStart { group: 0, start_ms: 0 },
            GraphRow::Repo { group: 0, repo: 0, last: false },
            GraphRow::Repo { group: 0, repo: 1, last: true },
            GraphRow::Arrow,
            GraphRow::GroupStart { group: 1, start_ms: 6_000 },
            GraphRow::Repo { group: 1, repo: 0, last: true },
            GraphRow::Blank,
            GraphRow::Total { total_ms: 12_000 },
        ]
    );
}

#[test]
fn down_and_up_undo_each_other() {
    let mut app = App::new(config());
    app.handle_key(Key::Down);
    app.handle_key(Key::Down);
    assert_eq!((app.cursor_group, app.cursor_repo), (1, 0));
    app.handle_key(Key::Up);
    app.handle_key(Key::Down);
    assert_eq!((app.cursor_group, app.cursor_repo), (1, 0));
    app.handle_key(Key::Up);
    app.handle_key(Key::Up);
    app.handle_key(Key::Down);
    app.handle_key(Key::Up);
    assert_eq!((app.cursor_group, app.cursor_repo), (0, 0));
}

#[test]
fn deselecting_keeps_a_passing_check_passing() {
    let mut app = App::new(config());
    app.handle_key(Key::Char(' '));
    app.handle_key(Key::Down);
    app.handle_key(Key::Char(' '));
    assert_eq!(app.repos_to_check(), vec![(0, 0), (0, 1)]);
    assert_eq!(app.validate_repos(&vec![true, true]), Ok(()));
    app.handle_key(Key::Char(' '));
    assert_eq!(app.repos_to_check(), vec![(0, 0)]);
    assert_eq!(app.validate_repos(&vec![true]), Ok(()));
}

#[test]
fn confirmation_follows_only_a_passing_check() {
    let mut app = App::new(config());
    app.handle_key(Key::Char(' '));
    app.handle_key(Key::Enter);
    assert_eq!(app.handle_key(Key::Enter), KeyOutcome::CheckRepositories);
    app.submit_root(&vec![false]);
    assert_eq!(app.view, View::Error);
    assert_eq!(app.handle_key(Key::Char('y')), KeyOutcome::Continue);
    assert!(!app.confirmed);
    app.handle_key(Key::Enter);
    app.submit_root(&vec![true]);
    assert_eq!(app.handle_key(Key::Enter), KeyOutcome::Exit);
    assert!(app.confirmed);
}
