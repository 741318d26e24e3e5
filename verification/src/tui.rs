use vstd::prelude::*;
use vstd::string::*;
use vstd::view::View as _;

use crate::config::{Config, Group};
use crate::schedule::{
    group_size, lemma_selected_upto_bounds, lemma_selected_upto_complete, position_exists,
    scan_group, selected_in_group,
};
use crate::schedule::{active_groups, lemma_active_upto, start_of, total_time, ExecutionGraph, GraphGroup};
use crate::selection::Selection;

verus! {

/// The screens of the interactive selection.
#[derive(Clone, Copy, Debug, PartialEq, Eq, Structural)]
pub enum View {
    Selection,
    RootPrompt,
    Confirmation,
    Error,
}

/// A key press, as far as the selection screens tell keys apart.
#[derive(Clone, Copy, Debug, PartialEq, Eq, Structural)]
pub enum Key {
    Up,
    Down,
    Enter,
    Esc,
    Backspace,
    /// A character key pressed without Control.
    Char(char),
    /// Control and `c` together.
    CtrlC,
    /// Any other key.
    Other,
}

/// What the screen loop does after a key.
#[derive(Clone, Copy, Debug, PartialEq, Eq, Structural)]
pub enum KeyOutcome {
    /// Keep reading keys.
    Continue,
    /// Leave the screens; `confirmed` says whether to deploy.
    Exit,
    /// Check which selected repositories exist under the root path, and hand
    /// the answer to `App::submit_root`.
    CheckRepositories,
}

/// The interactive selection of the repositories to deploy.
pub struct App {
    pub config: Config,
    /// The selected repositories, as `(group index, repository index)`.
    pub selected_repos: Selection,
    /// The repositories to deploy as dry runs.
    pub dry_repos: Selection,
    pub cursor_group: usize,
    pub cursor_repo: usize,
    pub view: View,
    pub root_path: String,
    pub confirmed: bool,
    pub run_in_background: bool,
    pub error_message: Option<String>,
}

/// The state of the selection screens, apart from the configuration.
pub struct AppModel {
    pub selected: Set<(usize, usize)>,
    pub dry: Set<(usize, usize)>,
    pub cursor_group: int,
    pub cursor_repo: int,
    pub view: View,
    pub root_path: Seq<char>,
    pub confirmed: bool,
    pub run_in_background: bool,
    pub error_message: Option<Seq<char>>,
}

impl vstd::view::View for App {
    type V = AppModel;

    open spec fn view(&self) -> AppModel {
        AppModel {
            selected: self.selected_repos@,
            dry: self.dry_repos@,
            cursor_group: self.cursor_group as int,
            cursor_repo: self.cursor_repo as int,
            view: self.view,
            root_path: self.root_path@,
            confirmed: self.confirmed,
            run_in_background: self.run_in_background,
            error_message: match self.error_message {
                Some(m) => Some(m@),
                None => None,
            },
        }
    }
}

/// The message shown when Enter is pressed with nothing selected.
pub open spec fn no_selection_message() -> Seq<char> {
    "No repositories selected. Please select at least one."@
}

/// The cursor after moving down: to the next repository of the group, else
/// to the first position of the next group, else nowhere.
pub open spec fn cursor_down(groups: Seq<Group>, cg: int, cr: int) -> (int, int) {
    if groups.len() == 0 {
        (cg, cr)
    } else if cr + 1 < group_size(groups, cg) {
        (cg, cr + 1)
    } else if cg + 1 < groups.len() {
        (cg + 1, 0)
    } else {
        (cg, cr)
    }
}

/// The cursor after moving up: to the previous repository of the group, else
/// to the last repository of the previous group, else nowhere.
pub open spec fn cursor_up(groups: Seq<Group>, cg: int, cr: int) -> (int, int) {
    if cr > 0 {
        (cg, cr - 1)
    } else if cg > 0 {
        (cg - 1, group_size(groups, cg - 1) - 1)
    } else {
        (cg, cr)
    }
}

/// Moving up from the first repository of a group into an empty group
/// before it has no repository to land on.
pub open spec fn up_has_no_target(groups: Seq<Group>, cg: int, cr: int) -> bool {
    cr == 0 && cg > 0 && group_size(groups, cg - 1) == 0
}

/// The state after one key, and what the loop does next.
pub open spec fn key_step(groups: Seq<Group>, m: AppModel, key: Key) -> (AppModel, KeyOutcome) {
    if key == Key::CtrlC {
        (m, KeyOutcome::Exit)
    } else {
        match m.view {
            View::Selection => match key {
                Key::Char('q') => (m, KeyOutcome::Exit),
                Key::Down => {
                    let (g, r) = cursor_down(groups, m.cursor_group, m.cursor_repo);
                    (AppModel { cursor_group: g, cursor_repo: r, ..m }, KeyOutcome::Continue)
                },
                Key::Up => {
                    let (g, r) = cursor_up(groups, m.cursor_group, m.cursor_repo);
                    (AppModel { cursor_group: g, cursor_repo: r, ..m }, KeyOutcome::Continue)
                },
                Key::Char(' ') => {
                    let k = (m.cursor_group as usize, m.cursor_repo as usize);
                    let sel = if m.selected.contains(k) {
                        m.selected.remove(k)
                    } else {
                        m.selected.insert(k)
                    };
                    (AppModel { selected: sel, ..m }, KeyOutcome::Continue)
                },
                Key::Char('c') => (
                    AppModel { selected: Set::empty(), ..m },
                    KeyOutcome::Continue,
                ),
                Key::Enter => if m.selected == Set::<(usize, usize)>::empty() {
                    (
                        AppModel {
                            error_message: Some(no_selection_message()),
                            view: View::Error,
                            ..m
                        },
                        KeyOutcome::Continue,
                    )
                } else {
                    (AppModel { view: View::RootPrompt, ..m }, KeyOutcome::Continue)
                },
                _ => (m, KeyOutcome::Continue),
            },
            View::RootPrompt => match key {
                Key::Esc => (AppModel { view: View::Selection, ..m }, KeyOutcome::Continue),
                Key::Enter => (m, KeyOutcome::CheckRepositories),
                Key::Backspace => (
                    AppModel {
                        root_path: if m.root_path.len() > 0 {
                            m.root_path.drop_last()
                        } else {
                            m.root_path
                        },
                        ..m
                    },
                    KeyOutcome::Continue,
                ),
                Key::Char(c) => (
                    AppModel { root_path: m.root_path.push(c), ..m },
                    KeyOutcome::Continue,
                ),
                _ => (m, KeyOutcome::Continue),
            },
            View::Error => match key {
                Key::Enter | Key::Esc => (
                    AppModel { error_message: None, view: View::RootPrompt, ..m },
                    KeyOutcome::Continue,
                ),
                _ => (m, KeyOutcome::Continue),
            },
            View::Confirmation => match key {
                Key::Esc => (AppModel { view: View::RootPrompt, ..m }, KeyOutcome::Continue),
                Key::Char('y') | Key::Enter => (AppModel { confirmed: true, ..m }, KeyOutcome::Exit),
                Key::Char('n') => (AppModel { view: View::Selection, ..m }, KeyOutcome::Continue),
                _ => (m, KeyOutcome::Continue),
            },
        }
    }
}

/// Appends `c` to `s` (`String::push`).
#[verifier::external_body]
fn string_push(s: &mut String, c: char)
    ensures
        final(s)@ == old(s)@.push(c),
{
    s.push(c);
}

/// Removes the last character of `s` and returns it, or returns `None` when
/// `s` is empty (`String::pop`).
#[verifier::external_body]
fn string_pop(s: &mut String) -> (c: Option<char>)
    ensures
        old(s)@.len() == 0 ==> c is None && final(s)@ == old(s)@,
        old(s)@.len() > 0 ==> c == Some(old(s)@.last()) && final(s)@ == old(s)@.drop_last(),
{
    s.pop()
}

impl App {
    /// The cursor stands on a group of the configuration, or at the origin
    /// when there is none, and on a repository of its group or at its first
    /// position; no selection holds a position twice.
    pub open spec fn wf(&self) -> bool {
        &&& self.selected_repos.wf()
        &&& self.dry_repos.wf()
        &&& if self.config.groups@.len() == 0 {
            self.cursor_group == 0 && self.cursor_repo == 0
        } else {
            &&& self.cursor_group < self.config.groups@.len()
            &&& (self.cursor_repo == 0 || self.cursor_repo < group_size(
                self.config.groups@,
                self.cursor_group as int,
            ))
        }
    }

    /// The selection screens for `config`: nothing selected, the cursor on
    /// the first repository, and the root path taken from the configuration
    /// (the parent directory when it names none).
    pub fn new(config: Config) -> (app: App)
        ensures
            app.wf(),
            app.config == config,
            app@.selected == Set::<(usize, usize)>::empty(),
            app@.dry == Set::<(usize, usize)>::empty(),
            app.cursor_group == 0,
            app.cursor_repo == 0,
            app.view == View::Selection,
            app.root_path@ == (match config.root_path {
                Some(p) => p@,
                None => ".."@,
            }),
            !app.confirmed,
            !app.run_in_background,
            app.error_message is None,
    {
        let root = config.root_path_or_default();
        App {
            config,
            selected_repos: Selection::new(),
            dry_repos: Selection::new(),
            cursor_group: 0,
            cursor_repo: 0,
            view: View::Selection,
            root_path: root,
            confirmed: false,
            run_in_background: false,
            error_message: None,
        }
    }

    fn move_cursor_down(&mut self)
        requires
            old(self).wf(),
        ensures
            final(self).wf(),
            final(self).config == old(self).config,
            final(self)@ == (AppModel {
                cursor_group: cursor_down(
                    old(self).config.groups@,
                    old(self).cursor_group as int,
                    old(self).cursor_repo as int,
                ).0,
                cursor_repo: cursor_down(
                    old(self).config.groups@,
                    old(self).cursor_group as int,
                    old(self).cursor_repo as int,
                ).1,
                ..old(self)@
            }),
    {
        if self.config.groups.len() == 0 {
            return;
        }
        let current_group_len = self.config.groups[self.cursor_group].repositories.len();
        if self.cursor_repo + 1 < current_group_len {
            self.cursor_repo = self.cursor_repo + 1;
        } else {
            if self.cursor_group + 1 < self.config.groups.len() {
                self.cursor_group = self.cursor_group + 1;
                self.cursor_repo = 0;
            }
        }
    }

    fn move_cursor_up(&mut self)
        requires
            old(self).wf(),
            !up_has_no_target(
                old(self).config.groups@,
                old(self).cursor_group as int,
                old(self).cursor_repo as int,
            ),
        ensures
            final(self).wf(),
            final(self).config == old(self).config,
            final(self)@ == (AppModel {
                cursor_group: cursor_up(
                    old(self).config.groups@,
                    old(self).cursor_group as int,
                    old(self).cursor_repo as int,
                ).0,
                cursor_repo: cursor_up(
                    old(self).config.groups@,
                    old(self).cursor_group as int,
                    old(self).cursor_repo as int,
                ).1,
                ..old(self)@
            }),
    {
        if self.cursor_repo > 0 {
            self.cursor_repo = self.cursor_repo - 1;
        } else {
            if self.cursor_group > 0 {
                self.cursor_group = self.cursor_group - 1;
                self.cursor_repo = self.config.groups[self.cursor_group].repositories.len() - 1;
            }
        }
    }

    fn toggle_selection(&mut self)
        requires
            old(self).wf(),
        ensures
            final(self).wf(),
            final(self).config == old(self).config,
            final(self)@ == (AppModel {
                selected: if old(self)@.selected.contains((old(self).cursor_group, old(self).cursor_repo)) {
                    old(self)@.selected.remove((old(self).cursor_group, old(self).cursor_repo))
                } else {
                    old(self)@.selected.insert((old(self).cursor_group, old(self).cursor_repo))
                },
                ..old(self)@
            }),
    {
        let g = self.cursor_group;
        let r = self.cursor_repo;
        self.selected_repos.toggle(g, r);
    }

    /// Handles one key press on the screen that is showing.
    pub fn handle_key(&mut self, key: Key) -> (outcome: KeyOutcome)
        requires
            old(self).wf(),
            old(self).view == View::Selection && key == Key::Up ==> !up_has_no_target(
                old(self).config.groups@,
                old(self).cursor_group as int,
                old(self).cursor_repo as int,
            ),
        ensures
            final(self).wf(),
            final(self).config == old(self).config,
            (final(self)@, outcome) == key_step(old(self).config.groups@, old(self)@, key),
    {
        if key == Key::CtrlC {
            return KeyOutcome::Exit;
        }
        match self.view {
            View::Selection => match key {
                Key::Char('q') => KeyOutcome::Exit,
                Key::Down => {
                    self.move_cursor_down();
                    KeyOutcome::Continue
                },
                Key::Up => {
                    self.move_cursor_up();
                    KeyOutcome::Continue
                },
                Key::Char(' ') => {
                    self.toggle_selection();
                    KeyOutcome::Continue
                },
                Key::Char('c') => {
                    self.selected_repos.clear();
                    KeyOutcome::Continue
                },
                Key::Enter => {
                    if self.selected_repos.is_empty() {
                        self.error_message = Some(
                            String::from_str("No repositories selected. Please select at least one."),
                        );
                        self.view = View::Error;
                    } else {
                        self.view = View::RootPrompt;
                    }
                    KeyOutcome::Continue
                },
                _ => KeyOutcome::Continue,
            },
            View::RootPrompt => match key {
                Key::Esc => {
                    self.view = View::Selection;
                    KeyOutcome::Continue
                },
                Key::Enter => KeyOutcome::CheckRepositories,
                Key::Backspace => {
                    let _ = string_pop(&mut self.root_path);
                    KeyOutcome::Continue
                },
                Key::Char(c) => {
                    string_push(&mut self.root_path, c);
                    KeyOutcome::Continue
                },
                _ => KeyOutcome::Continue,
            },
            View::Error => match key {
                Key::Enter | Key::Esc => {
                    self.error_message = None;
                    self.view = View::RootPrompt;
                    KeyOutcome::Continue
                },
                _ => KeyOutcome::Continue,
            },
            View::Confirmation => match key {
                Key::Esc => {
                    self.view = View::RootPrompt;
                    KeyOutcome::Continue
                },
                Key::Char('y') | Key::Enter => {
                    self.confirmed = true;
                    KeyOutcome::Exit
                },
                Key::Char('n') => {
                    self.view = View::Selection;
                    KeyOutcome::Continue
                },
                _ => KeyOutcome::Continue,
            },
        }
    }
}

} // verus!

verus! {

/// The selected positions that name a repository of the configuration, group
/// by group and in order within each group, for the groups before `n`.
pub open spec fn checked_upto(groups: Seq<Group>, sel: Set<(usize, usize)>, n: int) -> Seq<(usize, usize)>
    decreases n,
{
    if n <= 0 {
        Seq::empty()
    } else {
        checked_upto(groups, sel, n - 1) + selected_in_group(groups, sel, n - 1).map_values(
            |r: usize| ((n - 1) as usize, r),
        )
    }
}

/// The selected positions that name a repository of the configuration, in
/// configuration order.
pub open spec fn checked_positions(groups: Seq<Group>, sel: Set<(usize, usize)>) -> Seq<(usize, usize)> {
    checked_upto(groups, sel, groups.len() as int)
}

/// The path of the repository at `k`.
pub open spec fn path_at(groups: Seq<Group>, k: (usize, usize)) -> Seq<char> {
    groups[k.0 as int].repositories@[k.1 as int].path@
}

/// The paths of the first `n` of `positions` whose repository is not present.
pub open spec fn missing_upto(
    groups: Seq<Group>,
    positions: Seq<(usize, usize)>,
    present: Seq<bool>,
    n: int,
) -> Seq<Seq<char>>
    decreases n,
{
    if n <= 0 {
        Seq::empty()
    } else {
        let s = missing_upto(groups, positions, present, n - 1);
        if present[n - 1] {
            s
        } else {
            s.push(path_at(groups, positions[n - 1]))
        }
    }
}

/// `items` with `sep` between each two of them.
pub open spec fn join(items: Seq<Seq<char>>, sep: Seq<char>) -> Seq<char>
    decreases items.len(),
{
    if items.len() == 0 {
        Seq::empty()
    } else if items.len() == 1 {
        items[0]
    } else {
        join(items.drop_last(), sep) + sep + items.last()
    }
}

/// The message that names the repositories missing under `root`.
pub open spec fn missing_message(root: Seq<char>, missing: Seq<Seq<char>>) -> Seq<char> {
    "The following repositories were not found under '"@ + root + "':\n"@ + join(missing, ", "@)
}

proof fn lemma_checked_upto_exist(groups: Seq<Group>, sel: Set<(usize, usize)>, n: int)
    requires
        0 <= n <= groups.len(),
        groups.len() <= usize::MAX,
    ensures
        forall|i: int|
            0 <= i < checked_upto(groups, sel, n).len() ==> position_exists(
                groups,
                #[trigger] checked_upto(groups, sel, n)[i],
            ) && sel.contains(checked_upto(groups, sel, n)[i]),
    decreases n,
{
    if n > 0 {
        lemma_checked_upto_exist(groups, sel, n - 1);
        lemma_selected_upto_bounds(groups, sel, n - 1, group_size(groups, n - 1));
        let prev = checked_upto(groups, sel, n - 1);
        let chosen = selected_in_group(groups, sel, n - 1);
        let cur = checked_upto(groups, sel, n);
        assert forall|i: int| 0 <= i < cur.len() implies position_exists(groups, #[trigger] cur[i])
            && sel.contains(cur[i]) by {
            if i < prev.len() {
                assert(cur[i] == prev[i]);
            } else {
                assert(cur[i] == ((n - 1) as usize, chosen[i - prev.len()]));
            }
        }
    }
}

impl App {
    /// The selected positions that name a repository of the configuration,
    /// in configuration order: the repositories whose presence under the
    /// root path `submit_root` needs to know.
    pub fn repos_to_check(&self) -> (positions: Vec<(usize, usize)>)
        ensures
            positions@ == checked_positions(self.config.groups@, self@.selected),
            forall|i: int|
                0 <= i < positions@.len() ==> position_exists(self.config.groups@, #[trigger] positions@[i])
                    && self@.selected.contains(positions@[i]),
    {
        let ghost groups = self.config.groups@;
        let ghost sel = self@.selected;
        let mut out: Vec<(usize, usize)> = Vec::new();
        let mut g: usize = 0;
        while g < self.config.groups.len()
            invariant
                groups == self.config.groups@,
                sel == self@.selected,
                g <= groups.len(),
                out@ == checked_upto(groups, sel, g as int),
            decreases groups.len() - g,
        {
            let (chosen, _) = scan_group(&self.config, &self.selected_repos, g);
            let ghost start = out@;
            let mut i: usize = 0;
            while i < chosen.len()
                invariant
                    i <= chosen@.len(),
                    out@ == start + chosen@.take(i as int).map_values(|r: usize| (g, r)),
                decreases chosen@.len() - i,
            {
                out.push((g, chosen[i]));
                proof {
                    assert(chosen@.take(i as int + 1) =~= chosen@.take(i as int).push(chosen@[i as int]));
                    assert(out@ =~= start + chosen@.take(i as int + 1).map_values(|r: usize| (g, r)));
                }
                i = i + 1;
            }
            proof {
                assert(chosen@.take(chosen@.len() as int) =~= chosen@);
            }
            g = g + 1;
        }
        proof {
            lemma_checked_upto_exist(groups, sel, groups.len() as int);
        }
        out
    }

    /// Whether every selected repository is present under the root path,
    /// given, for each position of `repos_to_check` in order, whether its
    /// repository is present; otherwise the message naming the missing ones
    /// in that order.
    pub fn validate_repos(&self, present: &Vec<bool>) -> (res: Result<(), String>)
        requires
            present@.len() == checked_positions(self.config.groups@, self@.selected).len(),
        ensures
            ({
                let missing = missing_upto(
                    self.config.groups@,
                    checked_positions(self.config.groups@, self@.selected),
                    present@,
                    present@.len() as int,
                );
                &&& missing.len() == 0 ==> res is Ok
                &&& missing.len() > 0 ==> (res matches Err(m) && m@ == missing_message(
                    self.root_path@,
                    missing,
                ))
            }),
    {
        let positions = self.repos_to_check();
        let ghost groups = self.config.groups@;
        let mut listed = String::new();
        let mut count: usize = 0;
        let mut i: usize = 0;
        while i < positions.len()
            invariant
                groups == self.config.groups@,
                present@.len() == positions@.len(),
                forall|t: int| 0 <= t < positions@.len() ==> position_exists(groups, #[trigger] positions@[t]),
                i <= positions@.len(),
                count == missing_upto(groups, positions@, present@, i as int).len(),
                listed@ == join(missing_upto(groups, positions@, present@, i as int), ", "@),
                count <= i,
            decreases positions@.len() - i,
        {
            if !present[i] {
                let (g, r) = positions[i];
                assert(position_exists(groups, positions@[i as int]));
                if count > 0 {
                    listed.append(", ");
                }
                listed.append(self.config.groups[g].repositories[r].path.as_str());
                count = count + 1;
                proof {
                    let m = missing_upto(groups, positions@, present@, i as int + 1);
                    assert(m.drop_last() =~= missing_upto(groups, positions@, present@, i as int));
                }
            }
            i = i + 1;
        }
        if count == 0 {
            Ok(())
        } else {
            let mut message = String::from_str("The following repositories were not found under '");
            message.append(self.root_path.as_str());
            message.append("':\n");
            message.append(listed.as_str());
            Err(message)
        }
    }

    /// Leaves the root path prompt for the confirmation when every selected
    /// repository is present, and for the error screen with the message of
    /// `validate_repos` otherwise.
    pub fn submit_root(&mut self, present: &Vec<bool>)
        requires
            old(self).wf(),
            present@.len() == checked_positions(old(self).config.groups@, old(self)@.selected).len(),
        ensures
            final(self).wf(),
            final(self).config == old(self).config,
            ({
                let missing = missing_upto(
                    old(self).config.groups@,
                    checked_positions(old(self).config.groups@, old(self)@.selected),
                    present@,
                    present@.len() as int,
                );
                if missing.len() == 0 {
                    final(self)@ == AppModel { view: View::Confirmation, ..old(self)@ }
                } else {
                    final(self)@ == AppModel {
                        view: View::Error,
                        error_message: Some(missing_message(old(self).root_path@, missing)),
                        ..old(self)@
                    }
                }
            }),
    {
        match self.validate_repos(present) {
            Ok(()) => {
                self.view = View::Confirmation;
            },
            Err(message) => {
                self.error_message = Some(message);
                self.view = View::Error;
            },
        }
    }
}

} // verus!

verus! {

/// One row of the repository list.
#[derive(Clone, Copy, Debug, PartialEq, Eq, Structural)]
pub enum ListRow {
    /// The heading of a group, numbered from 1.
    Header { number: usize },
    /// A repository, whether it is selected, and whether the cursor is on it.
    Repo { group: usize, repo: usize, selected: bool, at_cursor: bool },
}

/// The rows of the groups before `n`: each group's heading followed by its
/// repositories.
pub open spec fn rows_upto(groups: Seq<Group>, m: AppModel, n: int) -> Seq<ListRow>
    decreases n,
{
    if n <= 0 {
        Seq::empty()
    } else {
        rows_upto(groups, m, n - 1) + seq![ListRow::Header { number: n as usize }] + Seq::new(
            group_size(groups, n - 1) as nat,
            |r: int|
                ListRow::Repo {
                    group: (n - 1) as usize,
                    repo: r as usize,
                    selected: m.selected.contains(((n - 1) as usize, r as usize)),
                    at_cursor: m.cursor_group == n - 1 && m.cursor_repo == r,
                },
        )
    }
}

impl View {
    /// The key help shown at the bottom of the screen.
    pub fn help_text(&self) -> (text: &'static str)
        ensures
            text@ == (match *self {
                View::Selection => "↑/↓: Navigate | Space: Toggle | Enter: Next | q: Quit | Ctrl+c: Exit"@,
                View::RootPrompt => "Enter: Confirm | Esc: Back | Ctrl+c: Exit"@,
                View::Confirmation => "y/Enter: Yes | n: No | Esc: Back | Ctrl+c: Exit"@,
                View::Error => "Enter/Esc: Dismiss | Ctrl+c: Exit"@,
            }),
    {
        match self {
            View::Selection => "↑/↓: Navigate | Space: Toggle | Enter: Next | q: Quit | Ctrl+c: Exit",
            View::RootPrompt => "Enter: Confirm | Esc: Back | Ctrl+c: Exit",
            View::Confirmation => "y/Enter: Yes | n: No | Esc: Back | Ctrl+c: Exit",
            View::Error => "Enter/Esc: Dismiss | Ctrl+c: Exit",
        }
    }
}

impl App {
    /// The repository list: for each group its heading, then each of its
    /// repositories with its selection mark and whether the cursor is on it.
    pub fn list_rows(&self) -> (rows: Vec<ListRow>)
        ensures
            rows@ == rows_upto(self.config.groups@, self@, self.config.groups@.len() as int),
    {
        let ghost groups = self.config.groups@;
        let mut rows: Vec<ListRow> = Vec::new();
        let mut g: usize = 0;
        while g < self.config.groups.len()
            invariant
                groups == self.config.groups@,
                g <= groups.len(),
                rows@ == rows_upto(groups, self@, g as int),
            decreases groups.len() - g,
        {
            rows.push(ListRow::Header { number: g + 1 });
            let ghost start = rows@;
            let repos = &self.config.groups[g].repositories;
            let ghost m = self@;
            let ghost full = Seq::new(
                group_size(groups, g as int) as nat,
                |r: int|
                    ListRow::Repo {
                        group: g,
                        repo: r as usize,
                        selected: m.selected.contains((g, r as usize)),
                        at_cursor: m.cursor_group == g && m.cursor_repo == r,
                    },
            );
            let mut r: usize = 0;
            while r < repos.len()
                invariant
                    repos@ == groups[g as int].repositories@,
                    r <= repos@.len(),
                    full.len() == repos@.len(),
                    m == self@,
                    forall|t: int| 0 <= t < full.len() ==> #[trigger] full[t] == (ListRow::Repo {
                        group: g,
                        repo: t as usize,
                        selected: m.selected.contains((g, t as usize)),
                        at_cursor: m.cursor_group == g && m.cursor_repo == t,
                    }),
                    rows@ == start + full.take(r as int),
                decreases repos@.len() - r,
            {
                let selected = self.selected_repos.contains(g, r);
                let at_cursor = self.cursor_group == g && self.cursor_repo == r;
                rows.push(ListRow::Repo { group: g, repo: r, selected, at_cursor });
                proof {
                    assert(full.take(r as int + 1) =~= full.take(r as int).push(full[r as int]));
                }
                r = r + 1;
            }
            proof {
                assert(full.take(full.len() as int) =~= full);
                assert(rows@ =~= rows_upto(groups, self@, g as int + 1));
            }
            g = g + 1;
        }
        rows
    }
}

} // verus!

verus! {

/// Control-C leaves the screens from every screen, changing nothing.
pub proof fn law_ctrl_c_exits_anywhere(groups: Seq<Group>, m: AppModel)
    ensures
        key_step(groups, m, Key::CtrlC) == (m, KeyOutcome::Exit),
{
}

/// A deployment is only ever confirmed explicitly: the confirmation mark is
/// set only by `y` or Enter on the confirmation screen, and that ends the
/// screens.
pub proof fn law_confirmation_is_explicit(groups: Seq<Group>, m: AppModel, key: Key)
    requires
        !m.confirmed,
        key_step(groups, m, key).0.confirmed,
    ensures
        m.view == View::Confirmation,
        key == Key::Char('y') || key == Key::Enter,
        key_step(groups, m, key).1 == KeyOutcome::Exit,
{
}

/// No key leads to the confirmation screen: only `App::submit_root` does,
/// after the presence check of the selected repositories.
pub proof fn law_keys_never_skip_the_check(groups: Seq<Group>, m: AppModel, key: Key)
    requires
        key_step(groups, m, key).0.view == View::Confirmation,
    ensures
        m.view == View::Confirmation,
{
}

/// Enter with nothing selected shows the error screen instead of asking for
/// the root path.
pub proof fn law_enter_needs_a_selection(groups: Seq<Group>, m: AppModel)
    requires
        m.view == View::Selection,
        m.selected == Set::<(usize, usize)>::empty(),
    ensures
        key_step(groups, m, Key::Enter).0.view == View::Error,
        key_step(groups, m, Key::Enter).0.error_message == Some(no_selection_message()),
{
}

/// Toggling the repository under the cursor twice gives back the selection.
pub proof fn law_toggle_twice_restores(groups: Seq<Group>, m: AppModel)
    requires
        m.view == View::Selection,
    ensures
        key_step(groups, key_step(groups, m, Key::Char(' ')).0, Key::Char(' ')).0 == m,
{
    let k = (m.cursor_group as usize, m.cursor_repo as usize);
    let once = key_step(groups, m, Key::Char(' ')).0;
    let twice = key_step(groups, once, Key::Char(' ')).0;
    assert(twice.selected =~= m.selected);
}

} // verus!

verus! {

/// Every group holds at least one repository.
pub open spec fn no_empty_group(groups: Seq<Group>) -> bool {
    forall|g: int| 0 <= g < groups.len() ==> #[trigger] group_size(groups, g) >= 1
}

/// The cursor stands on a repository of the configuration.
pub open spec fn cursor_on_repo(groups: Seq<Group>, c: (int, int)) -> bool {
    &&& 0 <= c.0 < groups.len()
    &&& 0 <= c.1 < group_size(groups, c.0)
}

/// When no group is empty, a cursor on a repository stays on a repository
/// after moving down or up, and moving up always has a target.
pub proof fn law_cursor_stays_on_a_repo(groups: Seq<Group>, c: (int, int))
    requires
        no_empty_group(groups),
        cursor_on_repo(groups, c),
    ensures
        cursor_on_repo(groups, cursor_down(groups, c.0, c.1)),
        cursor_on_repo(groups, cursor_up(groups, c.0, c.1)),
        !up_has_no_target(groups, c.0, c.1),
{
    if c.0 > 0 {
        assert(group_size(groups, c.0 - 1) >= 1);
    }
    if c.0 + 1 < groups.len() {
        assert(group_size(groups, c.0 + 1) >= 1);
    }
}

/// When no group is empty, moving down undoes moving up from any repository
/// but the very first.
pub proof fn law_down_undoes_up(groups: Seq<Group>, c: (int, int))
    requires
        no_empty_group(groups),
        cursor_on_repo(groups, c),
        c != (0int, 0int),
    ensures
        ({
            let u = cursor_up(groups, c.0, c.1);
            cursor_down(groups, u.0, u.1) == c
        }),
{
    if c.0 > 0 {
        assert(group_size(groups, c.0 - 1) >= 1);
    }
}

/// When no group is empty, moving up undoes moving down from any repository
/// but the very last.
pub proof fn law_up_undoes_down(groups: Seq<Group>, c: (int, int))
    requires
        no_empty_group(groups),
        cursor_on_repo(groups, c),
        c.0 + 1 < groups.len() || c.1 + 1 < group_size(groups, c.0),
    ensures
        ({
            let d = cursor_down(groups, c.0, c.1);
            cursor_up(groups, d.0, d.1) == c
        }),
{
    if c.0 + 1 < groups.len() {
        assert(group_size(groups, c.0 + 1) >= 1);
    }
}

/// Every repository to check, given by `checked_positions`, is present under
/// `root` by the presence test `present`.
pub open spec fn all_present(
    groups: Seq<Group>,
    sel: Set<(usize, usize)>,
    root: Seq<char>,
    present: spec_fn(Seq<char>, (usize, usize)) -> bool,
) -> bool {
    let pos = checked_positions(groups, sel);
    forall|i: int| 0 <= i < pos.len() ==> #[trigger] present(root, pos[i])
}

/// The answers of the presence test `present` for the repositories to check
/// in the state `m`, in the order of `App::repos_to_check`.
pub open spec fn presence_of(
    groups: Seq<Group>,
    m: AppModel,
    present: spec_fn(Seq<char>, (usize, usize)) -> bool,
) -> Seq<bool> {
    let pos = checked_positions(groups, m.selected);
    Seq::new(pos.len(), |i: int| present(m.root_path, pos[i]))
}

/// The state after `App::submit_root` with the answers `presence`.
pub open spec fn submit_next(groups: Seq<Group>, m: AppModel, presence: Seq<bool>) -> AppModel {
    let missing = missing_upto(
        groups,
        checked_positions(groups, m.selected),
        presence,
        presence.len() as int,
    );
    if missing.len() == 0 {
        AppModel { view: View::Confirmation, ..m }
    } else {
        AppModel {
            view: View::Error,
            error_message: Some(missing_message(m.root_path, missing)),
            ..m
        }
    }
}

/// One turn of the screen loop: the key is handled, and when it asks for the
/// presence check, the check is made with `present` and handed to
/// `submit_root`. The flag says whether the screens were left.
pub open spec fn screen_step(
    groups: Seq<Group>,
    m: AppModel,
    key: Key,
    present: spec_fn(Seq<char>, (usize, usize)) -> bool,
) -> (AppModel, bool) {
    let (m1, outcome) = key_step(groups, m, key);
    match outcome {
        KeyOutcome::Exit => (m1, true),
        KeyOutcome::Continue => (m1, false),
        KeyOutcome::CheckRepositories => (submit_next(groups, m1, presence_of(groups, m1, present)), false),
    }
}

/// The state in which the screen loop ends after `keys`, or stands when the
/// keys run out.
pub open spec fn run_screens(
    groups: Seq<Group>,
    m: AppModel,
    keys: Seq<Key>,
    present: spec_fn(Seq<char>, (usize, usize)) -> bool,
) -> AppModel
    decreases keys.len(),
{
    if keys.len() == 0 {
        m
    } else {
        let (m1, left) = screen_step(groups, m, keys[0], present);
        if left {
            m1
        } else {
            run_screens(groups, m1, keys.drop_first(), present)
        }
    }
}

proof fn lemma_missing_empty(groups: Seq<Group>, pos: Seq<(usize, usize)>, presence: Seq<bool>, n: int)
    requires
        0 <= n <= presence.len(),
    ensures
        missing_upto(groups, pos, presence, n).len() == 0 <==> forall|i: int| 0 <= i < n ==> #[trigger] presence[i],
    decreases n,
{
    if n > 0 {
        lemma_missing_empty(groups, pos, presence, n - 1);
        if missing_upto(groups, pos, presence, n).len() == 0 {
            assert(presence[n - 1]);
        }
    }
}

/// The presence check passes (`validate_repos` gives `Ok`, `submit_root`
/// moves on to the confirmation) exactly when every repository to check is
/// present.
pub proof fn law_check_passes_iff_all_present(
    groups: Seq<Group>,
    m: AppModel,
    present: spec_fn(Seq<char>, (usize, usize)) -> bool,
)
    ensures
        missing_upto(
            groups,
            checked_positions(groups, m.selected),
            presence_of(groups, m, present),
            presence_of(groups, m, present).len() as int,
        ).len() == 0 <==> all_present(groups, m.selected, m.root_path, present),
{
    let p = presence_of(groups, m, present);
    lemma_missing_empty(groups, checked_positions(groups, m.selected), p, p.len() as int);
    let pos = checked_positions(groups, m.selected);
    assert forall|i: int| 0 <= i < pos.len() implies (p[i] <==> #[trigger] present(m.root_path, pos[i])) by {}
}

/// Over a whole run of the screens, a deployment is confirmed only on the
/// confirmation screen, and only while every selected repository is present
/// under the root path: the confirmation screen is reached only through a
/// passing presence check, and nothing that changes the selection or the
/// root path can happen on it.
pub proof fn law_confirmation_only_after_passing_check(
    groups: Seq<Group>,
    m: AppModel,
    keys: Seq<Key>,
    present: spec_fn(Seq<char>, (usize, usize)) -> bool,
)
    requires
        !m.confirmed,
        m.view == View::Confirmation ==> all_present(groups, m.selected, m.root_path, present),
    ensures
        ({
            let end = run_screens(groups, m, keys, present);
            &&& end.view == View::Confirmation ==> all_present(groups, end.selected, end.root_path, present)
            &&& end.confirmed ==> end.view == View::Confirmation
        }),
    decreases keys.len(),
{
    if keys.len() > 0 {
        let key = keys[0];
        let (m1, outcome) = key_step(groups, m, key);
        let (m2, left) = screen_step(groups, m, key, present);
        if outcome == KeyOutcome::CheckRepositories {
            law_check_passes_iff_all_present(groups, m1, present);
        }
        if m1.view == View::Confirmation {
            law_keys_never_skip_the_check(groups, m, key);
        }
        if !left {
            law_confirmation_only_after_passing_check(groups, m2, keys.drop_first(), present);
        }
    }
}

proof fn lemma_checked_upto_complete(groups: Seq<Group>, sel: Set<(usize, usize)>, n: int, k: (usize, usize))
    requires
        0 <= n <= groups.len(),
        groups.len() <= usize::MAX,
        (k.0 as int) < n,
        position_exists(groups, k),
        sel.contains(k),
    ensures
        checked_upto(groups, sel, n).contains(k),
    decreases n,
{
    let prev = checked_upto(groups, sel, n - 1);
    let cur = checked_upto(groups, sel, n);
    let chosen = selected_in_group(groups, sel, n - 1);
    if (k.0 as int) < n - 1 {
        lemma_checked_upto_complete(groups, sel, n - 1, k);
        let t = choose|t: int| 0 <= t < prev.len() && prev[t] == k;
        assert(cur[t] == k);
    } else {
        lemma_selected_upto_complete(groups, sel, n - 1, group_size(groups, n - 1), k.1 as int);
        let t = choose|t: int| 0 <= t < chosen.len() && chosen[t] == k.1;
        assert(cur[prev.len() + t] == k);
    }
}

/// Selecting fewer repositories never turns a passing presence check into a
/// failing one: when every repository to check for `larger` is present, so
/// is every one for a selection `smaller` that it contains.
pub proof fn law_fewer_selected_still_pass(
    groups: Seq<Group>,
    smaller: Set<(usize, usize)>,
    larger: Set<(usize, usize)>,
    root: Seq<char>,
    present: spec_fn(Seq<char>, (usize, usize)) -> bool,
)
    requires
        groups.len() <= usize::MAX,
        smaller.subset_of(larger),
        all_present(groups, larger, root, present),
    ensures
        all_present(groups, smaller, root, present),
{
    let n = groups.len() as int;
    let pa = checked_positions(groups, smaller);
    let pb = checked_positions(groups, larger);
    lemma_checked_upto_exist(groups, smaller, n);
    assert forall|i: int| 0 <= i < pa.len() implies #[trigger] present(root, pa[i]) by {
        let k = pa[i];
        assert(position_exists(groups, k) && smaller.contains(k));
        lemma_checked_upto_complete(groups, larger, n, k);
        let j = choose|j: int| 0 <= j < pb.len() && pb[j] == k;
        assert(present(root, pb[j]));
    }
}

} // verus!

verus! {

/// One row of the drawn execution timeline.
#[derive(Clone, Copy, Debug, PartialEq, Eq, Structural)]
pub enum GraphRow {
    /// The arrow between two groups.
    Arrow,
    /// A group of the timeline (its index in the configuration) and when it
    /// starts, in milliseconds.
    GroupStart { group: usize, start_ms: u128 },
    /// A repository of the group; `last` tells the last one of its group.
    Repo { group: usize, repo: usize, last: bool },
    /// The hint shown when nothing is selected.
    Placeholder,
    /// An empty line.
    Blank,
    /// The estimated time of the whole deployment, in milliseconds.
    Total { total_ms: u128 },
}

/// The rows of one group of the timeline: an arrow unless it is the first,
/// its start, and its repositories, the last one marked.
pub open spec fn group_rows(gg: GraphGroup, first: bool) -> Seq<GraphRow> {
    (if first {
        Seq::empty()
    } else {
        seq![GraphRow::Arrow]
    }) + seq![GraphRow::GroupStart { group: gg.group, start_ms: gg.start_ms }] + Seq::new(
        gg.repos@.len(),
        |k: int|
            GraphRow::Repo { group: gg.group, repo: gg.repos@[k], last: k == gg.repos@.len() - 1 },
    )
}

/// The rows of the first `n` groups of the timeline.
pub open spec fn groups_rows_upto(gs: Seq<GraphGroup>, n: int) -> Seq<GraphRow>
    decreases n,
{
    if n <= 0 {
        Seq::empty()
    } else {
        groups_rows_upto(gs, n - 1) + group_rows(gs[n - 1], n == 1)
    }
}

/// The rows of the drawn timeline: the hint alone when no group is selected,
/// otherwise the rows of each group, an empty line and the total.
pub open spec fn timeline_rows(graph: ExecutionGraph) -> Seq<GraphRow> {
    if graph.groups@.len() == 0 {
        seq![GraphRow::Placeholder]
    } else {
        groups_rows_upto(graph.groups@, graph.groups@.len() as int) + seq![
            GraphRow::Blank,
            GraphRow::Total { total_ms: graph.total_ms },
        ]
    }
}

/// The rows in which the execution timeline is drawn.
pub fn graph_rows(graph: &ExecutionGraph) -> (rows: Vec<GraphRow>)
    ensures
        rows@ == timeline_rows(*graph),
{
    let mut rows: Vec<GraphRow> = Vec::new();
    if graph.groups.len() == 0 {
        rows.push(GraphRow::Placeholder);
        assert(rows@ =~= timeline_rows(*graph));
        return rows;
    }
    let mut j: usize = 0;
    while j < graph.groups.len()
        invariant
            j <= graph.groups@.len(),
            rows@ == groups_rows_upto(graph.groups@, j as int),
        decreases graph.groups@.len() - j,
    {
        let gg = &graph.groups[j];
        let ghost start = rows@;
        if j > 0 {
            rows.push(GraphRow::Arrow);
        }
        rows.push(GraphRow::GroupStart { group: gg.group, start_ms: gg.start_ms });
        let ghost head = rows@;
        let ghost tail = Seq::new(
            gg.repos@.len(),
            |k: int|
                GraphRow::Repo { group: gg.group, repo: gg.repos@[k], last: k == gg.repos@.len() - 1 },
        );
        let mut k: usize = 0;
        while k < gg.repos.len()
            invariant
                k <= gg.repos@.len(),
                tail.len() == gg.repos@.len(),
                forall|t: int| 0 <= t < tail.len() ==> #[trigger] tail[t] == (GraphRow::Repo {
                    group: gg.group,
                    repo: gg.repos@[t],
                    last: t == gg.repos@.len() - 1,
                }),
                rows@ == head + tail.take(k as int),
            decreases gg.repos@.len() - k,
        {
            let last = k + 1 == gg.repos.len();
            rows.push(GraphRow::Repo { group: gg.group, repo: gg.repos[k], last });
            proof {
                assert(tail.take(k as int + 1) =~= tail.take(k as int).push(tail[k as int]));
            }
            k = k + 1;
        }
        proof {
            assert(tail.take(tail.len() as int) =~= tail);
            assert(rows@ =~= groups_rows_upto(graph.groups@, j as int + 1));
        }
        j = j + 1;
    }
    rows.push(GraphRow::Blank);
    rows.push(GraphRow::Total { total_ms: graph.total_ms });
    assert(rows@ =~= timeline_rows(*graph));
    rows
}

} // verus!

verus! {

/// On the error screen, Enter and Esc both dismiss the error and return to
/// the root path prompt; every other key but Control-C is ignored.
pub proof fn law_error_screen_keys(groups: Seq<Group>, m: AppModel, key: Key)
    requires
        m.view == View::Error,
    ensures
        key == Key::Enter || key == Key::Esc ==> key_step(groups, m, key) == (
        AppModel { error_message: None, view: View::RootPrompt, ..m },
        KeyOutcome::Continue,
        ),
        key != Key::Enter && key != Key::Esc && key != Key::CtrlC ==> key_step(groups, m, key) == (
        m,
        KeyOutcome::Continue,
        ),
{
}

/// On the root path prompt every character key is typed into the root path
/// and the screens go on; Backspace removes the last character when there is
/// one; Esc returns to the selection; Enter asks for the presence check and
/// changes nothing yet.
pub proof fn law_root_prompt_keys(groups: Seq<Group>, m: AppModel, c: char)
    requires
        m.view == View::RootPrompt,
    ensures
        key_step(groups, m, Key::Char(c)) == (
            AppModel { root_path: m.root_path.push(c), ..m },
            KeyOutcome::Continue,
        ),
        key_step(groups, m, Key::Char(c)).0.root_path.len() == m.root_path.len() + 1,
        key_step(groups, m, Key::Char(c)).0.root_path.last() == c,
        m.root_path.len() > 0 ==> key_step(groups, m, Key::Backspace) == (
        AppModel { root_path: m.root_path.subrange(0, m.root_path.len() - 1), ..m },
        KeyOutcome::Continue,
        ),
        m.root_path.len() == 0 ==> key_step(groups, m, Key::Backspace) == (m, KeyOutcome::Continue),
        key_step(groups, m, Key::Esc) == (AppModel { view: View::Selection, ..m }, KeyOutcome::Continue),
        key_step(groups, m, Key::Enter) == (m, KeyOutcome::CheckRepositories),
{
    assert(m.root_path.drop_last() =~= m.root_path.subrange(0, m.root_path.len() - 1));
}

/// On the selection screen: `q` leaves without confirming; Space flips the
/// selection of the position under the cursor and of no other; `c` clears
/// the selection; Enter goes on to the root path prompt when something is
/// selected and shows the error otherwise.
pub proof fn law_selection_screen_keys(groups: Seq<Group>, m: AppModel, k: (usize, usize))
    requires
        m.view == View::Selection,
    ensures
        key_step(groups, m, Key::Char('q')) == (m, KeyOutcome::Exit),
        key_step(groups, m, Key::Char(' ')).1 == KeyOutcome::Continue,
        key_step(groups, m, Key::Char(' ')).0.selected.contains(k) == (if k == (
            m.cursor_group as usize,
            m.cursor_repo as usize,
        ) {
            !m.selected.contains(k)
        } else {
            m.selected.contains(k)
        }),
        key_step(groups, m, Key::Char(' ')).0 == (AppModel {
            selected: key_step(groups, m, Key::Char(' ')).0.selected,
            ..m
        }),
        key_step(groups, m, Key::Char('c')) == (
            AppModel { selected: Set::<(usize, usize)>::empty(), ..m },
            KeyOutcome::Continue,
        ),
        m.selected.contains(k) ==> key_step(groups, m, Key::Enter) == (
        AppModel { view: View::RootPrompt, ..m },
        KeyOutcome::Continue,
        ),
        m.selected == Set::<(usize, usize)>::empty() ==> key_step(groups, m, Key::Enter) == (
        AppModel {
            view: View::Error,
            error_message: Some("No repositories selected. Please select at least one."@),
            ..m
        },
        KeyOutcome::Continue,
        ),
{
    if m.selected.contains(k) {
        assert(m.selected != Set::<(usize, usize)>::empty());
    }
}

/// On the selection screen Down moves to the next repository of the group,
/// else to the first position of the next group, else stays; Up moves to the
/// previous repository of the group, else to the last repository of the
/// previous group, else stays. Nothing but the cursor changes.
pub proof fn law_selection_cursor_keys(groups: Seq<Group>, m: AppModel)
    requires
        m.view == View::Selection,
        0 <= m.cursor_group,
        0 <= m.cursor_repo,
    ensures
        ({
            let (d, od) = key_step(groups, m, Key::Down);
            &&& od == KeyOutcome::Continue
            &&& d == AppModel { cursor_group: d.cursor_group, cursor_repo: d.cursor_repo, ..m }
            &&& groups.len() > 0 && m.cursor_repo + 1 < group_size(groups, m.cursor_group) ==> d.cursor_group
                == m.cursor_group && d.cursor_repo == m.cursor_repo + 1
            &&& groups.len() > 0 && m.cursor_repo + 1 >= group_size(groups, m.cursor_group)
                && m.cursor_group + 1 < groups.len() ==> d.cursor_group == m.cursor_group + 1
                && d.cursor_repo == 0
            &&& (groups.len() == 0 || (m.cursor_repo + 1 >= group_size(groups, m.cursor_group)
                && m.cursor_group + 1 >= groups.len())) ==> d == m
        }),
        ({
            let (u, ou) = key_step(groups, m, Key::Up);
            &&& ou == KeyOutcome::Continue
            &&& u == AppModel { cursor_group: u.cursor_group, cursor_repo: u.cursor_repo, ..m }
            &&& m.cursor_repo > 0 ==> u.cursor_group == m.cursor_group && u.cursor_repo == m.cursor_repo - 1
            &&& m.cursor_repo == 0 && m.cursor_group > 0 ==> u.cursor_group == m.cursor_group - 1
                && u.cursor_repo == group_size(groups, m.cursor_group - 1) - 1
            &&& m.cursor_repo == 0 && m.cursor_group == 0 ==> u == m
        }),
{
}

/// On the confirmation screen `y` and Enter confirm and leave the screens,
/// `n` returns to the selection and Esc to the root path prompt, without
/// confirming.
pub proof fn law_confirmation_screen_keys(groups: Seq<Group>, m: AppModel)
    requires
        m.view == View::Confirmation,
    ensures
        key_step(groups, m, Key::Char('y')) == (AppModel { confirmed: true, ..m }, KeyOutcome::Exit),
        key_step(groups, m, Key::Enter) == (AppModel { confirmed: true, ..m }, KeyOutcome::Exit),
        key_step(groups, m, Key::Char('n')) == (AppModel { view: View::Selection, ..m }, KeyOutcome::Continue),
        key_step(groups, m, Key::Esc) == (AppModel { view: View::RootPrompt, ..m }, KeyOutcome::Continue),
{
}

} // verus!

verus! {

/// The lengths that the configuration's vectors can have.
pub open spec fn sizes_fit(groups: Seq<Group>) -> bool {
    &&& groups.len() <= usize::MAX
    &&& forall|g: int| 0 <= g < groups.len() ==> #[trigger] group_size(groups, g) <= usize::MAX
}

/// What a row of the repository list says of its repository.
pub open spec fn repo_row_faithful(groups: Seq<Group>, m: AppModel, row: ListRow) -> bool {
    match row {
        ListRow::Repo { group, repo, selected, at_cursor } => {
            &&& position_exists(groups, (group, repo))
            &&& selected == m.selected.contains((group, repo))
            &&& at_cursor == (group as int == m.cursor_group && repo as int == m.cursor_repo)
        },
        ListRow::Header { number } => 1 <= number <= groups.len(),
    }
}

proof fn lemma_rows_upto(groups: Seq<Group>, m: AppModel, n: int)
    requires
        sizes_fit(groups),
        0 <= n <= groups.len(),
    ensures
        forall|i: int|
            0 <= i < rows_upto(groups, m, n).len() ==> repo_row_faithful(
                groups,
                m,
                #[trigger] rows_upto(groups, m, n)[i],
            ),
        forall|k: (usize, usize)|
            position_exists(groups, k) && (k.0 as int) < n ==> exists|i: int|
                0 <= i < rows_upto(groups, m, n).len() && (#[trigger] rows_upto(groups, m, n)[i]) is Repo
                    && rows_upto(groups, m, n)[i]->group == k.0 && rows_upto(groups, m, n)[i]->repo
                    == k.1,
    decreases n,
{
    if n > 0 {
        lemma_rows_upto(groups, m, n - 1);
        let prev = rows_upto(groups, m, n - 1);
        let cur = rows_upto(groups, m, n);
        let size = group_size(groups, n - 1);
        assert(size <= usize::MAX);
        assert forall|i: int| 0 <= i < cur.len() implies repo_row_faithful(groups, m, #[trigger] cur[i]) by {
            if i < prev.len() {
                assert(cur[i] == prev[i]);
            } else if i == prev.len() {
            } else {
                let r = i - prev.len() - 1;
                assert(cur[i] == (ListRow::Repo {
                    group: (n - 1) as usize,
                    repo: r as usize,
                    selected: m.selected.contains(((n - 1) as usize, r as usize)),
                    at_cursor: m.cursor_group == n - 1 && m.cursor_repo == r,
                }));
            }
        }
        assert forall|k: (usize, usize)| position_exists(groups, k) && (k.0 as int) < n implies exists|i: int|
            0 <= i < cur.len() && (#[trigger] cur[i]) is Repo && cur[i]->group == k.0 && cur[i]->repo == k.1 by {
            if (k.0 as int) < n - 1 {
                let i = choose|i: int|
                    0 <= i < prev.len() && (#[trigger] prev[i]) is Repo && prev[i]->group == k.0
                        && prev[i]->repo == k.1;
                assert(cur[i] == prev[i]);
            } else {
                let i = prev.len() + 1 + k.1 as int;
                assert(cur[i] is Repo && cur[i]->group == k.0 && cur[i]->repo == k.1);
            }
        }
    }
}

/// The repository list shows every repository of the configuration, and each
/// repository row names a repository of the configuration, is marked
/// selected exactly when that repository is selected, and is marked as under
/// the cursor exactly when the cursor stands on it; group headings are
/// numbered from 1 to the number of groups.
pub proof fn law_list_rows_are_faithful(groups: Seq<Group>, m: AppModel)
    requires
        sizes_fit(groups),
    ensures
        forall|i: int|
            0 <= i < rows_upto(groups, m, groups.len() as int).len() ==> repo_row_faithful(
                groups,
                m,
                #[trigger] rows_upto(groups, m, groups.len() as int)[i],
            ),
        forall|k: (usize, usize)|
            position_exists(groups, k) ==> exists|i: int|
                0 <= i < rows_upto(groups, m, groups.len() as int).len() && (#[trigger] rows_upto(
                    groups,
                    m,
                    groups.len() as int,
                )[i]) is Repo && rows_upto(groups, m, groups.len() as int)[i]->group == k.0 && rows_upto(
                    groups,
                    m,
                    groups.len() as int,
                )[i]->repo == k.1,
{
    lemma_rows_upto(groups, m, groups.len() as int);
}

} // verus!

verus! {

/// `graph` is what `execution_graph` gives for the configuration `groups`
/// and the selection `sel`.
pub open spec fn is_timeline_of(graph: ExecutionGraph, groups: Seq<Group>, sel: Set<(usize, usize)>) -> bool {
    &&& graph.total_ms == total_time(groups, sel)
    &&& graph.groups@.len() == active_groups(groups, sel).len()
    &&& forall|j: int|
        0 <= j < graph.groups@.len() ==> {
            let gg = #[trigger] graph.groups@[j];
            &&& gg.group == active_groups(groups, sel)[j]
            &&& gg.start_ms == start_of(groups, sel, gg.group as int)
            &&& gg.repos@ == selected_in_group(groups, sel, gg.group as int)
        }
}

/// What a row of the drawn timeline says of the configuration and the
/// selection.
pub open spec fn timeline_row_faithful(groups: Seq<Group>, sel: Set<(usize, usize)>, row: GraphRow) -> bool {
    match row {
        GraphRow::GroupStart { group, start_ms } => {
            &&& (group as int) < groups.len()
            &&& selected_in_group(groups, sel, group as int).len() > 0
            &&& start_ms == start_of(groups, sel, group as int)
        },
        GraphRow::Repo { group, repo, last } => {
            &&& position_exists(groups, (group, repo))
            &&& sel.contains((group, repo))
        },
        GraphRow::Total { total_ms } => total_ms == total_time(groups, sel),
        _ => true,
    }
}

/// The groups of a timeline are groups of the configuration with a
/// selection, each with its start and its selected repositories.
pub open spec fn groups_faithful(gs: Seq<GraphGroup>, groups: Seq<Group>, sel: Set<(usize, usize)>) -> bool {
    forall|j: int|
        0 <= j < gs.len() ==> {
            let gg = #[trigger] gs[j];
            &&& (gg.group as int) < groups.len()
            &&& gg.start_ms == start_of(groups, sel, gg.group as int)
            &&& gg.repos@ == selected_in_group(groups, sel, gg.group as int)
            &&& gg.repos@.len() > 0
        }
}

proof fn lemma_groups_rows(gs: Seq<GraphGroup>, groups: Seq<Group>, sel: Set<(usize, usize)>, n: int)
    requires
        sizes_fit(groups),
        groups_faithful(gs, groups, sel),
        0 <= n <= gs.len(),
    ensures
        forall|i: int|
            0 <= i < groups_rows_upto(gs, n).len() ==> timeline_row_faithful(
                groups,
                sel,
                #[trigger] groups_rows_upto(gs, n)[i],
            ),
        forall|i: int|
            0 <= i < groups_rows_upto(gs, n).len() && (#[trigger] groups_rows_upto(gs, n)[i]) is Repo ==> (
            groups_rows_upto(gs, n)[i]->Repo_last <==> !(i + 1 < groups_rows_upto(gs, n).len()
                && groups_rows_upto(gs, n)[i + 1] is Repo)),
        n > 0 ==> groups_rows_upto(gs, n).len() > 0,
        forall|j: int, r: usize|
            0 <= j < n && gs[j].repos@.contains(r) ==> exists|i: int|
                0 <= i < groups_rows_upto(gs, n).len() && (#[trigger] groups_rows_upto(gs, n)[i]) is Repo
                    && groups_rows_upto(gs, n)[i]->Repo_group == gs[j].group && groups_rows_upto(gs, n)[i]->Repo_repo
                    == r,
    decreases n,
{
    if n > 0 {
        lemma_groups_rows(gs, groups, sel, n - 1);
        let prev = groups_rows_upto(gs, n - 1);
        let gg = gs[n - 1];
        let part = group_rows(gg, n == 1);
        let cur = groups_rows_upto(gs, n);
        assert(cur == prev + part);
        let off: int = if n == 1 { 1 } else { 2 };
        assert(n == 1 ==> prev.len() == 0);
        assert(part.len() == off + gg.repos@.len());
        lemma_selected_upto_bounds(groups, sel, gg.group as int, group_size(groups, gg.group as int));
        assert forall|i: int| 0 <= i < cur.len() implies timeline_row_faithful(groups, sel, #[trigger] cur[i]) by {
            if i < prev.len() {
                assert(cur[i] == prev[i]);
            } else {
                let t = i - prev.len();
                assert(cur[i] == part[t]);
                if t >= off {
                    let k = t - off;
                    assert(part[t] == (GraphRow::Repo {
                        group: gg.group,
                        repo: gg.repos@[k],
                        last: k == gg.repos@.len() - 1,
                    }));
                    assert(sel.contains((gg.group, gg.repos@[k])));
                }
            }
        }
        assert forall|i: int| 0 <= i < cur.len() && (#[trigger] cur[i]) is Repo implies (cur[i]->Repo_last
            <==> !(i + 1 < cur.len() && cur[i + 1] is Repo)) by {
            if i < prev.len() {
                assert(cur[i] == prev[i]);
                if i + 1 < prev.len() {
                    assert(cur[i + 1] == prev[i + 1]);
                } else {
                    assert(cur[i + 1] == part[0]);
                    assert(n > 1);
                    assert(part[0] == GraphRow::Arrow);
                }
            } else {
                let t = i - prev.len();
                assert(cur[i] == part[t]);
                let k = t - off;
                assert(t >= off);
                if k + 1 < gg.repos@.len() {
                    assert(cur[i + 1] == part[t + 1]);
                }
            }
        }
        assert forall|j: int, r: usize| 0 <= j < n && gs[j].repos@.contains(r) implies exists|i: int|
            0 <= i < cur.len() && (#[trigger] cur[i]) is Repo && cur[i]->Repo_group == gs[j].group && cur[i]->Repo_repo
                == r by {
            if j < n - 1 {
                let i = choose|i: int|
                    0 <= i < prev.len() && (#[trigger] prev[i]) is Repo && prev[i]->Repo_group == gs[j].group
                        && prev[i]->Repo_repo == r;
                assert(cur[i] == prev[i]);
            } else {
                let k = choose|k: int| 0 <= k < gg.repos@.len() && gg.repos@[k] == r;
                let i = prev.len() + off + k;
                assert(cur[i] == part[off + k]);
            }
        }
    }
}

proof fn lemma_timeline_groups(graph: ExecutionGraph, groups: Seq<Group>, sel: Set<(usize, usize)>)
    requires
        sizes_fit(groups),
        is_timeline_of(graph, groups, sel),
    ensures
        groups_faithful(graph.groups@, groups, sel),
        forall|k: (usize, usize)|
            position_exists(groups, k) && sel.contains(k) ==> exists|j: int|
                0 <= j < graph.groups@.len() && (#[trigger] graph.groups@[j]).group == k.0
                    && graph.groups@[j].repos@.contains(k.1),
{
    let gs = graph.groups@;
    let act = active_groups(groups, sel);
    lemma_active_upto(groups, sel, groups.len() as int);
    assert forall|j: int| 0 <= j < gs.len() implies {
        let gg = #[trigger] gs[j];
        &&& (gg.group as int) < groups.len()
        &&& gg.start_ms == start_of(groups, sel, gg.group as int)
        &&& gg.repos@ == selected_in_group(groups, sel, gg.group as int)
        &&& gg.repos@.len() > 0
    } by {
        assert(act[j] == gs[j].group);
    }
    assert forall|k: (usize, usize)| position_exists(groups, k) && sel.contains(k) implies exists|j: int|
        0 <= j < gs.len() && (#[trigger] gs[j]).group == k.0 && gs[j].repos@.contains(k.1) by {
        lemma_selected_upto_complete(groups, sel, k.0 as int, group_size(groups, k.0 as int), k.1 as int);
        assert(selected_in_group(groups, sel, k.0 as int).len() > 0);
        assert(act.contains(k.0));
        let j = choose|j: int| 0 <= j < act.len() && act[j] == k.0;
        assert(gs[j].group == k.0);
    }
}

/// The drawn timeline says only what holds of the configuration and the
/// selection: each group row is a group of the configuration (by its index
/// there) with a selected repository, starting at that group's start; each
/// repository row names a selected repository of the configuration, and
/// every selected repository has a row; exactly the repository rows followed
/// by no other repository row are marked last; the total is the timeline's
/// total, and the hint shows when nothing is selected.
pub proof fn law_timeline_rows_are_faithful(graph: ExecutionGraph, groups: Seq<Group>, sel: Set<(usize, usize)>)
    requires
        sizes_fit(groups),
        is_timeline_of(graph, groups, sel),
    ensures
        forall|i: int|
            0 <= i < timeline_rows(graph).len() ==> timeline_row_faithful(
                groups,
                sel,
                #[trigger] timeline_rows(graph)[i],
            ),
        forall|i: int|
            0 <= i < timeline_rows(graph).len() && (#[trigger] timeline_rows(graph)[i]) is Repo ==> (
            timeline_rows(graph)[i]->Repo_last <==> !(timeline_rows(graph)[i + 1] is Repo)),
        forall|k: (usize, usize)|
            position_exists(groups, k) && sel.contains(k) ==> exists|i: int|
                0 <= i < timeline_rows(graph).len() && (#[trigger] timeline_rows(graph)[i]) is Repo
                    && timeline_rows(graph)[i]->Repo_group == k.0 && timeline_rows(graph)[i]->Repo_repo == k.1,
        timeline_rows(graph).contains(GraphRow::Placeholder) <==> active_groups(groups, sel).len() == 0,
{
    let gs = graph.groups@;
    lemma_timeline_groups(graph, groups, sel);
    let n = gs.len() as int;
    lemma_groups_rows(gs, groups, sel, n);
    let body = groups_rows_upto(gs, n);
    let rows = timeline_rows(graph);
    if n == 0 {
        assert(rows[0] == GraphRow::Placeholder);
    } else {
        assert(rows == body + seq![GraphRow::Blank, GraphRow::Total { total_ms: graph.total_ms }]);
        assert forall|i: int| 0 <= i < rows.len() implies timeline_row_faithful(groups, sel, #[trigger] rows[i]) by {
            if i < body.len() {
                assert(rows[i] == body[i]);
            }
        }
        assert forall|i: int| 0 <= i < rows.len() && (#[trigger] rows[i]) is Repo implies (rows[i]->Repo_last
            <==> !(rows[i + 1] is Repo)) by {
            assert(i < body.len());
            assert(rows[i] == body[i]);
            if i + 1 < body.len() {
                assert(rows[i + 1] == body[i + 1]);
            } else {
                assert(rows[i + 1] == GraphRow::Blank);
            }
        }
        assert forall|k: (usize, usize)| position_exists(groups, k) && sel.contains(k) implies exists|i: int|
            0 <= i < rows.len() && (#[trigger] rows[i]) is Repo && rows[i]->Repo_group == k.0 && rows[i]->Repo_repo
                == k.1 by {
            let j = choose|j: int|
                0 <= j < gs.len() && (#[trigger] gs[j]).group == k.0 && gs[j].repos@.contains(k.1);
            let i = choose|i: int|
                0 <= i < body.len() && (#[trigger] body[i]) is Repo && body[i]->Repo_group == gs[j].group
                    && body[i]->Repo_repo == k.1;
            assert(rows[i] == body[i]);
        }
        assert forall|i: int| 0 <= i < rows.len() implies rows[i] != GraphRow::Placeholder by {
            if i < body.len() {
                assert(rows[i] == body[i]);
                lemma_body_has_no_placeholder(gs, n, i);
            }
        }
    }
}

proof fn lemma_body_has_no_placeholder(gs: Seq<GraphGroup>, n: int, i: int)
    requires
        0 <= n,
        0 <= i < groups_rows_upto(gs, n).len(),
    ensures
        groups_rows_upto(gs, n)[i] != GraphRow::Placeholder,
    decreases n,
{
    if n > 0 {
        let prev = groups_rows_upto(gs, n - 1);
        let part = group_rows(gs[n - 1], n == 1);
        assert(groups_rows_upto(gs, n) == prev + part);
        if i < prev.len() {
            lemma_body_has_no_placeholder(gs, n - 1, i);
        } else {
            let t = i - prev.len();
            let off: int = if n == 1 { 1 } else { 2 };
            if t >= off {
                assert(part[t] is Repo);
            }
        }
    }
}

} // verus!

verus! {

/// The row that must come just before `row` in the repository list: a
/// group's first repository follows the group's heading, every other
/// repository follows the one before it in the group, and a heading follows
/// the previous group's last row (its heading when it is empty); the first
/// heading opens the list.
pub open spec fn list_order_holds(groups: Seq<Group>, rows: Seq<ListRow>, i: int) -> bool {
    match rows[i] {
        ListRow::Repo { group, repo, .. } => i > 0 && if repo == 0 {
            rows[i - 1] == (ListRow::Header { number: (group + 1) as usize })
        } else {
            rows[i - 1] matches ListRow::Repo { group: g, repo: r, .. } && g == group && r == repo - 1
        },
        ListRow::Header { number } => if i == 0 {
            number == 1
        } else if group_size(groups, number - 2) == 0 {
            rows[i - 1] == (ListRow::Header { number: (number - 1) as usize })
        } else {
            rows[i - 1] matches ListRow::Repo { group: g, repo: r, .. } && g == number - 2 && r
                == group_size(groups, number - 2) - 1
        },
    }
}

proof fn lemma_rows_order(groups: Seq<Group>, m: AppModel, n: int)
    requires
        sizes_fit(groups),
        0 <= n <= groups.len(),
    ensures
        forall|i: int|
            0 <= i < rows_upto(groups, m, n).len() ==> #[trigger] list_order_holds(
                groups,
                rows_upto(groups, m, n),
                i,
            ),
        n > 0 ==> ({
            let rows = rows_upto(groups, m, n);
            if group_size(groups, n - 1) == 0 {
                rows.last() == (ListRow::Header { number: n as usize })
            } else {
                rows.last() matches ListRow::Repo { group: g, repo: r, .. } && g == n - 1 && r
                    == group_size(groups, n - 1) - 1
            }
        }),
    decreases n,
{
    if n > 0 {
        lemma_rows_order(groups, m, n - 1);
        let prev = rows_upto(groups, m, n - 1);
        let cur = rows_upto(groups, m, n);
        let size = group_size(groups, n - 1);
        assert(size <= usize::MAX);
        assert forall|i: int| 0 <= i < cur.len() implies #[trigger] list_order_holds(groups, cur, i) by {
            if i < prev.len() {
                assert(cur[i] == prev[i]);
                assert(list_order_holds(groups, prev, i));
                if i > 0 {
                    assert(cur[i - 1] == prev[i - 1]);
                }
            } else if i == prev.len() {
                if i > 0 {
                    assert(cur[i - 1] == prev.last());
                }
            } else {
                let r = i - prev.len() - 1;
                if r > 0 {
                    assert(cur[i - 1] == (ListRow::Repo {
                        group: (n - 1) as usize,
                        repo: (r - 1) as usize,
                        selected: m.selected.contains(((n - 1) as usize, (r - 1) as usize)),
                        at_cursor: m.cursor_group == n - 1 && m.cursor_repo == r - 1,
                    }));
                }
            }
        }
        if size > 0 {
            assert(cur.last() == cur[cur.len() - 1]);
        }
    }
}

/// The repository list is in configuration order: it opens with the first
/// heading; each group's heading is followed by its repositories in order
/// and then by the next group's heading.
pub proof fn law_list_rows_in_order(groups: Seq<Group>, m: AppModel)
    requires
        sizes_fit(groups),
    ensures
        forall|i: int|
            0 <= i < rows_upto(groups, m, groups.len() as int).len() ==> #[trigger] list_order_holds(
                groups,
                rows_upto(groups, m, groups.len() as int),
                i,
            ),
{
    lemma_rows_order(groups, m, groups.len() as int);
}

} // verus!

verus! {

/// How the rows of the drawn timeline follow each other: the first row is a
/// group's start (or the hint); a repository row follows its group's start or
/// another repository of the same group; a later group's start follows an
/// arrow, and an arrow stands between a repository row and a group's start.
pub open spec fn timeline_order_holds(rows: Seq<GraphRow>, i: int) -> bool {
    &&& i == 0 ==> (rows[0] is GroupStart || rows[0] is Placeholder)
    &&& rows[i] is Repo ==> i > 0 && ((rows[i - 1] is GroupStart && rows[i - 1]->GroupStart_group
        == rows[i]->Repo_group) || (rows[i - 1] is Repo && rows[i - 1]->Repo_group == rows[i]->Repo_group))
    &&& rows[i] is GroupStart && i > 0 ==> rows[i - 1] is Arrow
    &&& rows[i] is Arrow ==> i > 0 && rows[i - 1] is Repo && i + 1 < rows.len() && rows[i + 1] is GroupStart
}

proof fn lemma_groups_rows_order(gs: Seq<GraphGroup>, n: int)
    requires
        0 <= n <= gs.len(),
        forall|j: int| 0 <= j < gs.len() ==> (#[trigger] gs[j]).repos@.len() > 0,
    ensures
        forall|i: int|
            0 <= i < groups_rows_upto(gs, n).len() ==> (#[trigger] groups_rows_upto(gs, n)[i] is Arrow
                ==> i + 1 < groups_rows_upto(gs, n).len()) && timeline_order_holds(
                groups_rows_upto(gs, n),
                i,
            ),
        n > 0 ==> groups_rows_upto(gs, n).last() is Repo,
        n > 0 ==> groups_rows_upto(gs, n)[0] is GroupStart,
    decreases n,
{
    if n > 0 {
        lemma_groups_rows_order(gs, n - 1);
        let prev = groups_rows_upto(gs, n - 1);
        let gg = gs[n - 1];
        let part = group_rows(gg, n == 1);
        let cur = groups_rows_upto(gs, n);
        assert(cur == prev + part);
        let off: int = if n == 1 { 1 } else { 2 };
        assert(n == 1 ==> prev.len() == 0);
        assert(n > 1 ==> prev.len() > 0);
        assert(part.len() == off + gg.repos@.len());
        assert(gg.repos@.len() > 0);
        assert forall|i: int| 0 <= i < cur.len() implies (#[trigger] cur[i] is Arrow ==> i + 1 < cur.len())
            && timeline_order_holds(cur, i) by {
            if i < prev.len() {
                assert(cur[i] == prev[i]);
                assert(timeline_order_holds(prev, i));
                if i > 0 {
                    assert(cur[i - 1] == prev[i - 1]);
                }
                if i + 1 < prev.len() {
                    assert(cur[i + 1] == prev[i + 1]);
                }
                assert(prev[i] is Arrow ==> i + 1 < prev.len());
            } else {
                let t = i - prev.len();
                assert(cur[i] == part[t]);
                if t > 0 {
                    assert(cur[i - 1] == part[t - 1]);
                } else if i > 0 {
                    assert(cur[i - 1] == prev.last());
                }
                if t + 1 < part.len() {
                    assert(cur[i + 1] == part[t + 1]);
                }
            }
        }
        assert(cur.last() == part[part.len() - 1]);
        if n == 1 {
            assert(cur[0] == part[0]);
        } else {
            assert(cur[0] == prev[0]);
        }
    }
}

/// The drawn timeline is laid out in order: it opens with the first group's
/// start (or the hint alone), each group's repositories follow its start,
/// and an arrow stands between one group's last repository and the next
/// group's start.
pub proof fn law_timeline_rows_in_order(graph: ExecutionGraph, groups: Seq<Group>, sel: Set<(usize, usize)>)
    requires
        sizes_fit(groups),
        is_timeline_of(graph, groups, sel),
    ensures
        forall|i: int|
            0 <= i < timeline_rows(graph).len() ==> #[trigger] timeline_order_holds(timeline_rows(graph), i),
{
    let gs = graph.groups@;
    lemma_timeline_groups(graph, groups, sel);
    assert forall|j: int| 0 <= j < gs.len() implies (#[trigger] gs[j]).repos@.len() > 0 by {
        assert(groups_faithful(gs, groups, sel));
    }
    lemma_timeline_order_from_groups(graph);
}

proof fn lemma_order_extends(body: Seq<GraphRow>, total_ms: u128, i: int)
    requires
        body.len() > 0,
        body[0] is GroupStart,
        body.last() is Repo,
        forall|k: int|
            0 <= k < body.len() ==> (#[trigger] body[k] is Arrow ==> k + 1 < body.len())
                && timeline_order_holds(body, k),
        0 <= i < body.len() + 2,
    ensures
        timeline_order_holds(body + seq![GraphRow::Blank, GraphRow::Total { total_ms }], i),
{
    let rows = body + seq![GraphRow::Blank, GraphRow::Total { total_ms }];
    if i < body.len() {
        assert(rows[i] == body[i]);
        assert(timeline_order_holds(body, i));
        if i > 0 {
            assert(rows[i - 1] == body[i - 1]);
        }
        if i + 1 < body.len() {
            assert(rows[i + 1] == body[i + 1]);
        }
    } else if i == body.len() {
        assert(rows[i] == GraphRow::Blank);
    } else {
        assert(rows[i] == (GraphRow::Total { total_ms }));
    }
}

proof fn lemma_timeline_order_from_groups(graph: ExecutionGraph)
    requires
        forall|j: int| 0 <= j < graph.groups@.len() ==> (#[trigger] graph.groups@[j]).repos@.len() > 0,
    ensures
        forall|i: int|
            0 <= i < timeline_rows(graph).len() ==> #[trigger] timeline_order_holds(timeline_rows(graph), i),
{
    let gs = graph.groups@;
    let n = gs.len() as int;
    let rows = timeline_rows(graph);
    if n > 0 {
        lemma_groups_rows_order(gs, n);
        let body = groups_rows_upto(gs, n);
        assert(rows == body + seq![GraphRow::Blank, GraphRow::Total { total_ms: graph.total_ms }]);
        assert forall|i: int| 0 <= i < rows.len() implies #[trigger] timeline_order_holds(rows, i) by {
            lemma_order_extends(body, graph.total_ms, i);
        }
    } else {
        assert(rows == seq![GraphRow::Placeholder]);
    }
}

} // verus!
