use vstd::prelude::*;

use crate::config::{Config, Group, Repository};
use crate::selection::Selection;

verus! {

/// The delay, in milliseconds, attached to repository `r` of group `g`.
pub open spec fn delta_of(groups: Seq<Group>, g: int, r: int) -> u64 {
    groups[g].repositories@[r].delta_ms
}

/// The number of repositories of group `g`.
pub open spec fn group_size(groups: Seq<Group>, g: int) -> int {
    groups[g].repositories@.len() as int
}

/// The greatest delay among the selected repositories of group `g` that come
/// before position `n`, or 0 when none of them is selected.
pub open spec fn max_delta_upto(groups: Seq<Group>, sel: Set<(usize, usize)>, g: int, n: int) -> u64
    decreases n,
{
    if n <= 0 {
        0
    } else {
        let m = max_delta_upto(groups, sel, g, n - 1);
        if sel.contains((g as usize, (n - 1) as usize)) && delta_of(groups, g, n - 1) > m {
            delta_of(groups, g, n - 1)
        } else {
            m
        }
    }
}

/// The greatest delay among the selected repositories of group `g`
/// (0 when none is selected): the time the next group waits for.
pub open spec fn group_wait(groups: Seq<Group>, sel: Set<(usize, usize)>, g: int) -> u64 {
    max_delta_upto(groups, sel, g, group_size(groups, g))
}

/// The indices, in order, of the selected repositories of group `g` that come
/// before position `n`.
pub open spec fn selected_upto(groups: Seq<Group>, sel: Set<(usize, usize)>, g: int, n: int) -> Seq<usize>
    decreases n,
{
    if n <= 0 {
        Seq::empty()
    } else {
        let s = selected_upto(groups, sel, g, n - 1);
        if sel.contains((g as usize, (n - 1) as usize)) {
            s.push((n - 1) as usize)
        } else {
            s
        }
    }
}

/// The indices, in order, of the selected repositories of group `g`.
pub open spec fn selected_in_group(groups: Seq<Group>, sel: Set<(usize, usize)>, g: int) -> Seq<usize> {
    selected_upto(groups, sel, g, group_size(groups, g))
}

/// The time at which group `n` starts: the sum of the waits of the groups
/// before it.
pub open spec fn start_of(groups: Seq<Group>, sel: Set<(usize, usize)>, n: int) -> nat
    decreases n,
{
    if n <= 0 {
        0
    } else {
        start_of(groups, sel, n - 1) + group_wait(groups, sel, n - 1) as nat
    }
}

/// The time the whole timeline takes: the sum of the waits of all groups.
pub open spec fn total_time(groups: Seq<Group>, sel: Set<(usize, usize)>) -> nat {
    start_of(groups, sel, groups.len() as int)
}

/// The indices, in order, of the groups before position `n` that hold at
/// least one selected repository.
pub open spec fn active_upto(groups: Seq<Group>, sel: Set<(usize, usize)>, n: int) -> Seq<usize>
    decreases n,
{
    if n <= 0 {
        Seq::empty()
    } else {
        let s = active_upto(groups, sel, n - 1);
        if selected_in_group(groups, sel, n - 1).len() > 0 {
            s.push((n - 1) as usize)
        } else {
            s
        }
    }
}

/// The indices, in order, of the groups that hold at least one selected
/// repository.
pub open spec fn active_groups(groups: Seq<Group>, sel: Set<(usize, usize)>) -> Seq<usize> {
    active_upto(groups, sel, groups.len() as int)
}

/// One group of the execution timeline.
pub struct GraphGroup {
    /// The index of the group in the configuration.
    pub group: usize,
    /// When the group starts, in milliseconds after the first group starts.
    pub start_ms: u128,
    /// The indices of the group's selected repositories, in order.
    pub repos: Vec<usize>,
}

/// The execution timeline of a selection.
pub struct ExecutionGraph {
    /// The groups that hold a selected repository, in order.
    pub groups: Vec<GraphGroup>,
    /// The estimated time of the whole deployment, in milliseconds.
    pub total_ms: u128,
}

proof fn lemma_wait_bound(i: int, acc: int, m: int)
    by (nonlinear_arith)
    requires
        0 <= i < 0x1_0000_0000_0000_0000,
        0 <= acc <= i * 0xffff_ffff_ffff_ffff,
        0 <= m <= 0xffff_ffff_ffff_ffff,
    ensures
        acc + m <= (i + 1) * 0xffff_ffff_ffff_ffff,
        (i + 1) * 0xffff_ffff_ffff_ffff <= 0xffff_ffff_ffff_ffff_ffff_ffff_ffff_ffff,
{
}

/// The selected repositories of group `g`, in order, and the greatest delay
/// among them (0 when there are none).
pub fn scan_group(config: &Config, selected: &Selection, g: usize) -> (res: (Vec<usize>, u64))
    requires
        g < config.groups@.len(),
    ensures
        res.0@ == selected_in_group(config.groups@, selected@, g as int),
        res.1 == group_wait(config.groups@, selected@, g as int),
{
    let repos = &config.groups[g].repositories;
    let mut chosen: Vec<usize> = Vec::new();
    let mut max_delta: u64 = 0;
    let mut r: usize = 0;
    while r < repos.len()
        invariant
            g < config.groups@.len(),
            repos@ == config.groups@[g as int].repositories@,
            r <= repos@.len(),
            chosen@ == selected_upto(config.groups@, selected@, g as int, r as int),
            max_delta == max_delta_upto(config.groups@, selected@, g as int, r as int),
        decreases repos@.len() - r,
    {
        if selected.contains(g, r) {
            chosen.push(r);
            if repos[r].delta_ms > max_delta {
                max_delta = repos[r].delta_ms;
            }
        }
        r = r + 1;
    }
    (chosen, max_delta)
}

/// The greatest delay among the selected repositories of group `g`, 0 when
/// none of them is selected.
pub fn group_max_delta(config: &Config, selected: &Selection, g: usize) -> (d: u64)
    requires
        g < config.groups@.len(),
    ensures
        d == group_wait(config.groups@, selected@, g as int),
{
    let (_, d) = scan_group(config, selected, g);
    d
}

/// The execution timeline: each group that holds a selected repository, with
/// the time it starts and its selected repositories, and the total time.
pub fn execution_graph(config: &Config, selected: &Selection) -> (graph: ExecutionGraph)
    ensures
        graph.total_ms == total_time(config.groups@, selected@),
        graph.groups@.len() == active_groups(config.groups@, selected@).len(),
        forall|j: int|
            0 <= j < graph.groups@.len() ==> {
                let gg = #[trigger] graph.groups@[j];
                &&& gg.group == active_groups(config.groups@, selected@)[j]
                &&& gg.start_ms == start_of(config.groups@, selected@, gg.group as int)
                &&& gg.repos@ == selected_in_group(config.groups@, selected@, gg.group as int)
            },
{
    let ghost groups = config.groups@;
    let ghost sel = selected@;
    let mut out: Vec<GraphGroup> = Vec::new();
    let mut acc: u128 = 0;
    let mut g: usize = 0;
    while g < config.groups.len()
        invariant
            groups == config.groups@,
            sel == selected@,
            g <= groups.len(),
            acc == start_of(groups, sel, g as int),
            acc <= g * 0xffff_ffff_ffff_ffffu128,
            out@.len() == active_upto(groups, sel, g as int).len(),
            forall|j: int|
                0 <= j < out@.len() ==> {
                    let gg = #[trigger] out@[j];
                    &&& gg.group == active_upto(groups, sel, g as int)[j]
                    &&& gg.start_ms == start_of(groups, sel, gg.group as int)
                    &&& gg.repos@ == selected_in_group(groups, sel, gg.group as int)
                },
        decreases groups.len() - g,
    {
        let (repos, max_delta) = scan_group(config, selected, g);
        let ghost before = out@;
        if repos.len() > 0 {
            out.push(GraphGroup { group: g, start_ms: acc, repos });
        }
        proof {
            lemma_wait_bound(g as int, acc as int, max_delta as int);
            assert(forall|j: int| 0 <= j < before.len() ==> out@[j] == before[j]);
        }
        acc = acc + max_delta as u128;
        g = g + 1;
    }
    ExecutionGraph { groups: out, total_ms: acc }
}

} // verus!

verus! {

proof fn lemma_max_delta_upto(groups: Seq<Group>, sel: Set<(usize, usize)>, g: int, n: int)
    requires
        0 <= g,
        0 <= n,
    ensures
        forall|r: int|
            0 <= r < n && sel.contains((g as usize, r as usize)) ==> delta_of(groups, g, r)
                <= #[trigger] max_delta_upto(groups, sel, g, n),
        selected_upto(groups, sel, g, n).len() == 0 ==> max_delta_upto(groups, sel, g, n) == 0,
        max_delta_upto(groups, sel, g, n) == 0 || exists|r: int|
            0 <= r < n && sel.contains((g as usize, r as usize)) && delta_of(groups, g, r)
                == max_delta_upto(groups, sel, g, n),
    decreases n,
{
    if n > 0 {
        lemma_max_delta_upto(groups, sel, g, n - 1);
        let m = max_delta_upto(groups, sel, g, n - 1);
        assert forall|r: int|
            0 <= r < n && sel.contains((g as usize, r as usize)) implies delta_of(groups, g, r)
                <= max_delta_upto(groups, sel, g, n) by {
            if r < n - 1 {
                assert(delta_of(groups, g, r) <= m);
            }
        }
        if max_delta_upto(groups, sel, g, n) != 0 {
            if max_delta_upto(groups, sel, g, n) != m {
                assert(sel.contains((g as usize, (n - 1) as usize)));
            } else {
                let r = choose|r: int|
                    0 <= r < n - 1 && sel.contains((g as usize, r as usize)) && delta_of(groups, g, r)
                        == m;
                assert(0 <= r < n);
            }
        }
    }
}

/// The time a group makes the next one wait is the longest delay among its
/// selected repositories: no selected repository of the group has a longer
/// delay, and the wait is the delay of one of them, or 0 when none is
/// selected.
pub proof fn law_wait_is_longest_selected_delta(groups: Seq<Group>, sel: Set<(usize, usize)>, g: int)
    requires
        0 <= g < groups.len(),
    ensures
        forall|r: int|
            0 <= r < group_size(groups, g) && sel.contains((g as usize, r as usize))
                ==> delta_of(groups, g, r) <= group_wait(groups, sel, g),
        selected_in_group(groups, sel, g).len() == 0 ==> group_wait(groups, sel, g) == 0,
        group_wait(groups, sel, g) == 0 || exists|r: int|
            0 <= r < group_size(groups, g) && sel.contains((g as usize, r as usize))
                && delta_of(groups, g, r) == group_wait(groups, sel, g),
{
    lemma_max_delta_upto(groups, sel, g, group_size(groups, g));
}

pub(crate) proof fn lemma_active_upto(groups: Seq<Group>, sel: Set<(usize, usize)>, n: int)
    requires
        0 <= n <= groups.len(),
        groups.len() <= usize::MAX,
    ensures
        forall|i: int|
            0 <= i < active_upto(groups, sel, n).len() ==> {
                let a = #[trigger] active_upto(groups, sel, n)[i];
                &&& a < n
                &&& selected_in_group(groups, sel, a as int).len() > 0
            },
        forall|i: int, k: int|
            0 <= i < k < active_upto(groups, sel, n).len() ==> active_upto(groups, sel, n)[i]
                < active_upto(groups, sel, n)[k],
        forall|g: int|
            0 <= g < n && #[trigger] selected_in_group(groups, sel, g).len() > 0 ==> active_upto(
                groups,
                sel,
                n,
            ).contains(g as usize),
    decreases n,
{
    if n > 0 {
        lemma_active_upto(groups, sel, n - 1);
        let prev = active_upto(groups, sel, n - 1);
        let cur = active_upto(groups, sel, n);
        assert forall|g: int|
            0 <= g < n && #[trigger] selected_in_group(groups, sel, g).len() > 0 implies cur.contains(
            g as usize) by {
            if g < n - 1 {
                assert(prev.contains(g as usize));
                let t = choose|t: int| 0 <= t < prev.len() && prev[t] == g as usize;
                assert(cur[t] == g as usize);
            } else {
                assert(cur[prev.len() as int] == g as usize);
            }
        }
    }
}

proof fn lemma_start_flat(groups: Seq<Group>, sel: Set<(usize, usize)>, a: int, b: int)
    requires
        0 <= a <= b,
        forall|g: int| a <= g < b ==> #[trigger] group_wait(groups, sel, g) == 0,
    ensures
        start_of(groups, sel, b) == start_of(groups, sel, a),
    decreases b - a,
{
    if b > a {
        lemma_start_flat(groups, sel, a, b - 1);
        assert(group_wait(groups, sel, b - 1) == 0);
    }
}

/// The first group of the timeline starts at once.
pub proof fn law_first_group_starts_at_zero(groups: Seq<Group>, sel: Set<(usize, usize)>)
    requires
        groups.len() <= usize::MAX,
        active_groups(groups, sel).len() > 0,
    ensures
        start_of(groups, sel, active_groups(groups, sel)[0] as int) == 0,
{
    let act = active_groups(groups, sel);
    lemma_active_upto(groups, sel, groups.len() as int);
    let first = act[0] as int;
    assert forall|g: int| 0 <= g < first implies #[trigger] group_wait(groups, sel, g) == 0 by {
        law_wait_is_longest_selected_delta(groups, sel, g);
        if selected_in_group(groups, sel, g).len() > 0 {
            assert(act.contains(g as usize));
            let t = choose|t: int| 0 <= t < act.len() && act[t] == g as usize;
            if t > 0 {
                assert(act[0] < act[t]);
            }
        }
    }
    lemma_start_flat(groups, sel, 0, first);
}

/// A group of the timeline starts exactly when the previous one's wait is
/// over: the start of the previous group plus the longest delay among its
/// selected repositories.
pub proof fn law_next_group_waits_for_previous(groups: Seq<Group>, sel: Set<(usize, usize)>, j: int)
    requires
        groups.len() <= usize::MAX,
        0 <= j,
        j + 1 < active_groups(groups, sel).len(),
    ensures
        start_of(groups, sel, active_groups(groups, sel)[j + 1] as int) == start_of(
            groups,
            sel,
            active_groups(groups, sel)[j] as int,
        ) + group_wait(groups, sel, active_groups(groups, sel)[j] as int),
{
    let act = active_groups(groups, sel);
    lemma_active_upto(groups, sel, groups.len() as int);
    let a = act[j] as int;
    let b = act[j + 1] as int;
    assert(act[j] < act[j + 1]);
    assert forall|g: int| a + 1 <= g < b implies #[trigger] group_wait(groups, sel, g) == 0 by {
        law_wait_is_longest_selected_delta(groups, sel, g);
        if selected_in_group(groups, sel, g).len() > 0 {
            assert(act.contains(g as usize));
            let t = choose|t: int| 0 <= t < act.len() && act[t] == g as usize;
            if t <= j {
                if t < j {
                    assert(act[t] < act[j]);
                }
            } else if t == j + 1 {
            } else {
                assert(act[j + 1] < act[t]);
            }
        }
    }
    lemma_start_flat(groups, sel, a + 1, b);
}

/// The whole timeline takes as long as its last group's start plus that
/// group's wait, and nothing when no repository is selected.
pub proof fn law_total_ends_with_last_wait(groups: Seq<Group>, sel: Set<(usize, usize)>)
    requires
        groups.len() <= usize::MAX,
    ensures
        active_groups(groups, sel).len() == 0 ==> total_time(groups, sel) == 0,
        active_groups(groups, sel).len() > 0 ==> total_time(groups, sel) == start_of(
            groups,
            sel,
            active_groups(groups, sel).last() as int,
        ) + group_wait(groups, sel, active_groups(groups, sel).last() as int),
{
    let act = active_groups(groups, sel);
    lemma_active_upto(groups, sel, groups.len() as int);
    let from = if act.len() == 0 { 0 } else { act.last() as int + 1 };
    assert forall|g: int| from <= g < groups.len() implies #[trigger] group_wait(groups, sel, g) == 0 by {
        law_wait_is_longest_selected_delta(groups, sel, g);
        if selected_in_group(groups, sel, g).len() > 0 {
            assert(act.contains(g as usize));
            let t = choose|t: int| 0 <= t < act.len() && act[t] == g as usize;
            if t < act.len() - 1 {
                assert(act[t] < act[act.len() - 1]);
            }
        }
    }
    lemma_start_flat(groups, sel, from, groups.len() as int);
}

} // verus!

verus! {

/// Whether `(group, repo)` names a repository of the configuration.
pub open spec fn position_exists(groups: Seq<Group>, k: (usize, usize)) -> bool {
    &&& (k.0 as int) < groups.len()
    &&& (k.1 as int) < group_size(groups, k.0 as int)
}

/// Whether the repository at `k` is marked as a dry run in the configuration.
pub open spec fn marked_dry(groups: Seq<Group>, k: (usize, usize)) -> bool {
    groups[k.0 as int].repositories@[k.1 as int].dry
}

/// Selects every repository of the configuration, and marks as dry runs those
/// that the configuration marks so.
pub fn select_all(config: &Config) -> (res: (Selection, Selection))
    ensures
        res.0.wf(),
        res.1.wf(),
        forall|k: (usize, usize)| #[trigger]
            res.0@.contains(k) <==> position_exists(config.groups@, k),
        forall|k: (usize, usize)| #[trigger]
            res.1@.contains(k) <==> position_exists(config.groups@, k) && marked_dry(
                config.groups@,
                k,
            ),
{
    let ghost groups = config.groups@;
    let mut all = Selection::new();
    let mut dry = Selection::new();
    let mut g: usize = 0;
    while g < config.groups.len()
        invariant
            groups == config.groups@,
            g <= groups.len(),
            all.wf(),
            dry.wf(),
            forall|k: (usize, usize)| #[trigger]
                all@.contains(k) <==> (k.0 < g && position_exists(groups, k)),
            forall|k: (usize, usize)| #[trigger]
                dry@.contains(k) <==> (k.0 < g && position_exists(groups, k) && marked_dry(groups, k)),
        decreases groups.len() - g,
    {
        let repos = &config.groups[g].repositories;
        let mut r: usize = 0;
        while r < repos.len()
            invariant
                groups == config.groups@,
                g < groups.len(),
                repos@ == groups[g as int].repositories@,
                r <= repos@.len(),
                all.wf(),
                dry.wf(),
                forall|k: (usize, usize)| #[trigger]
                    all@.contains(k) <==> ((k.0 < g || (k.0 == g && k.1 < r)) && position_exists(
                        groups,
                        k,
                    )),
                forall|k: (usize, usize)| #[trigger]
                    dry@.contains(k) <==> ((k.0 < g || (k.0 == g && k.1 < r)) && position_exists(
                        groups,
                        k,
                    ) && marked_dry(groups, k)),
            decreases repos@.len() - r,
        {
            all.insert(g, r);
            if repos[r].dry {
                dry.insert(g, r);
            }
            r = r + 1;
        }
        g = g + 1;
    }
    (all, dry)
}

/// What one group's turn of a deployment consists of.
pub struct RepoTask {
    /// The index of the repository in its group.
    pub repo: usize,
    /// Whether the repository is only simulated.
    pub dry: bool,
}

/// The repositories that one group deploys, and how long the next group waits.
pub struct GroupPlan {
    pub tasks: Vec<RepoTask>,
    /// The wait, in milliseconds, before the next group may start.
    pub wait_ms: u64,
}

/// The plan of group `g`: its selected repositories in order, each with its
/// dry-run mark, and the longest delay among them.
pub fn plan_group(config: &Config, selected: &Selection, dry: &Selection, g: usize) -> (plan: GroupPlan)
    requires
        g < config.groups@.len(),
    ensures
        plan.wait_ms == group_wait(config.groups@, selected@, g as int),
        plan.tasks@.len() == selected_in_group(config.groups@, selected@, g as int).len(),
        forall|i: int|
            0 <= i < plan.tasks@.len() ==> {
                let t = #[trigger] plan.tasks@[i];
                &&& t.repo == selected_in_group(config.groups@, selected@, g as int)[i]
                &&& t.dry == dry@.contains((g, t.repo))
            },
{
    let (chosen, wait_ms) = scan_group(config, selected, g);
    let mut tasks: Vec<RepoTask> = Vec::new();
    let mut i: usize = 0;
    while i < chosen.len()
        invariant
            i <= chosen@.len(),
            tasks@.len() == i,
            forall|t: int|
                0 <= t < i ==> {
                    let x = #[trigger] tasks@[t];
                    &&& x.repo == chosen@[t]
                    &&& x.dry == dry@.contains((g, x.repo))
                },
        decreases chosen@.len() - i,
    {
        let r = chosen[i];
        let d = dry.contains(g, r);
        tasks.push(RepoTask { repo: r, dry: d });
        i = i + 1;
    }
    GroupPlan { tasks, wait_ms }
}

/// A copy of the repository at `(g, r)` whose dry-run mark is `dry`.
fn copy_repository(config: &Config, g: usize, r: usize, dry: bool) -> (out: Repository)
    requires
        position_exists(config.groups@, (g, r)),
    ensures
        out.path == config.groups@[g as int].repositories@[r as int].path,
        out.delta_ms == delta_of(config.groups@, g as int, r as int),
        out.dry == dry,
{
    let src = &config.groups[g].repositories[r];
    Repository { path: src.path.clone(), delta_ms: src.delta_ms, dry }
}

/// Whether `copy` holds, in order, the selected repositories of group `g`,
/// each with the path and delay it has in the configuration and the dry-run
/// mark that `dry` gives its position.
pub open spec fn copies_selection(
    groups: Seq<Group>,
    sel: Set<(usize, usize)>,
    dry: Set<(usize, usize)>,
    g: usize,
    copy: Seq<Repository>,
) -> bool {
    let chosen = selected_in_group(groups, sel, g as int);
    &&& copy.len() == chosen.len()
    &&& forall|i: int|
        0 <= i < chosen.len() ==> {
            let rep = #[trigger] copy[i];
            &&& rep.path == groups[g as int].repositories@[chosen[i] as int].path
            &&& rep.delta_ms == delta_of(groups, g as int, chosen[i] as int)
            &&& rep.dry == dry.contains((g, chosen[i]))
        }
}

/// The configuration that deploys exactly the selection: each group keeps its
/// selected repositories in order, each marked as a dry run when `dry` holds
/// its position; groups without a selected repository are left out; the root
/// path becomes `root_path`, and the branch and commit message stay.
pub fn filter_config(config: &Config, selected: &Selection, dry: &Selection, root_path: String) -> (out: Config)
    ensures
        out.root_path == Some(root_path),
        out.branch == config.branch,
        out.commit_message == config.commit_message,
        out.groups@.len() == active_groups(config.groups@, selected@).len(),
        forall|j: int|
            0 <= j < out.groups@.len() ==> copies_selection(
                config.groups@,
                selected@,
                dry@,
                active_groups(config.groups@, selected@)[j],
                (#[trigger] out.groups@[j]).repositories@,
            ),
{
    let ghost groups = config.groups@;
    let ghost sel = selected@;
    let mut new_groups: Vec<Group> = Vec::new();
    let mut g: usize = 0;
    while g < config.groups.len()
        invariant
            groups == config.groups@,
            sel == selected@,
            g <= groups.len(),
            new_groups@.len() == active_upto(groups, sel, g as int).len(),
            forall|j: int|
                0 <= j < new_groups@.len() ==> copies_selection(
                    groups,
                    sel,
                    dry@,
                    active_upto(groups, sel, g as int)[j],
                    (#[trigger] new_groups@[j]).repositories@,
                ),
        decreases groups.len() - g,
    {
        let (chosen, _) = scan_group(config, selected, g);
        proof {
            lemma_selected_upto_bounds(groups, sel, g as int, group_size(groups, g as int));
        }
        let mut repos: Vec<Repository> = Vec::new();
        let mut i: usize = 0;
        while i < chosen.len()
            invariant
                groups == config.groups@,
                g < groups.len(),
                i <= chosen@.len(),
                chosen@ == selected_in_group(groups, sel, g as int),
                forall|t: int|
                    0 <= t < chosen@.len() ==> (#[trigger] chosen@[t] as int) < group_size(
                        groups,
                        g as int,
                    ),
                repos@.len() == i,
                forall|t: int|
                    0 <= t < i ==> {
                        let rep = #[trigger] repos@[t];
                        &&& rep.path == groups[g as int].repositories@[chosen@[t] as int].path
                        &&& rep.delta_ms == delta_of(groups, g as int, chosen@[t] as int)
                        &&& rep.dry == dry@.contains((g, chosen@[t]))
                    },
            decreases chosen@.len() - i,
        {
            let r = chosen[i];
            let d = dry.contains(g, r);
            let rep = copy_repository(config, g, r, d);
            repos.push(rep);
            i = i + 1;
        }
        let ghost before = new_groups@;
        let ghost old_g = g;
        let ghost built = repos@;
        assert(copies_selection(groups, sel, dry@, g, built));
        if repos.len() > 0 {
            new_groups.push(Group { repositories: repos });
        }
        g = g + 1;
        proof {
            let prev = active_upto(groups, sel, old_g as int);
            let next = active_upto(groups, sel, g as int);
            assert(forall|j: int| 0 <= j < prev.len() ==> next[j] == prev[j]);
            assert forall|j: int| 0 <= j < new_groups@.len() implies copies_selection(
                groups,
                sel,
                dry@,
                next[j],
                (#[trigger] new_groups@[j]).repositories@,
            ) by {
                if j < before.len() {
                    assert(new_groups@[j] == before[j]);
                    assert(next[j] == prev[j]);
                } else {
                    assert(next[j] == old_g);
                    assert(new_groups@[j].repositories@ == built);
                }
            }
        }
    }
    Config {
        groups: new_groups,
        root_path: Some(root_path),
        branch: config.branch.clone(),
        commit_message: config.commit_message.clone(),
    }
}

pub(crate) proof fn lemma_selected_upto_bounds(groups: Seq<Group>, sel: Set<(usize, usize)>, g: int, n: int)
    requires
        0 <= n,
    ensures
        forall|t: int|
            0 <= t < selected_upto(groups, sel, g, n).len() ==> (#[trigger] selected_upto(
                groups,
                sel,
                g,
                n,
            )[t] as int) < n,
        forall|t: int|
            0 <= t < selected_upto(groups, sel, g, n).len() ==> sel.contains(
                (g as usize, #[trigger] selected_upto(groups, sel, g, n)[t]),
            ),
    decreases n,
{
    if n > 0 {
        lemma_selected_upto_bounds(groups, sel, g, n - 1);
    }
}

} // verus!

verus! {

proof fn lemma_lengths_upto(groups: Seq<Group>, sel: Set<(usize, usize)>, g: int, n: int)
    requires
        0 <= n,
    ensures
        selected_upto(groups, sel, g, n).len() <= n,
        active_upto(groups, sel, n).len() <= n,
    decreases n,
{
    if n > 0 {
        lemma_lengths_upto(groups, sel, g, n - 1);
    }
}

pub(crate) proof fn lemma_selected_upto_complete(groups: Seq<Group>, sel: Set<(usize, usize)>, g: int, n: int, r: int)
    requires
        0 <= r < n,
        r <= usize::MAX,
        0 <= g <= usize::MAX,
        sel.contains((g as usize, r as usize)),
    ensures
        selected_upto(groups, sel, g, n).contains(r as usize),
    decreases n,
{
    if r < n - 1 {
        lemma_selected_upto_complete(groups, sel, g, n - 1, r);
        let prev = selected_upto(groups, sel, g, n - 1);
        let t = choose|t: int| 0 <= t < prev.len() && prev[t] == r as usize;
        assert(selected_upto(groups, sel, g, n)[t] == r as usize);
    } else {
        let prev = selected_upto(groups, sel, g, n - 1);
        assert(selected_upto(groups, sel, g, n)[prev.len() as int] == r as usize);
    }
}

/// The configuration written for a run in the background holds exactly the
/// selection: each of its repositories is a selected repository of the
/// original configuration, with the same path and delay and a dry-run mark
/// exactly when `dry` holds its position; and each selected repository of the
/// original configuration is one of them.
pub proof fn law_filtered_config_holds_the_selection(
    groups: Seq<Group>,
    sel: Set<(usize, usize)>,
    dry: Set<(usize, usize)>,
    out: Seq<Group>,
)
    requires
        groups.len() <= usize::MAX,
        forall|g: int| 0 <= g < groups.len() ==> group_size(groups, g) <= usize::MAX,
        out.len() == active_groups(groups, sel).len(),
        forall|j: int|
            0 <= j < out.len() ==> copies_selection(
                groups,
                sel,
                dry,
                active_groups(groups, sel)[j],
                (#[trigger] out[j]).repositories@,
            ),
    ensures
        forall|k: (usize, usize)|
            #[trigger] position_exists(out, k) ==> {
                let g = active_groups(groups, sel)[k.0 as int];
                let r = selected_in_group(groups, sel, g as int)[k.1 as int];
                &&& position_exists(groups, (g, r))
                &&& sel.contains((g, r))
                &&& out[k.0 as int].repositories@[k.1 as int].path == groups[g as int].repositories@[r as int].path
                &&& delta_of(out, k.0 as int, k.1 as int) == delta_of(groups, g as int, r as int)
                &&& marked_dry(out, k) == dry.contains((g, r))
            },
        forall|g: usize, r: usize|
            position_exists(groups, (g, r)) && #[trigger] sel.contains((g, r)) ==> exists|k: (usize, usize)|
                #[trigger] position_exists(out, k) && active_groups(groups, sel)[k.0 as int] == g
                    && selected_in_group(groups, sel, g as int)[k.1 as int] == r,
{
    let act = active_groups(groups, sel);
    lemma_active_upto(groups, sel, groups.len() as int);
    assert forall|k: (usize, usize)| #[trigger] position_exists(out, k) implies {
        let g = act[k.0 as int];
        let r = selected_in_group(groups, sel, g as int)[k.1 as int];
        &&& position_exists(groups, (g, r))
        &&& sel.contains((g, r))
        &&& out[k.0 as int].repositories@[k.1 as int].path == groups[g as int].repositories@[r as int].path
        &&& delta_of(out, k.0 as int, k.1 as int) == delta_of(groups, g as int, r as int)
        &&& marked_dry(out, k) == dry.contains((g, r))
    } by {
        let j = k.0 as int;
        let g = act[j];
        assert(copies_selection(groups, sel, dry, g, out[j].repositories@));
        lemma_selected_upto_bounds(groups, sel, g as int, group_size(groups, g as int));
    }
    assert forall|g: usize, r: usize|
        position_exists(groups, (g, r)) && #[trigger] sel.contains((g, r)) implies exists|k: (usize, usize)|
            #[trigger] position_exists(out, k) && act[k.0 as int] == g && selected_in_group(
                groups,
                sel,
                g as int,
            )[k.1 as int] == r by {
        lemma_selected_upto_complete(groups, sel, g as int, group_size(groups, g as int), r as int);
        let chosen = selected_in_group(groups, sel, g as int);
        let i = choose|i: int| 0 <= i < chosen.len() && chosen[i] == r;
        assert(act.contains(g));
        let j = choose|j: int| 0 <= j < act.len() && act[j] == g;
        lemma_lengths_upto(groups, sel, g as int, group_size(groups, g as int));
        lemma_lengths_upto(groups, sel, 0, groups.len() as int);
        assert(copies_selection(groups, sel, dry, act[j], out[j].repositories@));
        assert(position_exists(out, (j as usize, i as usize)));
    }
}

} // verus!
