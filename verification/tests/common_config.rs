use deployer::schedule::{execution_graph, filter_config, group_max_delta, plan_group, select_all};
use deployer::{default_branch, default_commit_message, Config, Group, Repository, Selection};

fn repo(path: &str, delta_ms: u64, dry: bool) -> Repository {
    Repository { path: path.to_string(), delta_ms, dry }
}

/// The configuration of the README: two groups.
fn readme_config() -> Config {
    Config {
        groups: vec![
            Group {
                repositories: vec![repo("backend-api", 30_000, false), repo("worker-service", 120_000, false)],
            },
            Group { repositories: vec![repo("frontend-app", 0, false)] },
        ],
        root_path: Some("../projects".to_string()),
        branch: "dev".to_string(),
        commit_message: "Trigger deploy".to_string(),
    }
}

#[test]
fn defaults_are_dev_and_force_deploy() {
    assert_eq!(default_branch(), "dev");
    assert_eq!(default_commit_message(), "Force deploy of dev");
}

#[test]
fn root_path_defaults_to_parent_directory() {
    let mut c = readme_config();
    assert_eq!(c.root_path_or_default(), "../projects");
    c.root_path = None;
    assert_eq!(c.root_path_or_default(), "..");
}

#[test]
fn selection_insert_remove_toggle_clear() {
    let mut s = Selection::new();
    assert!(s.is_empty());
    s.insert(0, 1);
    s.insert(0, 1);
    assert!(s.contains(0, 1));
    assert!(!s.contains(1, 0));
    assert!(!s.is_empty());
    s.toggle(1, 0);
    assert!(s.contains(1, 0));
    s.toggle(1, 0);
    assert!(!s.contains(1, 0));
    s.remove(0, 1);
    assert!(!s.contains(0, 1));
    assert!(s.is_empty());
    s.insert(2, 2);
    s.insert(3, 3);
    s.clear();
    assert!(s.is_empty());
    assert!(!s.contains(2, 2));
}

#[test]
fn next_group_waits_for_longest_delta() {
    let c = readme_config();
    let (all, _) = select_all(&c);
    let graph = execution_graph(&c, &all);
    assert_eq!(graph.groups.len(), 2);
    assert_eq!(graph.groups[0].group, 0);
    assert_eq!(graph.groups[0].start_ms, 0);
    assert_eq!(graph.groups[0].repos, vec![0, 1]);
    assert_eq!(graph.groups[1].group, 1);
    assert_eq!(graph.groups[1].start_ms, 120_000);
    assert_eq!(graph.groups[1].repos, vec![0]);
    assert_eq!(graph.total_ms, 120_000);
    assert_eq!(group_max_delta(&c, &all, 0), 120_000);
    assert_eq!(group_max_delta(&c, &all, 1), 0);
}

#[test]
fn graph_skips_unselected_groups_and_repos() {
    let c = readme_config();
    let mut sel = Selection::new();
    sel.insert(1, 0);
    let graph = execution_graph(&c, &sel);
    assert_eq!(graph.groups.len(), 1);
    assert_eq!(graph.groups[0].group, 1);
    assert_eq!(graph.groups[0].start_ms, 0);
    assert_eq!(graph.total_ms, 0);

    let mut sel = Selection::new();
    sel.insert(0, 0);
    sel.insert(1, 0);
    let graph = execution_graph(&c, &sel);
    assert_eq!(graph.groups[0].repos, vec![0]);
    assert_eq!(graph.groups[1].start_ms, 30_000);
    assert_eq!(graph.total_ms, 30_000);
    assert_eq!(group_max_delta(&c, &sel, 0), 30_000);
}

#[test]
fn empty_selection_has_empty_graph() {
    let c = readme_config();
    let graph = execution_graph(&c, &Selection::new());
    assert!(graph.groups.is_empty());
    assert_eq!(graph.total_ms, 0);
}

#[test]
fn graph_total_does_not_overflow_u64() {
    let c = Config {
        groups: vec![
            Group { repositories: vec![repo("a", u64::MAX, false)] },
            Group { repositories: vec![repo("b", u64::MAX, false)] },
        ],
        root_path: None,
        branch: "dev".to_string(),
        commit_message: "m".to_string(),
    };
    let (all, _) = select_all(&c);
    let graph = execution_graph(&c, &all);
    assert_eq!(graph.groups[1].start_ms, u64::MAX as u128);
    assert_eq!(graph.total_ms, 2 * (u64::MAX as u128));
}

#[test]
fn select_all_marks_dry_repositories() {
    let mut c = readme_config();
    c.groups[0].repositories[1].dry = true;
    let (all, dry) = select_all(&c);
    assert!(all.contains(0, 0));
    assert!(all.contains(0, 1));
    assert!(all.contains(1, 0));
    assert!(!all.contains(1, 1));
    assert!(!all.contains(2, 0));
    assert!(dry.contains(0, 1));
    assert!(!dry.contains(0, 0));
    assert!(!dry.contains(1, 0));
}

#[test]
fn plan_group_lists_selected_with_dry_marks() {
    let c = readme_config();
    let mut sel = Selection::new();
    sel.insert(0, 1);
    sel.insert(0, 0);
    let mut dry = Selection::new();
    dry.insert(0, 1);
    let plan = plan_group(&c, &sel, &dry, 0);
    assert_eq!(plan.tasks.len(), 2);
    assert_eq!(plan.tasks[0].repo, 0);
    assert!(!plan.tasks[0].dry);
    assert_eq!(plan.tasks[1].repo, 1);
    assert!(plan.tasks[1].dry);
    assert_eq!(plan.wait_ms, 120_000);
    let plan = plan_group(&c, &sel, &dry, 1);
    assert!(plan.tasks.is_empty());
    assert_eq!(plan.wait_ms, 0);
}

#[test]
fn filter_config_keeps_only_the_selection() {
    let c = readme_config();
    let mut sel = Selection::new();
    sel.insert(0, 1);
    let mut dry = Selection::new();
    dry.insert(0, 1);
    let out = filter_config(&c, &sel, &dry, "/srv".to_string());
    assert_eq!(out.groups.len(), 1);
    assert_eq!(out.groups[0].repositories.len(), 1);
    assert_eq!(out.groups[0].repositories[0].path, "worker-service");
    assert_eq!(out.groups[0].repositories[0].delta_ms, 120_000);
    assert!(out.groups[0].repositories[0].dry);
    assert_eq!(out.root_path, Some("/srv".to_string()));
    assert_eq!(out.branch, "dev");
    assert_eq!(out.commit_message, "Trigger deploy");
}

#[test]
fn headless_run_of_filtered_config_deploys_the_selection() {
    let c = readme_config();
    let mut sel = Selection::new();
    sel.insert(0, 0);
    sel.insert(1, 0);
    let mut dry = Selection::new();
    dry.insert(1, 0);
    let out = filter_config(&c, &sel, &dry, "..".to_string());
    let (all, out_dry) = select_all(&out);
    assert_eq!(out.groups.len(), 2);
    assert_eq!(out.groups[0].repositories[0].path, "backend-api");
    assert_eq!(out.groups[1].repositories[0].path, "frontend-app");
    assert!(all.contains(0, 0) && all.contains(1, 0) && !all.contains(0, 1));
    assert!(out_dry.contains(1, 0) && !out_dry.contains(0, 0));
    let graph = execution_graph(&out, &all);
    assert_eq!(graph.total_ms, 30_000);
}
