use deployer::git::{CommandOutcome, DeployAction, GitStep};
use deployer::Git;

fn args_of(action: &DeployAction) -> Vec<String> {
    match action {
        DeployAction::Run(cmd) => {
            assert_eq!(cmd.program, "git");
            cmd.args.clone()
        }
        DeployAction::Finished => panic!("expected a command"),
    }
}

#[test]
fn check_exists_needs_directory_and_git_dir() {
    assert!(Git::check_exists(true, true));
    assert!(!Git::check_exists(true, false));
    assert!(!Git::check_exists(false, true));
    assert!(!Git::check_exists(false, false));
}

#[test]
fn deploy_commands_match_the_workflow() {
    let c = Git::deploy_command(GitStep::Checkout, "main", "msg");
    assert_eq!(c.program, "git");
    assert_eq!(c.args, vec!["checkout", "main"]);
    assert_eq!(Git::deploy_command(GitStep::Pull, "main", "msg").args, vec!["pull"]);
    assert_eq!(
        Git::deploy_command(GitStep::Commit, "main", "Trigger deploy").args,
        vec!["commit", "--allow-empty", "-m", "Trigger deploy"]
    );
    assert_eq!(Git::deploy_command(GitStep::Push, "main", "msg").args, vec!["push"]);
}

#[test]
fn failure_contexts() {
    assert_eq!(Git::failure_context(GitStep::Checkout, "dev"), "Failed to checkout dev branch");
    assert_eq!(Git::failure_context(GitStep::Pull, "dev"), "Failed to pull latest changes");
    assert_eq!(Git::failure_context(GitStep::Commit, "dev"), "Failed to create empty commit");
    assert_eq!(Git::failure_context(GitStep::Push, "dev"), "Failed to push changes");
}

#[test]
fn successful_deploy_runs_four_commands_in_order() {
    let mut d = Git::start_deploy("dev", "Force deploy of dev");
    let a = Git::run_deploy(&mut d, None);
    assert_eq!(args_of(&a), vec!["checkout", "dev"]);
    let a = Git::run_deploy(&mut d, Some(CommandOutcome::Succeeded));
    assert_eq!(args_of(&a), vec!["pull"]);
    let a = Git::run_deploy(&mut d, Some(CommandOutcome::Succeeded));
    assert_eq!(args_of(&a), vec!["commit", "--allow-empty", "-m", "Force deploy of dev"]);
    let a = Git::run_deploy(&mut d, Some(CommandOutcome::Succeeded));
    assert_eq!(args_of(&a), vec!["push"]);
    let a = Git::run_deploy(&mut d, Some(CommandOutcome::Succeeded));
    assert!(matches!(a, DeployAction::Finished));
    assert_eq!(d.completed, 4);
    assert!(matches!(d.result, Some(Ok(()))));
}

#[test]
fn deploy_stops_at_the_first_failure() {
    let mut d = Git::start_deploy("dev", "m");
    Git::run_deploy(&mut d, None);
    Git::run_deploy(&mut d, Some(CommandOutcome::Succeeded));
    let a = Git::run_deploy(&mut d, Some(CommandOutcome::Failed("exit status: 1".to_string())));
    assert!(matches!(a, DeployAction::Finished));
    match &d.result {
        Some(Err(e)) => {
            assert_eq!(e.step, GitStep::Pull);
            assert_eq!(e.context, "Failed to pull latest changes");
            assert_eq!(e.cause, CommandOutcome::Failed("exit status: 1".to_string()));
        }
        _ => panic!("expected a failure"),
    }
    let a = Git::run_deploy(&mut d, Some(CommandOutcome::Succeeded));
    assert!(matches!(a, DeployAction::Finished));
    assert_eq!(d.completed, 1);
}

#[test]
fn deploy_reports_a_command_that_could_not_start() {
    let mut d = Git::start_deploy("release", "m");
    Git::run_deploy(&mut d, None);
    Git::run_deploy(&mut d, Some(CommandOutcome::NotStarted("no git".to_string())));
    match &d.result {
        Some(Err(e)) => {
            assert_eq!(e.step, GitStep::Checkout);
            assert_eq!(e.context, "Failed to checkout release branch");
            assert_eq!(e.cause, CommandOutcome::NotStarted("no git".to_string()));
        }
        _ => panic!("expected a failure"),
    }
}

#[test]
fn pending_step_is_asked_again_without_outcome() {
    let mut d = Git::start_deploy("dev", "m");
    Git::run_deploy(&mut d, None);
    Git::run_deploy(&mut d, Some(CommandOutcome::Succeeded));
    let a = Git::run_deploy(&mut d, None);
    assert_eq!(args_of(&a), vec!["pull"]);
}
