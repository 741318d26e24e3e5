use vstd::prelude::*;
use vstd::string::*;

verus! {

/// The git side of a deployment.
pub struct Git;

/// The four git steps of a deployment, in the order they run.
#[derive(Clone, Copy, Debug, PartialEq, Eq, Structural)]
pub enum GitStep {
    Checkout,
    Pull,
    Commit,
    Push,
}

/// The number of git steps of a deployment.
pub const DEPLOY_STEPS: usize = 4;

/// The step that runs in position `k` of a deployment.
pub open spec fn step_at(k: int) -> GitStep {
    if k == 0 {
        GitStep::Checkout
    } else if k == 1 {
        GitStep::Pull
    } else if k == 2 {
        GitStep::Commit
    } else {
        GitStep::Push
    }
}

/// The position of a step in a deployment.
pub open spec fn step_index(s: GitStep) -> nat {
    match s {
        GitStep::Checkout => 0,
        GitStep::Pull => 1,
        GitStep::Commit => 2,
        GitStep::Push => 3,
    }
}

/// A program to run inside the repository, with its arguments.
pub struct GitCommand {
    pub program: String,
    pub args: Vec<String>,
}

pub struct GitCommandView {
    pub program: Seq<char>,
    pub args: Seq<Seq<char>>,
}

impl View for GitCommand {
    type V = GitCommandView;

    open spec fn view(&self) -> GitCommandView {
        GitCommandView { program: self.program@, args: self.args@.map_values(|a: String| a@) }
    }
}

/// The command that performs `step`: check out `branch`, pull, create an
/// empty commit with `message`, or push.
pub open spec fn step_command(step: GitStep, branch: Seq<char>, message: Seq<char>) -> GitCommandView {
    GitCommandView {
        program: "git"@,
        args: match step {
            GitStep::Checkout => seq!["checkout"@, branch],
            GitStep::Pull => seq!["pull"@],
            GitStep::Commit => seq!["commit"@, "--allow-empty"@, "-m"@, message],
            GitStep::Push => seq!["push"@],
        },
    }
}

/// What a failed step reports.
pub open spec fn step_context(step: GitStep, branch: Seq<char>) -> Seq<char> {
    match step {
        GitStep::Checkout => "Failed to checkout "@ + branch + " branch"@,
        GitStep::Pull => "Failed to pull latest changes"@,
        GitStep::Commit => "Failed to create empty commit"@,
        GitStep::Push => "Failed to push changes"@,
    }
}

/// How running one command ended.
#[derive(Debug, PartialEq, Eq)]
pub enum CommandOutcome {
    /// The command ran and exited successfully.
    Succeeded,
    /// The command ran and exited unsuccessfully, with this status.
    Failed(String),
    /// The command could not be run, for this reason.
    NotStarted(String),
}

/// A deployment that stopped at a failed step.
#[derive(Debug)]
pub struct DeployError {
    /// The step that failed.
    pub step: GitStep,
    /// What the failed step reports.
    pub context: String,
    /// How its command ended.
    pub cause: CommandOutcome,
}

/// The progress of one repository's deployment.
pub struct Deployment {
    pub branch: String,
    pub commit_message: String,
    /// How many steps have succeeded.
    pub completed: usize,
    /// How the deployment ended, once it has.
    pub result: Option<Result<(), DeployError>>,
}

/// What the deployment asks for next.
pub enum DeployAction {
    /// Run this command and report how it ended.
    Run(GitCommand),
    /// The deployment is over; its `result` says how it ended.
    Finished,
}

/// The state of a deployment: how many steps succeeded, and how it ended,
/// with the position of the failed step when it failed.
pub struct DeployModel {
    pub completed: nat,
    pub status: Option<Result<(), nat>>,
}

/// What a deployment asks for: to run the step at a position, or nothing more.
pub enum ActionModel {
    Run(nat),
    Finished,
}

/// The event that a step reports: no command ran yet, or the last command
/// succeeded or not.
pub open spec fn outcome_kind(last: Option<CommandOutcome>) -> Option<bool> {
    match last {
        None => None,
        Some(o) => Some(o == CommandOutcome::Succeeded),
    }
}

/// The decision of one step of a deployment: once it has ended nothing
/// changes; with no new outcome the pending step is asked for; a success
/// moves on to the next step, or ends the deployment successfully after the
/// last one; a failure ends it at the pending step.
pub open spec fn deploy_next(m: DeployModel, event: Option<bool>) -> (DeployModel, ActionModel) {
    match m.status {
        Some(_) => (m, ActionModel::Finished),
        None => match event {
            None => (m, ActionModel::Run(m.completed)),
            Some(true) => if m.completed + 1 >= DEPLOY_STEPS {
                (DeployModel { completed: m.completed + 1, status: Some(Ok(())) }, ActionModel::Finished)
            } else {
                (DeployModel { completed: m.completed + 1, status: None }, ActionModel::Run(m.completed + 1))
            },
            Some(false) => (
                DeployModel { completed: m.completed, status: Some(Err(m.completed)) },
                ActionModel::Finished,
            ),
        },
    }
}

impl Deployment {
    /// The state that the deployment's decisions depend on.
    pub open spec fn model(&self) -> DeployModel {
        DeployModel {
            completed: self.completed as nat,
            status: match self.result {
                None => None,
                Some(Ok(())) => Some(Ok(())),
                Some(Err(e)) => Some(Err(step_index(e.step))),
            },
        }
    }

    /// Fewer steps succeeded than a deployment has while it runs.
    pub open spec fn wf(&self) -> bool {
        &&& self.completed <= DEPLOY_STEPS
        &&& self.result is None ==> self.completed < DEPLOY_STEPS
    }
}

impl Git {
    /// A repository is ready to deploy when its directory exists and holds a
    /// `.git` directory.
    pub fn check_exists(repo_dir_exists: bool, git_dir_exists: bool) -> (ready: bool)
        ensures
            ready == (repo_dir_exists && git_dir_exists),
    {
        repo_dir_exists && git_dir_exists
    }

    /// The command that performs `step`.
    pub fn deploy_command(step: GitStep, branch: &str, commit_message: &str) -> (cmd: GitCommand)
        ensures
            cmd@ == step_command(step, branch@, commit_message@),
    {
        let mut args: Vec<String> = Vec::new();
        match step {
            GitStep::Checkout => {
                args.push(String::from_str("checkout"));
                args.push(branch.to_owned());
            },
            GitStep::Pull => {
                args.push(String::from_str("pull"));
            },
            GitStep::Commit => {
                args.push(String::from_str("commit"));
                args.push(String::from_str("--allow-empty"));
                args.push(String::from_str("-m"));
                args.push(commit_message.to_owned());
            },
            GitStep::Push => {
                args.push(String::from_str("push"));
            },
        }
        let cmd = GitCommand { program: String::from_str("git"), args };
        assert(cmd@.args =~= step_command(step, branch@, commit_message@).args);
        cmd
    }

    /// What a failed `step` reports.
    pub fn failure_context(step: GitStep, branch: &str) -> (s: String)
        ensures
            s@ == step_context(step, branch@),
    {
        match step {
            GitStep::Checkout => {
                let mut s = String::from_str("Failed to checkout ");
                s.append(branch);
                s.append(" branch");
                s
            },
            GitStep::Pull => String::from_str("Failed to pull latest changes"),
            GitStep::Commit => String::from_str("Failed to create empty commit"),
            GitStep::Push => String::from_str("Failed to push changes"),
        }
    }

    /// The step at position `k` of a deployment.
    pub fn step_for(k: usize) -> (s: GitStep)
        requires
            k < DEPLOY_STEPS,
        ensures
            s == step_at(k as int),
            step_index(s) == k,
    {
        if k == 0 {
            GitStep::Checkout
        } else if k == 1 {
            GitStep::Pull
        } else if k == 2 {
            GitStep::Commit
        } else {
            GitStep::Push
        }
    }

    /// A deployment of `branch` whose empty commit carries `commit_message`,
    /// before any step has run.
    pub fn start_deploy(branch: &str, commit_message: &str) -> (d: Deployment)
        ensures
            d.wf(),
            d.branch@ == branch@,
            d.commit_message@ == commit_message@,
            d.completed == 0,
            d.result is None,
    {
        Deployment {
            branch: branch.to_owned(),
            commit_message: commit_message.to_owned(),
            completed: 0,
            result: None,
        }
    }

    /// Decides the next step of a deployment from how the last command ended
    /// (`None` before the first one): the commands are checkout of the
    /// branch, pull, an empty commit and push, in this order, and the first
    /// failure ends the deployment with the failed step, what it reports and
    /// how its command ended.
    pub fn run_deploy(deployment: &mut Deployment, last: Option<CommandOutcome>) -> (action: DeployAction)
        requires
            old(deployment).wf(),
        ensures
            final(deployment).wf(),
            final(deployment).branch == old(deployment).branch,
            final(deployment).commit_message == old(deployment).commit_message,
            ({
                let (m, a) = deploy_next(old(deployment).model(), outcome_kind(last));
                &&& final(deployment).model() == m
                &&& match a {
                    ActionModel::Run(k) => action matches DeployAction::Run(cmd) && cmd@ == step_command(
                        step_at(k as int),
                        old(deployment).branch@,
                        old(deployment).commit_message@,
                    ),
                    ActionModel::Finished => action is Finished,
                }
            }),
            old(deployment).result is None && last is Some && last != Some(CommandOutcome::Succeeded)
                ==> (final(deployment).result matches Some(Err(e)) && e.step == step_at(
                old(deployment).completed as int,
            ) && e.context@ == step_context(e.step, old(deployment).branch@) && Some(e.cause)
                == last),
            old(deployment).result is Some ==> final(deployment).result == old(deployment).result,
    {
        if deployment.result.is_some() {
            return DeployAction::Finished;
        }
        match last {
            None => {
                let step = Git::step_for(deployment.completed);
                let cmd = Git::deploy_command(
                    step,
                    deployment.branch.as_str(),
                    deployment.commit_message.as_str(),
                );
                DeployAction::Run(cmd)
            },
            Some(outcome) => {
                match outcome {
                    CommandOutcome::Succeeded => {
                        deployment.completed = deployment.completed + 1;
                        if deployment.completed >= DEPLOY_STEPS {
                            deployment.result = Some(Ok(()));
                            DeployAction::Finished
                        } else {
                            let step = Git::step_for(deployment.completed);
                            let cmd = Git::deploy_command(
                                step,
                                deployment.branch.as_str(),
                                deployment.commit_message.as_str(),
                            );
                            DeployAction::Run(cmd)
                        }
                    },
                    cause => {
                        let step = Git::step_for(deployment.completed);
                        let context = Git::failure_context(step, deployment.branch.as_str());
                        deployment.result = Some(Err(DeployError { step, context, cause }));
                        DeployAction::Finished
                    },
                }
            },
        }
    }
}

} // verus!

verus! {

/// The state and the requests of a deployment that starts in `m` and is
/// handed `events` one after the other.
pub open spec fn drive(m: DeployModel, events: Seq<Option<bool>>) -> (DeployModel, Seq<ActionModel>)
    decreases events.len(),
{
    if events.len() == 0 {
        (m, Seq::empty())
    } else {
        let (m1, a) = deploy_next(m, events[0]);
        let (mf, rest) = drive(m1, events.drop_first());
        (mf, seq![a] + rest)
    }
}

/// The state of a deployment before any step has run.
pub open spec fn deploy_start() -> DeployModel {
    DeployModel { completed: 0, status: None }
}

/// The events of a deployment whose first `k` commands succeed.
pub open spec fn successes(k: nat) -> Seq<Option<bool>> {
    seq![None::<bool>] + Seq::new(k, |i: int| Some(true))
}

proof fn lemma_drive_successes(k: nat, m: DeployModel)
    requires
        k < DEPLOY_STEPS,
        m == deploy_start(),
    ensures
        drive(m, successes(k)).0 == (DeployModel { completed: k, status: None }),
        drive(m, successes(k)).1 =~= Seq::new(k + 1, |i: int| ActionModel::Run(i as nat)),
{
    reveal_with_fuel(drive, 5);
    let ev = successes(k);
    assert(ev.drop_first() =~= Seq::new(k, |i: int| Some(true)));
    if k >= 1 {
        assert(ev.drop_first().drop_first() =~= Seq::new((k - 1) as nat, |i: int| Some(true)));
    }
    if k >= 2 {
        assert(ev.drop_first().drop_first().drop_first() =~= Seq::new((k - 2) as nat, |i: int| Some(true)));
    }
    if k >= 3 {
        assert(ev.drop_first().drop_first().drop_first().drop_first() =~= Seq::<Option<bool>>::empty());
    }
}

/// A deployment whose commands all succeed asks for the four steps in order,
/// checkout, pull, empty commit and push, then ends successfully.
pub proof fn law_successful_deploy_runs_all_steps()
    ensures
        drive(deploy_start(), successes(DEPLOY_STEPS as nat)).0 == (DeployModel {
            completed: DEPLOY_STEPS as nat,
            status: Some(Ok(())),
        }),
        drive(deploy_start(), successes(DEPLOY_STEPS as nat)).1 =~= seq![
            ActionModel::Run(0),
            ActionModel::Run(1),
            ActionModel::Run(2),
            ActionModel::Run(3),
            ActionModel::Finished,
        ],
        step_at(0) == GitStep::Checkout,
        step_at(1) == GitStep::Pull,
        step_at(2) == GitStep::Commit,
        step_at(3) == GitStep::Push,
{
    reveal_with_fuel(drive, 6);
    let ev = successes(DEPLOY_STEPS as nat);
    assert(ev =~= seq![None, Some(true), Some(true), Some(true), Some(true)]);
    assert(ev.drop_first() =~= seq![Some(true), Some(true), Some(true), Some(true)]);
    assert(ev.drop_first().drop_first() =~= seq![Some(true), Some(true), Some(true)]);
    assert(ev.drop_first().drop_first().drop_first() =~= seq![Some(true), Some(true)]);
    assert(ev.drop_first().drop_first().drop_first().drop_first() =~= seq![Some(true)]);
    assert(ev.drop_first().drop_first().drop_first().drop_first().drop_first() =~= Seq::<
        Option<bool>,
    >::empty());
}

/// A deployment stops at its first failed command: when the first `k`
/// commands succeed and the next one fails, it has asked for exactly the
/// steps up to that one, in order, and ends with that step as the failure.
pub proof fn law_deploy_stops_at_first_failure(k: nat)
    requires
        k < DEPLOY_STEPS,
    ensures
        drive(deploy_start(), successes(k).push(Some(false))).0 == (DeployModel {
            completed: k,
            status: Some(Err(k)),
        }),
        drive(deploy_start(), successes(k).push(Some(false))).1 =~= Seq::new(
            k + 1,
            |i: int| ActionModel::Run(i as nat),
        ).push(ActionModel::Finished),
{
    reveal_with_fuel(drive, 6);
    let ev = successes(k).push(Some(false));
    assert(ev.drop_first() =~= Seq::new(k, |i: int| Some(true)).push(Some(false)));
    if k == 0 {
        assert(ev.drop_first().drop_first() =~= Seq::<Option<bool>>::empty());
    } else if k == 1 {
        assert(ev.drop_first().drop_first() =~= seq![Some(false)]);
        assert(ev.drop_first().drop_first().drop_first() =~= Seq::<Option<bool>>::empty());
    } else if k == 2 {
        assert(ev.drop_first().drop_first() =~= seq![Some(true), Some(false)]);
        assert(ev.drop_first().drop_first().drop_first() =~= seq![Some(false)]);
        assert(ev.drop_first().drop_first().drop_first().drop_first() =~= Seq::<
            Option<bool>,
        >::empty());
    } else {
        assert(ev.drop_first().drop_first() =~= seq![Some(true), Some(true), Some(false)]);
        assert(ev.drop_first().drop_first().drop_first() =~= seq![Some(true), Some(false)]);
        assert(ev.drop_first().drop_first().drop_first().drop_first() =~= seq![Some(false)]);
        assert(ev.drop_first().drop_first().drop_first().drop_first().drop_first() =~= Seq::<
            Option<bool>,
        >::empty());
    }
}

/// Once a deployment has ended, whatever is reported leaves it unchanged and
/// it asks for nothing more.
pub proof fn law_ended_deploy_stays_ended(m: DeployModel, events: Seq<Option<bool>>)
    requires
        m.status is Some,
    ensures
        drive(m, events).0 == m,
        drive(m, events).1 =~= Seq::new(events.len(), |i: int| ActionModel::Finished),
    decreases events.len(),
{
    if events.len() > 0 {
        law_ended_deploy_stays_ended(m, events.drop_first());
    }
}

} // verus!
