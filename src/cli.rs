//! The `publish-workspace` command: what one invocation decides to do.

use crate::graph::{string_views, views, CrateInfo, RawPackage};
use crate::metadata::{order_crates_for_publishing, snapshot_outcome};
use crate::order::{outcome_of, OrderError, OrderOutcome};
use crate::publish::PublishConfig;
use vstd::prelude::*;

verus! {

/// The commands of the tool.
#[derive(Debug)]
pub enum Command {
    PublishWorkspace(PublishWorkspaceArgs),
}

/// Publish a workspace's crates.
#[derive(Debug)]
pub struct PublishWorkspaceArgs {
    /// The prefix of the names of the workspace's own packages.
    pub crate_prefix: String,
    /// Only show the order, publish nothing.
    pub dry_run: bool,
    /// Only show the order of the packages to be published.
    pub show_order: bool,
    /// The release version; else the CI tag from the environment.
    pub target_version: Option<String>,
    /// Require every package's version to be the release version.
    pub aligned_versions_only: bool,
    /// The registry token; else the token from the environment.
    pub token: Option<String>,
    /// Packages to leave out.
    pub exclude: Vec<String>,
    /// How many visibility checks to make after each publish.
    pub verify_upload_retries: u8,
    /// Arguments handed on to the publish tool.
    pub cargo_publish_args: Vec<String>,
}

/// Everything a publish run needs.
#[derive(Debug)]
pub struct PublishRun {
    pub plan: Vec<CrateInfo>,
    pub config: PublishConfig,
    pub token: String,
    pub publish_args: Vec<String>,
}

/// What an invocation is to do.
#[derive(Debug)]
pub enum Execution {
    /// Show this order and stop.
    ShowOrder(Vec<CrateInfo>),
    /// Publish.
    Publish(PublishRun),
}

/// Why an invocation cannot go on.
#[derive(Debug)]
pub enum ExecError {
    Order(OrderError),
    /// Neither an argument nor the environment gives the release version.
    MissingTargetVersion,
    /// Neither an argument nor the environment gives the registry token.
    MissingToken,
}

/// A version tag without its leading `v`.
pub open spec fn strip_v(s: Seq<char>) -> Seq<char> {
    if s.len() > 0 && s[0] == 'v' {
        s.subrange(1, s.len() as int)
    } else {
        s
    }
}

/// The explicit value if there is one, else the one from the environment.
pub open spec fn chosen(explicit: Option<String>, env: Option<String>) -> Option<Seq<char>> {
    match explicit {
        Some(s) => Some(s@),
        None => match env {
            Some(s) => Some(s@),
            None => None,
        },
    }
}

/// Removes a leading `v` from a version tag.
pub fn strip_leading_v(s: &str) -> (r: String)
    ensures
        r@ == strip_v(s@),
{
    let n = s.unicode_len();
    if n > 0 && s.get_char(0) == 'v' {
        String::from_str(s.substring_char(1, n))
    } else {
        String::from_str(s)
    }
}

fn choose_value(explicit: Option<String>, env: Option<String>) -> (r: Option<String>)
    ensures
        match r {
            Some(s) => chosen(explicit, env) == Some(s@),
            None => chosen(explicit, env) is None,
        },
{
    match explicit {
        Some(s) => Some(s),
        None => env,
    }
}

impl Command {
    /// Decides what this invocation does, given the package list of the
    /// workspace's metadata (`None` when the metadata has none) and the CI
    /// tag and token found in the environment.
    pub fn exec(self, packages: Option<Vec<RawPackage>>, ci_tag: Option<String>, env_token: Option<String>) -> (r:
        Result<Execution, ExecError>)
        ensures
            match self {
                Command::PublishWorkspace(args) => exec_result(args, opt_vec(packages), ci_tag, env_token, r),
            },
    {
        match self {
            Command::PublishWorkspace(args) => exec(args, packages, ci_tag, env_token),
        }
    }
}

pub open spec fn opt_vec(packages: Option<Vec<RawPackage>>) -> Option<Seq<RawPackage>> {
    match packages {
        Some(v) => Some(v@),
        None => None,
    }
}

/// What an invocation does: an ordering error is passed on; when only the
/// order is asked for, the plan is shown; else the release version (without
/// its leading `v`) and the token must be known, and the plan goes to a
/// publish run with the invocation's settings.
pub open spec fn exec_result(
    args: PublishWorkspaceArgs,
    packages: Option<Seq<RawPackage>>,
    ci_tag: Option<String>,
    env_token: Option<String>,
    r: Result<Execution, ExecError>,
) -> bool {
    let outcome = snapshot_outcome(packages, string_views(args.exclude@), args.crate_prefix@);
    let version = chosen(args.target_version, ci_tag);
    let token = chosen(args.token, env_token);
    match outcome {
        OrderOutcome::Plan(plan) => if args.dry_run || args.show_order {
            r matches Ok(Execution::ShowOrder(v)) && views(v@) == plan
        } else if version is None {
            r matches Err(ExecError::MissingTargetVersion)
        } else if token is None {
            r matches Err(ExecError::MissingToken)
        } else {
            r matches Ok(Execution::Publish(run)) && {
                &&& views(run.plan@) == plan
                &&& run.config.target_version@ == strip_v(version->Some_0)
                &&& run.config.aligned_versions_only == args.aligned_versions_only
                &&& run.config.dry_run == args.dry_run
                &&& run.config.verify_upload_retries == args.verify_upload_retries
                &&& run.token@ == token->Some_0
                &&& run.publish_args == args.cargo_publish_args
            }
        },
        _ => r matches Err(ExecError::Order(e)) && outcome_of(Err(e)) == outcome,
    }
}

/// Orders the workspace; shows the order and stops in a dry run or when
/// only the order is asked for; else settles the release version and the
/// token and hands back the publish run.
fn exec(
    args: PublishWorkspaceArgs,
    packages: Option<Vec<RawPackage>>,
    ci_tag: Option<String>,
    env_token: Option<String>,
) -> (r: Result<Execution, ExecError>)
    ensures
        exec_result(args, opt_vec(packages), ci_tag, env_token, r),
{
    let PublishWorkspaceArgs {
        crate_prefix,
        dry_run,
        show_order,
        target_version,
        aligned_versions_only,
        token,
        exclude,
        verify_upload_retries,
        cargo_publish_args,
    } = args;
    let ordered = match &packages {
        Some(p) => order_crates_for_publishing(&exclude, crate_prefix.as_str(), Some(p)),
        None => order_crates_for_publishing(&exclude, crate_prefix.as_str(), None),
    };
    let crates = match ordered {
        Ok(c) => c,
        Err(e) => return Err(ExecError::Order(e)),
    };
    if show_order || dry_run {
        return Ok(Execution::ShowOrder(crates));
    }
    let version = match choose_value(target_version, ci_tag) {
        Some(v) => strip_leading_v(v.as_str()),
        None => return Err(ExecError::MissingTargetVersion),
    };
    let crates_io_token = match choose_value(token, env_token) {
        Some(t) => t,
        None => return Err(ExecError::MissingToken),
    };
    Ok(
        Execution::Publish(
            PublishRun {
                plan: crates,
                config: PublishConfig {
                    target_version: version,
                    aligned_versions_only,
                    dry_run,
                    verify_upload_retries,
                },
                token: crates_io_token,
                publish_args: cargo_publish_args,
            },
        ),
    )
}

} // verus!
