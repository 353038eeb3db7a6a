use workspace_publish::cli::{strip_leading_v, Command, ExecError, Execution, PublishWorkspaceArgs};
use workspace_publish::graph::{CrateInfo, MetadataField, RawPackage};
use workspace_publish::order::OrderError;
use workspace_publish::metadata::registry_lists_version;
use workspace_publish::publish::{next, start, Action, Event, PublishConfig, PublishError, POLL_INTERVAL_SECS};

fn info(name: &str, version: &str) -> CrateInfo {
    CrateInfo {
        name: name.to_string(),
        version: version.to_string(),
        manifest_path: format!("/ws/{}/Cargo.toml", name),
        dependencies: vec![],
    }
}

fn config(retries: u8) -> PublishConfig {
    PublishConfig {
        target_version: "1.2.0".to_string(),
        aligned_versions_only: false,
        dry_run: false,
        verify_upload_retries: retries,
    }
}

/// What a simulated run did.
#[derive(Default, Debug)]
struct Trace {
    published: Vec<usize>,
    checks: Vec<usize>,
    waits: usize,
}

/// Runs the machine against a fake registry: `already` tells whether a
/// package is there before publishing; after publishing package `i`, the
/// registry answers "no" `delays[i]` times and then "yes".
fn run(plan: &Vec<CrateInfo>, cfg: &PublishConfig, already: &[bool], delays: &[usize], fail: Option<usize>) -> (Action, Trace) {
    let mut trace = Trace::default();
    let mut misses = vec![0usize; plan.len()];
    let mut action = start(plan, cfg);
    for _ in 0..10_000 {
        let event = match &action {
            Action::CheckUploaded { index } => {
                trace.checks.push(*index);
                Event::Uploaded(already[*index])
            }
            Action::Publish { index } => {
                if fail == Some(*index) {
                    Event::PublishFailed("boom".to_string())
                } else {
                    trace.published.push(*index);
                    Event::Published
                }
            }
            Action::PollUploaded { index, .. } => {
                trace.checks.push(*index);
                if misses[*index] < delays[*index] {
                    misses[*index] += 1;
                    Event::Uploaded(false)
                } else {
                    Event::Uploaded(true)
                }
            }
            Action::Wait { .. } => {
                trace.waits += 1;
                Event::Waited
            }
            Action::Finished | Action::Abort(_) => return (action, trace),
        };
        action = next(plan, cfg, action, event);
    }
    panic!("run did not end");
}

#[test]
fn poll_interval_is_two_seconds() {
    assert_eq!(POLL_INTERVAL_SECS, 2);
}

#[test]
fn already_uploaded_package_is_skipped() {
    let plan = vec![info("a", "1.2.0"), info("b", "1.2.0")];
    let (end, trace) = run(&plan, &config(3), &[true, false], &[0, 0], None);
    assert!(matches!(end, Action::Finished));
    assert_eq!(trace.published, vec![1]);
    assert_eq!(trace.checks, vec![0, 1, 1]);
}

#[test]
fn visible_after_k_misses_takes_k_plus_one_checks() {
    let plan = vec![info("a", "1.2.0")];
    let (end, trace) = run(&plan, &config(5), &[false], &[3], None);
    assert!(matches!(end, Action::Finished));
    assert_eq!(trace.published, vec![0]);
    // one check before publishing, then k + 1 polls
    assert_eq!(trace.checks.len(), 1 + 4);
    assert_eq!(trace.waits, 3);
}

#[test]
fn never_visible_takes_exactly_n_checks_and_goes_on() {
    let plan = vec![info("a", "1.2.0"), info("b", "1.2.0")];
    let (end, trace) = run(&plan, &config(4), &[false, false], &[1000, 0], None);
    assert!(matches!(end, Action::Finished));
    assert_eq!(trace.published, vec![0, 1]);
    assert_eq!(trace.checks.iter().filter(|i| **i == 0).count(), 1 + 4);
    assert_eq!(trace.waits, 3);
}

#[test]
fn zero_retries_polls_nothing() {
    let plan = vec![info("a", "1.2.0")];
    let (end, trace) = run(&plan, &config(0), &[false], &[5], None);
    assert!(matches!(end, Action::Finished));
    assert_eq!(trace.checks, vec![0]);
}

#[test]
fn dry_run_machine_does_not_poll() {
    let plan = vec![info("a", "1.2.0"), info("b", "1.2.0")];
    let mut cfg = config(5);
    cfg.dry_run = true;
    let (end, trace) = run(&plan, &cfg, &[false, false], &[2, 2], None);
    assert!(matches!(end, Action::Finished));
    assert_eq!(trace.published, vec![0, 1]);
    assert_eq!(trace.checks, vec![0, 1]);
}

#[test]
fn misaligned_version_aborts_before_any_publish() {
    let plan = vec![info("a", "1.2.0"), info("b", "1.1.9")];
    let mut cfg = config(3);
    cfg.aligned_versions_only = true;
    let (end, trace) = run(&plan, &cfg, &[false, false], &[0, 0], None);
    assert!(matches!(end, Action::Abort(PublishError::Misaligned { index: 1 })));
    assert!(trace.published.is_empty());
    assert!(trace.checks.is_empty());
}

#[test]
fn misaligned_version_is_fine_outside_aligned_mode() {
    let plan = vec![info("a", "1.1.9")];
    let (end, trace) = run(&plan, &config(1), &[false], &[0], None);
    assert!(matches!(end, Action::Finished));
    assert_eq!(trace.published, vec![0]);
}

#[test]
fn failed_publish_aborts_the_rest() {
    let plan = vec![info("a", "1.2.0"), info("b", "1.2.0"), info("c", "1.2.0")];
    let (end, trace) = run(&plan, &config(2), &[false, false, false], &[0, 0, 0], Some(1));
    match end {
        Action::Abort(PublishError::PublishFailed { index, message }) => {
            assert_eq!(index, 1);
            assert_eq!(message, "boom");
        }
        other => panic!("expected abort, got {:?}", other),
    }
    assert_eq!(trace.published, vec![0]);
}

#[test]
fn empty_plan_finishes_at_once() {
    assert!(matches!(start(&vec![], &config(3)), Action::Finished));
}

#[test]
fn unrelated_event_leaves_action_unchanged() {
    let plan = vec![info("a", "1.2.0")];
    let a = next(&plan, &config(3), Action::Publish { index: 0 }, Event::Waited);
    assert!(matches!(a, Action::Publish { index: 0 }));
}

fn args(dry_run: bool, show_order: bool, target: Option<&str>, token: Option<&str>) -> PublishWorkspaceArgs {
    PublishWorkspaceArgs {
        crate_prefix: "ws-".to_string(),
        dry_run,
        show_order,
        target_version: target.map(|s| s.to_string()),
        aligned_versions_only: true,
        token: token.map(|s| s.to_string()),
        exclude: vec![],
        verify_upload_retries: 30,
        cargo_publish_args: vec!["--no-verify".to_string()],
    }
}

fn raw(name: &str, deps: &[&str]) -> RawPackage {
    RawPackage {
        name: Some(name.to_string()),
        version: Some("1.2.0".to_string()),
        manifest_path: Some(format!("/ws/{}/Cargo.toml", name)),
        unpublishable: false,
        dependencies: Some(deps.iter().map(|d| Some(d.to_string())).collect()),
    }
}

fn packages() -> Option<Vec<RawPackage>> {
    Some(vec![raw("ws-b", &["ws-a"]), raw("ws-a", &[])])
}

#[test]
fn dry_run_only_shows_the_order() {
    for (dry, show) in [(true, false), (false, true), (true, true)] {
        match Command::PublishWorkspace(args(dry, show, None, None)).exec(packages(), None, None) {
            Ok(Execution::ShowOrder(plan)) => {
                let names: Vec<&str> = plan.iter().map(|c| c.name.as_str()).collect();
                assert_eq!(names, vec!["ws-a", "ws-b"]);
            }
            other => panic!("expected the order only, got {:?}", other),
        }
    }
}

#[test]
fn publish_run_takes_settings_from_arguments_first() {
    match Command::PublishWorkspace(args(false, false, Some("v1.2.0"), Some("tok"))).exec(
        packages(),
        Some("v9.9.9".to_string()),
        Some("env-tok".to_string()),
    ) {
        Ok(Execution::Publish(run)) => {
            assert_eq!(run.config.target_version, "1.2.0");
            assert_eq!(run.token, "tok");
            assert!(run.config.aligned_versions_only);
            assert_eq!(run.config.verify_upload_retries, 30);
            assert_eq!(run.publish_args, vec!["--no-verify".to_string()]);
            assert_eq!(run.plan.len(), 2);
        }
        other => panic!("expected a publish run, got {:?}", other),
    }
}

#[test]
fn publish_run_falls_back_to_environment() {
    match Command::PublishWorkspace(args(false, false, None, None)).exec(
        packages(),
        Some("v2.0.1".to_string()),
        Some("env-tok".to_string()),
    ) {
        Ok(Execution::Publish(run)) => {
            assert_eq!(run.config.target_version, "2.0.1");
            assert_eq!(run.token, "env-tok");
        }
        other => panic!("expected a publish run, got {:?}", other),
    }
}

#[test]
fn missing_version_or_token_is_an_error() {
    let r = Command::PublishWorkspace(args(false, false, None, Some("t"))).exec(packages(), None, None);
    assert!(matches!(r, Err(ExecError::MissingTargetVersion)));
    let r = Command::PublishWorkspace(args(false, false, Some("1.0.0"), None)).exec(packages(), None, None);
    assert!(matches!(r, Err(ExecError::MissingToken)));
}

#[test]
fn leading_v_only_is_stripped() {
    assert_eq!(strip_leading_v("v1.2.0"), "1.2.0");
    assert_eq!(strip_leading_v("1.2.0"), "1.2.0");
    assert_eq!(strip_leading_v("1.2.0-dev"), "1.2.0-dev");
    assert_eq!(strip_leading_v("v"), "");
    assert_eq!(strip_leading_v(""), "");
}

#[test]
fn registry_answer_with_version_member_means_published() {
    assert!(registry_lists_version(r#"{"version": {"num": "1.2.0"}}"#));
    assert!(!registry_lists_version(r#"{"errors": [{"detail": "crate `x` does not have a version `1.2.0`"}]}"#));
    assert!(!registry_lists_version("<html>busy</html>"));
    assert!(!registry_lists_version(""));
}

#[test]
fn ordering_errors_are_passed_on_even_in_a_dry_run() {
    let cyclic = Some(vec![raw("ws-a", &["ws-b"]), raw("ws-b", &["ws-a"])]);
    match Command::PublishWorkspace(args(true, false, None, None)).exec(cyclic, None, None) {
        Err(ExecError::Order(OrderError::CircularDependency(names))) => assert_eq!(names.len(), 2),
        other => panic!("expected a cycle, got {:?}", other),
    }
    match Command::PublishWorkspace(args(false, false, Some("1.0.0"), Some("t"))).exec(None, None, None) {
        Err(ExecError::Order(OrderError::MetadataParse(f))) => assert_eq!(f, MetadataField::Packages),
        other => panic!("expected a metadata error, got {:?}", other),
    }
}
