use andpull::error::AppError;
use andpull::profile::runner::{
    plan_execution, profile_outcome, GlobalBudget, ProfileRunner, DEFAULT_MAX_WORKERS,
};
use andpull::profile::{ProfileSpec, SourceSpec};
use std::time::Duration;

fn spec(name: &str, priority: u8) -> ProfileSpec {
    ProfileSpec {
        name: name.to_string(),
        priority,
        requires_root: false,
        sources: vec![SourceSpec {
            device_path: "/sdcard/x".to_string(),
            alt_paths: vec![],
            recursive: false,
            extensions: None,
        }],
    }
}

#[test]
fn plan_empty_slice_yields_empty_plan() {
    assert!(plan_execution(&[]).is_empty());
}

#[test]
fn plan_single_profile_starts_immediately() {
    let profiles = vec![spec("only", 7)];
    let plan = plan_execution(&profiles);
    assert_eq!(plan.len(), 1);
    assert_eq!(plan[0].0, "only");
    assert_eq!(plan[0].1, Duration::ZERO);
}

#[test]
fn plan_sorts_by_priority_and_staggers_two_seconds() {
    let profiles = vec![spec("mid", 5), spec("low", 0), spec("high", 9)];
    let plan = plan_execution(&profiles);
    assert_eq!(
        plan.iter().map(|(n, _)| n.as_str()).collect::<Vec<_>>(),
        vec!["low", "mid", "high"]
    );
    assert_eq!(plan[0].1, Duration::from_secs(0));
    assert_eq!(plan[1].1, Duration::from_secs(2));
    assert_eq!(plan[2].1, Duration::from_secs(4));
}

#[test]
fn plan_is_stable_for_equal_priorities() {
    let profiles = vec![spec("a", 3), spec("b", 3)];
    let plan = plan_execution(&profiles);
    assert_eq!(plan[0].0, "a");
    assert_eq!(plan[1].0, "b");
}

#[test]
fn budget_allows_up_to_max_concurrent_holders() {
    let mut budget = GlobalBudget::new(3);
    let t1 = budget.acquire().unwrap();
    let t2 = budget.acquire().unwrap();
    let t3 = budget.acquire().unwrap();
    budget.release(t2);
    let t4 = budget.acquire().unwrap(); // freed slot reused after release
    budget.release(t1);
    budget.release(t3);
    budget.release(t4);
    assert_eq!(budget.available(), 3);
}

#[test]
fn budget_refuses_when_exhausted() {
    let mut budget = GlobalBudget::new(2);
    let t1 = budget.acquire().unwrap();
    let t2 = budget.acquire().unwrap();
    assert!(budget.acquire().is_none());
    budget.release(t1);
    assert_eq!(budget.available(), 1);
    let t3 = budget.acquire().unwrap();
    budget.release(t2);
    budget.release(t3);
}

#[test]
fn budget_of_zero_grants_one_slot() {
    let mut budget = GlobalBudget::new(0);
    assert_eq!(budget.available(), 1);
    let t = budget.acquire().unwrap();
    assert!(budget.acquire().is_none());
    budget.release(t);
}

#[test]
fn default_runner_uses_suggested_worker_budget() {
    assert_eq!(DEFAULT_MAX_WORKERS, 6);
    assert_eq!(ProfileRunner::default().max_workers, 6);
}

#[test]
fn profile_outcome_reports_success_and_failure() {
    let ok = profile_outcome("dcim".to_string(), Ok(12));
    assert_eq!((ok.name.as_str(), ok.success, ok.error.clone(), ok.files_transferred), ("dcim", true, None, 12));
    let failed = profile_outcome("whatsapp".to_string(), Err(AppError::NotFound { path: "/sdcard/x".into() }));
    assert!(!failed.success);
    assert_eq!(failed.error, Some("File not found on device: /sdcard/x".to_string()));
    assert_eq!(failed.files_transferred, 0);
}

#[test]
fn budget_never_frees_more_than_its_slots() {
    let mut a = GlobalBudget::new(1);
    let mut b = GlobalBudget::new(1);
    let t = a.acquire().unwrap();
    b.release(t);
    assert_eq!(b.available(), 1);
    assert_eq!(a.available(), 0);
    assert!(a.acquire().is_none());
}
