use vivian_memory::step_health::{cooled_down, StepHealthTracker, CIRCUIT_BREAK_THRESHOLD};

const NOW: &str = "2026-09-16T19:53:00+00:00";

#[test]
fn health_lifecycle() {
    let mut tracker = StepHealthTracker::load(None);

    tracker.mark_failure("stage1", "LLM 超时", NOW);
    tracker.mark_failure("stage1", "LLM 超时", NOW);
    assert_eq!(tracker.snapshot().get("stage1").unwrap().fail_count, 2);
    assert!(!tracker.is_healthy());

    tracker.mark_success("stage1", NOW);
    assert_eq!(tracker.snapshot().get("stage1").unwrap().fail_count, 0);
    assert!(tracker.is_healthy());

    let kept = tracker.snapshot();
    let reloaded = StepHealthTracker::load(Some((1, kept)));
    assert!(reloaded.snapshot().get("stage1").unwrap().last_success_at.is_some());
}

#[test]
fn window_error_rate_breaks_flaky_steps() {
    let mut tracker = StepHealthTracker::load(None);

    for i in 0..10 {
        tracker.mark_failure("flaky", "上游 502", NOW);
        if i < 6 {
            tracker.mark_success("flaky", NOW);
        }
    }
    let steps = tracker.snapshot();
    let snap = steps.get("flaky").unwrap();
    assert!(snap.paused_reason.is_some(), "{snap:?}");
    assert!(snap.fail_count < CIRCUIT_BREAK_THRESHOLD, "{}", snap.fail_count);
}

#[test]
fn occasional_failure_does_not_break() {
    let mut tracker = StepHealthTracker::load(None);

    for _ in 0..20 {
        tracker.mark_success("steady", NOW);
        tracker.mark_failure("steady", "偶发抖动", NOW);
    }
    let steps = tracker.snapshot();
    let snap = steps.get("steady").unwrap();
    assert!(snap.paused_reason.is_none(), "{snap:?}");
}

#[test]
fn the_same_error_is_reported_once() {
    let mut tracker = StepHealthTracker::load(None);
    assert!(tracker.mark_failure("s", "e", NOW));
    assert!(!tracker.mark_failure("s", "e", NOW));
    assert!(tracker.mark_failure("s", "f", NOW));
}

#[test]
fn a_paused_step_resumes_after_a_while() {
    let mut tracker = StepHealthTracker::load(None);
    for _ in 0..CIRCUIT_BREAK_THRESHOLD {
        tracker.mark_failure("s", "e", NOW);
    }
    assert!(tracker.any_paused());
    assert!(tracker.is_paused("s").is_some());
    assert!(tracker.is_paused("t").is_none());
    let failed: i64 = 1_789_588_380;
    assert!(!tracker.try_resume(60_000, (failed + 59, 0)));
    assert!(tracker.any_paused());
    assert!(tracker.try_resume(60_000, (failed + 61, 0)));
    assert!(!tracker.any_paused());
}

#[test]
fn another_version_is_not_loaded() {
    let mut tracker = StepHealthTracker::load(None);
    tracker.mark_success("s", NOW);
    let kept = tracker.snapshot();
    let reloaded = StepHealthTracker::load(Some((2, kept)));
    assert!(reloaded.snapshot().get("s").is_none());
}

#[test]
fn cooling_down_counts_from_the_error() {
    assert!(cooled_down(None, (0, 0), 1_000));
    assert!(cooled_down(Some((10, 0)), (11, 0), 1_000));
    assert!(!cooled_down(Some((10, 0)), (10, 999_000_000), 1_000));
}

#[test]
fn the_last_step_to_succeed_heals_all() {
    let mut tracker = StepHealthTracker::load(None);
    tracker.mark_failure("a", "e", NOW);
    tracker.mark_failure("b", "e", NOW);
    tracker.mark_success("a", NOW);
    assert!(!tracker.is_healthy());
    assert_eq!(tracker.snapshot().get("b").unwrap().fail_count, 1);
    tracker.mark_success("b", NOW);
    assert!(tracker.is_healthy());
    assert_eq!(tracker.snapshot().len(), 2);
}
