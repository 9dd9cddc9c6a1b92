use artesian::lane::{
    canonical, Lane, LaneBudget, LaneContract, LaneCoordinator, LaneError, LaneState,
};

fn lane(name: &str) -> Lane {
    Lane::new(
        name,
        &format!("{name}-worker"),
        LaneContract {
            owned_scope: format!("{name} tasks"),
            non_goals: Vec::new(),
            budget: LaneBudget {
                max_concurrent_tasks: Some(2),
                max_turns: Some(10),
                token_cap: None,
            },
            handoff_to: Some("judge".to_string()),
            allowed_tools: Vec::new(),
            agent_constraint: None,
        },
    )
}

#[test]
fn lane_contract_owns_scope_and_coordinator_refuses_duplicate_task() {
    let mut coord = LaneCoordinator::new();
    coord.register_lane(lane("security"));
    coord.register_lane(lane("test-runner"));

    coord
        .assign_task("security", "task-1", "Review auth.rs")
        .expect("first assign should succeed");

    let err = coord
        .assign_task("test-runner", "task-1", "Review auth.rs copy")
        .expect_err("duplicate task_id should be rejected");
    assert!(matches!(err, LaneError::DuplicateTask { .. }));

    let err2 = coord
        .assign_task("test-runner", "task-2", "review auth.rs")
        .expect_err("duplicate canonical title should be rejected");
    assert!(matches!(err2, LaneError::DuplicateTask { .. }));

    coord
        .assign_task("test-runner", "task-99", "Run integration tests")
        .expect("distinct task should succeed");
}

#[test]
fn completed_task_frees_slot_and_returns_handoff_target() {
    let mut coord = LaneCoordinator::new();
    coord.register_lane(lane("security"));
    coord
        .assign_task("security", "task-1", "Review auth.rs")
        .expect("assign should succeed");

    let result = coord.complete_task("task-1", 0);
    assert!(result.is_some());
    let (owner, handoff) = result.unwrap();
    assert_eq!(owner, "security");
    assert_eq!(handoff.as_deref(), Some("judge"));

    coord
        .assign_task("security", "task-1", "Review auth.rs")
        .expect("slot should be free after completion");
}

#[test]
fn budget_cap_refuses_when_concurrent_task_limit_reached() {
    let mut coord = LaneCoordinator::new();
    coord.register_lane(Lane::new(
        "narrow",
        "narrow-worker",
        LaneContract {
            owned_scope: "narrow tasks".to_string(),
            non_goals: Vec::new(),
            budget: LaneBudget {
                max_concurrent_tasks: Some(1),
                max_turns: None,
                token_cap: None,
            },
            handoff_to: None,
            allowed_tools: Vec::new(),
            agent_constraint: None,
        },
    ));

    coord.assign_task("narrow", "t1", "First task").expect("first task should fit");
    let err = coord
        .assign_task("narrow", "t2", "Second task")
        .expect_err("second task should exceed cap");
    assert!(matches!(err, LaneError::BudgetExceeded(_)));
}

#[test]
fn lane_summaries_reflect_active_tasks() {
    let mut coord = LaneCoordinator::new();
    coord.register_lane(lane("security"));
    coord
        .assign_task("security", "task-a", "Audit tokens")
        .expect("assign should succeed");

    let summaries = coord.lane_summaries();
    let sec = summaries
        .iter()
        .find(|s| s.name == "security")
        .expect("security lane should appear in summaries");
    assert_eq!(sec.active_task_ids, vec!["task-a"]);
}

#[test]
fn unknown_lanes_are_refused() {
    let mut coord = LaneCoordinator::new();
    let err = coord.assign_task("nowhere", "t", "T").expect_err("no such lane");
    assert!(matches!(err, LaneError::LaneNotFound(_)));
    assert!(err.message().contains("nowhere"));
    assert!(matches!(coord.record_turn("nowhere"), Err(LaneError::LaneNotFound(_))));
    assert_eq!(coord.complete_task("t", 1), None);
    assert_eq!(coord.owner_of("t"), None);
}

#[test]
fn turns_are_counted_up_to_the_cap() {
    let mut coord = LaneCoordinator::new();
    let mut contract = LaneContract::minimal("scope");
    contract.budget.max_turns = Some(1);
    coord.register_lane(Lane::new("l", "d", contract));
    assert!(coord.record_turn("l").is_ok());
    assert!(matches!(coord.record_turn("l"), Err(LaneError::BudgetExceeded(_))));
    assert_eq!(coord.lane_summaries()[0].turns_used, 1);
}

#[test]
fn completion_counts_a_turn_and_tokens() {
    let mut coord = LaneCoordinator::new();
    coord.register_lane(lane("l"));
    coord.assign_task("l", "t", "Task").expect("assign");
    assert_eq!(coord.owner_of("t"), Some("l"));
    coord.complete_task("t", 25);
    let summary = &coord.lane_summaries()[0];
    assert_eq!(summary.turns_used, 1);
    assert_eq!(summary.tokens_used, 25);
    assert_eq!(summary.active_task_ids.len(), 0);
    assert_eq!(coord.owner_of("t"), None);
}

#[test]
fn completion_never_passes_the_turn_budget() {
    let mut coord = LaneCoordinator::new();
    let mut contract = LaneContract::minimal("scope");
    contract.budget.max_turns = Some(0);
    contract.handoff_to = Some("judge".to_string());
    coord.register_lane(Lane::new("none", "d", contract));
    coord.assign_task("none", "t", "Task").expect("assigning asks for no turn");
    assert_eq!(
        coord.complete_task("t", 7),
        Some(("none".to_string(), Some("judge".to_string())))
    );
    let summary = &coord.lane_summaries()[0];
    assert_eq!(summary.turns_used, 0);
    assert_eq!(summary.tokens_used, 7);
    assert_eq!(summary.active_task_ids.len(), 0);

    let mut contract = LaneContract::minimal("scope");
    contract.budget.max_turns = Some(2);
    coord.register_lane(Lane::new("two", "d", contract));
    for id in ["a", "b", "c"] {
        coord.assign_task("two", id, id).expect("assign");
        coord.complete_task(id, 0).expect("complete");
    }
    assert_eq!(coord.lane_summaries()[1].turns_used, 2);
    assert!(matches!(coord.record_turn("two"), Err(LaneError::BudgetExceeded(_))));
}

#[test]
fn canonical_titles_ignore_case_and_space() {
    assert_eq!(canonical("  Review AUTH.rs "), "review auth.rs");
}

#[test]
fn lane_states_begin_unused() {
    let state = LaneState::new(lane("x"));
    assert!(state.has_task_capacity());
    assert!(state.can_use_turn());
    let mut contract = LaneContract::minimal("s");
    contract.budget.max_concurrent_tasks = Some(0);
    contract.budget.max_turns = Some(0);
    let closed = LaneState::new(Lane::new("y", "d", contract));
    assert!(!closed.has_task_capacity());
    assert!(!closed.can_use_turn());
}

#[test]
fn spent_lanes_take_no_turn() {
    let mut coord = LaneCoordinator::new();
    let mut spent = lane("spent");
    spent.contract.budget.max_turns = Some(0);
    coord.register_lane(spent);
    let refused = coord.record_turn("spent").expect_err("no turn is left");
    assert_eq!(
        refused.message(),
        "lane budget exceeded: lane 'spent' turn budget (0) exhausted"
    );
    assert_eq!(coord.lane_summaries()[0].turns_used, 0);
}
