use artesian::receipts::{
    check_admission, count_existing_lines, receipt_line, sanitize_run_label,
    task_boundary_from_instruction, truthy, BudgetEnvelope, ReceiptSequences, ReceiptWriter,
    ReceiptsConfig, StopReason, RECEIPT_TASK_BOUNDARY_CHARS,
};
use artesian::scores::Amount;

fn no_budget() -> BudgetEnvelope {
    BudgetEnvelope {
        max_tokens: None,
        max_tool_calls: None,
        max_wall_time_ms: None,
        max_cost_usd: None,
    }
}

#[test]
fn next_receipt_id_is_monotonic_and_run_scoped() {
    let mut sequences = ReceiptSequences::new();
    let writer = ReceiptWriter::open("/tmp/receipts", "team-x", false, &mut sequences, None);
    assert_eq!(writer.next_receipt_id(&mut sequences), "rc_team-x_000001");
    assert_eq!(writer.next_receipt_id(&mut sequences), "rc_team-x_000002");
    assert_eq!(writer.next_receipt_id(&mut sequences), "rc_team-x_000003");
}

#[test]
fn reopening_an_existing_file_resumes_the_sequence() {
    let contents = receipt_line("{\"kind\":\"spawn\"}");
    assert_eq!(count_existing_lines(Some(&contents)), 1);

    let mut sequences = ReceiptSequences::new();
    let writer =
        ReceiptWriter::open("/tmp/resume", "team-y", false, &mut sequences, Some(&contents));
    assert_eq!(writer.next_receipt_id(&mut sequences), "rc_team-y_000002");

    let other = ReceiptWriter::open("/tmp/other", "team-y", false, &mut sequences, None);
    assert_eq!(other.next_receipt_id(&mut sequences), "rc_team-y_000001");
}

#[test]
fn empty_or_punctuation_only_run_label_falls_back_to_adhoc() {
    let mut sequences = ReceiptSequences::new();
    let writer = ReceiptWriter::open("/tmp/adhoc", "", false, &mut sequences, None);
    assert_eq!(writer.run(), "adhoc");
    assert_eq!(writer.next_receipt_id(&mut sequences), "rc_adhoc_000001");
}

#[test]
fn writers_of_one_file_share_its_count() {
    let mut sequences = ReceiptSequences::new();
    let first = ReceiptWriter::open("/tmp/d", "team", true, &mut sequences, None);
    let second = ReceiptWriter::open("/tmp//d/", "team", false, &mut sequences, Some("a\nb\n"));
    assert_eq!(first.next_receipt_id(&mut sequences), "rc_team_000001");
    assert_eq!(second.next_receipt_id(&mut sequences), "rc_team_000002");
    assert_eq!(sequences.count("/tmp/d/receipts-team.jsonl"), Some(2));
    assert_eq!(sequences.count("/tmp/elsewhere"), None);
    assert_eq!(first.path(), "/tmp/d/receipts-team.jsonl");
    assert!(first.fsync());
    assert!(!second.fsync());
}

#[test]
fn existing_lines_are_counted_without_blank_ones() {
    assert_eq!(count_existing_lines(None), 0);
    assert_eq!(count_existing_lines(Some("")), 0);
    assert_eq!(count_existing_lines(Some("a\n\n  \nb")), 2);
}

#[test]
fn run_labels_hold_only_plain_characters() {
    assert_eq!(sanitize_run_label("team x/y"), "team-x-y");
    assert_eq!(sanitize_run_label("a_b-c9"), "a_b-c9");
    assert_eq!(sanitize_run_label("///"), "adhoc");
}

#[test]
fn run_labels_of_underscores_fall_back() {
    assert_eq!(sanitize_run_label("___"), "adhoc");
    assert_eq!(sanitize_run_label("-_-__-"), "adhoc");
    assert_eq!(sanitize_run_label("_ _"), "adhoc");
    assert_eq!(sanitize_run_label("__1__"), "__1__");
}

#[test]
fn fail_closed_refuses_budget_less_spawn() {
    let empty = no_budget();
    assert!(check_admission(&empty, true).is_err());
}

#[test]
fn fail_closed_allows_spawn_with_any_declared_dimension() {
    let one_dimension = BudgetEnvelope { max_wall_time_ms: Some(60_000), ..no_budget() };
    assert!(check_admission(&one_dimension, true).is_ok());
    let cost = BudgetEnvelope {
        max_cost_usd: Some(Amount { bits: 1.5f64.to_bits() }),
        ..no_budget()
    };
    assert!(check_admission(&cost, true).is_ok());
    assert!(no_budget().is_empty());
    assert!(!cost.is_empty());
}

#[test]
fn fail_open_allows_budget_less_spawn() {
    let empty = no_budget();
    assert!(check_admission(&empty, false).is_ok());
}

#[test]
fn receipts_config_defaults_to_fail_open() {
    assert!(!ReceiptsConfig::default().fail_closed);
    assert!(!ReceiptsConfig::from_env(None).fail_closed);
}

#[test]
fn receipts_config_follows_the_environment() {
    assert!(ReceiptsConfig::from_env(Some("1")).fail_closed);
    assert!(ReceiptsConfig::from_env(Some(" TRUE ")).fail_closed);
    assert!(!ReceiptsConfig::from_env(Some("0")).fail_closed);
    assert!(truthy("yes"));
    assert!(truthy("on"));
    assert!(!truthy("off"));
    assert!(!truthy(""));
}

#[test]
fn stop_reason_values_match_ocf_schema() {
    const SCHEMA_STOP_REASONS: [&str; 8] = [
        "done",
        "budget_tokens",
        "budget_tool_calls",
        "budget_time",
        "budget_cost",
        "gate_rejected",
        "error",
        "killed",
    ];
    let actual = [
        StopReason::Done,
        StopReason::BudgetTokens,
        StopReason::BudgetToolCalls,
        StopReason::BudgetTime,
        StopReason::BudgetCost,
        StopReason::GateRejected,
        StopReason::Error,
        StopReason::Killed,
    ]
    .map(|reason| reason.as_str());
    assert_eq!(actual, SCHEMA_STOP_REASONS);
}

#[test]
fn task_boundary_takes_first_line_and_truncates() {
    let instruction = format!("{}\nsecond line is dropped", "x".repeat(250));
    let boundary = task_boundary_from_instruction(&instruction);
    assert_eq!(boundary.chars().count(), RECEIPT_TASK_BOUNDARY_CHARS);
    assert!(!boundary.contains("second line"));
}

#[test]
fn task_boundary_of_nothing_is_empty() {
    assert_eq!(task_boundary_from_instruction(""), "");
    assert_eq!(task_boundary_from_instruction("one\r\ntwo"), "one");
}

#[test]
fn receipt_lines_end_with_a_newline() {
    assert_eq!(receipt_line("{}"), "{}\n");
}

#[test]
fn run_labels_are_their_own_labels() {
    for run in ["--a b--", "team/ß", "", "_x_"] {
        let label = sanitize_run_label(run);
        assert_eq!(sanitize_run_label(&label), label);
        assert!(!label.is_empty() && !label.starts_with('-') && !label.ends_with('-'));
    }
}
