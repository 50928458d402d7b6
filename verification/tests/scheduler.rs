use nanoclaw_core::scheduler::{due_tasks, ScheduleType, Task};

#[test]
fn selects_only_active_due_tasks() {
    let tasks = vec![
        Task {
            id: "1".into(),
            schedule_type: ScheduleType::OnceIso,
            schedule_value: "2026-01-01T00:00:00Z".into(),
            next_run: Some("2026-01-01T00:00:00Z".into()),
            status: "active".into(),
        },
        Task {
            id: "2".into(),
            schedule_type: ScheduleType::IntervalMs,
            schedule_value: "60000".into(),
            next_run: Some("2026-01-01T00:00:00Z".into()),
            status: "paused".into(),
        },
    ];

    let due = due_tasks(&tasks, "2026-01-01T00:00:00Z");
    assert_eq!(due.len(), 1);
    assert_eq!(due[0].id, "1");
}

fn task(id: &str, next_run: Option<&str>) -> Task {
    Task {
        id: id.into(),
        schedule_type: ScheduleType::IntervalMs,
        schedule_value: "1000".into(),
        next_run: next_run.map(|s| s.to_string()),
        status: "active".into(),
    }
}

#[test]
fn future_and_unscheduled_tasks_are_not_due() {
    let tasks = vec![
        task("past", Some("2025-12-31T23:59:59Z")),
        task("future", Some("2026-01-01T00:00:01Z")),
        task("never", None),
        task("now", Some("2026-01-01T00:00:00Z")),
    ];
    let due: Vec<&str> = due_tasks(&tasks, "2026-01-01T00:00:00Z")
        .into_iter()
        .map(|t| t.id.as_str())
        .collect();
    assert_eq!(due, vec!["past", "now"]);
}
