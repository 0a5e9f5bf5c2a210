use got::curve::input_source;
use got::events::{events_in_range, Date, Event, EventKind};
use got::labelmap::LabelMap;
use got::naming::unique_output_name;
use got::survival::survival_deltas;

#[test]
fn output_names_are_unique_per_directory_name() {
    let mut used: LabelMap<()> = LabelMap::new();
    assert_eq!(unique_output_name(Some("repo"), &mut used), "repo");
    assert_eq!(unique_output_name(Some("repo"), &mut used), "repo-2");
    assert_eq!(unique_output_name(Some("other"), &mut used), "other");
    assert_eq!(unique_output_name(Some("repo"), &mut used), "repo-3");
    assert_eq!(unique_output_name(None, &mut used), "repository");
    assert_eq!(unique_output_name(Some(""), &mut used), "repository-2");
    let labels: Vec<&str> = used.entries.iter().map(|(l, _)| l.as_str()).collect();
    assert_eq!(labels, vec!["other", "repo", "repo-2", "repo-3", "repository", "repository-2"]);
}

#[test]
fn input_sources_prefer_the_directory_name() {
    assert_eq!(input_source(Some("first"), Some("cohorts")), "first");
    assert_eq!(input_source(Some(""), Some("cohorts")), "cohorts");
    assert_eq!(input_source(None, Some("cohorts")), "cohorts");
    assert_eq!(input_source(None, None), "input");
}

fn histories(entries: Vec<(&str, Vec<(i64, u64)>)>) -> LabelMap<Vec<(i64, u64)>> {
    LabelMap { entries: entries.into_iter().map(|(k, v)| (k.to_string(), v)).collect() }
}

#[test]
fn survival_deltas_sum_changes_per_elapsed_time() {
    let h = histories(vec![
        ("a", vec![(100, 10), (200, 8), (300, 5)]),
        ("b", vec![(1000, 4), (1100, 4)]),
        ("c", vec![]),
    ]);
    let d = survival_deltas(&h).unwrap();
    assert_eq!(d.total, 14);
    // a: +100 -> -2; +200 -> -3, then -5 left and -10 no longer observed.
    // b: +100 -> 0, then -4 left and -4 no longer observed.
    assert_eq!(d.deltas, vec![(100, -2 + 0 - 4, -4), (200, -3 - 5, -10)]);
}

#[test]
fn survival_deltas_of_no_history_are_empty() {
    let d = survival_deltas(&histories(vec![])).unwrap();
    assert_eq!(d.total, 0);
    assert!(d.deltas.is_empty());
}

fn event_on(day: u32) -> Event {
    Event {
        date: Date { year: 2024, month: 1, day },
        provider: "P".to_string(),
        model: "M".to_string(),
        event: EventKind::Pilot,
        scope: "S".to_string(),
        label: format!("day {day}"),
        source: "src".to_string(),
        notes: None,
    }
}

#[test]
fn events_outside_the_plotted_range_are_dropped() {
    let jan = |d: i64| 1_704_067_200 + (d - 1) * 86_400;
    let events = vec![event_on(1), event_on(5), event_on(10), event_on(20)];
    let kept = events_in_range(events, jan(5), jan(10));
    let labels: Vec<&str> = kept.iter().map(|e| e.label.as_str()).collect();
    assert_eq!(labels, vec!["day 5", "day 10"]);
}
