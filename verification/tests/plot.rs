use got::curve::{align_curves, Curve, CurveError};
use got::events::{
    events_from_yaml, parse_date, provider_color, sort_events, Date, Event, EventError, EventKind, Field, Yaml,
};
use got::layout::{dash_runs, place_key, place_markers, Marker};
use got::targets::{hover_targets, label_baseline};
use got::svg::{embed_tooltips, SvgError, SvgTooltip};

fn curve(rows: Vec<Vec<u64>>, labels: Vec<&str>) -> Curve {
    let ncols = rows[0].len();
    let ts = (0..ncols).map(|i| 1_577_836_800 + 86_400 * i as i64).collect();
    Curve { y: rows, ts, labels: labels.into_iter().map(String::from).collect() }
}

/// Shares (in percent) of each value in its column's divisor; 0 where the
/// divisor is 0.
fn shares(y: &[Vec<u64>], col_sums: &[u64]) -> Vec<Vec<f64>> {
    y.iter()
        .map(|row| {
            row.iter()
                .enumerate()
                .map(|(i, &v)| if col_sums[i] == 0 { 0.0 } else { 100.0 * v as f64 / col_sums[i] as f64 })
                .collect()
        })
        .collect()
}

#[test]
fn line_plot_normalize_uses_pretrim_sums() {
    let c = curve(vec![vec![10, 10, 10], vec![50, 50, 50], vec![40, 40, 40]], vec!["c-small", "a-big", "b-mid"]);
    let pretrim = c.column_sums();
    assert_eq!(pretrim, vec![100, 100, 100]);
    let trimmed = c.top_n(2, false);
    assert_eq!(trimmed.labels, vec!["a-big", "b-mid"]);
    let norm = shares(&trimmed.y, &pretrim);
    for i in 0..3 {
        let col_total: f64 = norm.iter().map(|r| r[i]).sum();
        assert!((col_total - 90.0).abs() < 1e-9, "col {i}: expected 90.0, got {col_total}");
    }
    assert!((norm[0][0] - 50.0).abs() < 1e-9);
    assert!((norm[1][0] - 40.0).abs() < 1e-9);
}

#[test]
fn stack_plot_normalize_with_other_sums_to_100() {
    let c = curve(vec![vec![10, 10, 10], vec![50, 50, 50], vec![40, 40, 40]], vec!["c-small", "a-big", "b-mid"]);
    let trimmed = c.top_n(2, true);
    assert_eq!(trimmed.labels, vec!["a-big", "b-mid", "other"]);
    let sums = trimmed.column_sums();
    let norm = shares(&trimmed.y, &sums);
    for i in 0..3 {
        let total: f64 = norm.iter().map(|r| r[i]).sum();
        assert!((total - 100.0).abs() < 1e-9, "col {i}: {total}");
    }
}

#[test]
fn column_sums_zero_columns_produce_zero_shares() {
    let c = curve(vec![vec![0, 5], vec![0, 5]], vec!["a", "b"]);
    let sums = c.column_sums();
    assert_eq!(sums, vec![0, 10]);
    let norm = shares(&c.y, &sums);
    assert_eq!(norm[0][0], 0.0);
    assert_eq!(norm[1][0], 0.0);
    assert!((norm[0][1] - 50.0).abs() < 1e-9);
    assert!((norm[1][1] - 50.0).abs() < 1e-9);
}

#[test]
fn curves_parse_and_reject_bad_parts() {
    let ok = Curve::from_parts(
        vec![vec![1, 2]],
        vec!["2020-01-01T00:00:00".to_string(), "2020-01-02T00:00:00".to_string()],
        vec!["x".to_string()],
    )
    .unwrap();
    assert_eq!(ok.ts, vec![1_577_836_800, 1_577_923_200]);
    let bad = Curve::from_parts(vec![vec![1]], vec!["yesterday".to_string()], vec!["x".to_string()]);
    assert_eq!(bad.unwrap_err(), CurveError::BadTimestamp("yesterday".to_string()));
    let bad = Curve::from_parts(vec![vec![1]], vec!["2020-01-01T00:00:00".to_string()], vec![]);
    assert_eq!(bad.unwrap_err(), CurveError::RowCount { rows: 1, labels: 0 });
}

#[test]
fn aligning_repositories_prefixes_labels_and_carries_values_forward() {
    let a = Curve { y: vec![vec![1, 2]], ts: vec![10, 30], labels: vec!["Code added in 2020".to_string()] };
    let b = Curve { y: vec![vec![7]], ts: vec![20], labels: vec!["Code added in 2020".to_string()] };
    let c = align_curves(vec![("first".to_string(), a), ("second".to_string(), b)]).unwrap();
    assert_eq!(c.ts, vec![10, 20, 30]);
    assert_eq!(c.labels, vec!["first: Code added in 2020", "second: Code added in 2020"]);
    assert_eq!(c.y, vec![vec![1, 1, 2], vec![0, 7, 7]]);
    let single = Curve { y: vec![vec![4]], ts: vec![5], labels: vec!["alpha".to_string()] };
    let c = align_curves(vec![("only".to_string(), single)]).unwrap();
    assert_eq!(c.labels, vec!["alpha"]);
    assert!(matches!(align_curves(vec![]), Err(CurveError::NoInputs)));
}

#[test]
fn each_event_kind_has_a_distinct_line_pattern() {
    let kinds = [EventKind::Announced, EventKind::Available, EventKind::Pilot, EventKind::Default, EventKind::Retired];
    for (i, kind) in kinds.iter().enumerate() {
        for other in &kinds[i + 1..] {
            assert_ne!(kind.pattern(), other.pattern());
        }
    }
}

#[test]
fn event_kinds_round_trip_through_their_names() {
    for kind in [EventKind::Announced, EventKind::Available, EventKind::Pilot, EventKind::Default, EventKind::Retired] {
        assert_eq!(EventKind::parse(kind.as_str(), 0), Ok(kind));
    }
    assert_eq!(EventKind::parse("unknown", 3), Err(EventError::BadKind(3)));
}

#[test]
fn provider_colors_match_python() {
    assert_eq!(provider_color("anthropic"), (23, 190, 207));
    assert_eq!(provider_color("openai"), (140, 86, 75));
    assert_eq!(provider_color("deepseek"), (255, 127, 14));
    assert_eq!(provider_color("kimi"), (188, 189, 34));
}

fn date(year: i32, month: u32, day: u32) -> Date {
    Date { year, month, day }
}

#[test]
fn event_dates_accept_iso_dates_and_timestamps() {
    for (value, expected) in [
        ("2024-01-05", date(2024, 1, 5)),
        ("2024-01-05T12:34:56", date(2024, 1, 5)),
        ("2024-01-05T00:30:00+02:00", date(2024, 1, 4)),
        ("2024-01-05T23:30:00-02:00", date(2024, 1, 6)),
        ("2024-01-05T23:30:00.123456Z", date(2024, 1, 5)),
        ("2024-01-05 12:00:00Z", date(2024, 1, 5)),
        ("2024-01-05T12", date(2024, 1, 5)),
        ("2024-01-05T1230", date(2024, 1, 5)),
        ("2024-01-05T123000", date(2024, 1, 5)),
        ("2024-01-05T12:30:00+02", date(2024, 1, 5)),
        ("2024-01-05T24:00:00", date(2024, 1, 6)),
        ("2024-01-05T23:30:00,123456-0200", date(2024, 1, 6)),
    ] {
        assert_eq!(parse_date(value, 0), Ok(expected), "{value}");
    }
}

#[test]
fn event_dates_reject_partial_or_invalid_values() {
    for value in [
        "",
        "2024",
        "2024-01",
        "2024-001",
        "20240105",
        "2024-02-30",
        "2024-01-05not-a-time",
        "0000-01-01",
        "0001-01-01T00:00:00+02:00",
        "9999-12-31T23:00:00-02:00",
        "2024-01-05T23:59:60Z",
        "2024-01-05T24:00:01",
        "2024-01-05T12:30.5",
        "2024-01-05T24:00:00.1",
    ] {
        assert_eq!(parse_date(value, 7), Err(EventError::BadDate(7)), "{value}");
    }
}

fn s(v: &str) -> Yaml {
    Yaml::Str(v.to_string())
}

fn record(date: &str) -> Vec<(Yaml, Yaml)> {
    vec![
        (s("date"), s(date)),
        (s("provider"), s("Example")),
        (s("model"), s("Model")),
        (s("event"), s("available")),
        (s("scope"), s("public")),
        (s("label"), s("A model release")),
        (s("source"), s("release notes")),
    ]
}

fn manifest(records: Vec<Yaml>) -> Yaml {
    Yaml::Mapping(vec![(s("schema_version"), Yaml::Number(Some(1))), (s("events"), Yaml::List(records))])
}

fn with(mut r: Vec<(Yaml, Yaml)>, key: &str, value: Yaml) -> Vec<(Yaml, Yaml)> {
    for entry in r.iter_mut() {
        if matches!(&entry.0, Yaml::Str(k) if k == key) {
            entry.1 = value;
            return r;
        }
    }
    r.push((s(key), value));
    r
}

#[test]
fn manifests_reject_invalid_schema_versions() {
    for version in [Yaml::Bool(true), Yaml::Number(None), s("1"), Yaml::Null, Yaml::Number(Some(2))] {
        let doc = Yaml::Mapping(vec![(s("schema_version"), version), (s("events"), Yaml::List(vec![]))]);
        assert!(matches!(events_from_yaml(&doc), Err(EventError::BadSchemaVersion)));
    }
    let doc = Yaml::Mapping(vec![(s("events"), Yaml::List(vec![]))]);
    assert!(events_from_yaml(&doc).unwrap().is_empty());
    assert!(events_from_yaml(&manifest(vec![])).unwrap().is_empty());
}

#[test]
fn manifests_reject_invalid_shapes() {
    assert!(matches!(events_from_yaml(&Yaml::List(vec![])), Err(EventError::NotMapping)));
    assert!(matches!(events_from_yaml(&Yaml::Null), Err(EventError::NotMapping)));
    assert!(matches!(events_from_yaml(&Yaml::Mapping(vec![])), Err(EventError::NoEventList)));
    let doc = Yaml::Mapping(vec![(s("events"), Yaml::Mapping(vec![]))]);
    assert!(matches!(events_from_yaml(&doc), Err(EventError::NoEventList)));
    assert_eq!(events_from_yaml(&manifest(vec![s("bad")])).err(), Some(EventError::RecordNotMapping(0)));
    assert_eq!(
        events_from_yaml(&manifest(vec![Yaml::Mapping(vec![])])).err(),
        Some(EventError::MissingField(0, Field::Date))
    );
    let blank = with(record("2024-01-05"), "provider", s(" "));
    assert_eq!(
        events_from_yaml(&manifest(vec![Yaml::Mapping(blank)])).err(),
        Some(EventError::EmptyField(0, Field::Provider))
    );
    let number = with(record("2024-01-05"), "model", Yaml::Number(Some(3)));
    assert_eq!(
        events_from_yaml(&manifest(vec![Yaml::Mapping(number)])).err(),
        Some(EventError::EmptyField(0, Field::Model))
    );
    let unknown = with(record("2024-01-05"), "event", s("unknown"));
    assert_eq!(events_from_yaml(&manifest(vec![Yaml::Mapping(unknown)])).err(), Some(EventError::BadKind(0)));
    let notes = with(record("2024-01-05"), "notes", Yaml::Number(Some(3)));
    assert_eq!(events_from_yaml(&manifest(vec![Yaml::Mapping(notes)])).err(), Some(EventError::BadNotes(0)));
    let bad_date = with(record("2024-01-05"), "date", s("2024-02-30"));
    let good = Yaml::Mapping(record("2024-01-05"));
    assert_eq!(events_from_yaml(&manifest(vec![good, Yaml::Mapping(bad_date)])).err(), Some(EventError::BadDate(1)));
}

#[test]
fn retains_same_day_records_in_input_order() {
    let mut records = Vec::new();
    for (d, kind) in [
        ("2024-01-10", "retired"),
        ("2024-01-05", "available"),
        ("2023-12-01", "announced"),
        ("2024-01-05", "pilot"),
        ("2024-01-05T23:30:00-02:00", "announced"),
        ("2024-01-05", "default"),
    ] {
        records.push(Yaml::Mapping(with(record(d), "event", s(kind))));
    }
    let events = events_from_yaml(&manifest(records)).unwrap();
    let dates: Vec<Date> = events.iter().map(|e| e.date).collect();
    assert_eq!(
        dates,
        vec![date(2023, 12, 1), date(2024, 1, 5), date(2024, 1, 5), date(2024, 1, 5), date(2024, 1, 6), date(2024, 1, 10)]
    );
    let same_day: Vec<EventKind> = events.iter().filter(|e| e.date == date(2024, 1, 5)).map(|e| e.event).collect();
    assert_eq!(same_day, [EventKind::Available, EventKind::Pilot, EventKind::Default]);
}

fn event(label: &str, notes: Option<&str>) -> Event {
    Event {
        date: date(2024, 1, 5),
        provider: "Example A".to_string(),
        model: "Model One".to_string(),
        event: EventKind::Available,
        scope: "Public test preview".to_string(),
        label: label.to_string(),
        source: "release notes".to_string(),
        notes: notes.map(String::from),
    }
}

#[test]
fn tooltip_text_lists_metadata_and_notes() {
    let e = event("Available <One> & \"Two\"", Some("The UTC date is January 5."));
    assert_eq!(
        e.tooltip_text(),
        "Available <One> & \"Two\"\nDate: 2024-01-05\nProvider: Example A\n\
         Model: Model One\nEvent: available\nScope: Public test preview\n\
         Source: release notes\nNotes: The UTC date is January 5."
    );
    assert!(!event("x", Some("")).tooltip_text().contains("Notes:"));
    assert!(!event("x", None).tooltip_text().contains("Notes:"));
}

#[test]
fn sorting_events_is_stable() {
    let mut a = event("a", None);
    a.date = date(2024, 2, 1);
    let b = event("b", None);
    let c = event("c", None);
    let sorted = sort_events(vec![a, b, c]);
    let labels: Vec<&str> = sorted.iter().map(|e| e.label.as_str()).collect();
    assert_eq!(labels, vec!["b", "c", "a"]);
}

fn tooltip(id: &str, text: &str) -> SvgTooltip {
    SvgTooltip { id: id.to_string(), text: text.to_string(), x0: 1, y0: 2, x1: 5, y1: 10 }
}

#[test]
fn tooltips_are_escaped_and_placed_before_the_closing_tag() {
    let svg = "<svg><rect/></svg>\n";
    let out = embed_tooltips(svg, &vec![tooltip("event-line-1", "a<b>&c")]).unwrap();
    assert_eq!(
        out,
        "<svg><rect/><g id=\"event-line-1\" aria-labelledby=\"tooltip-event-line-1\" cursor=\"help\">\
         <title id=\"tooltip-event-line-1\">a&lt;b&gt;&amp;c</title>\
         <rect x=\"1\" y=\"2\" width=\"4\" height=\"8\" fill=\"none\" pointer-events=\"all\"/></g>\n</svg>\n"
    );
    assert_eq!(embed_tooltips(svg, &vec![]).unwrap(), svg);
}

#[test]
fn invalid_tooltip_text_is_refused() {
    let svg = "<svg></svg>";
    let r = embed_tooltips(svg, &vec![tooltip("a", "fine"), tooltip("b", "bad \0 text")]);
    assert_eq!(r, Err(SvgError::InvalidText(1)));
    assert_eq!(embed_tooltips("<svg>", &vec![tooltip("a", "x")]), Err(SvgError::NoRoot));
}

#[test]
fn dense_markers_in_one_lane_do_not_overlap() {
    let xs: Vec<i32> = (0..100).map(|i| 110 + (i % 10) * 190).collect();
    let widths: Vec<i32> = (0..100).map(|i| if i < 9 { 26 } else { 34 }).collect();
    let (markers, lanes) = place_markers(&xs, &widths, 110, 1889);
    assert_eq!(markers.len(), 100);
    for (i, a) in markers.iter().enumerate() {
        assert!(a.left >= 110);
        assert!(a.left + a.width <= 1889);
        assert!(a.lane < lanes);
        for b in &markers[i + 1..] {
            if a.lane == b.lane {
                assert!(a.left + a.width + 8 <= b.left || b.left + b.width + 8 <= a.left);
            }
        }
    }
}

#[test]
fn key_entries_of_one_column_do_not_overlap() {
    let counts: Vec<u64> = (0..100).map(|i| 1 + (i % 4) as u64).collect();
    let (positions, height) = place_key(&counts, 110, 1889);
    assert_eq!(positions.len(), 100);
    assert_eq!(positions[0], (110, 48));
    assert_eq!(positions[1].0, 110 + 593);
    for (i, a) in positions.iter().enumerate() {
        let bottom = a.1 + counts[i] as i64 * 26;
        assert!(bottom < height);
        for (j, b) in positions.iter().enumerate().skip(i + 1) {
            if i % 3 == j % 3 {
                assert!(bottom + 8 <= b.1);
            }
        }
    }
}

#[test]
fn dash_runs_follow_the_pattern() {
    assert_eq!(dash_runs(20, &vec![7, 5]), vec![(0, 7), (12, 19)]);
    assert_eq!(dash_runs(10, &vec![]), vec![(0, 10)]);
    assert_eq!(dash_runs(0, &vec![2, 4]), vec![]);
}

#[test]
fn hover_targets_cover_line_label_and_key() {
    let e = event("Launch", None);
    let marker = Marker { left: 100, width: 30, lane: 2 };
    assert_eq!(label_baseline(500, 2), 500 - 10 - 52);
    let t = hover_targets(4, &e, (112, 500), (112, 1400), 110, 1900, marker, (110, 48), 1600, 300, 3);
    let ids: Vec<&str> = t.iter().map(|x| x.id.as_str()).collect();
    assert_eq!(ids, vec!["event-line-5", "event-label-5", "event-key-5"]);
    assert!(t.iter().all(|x| x.text == e.tooltip_text()));
    assert_eq!((t[0].x0, t[0].y0, t[0].x1, t[0].y1), (110, 500, 116, 1400));
    assert_eq!((t[1].x0, t[1].y0, t[1].x1, t[1].y1), (100, 418, 130, 441));
    assert_eq!((t[2].x0, t[2].y0, t[2].x1, t[2].y1), (110, 1648, 450, 1726));
}

#[test]
fn other_row_keeps_column_totals() {
    let c = curve(vec![vec![1, 9, 0], vec![7, 2, 3], vec![4, 4, 4], vec![0, 0, 8]], vec!["d", "c", "b", "a"]);
    let before = c.column_sums();
    let trimmed = c.top_n(2, true);
    assert_eq!(trimmed.labels, vec!["a", "d", "other"]);
    assert_eq!(trimmed.column_sums(), before);
}

#[test]
fn checked_column_sums_detect_overflow() {
    let c = curve(vec![vec![1, 2], vec![3, 4]], vec!["a", "b"]);
    assert_eq!(c.checked_column_sums(), Some(vec![4, 6]));
    let big = curve(vec![vec![u64::MAX, 1], vec![1, 1]], vec!["a", "b"]);
    assert_eq!(big.checked_column_sums(), None);
}

#[test]
fn key_texts_and_target_order() {
    let e = event("Launch", None);
    let (head, label, scope) = got::targets::key_texts(2, &e);
    assert_eq!(head, "3. 2024-01-05 | Example A | available");
    assert_eq!(label, "Launch");
    assert!(scope.starts_with("Scope: "));
    let marker = Marker { left: 100, width: 30, lane: 0 };
    let a = hover_targets(0, &e, (112, 500), (112, 1400), 110, 1900, marker, (110, 48), 1600, 300, 3);
    let b = hover_targets(1, &e, (200, 500), (200, 1400), 110, 1900, marker, (700, 48), 1600, 300, 3);
    let ordered = got::targets::ordered_targets(&vec![a, b]);
    let ids: Vec<&str> = ordered.iter().map(|t| t.id.as_str()).collect();
    assert_eq!(ids, vec!["event-line-1", "event-line-2", "event-label-1", "event-key-1", "event-label-2", "event-key-2"]);
}

#[test]
fn key_heights_that_overflow_are_refused() {
    assert!(got::layout::key_fits(&vec![1, 2, 3, 4]));
    assert!(!got::layout::key_fits(&vec![u64::MAX / 2]));
}
