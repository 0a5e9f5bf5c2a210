use got::events::{events_from_bytes, Event, EventKind, ManifestError};
use got::survival::survival_from_bytes;

/// Reads the events of a manifest's text, with the error's message.
fn load_events(text: &str) -> Result<Vec<Event>, String> {
    events_from_bytes(text.as_bytes()).map_err(|e| match e {
        ManifestError::Syntax(msg) => msg,
        ManifestError::Content(e) => e.message(),
    })
}

fn record(date: &str) -> String {
    format!(
        "events:\n  - date: {date}\n    provider: Example\n    model: Model\n    event: available\n    scope: public\n    label: A model release\n    source: release notes\n"
    )
}

fn date_text(e: &Event) -> String {
    format!("{:04}-{:02}-{:02}", e.date.year, e.date.month, e.date.day)
}

#[test]
fn accepts_dates_and_normalizes_timestamps_to_utc() {
    for (value, expected) in [
        ("2024-01-05", "2024-01-05"),
        ("'2024-01-05'", "2024-01-05"),
        ("2024-01-05T12:34:56", "2024-01-05"),
        ("2024-01-05T00:30:00+02:00", "2024-01-04"),
        ("2024-01-05T23:30:00-02:00", "2024-01-06"),
        ("2024-01-05T23:30:00.123456Z", "2024-01-05"),
        ("'2024-01-05 12:00:00Z'", "2024-01-05"),
        ("2024-01-05T12", "2024-01-05"),
        ("2024-01-05T1230", "2024-01-05"),
        ("2024-01-05T123000", "2024-01-05"),
        ("2024-01-05T12:30:00+02", "2024-01-05"),
        ("2024-01-05T24:00:00", "2024-01-06"),
        ("2024-01-05T23:30:00,123456-0200", "2024-01-06"),
    ] {
        let events = load_events(&record(value)).unwrap();
        assert_eq!(date_text(&events[0]), expected, "{value}");
    }
}

#[test]
fn rejects_partial_or_invalid_dates() {
    for value in [
        "null",
        "''",
        "true",
        "123",
        "'2024'",
        "'2024-01'",
        "'2024-001'",
        "'20240105'",
        "'2024-02-30'",
        "'2024-01-05not-a-time'",
        "'0000-01-01'",
        "'0001-01-01T00:00:00+02:00'",
        "'9999-12-31T23:00:00-02:00'",
        "'2024-01-05T23:59:60Z'",
        "'2024-01-05T24:00:01'",
        "'2024-01-05T12:30.5'",
        "'2024-01-05T24:00:00.1'",
    ] {
        let error = load_events(&record(value)).unwrap_err();
        assert!(error.contains("events[0].date"), "{value}: {error}");
    }
}

#[test]
fn rejects_invalid_schema_versions() {
    for version in ["true", "1.0", "'1'", "null", "2"] {
        let error = load_events(&format!("schema_version: {version}\nevents: []")).unwrap_err();
        assert!(error.contains("schema_version must be 1"), "{error}");
    }
    for input in ["events: []", "schema_version: 1\nevents: []"] {
        assert!(load_events(input).unwrap().is_empty());
    }
}

#[test]
fn rejects_invalid_manifest_shapes() {
    for (input, expected) in [
        ("[]".to_string(), "YAML mapping"),
        ("".to_string(), "YAML mapping"),
        ("{}".to_string(), "events list"),
        ("events: {}".to_string(), "events list"),
        ("events: [bad]".to_string(), "events[0] must be a YAML mapping"),
        ("events: [{}]".to_string(), "missing required field"),
        (record("2024-01-05").replace("provider: Example", "provider: ' '"), "provider must be a non-empty string"),
        (record("2024-01-05").replace("model: Model", "model: 3"), "model must be a non-empty string"),
        (record("2024-01-05").replace("event: available", "event: unknown"), "event must be one of"),
        (format!("{}    notes: 3\n", record("2024-01-05")), "notes must be a string"),
    ] {
        let error = load_events(&input).unwrap_err();
        assert!(error.contains(expected), "{error}");
    }
}

/// A manifest shaped as the shared one the plots are tested with: records
/// out of date order, three on one day, an excluded-looking label kept.
const SHARED: &str = "schema_version: 1
events:
  - date: 2024-01-10
    provider: Example B
    model: Model Two
    event: retired
    scope: Public
    label: Last-day retirement
    source: release notes
  - date: 2024-01-05T12:00:00Z
    provider: Example A
    model: Model One
    event: available
    scope: Public test preview
    label: 'Available <One> & \"Two\"'
    source: release notes
    notes: The UTC date is January 5.
  - date: 2023-12-01
    provider: Example C
    model: Model Three
    event: announced
    scope: Public
    label: Excluded early announcement
    source: blog
  - date: 2024-01-05
    provider: Example B
    model: Model Two
    event: pilot
    scope: Restricted group
    label: Pilot launch
    source: release notes
  - date: 2024-01-01
    provider: Example A
    model: Model One
    event: announced
    scope: Public
    label: First-day announcement
    source: blog
  - date: 2024-01-05
    provider: Example C
    model: Model Three
    event: default
    scope: All users
    label: Default switch
    source: release notes
  - date: 2024-02-01
    provider: Example C
    model: Model Three
    event: retired
    scope: Public
    label: Excluded late retirement
    source: blog
";

#[test]
fn shared_manifest_dates_order_and_metadata() {
    let events = load_events(SHARED).unwrap();
    let dates: Vec<String> = events.iter().map(date_text).collect();
    assert_eq!(
        dates,
        ["2023-12-01", "2024-01-01", "2024-01-05", "2024-01-05", "2024-01-05", "2024-01-10", "2024-02-01"]
    );
    assert_eq!(events[2].event, EventKind::Available);
    assert_eq!(events[3].event, EventKind::Pilot);
    assert_eq!(events[4].event, EventKind::Default);
    assert_eq!(events[2].notes.as_deref(), Some("The UTC date is January 5."));
    assert_eq!(events[2].label, "Available <One> & \"Two\"");
}

#[test]
fn survival_files_parse_into_sorted_histories() {
    let m = survival_from_bytes(br#"{"b": [[10, 3], [20, 2]], "a": [[5, 1]]}"#).unwrap();
    let keys: Vec<&str> = m.entries.iter().map(|(k, _)| k.as_str()).collect();
    assert_eq!(keys, vec!["a", "b"]);
    assert_eq!(m.entries[1].1, vec![(10, 3), (20, 2)]);
    assert!(survival_from_bytes(b"[1, 2]").is_err());
    assert!(survival_from_bytes(b"{\"a\": [[1, -2]]}").is_err());
}

#[test]
fn tags_are_looked_through_where_strings_lists_and_mappings_are_read() {
    let text = "!doc\nevents: !list\n  - !rec\n    date: !d 2024-01-05\n    provider: !p Example\n    model: Model\n    event: available\n    scope: public\n    label: A model release\n    source: release notes\n";
    let events = load_events(text).unwrap();
    assert_eq!(date_text(&events[0]), "2024-01-05");
    assert_eq!(events[0].provider, "Example");
}

#[test]
fn tagged_notes_and_schema_versions_are_refused() {
    let notes = format!("{}    notes: !n text\n", record("2024-01-05"));
    assert!(load_events(&notes).unwrap_err().contains("notes must be a string"));
    let version = format!("schema_version: !v 1\n{}", record("2024-01-05"));
    assert!(load_events(&version).unwrap_err().contains("schema_version must be 1"));
}
