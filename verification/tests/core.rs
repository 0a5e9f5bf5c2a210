use chrono::TimeZone;

use got::analysis::{file_histogram, plan_commits, sample_commits, BlameHunk, TreeEntry};
use got::cohort::{format_cohort, sample_time_text};
use got::histogram::{Histogram, KeyKind};
use got::labelmap::{label_set, LabelMap};
use got::merge::{merge_results, AnalyzeResult, MergeError};
use got::output::curve_output;
use got::path_filter::PathFilter;
use got::paths::{extension, extract_domain, top_dir};
use got::tracker::{RecordError, Tracker};

fn map<V>(entries: Vec<(&str, V)>) -> LabelMap<V> {
    LabelMap {
        entries: entries.into_iter().map(|(k, v)| (k.to_string(), v)).collect(),
    }
}

fn get<'a, V>(m: &'a LabelMap<V>, key: &str) -> Option<&'a V> {
    m.entries.iter().find(|(l, _)| l == key).map(|(_, v)| v)
}

fn strings(v: &[&str]) -> Vec<String> {
    v.iter().map(|s| s.to_string()).collect()
}

fn empty_result(timestamps: Vec<i64>) -> AnalyzeResult {
    AnalyzeResult {
        timestamps,
        cohorts: LabelMap::new(),
        exts: LabelMap::new(),
        authors: LabelMap::new(),
        dirs: LabelMap::new(),
        domains: LabelMap::new(),
        survival: LabelMap::new(),
    }
}

#[test]
fn top_dir_matches_python() {
    assert_eq!(top_dir("src/foo/bar.rs"), "src/");
    assert_eq!(top_dir("README.md"), "/");
    assert_eq!(top_dir("a/b"), "a/");
}

#[test]
fn extension_matches_python() {
    assert_eq!(extension("foo/bar.rs"), ".rs");
    assert_eq!(extension("foo/bar"), "");
    assert_eq!(extension("foo/.bashrc"), "");
    assert_eq!(extension("foo/bar.tar.gz"), ".gz");
}

#[test]
fn extract_domain_handles_emails() {
    assert_eq!(extract_domain("alice@example.com"), "example.com");
    assert_eq!(extract_domain("noemail"), "noemail");
    assert_eq!(extract_domain(""), "");
}

#[test]
fn merge_results_sums_curves_and_orders_survival_by_time() {
    let mut a = empty_result(vec![1_000, 2_000]);
    a.cohorts = map(vec![("2020", vec![1u64, 1u64])]);
    a.survival = map(vec![("deadbeef", vec![(3000, 5), (1000, 9)])]);
    let mut b = empty_result(vec![3_000]);
    b.cohorts = map(vec![("2020", vec![5u64]), ("2021", vec![2u64])]);
    b.survival = map(vec![("deadbeef", vec![(2000, 7)])]);

    let merged = merge_results(&[a, b]).unwrap();

    assert_eq!(merged.timestamps, vec![1_000, 2_000, 3_000]);
    assert_eq!(get(&merged.cohorts, "2020"), Some(&vec![1, 1, 1 + 5]));
    assert_eq!(get(&merged.cohorts, "2021"), Some(&vec![0, 0, 2]));
    assert_eq!(
        get(&merged.survival, "deadbeef"),
        Some(&vec![(1000, 9), (2000, 7), (3000, 5)])
    );
}

#[test]
fn merge_of_no_result_fails() {
    let r = merge_results(&[]);
    assert!(matches!(r, Err(MergeError::NoResults)));
}

#[test]
fn merge_of_one_result_keeps_it() {
    let mut a = empty_result(vec![10, 20]);
    a.authors = map(vec![("Alice", vec![3u64, 4u64])]);
    let merged = merge_results(&[a]).unwrap();
    assert_eq!(merged.timestamps, vec![10, 20]);
    assert_eq!(get(&merged.authors, "Alice"), Some(&vec![3, 4]));
}

fn secs(y: i32, mo: u32, d: u32, h: u32, mi: u32, s: u32) -> i64 {
    chrono::Utc.with_ymd_and_hms(y, mo, d, h, mi, s).unwrap().timestamp()
}

#[test]
fn year_default() {
    assert_eq!(format_cohort(secs(2023, 4, 5, 6, 7, 8), "%Y").unwrap(), "2023");
}

#[test]
fn year_month() {
    assert_eq!(format_cohort(secs(2023, 4, 5, 6, 7, 8), "%Y-%m").unwrap(), "2023-04");
}

#[test]
fn literal_percent() {
    assert_eq!(format_cohort(secs(2023, 4, 5, 6, 7, 8), "%Y%%").unwrap(), "2023%");
}

#[test]
fn invalid_cohort_format_is_rejected() {
    let e = format_cohort(secs(2023, 4, 5, 6, 7, 8), "%Q").unwrap_err();
    assert_eq!(e.message(), "invalid cohort format string: %Q");
}

#[test]
fn sample_times_are_naive_iso() {
    assert_eq!(sample_time_text(secs(2020, 1, 15, 0, 0, 0)).unwrap(), "2020-01-15T00:00:00");
}

#[test]
fn filter_allows_default_ext() {
    let f = PathFilter::new(&vec![], &vec![], false).unwrap();
    assert!(f.allows("src/lib.rs"));
    assert!(f.allows("a/b/c.py"));
}

#[test]
fn filter_excludes_ignored_extensions() {
    let f = PathFilter::new(&vec![], &vec![], false).unwrap();
    assert!(!f.allows("README.md"));
    assert!(!f.allows("data/foo.json"));
}

#[test]
fn filter_all_filetypes_overrides() {
    let f = PathFilter::new(&vec![], &vec![], true).unwrap();
    assert!(f.allows("README.md"));
    assert!(f.allows("data/foo.json"));
}

#[test]
fn filter_only_and_ignore() {
    let f = PathFilter::new(&strings(&["src/**"]), &vec![], false).unwrap();
    assert!(f.allows("src/lib.rs"));
    assert!(!f.allows("tests/foo.rs"));

    let f = PathFilter::new(&vec![], &strings(&["**/generated/**"]), false).unwrap();
    assert!(f.allows("src/lib.rs"));
    assert!(!f.allows("src/generated/foo.rs"));
}

#[test]
fn filter_rejects_invalid_only_pattern() {
    let r = PathFilter::new(&strings(&["a[b"]), &vec![], false);
    assert!(matches!(r, Err(got::path_filter::FilterError::Only(_))));
    let r = PathFilter::new(&vec![], &strings(&["{x"]), false);
    assert!(matches!(r, Err(got::path_filter::FilterError::Ignore(_))));
}

#[test]
fn sampling_keeps_head_and_commits_older_than_the_interval() {
    // First-parent chain from the head, newest first.
    let dates = vec![1000, 990, 900, 850, 700, 100];
    let picked = sample_commits(&dates, 100);
    // Head (1000), then 850 (< 1000 - 100), then 700 (< 850 - 100), then 100.
    assert_eq!(picked, vec![5, 4, 3, 0]);
}

#[test]
fn sampling_an_empty_chain_picks_nothing() {
    assert!(sample_commits(&vec![], 7).is_empty());
}

fn entry(path: &str, blob: &str) -> TreeEntry {
    TreeEntry { path: path.to_string(), blob: blob.to_string() }
}

#[test]
fn plans_blame_only_new_and_changed_files() {
    let commits = vec![
        vec![entry("a.py", "1"), entry("b.py", "2")],
        vec![entry("a.py", "1"), entry("b.py", "3"), entry("c.py", "4")],
        vec![entry("c.py", "4")],
    ];
    let plans = plan_commits(&commits);
    assert_eq!(plans.len(), 3);
    let blamed = |k: usize| -> Vec<String> { plans[k].to_blame.iter().map(|e| e.path.clone()).collect() };
    assert_eq!(blamed(0), strings(&["a.py", "b.py"]));
    assert!(plans[0].paths_to_remove.is_empty());
    assert_eq!(blamed(1), strings(&["b.py", "c.py"]));
    assert_eq!(plans[1].paths_to_remove, strings(&["b.py"]));
    assert!(blamed(2).is_empty());
    let mut removed = plans[2].paths_to_remove.clone();
    removed.sort();
    assert_eq!(removed, strings(&["a.py", "b.py"]));
}

fn hunk(lines: u64, commit: &str, name: &str, email: &str) -> BlameHunk {
    BlameHunk {
        lines,
        commit: commit.to_string(),
        author_name: name.to_string(),
        author_email: email.to_string(),
    }
}

#[test]
fn file_histogram_counts_each_key() {
    let cohorts = map(vec![("c1", "2020".to_string())]);
    let hunks = vec![
        hunk(2, "c1", "Alice", "alice@example.com"),
        hunk(3, "zz", "Bob", "bob@other.org"),
        hunk(0, "c1", "Carol", "carol@example.com"),
    ];
    let h = file_histogram("src/x.py", &hunks, &cohorts);
    assert_eq!(h.get(KeyKind::Cohort, "2020"), 2);
    assert_eq!(h.get(KeyKind::Cohort, "MISSING"), 3);
    assert_eq!(h.get(KeyKind::Ext, ".py"), 5);
    assert_eq!(h.get(KeyKind::Dir, "src/"), 5);
    assert_eq!(h.get(KeyKind::Author, "Alice"), 2);
    assert_eq!(h.get(KeyKind::Author, "Carol"), 0);
    assert_eq!(h.get(KeyKind::Domain, "other.org"), 3);
    assert_eq!(h.get(KeyKind::Sha, "c1"), 2);
    assert_eq!(h.get(KeyKind::Sha, "zz"), 0);
}

fn tracker() -> Tracker {
    Tracker::new(
        &strings(&["2020", "2021"]),
        &strings(&[".py"]),
        &strings(&["Alice"]),
        &strings(&["/"]),
        &strings(&["example.com"]),
    )
}

#[test]
fn tracker_records_curves_and_survival() {
    let cohorts = map(vec![("c1", "2020".to_string()), ("c2", "2021".to_string())]);
    let mut t = tracker();
    let a1 = file_histogram("a.py", &vec![hunk(2, "c1", "Alice", "a@example.com")], &cohorts);
    t.record(100, &vec![], vec![("a.py".to_string(), a1)]).unwrap();
    let b = file_histogram("b.py", &vec![hunk(4, "c2", "Alice", "a@example.com")], &cohorts);
    let a2 = file_histogram(
        "a.py",
        &vec![hunk(1, "c1", "Alice", "a@example.com"), hunk(1, "c2", "Alice", "a@example.com")],
        &cohorts,
    );
    t.record(200, &strings(&["a.py"]), vec![("a.py".to_string(), a2), ("b.py".to_string(), b)]).unwrap();
    t.record(300, &strings(&["b.py"]), vec![]).unwrap();
    let r = t.finish();
    assert_eq!(r.timestamps, vec![100, 200, 300]);
    assert_eq!(get(&r.cohorts, "2020"), Some(&vec![2, 1, 1]));
    assert_eq!(get(&r.cohorts, "2021"), Some(&vec![0, 5, 1]));
    assert_eq!(get(&r.exts, ".py"), Some(&vec![2, 6, 2]));
    assert_eq!(get(&r.authors, "Alice"), Some(&vec![2, 6, 2]));
    assert_eq!(get(&r.survival, "c1"), Some(&vec![(100, 2), (200, 1), (300, 1)]));
    assert_eq!(get(&r.survival, "c2"), Some(&vec![(200, 5), (300, 1)]));
}

#[test]
fn tracker_refuses_a_file_counted_twice() {
    let cohorts = map(vec![("c1", "2020".to_string())]);
    let mut t = tracker();
    let h = || file_histogram("a.py", &vec![hunk(2, "c1", "Alice", "a@example.com")], &cohorts);
    t.record(100, &vec![], vec![("a.py".to_string(), h())]).unwrap();
    let r = t.record(200, &vec![], vec![("a.py".to_string(), h())]);
    assert_eq!(r, Err(RecordError::AlreadyLive));
    let r = t.record(200, &vec![], vec![("b.py".to_string(), h()), ("b.py".to_string(), h())]);
    assert_eq!(r, Err(RecordError::AlreadyLive));
    let result = t.finish();
    assert_eq!(result.timestamps, vec![100]);
}

#[test]
fn tracker_refuses_overflowing_counts() {
    let mut t = tracker();
    let mut big = Histogram::new();
    big.set(KeyKind::Ext, ".py", u64::MAX);
    let mut one = Histogram::new();
    one.set(KeyKind::Ext, ".py", 1);
    t.record(1, &vec![], vec![("a.py".to_string(), big)]).unwrap();
    let r = t.record(2, &vec![], vec![("b.py".to_string(), one)]);
    assert_eq!(r, Err(RecordError::Overflow));
    assert_eq!(RecordError::Overflow.message(), "a line count does not fit in 64 bits");
}

#[test]
fn label_sets_drop_duplicates_and_sort() {
    let s = label_set(&strings(&["b", "a", "b", "c"]));
    let labels: Vec<&str> = s.entries.iter().map(|(l, _)| l.as_str()).collect();
    assert_eq!(labels, vec!["a", "b", "c"]);
    assert!(s.is_sorted());
}

#[test]
fn curve_output_labels_cohorts() {
    let series = map(vec![("2020", vec![1u64, 2u64])]);
    let out = curve_output(&series, &vec![secs(2020, 1, 1, 0, 0, 0), secs(2020, 1, 8, 0, 0, 0)], true).unwrap();
    assert_eq!(out.labels, vec!["Code added in 2020".to_string()]);
    assert_eq!(out.y, vec![vec![1, 2]]);
    assert_eq!(out.ts, strings(&["2020-01-01T00:00:00", "2020-01-08T00:00:00"]));
    let plain = curve_output(&series, &vec![0], false).unwrap();
    assert_eq!(plain.labels, vec!["2020".to_string()]);
}

#[test]
fn each_line_is_counted_once_in_every_category() {
    let cohorts = map(vec![("c1", "2020".to_string())]);
    let hunks = vec![
        hunk(2, "c1", "Alice", "alice@example.com"),
        hunk(3, "zz", "Bob", "bob@other.org"),
        hunk(4, "c1", "Alice", "alice@example.com"),
    ];
    let h = file_histogram("src/x.py", &hunks, &cohorts);
    for k in [KeyKind::Cohort, KeyKind::Ext, KeyKind::Author, KeyKind::Dir, KeyKind::Domain] {
        let total: u64 = h.map(k).entries.iter().map(|(_, n)| *n).sum();
        assert_eq!(total, 9);
    }
    let shas: u64 = h.map(KeyKind::Sha).entries.iter().map(|(_, n)| *n).sum();
    assert_eq!(shas, 6);
}

#[test]
fn parsed_histories_keep_the_last_of_repeated_ids() {
    let m = got::labelmap::from_entries(vec![
        ("b".to_string(), 1u64),
        ("a".to_string(), 2),
        ("b".to_string(), 3),
    ]);
    assert_eq!(m.entries, vec![("a".to_string(), 2), ("b".to_string(), 3)]);
}

#[test]
fn written_sample_times_read_back() {
    let series = map(vec![("2020", vec![1u64, 2])]);
    let times = vec![0i64, 1_700_000_000];
    let out = curve_output(&series, &times, true).unwrap();
    let c = got::curve::Curve::from_parts(out.y, out.ts, out.labels).unwrap();
    assert_eq!(c.ts, times);
    assert_eq!(c.labels, vec!["Code added in 2020"]);
}
