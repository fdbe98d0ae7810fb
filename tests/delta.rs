use check_delta::ledger::{build_order, Dispatcher};
use check_delta::resolve::{affected_packages, deepest_root, is_under_root};
use check_delta::snapshot::{effective_old, Db};
use check_delta::timestamp::{is_stale, now, Timestamp};

fn s(x: &str) -> String {
    x.to_string()
}

fn ts(secs: u64) -> Timestamp {
    Timestamp::new(secs, 0)
}

fn snapshot(taken: u64, files: &[(&str, u64)]) -> Db {
    let mut db = Db::new();
    db.last_update = ts(taken);
    for (p, t) in files {
        db.insert_file(s(p), ts(*t));
    }
    db
}

fn sorted(mut v: Vec<String>) -> Vec<String> {
    v.sort();
    v
}

#[test]
fn scenario_modified_and_added_files() {
    let old = snapshot(1000, &[("a/src/lib.rs", 100)]);
    let new = snapshot(1010, &[("a/src/lib.rs", 200), ("b/src/lib.rs", 50)]);
    let d = old.diff(&new);
    assert_eq!(d.different_value, vec![s("a/src/lib.rs")]);
    assert_eq!(d.other_only, vec![s("b/src/lib.rs")]);
    assert!(d.this_only.is_empty());

    let roots = vec![s("a/"), s("b/")];
    let affected = affected_packages(&d.changed_paths(), &roots);
    assert_eq!(affected, vec![s("a/"), s("b/")]);

    let order = build_order(&affected, &old.failed_crates);
    let mut disp = Dispatcher::new(order, old.failed_crates.clone());
    let mut built = Vec::new();
    while let Some(p) = disp.next_package() {
        built.push(p);
        disp.record(Some(0));
    }
    assert_eq!(built, vec![s("a/"), s("b/")]);
    assert!(disp.ledger.is_empty());
    assert_eq!(disp.exit_code, None);
    assert!(disp.is_finished());
}

#[test]
fn diff_sets_are_disjoint_and_complete() {
    let old = snapshot(0, &[("x", 1), ("y", 2), ("z", 3)]);
    let new = snapshot(0, &[("y", 2), ("z", 4), ("w", 5)]);
    let d = old.diff(&new);
    assert_eq!(d.this_only, vec![s("x")]);
    assert_eq!(d.different_value, vec![s("z")]);
    assert_eq!(d.other_only, vec![s("w")]);
    assert_eq!(d.changed_paths(), vec![s("x"), s("z"), s("w")]);
}

#[test]
fn diff_with_itself_is_empty() {
    let a = snapshot(5, &[("p", 1), ("q", 2)]);
    let d = a.diff(&a);
    assert!(d.this_only.is_empty());
    assert!(d.different_value.is_empty());
    assert!(d.other_only.is_empty());
}

#[test]
fn diff_ignores_capture_time_and_ledger() {
    let a1 = snapshot(1, &[("f", 1)]);
    let mut a2 = snapshot(99, &[("f", 1)]);
    a2.failed_crates.push(s("pkg"));
    let b = snapshot(7, &[("f", 2), ("g", 3)]);
    let d1 = a1.diff(&b);
    let d2 = a2.diff(&b);
    assert_eq!(d1.this_only, d2.this_only);
    assert_eq!(d1.different_value, d2.different_value);
    assert_eq!(d1.other_only, d2.other_only);
}

#[test]
fn diff_compares_nanoseconds_exactly() {
    let mut a = Db::new();
    a.insert_file(s("f"), Timestamp::new(10, 1));
    let mut b = Db::new();
    b.insert_file(s("f"), Timestamp::new(10, 2));
    assert_eq!(a.diff(&b).different_value, vec![s("f")]);
}

#[test]
fn insert_file_replaces_earlier_entry() {
    let mut db = Db::new();
    db.insert_file(s("f"), ts(1));
    db.insert_file(s("f"), ts(2));
    assert_eq!(db.files.len(), 1);
    assert_eq!(db.files[0].1, ts(2));
}

#[test]
fn staleness_threshold() {
    assert!(is_stale(ts(100), ts(100 + 60 + 1), 60));
    assert!(!is_stale(ts(100), ts(100 + 60), 60));
    assert!(is_stale(ts(100), Timestamp::new(160, 1), 60));
    assert!(!is_stale(ts(500), ts(100), 60));
    assert!(!is_stale(ts(u64::MAX), ts(0), 0));
    assert!(is_stale(ts(0), ts(u64::MAX), u64::MAX - 1));
}

#[test]
fn stale_old_snapshot_makes_every_file_added() {
    let mut old = snapshot(1000, &[("a", 1), ("b", 2)]);
    old.failed_crates.push(s("pkg"));
    let new = snapshot(1000 + 30 + 1, &[("a", 1), ("b", 2)]);
    let base = effective_old(old, new.last_update, 30, false);
    assert!(base.files.is_empty());
    assert_eq!(base.failed_crates, vec![s("pkg")]);
    assert_eq!(base.last_update, new.last_update);
    let d = base.diff(&new);
    assert_eq!(d.other_only, vec![s("a"), s("b")]);
    assert!(d.this_only.is_empty());
    assert!(d.different_value.is_empty());
}

#[test]
fn fresh_old_snapshot_is_kept() {
    let old = snapshot(1000, &[("a", 1)]);
    let base = effective_old(old, ts(1010), 30, false);
    assert_eq!(base.last_update, ts(1000));
    assert_eq!(base.files.len(), 1);
}

#[test]
fn reset_drops_snapshot_and_ledger() {
    let mut old = snapshot(1000, &[("a", 1)]);
    old.failed_crates.push(s("pkg"));
    let base = effective_old(old, ts(1001), 30, true);
    assert!(base.files.is_empty());
    assert!(base.failed_crates.is_empty());
}

#[test]
fn root_match_respects_directory_boundaries() {
    assert!(is_under_root(&s("/ws/a"), &s("/ws/a/src/lib.rs")));
    assert!(is_under_root(&s("/ws/a/"), &s("/ws/a/src/lib.rs")));
    assert!(is_under_root(&s("/ws/a"), &s("/ws/a")));
    assert!(!is_under_root(&s("/ws/a"), &s("/ws/ab/src/lib.rs")));
    assert!(!is_under_root(&s("/ws/a/src"), &s("/ws/a")));
}

#[test]
fn nested_roots_deepest_wins() {
    let roots = vec![s("/ws"), s("/ws/inner"), s("/ws/other")];
    assert_eq!(deepest_root(&roots, &s("/ws/inner/src/lib.rs")), Some(1));
    assert_eq!(deepest_root(&roots, &s("/ws/src/main.rs")), Some(0));
    assert_eq!(deepest_root(&roots, &s("/elsewhere/x.rs")), None);
    let changed = vec![s("/ws/inner/a.rs"), s("/ws/b.rs"), s("/ws/inner/c.rs"), s("/tmp/d.rs")];
    assert_eq!(affected_packages(&changed, &roots), vec![s("/ws/inner"), s("/ws")]);
}

#[test]
fn fail_fast_stops_after_first_failure() {
    let order = vec![s("p1"), s("p2"), s("p3")];
    let mut disp = Dispatcher::new(order, Vec::new());
    let mut built = Vec::new();
    while let Some(p) = disp.next_package() {
        let code = if p == "p2" { Some(101) } else { Some(0) };
        built.push(p);
        disp.record(code);
    }
    assert_eq!(built, vec![s("p1"), s("p2")]);
    assert_eq!(disp.ledger, vec![s("p2")]);
    assert_eq!(disp.exit_code, Some(101));
}

#[test]
fn build_without_status_counts_as_failure() {
    let mut disp = Dispatcher::new(vec![s("p")], Vec::new());
    disp.record(None);
    assert_eq!(disp.exit_code, Some(1));
    assert_eq!(disp.ledger, vec![s("p")]);
    assert!(disp.next_package().is_none());
}

#[test]
fn failed_package_is_retried_next_run() {
    let mut disp = Dispatcher::new(vec![s("p")], Vec::new());
    disp.record(Some(2));
    let mut saved = Db::new();
    saved.failed_crates = disp.ledger.clone();
    let base = effective_old(saved, now(), 3600, false);
    let order = build_order(&Vec::new(), &base.failed_crates);
    assert_eq!(order, vec![s("p")]);
}

#[test]
fn build_order_puts_affected_first_without_repeats() {
    let affected = vec![s("b"), s("a")];
    let ledger = vec![s("c"), s("a"), s("d")];
    assert_eq!(build_order(&affected, &ledger), vec![s("b"), s("a"), s("c"), s("d")]);
}

#[test]
fn success_removes_package_from_ledger() {
    let mut disp = Dispatcher::new(vec![s("x"), s("y")], vec![s("y"), s("z")]);
    disp.record(Some(0));
    disp.record(Some(0));
    assert_eq!(sorted(disp.ledger.clone()), vec![s("z")]);
    assert!(disp.is_finished());
    assert_eq!(disp.exit_code, None);
}

#[test]
fn failure_keeps_unbuilt_ledger_entries() {
    let mut disp = Dispatcher::new(vec![s("x"), s("y")], vec![s("y")]);
    disp.record(Some(1));
    assert_eq!(disp.ledger, vec![s("y"), s("x")]);
    assert!(disp.next_package().is_none());
}

#[test]
fn clock_reads_after_epoch() {
    let t = now();
    assert!(t.secs > 0);
    assert!(t.nanos < 1_000_000_000);
}
