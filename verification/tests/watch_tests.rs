use nascraft::watch::WatchReconciler;
use nascraft::watch::WatchEventKind;
use nascraft::watch::is_blank_str;
use nascraft::watch::normalize_dirs;
use nascraft::watch::paths_to_emit;

fn strings(items: &[&str]) -> Vec<String> {
    items.iter().map(|s| s.to_string()).collect()
}

fn reconciler() -> WatchReconciler {
    let watcher = notify::recommended_watcher(
        |_res: Result<notify::Event, notify::Error>| {},
    )
    .expect("watcher");
    WatchReconciler::new(watcher)
}

fn sorted(mut v: Vec<String>) -> Vec<String> {
    v.sort();
    v
}

#[test]
fn blank_detection() {
    assert!(is_blank_str(""));
    assert!(is_blank_str("   "));
    assert!(is_blank_str(" \t\r\n"));
    assert!(!is_blank_str(" /srv "));
}

#[test]
fn normalization_drops_blanks_and_duplicates() {
    let out = normalize_dirs(strings(&["/srv", "", "  ", "/srv", "/media"]));
    assert_eq!(out, strings(&["/srv", "/media"]));
}

#[test]
fn convergence_to_desired_set() {
    let mut r = reconciler();
    assert!(r.update_watch_dirs(strings(&["/srv", "/srv", "  "])).is_ok());
    assert_eq!(r.watched_dirs(), &strings(&["/srv"]));
    assert!(r.update_watch_dirs(strings(&["/media", "/srv"])).is_ok());
    assert_eq!(
        sorted(r.watched_dirs().clone()),
        sorted(strings(&["/media", "/srv"]))
    );
    assert!(r.update_watch_dirs(strings(&["/media"])).is_ok());
    assert_eq!(r.watched_dirs(), &strings(&["/media"]));
    assert!(r.update_watch_dirs(strings(&[])).is_ok());
    assert!(r.watched_dirs().is_empty());
}

#[test]
fn repeated_update_performs_no_operations() {
    let mut r = reconciler();
    assert!(r.update_watch_dirs(strings(&["/srv", "/media"])).is_ok());
    let before = r.op_counts();
    assert!(r.update_watch_dirs(strings(&["/media", "/srv", " ", "/srv"])).is_ok());
    let after = r.op_counts();
    assert_eq!(before, after);
    assert!(r.update_watch_dirs(strings(&["/srv"])).is_ok());
    assert_ne!(after, r.op_counts());
}

#[test]
fn failed_registration_reports_error() {
    let mut r = reconciler();
    assert!(r.update_watch_dirs(strings(&["/srv"])).is_ok());
    let err = r.update_watch_dirs(strings(&["/srv", "/no_such_directory_anywhere"]));
    assert!(err.is_err());
    // The path watched before the failure stays watched; a corrected list
    // converges again.
    assert!(r.update_watch_dirs(strings(&["/srv"])).is_ok());
    assert_eq!(r.watched_dirs(), &strings(&["/srv"]));
}

#[test]
fn only_creation_events_emit_paths() {
    let paths = strings(&["/srv/new_file"]);
    assert_eq!(
        paths_to_emit(WatchEventKind::Create, paths.clone()),
        paths
    );
    assert!(paths_to_emit(WatchEventKind::Modify, paths.clone()).is_empty());
    assert!(paths_to_emit(WatchEventKind::Remove, paths.clone()).is_empty());
    assert!(paths_to_emit(WatchEventKind::Other, paths).is_empty());
}
