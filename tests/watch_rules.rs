use intern::watch::{chunk_ranges, event_path_relevant, process_event, scan_action, skips_directory, ScanAction, WatchEvent};

#[test]
fn events_under_vcs_or_svg_are_dropped() {
    assert!(!event_path_relevant("/home/u/p/.git/index"));
    assert!(!event_path_relevant("/home/u/p/.hg/store"));
    assert!(!event_path_relevant("/home/u/p/logo.svg"));
    assert!(event_path_relevant("/home/u/p/notes.txt"));
    assert!(event_path_relevant("/home/u/p/svg"));
}

#[test]
fn event_kinds_that_update() {
    assert!(process_event(WatchEvent::Create, "/a.txt"));
    assert!(process_event(WatchEvent::Write, "/a.txt"));
    assert!(process_event(WatchEvent::Chmod, "/a.txt"));
    assert!(process_event(WatchEvent::NoticeRemove, "/a.txt"));
    assert!(process_event(WatchEvent::NoticeWrite, "/a.txt"));
    assert!(process_event(WatchEvent::Remove, "/a.txt"));
    assert!(!process_event(WatchEvent::Rename, "/a.txt"));
    assert!(!process_event(WatchEvent::Rescan, "/a.txt"));
    assert!(!process_event(WatchEvent::Error, "/a.txt"));
    assert!(!process_event(WatchEvent::Write, "/r/.git/HEAD"));
}

#[test]
fn vcs_directories_are_skipped() {
    assert!(skips_directory(".git"));
    assert!(skips_directory(".hg"));
    assert!(!skips_directory("git"));
    assert!(!skips_directory(".github"));
    assert!(!skips_directory("build"));
}

#[test]
fn scan_actions() {
    assert_eq!(scan_action(true, true, &vec![]), ScanAction::Descend);
    assert_eq!(scan_action(true, false, &vec![]), ScanAction::Skip);
    assert_eq!(scan_action(false, true, &vec![false, true]), ScanAction::Skip);
    assert_eq!(scan_action(false, true, &vec![false, false]), ScanAction::Index);
    assert_eq!(scan_action(false, false, &vec![]), ScanAction::Index);
}

#[test]
fn chunks_cover_all_items() {
    assert_eq!(chunk_ranges(10, 4), vec![(0, 4), (4, 8), (8, 10)]);
    assert_eq!(chunk_ranges(8, 4), vec![(0, 4), (4, 8)]);
    assert!(chunk_ranges(0, 4).is_empty());
    assert_eq!(chunk_ranges(3, 8192), vec![(0, 3)]);
}
