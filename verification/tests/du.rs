use coreutils::du::{DirEntryInfo, DuTask};

fn entry(path: &str, is_dir: bool, size: u64) -> DirEntryInfo {
    DirEntryInfo { path: path.to_string(), is_dir, size }
}

#[test]
fn new_task_enters_its_path() {
    let task = DuTask::new(String::from("."));
    assert_eq!(task.path, ".");
    assert!(task.enter);
    assert!(task.next.is_none());
}

#[test]
fn enter_step_sums_files_and_schedules_dirs() {
    let task = DuTask::new(String::from("root"));
    let listing = vec![
        entry("root/a.txt", false, 10),
        entry("root/sub1", true, 0),
        entry("root/b.txt", false, 32),
        entry("root/sub2", true, 0),
    ];
    let mut carry: Vec<u64> = vec![0];
    let (next, report) = task.run_step(Some(listing), &mut carry);
    assert!(report.is_none());
    // The plain files' sizes are pushed for this directory.
    assert_eq!(carry, vec![0, 42]);
    // The chain enters the subdirectories (most recent first), then
    // summarizes this path.
    let t1 = *next.unwrap();
    assert_eq!(t1.path, "root/sub2");
    assert!(t1.enter);
    let t2 = *t1.next.unwrap();
    assert_eq!(t2.path, "root/sub1");
    assert!(t2.enter);
    let t3 = *t2.next.unwrap();
    assert_eq!(t3.path, "root");
    assert!(!t3.enter);
    assert!(t3.next.is_none());
}

#[test]
fn enter_step_with_unreadable_directory() {
    let task = DuTask::new(String::from("gone"));
    let mut carry: Vec<u64> = vec![7];
    let (next, report) = task.run_step(None, &mut carry);
    assert!(report.is_none());
    assert_eq!(carry, vec![7, 0]);
    let t = *next.unwrap();
    assert_eq!(t.path, "gone");
    assert!(!t.enter);
}

#[test]
fn summary_step_folds_into_parent() {
    let task = DuTask { next: None, path: String::from("root/sub"), enter: false };
    let mut carry: Vec<u64> = vec![0, 5, 37];
    let (next, report) = task.run_step(None, &mut carry);
    assert!(next.is_none());
    let (total, path) = report.unwrap();
    assert_eq!(total, 37);
    assert_eq!(path, "root/sub");
    assert_eq!(carry, vec![0, 42]);
}

#[test]
fn traversal_accumulates_totals() {
    // A root with one file and one subdirectory holding a file: driving the
    // task list by hand yields the subdirectory's total, then the root's.
    let mut carry: Vec<u64> = vec![0];
    let root = DuTask::new(String::from("r"));
    let (next, _) = root.run_step(
        Some(vec![entry("r/f", false, 100), entry("r/d", true, 0)]),
        &mut carry,
    );
    let enter_d = *next.unwrap();
    assert_eq!(enter_d.path, "r/d");
    let (next, _) = enter_d.run_step(Some(vec![entry("r/d/g", false, 11)]), &mut carry);
    let sum_d = *next.unwrap();
    assert!(!sum_d.enter);
    let (next, report) = sum_d.run_step(None, &mut carry);
    assert_eq!(report.unwrap(), (11, String::from("r/d")));
    let sum_r = *next.unwrap();
    let (next, report) = sum_r.run_step(None, &mut carry);
    assert!(next.is_none());
    assert_eq!(report.unwrap(), (111, String::from("r")));
    assert_eq!(carry, vec![111]);
}
