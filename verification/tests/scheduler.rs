use dicom_scanner::processor::ScanResult;
use dicom_scanner::scheduler::{Scheduler, WorkQueue};

#[test]
fn work_queue_is_last_in_first_out() {
    let mut q: WorkQueue<usize> = WorkQueue::new();
    assert_eq!(q.len(), 0);
    assert_eq!(q.pop(), None);
    q.push(1);
    q.push(2);
    q.push(3);
    assert_eq!(q.len(), 3);
    assert_eq!(q.pop(), Some(3));
    assert_eq!(q.pop(), Some(2));
    assert_eq!(q.pop(), Some(1));
    assert_eq!(q.pop(), None);
}

#[test]
fn fresh_scheduler_is_done_with_nothing_counted() {
    let s: Scheduler<String> = Scheduler::new(4);
    assert!(s.is_done());
    assert_eq!(s.active_count, 0);
    assert_eq!(s.dir_count, 0);
}

#[test]
fn root_dispatch_counts_the_root_once() {
    let mut s: Scheduler<String> = Scheduler::new(2);
    s.dispatch_root();
    assert_eq!(s.active_count, 1);
    assert_eq!(s.dir_count, 1);
    assert!(!s.is_done());
}

#[test]
fn completion_frees_the_slot_and_queues_discoveries() {
    let mut s: Scheduler<String> = Scheduler::new(1);
    s.dispatch_root();
    let partial = ScanResult {
        dicom_entries: Vec::new(),
        dicom_file_count: 0,
        total_file_count: 7,
    };
    s.on_unit_complete(partial, vec!["/r/a".to_string(), "/r/b".to_string()]);
    assert_eq!(s.active_count, 0);
    assert_eq!(s.dir_count, 1);
    assert_eq!(s.aggregate.total_file_count, 7);
    assert!(s.can_dispatch());
}

#[test]
fn dispatch_honors_the_concurrency_limit() {
    let mut s: Scheduler<String> = Scheduler::new(2);
    s.dispatch_root();
    let subdirs: Vec<String> = (0..5).map(|i| format!("/r/{}", i)).collect();
    s.on_unit_complete(ScanResult::default(), subdirs);
    let mut dispatched: usize = 0;
    while s.can_dispatch() {
        let _ = s.dispatch_next();
        dispatched += 1;
    }
    // Capacity, not the queue, stops the refill: two slots, five pending.
    assert_eq!(dispatched, 2);
    assert_eq!(s.active_count, 2);
    assert!(s.active_count <= s.concurrency_limit);
    assert_eq!(s.queue.len(), 3);
    assert_eq!(s.dir_count, 3);
}

#[test]
fn failed_unit_frees_the_slot_without_contributing() {
    let mut s: Scheduler<String> = Scheduler::new(3);
    s.dispatch_root();
    s.on_unit_failed();
    assert_eq!(s.active_count, 0);
    assert_eq!(s.dir_count, 1);
    assert_eq!(s.aggregate.total_file_count, 0);
    assert!(s.is_done());
}

#[test]
fn finish_reports_the_aggregate_and_the_directory_count() {
    let mut s: Scheduler<String> = Scheduler::new(2);
    s.dispatch_root();
    s.on_unit_complete(
        ScanResult {
            dicom_entries: Vec::new(),
            dicom_file_count: 0,
            total_file_count: 2,
        },
        vec!["/r/a".to_string()],
    );
    let t = s.dispatch_next();
    assert_eq!(t, "/r/a".to_string());
    s.on_unit_complete(
        ScanResult {
            dicom_entries: Vec::new(),
            dicom_file_count: 0,
            total_file_count: 4,
        },
        Vec::new(),
    );
    assert!(s.is_done());
    let (aggregate, dirs) = s.finish();
    assert_eq!(aggregate.total_file_count, 6);
    assert_eq!(dirs, 2);
}
