//! Monitor policy: journal pressure, write-buffer pressure, idleness.

use lsm_core::monitor::{Monitor, MonitorInput};

#[test]
fn journal_pressure_rotates_the_pinning_partitions() {
    let monitor = Monitor::new(1000, 1_000_000);
    let input = MonitorInput {
        journal_disk_space: 600,
        partitions_pinning_oldest_journal: vec![b"old1".to_vec(), b"old2".to_vec()],
        partitions_with_queued_tasks: Vec::new(),
        write_buffer_size: 0,
        queued_size: 0,
        partitions: vec![(b"old1".to_vec(), 10), (b"old2".to_vec(), 20), (b"new".to_vec(), 5)],
    };
    let d = monitor.run(&input);
    assert!(!d.idle);
    assert_eq!(vec![b"old1".to_vec(), b"old2".to_vec()], d.journal_rotations);
    assert!(d.write_buffer_rotations.is_empty());
}

#[test]
fn journal_pressure_skips_queued_partitions() {
    let monitor = Monitor::new(1000, 1_000_000);
    let input = MonitorInput {
        journal_disk_space: 600,
        partitions_pinning_oldest_journal: vec![b"old1".to_vec(), b"old2".to_vec()],
        partitions_with_queued_tasks: vec![b"old1".to_vec()],
        write_buffer_size: 0,
        queued_size: 0,
        partitions: Vec::new(),
    };
    let d = monitor.run(&input);
    assert!(!d.idle);
    assert_eq!(vec![b"old2".to_vec()], d.journal_rotations);
}

#[test]
fn write_buffer_pressure_orders_by_size_descending() {
    let monitor = Monitor::new(1_000_000, 1000);
    let input = MonitorInput {
        journal_disk_space: 0,
        partitions_pinning_oldest_journal: Vec::new(),
        partitions_with_queued_tasks: vec![b"q".to_vec()],
        write_buffer_size: 900,
        queued_size: 100,
        partitions: vec![
            (b"small".to_vec(), 10),
            (b"big".to_vec(), 500),
            (b"q".to_vec(), 900),
            (b"mid".to_vec(), 200),
        ],
    };
    let d = monitor.run(&input);
    assert!(!d.idle);
    assert!(d.journal_rotations.is_empty());
    assert_eq!(
        vec![b"big".to_vec(), b"mid".to_vec(), b"small".to_vec()],
        d.write_buffer_rotations
    );
}

#[test]
fn below_both_thresholds_the_monitor_is_idle() {
    let monitor = Monitor::new(1000, 1000);
    let input = MonitorInput {
        journal_disk_space: 500,
        partitions_pinning_oldest_journal: vec![b"p".to_vec()],
        partitions_with_queued_tasks: Vec::new(),
        write_buffer_size: 700,
        queued_size: 300,
        partitions: vec![(b"p".to_vec(), 700)],
    };
    let d = monitor.run(&input);
    assert!(d.idle);
    assert!(d.journal_rotations.is_empty());
    assert!(d.write_buffer_rotations.is_empty());
}

#[test]
fn queued_bytes_are_subtracted_defensively() {
    let monitor = Monitor::new(1_000_000, 1000);
    // the queued counter briefly runs ahead; the subtraction saturates
    let input = MonitorInput {
        journal_disk_space: 0,
        partitions_pinning_oldest_journal: Vec::new(),
        partitions_with_queued_tasks: Vec::new(),
        write_buffer_size: 100,
        queued_size: 400,
        partitions: Vec::new(),
    };
    let d = monitor.run(&input);
    assert!(d.idle);
}
