//! What the I/O engine decides on its own.

use envoy_files::error::ErrorKind;
use envoy_files::eventbridge::EventBridge;
use envoy_files::io::{
    check_containment, check_location, closed_error, locate, mtime_parts, other_error, Fill,
    IoConfig, IoError,
};
use std::path::PathBuf;

/// Reads through `fill`, with reads of at most `step` bytes.
fn read_in_steps(file: &[u8], offset: u64, len: usize, step: usize) -> (Vec<u8>, usize) {
    let mut fill = Fill::start(offset, len);
    let mut reads = 0;
    while let Some((at, want)) = fill.next_read() {
        reads += 1;
        let at = (at as usize).min(file.len());
        let end = file.len().min(at + want.min(step));
        fill.accept(&file[at..end]);
    }
    (fill.buf, reads)
}

#[test]
fn short_reads_leave_no_gap() {
    let file = b"0123456789";
    for step in 1..=12 {
        assert_eq!(read_in_steps(file, 5, 5, step).0, b"56789");
        assert_eq!(read_in_steps(file, 0, 4, step).0, b"0123");
        // Reading past EOF returns the available prefix, then empty.
        assert_eq!(read_in_steps(file, 8, 10, step).0, b"89");
        assert_eq!(read_in_steps(file, 10, 4, step).0, b"");
    }
    assert_eq!(read_in_steps(file, 5, 5, 100).1, 1);
    assert_eq!(read_in_steps(file, 10, 4, 100).1, 1);
    assert_eq!(read_in_steps(file, 3, 0, 100), (Vec::new(), 1));
}

#[test]
fn modification_times_fall_back_to_the_epoch() {
    assert_eq!(mtime_parts(Some((7, 8))), (7, 8));
    assert_eq!(mtime_parts(None), (0, 0));
    assert_eq!(mtime_parts(Some((u64::MAX, 1))), (-1, 1));
    assert_eq!(mtime_parts(Some((1 << 63, 1))), (i64::MIN, 1));
}

#[test]
fn engine_errors_are_told_apart() {
    assert_eq!(other_error(), IoError { kind: ErrorKind::Other, raw_os_error: None });
    assert_eq!(closed_error(), IoError { kind: ErrorKind::NotFound, raw_os_error: None });
    assert_eq!(check_containment(None), Ok(()));
    assert_eq!(check_containment(Some(true)), Ok(()));
    let root = PathBuf::from("/srv/www");
    assert_eq!(check_location(&PathBuf::from("/srv/www/a"), &root), Ok(()));
    assert_eq!(check_location(&root, &root), Ok(()));
    for outside in ["/srv/www2/a", "/srv", "/etc/passwd"] {
        assert!(check_location(&PathBuf::from(outside), &root).is_err());
    }
    assert_eq!(
        check_containment(Some(false)),
        Err(IoError { kind: ErrorKind::PermissionDenied, raw_os_error: None })
    );
}

#[test]
fn default_pool_follows_the_machine() {
    assert_eq!(IoConfig::for_parallelism(Some(1)).blocking_threads, 1);
    assert_eq!(IoConfig::for_parallelism(Some(64)).blocking_threads, 4);
    assert_eq!(IoConfig::for_parallelism(None).blocking_threads, 2);
    assert!(!IoConfig::for_parallelism(None).force_blocking);
    assert_eq!(IoConfig { blocking_threads: 0, force_blocking: false }.pool_size(), 1);
    assert_eq!(IoConfig { blocking_threads: 9, force_blocking: false }.pool_size(), 9);
}

#[test]
fn events_come_out_in_order_until_the_bridge_is_closed() {
    let mut bridge = EventBridge::new();
    assert!(bridge.process().is_empty());
    assert_eq!(bridge.send(1), Ok(()));
    assert_eq!(bridge.process(), vec![1]);
    for event in 2..6 {
        assert_eq!(bridge.send(event), Ok(()));
    }
    assert_eq!(bridge.process(), vec![2, 3, 4, 5]);
    assert_eq!(bridge.send(6), Ok(()));
    bridge.close();
    assert_eq!(bridge.send(7), Err(7));
    assert!(bridge.process().is_empty());
    assert_eq!(bridge.send(8), Err(8));
}

#[test]
fn files_lie_below_the_root() {
    let root = PathBuf::from("/srv/www");
    let index = Some("index.html".to_string());
    assert_eq!(locate(&root, "a/b.txt", &None), PathBuf::from("/srv/www/a/b.txt"));
    assert_eq!(locate(&root, "a", &index), PathBuf::from("/srv/www/a/index.html"));
    assert_eq!(locate(&root, "", &index), PathBuf::from("/srv/www/index.html"));
    assert_eq!(locate(&root, "", &None), root);
}
