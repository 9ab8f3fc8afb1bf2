use iroh_esp32::alloc_log::{LogLine, LoggingAlloc, Operation, Output, BT_DEPTH, THRESHOLD};
use iroh_esp32::platform::gethostname;

#[test]
fn only_large_chunks_are_logged() {
    let log = LoggingAlloc;
    assert_eq!(log.allocated(0x1000, THRESHOLD - 1), None);
    assert_eq!(
        log.allocated(0x1000, THRESHOLD),
        Some(LogLine { operation: Operation::Alloc, pointer: 0x1000, size: 1024 }),
    );
    assert_eq!(log.alloc_zeroed(0x2000, 5000).unwrap().operation, Operation::AllocZeroed);
    assert_eq!(log.realloc(0x2000, 5000).unwrap().operation, Operation::Realloc);
    assert_eq!(log.dealloc(0x2000, 5000).unwrap().operation, Operation::Free);
    assert_eq!(log.dealloc(0x2000, 5), None);
}

#[test]
fn failed_allocations_are_not_logged() {
    let log = LoggingAlloc;
    assert_eq!(log.allocated(0, 4096), None);
    assert_eq!(log.alloc_zeroed(0, 4096), None);
    assert_eq!(log.realloc(0, 4096), None);
}

#[test]
fn addresses_are_cut_to_the_console() {
    let log = LoggingAlloc;
    let line = log.allocated(usize::MAX, usize::MAX).unwrap();
    assert_eq!((line.pointer, line.size), (u32::MAX, u32::MAX));
}

#[test]
fn lines_have_their_format() {
    let format = |operation| LogLine { operation, pointer: 1, size: 2 }.format();
    assert_eq!(format(Operation::Alloc), "[alloc] p=%x s=%u\n");
    assert_eq!(format(Operation::AllocZeroed), "[alloc0] p=%x s=%u\n");
    assert_eq!(format(Operation::Realloc), "[realloc] p=%x s=%u\n");
    assert_eq!(format(Operation::Free), "[free] p=%x s=%u\n");
}

#[test]
fn every_free_is_kept() {
    for operation in [Operation::Alloc, Operation::AllocZeroed, Operation::Realloc] {
        let line = LogLine { operation, pointer: 1, size: 2 };
        assert_eq!(line.output(false), Output::PrintWithStack { depth: BT_DEPTH });
        assert_eq!(line.output(true), Output::Skip);
    }
    let line = LogLine { operation: Operation::Free, pointer: 1, size: 2 };
    assert_eq!(line.output(false), Output::Print);
    assert_eq!(line.output(true), Output::Print);
}

#[test]
fn frees_pair_with_allocations() {
    let log = LoggingAlloc;
    for size in [1024usize, 4096, 1 << 20] {
        let gain = log.allocated(0xabc0, size).unwrap();
        let free = log.dealloc(0xabc0, size).unwrap();
        assert_eq!((gain.pointer, gain.size), (free.pointer, free.size));
    }
}

#[test]
fn the_host_has_no_name() {
    let mut name = *b"garbage";
    assert_eq!(gethostname(&mut name), 0);
    assert_eq!(&name, b"\0arbage");
    assert_eq!(gethostname(&mut []), 0);
}
