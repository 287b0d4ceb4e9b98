use crab::logging::LogLevel;
use crab::queue::Queue;

#[test]
fn queue_is_fifo() {
    let mut q: Queue<u32> = Queue::new();
    assert!(q.is_empty());
    q.enqueue(1);
    q.enqueue(2);
    assert_eq!(q.dequeue(), Some(1));
    q.enqueue(3);
    assert_eq!(q.len(), 2);
    assert_eq!(q.dequeue(), Some(2));
    assert_eq!(q.dequeue(), Some(3));
    assert_eq!(q.dequeue(), None);
    assert!(q.is_empty());
}

#[test]
fn jobs_before_shutdowns_come_out_first() {
    let mut q: Queue<Option<u32>> = Queue::new();
    for j in 0..5 {
        q.enqueue(Some(j));
    }
    for _ in 0..2 {
        q.enqueue(None);
    }
    let mut seen = Vec::new();
    while let Some(Some(j)) = q.dequeue() {
        seen.push(j);
    }
    assert_eq!(seen, vec![0, 1, 2, 3, 4]);
    assert_eq!(q.dequeue(), Some(None));
}

#[test]
fn log_levels() {
    assert!(LogLevel::Error.enabled(LogLevel::Trace));
    assert!(!LogLevel::Trace.enabled(LogLevel::Warn));
    assert!(!LogLevel::Error.enabled(LogLevel::Off));
    assert_eq!(LogLevel::Info.name(), "Info");
    assert_eq!(LogLevel::from_rank(2), LogLevel::Warn);
    assert_eq!(LogLevel::from_rank(9), LogLevel::Trace);
    assert_eq!(LogLevel::Debug.rank(), 3);
}
