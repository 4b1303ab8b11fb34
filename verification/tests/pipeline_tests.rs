use lazylog::HandoffQueue;
use lazylog::enqueue_all;
use lazylog::ingest_batch;
use lazylog::pipeline_step;
use lazylog::PipelineState;
use lazylog::PipelineEvent;
use lazylog::PipelineAction;
use lazylog::LogItem;
use lazylog::DyehParser;

fn entry(content: &str) -> LogItem {
    LogItem::new(content.to_string(), content.to_string())
}

#[test]
fn queue_is_fifo() {
    let mut q = HandoffQueue::new(4);
    assert_eq!(q.capacity(), 4);
    assert_eq!(q.len(), 0);
    assert!(q.try_push(entry("one")));
    assert!(q.try_push(entry("two")));
    assert_eq!(q.len(), 2);
    let first = q.try_pop().unwrap();
    assert_eq!(first.content, "one");
    let second = q.try_pop().unwrap();
    assert_eq!(second.content, "two");
    assert!(q.try_pop().is_none());
}

#[test]
fn full_queue_rejects_the_incoming_entry() {
    let mut q = HandoffQueue::new(2);
    assert!(q.try_push(entry("a")));
    assert!(q.try_push(entry("b")));
    assert!(!q.try_push(entry("c")));
    assert_eq!(q.len(), 2);
    assert_eq!(q.try_pop().unwrap().content, "a");
}

#[test]
fn overflow_drops_newest_and_never_exceeds_capacity() {
    let mut q = HandoffQueue::new(3);
    let batch: Vec<LogItem> = (0..10).map(|i| entry(&format!("e{}", i))).collect();
    let dropped = enqueue_all(&mut q, batch);
    assert_eq!(dropped, 7);
    assert_eq!(q.len(), 3);
    assert_eq!(q.try_pop().unwrap().content, "e0");
    assert_eq!(q.try_pop().unwrap().content, "e1");
    assert_eq!(q.try_pop().unwrap().content, "e2");
}

#[test]
fn ingest_batch_parses_and_enqueues_in_order() {
    let parser = DyehParser::new();
    let mut q = HandoffQueue::new(8);
    let raws = vec![
        "## 2025-01-15 10:30:00\n[a.rs:1] INFO ## [T]first".to_string(),
        "plain passthrough line".to_string(),
    ];
    let (pushed, dropped) = ingest_batch(&parser, &mut q, &raws);
    assert_eq!(pushed, 2);
    assert_eq!(dropped, 0);
    assert_eq!(q.try_pop().unwrap().content, "first");
    assert_eq!(q.try_pop().unwrap().content, "plain passthrough line");
}

#[test]
fn ingest_batch_drops_on_full_queue() {
    let parser = DyehParser::new();
    let mut q = HandoffQueue::new(1);
    let raws = vec!["one".to_string(), "two".to_string(), "three".to_string()];
    let (pushed, dropped) = ingest_batch(&parser, &mut q, &raws);
    assert_eq!(pushed, 1);
    assert_eq!(dropped, 2);
    assert_eq!(q.len(), 1);
    assert_eq!(q.try_pop().unwrap().content, "one");
}

#[test]
fn pipeline_transition_table() {
    assert_eq!(
        pipeline_step(PipelineState::NotStarted, PipelineEvent::StartSucceeded),
        (PipelineState::Running, PipelineAction::PollSource)
    );
    assert_eq!(
        pipeline_step(PipelineState::NotStarted, PipelineEvent::StartFailed),
        (PipelineState::Stopped, PipelineAction::Terminate)
    );
    assert_eq!(
        pipeline_step(PipelineState::Running, PipelineEvent::StopRequested),
        (PipelineState::Stopped, PipelineAction::StopSource)
    );
    assert_eq!(
        pipeline_step(PipelineState::Running, PipelineEvent::BatchArrived),
        (PipelineState::Running, PipelineAction::PollSource)
    );
    assert_eq!(
        pipeline_step(PipelineState::Running, PipelineEvent::PollFailed),
        (PipelineState::Running, PipelineAction::PollSource)
    );
    assert_eq!(
        pipeline_step(PipelineState::Stopped, PipelineEvent::BatchArrived),
        (PipelineState::Stopped, PipelineAction::Terminate)
    );
}
