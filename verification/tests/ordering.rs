use genchat::file_io::FileIO;
use genchat::file_io::FileIOMessage;
use genchat::file_io::Message;
use genchat::queue::CommandQueue;

fn write_msg(text: &str) -> FileIOMessage {
    FileIOMessage {
        text: text.to_string(),
        message: Message::Write,
        file_name: "p".to_string(),
    }
}

#[test]
fn full_queue_refuses_instead_of_dropping() {
    let mut q = CommandQueue::new(2);
    assert!(q.try_send(write_msg("one")));
    assert!(q.try_send(write_msg("two")));
    // backpressure: the third command is refused, not lost or reordered
    assert!(!q.try_send(write_msg("three")));
    assert_eq!(q.len(), 2);
    let first = q.recv().unwrap();
    assert_eq!(first.text, "one");
    // after the worker drains one slot the sender's retry succeeds
    assert!(q.try_send(write_msg("three")));
    assert_eq!(q.recv().unwrap().text, "two");
    assert_eq!(q.recv().unwrap().text, "three");
    assert!(q.recv().is_none());
}

#[test]
fn received_commands_are_a_prefix_of_sent_commands_in_order() {
    let mut q = CommandQueue::new(8);
    let sent = ["a", "b", "c", "d", "e"];
    for t in sent {
        assert!(q.try_send(write_msg(t)));
    }
    let mut received: Vec<String> = Vec::new();
    while let Some(m) = q.recv() {
        received.push(m.text);
    }
    assert_eq!(received, sent.iter().map(|t| t.to_string()).collect::<Vec<String>>());
}

#[test]
fn worker_applies_commands_in_queue_order() {
    // the appends a block produces stay in order through the queue
    let mut q = CommandQueue::new(4);
    assert!(q.try_send(write_msg("```python\nfirst\n")));
    assert!(q.try_send(write_msg("second\n")));
    assert!(q.try_send(write_msg("```\n")));
    let mut io = FileIO::new();
    let mut contents = String::new();
    while let Some(m) = q.recv() {
        for op in io.handle_message(m) {
            match op {
                genchat::file_io::FileOp::Append { text, .. } => contents.push_str(&text),
                genchat::file_io::FileOp::Delete { .. } => panic!("expected appends only"),
            }
        }
    }
    assert_eq!(contents, "first\nsecond\n");
}
