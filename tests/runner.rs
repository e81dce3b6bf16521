use mux::runner::{error_status_message, exit_status_message, LineBuffer, OutputMessage, StreamType};

#[test]
fn test_output_message_constructors() {
    let msg = OutputMessage::output(1, "[n=3]", "hello".to_string());
    assert_eq!(msg.task_id, 1);
    assert_eq!(msg.runner_label, "[n=3]");
    assert_eq!(msg.stream, StreamType::Output);
    assert_eq!(msg.content, "hello");

    let msg = OutputMessage::status(3, "", "started");
    assert_eq!(msg.stream, StreamType::Status);
    assert_eq!(msg.content, "started");
    assert_eq!(msg.runner_label, "");
}

#[test]
fn line_buffer_splits_and_strips_carriage_returns() {
    let mut b = LineBuffer::new();
    assert!(b.push_bytes(b"hel").is_empty());
    assert_eq!(b.push_bytes(b"lo\r\nwor"), vec!["hello"]);
    assert_eq!(b.push_bytes(b"ld\r\r\n\nend"), vec!["world", ""]);
    assert_eq!(b.finish(), Some("end".to_string()));
    assert_eq!(b.finish(), None);
}

#[test]
fn status_texts() {
    assert_eq!(exit_status_message(true, 0), "completed");
    assert_eq!(exit_status_message(false, 42), "exited with code 42");
    assert_eq!(error_status_message("boom"), "error: boom");
}
