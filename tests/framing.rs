use mux::framing::OutputFramer;
use mux::runner::{OutputMessage, StreamType};

#[test]
fn a_task_becomes_one_box() {
    let mut f = OutputFramer::new(1);
    assert!(f.on_message(OutputMessage::status(1, "[n=1]", "started"), "").is_empty());
    assert!(f.on_message(OutputMessage::output(1, "[n=1]", "hello".to_string()), "").is_empty());
    assert!(f.on_message(OutputMessage::output(2, "", "other".to_string()), "").is_empty());
    let lines = f.on_message(OutputMessage::status(1, "[n=1]", "completed"), "0.50s");
    let labels: Vec<&str> = lines.iter().map(|l| l.runner_label.as_str()).collect();
    assert_eq!(labels, vec!["\0top:[n=1]", "\0box", "\0box", "\0box", "\0bot"]);
    assert_eq!(lines[2].content, "hello");
    assert_eq!(lines[2].stream, StreamType::Output);
    assert_eq!(lines[4].content, "0.50s");
    let rest = f.on_message(OutputMessage::status(2, "", "exited with code 1"), "1m5.2s");
    assert_eq!(rest.len(), 5);
    assert_eq!(rest[2].content, "other");
}
