use remote_agent::messages::{socket_reader_step, MessageBuffer, SocketEvent};
use remote_agent::output::{pipe_reader_step, OutputBuffer, PipeRead};

#[test]
fn output_is_handed_out_once_in_order() {
    let mut b = OutputBuffer::new();
    assert!(b.drain().is_empty());
    b.append(b"hello ");
    b.append(b"world");
    assert_eq!(b.drain(), b"hello world".to_vec());
    assert!(b.drain().is_empty());
    b.append(b"\x1b[31mred");
    assert_eq!(b.drain(), b"\x1b[31mred".to_vec());
    assert!(b.drain().is_empty());
}

#[test]
fn pipe_reader_stops_at_end_or_error() {
    let mut b = OutputBuffer::new();
    assert!(pipe_reader_step(&mut b, PipeRead::Bytes(b"abc".to_vec())));
    assert!(pipe_reader_step(&mut b, PipeRead::Bytes(b"de".to_vec())));
    assert!(!pipe_reader_step(&mut b, PipeRead::Bytes(Vec::new())));
    assert_eq!(b.drain(), b"abcde".to_vec());
    assert!(!pipe_reader_step(&mut b, PipeRead::Failed));
    assert!(b.drain().is_empty());
}

#[test]
fn messages_are_handed_out_in_order() {
    let mut b = MessageBuffer::new();
    b.push_text("one".to_string());
    b.push_binary(vec![1, 2, 3]);
    let (msgs, connected) = b.drain();
    assert!(connected);
    assert_eq!(msgs.len(), 2);
    assert_eq!(msgs[0].text_data.as_deref(), Some("one"));
    assert!(msgs[0].binary_data.is_none());
    assert_eq!(msgs[1].binary_data.as_deref(), Some(&[1u8, 2, 3][..]));
    assert!(msgs[1].text_data.is_none());
    let (msgs, connected) = b.drain();
    assert!(msgs.is_empty());
    assert!(connected);
}

#[test]
fn disconnect_keeps_queued_messages() {
    let mut b = MessageBuffer::new();
    b.push_text("last".to_string());
    b.mark_disconnected();
    let (msgs, connected) = b.drain();
    assert_eq!(msgs.len(), 1);
    assert!(!connected);
    let (msgs, connected) = b.drain();
    assert!(msgs.is_empty());
    assert!(!connected);
}

#[test]
fn socket_reader_steps() {
    let mut b = MessageBuffer::new();
    assert!(socket_reader_step(&mut b, SocketEvent::Text("hi".to_string())));
    assert!(socket_reader_step(&mut b, SocketEvent::Binary(vec![9])));
    assert!(socket_reader_step(&mut b, SocketEvent::Control));
    assert!(socket_reader_step(&mut b, SocketEvent::Idle));
    let (msgs, connected) = b.drain();
    assert_eq!(msgs.len(), 2);
    assert!(connected);
    assert!(!socket_reader_step(&mut b, SocketEvent::Close));
    let (_, connected) = b.drain();
    assert!(!connected);
    let mut c = MessageBuffer::new();
    assert!(!socket_reader_step(&mut c, SocketEvent::Failed));
    assert!(!c.drain().1);
}
