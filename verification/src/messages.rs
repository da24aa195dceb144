//! Messages received on a proxied WebSocket, held until the client polls for them.
use vstd::prelude::*;

verus! {

/// One received message: binary data or text, never both.
#[derive(Debug)]
pub struct WebSocketMessage {
    pub binary_data: Option<Vec<u8>>,
    pub text_data: Option<String>,
}

/// What a poll of a WebSocket session answers: the new messages, and whether the
/// connection is still open.
#[derive(Debug)]
pub struct WebSocketData {
    pub messages: Vec<WebSocketMessage>,
    pub connected: bool,
}

/// The messages received since the last poll, and the state of the connection.
pub struct MessageBuffer {
    messages: Vec<WebSocketMessage>,
    connected: bool,
}

impl MessageBuffer {
    /// The messages not yet handed out, oldest first.
    pub closed spec fn queued(&self) -> Seq<WebSocketMessage> {
        self.messages@
    }

    /// Whether the connection has not been seen to close.
    pub closed spec fn is_connected(&self) -> bool {
        self.connected
    }

    pub fn new() -> (b: Self)
        ensures
            b.queued() == Seq::<WebSocketMessage>::empty(),
            b.is_connected(),
    {
        MessageBuffer { messages: Vec::new(), connected: true }
    }

    /// Queues a binary message.
    pub fn push_binary(&mut self, data: Vec<u8>)
        ensures
            final(self).queued() == old(self).queued().push(
                WebSocketMessage { binary_data: Some(data), text_data: None },
            ),
            final(self).is_connected() == old(self).is_connected(),
    {
        self.messages.push(WebSocketMessage { binary_data: Some(data), text_data: None });
    }

    /// Queues a text message.
    pub fn push_text(&mut self, text: String)
        ensures
            final(self).queued() == old(self).queued().push(
                WebSocketMessage { binary_data: None, text_data: Some(text) },
            ),
            final(self).is_connected() == old(self).is_connected(),
    {
        self.messages.push(WebSocketMessage { binary_data: None, text_data: Some(text) });
    }

    /// Records that the connection is gone; the queued messages stay.
    pub fn mark_disconnected(&mut self)
        ensures
            final(self).queued() == old(self).queued(),
            !final(self).is_connected(),
    {
        self.connected = false;
    }

    /// Hands out every queued message, oldest first, with the state of the connection,
    /// and empties the queue.
    pub fn drain(&mut self) -> (r: (Vec<WebSocketMessage>, bool))
        ensures
            r.0@ == old(self).queued(),
            r.1 == old(self).is_connected(),
            final(self).queued() == Seq::<WebSocketMessage>::empty(),
            final(self).is_connected() == old(self).is_connected(),
    {
        let mut out: Vec<WebSocketMessage> = Vec::new();
        std::mem::swap(&mut out, &mut self.messages);
        (out, self.connected)
    }
}

/// What one read from a WebSocket gave.
pub enum SocketEvent {
    Binary(Vec<u8>),
    Text(String),
    /// The peer closed the connection.
    Close,
    /// A ping, a pong or a raw frame, which the socket answers by itself.
    Control,
    /// The read timed out or would block; nothing arrived.
    Idle,
    /// Any other error.
    Failed,
}

/// One round of the loop that reads a WebSocket into its buffer: data is queued and
/// reading goes on; a close or an error marks the session disconnected and stops it.
pub fn socket_reader_step(buf: &mut MessageBuffer, event: SocketEvent) -> (go_on: bool)
    ensures
        go_on == !(event is Close || event is Failed),
        go_on ==> final(buf).is_connected() == old(buf).is_connected(),
        !go_on ==> !final(buf).is_connected(),
        event matches SocketEvent::Binary(d) ==> final(buf).queued() == old(buf).queued().push(
            WebSocketMessage { binary_data: Some(d), text_data: None },
        ),
        event matches SocketEvent::Text(t) ==> final(buf).queued() == old(buf).queued().push(
            WebSocketMessage { binary_data: None, text_data: Some(t) },
        ),
        !(event is Binary || event is Text) ==> final(buf).queued() == old(buf).queued(),
{
    match event {
        SocketEvent::Binary(d) => {
            buf.push_binary(d);
            true
        },
        SocketEvent::Text(t) => {
            buf.push_text(t);
            true
        },
        SocketEvent::Close => {
            buf.mark_disconnected();
            false
        },
        SocketEvent::Control => true,
        SocketEvent::Idle => true,
        SocketEvent::Failed => {
            buf.mark_disconnected();
            false
        },
    }
}

} // verus!
