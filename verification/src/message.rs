use vstd::prelude::*;

verus! {

/// What kind of envelope is on the wire: a request from a client, a
/// successful response, a failed response, or an unsolicited event.
#[derive(Clone, Copy, PartialEq, Eq, Structural, Debug)]
pub enum MessageKind {
    Request,
    Response,
    ResponseError,
    Event,
}

/// The admin envelope: a kind, a sequence number echoed on responses, a
/// method or event name, and a payload. The transport encodes the payload
/// bytes; the graph core only fills the fields.
pub struct Message {
    pub kind: MessageKind,
    pub seq: Option<u32>,
    pub name: Option<String>,
    pub body: Option<String>,
}

/// The envelope that reports a failed request: it echoes the request's
/// sequence number and carries the error text, and nothing else.
pub fn error_message(seq: u32, text: String) -> (m: Message)
    ensures
        m.kind == MessageKind::ResponseError,
        m.seq == Some(seq),
        m.name is None,
        m.body matches Some(b) && b@ == text@,
{
    Message { kind: MessageKind::ResponseError, seq: Some(seq), name: None, body: Some(text) }
}

} // verus!
