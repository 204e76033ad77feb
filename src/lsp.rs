//! Messages as they go to the display: a decoded frame body tagged with the
//! direction it travelled in.

use vstd::prelude::*;
use vstd::utf8::{decode_utf8, valid_utf8};
use crate::frame::{Frame, FrameError};

verus! {

/// Which way a frame travelled.
#[derive(Debug, Clone, Copy, PartialEq, Eq, Structural)]
pub enum Direction {
    /// From the editor to the language server.
    ClientToServer,
    /// From the language server to the editor.
    ServerToClient,
}

/// A decoded frame body, tagged by the side that sent it.
#[derive(Debug, Clone, PartialEq, Eq)]
pub enum LspMessage {
    Client(String),
    Server(String),
}

pub open spec fn message_direction(m: LspMessage) -> Direction {
    match m {
        LspMessage::Client(_) => Direction::ClientToServer,
        LspMessage::Server(_) => Direction::ServerToClient,
    }
}

pub open spec fn message_text(m: LspMessage) -> Seq<char> {
    match m {
        LspMessage::Client(t) => t@,
        LspMessage::Server(t) => t@,
    }
}

impl LspMessage {
    /// The decoded body.
    pub fn text(&self) -> (r: &String)
        ensures
            r@ == message_text(*self),
    {
        match self {
            LspMessage::Client(t) => t,
            LspMessage::Server(t) => t,
        }
    }

    /// The direction the message travelled in.
    pub fn direction(&self) -> (r: Direction)
        ensures
            r == message_direction(*self),
    {
        match self {
            LspMessage::Client(_) => Direction::ClientToServer,
            LspMessage::Server(_) => Direction::ServerToClient,
        }
    }
}

/// Relies on String::from_utf8: the text the bytes encode, or `None` when
/// they are not UTF-8.
#[verifier::external_body]
fn decode_body(bytes: Vec<u8>) -> (r: Option<String>)
    ensures
        match r {
            Some(s) => valid_utf8(bytes@) && s@ == decode_utf8(bytes@),
            None => !valid_utf8(bytes@),
        },
{
    String::from_utf8(bytes).ok()
}

/// Tags decoded text with its direction.
pub fn tag_message(text: String, direction: Direction) -> (r: LspMessage)
    ensures
        message_direction(r) == direction,
        message_text(r) == text@,
{
    match direction {
        Direction::ClientToServer => LspMessage::Client(text),
        Direction::ServerToClient => LspMessage::Server(text),
    }
}

/// The message for the display that a frame carries: its body decoded as
/// UTF-8, tagged with its direction. A body that is not UTF-8 gives
/// `InvalidEncoding`; the frame's raw bytes are forwarded all the same, and
/// the message is left out of the display.
pub fn message_of(frame: &Frame, direction: Direction) -> (r: Result<LspMessage, FrameError>)
    ensures
        match r {
            Ok(m) => {
                &&& valid_utf8(frame.body@)
                &&& message_direction(m) == direction
                &&& message_text(m) == decode_utf8(frame.body@)
            },
            Err(e) => e == FrameError::InvalidEncoding && !valid_utf8(frame.body@),
        },
{
    match decode_body(frame.body.clone()) {
        Some(text) => Ok(tag_message(text, direction)),
        None => Err(FrameError::InvalidEncoding),
    }
}

} // verus!
