//! What the display keeps: every message received, in the order it came, and
//! which one is selected.

use vstd::prelude::*;
use crate::lsp::{Direction, LspMessage, message_direction};

verus! {

/// An event for the display.
#[derive(Debug, Clone)]
pub enum Message {
    /// A message has come in from the relay.
    MessageReceived(LspMessage),
    /// The user picked the message at this index.
    SetShownMessageId(usize),
}

/// The display's state.
pub struct LspInspector {
    lsp_messages: Vec<LspMessage>,
    selected_message_index: Option<usize>,
}

/// The state as the messages received and the index selected.
pub struct InspectorView {
    pub messages: Seq<LspMessage>,
    pub selected: Option<usize>,
}

impl View for LspInspector {
    type V = InspectorView;

    closed spec fn view(&self) -> InspectorView {
        InspectorView { messages: self.lsp_messages@, selected: self.selected_message_index }
    }
}

/// The state after one event.
pub open spec fn step(s: InspectorView, e: Message) -> InspectorView {
    match e {
        Message::MessageReceived(m) => InspectorView { messages: s.messages.push(m), selected: s.selected },
        Message::SetShownMessageId(i) => InspectorView { messages: s.messages, selected: Some(i) },
    }
}

/// The state after a run of events, first to last.
pub open spec fn run(s: InspectorView, es: Seq<Message>) -> InspectorView
    decreases es.len(),
{
    if es.len() == 0 {
        s
    } else {
        step(run(s, es.drop_last()), es.last())
    }
}

/// The messages that a run of events delivers, in order.
pub open spec fn received(es: Seq<Message>) -> Seq<LspMessage>
    decreases es.len(),
{
    if es.len() == 0 {
        seq![]
    } else {
        match es.last() {
            Message::MessageReceived(m) => received(es.drop_last()).push(m),
            Message::SetShownMessageId(_) => received(es.drop_last()),
        }
    }
}

/// The messages that travelled in direction `d`, in order.
pub open spec fn from_direction(ms: Seq<LspMessage>, d: Direction) -> Seq<LspMessage> {
    ms.filter(|m: LspMessage| message_direction(m) == d)
}

/// Order within a direction is kept: whatever comes in from the other
/// direction in between, the messages of one direction stand in the display
/// in the order they were delivered.
pub proof fn lemma_direction_order(s: InspectorView, es: Seq<Message>, d: Direction)
    ensures
        run(s, es).messages == s.messages + received(es),
        from_direction(run(s, es).messages, d) == from_direction(s.messages, d) + from_direction(
            received(es),
            d,
        ),
    decreases es.len(),
{
    if es.len() > 0 {
        lemma_direction_order(s, es.drop_last(), d);
        let prev = received(es.drop_last());
        match es.last() {
            Message::MessageReceived(m) => {
                assert(s.messages + prev.push(m) =~= (s.messages + prev).push(m));
            },
            Message::SetShownMessageId(_) => {},
        }
    } else {
        assert(s.messages + received(es) =~= s.messages);
    }
    Seq::filter_distributes_over_add(
        s.messages,
        received(es),
        |m: LspMessage| message_direction(m) == d,
    );
}

impl LspInspector {
    /// An empty display: no messages, none selected.
    pub fn new() -> (r: Self)
        ensures
            r@.messages == Seq::<LspMessage>::empty(),
            r@.selected is None,
    {
        Self { lsp_messages: Vec::new(), selected_message_index: None }
    }

    /// Applies one event: a received message goes to the end of the list; a
    /// selection replaces the one before.
    pub fn update(&mut self, message: Message)
        ensures
            final(self)@ == step(old(self)@, message),
    {
        match message {
            Message::MessageReceived(message) => {
                self.lsp_messages.push(message);
            },
            Message::SetShownMessageId(id) => {
                self.selected_message_index = Some(id);
            },
        }
    }

    /// Every message received, in the order it came.
    pub fn messages(&self) -> (r: &Vec<LspMessage>)
        ensures
            r@ == self@.messages,
    {
        &self.lsp_messages
    }

    /// The index the user selected last, if any.
    pub fn selected_index(&self) -> (r: Option<usize>)
        ensures
            r == self@.selected,
    {
        self.selected_message_index
    }

    /// The message to show in full: the selected one, when the selection is
    /// within the list.
    pub fn selected_message(&self) -> (r: Option<&LspMessage>)
        ensures
            match r {
                Some(m) => self@.selected is Some && self@.selected->Some_0 < self@.messages.len()
                    && *m == self@.messages[self@.selected->Some_0 as int],
                None => self@.selected is None || self@.selected->Some_0 >= self@.messages.len(),
            },
    {
        match self.selected_message_index {
            Some(i) => if i < self.lsp_messages.len() {
                Some(&self.lsp_messages[i])
            } else {
                None
            },
            None => None,
        }
    }
}

} // verus!
