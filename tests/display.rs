use lsp_inspector::inspector::{LspInspector, Message};
use lsp_inspector::lsp::LspMessage;

#[test]
fn new_is_empty() {
    let ins = LspInspector::new();
    assert!(ins.messages().is_empty());
    assert_eq!(ins.selected_index(), None);
    assert!(ins.selected_message().is_none());
}

#[test]
fn messages_keep_arrival_order() {
    let mut ins = LspInspector::new();
    ins.update(Message::MessageReceived(LspMessage::Client("c1".to_string())));
    ins.update(Message::MessageReceived(LspMessage::Server("s1".to_string())));
    ins.update(Message::MessageReceived(LspMessage::Client("c2".to_string())));
    ins.update(Message::MessageReceived(LspMessage::Server("s2".to_string())));
    let clients: Vec<_> = ins.messages().iter().filter(|m| matches!(m, LspMessage::Client(_))).cloned().collect();
    let servers: Vec<_> = ins.messages().iter().filter(|m| matches!(m, LspMessage::Server(_))).cloned().collect();
    assert_eq!(clients, vec![LspMessage::Client("c1".to_string()), LspMessage::Client("c2".to_string())]);
    assert_eq!(servers, vec![LspMessage::Server("s1".to_string()), LspMessage::Server("s2".to_string())]);
    assert_eq!(ins.messages().len(), 4);
}

#[test]
fn selection() {
    let mut ins = LspInspector::new();
    ins.update(Message::MessageReceived(LspMessage::Client("a".to_string())));
    ins.update(Message::MessageReceived(LspMessage::Server("b".to_string())));
    ins.update(Message::SetShownMessageId(1));
    assert_eq!(ins.selected_index(), Some(1));
    assert_eq!(ins.selected_message(), Some(&LspMessage::Server("b".to_string())));
    ins.update(Message::SetShownMessageId(5));
    assert_eq!(ins.selected_index(), Some(5));
    assert_eq!(ins.selected_message(), None);
    assert_eq!(ins.messages().len(), 2);
}
