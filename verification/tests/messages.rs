//! Chat message assembly: content selection and translation keys.

use mcproto::chat::{
    ChatMessageContent, ChatType, ChatTypeBound, ClientboundPlayerChatPacket, Component,
    FilterMask, PlayerChatMessage, SignedMessageBody, SignedMessageHeader, StringOrComponent,
};

fn message(unsigned: Option<Component>, decorated: Option<Component>) -> PlayerChatMessage {
    PlayerChatMessage {
        signed_header: SignedMessageHeader { previous_signature: None, sender: 5 },
        header_signature: vec![1, 2, 3],
        signed_body: SignedMessageBody {
            content: ChatMessageContent { plain: "plain text".to_string(), decorated },
            timestamp: 100,
            salt: 7,
            last_seen: Vec::new(),
        },
        unsigned_content: unsigned,
        filter_mask: FilterMask::PassThrough,
    }
}

#[test]
fn content_prefers_signed_when_secure() {
    let decorated = Component::Text("decorated".to_string());
    let m = message(Some(Component::Text("unsigned".to_string())), Some(decorated));
    match m.content(true) {
        Component::Text(s) => assert_eq!(s, "decorated"),
        _ => panic!("expected the decorated text"),
    }
}

#[test]
fn content_falls_back_to_plain() {
    let m = message(None, None);
    match m.content(true) {
        Component::Text(s) => assert_eq!(s, "plain text"),
        _ => panic!("expected the plain text"),
    }
    let m2 = message(None, None);
    match m2.content(false) {
        Component::Text(s) => assert_eq!(s, "plain text"),
        _ => panic!("expected the plain text"),
    }
}

#[test]
fn content_uses_unsigned_when_allowed() {
    let m = message(Some(Component::Text("unsigned".to_string())), None);
    match m.content(false) {
        Component::Text(s) => assert_eq!(s, "unsigned"),
        _ => panic!("expected the unsigned text"),
    }
}

#[test]
fn full_message_is_translatable() {
    let packet = ClientboundPlayerChatPacket {
        message: message(None, None),
        chat_type: ChatTypeBound {
            chat_type: ChatType::Chat,
            name: Component::Text("alice".to_string()),
            target_name: None,
        },
    };
    match packet.message(true) {
        Component::Translatable(tc) => {
            assert_eq!(tc.key, "chat.type.text");
            assert_eq!(tc.args.len(), 2);
            match &tc.args[0] {
                StringOrComponent::Component(Component::Text(s)) => assert_eq!(s, "alice"),
                _ => panic!("expected the sender"),
            }
        },
        _ => panic!("expected a translatable component"),
    }
}

#[test]
fn message_with_target_has_three_arguments() {
    let packet = ClientboundPlayerChatPacket {
        message: message(None, None),
        chat_type: ChatTypeBound {
            chat_type: ChatType::MsgCommandOutgoing,
            name: Component::Text("alice".to_string()),
            target_name: Some(Component::Text("bob".to_string())),
        },
    };
    match packet.message(true) {
        Component::Translatable(tc) => {
            assert_eq!(tc.key, "commands.message.display.outgoing");
            assert_eq!(tc.args.len(), 3);
        },
        _ => panic!("expected a translatable component"),
    }
}

#[test]
fn translation_keys() {
    assert_eq!(ChatType::EmoteCommand.chat_translation_key(), "chat.type.emote");
    assert_eq!(ChatType::SayCommand.chat_translation_key(), "chat.type.announcement");
    assert_eq!(ChatType::SayCommand.narrator_translation_key(), "chat.type.text.narrate");
    assert_eq!(ChatType::EmoteCommand.narrator_translation_key(), "chat.type.emote");
}
