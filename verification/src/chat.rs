//! The player-chat packet's data model: chat components, signed message
//! bodies, and the rules that assemble a displayable message.
//!
//! Components are carried structurally; their text lives in plain strings.

use vstd::prelude::*;
use crate::error::ReadError;
use crate::wire::varint_bytes;
use crate::wire::varint_parse;
use crate::wire::VarRead;
use crate::wire::read_varint_u32;
use crate::wire::write_varint_u32;

verus! {

/// The kind of chat message, which selects its translation key.
#[derive(Clone, Copy, Debug, PartialEq, Eq, Structural)]
pub enum ChatType {
    Chat,
    SayCommand,
    MsgCommandIncoming,
    MsgCommandOutgoing,
    TeamMsgCommandIncoming,
    TeamMsgCommandOutgoing,
    EmoteCommand,
}

/// A chat component: plain text, or a translatable with arguments.
#[derive(Debug)]
pub enum Component {
    Text(String),
    Translatable(TranslatableComponent),
}

/// A translation key applied to a list of arguments.
#[derive(Debug)]
pub struct TranslatableComponent {
    pub key: String,
    pub args: Vec<StringOrComponent>,
}

/// An argument of a translatable component.
#[derive(Debug)]
pub enum StringOrComponent {
    String(String),
    Component(Component),
}

impl TranslatableComponent {
    pub fn new(key: String, args: Vec<StringOrComponent>) -> (r: TranslatableComponent)
        ensures
            r.key == key,
            r.args == args,
    {
        TranslatableComponent { key, args }
    }
}

impl Component {
    /// A plain text component over the given string.
    pub fn from_string(text: String) -> (r: Component)
        ensures
            r == Component::Text(text),
    {
        Component::Text(text)
    }
}

/// The numeric id a chat type carries on the wire.
pub open spec fn chat_type_id(ct: ChatType) -> nat {
    match ct {
        ChatType::Chat => 0,
        ChatType::SayCommand => 1,
        ChatType::MsgCommandIncoming => 2,
        ChatType::MsgCommandOutgoing => 3,
        ChatType::TeamMsgCommandIncoming => 4,
        ChatType::TeamMsgCommandOutgoing => 5,
        ChatType::EmoteCommand => 6,
    }
}

/// The chat type a wire id stands for, when in range.
pub open spec fn chat_type_of(id: nat) -> ChatType {
    if id == 0 {
        ChatType::Chat
    } else if id == 1 {
        ChatType::SayCommand
    } else if id == 2 {
        ChatType::MsgCommandIncoming
    } else if id == 3 {
        ChatType::MsgCommandOutgoing
    } else if id == 4 {
        ChatType::TeamMsgCommandIncoming
    } else if id == 5 {
        ChatType::TeamMsgCommandOutgoing
    } else {
        ChatType::EmoteCommand
    }
}

impl ChatType {
    /// Read a chat type: a varint discriminant, rejected when out of range.
    pub fn read_from(buf: &Vec<u8>, pos: usize) -> (r: Result<(ChatType, usize), ReadError>)
        requires
            pos <= buf.len(),
        ensures
            (match varint_parse(buf@.skip(pos as int), 5) {
                Some(p) => if p.0 <= 6 {
                    r matches Ok(t) && t.0 == chat_type_of(p.0) && t.1 as nat == pos as nat + p.1
                } else {
                    r is Err
                },
                None => r is Err,
            }),
    {
        proof {
            crate::wire::lemma_varint_parse_consumed(buf@.skip(pos as int), 5);
        }
        match read_varint_u32(buf, pos) {
            VarRead::Val { value, len } => {
                let ct = match value {
                    0u32 => ChatType::Chat,
                    1u32 => ChatType::SayCommand,
                    2u32 => ChatType::MsgCommandIncoming,
                    3u32 => ChatType::MsgCommandOutgoing,
                    4u32 => ChatType::TeamMsgCommandIncoming,
                    5u32 => ChatType::TeamMsgCommandOutgoing,
                    6u32 => ChatType::EmoteCommand,
                    _ => {
                        return Err(ReadError::Decode);
                    },
                };
                Ok((ct, pos + len))
            },
            VarRead::Incomplete => Err(ReadError::Decode),
            VarRead::Malformed => Err(ReadError::MalformedVarInt),
        }
    }

    /// Write the chat type's varint discriminant.
    pub fn write_into(&self, buf: &mut Vec<u8>)
        ensures
            final(buf)@ == old(buf)@ + varint_bytes(chat_type_id(*self)),
    {
        let id: u32 = match self {
            ChatType::Chat => 0,
            ChatType::SayCommand => 1,
            ChatType::MsgCommandIncoming => 2,
            ChatType::MsgCommandOutgoing => 3,
            ChatType::TeamMsgCommandIncoming => 4,
            ChatType::TeamMsgCommandOutgoing => 5,
            ChatType::EmoteCommand => 6,
        };
        write_varint_u32(buf, id);
    }

    /// The translation key a chat message of this type is rendered with.
    pub open spec fn chat_translation_key_spec(&self) -> Seq<char> {
        match self {
            ChatType::Chat => "chat.type.text"@,
            ChatType::SayCommand => "chat.type.announcement"@,
            ChatType::MsgCommandIncoming => "commands.message.display.incoming"@,
            ChatType::MsgCommandOutgoing => "commands.message.display.outgoing"@,
            ChatType::TeamMsgCommandIncoming => "chat.type.team.text"@,
            ChatType::TeamMsgCommandOutgoing => "chat.type.team.sent"@,
            ChatType::EmoteCommand => "chat.type.emote"@,
        }
    }

    pub fn chat_translation_key(&self) -> (r: &'static str)
        ensures
            r@ == self.chat_translation_key_spec(),
    {
        match self {
            ChatType::Chat => "chat.type.text",
            ChatType::SayCommand => "chat.type.announcement",
            ChatType::MsgCommandIncoming => "commands.message.display.incoming",
            ChatType::MsgCommandOutgoing => "commands.message.display.outgoing",
            ChatType::TeamMsgCommandIncoming => "chat.type.team.text",
            ChatType::TeamMsgCommandOutgoing => "chat.type.team.sent",
            ChatType::EmoteCommand => "chat.type.emote",
        }
    }

    /// The translation key the narrator reads this type with.
    pub open spec fn narrator_translation_key_spec(&self) -> Seq<char> {
        match self {
            ChatType::EmoteCommand => "chat.type.emote"@,
            _ => "chat.type.text.narrate"@,
        }
    }

    pub fn narrator_translation_key(&self) -> (r: &'static str)
        ensures
            r@ == self.narrator_translation_key_spec(),
    {
        match self {
            ChatType::Chat => "chat.type.text.narrate",
            ChatType::SayCommand => "chat.type.text.narrate",
            ChatType::MsgCommandIncoming => "chat.type.text.narrate",
            ChatType::MsgCommandOutgoing => "chat.type.text.narrate",
            ChatType::TeamMsgCommandIncoming => "chat.type.text.narrate",
            ChatType::TeamMsgCommandOutgoing => "chat.type.text.narrate",
            ChatType::EmoteCommand => "chat.type.emote",
        }
    }
}

/// Who a chat message is from and how it is bound to its chat type.
#[derive(Debug)]
pub struct ChatTypeBound {
    pub chat_type: ChatType,
    pub name: Component,
    pub target_name: Option<Component>,
}

/// The sender header of a signed message: the previous signature in the
/// chain, if any, and the sender's identifier as its 128-bit value.
#[derive(Clone, Debug)]
pub struct SignedMessageHeader {
    pub previous_signature: Option<Vec<u8>>,
    pub sender: u128,
}

/// A message's plain text plus its decorated form when they differ.
#[derive(Debug)]
pub struct ChatMessageContent {
    pub plain: String,
    /// Only sent if the decorated message is different than the plain.
    pub decorated: Option<Component>,
}

/// One acknowledged message of another player.
#[derive(Clone, Debug)]
pub struct LastSeenMessagesEntry {
    pub profile_id: u128,
    pub last_signature: Vec<u8>,
}

/// The acknowledgement state a client reports.
#[derive(Clone, Debug)]
pub struct LastSeenMessagesUpdate {
    pub last_seen: Vec<LastSeenMessagesEntry>,
    pub last_received: Option<LastSeenMessagesEntry>,
}

/// The signed part of a chat message.
#[derive(Debug)]
pub struct SignedMessageBody {
    pub content: ChatMessageContent,
    pub timestamp: u64,
    pub salt: u64,
    pub last_seen: Vec<LastSeenMessagesEntry>,
}

/// How much of the message was filtered away by the server.
#[derive(Clone, Debug)]
pub enum FilterMask {
    PassThrough,
    FullyFiltered,
    PartiallyFiltered(Vec<u64>),
}

/// A player chat message as carried by the chat packet.
#[derive(Debug)]
pub struct PlayerChatMessage {
    pub signed_header: SignedMessageHeader,
    pub header_signature: Vec<u8>,
    pub signed_body: SignedMessageBody,
    pub unsigned_content: Option<Component>,
    pub filter_mask: FilterMask,
}

/// The player chat packet: the message and its chat-type binding.
#[derive(Debug)]
pub struct ClientboundPlayerChatPacket {
    pub message: PlayerChatMessage,
    pub chat_type: ChatTypeBound,
}

impl PlayerChatMessage {
    /// The component this message displays as, before the sender part:
    /// with secure chat only, the decorated signed content, or the plain
    /// signed text; otherwise the unsigned content when present.
    pub open spec fn content_spec(&self, only_secure_chat: bool) -> Component {
        let secure = match self.signed_body.content.decorated {
            Some(d) => d,
            None => Component::Text(self.signed_body.content.plain),
        };
        if only_secure_chat {
            secure
        } else {
            match self.unsigned_content {
                Some(c) => c,
                None => secure,
            }
        }
    }

    /// Returns the content of the message. For the whole message with the
    /// sender part, use the packet's `message`.
    pub fn content(self, only_secure_chat: bool) -> (r: Component)
        ensures
            r == self.content_spec(only_secure_chat),
    {
        let PlayerChatMessage { signed_body, unsigned_content, .. } = self;
        if only_secure_chat {
            return match signed_body.content.decorated {
                Some(d) => d,
                None => Component::Text(signed_body.content.plain),
            };
        }
        match unsigned_content {
            Some(c) => c,
            None => match signed_body.content.decorated {
                Some(d) => d,
                None => Component::Text(signed_body.content.plain),
            },
        }
    }
}

impl ClientboundPlayerChatPacket {
    /// Get the full message, including the sender part: a translatable
    /// component over the chat type's key, applied to the sender, the
    /// content, and the target when one is named.
    pub fn message(self, only_secure_chat: bool) -> (r: Component)
        ensures
            r matches Component::Translatable(tc) && tc.key@
                == self.chat_type.chat_type.chat_translation_key_spec() && tc.args@ == (match self
                .chat_type.target_name {
                Some(target) => seq![
                    StringOrComponent::Component(self.chat_type.name),
                    StringOrComponent::Component(self.message.content_spec(only_secure_chat)),
                    StringOrComponent::Component(target),
                ],
                None => seq![
                    StringOrComponent::Component(self.chat_type.name),
                    StringOrComponent::Component(self.message.content_spec(only_secure_chat)),
                ],
            }),
    {
        let ghost this = self;
        let ChatTypeBound { chat_type, name, target_name } = self.chat_type;
        let sender = name;
        let content = self.message.content(only_secure_chat);
        let target = target_name;

        let translation_key = chat_type.chat_translation_key();

        let mut args: Vec<StringOrComponent> = Vec::new();
        args.push(StringOrComponent::Component(sender));
        args.push(StringOrComponent::Component(content));
        match target {
            Some(t) => {
                args.push(StringOrComponent::Component(t));
                proof {
                    assert(args@ =~= seq![
                        StringOrComponent::Component(this.chat_type.name),
                        StringOrComponent::Component(this.message.content_spec(only_secure_chat)),
                        StringOrComponent::Component(this.chat_type.target_name->Some_0),
                    ]);
                }
            },
            None => {
                proof {
                    assert(args@ =~= seq![
                        StringOrComponent::Component(this.chat_type.name),
                        StringOrComponent::Component(this.message.content_spec(only_secure_chat)),
                    ]);
                }
            },
        }
        let component = TranslatableComponent::new(translation_key.to_string(), args);

        Component::Translatable(component)
    }
}

} // verus!
