//! The shapes of inbound chat updates and outbound replies, as plain values.
//! The wire client that carries them lives outside the library.
use vstd::prelude::*;

verus! {

/// The sender of a message.
#[derive(PartialEq, Eq, Debug)]
pub struct User {
    pub id: i64,
    pub username: String,
}

impl Clone for User {
    fn clone(&self) -> (res: Self)
        ensures
            res.id == self.id,
            res.username@ == self.username@,
    {
        User { id: self.id, username: self.username.clone() }
    }
}

/// The conversation a message belongs to.
#[derive(PartialEq, Eq, Debug)]
pub struct Chat {
    pub id: i64,
}

impl Clone for Chat {
    fn clone(&self) -> (res: Self)
        ensures
            res == self,
    {
        Chat { id: self.id }
    }
}

/// One chat message.
#[derive(PartialEq, Eq, Debug)]
pub struct Message {
    pub message_id: i64,
    pub text: String,
    pub from: User,
    pub chat: Chat,
}

impl Clone for Message {
    fn clone(&self) -> (res: Self)
        ensures
            res.message_id == self.message_id,
            res.text@ == self.text@,
            res.from.id == self.from.id,
            res.chat == self.chat,
    {
        Message {
            message_id: self.message_id,
            text: self.text.clone(),
            from: self.from.clone(),
            chat: self.chat.clone(),
        }
    }
}

/// One inbound event: a new message, an edit, or neither.
pub struct Update {
    pub update_id: i64,
    pub message: Option<Message>,
    pub edited_message: Option<Message>,
}

/// One fetch's worth of updates.
pub struct UpdatesResponse {
    pub ok: bool,
    pub result: Vec<Update>,
}

/// The message an update carries: the primary one when present, else the
/// edited one, else nothing (a non-text event, to be skipped).
pub fn message_of(u: &Update) -> (r: Option<&Message>)
    ensures
        u.message is Some ==> (r matches Some(m) && *m == u.message->0),
        u.message is None && u.edited_message is Some ==> (r matches Some(m) && *m
            == u.edited_message->0),
        u.message is None && u.edited_message is None ==> r is None,
{
    match &u.message {
        Some(m) => Some(m),
        None => match &u.edited_message {
            Some(m) => Some(m),
            None => None,
        },
    }
}

/// An outbound reply.
#[derive(PartialEq, Eq, Debug)]
pub struct Answer {
    pub reply_to_message_id: i64,
    pub chat_id: i64,
    pub text: String,
}

impl Answer {
    /// A reply with the given text, addressed to the given message.
    pub fn from_message(msg: &str, message: &Message) -> (r: Answer)
        ensures
            r.reply_to_message_id == message.message_id,
            r.chat_id == message.chat.id,
            r.text@ == msg@,
    {
        Answer {
            reply_to_message_id: message.message_id,
            chat_id: message.chat.id,
            text: msg.to_owned(),
        }
    }
}

} // verus!
