use vstd::prelude::*;
use crate::timestamp::Timestamp;

verus! {

/// One persisted chat message. Created exactly once, immutable thereafter.
///
/// `id` and `timestamp` are assigned by the store at creation and never
/// supplied by a caller; `content` and `sender` are caller-supplied and
/// unconstrained.
pub struct Message {
    pub id: i64,
    pub content: String,
    pub sender: String,
    pub timestamp: Timestamp,
}

/// The mathematical image of a message: its identifier, its texts, and its
/// creation instant in microseconds.
pub ghost struct MessageView {
    pub id: int,
    pub content: Seq<char>,
    pub sender: Seq<char>,
    pub timestamp: int,
}

impl View for Message {
    type V = MessageView;

    open spec fn view(&self) -> MessageView {
        MessageView {
            id: self.id as int,
            content: self.content@,
            sender: self.sender@,
            timestamp: self.timestamp.micros as int,
        }
    }
}

impl Clone for Message {
    fn clone(&self) -> (r: Self)
        ensures
            r@ == self@,
    {
        Message {
            id: self.id,
            content: self.content.clone(),
            sender: self.sender.clone(),
            timestamp: self.timestamp,
        }
    }
}

/// The views of a row sequence.
pub open spec fn views_of(rows: Seq<Message>) -> Seq<MessageView> {
    rows.map_values(|m: Message| m@)
}

} // verus!
