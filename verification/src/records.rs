//! The structured entities the store keeps — participants, channels,
//! conversations, messages, documents — and the errors its operations can
//! raise.  Timestamps are whole seconds since the epoch in the canonical
//! range of `crate::time_fmt`; rows read back from the backing store's text
//! timestamps go through the decoders at the bottom of this module.

use vstd::prelude::*;

use crate::time_fmt::{parse_timestamp, ts_value};
use crate::CodecError;

verus! {

/// A conversational participant.  `(source, source_id)` identifies the
/// account at its platform; `name` is the upsert key.
#[derive(Debug)]
pub struct Account {
    pub id: i64,
    pub name: String,
    pub source: String,
    pub source_id: String,
    pub created_at: i64,
    pub updated_at: i64,
}

/// A conversation context.  `channel_id` is the external identifier, unique
/// across the store; `channel_type` tags the platform the channel lives on.
#[derive(Debug)]
pub struct Channel {
    pub id: i64,
    pub channel_id: String,
    pub channel_type: String,
    pub name: Option<String>,
    pub created_at: i64,
    pub updated_at: i64,
}

/// A titled conversation owned by one account.
#[derive(Debug)]
pub struct Conversation {
    pub id: i64,
    pub user_id: i64,
    pub title: String,
    pub created_at: i64,
    pub updated_at: i64,
}

/// One utterance: immutable once written, owned by a channel and an account.
#[derive(Debug)]
pub struct Message {
    pub id: i64,
    pub channel_id: i64,
    pub account_id: i64,
    pub role: String,
    pub content: String,
    pub reply_to_id: Option<i64>,
    pub created_at: i64,
}

/// A standalone knowledge artifact: a caller-chosen identifier and an opaque
/// content payload.
#[derive(Debug)]
pub struct Document {
    pub id: String,
    pub content: String,
}

/// Why a write was refused.
#[derive(Clone, Copy, Debug, PartialEq, Eq, Structural)]
pub enum DbFault {
    /// A foreign-key or uniqueness constraint would be broken.
    ConstraintViolation,
    /// An embedding's length differs from the store's fixed dimension.
    DimensionMismatch,
}

/// The store's error type.
#[derive(Clone, Copy, Debug, PartialEq, Eq, Structural)]
pub enum SqliteError {
    /// The backing engine refused the operation.
    DatabaseError(DbFault),
    /// A vector blob could not be decoded.
    SerializationError(CodecError),
}

impl Clone for Account {
    fn clone(&self) -> (r: Self)
        ensures
            r == *self,
    {
        Account {
            id: self.id,
            name: self.name.clone(),
            source: self.source.clone(),
            source_id: self.source_id.clone(),
            created_at: self.created_at,
            updated_at: self.updated_at,
        }
    }
}

impl Clone for Channel {
    fn clone(&self) -> (r: Self)
        ensures
            r == *self,
    {
        Channel {
            id: self.id,
            channel_id: self.channel_id.clone(),
            channel_type: self.channel_type.clone(),
            name: match &self.name {
                Some(n) => Some(n.clone()),
                None => None,
            },
            created_at: self.created_at,
            updated_at: self.updated_at,
        }
    }
}

impl Clone for Conversation {
    fn clone(&self) -> (r: Self)
        ensures
            r == *self,
    {
        Conversation {
            id: self.id,
            user_id: self.user_id,
            title: self.title.clone(),
            created_at: self.created_at,
            updated_at: self.updated_at,
        }
    }
}

impl Clone for Message {
    fn clone(&self) -> (r: Self)
        ensures
            r == *self,
    {
        Message {
            id: self.id,
            channel_id: self.channel_id,
            account_id: self.account_id,
            role: self.role.clone(),
            content: self.content.clone(),
            reply_to_id: self.reply_to_id,
            created_at: self.created_at,
        }
    }
}

impl Clone for Document {
    fn clone(&self) -> (r: Self)
        ensures
            r == *self,
    {
        Document { id: self.id.clone(), content: self.content.clone() }
    }
}

/// Rebuild an account from a backing-store row whose timestamps are canonical
/// text; `None` where either timestamp is not canonical.
pub fn account_from_row(
    id: i64,
    name: String,
    source: String,
    source_id: String,
    created_at: &str,
    updated_at: &str,
) -> (r: Option<Account>)
    ensures
        match r {
            Some(a) => {
                &&& ts_value(created_at@) == Some(a.created_at as int)
                &&& ts_value(updated_at@) == Some(a.updated_at as int)
                &&& a.id == id
                &&& a.name == name
                &&& a.source == source
                &&& a.source_id == source_id
            },
            None => ts_value(created_at@) is None || ts_value(updated_at@) is None,
        },
{
    let c = parse_timestamp(created_at);
    let u = parse_timestamp(updated_at);
    match (c, u) {
        (Some(created), Some(updated)) => Some(
            Account { id, name, source, source_id, created_at: created, updated_at: updated },
        ),
        _ => None,
    }
}

/// Rebuild a channel from a backing-store row; `None` where either timestamp
/// is not canonical.
pub fn channel_from_row(
    id: i64,
    channel_id: String,
    channel_type: String,
    name: Option<String>,
    created_at: &str,
    updated_at: &str,
) -> (r: Option<Channel>)
    ensures
        match r {
            Some(c) => {
                &&& ts_value(created_at@) == Some(c.created_at as int)
                &&& ts_value(updated_at@) == Some(c.updated_at as int)
                &&& c.id == id
                &&& c.channel_id == channel_id
                &&& c.channel_type == channel_type
                &&& c.name == name
            },
            None => ts_value(created_at@) is None || ts_value(updated_at@) is None,
        },
{
    let c = parse_timestamp(created_at);
    let u = parse_timestamp(updated_at);
    match (c, u) {
        (Some(created), Some(updated)) => Some(
            Channel {
                id,
                channel_id,
                channel_type,
                name,
                created_at: created,
                updated_at: updated,
            },
        ),
        _ => None,
    }
}

/// Rebuild a message from a backing-store row; `None` where the timestamp is
/// not canonical.
pub fn message_from_row(
    id: i64,
    channel_id: i64,
    account_id: i64,
    role: String,
    content: String,
    reply_to_id: Option<i64>,
    created_at: &str,
) -> (r: Option<Message>)
    ensures
        match r {
            Some(m) => {
                &&& ts_value(created_at@) == Some(m.created_at as int)
                &&& m.id == id
                &&& m.channel_id == channel_id
                &&& m.account_id == account_id
                &&& m.role == role
                &&& m.content == content
                &&& m.reply_to_id == reply_to_id
            },
            None => ts_value(created_at@) is None,
        },
{
    match parse_timestamp(created_at) {
        Some(created) => Some(
            Message { id, channel_id, account_id, role, content, reply_to_id, created_at: created },
        ),
        None => None,
    }
}

} // verus!
