//! The relational record store and its paired embedding table, held as plain
//! in-memory tables with the same contracts the backing SQL engine is asked
//! to keep: store-assigned row ids, upsert keyed on a uniqueness constraint,
//! foreign keys checked on insert, and the document table's dual write of a
//! relational row and its embedding rows in one all-or-nothing step.

use vstd::prelude::*;

use crate::codec::{decoded, encode, encoded};
use crate::ranking::{is_ranking, rank_ascending};
use crate::records::{
    Account, Channel, Conversation, DbFault, Document, Message, SqliteError,
};
use crate::time_fmt::TS_MAX;

verus! {

/// One document row: a store-assigned row id, the caller's unique document
/// identifier, and the opaque content payload.
#[derive(Debug)]
pub struct DocumentRow {
    pub row_id: i64,
    pub doc_id: String,
    pub content: String,
}

/// One embedding record: the owning row and the encoded vector blob.
#[derive(Debug)]
pub struct EmbeddingRow {
    pub row_id: i64,
    pub blob: Vec<u8>,
}

/// A document together with the embedding vectors derived from its content,
/// each vector given as single-precision bit patterns.
#[derive(Debug)]
pub struct DocumentEmbeddings {
    pub document: Document,
    pub embeddings: Vec<Vec<u32>>,
}

/// The ghost form of a document row.
pub ghost struct DocM {
    pub row_id: int,
    pub doc_id: Seq<char>,
    pub content: Seq<char>,
}

/// The ghost form of an embedding row.
pub ghost struct EmbM {
    pub row_id: int,
    pub blob: Seq<u8>,
}

impl DocumentRow {
    pub open spec fn model(&self) -> DocM {
        DocM { row_id: self.row_id as int, doc_id: self.doc_id@, content: self.content@ }
    }
}

impl EmbeddingRow {
    pub open spec fn model(&self) -> EmbM {
        EmbM { row_id: self.row_id as int, blob: self.blob@ }
    }
}

/// The ghost form of a document table.
pub open spec fn docs_model_of(s: Seq<DocumentRow>) -> Seq<DocM> {
    s.map_values(|d: DocumentRow| d.model())
}

/// The ghost form of an embedding table.
pub open spec fn embs_model_of(s: Seq<EmbeddingRow>) -> Seq<EmbM> {
    s.map_values(|e: EmbeddingRow| e.model())
}

/// The ghost form of a list of vectors.
pub open spec fn vecs_of(s: Seq<Vec<u32>>) -> Seq<Seq<u32>> {
    s.map_values(|v: Vec<u32>| v@)
}

impl DocumentEmbeddings {
    /// The ghost form of one ingestion item: identifier, content, vectors.
    pub open spec fn model(&self) -> (Seq<char>, Seq<char>, Seq<Seq<u32>>) {
        (self.document.id@, self.document.content@, vecs_of(self.embeddings@))
    }
}

impl Clone for DocumentRow {
    fn clone(&self) -> (r: Self)
        ensures
            r == *self,
    {
        DocumentRow {
            row_id: self.row_id,
            doc_id: self.doc_id.clone(),
            content: self.content.clone(),
        }
    }
}

impl Clone for EmbeddingRow {
    fn clone(&self) -> (r: Self)
        ensures
            r.model() == self.model(),
    {
        let blob = self.blob.clone();
        proof {
            assert(blob@ =~= self.blob@);
        }
        EmbeddingRow { row_id: self.row_id, blob }
    }
}

pub open spec fn has_account_named(rows: Seq<Account>, name: Seq<char>) -> bool {
    exists|i: int| 0 <= i < rows.len() && (#[trigger] rows[i]).name@ == name
}

pub open spec fn has_account_with_pair(
    rows: Seq<Account>,
    source: Seq<char>,
    source_id: Seq<char>,
) -> bool {
    exists|i: int|
        0 <= i < rows.len() && (#[trigger] rows[i]).source@ == source && rows[i].source_id@
            == source_id
}

pub open spec fn has_account_with_id(rows: Seq<Account>, id: i64) -> bool {
    exists|i: int| 0 <= i < rows.len() && (#[trigger] rows[i]).id == id
}

pub open spec fn has_channel_external(rows: Seq<Channel>, channel_id: Seq<char>) -> bool {
    exists|i: int| 0 <= i < rows.len() && (#[trigger] rows[i]).channel_id@ == channel_id
}

pub open spec fn has_channel_with_id(rows: Seq<Channel>, id: i64) -> bool {
    exists|i: int| 0 <= i < rows.len() && (#[trigger] rows[i]).id == id
}

pub open spec fn has_message_with_id(rows: Seq<Message>, id: i64) -> bool {
    exists|i: int| 0 <= i < rows.len() && (#[trigger] rows[i]).id == id
}

pub open spec fn has_document_with_doc_id(rows: Seq<DocM>, doc_id: Seq<char>) -> bool {
    exists|i: int| 0 <= i < rows.len() && (#[trigger] rows[i]).doc_id == doc_id
}

pub open spec fn has_document_with_row_id(rows: Seq<DocM>, row_id: int) -> bool {
    exists|i: int| 0 <= i < rows.len() && (#[trigger] rows[i]).row_id == row_id
}

/// The relational record store: the structured tables, the document table's
/// paired embedding table, and the next row id of each table.  The embedding
/// dimension is fixed when the store is made.
pub struct SqliteStore {
    pub accounts: Vec<Account>,
    pub channels: Vec<Channel>,
    pub conversations: Vec<Conversation>,
    pub messages: Vec<Message>,
    pub documents: Vec<DocumentRow>,
    pub embeddings: Vec<EmbeddingRow>,
    pub next_account_id: i64,
    pub next_channel_id: i64,
    pub next_conversation_id: i64,
    pub next_message_id: i64,
    pub next_document_row_id: i64,
    pub dim: usize,
}

impl SqliteStore {
    pub open spec fn docs_model(&self) -> Seq<DocM> {
        docs_model_of(self.documents@)
    }

    pub open spec fn embs_model(&self) -> Seq<EmbM> {
        embs_model_of(self.embeddings@)
    }

    pub open spec fn accounts_ok(&self) -> bool {
        &&& 0 < self.next_account_id
        &&& (forall|i: int|
            0 <= i < self.accounts@.len() ==> {
                let a = #[trigger] self.accounts@[i];
                0 <= a.id < self.next_account_id && 0 <= a.created_at < TS_MAX && 0 <= a.updated_at
                    < TS_MAX
            })
        &&& (forall|i: int, j: int|
            0 <= i < j < self.accounts@.len() ==> self.accounts@[i].id != self.accounts@[j].id
                && self.accounts@[i].name@ != self.accounts@[j].name@)
    }

    pub open spec fn channels_ok(&self) -> bool {
        &&& 0 < self.next_channel_id
        &&& (forall|i: int|
            0 <= i < self.channels@.len() ==> {
                let c = #[trigger] self.channels@[i];
                0 <= c.id < self.next_channel_id && 0 <= c.created_at < TS_MAX && 0 <= c.updated_at
                    < TS_MAX
            })
        &&& (forall|i: int, j: int|
            0 <= i < j < self.channels@.len() ==> self.channels@[i].id != self.channels@[j].id
                && self.channels@[i].channel_id@ != self.channels@[j].channel_id@)
    }

    pub open spec fn conversations_ok(&self) -> bool {
        &&& 0 < self.next_conversation_id
        &&& (forall|i: int|
            0 <= i < self.conversations@.len() ==> {
                let c = #[trigger] self.conversations@[i];
                0 <= c.id < self.next_conversation_id && 0 <= c.created_at < TS_MAX && 0
                    <= c.updated_at < TS_MAX
            })
        &&& (forall|i: int, j: int|
            0 <= i < j < self.conversations@.len() ==> self.conversations@[i].id
                != self.conversations@[j].id)
    }

    pub open spec fn messages_ok(&self) -> bool {
        &&& 0 < self.next_message_id
        &&& (forall|i: int|
            0 <= i < self.messages@.len() ==> {
                let m = #[trigger] self.messages@[i];
                &&& 0 <= m.id < self.next_message_id
                &&& 0 <= m.created_at < TS_MAX
                &&& has_channel_with_id(self.channels@, m.channel_id)
                &&& has_account_with_id(self.accounts@, m.account_id)
            })
        &&& (forall|i: int, j: int|
            0 <= i < j < self.messages@.len() ==> self.messages@[i].id != self.messages@[j].id)
    }

    pub open spec fn documents_ok(&self) -> bool {
        &&& 0 < self.next_document_row_id
        &&& (forall|i: int|
            0 <= i < self.docs_model().len() ==> 0 <= (#[trigger] self.docs_model()[i]).row_id
                < self.next_document_row_id)
        &&& (forall|i: int, j: int|
            0 <= i < j < self.docs_model().len() ==> self.docs_model()[i].row_id
                != self.docs_model()[j].row_id && self.docs_model()[i].doc_id
                != self.docs_model()[j].doc_id)
        &&& (forall|i: int|
            0 <= i < self.embs_model().len() ==> {
                let e = #[trigger] self.embs_model()[i];
                has_document_with_row_id(self.docs_model(), e.row_id) && e.blob.len() == 4 * (
                self.dim as int)
            })
    }

    /// Every table is internally consistent: ids are unique and below the
    /// next id, upsert keys are unique, messages reference live channel and
    /// account rows, every embedding row references a live document row, and
    /// every blob has the store's fixed width.
    pub open spec fn wf(&self) -> bool {
        &&& self.accounts_ok()
        &&& self.channels_ok()
        &&& self.conversations_ok()
        &&& self.messages_ok()
        &&& self.documents_ok()
    }

    pub open spec fn accounts_part_eq(a: &SqliteStore, b: &SqliteStore) -> bool {
        a.accounts@ == b.accounts@ && a.next_account_id == b.next_account_id
    }

    pub open spec fn channels_part_eq(a: &SqliteStore, b: &SqliteStore) -> bool {
        a.channels@ == b.channels@ && a.next_channel_id == b.next_channel_id
    }

    pub open spec fn conversations_part_eq(a: &SqliteStore, b: &SqliteStore) -> bool {
        a.conversations@ == b.conversations@ && a.next_conversation_id == b.next_conversation_id
    }

    pub open spec fn messages_part_eq(a: &SqliteStore, b: &SqliteStore) -> bool {
        a.messages@ == b.messages@ && a.next_message_id == b.next_message_id
    }

    pub open spec fn documents_part_eq(a: &SqliteStore, b: &SqliteStore) -> bool {
        a.docs_model() == b.docs_model() && a.embs_model() == b.embs_model()
            && a.next_document_row_id == b.next_document_row_id && a.dim == b.dim
    }


    /// An unchanged messages table stays consistent when the tables it
    /// references only grow or are touched in place.
    proof fn lemma_messages_ok_transfer(pre: &SqliteStore, post: &SqliteStore)
        requires
            pre.messages_ok(),
            post.messages@ == pre.messages@,
            post.next_message_id == pre.next_message_id,
            forall|x: i64|
                has_channel_with_id(pre.channels@, x) ==> has_channel_with_id(post.channels@, x),
            forall|x: i64|
                has_account_with_id(pre.accounts@, x) ==> has_account_with_id(post.accounts@, x),
        ensures
            post.messages_ok(),
    {
        assert forall|i: int| 0 <= i < post.messages@.len() implies {
            let m = #[trigger] post.messages@[i];
            &&& 0 <= m.id < post.next_message_id
            &&& 0 <= m.created_at < TS_MAX
            &&& has_channel_with_id(post.channels@, m.channel_id)
            &&& has_account_with_id(post.accounts@, m.account_id)
        } by {
            assert(pre.messages@[i] == post.messages@[i]);
            assert(has_channel_with_id(pre.channels@, pre.messages@[i].channel_id));
            assert(has_account_with_id(pre.accounts@, pre.messages@[i].account_id));
        };
        assert forall|i: int, j: int| 0 <= i < j < post.messages@.len() implies post.messages@[i].id
            != post.messages@[j].id by {
            assert(pre.messages@[i] == post.messages@[i]);
            assert(pre.messages@[j] == post.messages@[j]);
        };
    }

    /// An unchanged document table and embedding table stay consistent.
    proof fn lemma_documents_ok_transfer(pre: &SqliteStore, post: &SqliteStore)
        requires
            pre.documents_ok(),
            post.docs_model() == pre.docs_model(),
            post.embs_model() == pre.embs_model(),
            post.next_document_row_id == pre.next_document_row_id,
            post.dim == pre.dim,
        ensures
            post.documents_ok(),
    {
        assert forall|i: int| 0 <= i < post.docs_model().len() implies 0 <= (
        #[trigger] post.docs_model()[i]).row_id < post.next_document_row_id by {
            assert(pre.docs_model()[i] == post.docs_model()[i]);
        };
        assert forall|i: int, j: int| 0 <= i < j < post.docs_model().len() implies post.docs_model()[i].row_id
            != post.docs_model()[j].row_id && post.docs_model()[i].doc_id
            != post.docs_model()[j].doc_id by {
            assert(pre.docs_model()[i] == post.docs_model()[i]);
            assert(pre.docs_model()[j] == post.docs_model()[j]);
        };
        assert forall|i: int| 0 <= i < post.embs_model().len() implies {
            let e = #[trigger] post.embs_model()[i];
            has_document_with_row_id(post.docs_model(), e.row_id) && e.blob.len() == 4 * (
            post.dim as int)
        } by {
            assert(pre.embs_model()[i] == post.embs_model()[i]);
            let w = choose|x: int|
                0 <= x < pre.docs_model().len() && (#[trigger] pre.docs_model()[x]).row_id
                    == pre.embs_model()[i].row_id;
            assert(post.docs_model()[w] == pre.docs_model()[w]);
        };
    }

    /// An unchanged conversations table stays consistent.
    proof fn lemma_conversations_ok_transfer(pre: &SqliteStore, post: &SqliteStore)
        requires
            pre.conversations_ok(),
            post.conversations@ == pre.conversations@,
            post.next_conversation_id == pre.next_conversation_id,
        ensures
            post.conversations_ok(),
    {
        assert forall|i: int| 0 <= i < post.conversations@.len() implies {
            let c = #[trigger] post.conversations@[i];
            0 <= c.id < post.next_conversation_id && 0 <= c.created_at < TS_MAX && 0
                <= c.updated_at < TS_MAX
        } by {
            assert(pre.conversations@[i] == post.conversations@[i]);
        };
        assert forall|i: int, j: int|
            0 <= i < j < post.conversations@.len() implies post.conversations@[i].id
            != post.conversations@[j].id by {
            assert(pre.conversations@[i] == post.conversations@[i]);
            assert(pre.conversations@[j] == post.conversations@[j]);
        };
    }

    /// An unchanged accounts table stays consistent.
    proof fn lemma_accounts_ok_transfer(pre: &SqliteStore, post: &SqliteStore)
        requires
            pre.accounts_ok(),
            post.accounts@ == pre.accounts@,
            post.next_account_id == pre.next_account_id,
        ensures
            post.accounts_ok(),
    {
        assert forall|i: int| 0 <= i < post.accounts@.len() implies {
            let a = #[trigger] post.accounts@[i];
            0 <= a.id < post.next_account_id && 0 <= a.created_at < TS_MAX && 0 <= a.updated_at
                < TS_MAX
        } by {
            assert(pre.accounts@[i] == post.accounts@[i]);
        };
        assert forall|i: int, j: int| 0 <= i < j < post.accounts@.len() implies post.accounts@[i].id
            != post.accounts@[j].id && post.accounts@[i].name@ != post.accounts@[j].name@ by {
            assert(pre.accounts@[i] == post.accounts@[i]);
            assert(pre.accounts@[j] == post.accounts@[j]);
        };
    }

    /// An unchanged channels table stays consistent.
    proof fn lemma_channels_ok_transfer(pre: &SqliteStore, post: &SqliteStore)
        requires
            pre.channels_ok(),
            post.channels@ == pre.channels@,
            post.next_channel_id == pre.next_channel_id,
        ensures
            post.channels_ok(),
    {
        assert forall|i: int| 0 <= i < post.channels@.len() implies {
            let c = #[trigger] post.channels@[i];
            0 <= c.id < post.next_channel_id && 0 <= c.created_at < TS_MAX && 0 <= c.updated_at
                < TS_MAX
        } by {
            assert(pre.channels@[i] == post.channels@[i]);
        };
        assert forall|i: int, j: int| 0 <= i < j < post.channels@.len() implies post.channels@[i].id
            != post.channels@[j].id && post.channels@[i].channel_id@
            != post.channels@[j].channel_id@ by {
            assert(pre.channels@[i] == post.channels@[i]);
            assert(pre.channels@[j] == post.channels@[j]);
        };
    }

    /// An empty store over embedding dimension `dim`.
    pub fn new(dim: usize) -> (r: SqliteStore)
        ensures
            r.wf(),
            r.accounts@.len() == 0,
            r.channels@.len() == 0,
            r.conversations@.len() == 0,
            r.messages@.len() == 0,
            r.docs_model().len() == 0,
            r.embs_model().len() == 0,
            r.dim == dim,
            r.next_account_id == 1 && r.next_channel_id == 1 && r.next_conversation_id == 1
                && r.next_message_id == 1 && r.next_document_row_id == 1,
    {
        SqliteStore {
            accounts: Vec::new(),
            channels: Vec::new(),
            conversations: Vec::new(),
            messages: Vec::new(),
            documents: Vec::new(),
            embeddings: Vec::new(),
            next_account_id: 1,
            next_channel_id: 1,
            next_conversation_id: 1,
            next_message_id: 1,
            next_document_row_id: 1,
            dim,
        }
    }

    fn find_account_by_name(&self, name: &String) -> (r: Option<usize>)
        ensures
            match r {
                Some(i) => i < self.accounts@.len() && self.accounts@[i as int].name@ == name@,
                None => !has_account_named(self.accounts@, name@),
            },
    {
        let mut i: usize = 0;
        while i < self.accounts.len()
            invariant
                i <= self.accounts@.len(),
                forall|j: int| 0 <= j < i ==> (#[trigger] self.accounts@[j]).name@ != name@,
            decreases self.accounts@.len() - i,
        {
            if self.accounts[i].name == *name {
                return Some(i);
            }
            i = i + 1;
        }
        None
    }

    fn find_account_by_pair(&self, source: &String, source_id: &String) -> (r: Option<usize>)
        ensures
            match r {
                Some(i) => i < self.accounts@.len() && self.accounts@[i as int].source@ == source@
                    && self.accounts@[i as int].source_id@ == source_id@,
                None => !has_account_with_pair(self.accounts@, source@, source_id@),
            },
    {
        let mut i: usize = 0;
        while i < self.accounts.len()
            invariant
                i <= self.accounts@.len(),
                forall|j: int|
                    0 <= j < i ==> !((#[trigger] self.accounts@[j]).source@ == source@
                        && self.accounts@[j].source_id@ == source_id@),
            decreases self.accounts@.len() - i,
        {
            if self.accounts[i].source == *source && self.accounts[i].source_id == *source_id {
                return Some(i);
            }
            i = i + 1;
        }
        None
    }

    fn find_channel_by_external(&self, channel_id: &String) -> (r: Option<usize>)
        ensures
            match r {
                Some(i) => i < self.channels@.len() && self.channels@[i as int].channel_id@
                    == channel_id@,
                None => !has_channel_external(self.channels@, channel_id@),
            },
    {
        let mut i: usize = 0;
        while i < self.channels.len()
            invariant
                i <= self.channels@.len(),
                forall|j: int| 0 <= j < i ==> (#[trigger] self.channels@[j]).channel_id@ != channel_id@,
            decreases self.channels@.len() - i,
        {
            if self.channels[i].channel_id == *channel_id {
                return Some(i);
            }
            i = i + 1;
        }
        None
    }

    fn has_channel_row(&self, id: i64) -> (r: bool)
        ensures
            r == has_channel_with_id(self.channels@, id),
    {
        let mut i: usize = 0;
        while i < self.channels.len()
            invariant
                i <= self.channels@.len(),
                forall|j: int| 0 <= j < i ==> (#[trigger] self.channels@[j]).id != id,
            decreases self.channels@.len() - i,
        {
            if self.channels[i].id == id {
                return true;
            }
            i = i + 1;
        }
        false
    }

    fn has_account_row(&self, id: i64) -> (r: bool)
        ensures
            r == has_account_with_id(self.accounts@, id),
    {
        let mut i: usize = 0;
        while i < self.accounts.len()
            invariant
                i <= self.accounts@.len(),
                forall|j: int| 0 <= j < i ==> (#[trigger] self.accounts@[j]).id != id,
            decreases self.accounts@.len() - i,
        {
            if self.accounts[i].id == id {
                return true;
            }
            i = i + 1;
        }
        false
    }
}

/// The touched form of an account row: only `updated_at` moves.
pub open spec fn touch_account(a: Account, now: i64) -> Account {
    Account {
        id: a.id,
        name: a.name,
        source: a.source,
        source_id: a.source_id,
        created_at: a.created_at,
        updated_at: now,
    }
}

/// The touched form of a channel row: a supplied name replaces the old one,
/// an absent name keeps it; `updated_at` moves; the rest stays.
pub open spec fn touch_channel(c: Channel, name: Option<String>, now: i64) -> Channel {
    Channel {
        id: c.id,
        channel_id: c.channel_id,
        channel_type: c.channel_type,
        name: if name is Some {
            name
        } else {
            c.name
        },
        created_at: c.created_at,
        updated_at: now,
    }
}

/// What upserting an account does to the accounts table.  A row with the
/// same name is touched and keeps its id; otherwise a clash on the unique
/// `(source, source_id)` pair is refused; otherwise a fresh row is written.
pub open spec fn upsert_account_post(
    old_rows: Seq<Account>,
    old_next: i64,
    new_rows: Seq<Account>,
    new_next: i64,
    r: Result<i64, SqliteError>,
    name: String,
    source: String,
    source_id: String,
    now: i64,
) -> bool {
    if has_account_named(old_rows, name@) {
        &&& new_next == old_next
        &&& forall|j: int|
            0 <= j < old_rows.len() && (#[trigger] old_rows[j]).name@ == name@ ==> r == Ok::<
                i64,
                SqliteError,
            >(old_rows[j].id) && new_rows == old_rows.update(j, touch_account(old_rows[j], now))
    } else if has_account_with_pair(old_rows, source@, source_id@) {
        &&& r == Err::<i64, SqliteError>(SqliteError::DatabaseError(DbFault::ConstraintViolation))
        &&& new_rows == old_rows
        &&& new_next == old_next
    } else {
        &&& r == Ok::<i64, SqliteError>(old_next)
        &&& new_rows == old_rows.push(
            Account { id: old_next, name, source, source_id, created_at: now, updated_at: now },
        )
        &&& new_next == old_next + 1
    }
}

/// What upserting a channel does to the channels table: a row with the same
/// external identifier is touched (name coalesced) and keeps its id;
/// otherwise a fresh row is written.
pub open spec fn upsert_channel_post(
    old_rows: Seq<Channel>,
    old_next: i64,
    new_rows: Seq<Channel>,
    new_next: i64,
    r: Result<i64, SqliteError>,
    channel_id: String,
    channel_type: String,
    name: Option<String>,
    now: i64,
) -> bool {
    if has_channel_external(old_rows, channel_id@) {
        &&& new_next == old_next
        &&& forall|j: int|
            0 <= j < old_rows.len() && (#[trigger] old_rows[j]).channel_id@ == channel_id@ ==> r
                == Ok::<i64, SqliteError>(old_rows[j].id) && new_rows == old_rows.update(
                j,
                touch_channel(old_rows[j], name, now),
            )
    } else {
        &&& r == Ok::<i64, SqliteError>(old_next)
        &&& new_rows == old_rows.push(
            Channel {
                id: old_next,
                channel_id,
                channel_type,
                name,
                created_at: now,
                updated_at: now,
            },
        )
        &&& new_next == old_next + 1
    }
}

impl SqliteStore {
    /// Insert a participant or touch the one already known under this name.
    /// The row id comes back either way; only a fresh name that collides with
    /// an existing `(source, source_id)` pair is refused.
    pub fn create_user(
        &mut self,
        name: String,
        source: String,
        source_id: String,
        now: i64,
    ) -> (r: Result<i64, SqliteError>)
        requires
            old(self).wf(),
            old(self).next_account_id < i64::MAX,
            0 <= now < TS_MAX,
        ensures
            final(self).wf(),
            upsert_account_post(
                old(self).accounts@,
                old(self).next_account_id,
                final(self).accounts@,
                final(self).next_account_id,
                r,
                name,
                source,
                source_id,
                now,
            ),
            Self::channels_part_eq(old(self), final(self)),
            Self::conversations_part_eq(old(self), final(self)),
            Self::messages_part_eq(old(self), final(self)),
            Self::documents_part_eq(old(self), final(self)),
    {
        match self.find_account_by_name(&name) {
            Some(i) => {
                let mut row = self.accounts[i].clone();
                row.updated_at = now;
                let id = row.id;
                self.accounts[i] = row;
                proof {
                    let pre = *old(self);
                    let post = *self;
                    assert(post.accounts@ =~= pre.accounts@.update(
                        i as int,
                        touch_account(pre.accounts@[i as int], now),
                    ));
                    assert forall|j: int|
                        0 <= j < pre.accounts@.len() && (#[trigger] pre.accounts@[j]).name@
                            == name@ implies j == i as int by {};
                    assert forall|x: int| 0 <= x < post.accounts@.len() implies {
                        let a = #[trigger] post.accounts@[x];
                        0 <= a.id < post.next_account_id && 0 <= a.created_at < TS_MAX && 0
                            <= a.updated_at < TS_MAX
                    } by {
                        let a0 = pre.accounts@[x];
                    };
                    assert forall|x: int, y: int|
                        0 <= x < y < post.accounts@.len() implies post.accounts@[x].id
                        != post.accounts@[y].id && post.accounts@[x].name@
                        != post.accounts@[y].name@ by {
                        let ax = pre.accounts@[x];
                        let ay = pre.accounts@[y];
                    };
                    assert forall|x: i64|
                        has_account_with_id(pre.accounts@, x) implies has_account_with_id(
                        post.accounts@,
                        x,
                    ) by {
                        let w = choose|n: int|
                            0 <= n < pre.accounts@.len() && (#[trigger] pre.accounts@[n]).id == x;
                        assert(post.accounts@[w].id == x);
                    };
                    Self::lemma_channels_ok_transfer(&pre, &post);
                    Self::lemma_conversations_ok_transfer(&pre, &post);
                    Self::lemma_messages_ok_transfer(&pre, &post);
                    Self::lemma_documents_ok_transfer(&pre, &post);
                    assert(post.wf());
                }
                Ok(id)
            },
            None => {
                if self.find_account_by_pair(&source, &source_id).is_some() {
                    return Err(SqliteError::DatabaseError(DbFault::ConstraintViolation));
                }
                let id = self.next_account_id;
                let row = Account {
                    id,
                    name,
                    source,
                    source_id,
                    created_at: now,
                    updated_at: now,
                };
                let ghost newrow = row;
                self.accounts.push(row);
                self.next_account_id = id + 1;
                proof {
                    let pre = *old(self);
                    let post = *self;
                    assert(post.accounts@ =~= pre.accounts@.push(newrow));
                    assert forall|x: int| 0 <= x < post.accounts@.len() implies {
                        let a = #[trigger] post.accounts@[x];
                        0 <= a.id < post.next_account_id && 0 <= a.created_at < TS_MAX && 0
                            <= a.updated_at < TS_MAX
                    } by {
                        assert(post.accounts@[x] == pre.accounts@.push(newrow)[x]);
                        if x < pre.accounts@.len() {
                            let a0 = pre.accounts@[x];
                        } else {
                            assert(pre.accounts@.push(newrow)[x] == newrow);
                        }
                    };
                    assert forall|x: int, y: int|
                        0 <= x < y < post.accounts@.len() implies post.accounts@[x].id
                        != post.accounts@[y].id && post.accounts@[x].name@
                        != post.accounts@[y].name@ by {
                        assert(post.accounts@[x] == pre.accounts@.push(newrow)[x]);
                        assert(post.accounts@[y] == pre.accounts@.push(newrow)[y]);
                        let ax = pre.accounts@[x];
                        if y < pre.accounts@.len() {
                            let ay = pre.accounts@[y];
                        } else {
                            assert(pre.accounts@.push(newrow)[y] == newrow);
                        }
                    };
                    assert forall|x: i64|
                        has_account_with_id(pre.accounts@, x) implies has_account_with_id(
                        post.accounts@,
                        x,
                    ) by {
                        let w = choose|n: int|
                            0 <= n < pre.accounts@.len() && (#[trigger] pre.accounts@[n]).id == x;
                        assert(post.accounts@[w].id == x);
                    };
                    Self::lemma_channels_ok_transfer(&pre, &post);
                    Self::lemma_conversations_ok_transfer(&pre, &post);
                    Self::lemma_messages_ok_transfer(&pre, &post);
                    Self::lemma_documents_ok_transfer(&pre, &post);
                    assert(post.wf());
                }
                Ok(id)
            },
        }
    }

    /// The first participant recorded for a platform tag, if any.
    pub fn get_user_by_source(&self, source: String) -> (r: Option<Account>)
        ensures
            match r {
                Some(a) => exists|i: int|
                    0 <= i < self.accounts@.len() && (#[trigger] self.accounts@[i]) == a
                        && a.source@ == source@ && (forall|j: int|
                        0 <= j < i ==> (#[trigger] self.accounts@[j]).source@ != source@),
                None => forall|i: int|
                    0 <= i < self.accounts@.len() ==> (#[trigger] self.accounts@[i]).source@
                        != source@,
            },
    {
        let mut i: usize = 0;
        while i < self.accounts.len()
            invariant
                i <= self.accounts@.len(),
                forall|j: int| 0 <= j < i ==> (#[trigger] self.accounts@[j]).source@ != source@,
            decreases self.accounts@.len() - i,
        {
            if self.accounts[i].source == source {
                return Some(self.accounts[i].clone());
            }
            i = i + 1;
        }
        None
    }

    /// Insert a channel or touch the one already known under this external
    /// identifier, keeping its name unless a new one is supplied.
    pub fn create_channel(
        &mut self,
        channel_id: String,
        channel_type: String,
        name: Option<String>,
        now: i64,
    ) -> (r: Result<i64, SqliteError>)
        requires
            old(self).wf(),
            old(self).next_channel_id < i64::MAX,
            0 <= now < TS_MAX,
        ensures
            final(self).wf(),
            upsert_channel_post(
                old(self).channels@,
                old(self).next_channel_id,
                final(self).channels@,
                final(self).next_channel_id,
                r,
                channel_id,
                channel_type,
                name,
                now,
            ),
            Self::accounts_part_eq(old(self), final(self)),
            Self::conversations_part_eq(old(self), final(self)),
            Self::messages_part_eq(old(self), final(self)),
            Self::documents_part_eq(old(self), final(self)),
    {
        match self.find_channel_by_external(&channel_id) {
            Some(i) => {
                let mut row = self.channels[i].clone();
                row.updated_at = now;
                if name.is_some() {
                    row.name = name;
                }
                let id = row.id;
                self.channels[i] = row;
                proof {
                    let pre = *old(self);
                    let post = *self;
                    assert(post.channels@ =~= pre.channels@.update(
                        i as int,
                        touch_channel(pre.channels@[i as int], name, now),
                    ));
                    assert forall|j: int|
                        0 <= j < pre.channels@.len() && (#[trigger] pre.channels@[j]).channel_id@
                            == channel_id@ implies j == i as int by {};
                    assert forall|x: int| 0 <= x < post.channels@.len() implies {
                        let c = #[trigger] post.channels@[x];
                        0 <= c.id < post.next_channel_id && 0 <= c.created_at < TS_MAX && 0
                            <= c.updated_at < TS_MAX
                    } by {
                        let c0 = pre.channels@[x];
                    };
                    assert forall|x: int, y: int|
                        0 <= x < y < post.channels@.len() implies post.channels@[x].id
                        != post.channels@[y].id && post.channels@[x].channel_id@
                        != post.channels@[y].channel_id@ by {
                        let cx = pre.channels@[x];
                        let cy = pre.channels@[y];
                    };
                    assert forall|x: i64|
                        has_channel_with_id(pre.channels@, x) implies has_channel_with_id(
                        post.channels@,
                        x,
                    ) by {
                        let w = choose|n: int|
                            0 <= n < pre.channels@.len() && (#[trigger] pre.channels@[n]).id == x;
                        assert(post.channels@[w].id == x);
                    };
                    Self::lemma_accounts_ok_transfer(&pre, &post);
                    Self::lemma_conversations_ok_transfer(&pre, &post);
                    Self::lemma_messages_ok_transfer(&pre, &post);
                    Self::lemma_documents_ok_transfer(&pre, &post);
                    assert(post.wf());
                }
                Ok(id)
            },
            None => {
                let id = self.next_channel_id;
                let row = Channel {
                    id,
                    channel_id,
                    channel_type,
                    name,
                    created_at: now,
                    updated_at: now,
                };
                let ghost newrow = row;
                self.channels.push(row);
                self.next_channel_id = id + 1;
                proof {
                    let pre = *old(self);
                    let post = *self;
                    assert(post.channels@ =~= pre.channels@.push(newrow));
                    assert forall|x: int| 0 <= x < post.channels@.len() implies {
                        let c = #[trigger] post.channels@[x];
                        0 <= c.id < post.next_channel_id && 0 <= c.created_at < TS_MAX && 0
                            <= c.updated_at < TS_MAX
                    } by {
                        assert(post.channels@[x] == pre.channels@.push(newrow)[x]);
                        if x < pre.channels@.len() {
                            let c0 = pre.channels@[x];
                        } else {
                            assert(pre.channels@.push(newrow)[x] == newrow);
                        }
                    };
                    assert forall|x: int, y: int|
                        0 <= x < y < post.channels@.len() implies post.channels@[x].id
                        != post.channels@[y].id && post.channels@[x].channel_id@
                        != post.channels@[y].channel_id@ by {
                        assert(post.channels@[x] == pre.channels@.push(newrow)[x]);
                        assert(post.channels@[y] == pre.channels@.push(newrow)[y]);
                        let cx = pre.channels@[x];
                        if y < pre.channels@.len() {
                            let cy = pre.channels@[y];
                        } else {
                            assert(pre.channels@.push(newrow)[y] == newrow);
                        }
                    };
                    assert forall|x: i64|
                        has_channel_with_id(pre.channels@, x) implies has_channel_with_id(
                        post.channels@,
                        x,
                    ) by {
                        let w = choose|n: int|
                            0 <= n < pre.channels@.len() && (#[trigger] pre.channels@[n]).id == x;
                        assert(post.channels@[w].id == x);
                    };
                    Self::lemma_accounts_ok_transfer(&pre, &post);
                    Self::lemma_conversations_ok_transfer(&pre, &post);
                    Self::lemma_messages_ok_transfer(&pre, &post);
                    Self::lemma_documents_ok_transfer(&pre, &post);
                    assert(post.wf());
                }
                Ok(id)
            },
        }
    }

    /// The channel with this row id, if any.
    pub fn get_channel(&self, id: i64) -> (r: Option<Channel>)
        ensures
            match r {
                Some(c) => c.id == id && exists|i: int|
                    0 <= i < self.channels@.len() && (#[trigger] self.channels@[i]) == c,
                None => !has_channel_with_id(self.channels@, id),
            },
    {
        let mut i: usize = 0;
        while i < self.channels.len()
            invariant
                i <= self.channels@.len(),
                forall|j: int| 0 <= j < i ==> (#[trigger] self.channels@[j]).id != id,
            decreases self.channels@.len() - i,
        {
            if self.channels[i].id == id {
                return Some(self.channels[i].clone());
            }
            i = i + 1;
        }
        None
    }

    /// Every channel tagged with this platform, in insertion order.
    pub fn get_channels_by_source(&self, source: String) -> (r: Vec<Channel>)
        ensures
            r@ == self.channels@.filter(|c: Channel| c.channel_type@ == source@),
    {
        let ghost pred = |c: Channel| c.channel_type@ == source@;
        let mut r: Vec<Channel> = Vec::new();
        let mut i: usize = 0;
        while i < self.channels.len()
            invariant
                i <= self.channels@.len(),
                r@ == self.channels@.take(i as int).filter(|c: Channel| c.channel_type@ == source@),
            decreases self.channels@.len() - i,
        {
            proof {
                assert(self.channels@.take(i + 1).drop_last() =~= self.channels@.take(i as int));
                reveal(Seq::filter);
            }
            if self.channels[i].channel_type == source {
                r.push(self.channels[i].clone());
            }
            proof {
                assert(self.channels@.take(i + 1).last() == self.channels@[i as int]);
            }
            i = i + 1;
        }
        proof {
            assert(self.channels@.take(self.channels@.len() as int) =~= self.channels@);
        }
        r
    }

    /// Record a titled conversation for an account; plain insert, id assigned
    /// by the store.
    pub fn create_conversation(&mut self, user_id: i64, title: String, now: i64) -> (r: Result<
        i64,
        SqliteError,
    >)
        requires
            old(self).wf(),
            old(self).next_conversation_id < i64::MAX,
            0 <= now < TS_MAX,
        ensures
            final(self).wf(),
            r == Ok::<i64, SqliteError>(old(self).next_conversation_id),
            final(self).conversations@ == old(self).conversations@.push(
                Conversation {
                    id: old(self).next_conversation_id,
                    user_id,
                    title,
                    created_at: now,
                    updated_at: now,
                },
            ),
            final(self).next_conversation_id == old(self).next_conversation_id + 1,
            Self::accounts_part_eq(old(self), final(self)),
            Self::channels_part_eq(old(self), final(self)),
            Self::messages_part_eq(old(self), final(self)),
            Self::documents_part_eq(old(self), final(self)),
    {
        let id = self.next_conversation_id;
        let row = Conversation { id, user_id, title, created_at: now, updated_at: now };
        let ghost newrow = row;
        self.conversations.push(row);
        self.next_conversation_id = id + 1;
        proof {
            let pre = *old(self);
            let post = *self;
            assert(post.conversations@ =~= pre.conversations@.push(newrow));
            assert forall|x: int| 0 <= x < post.conversations@.len() implies {
                let c = #[trigger] post.conversations@[x];
                0 <= c.id < post.next_conversation_id && 0 <= c.created_at < TS_MAX && 0
                    <= c.updated_at < TS_MAX
            } by {
                assert(post.conversations@[x] == pre.conversations@.push(newrow)[x]);
                if x < pre.conversations@.len() {
                    let c0 = pre.conversations@[x];
                } else {
                    assert(pre.conversations@.push(newrow)[x] == newrow);
                }
            };
            assert forall|x: int, y: int|
                0 <= x < y < post.conversations@.len() implies post.conversations@[x].id
                != post.conversations@[y].id by {
                assert(post.conversations@[x] == pre.conversations@.push(newrow)[x]);
                assert(post.conversations@[y] == pre.conversations@.push(newrow)[y]);
                let cx = pre.conversations@[x];
                if y < pre.conversations@.len() {
                    let cy = pre.conversations@[y];
                } else {
                    assert(pre.conversations@.push(newrow)[y] == newrow);
                }
            };
            Self::lemma_accounts_ok_transfer(&pre, &post);
            Self::lemma_channels_ok_transfer(&pre, &post);
            Self::lemma_messages_ok_transfer(&pre, &post);
            Self::lemma_documents_ok_transfer(&pre, &post);
            assert(post.wf());
        }
        Ok(id)
    }

    /// The conversation with this row id, if any.
    pub fn get_conversation(&self, id: i64) -> (r: Option<Conversation>)
        ensures
            match r {
                Some(c) => c.id == id && exists|i: int|
                    0 <= i < self.conversations@.len() && (#[trigger] self.conversations@[i]) == c,
                None => forall|i: int|
                    0 <= i < self.conversations@.len() ==> (#[trigger] self.conversations@[i]).id
                        != id,
            },
    {
        let mut i: usize = 0;
        while i < self.conversations.len()
            invariant
                i <= self.conversations@.len(),
                forall|j: int| 0 <= j < i ==> (#[trigger] self.conversations@[j]).id != id,
            decreases self.conversations@.len() - i,
        {
            if self.conversations[i].id == id {
                return Some(self.conversations[i].clone());
            }
            i = i + 1;
        }
        None
    }

    /// Every conversation owned by this account, in insertion order.
    pub fn get_conversations_by_user(&self, user_id: i64) -> (r: Vec<Conversation>)
        ensures
            r@ == self.conversations@.filter(|c: Conversation| c.user_id == user_id),
    {
        let mut r: Vec<Conversation> = Vec::new();
        let mut i: usize = 0;
        while i < self.conversations.len()
            invariant
                i <= self.conversations@.len(),
                r@ == self.conversations@.take(i as int).filter(
                    |c: Conversation| c.user_id == user_id,
                ),
            decreases self.conversations@.len() - i,
        {
            proof {
                assert(self.conversations@.take(i + 1).drop_last() =~= self.conversations@.take(
                    i as int,
                ));
                assert(self.conversations@.take(i + 1).last() == self.conversations@[i as int]);
                reveal(Seq::filter);
            }
            if self.conversations[i].user_id == user_id {
                r.push(self.conversations[i].clone());
            }
            i = i + 1;
        }
        proof {
            assert(self.conversations@.take(self.conversations@.len() as int)
                =~= self.conversations@);
        }
        r
    }
}

/// The pool a channel listing draws from: the channel's messages in
/// insertion order.
pub open spec fn messages_in_channel(msgs: Seq<Message>, channel_id: i64) -> Seq<Message> {
    msgs.filter(|m: Message| m.channel_id == channel_id)
}

/// The pool a conversation listing draws from: messages sent by the first
/// account, or sent by the second in reply to the first, after `since`.
pub open spec fn messages_between(
    msgs: Seq<Message>,
    user_id: i64,
    other_user_id: i64,
    since: i64,
) -> Seq<Message> {
    msgs.filter(
        |m: Message|
            (m.account_id == user_id || (m.reply_to_id == Some(user_id) && m.account_id
                == other_user_id)) && m.created_at > since,
    )
}

/// Newest-first ranking key: timestamps reversed within the canonical range.
pub open spec fn desc_key(t: i64) -> u64 {
    (TS_MAX - t) as u64
}

pub open spec fn created_desc_keys(pool: Seq<Message>) -> Seq<u64> {
    pool.map_values(|m: Message| desc_key(m.created_at))
}

pub open spec fn created_asc_keys(pool: Seq<Message>) -> Seq<u64> {
    pool.map_values(|m: Message| m.created_at as u64)
}

/// The rows of `pool` picked out by `sel`, in `sel`'s order.
pub open spec fn select_rows<T>(pool: Seq<T>, sel: Seq<usize>) -> Seq<T> {
    Seq::new(sel.len(), |i: int| pool[sel[i] as int])
}

impl SqliteStore {
    /// Append one message.  Both foreign keys are checked: a message naming a
    /// channel or account the store does not hold is refused and nothing
    /// changes.
    pub fn create_message(
        &mut self,
        channel_id: i64,
        account_id: i64,
        reply_to_id: Option<i64>,
        role: String,
        content: String,
        now: i64,
    ) -> (r: Result<i64, SqliteError>)
        requires
            old(self).wf(),
            old(self).next_message_id < i64::MAX,
            0 <= now < TS_MAX,
        ensures
            final(self).wf(),
            Self::accounts_part_eq(old(self), final(self)),
            Self::channels_part_eq(old(self), final(self)),
            Self::conversations_part_eq(old(self), final(self)),
            Self::documents_part_eq(old(self), final(self)),
            if has_channel_with_id(old(self).channels@, channel_id) && has_account_with_id(
                old(self).accounts@,
                account_id,
            ) {
                &&& r == Ok::<i64, SqliteError>(old(self).next_message_id)
                &&& final(self).messages@ == old(self).messages@.push(
                    Message {
                        id: old(self).next_message_id,
                        channel_id,
                        account_id,
                        role,
                        content,
                        reply_to_id,
                        created_at: now,
                    },
                )
                &&& final(self).next_message_id == old(self).next_message_id + 1
            } else {
                &&& r == Err::<i64, SqliteError>(
                    SqliteError::DatabaseError(DbFault::ConstraintViolation),
                )
                &&& Self::messages_part_eq(old(self), final(self))
            },
    {
        if !self.has_channel_row(channel_id) {
            return Err(SqliteError::DatabaseError(DbFault::ConstraintViolation));
        }
        if !self.has_account_row(account_id) {
            return Err(SqliteError::DatabaseError(DbFault::ConstraintViolation));
        }
        let id = self.next_message_id;
        let row = Message { id, channel_id, account_id, role, content, reply_to_id, created_at: now };
        let ghost newrow = row;
        self.messages.push(row);
        self.next_message_id = id + 1;
        proof {
            let pre = *old(self);
            let post = *self;
            assert(post.messages@ =~= pre.messages@.push(newrow));
            assert forall|x: int| 0 <= x < post.messages@.len() implies {
                let m = #[trigger] post.messages@[x];
                &&& 0 <= m.id < post.next_message_id
                &&& 0 <= m.created_at < TS_MAX
                &&& has_channel_with_id(post.channels@, m.channel_id)
                &&& has_account_with_id(post.accounts@, m.account_id)
            } by {
                assert(post.messages@[x] == pre.messages@.push(newrow)[x]);
                if x < pre.messages@.len() {
                    let m0 = pre.messages@[x];
                    assert(has_channel_with_id(pre.channels@, m0.channel_id));
                    assert(has_account_with_id(pre.accounts@, m0.account_id));
                } else {
                    assert(pre.messages@.push(newrow)[x] == newrow);
                }
            };
            assert forall|x: int, y: int|
                0 <= x < y < post.messages@.len() implies post.messages@[x].id
                != post.messages@[y].id by {
                assert(post.messages@[x] == pre.messages@.push(newrow)[x]);
                assert(post.messages@[y] == pre.messages@.push(newrow)[y]);
                let mx = pre.messages@[x];
                if y < pre.messages@.len() {
                    let my = pre.messages@[y];
                } else {
                    assert(pre.messages@.push(newrow)[y] == newrow);
                }
            };
            Self::lemma_accounts_ok_transfer(&pre, &post);
            Self::lemma_channels_ok_transfer(&pre, &post);
            Self::lemma_conversations_ok_transfer(&pre, &post);
            Self::lemma_documents_ok_transfer(&pre, &post);
            assert(post.wf());
        }
        Ok(id)
    }

    /// The message with this row id, if any.
    pub fn get_message(&self, id: i64) -> (r: Option<Message>)
        ensures
            match r {
                Some(m) => m.id == id && exists|i: int|
                    0 <= i < self.messages@.len() && (#[trigger] self.messages@[i]) == m,
                None => !has_message_with_id(self.messages@, id),
            },
    {
        let mut i: usize = 0;
        while i < self.messages.len()
            invariant
                i <= self.messages@.len(),
                forall|j: int| 0 <= j < i ==> (#[trigger] self.messages@[j]).id != id,
            decreases self.messages@.len() - i,
        {
            if self.messages[i].id == id {
                return Some(self.messages[i].clone());
            }
            i = i + 1;
        }
        None
    }

    /// Collect the channel's messages, newest first, carrying their
    /// timestamp bounds out of the table invariant.
    fn filter_channel(&self, channel_id: i64) -> (pool: Vec<Message>)
        requires
            self.wf(),
        ensures
            pool@ == messages_in_channel(self.messages@, channel_id),
            forall|k: int| 0 <= k < pool@.len() ==> 0 <= (#[trigger] pool@[k]).created_at < TS_MAX,
    {
        let mut pool: Vec<Message> = Vec::new();
        let mut i: usize = 0;
        while i < self.messages.len()
            invariant
                self.wf(),
                i <= self.messages@.len(),
                pool@ == self.messages@.take(i as int).filter(
                    |m: Message| m.channel_id == channel_id,
                ),
                forall|k: int|
                    0 <= k < pool@.len() ==> 0 <= (#[trigger] pool@[k]).created_at < TS_MAX,
            decreases self.messages@.len() - i,
        {
            proof {
                assert(self.messages@.take(i + 1).drop_last() =~= self.messages@.take(i as int));
                assert(self.messages@.take(i + 1).last() == self.messages@[i as int]);
                reveal(Seq::filter);
            }
            if self.messages[i].channel_id == channel_id {
                pool.push(self.messages[i].clone());
            }
            i = i + 1;
        }
        proof {
            assert(self.messages@.take(self.messages@.len() as int) =~= self.messages@);
        }
        pool
    }

    /// Up to `limit` messages of the channel, newest first; between equal
    /// timestamps the earlier insertion ranks first.
    pub fn get_recent_messages(&self, channel_id: i64, limit: usize) -> (r: Vec<Message>)
        requires
            self.wf(),
        ensures
            exists|sel: Seq<usize>|
                #![all_triggers]
                is_ranking(
                    created_desc_keys(messages_in_channel(self.messages@, channel_id)),
                    limit as int,
                    sel,
                ) && r@ == select_rows(messages_in_channel(self.messages@, channel_id), sel),
    {
        let pool = self.filter_channel(channel_id);
        let mut keys: Vec<u64> = Vec::new();
        let mut i: usize = 0;
        while i < pool.len()
            invariant
                i <= pool@.len(),
                keys@.len() == i,
                forall|k: int|
                    0 <= k < pool@.len() ==> 0 <= (#[trigger] pool@[k]).created_at < TS_MAX,
                forall|k: int| 0 <= k < i ==> keys@[k] == desc_key(pool@[k].created_at),
            decreases pool@.len() - i,
        {
            keys.push(TS_MAX.wrapping_sub(pool[i].created_at) as u64);
            proof {
                assert(TS_MAX - pool@[i as int].created_at == desc_key(
                    pool@[i as int].created_at,
                ) as int);
            }
            i = i + 1;
        }
        proof {
            assert(keys@ =~= created_desc_keys(pool@));
        }
        let sel = rank_ascending(&keys, limit);
        let mut r: Vec<Message> = Vec::new();
        let mut t: usize = 0;
        while t < sel.len()
            invariant
                t <= sel@.len(),
                is_ranking(created_desc_keys(pool@), limit as int, sel@),
                keys@ == created_desc_keys(pool@),
                r@.len() == t,
                forall|k: int| 0 <= k < t ==> r@[k] == pool@[sel@[k] as int],
            decreases sel@.len() - t,
        {
            r.push(pool[sel[t]].clone());
            t = t + 1;
        }
        proof {
            assert(r@ =~= select_rows(pool@, sel@));
        }
        r
    }

    /// Up to `limit` messages of a conversation between two accounts since a
    /// cutoff, oldest first.
    pub fn get_conversation_between_users(
        &self,
        user_id: i64,
        other_user_id: i64,
        since: i64,
        limit: usize,
    ) -> (r: Vec<Message>)
        requires
            self.wf(),
        ensures
            exists|sel: Seq<usize>|
                #![all_triggers]
                is_ranking(
                    created_asc_keys(
                        messages_between(self.messages@, user_id, other_user_id, since),
                    ),
                    limit as int,
                    sel,
                ) && r@ == select_rows(
                    messages_between(self.messages@, user_id, other_user_id, since),
                    sel,
                ),
    {
        let mut pool: Vec<Message> = Vec::new();
        let mut i: usize = 0;
        while i < self.messages.len()
            invariant
                self.wf(),
                i <= self.messages@.len(),
                pool@ == messages_between(
                    self.messages@.take(i as int),
                    user_id,
                    other_user_id,
                    since,
                ),
                forall|k: int|
                    0 <= k < pool@.len() ==> 0 <= (#[trigger] pool@[k]).created_at < TS_MAX,
            decreases self.messages@.len() - i,
        {
            proof {
                assert(self.messages@.take(i + 1).drop_last() =~= self.messages@.take(i as int));
                assert(self.messages@.take(i + 1).last() == self.messages@[i as int]);
                reveal(Seq::filter);
            }
            let m = &self.messages[i];
            let replies = match m.reply_to_id {
                Some(rid) => rid == user_id && m.account_id == other_user_id,
                None => false,
            };
            if (m.account_id == user_id || replies) && m.created_at > since {
                pool.push(self.messages[i].clone());
            }
            i = i + 1;
        }
        proof {
            assert(self.messages@.take(self.messages@.len() as int) =~= self.messages@);
        }
        let mut keys: Vec<u64> = Vec::new();
        let mut i: usize = 0;
        while i < pool.len()
            invariant
                i <= pool@.len(),
                keys@.len() == i,
                forall|k: int|
                    0 <= k < pool@.len() ==> 0 <= (#[trigger] pool@[k]).created_at < TS_MAX,
                forall|k: int| 0 <= k < i ==> keys@[k] == pool@[k].created_at as u64,
            decreases pool@.len() - i,
        {
            keys.push(pool[i].created_at as u64);
            i = i + 1;
        }
        proof {
            assert(keys@ =~= created_asc_keys(pool@));
        }
        let sel = rank_ascending(&keys, limit);
        let mut r: Vec<Message> = Vec::new();
        let mut t: usize = 0;
        while t < sel.len()
            invariant
                t <= sel@.len(),
                is_ranking(created_asc_keys(pool@), limit as int, sel@),
                keys@ == created_asc_keys(pool@),
                r@.len() == t,
                forall|k: int| 0 <= k < t ==> r@[k] == pool@[sel@[k] as int],
            decreases sel@.len() - t,
        {
            r.push(pool[sel[t]].clone());
            t = t + 1;
        }
        proof {
            assert(r@ =~= select_rows(pool@, sel@));
        }
        r
    }

    /// Every message of the channel, oldest first.
    pub fn get_messages_by_channel(&self, channel_id: i64) -> (r: Vec<Message>)
        requires
            self.wf(),
        ensures
            exists|sel: Seq<usize>|
                #![all_triggers]
                is_ranking(
                    created_asc_keys(messages_in_channel(self.messages@, channel_id)),
                    messages_in_channel(self.messages@, channel_id).len() as int,
                    sel,
                ) && r@ == select_rows(messages_in_channel(self.messages@, channel_id), sel),
    {
        let pool = self.filter_channel(channel_id);
        let mut keys: Vec<u64> = Vec::new();
        let mut i: usize = 0;
        while i < pool.len()
            invariant
                i <= pool@.len(),
                keys@.len() == i,
                forall|k: int|
                    0 <= k < pool@.len() ==> 0 <= (#[trigger] pool@[k]).created_at < TS_MAX,
                forall|k: int| 0 <= k < i ==> keys@[k] == pool@[k].created_at as u64,
            decreases pool@.len() - i,
        {
            keys.push(pool[i].created_at as u64);
            i = i + 1;
        }
        proof {
            assert(keys@ =~= created_asc_keys(pool@));
        }
        let n = pool.len();
        let sel = rank_ascending(&keys, n);
        let mut r: Vec<Message> = Vec::new();
        let mut t: usize = 0;
        while t < sel.len()
            invariant
                t <= sel@.len(),
                is_ranking(created_asc_keys(pool@), pool@.len() as int, sel@),
                keys@ == created_asc_keys(pool@),
                r@.len() == t,
                forall|k: int| 0 <= k < t ==> r@[k] == pool@[sel@[k] as int],
            decreases sel@.len() - t,
        {
            r.push(pool[sel[t]].clone());
            t = t + 1;
        }
        proof {
            assert(r@ =~= select_rows(pool@, sel@));
        }
        r
    }
}

/// The model of a grown embedding table is the grown model.
pub proof fn lemma_embs_model_push(s: Seq<EmbeddingRow>, x: EmbeddingRow)
    ensures
        embs_model_of(s.push(x)) == embs_model_of(s).push(x.model()),
{
    assert forall|i: int| 0 <= i < s.push(x).len() implies embs_model_of(s.push(x))[i]
        == embs_model_of(s).push(x.model())[i] by {
        assert(embs_model_of(s.push(x))[i] == s.push(x)[i].model());
        if i < s.len() {
            assert(s.push(x)[i] == s[i]);
            assert(embs_model_of(s)[i] == s[i].model());
        } else {
            assert(s.push(x)[i] == x);
        }
    };
    assert(embs_model_of(s.push(x)) =~= embs_model_of(s).push(x.model()));
}

/// Every element of a filtered sequence occurs in the original.
proof fn lemma_filter_is_subset<A>(s: Seq<A>, pred: spec_fn(A) -> bool)
    ensures
        forall|i: int|
            0 <= i < s.filter(pred).len() ==> s.contains(#[trigger] s.filter(pred)[i]),
    decreases s.len(),
{
    reveal(Seq::filter);
    if s.len() > 0 {
        lemma_filter_is_subset(s.drop_last(), pred);
        assert forall|i: int| 0 <= i < s.filter(pred).len() implies s.contains(
            #[trigger] s.filter(pred)[i],
        ) by {
            let f = s.filter(pred);
            let fd = s.drop_last().filter(pred);
            if i < fd.len() {
                assert(fd[i] == f[i]);
                let w = choose|w: int| 0 <= w < s.drop_last().len() && s.drop_last()[w] == fd[i];
                assert(s[w] == fd[i]);
            } else {
                assert(f[i] == s.last());
                assert(s[s.len() - 1] == s.last());
            }
        }
    }
}

/// The ghost form of the paired document tables: relational rows, embedding
/// rows, next row id.
pub ghost struct DocTables {
    pub docs: Seq<DocM>,
    pub embs: Seq<EmbM>,
    pub next: int,
}

/// The model of one vector batch keyed to a fresh row.
pub open spec fn new_embs(vectors: Seq<Seq<u32>>, rid: int) -> Seq<EmbM> {
    vectors.map_values(|v: Seq<u32>| EmbM { row_id: rid, blob: encoded(v) })
}

/// What writing one document does to the paired tables: a row already known
/// under the identifier leaves together with its embedding rows, a fresh row
/// takes the next id, and the new embedding rows are keyed to it — the
/// all-or-nothing dual write.
pub open spec fn upsert_document_model(
    t: DocTables,
    doc_id: Seq<char>,
    content: Seq<char>,
    vectors: Seq<Seq<u32>>,
) -> DocTables {
    let fresh = DocM { row_id: t.next, doc_id, content };
    if has_document_with_doc_id(t.docs, doc_id) {
        let j = choose|j: int| 0 <= j < t.docs.len() && (#[trigger] t.docs[j]).doc_id == doc_id;
        let old_rid = t.docs[j].row_id;
        DocTables {
            docs: t.docs.remove(j).push(fresh),
            embs: t.embs.filter(|e: EmbM| e.row_id != old_rid) + new_embs(vectors, t.next),
            next: t.next + 1,
        }
    } else {
        DocTables {
            docs: t.docs.push(fresh),
            embs: t.embs + new_embs(vectors, t.next),
            next: t.next + 1,
        }
    }
}

/// The model of one ingestion batch, applied in order.
pub open spec fn apply_documents(
    t: DocTables,
    items: Seq<(Seq<char>, Seq<char>, Seq<Seq<u32>>)>,
) -> DocTables
    decreases items.len(),
{
    if items.len() == 0 {
        t
    } else {
        let prev = apply_documents(t, items.drop_last());
        upsert_document_model(prev, items.last().0, items.last().1, items.last().2)
    }
}

/// Every vector of the batch has the store's fixed dimension.
pub open spec fn all_dims_ok(items: Seq<(Seq<char>, Seq<char>, Seq<Seq<u32>>)>, dim: int) -> bool {
    forall|i: int, k: int|
        #![trigger items[i].2[k]]
        0 <= i < items.len() && 0 <= k < items[i].2.len() ==> items[i].2[k].len() == dim
}

/// The ghost form of an ingestion batch.
pub open spec fn items_model(documents: Seq<DocumentEmbeddings>) -> Seq<
    (Seq<char>, Seq<char>, Seq<Seq<u32>>),
> {
    documents.map_values(|de: DocumentEmbeddings| de.model())
}

/// The embedding rows owned by one relational row, in insertion order.
pub open spec fn embs_of_row(embs: Seq<EmbM>, rid: int) -> Seq<EmbM> {
    embs.filter(|e: EmbM| e.row_id == rid)
}

/// The decoded form of each blob.
pub open spec fn decoded_blobs(embs: Seq<EmbM>) -> Seq<Seq<u32>> {
    embs.map_values(|e: EmbM| decoded(e.blob))
}

/// The decoded embedding vectors owned by one row, in insertion order.
pub open spec fn doc_embeddings_model(embs: Seq<EmbM>, rid: int) -> Seq<Seq<u32>> {
    decoded_blobs(embs_of_row(embs, rid))
}

proof fn lemma_decoded_blobs_push(s: Seq<EmbM>, x: EmbM)
    ensures
        decoded_blobs(s.push(x)) == decoded_blobs(s).push(decoded(x.blob)),
{
    assert forall|i: int| 0 <= i < s.push(x).len() implies decoded_blobs(s.push(x))[i]
        == decoded_blobs(s).push(decoded(x.blob))[i] by {
        if i < s.len() {
            assert(s.push(x)[i] == s[i]);
        } else {
            assert(s.push(x)[i] == x);
        }
    };
    assert(decoded_blobs(s.push(x)) =~= decoded_blobs(s).push(decoded(x.blob)));
}

proof fn lemma_vecs_of_push(s: Seq<Vec<u32>>, x: Vec<u32>)
    ensures
        vecs_of(s.push(x)) == vecs_of(s).push(x@),
{
    assert forall|i: int| 0 <= i < s.push(x).len() implies vecs_of(s.push(x))[i] == vecs_of(
        s,
    ).push(x@)[i] by {
        if i < s.len() {
            assert(s.push(x)[i] == s[i]);
        } else {
            assert(s.push(x)[i] == x);
        }
    };
    assert(vecs_of(s.push(x)) =~= vecs_of(s).push(x@));
}

impl SqliteStore {
    pub open spec fn doc_tables(&self) -> DocTables {
        DocTables {
            docs: self.docs_model(),
            embs: self.embs_model(),
            next: self.next_document_row_id as int,
        }
    }

    fn find_document_by_doc_id(&self, doc_id: &String) -> (r: Option<usize>)
        ensures
            match r {
                Some(i) => i < self.docs_model().len() && self.docs_model()[i as int].doc_id
                    == doc_id@,
                None => !has_document_with_doc_id(self.docs_model(), doc_id@),
            },
    {
        let mut i: usize = 0;
        while i < self.documents.len()
            invariant
                i <= self.documents@.len(),
                forall|j: int| 0 <= j < i ==> (#[trigger] self.documents@[j]).doc_id@ != doc_id@,
            decreases self.documents@.len() - i,
        {
            if self.documents[i].doc_id == *doc_id {
                proof {
                    assert(self.docs_model()[i as int] == self.documents@[i as int].model());
                }
                return Some(i);
            }
            i = i + 1;
        }
        proof {
            assert forall|j: int| 0 <= j < self.docs_model().len() implies (
            #[trigger] self.docs_model()[j]).doc_id != doc_id@ by {
                assert(self.docs_model()[j] == self.documents@[j].model());
            };
        }
        None
    }

    fn find_document_by_row_id(&self, row_id: i64) -> (r: Option<usize>)
        ensures
            match r {
                Some(i) => i < self.docs_model().len() && self.docs_model()[i as int].row_id
                    == row_id as int,
                None => !has_document_with_row_id(self.docs_model(), row_id as int),
            },
    {
        let mut i: usize = 0;
        while i < self.documents.len()
            invariant
                i <= self.documents@.len(),
                forall|j: int| 0 <= j < i ==> (#[trigger] self.documents@[j]).row_id != row_id,
            decreases self.documents@.len() - i,
        {
            if self.documents[i].row_id == row_id {
                proof {
                    assert(self.docs_model()[i as int] == self.documents@[i as int].model());
                }
                return Some(i);
            }
            i = i + 1;
        }
        proof {
            assert forall|j: int| 0 <= j < self.docs_model().len() implies (
            #[trigger] self.docs_model()[j]).row_id != row_id as int by {
                assert(self.docs_model()[j] == self.documents@[j].model());
            };
        }
        None
    }

    /// The paired tables stay consistent across one document write.
    proof fn lemma_documents_ok_after_upsert(
        pre: &SqliteStore,
        post: &SqliteStore,
        doc_id: Seq<char>,
        content: Seq<char>,
        vectors: Seq<Seq<u32>>,
    )
        requires
            pre.wf(),
            post.doc_tables() == upsert_document_model(pre.doc_tables(), doc_id, content, vectors),
            post.next_document_row_id == pre.next_document_row_id + 1,
            post.dim == pre.dim,
            forall|k: int| 0 <= k < vectors.len() ==> (#[trigger] vectors[k]).len() == pre.dim,
        ensures
            post.documents_ok(),
    {
        let t = pre.doc_tables();
        let fresh = DocM { row_id: t.next, doc_id, content };
        let nembs = new_embs(vectors, t.next);
        if has_document_with_doc_id(t.docs, doc_id) {
            let j = choose|j: int| 0 <= j < t.docs.len() && (#[trigger] t.docs[j]).doc_id == doc_id;
            let old_rid = t.docs[j].row_id;
            let kept = t.embs.filter(|e: EmbM| e.row_id != old_rid);
            let newdocs = t.docs.remove(j).push(fresh);
            assert(post.docs_model() == newdocs);
            assert(post.embs_model() == kept + nembs);
            assert forall|x: int| 0 <= x < newdocs.len() implies 0 <= (
            #[trigger] newdocs[x]).row_id < post.next_document_row_id by {
                if x < newdocs.len() - 1 {
                    let ox: int = if x < j { x } else { x + 1 };
                    assert(newdocs[x] == t.docs[ox]);
                }
            };
            assert forall|x: int, y: int| 0 <= x < y < newdocs.len() implies newdocs[x].row_id
                != newdocs[y].row_id && newdocs[x].doc_id != newdocs[y].doc_id by {
                let ox: int = if x < j { x } else { x + 1 };
                assert(newdocs[x] == t.docs[ox]);
                if y < newdocs.len() - 1 {
                    let oy: int = if y < j { y } else { y + 1 };
                    assert(newdocs[y] == t.docs[oy]);
                } else {
                    assert(newdocs[y] == fresh);
                }
            };
            let pred = |e: EmbM| e.row_id != old_rid;
            assert(kept == t.embs.filter(pred));
            broadcast use vstd::seq_lib::group_filter_ensures;

            lemma_filter_is_subset(t.embs, pred);
            assert forall|x: int| 0 <= x < post.embs_model().len() implies {
                let e = #[trigger] post.embs_model()[x];
                has_document_with_row_id(post.docs_model(), e.row_id) && e.blob.len() == 4 * (
                post.dim as int)
            } by {
                assert(post.embs_model()[x] == (kept + nembs)[x]);
                if x < kept.len() {
                    assert((kept + nembs)[x] == kept[x]);
                    let e = kept[x];
                    assert(pred(e));
                    assert(t.embs.contains(e));
                    let w = choose|w: int| 0 <= w < t.embs.len() && t.embs[w] == e;
                    assert(t.embs[w] == e);
                    assert(has_document_with_row_id(t.docs, e.row_id));
                    let dw = choose|d: int|
                        0 <= d < t.docs.len() && (#[trigger] t.docs[d]).row_id == e.row_id;
                    assert(dw != j);
                    let nw: int = if dw < j {
                        dw
                    } else {
                        dw - 1
                    };
                    assert(newdocs[nw] == t.docs[dw]);
                } else {
                    assert((kept + nembs)[x] == nembs[x - kept.len()]);
                    assert(nembs[x - kept.len()] == EmbM {
                        row_id: t.next,
                        blob: encoded(vectors[x - kept.len()]),
                    });
                    crate::codec::lemma_encoded_len(vectors[x - kept.len()]);
                    assert(newdocs[newdocs.len() - 1] == fresh);
                }
            };
        } else {
            let newdocs = t.docs.push(fresh);
            assert(post.docs_model() == newdocs);
            assert(post.embs_model() == t.embs + nembs);
            assert forall|x: int| 0 <= x < newdocs.len() implies 0 <= (
            #[trigger] newdocs[x]).row_id < post.next_document_row_id by {
                if x < t.docs.len() {
                    assert(newdocs[x] == t.docs[x]);
                }
            };
            assert forall|x: int, y: int| 0 <= x < y < newdocs.len() implies newdocs[x].row_id
                != newdocs[y].row_id && newdocs[x].doc_id != newdocs[y].doc_id by {
                assert(newdocs[x] == t.docs[x]);
                if y < t.docs.len() {
                    assert(newdocs[y] == t.docs[y]);
                } else {
                    assert(newdocs[y] == fresh);
                }
            };
            assert forall|x: int| 0 <= x < post.embs_model().len() implies {
                let e = #[trigger] post.embs_model()[x];
                has_document_with_row_id(post.docs_model(), e.row_id) && e.blob.len() == 4 * (
                post.dim as int)
            } by {
                assert(post.embs_model()[x] == (t.embs + nembs)[x]);
                if x < t.embs.len() {
                    assert((t.embs + nembs)[x] == t.embs[x]);
                    let e = t.embs[x];
                    assert(has_document_with_row_id(t.docs, e.row_id));
                    let dw = choose|d: int|
                        0 <= d < t.docs.len() && (#[trigger] t.docs[d]).row_id == e.row_id;
                    assert(newdocs[dw] == t.docs[dw]);
                } else {
                    assert((t.embs + nembs)[x] == nembs[x - t.embs.len()]);
                    assert(post.embs_model()[x] == nembs[x - t.embs.len()]);
                    assert(nembs[x - t.embs.len()] == EmbM {
                        row_id: t.next,
                        blob: encoded(vectors[x - t.embs.len()]),
                    });
                    crate::codec::lemma_encoded_len(vectors[x - t.embs.len()]);
                    assert(newdocs[newdocs.len() - 1] == fresh);
                }
            };
        }
    }

    /// Write one document and its embedding rows: the paired-table step of
    /// the dual write.
    fn upsert_document(&mut self, de: &DocumentEmbeddings)
        requires
            old(self).wf(),
            old(self).next_document_row_id < i64::MAX,
            forall|k: int|
                0 <= k < de.embeddings@.len() ==> (#[trigger] de.embeddings@[k])@.len() == old(
                    self,
                ).dim,
        ensures
            final(self).wf(),
            Self::accounts_part_eq(old(self), final(self)),
            Self::channels_part_eq(old(self), final(self)),
            Self::conversations_part_eq(old(self), final(self)),
            Self::messages_part_eq(old(self), final(self)),
            final(self).dim == old(self).dim,
            final(self).next_document_row_id == old(self).next_document_row_id + 1,
            final(self).doc_tables() == upsert_document_model(
                old(self).doc_tables(),
                de.document.id@,
                de.document.content@,
                de.embeddings@.map_values(|v: Vec<u32>| v@),
            ),
    {
        let ghost t0 = old(self).doc_tables();
        let ghost vectors = vecs_of(de.embeddings@);
        let rid = self.next_document_row_id;
        match self.find_document_by_doc_id(&de.document.id) {
            Some(j) => {
                proof {
                    let jj = choose|jj: int|
                        0 <= jj < t0.docs.len() && (#[trigger] t0.docs[jj]).doc_id
                            == de.document.id@;
                    assert(jj == j as int);
                }
                let old_rid = self.documents[j].row_id;
                self.documents.remove(j);
                let mut kept: Vec<EmbeddingRow> = Vec::new();
                let ghost presnap = *self;
                let mut i: usize = 0;
                while i < self.embeddings.len()
                    invariant
                        *self == presnap,
                        i <= self.embeddings@.len(),
                        embs_model_of(self.embeddings@) == t0.embs,
                        embs_model_of(kept@) == t0.embs.take(i as int).filter(
                            |e: EmbM| e.row_id != old_rid as int,
                        ),
                    decreases self.embeddings@.len() - i,
                {
                    proof {
                        assert(t0.embs.take(i + 1).drop_last() =~= t0.embs.take(i as int));
                        assert(t0.embs.take(i + 1).last() == t0.embs[i as int]);
                        assert(t0.embs[i as int] == self.embeddings@[i as int].model());
                        reveal(Seq::filter);
                    }
                    if self.embeddings[i].row_id != old_rid {
                        let row = self.embeddings[i].clone();
                        kept.push(row);
                        proof {
                            assert(embs_model_of(kept@) =~= t0.embs.take(i + 1).filter(
                                |e: EmbM| e.row_id != old_rid as int,
                            ));
                        }
                    }
                    i = i + 1;
                }
                proof {
                    assert(t0.embs.take(t0.embs.len() as int) =~= t0.embs);
                }
                self.embeddings = kept;
            },
            None => {},
        }
        let ghost base_docs = docs_model_of(self.documents@);
        let ghost base_embs = embs_model_of(self.embeddings@);
        self.documents.push(
            DocumentRow {
                row_id: rid,
                doc_id: de.document.id.clone(),
                content: de.document.content.clone(),
            },
        );
        let ghost snap = *self;
        let mut k: usize = 0;
        while k < de.embeddings.len()
            invariant
                k <= de.embeddings@.len(),
                vectors == vecs_of(de.embeddings@),
                self.accounts == snap.accounts,
                self.channels == snap.channels,
                self.conversations == snap.conversations,
                self.messages == snap.messages,
                self.documents == snap.documents,
                self.next_account_id == snap.next_account_id,
                self.next_channel_id == snap.next_channel_id,
                self.next_conversation_id == snap.next_conversation_id,
                self.next_message_id == snap.next_message_id,
                self.next_document_row_id == snap.next_document_row_id,
                self.dim == snap.dim,
                embs_model_of(self.embeddings@) == base_embs + new_embs(
                    vectors.take(k as int),
                    rid as int,
                ),
            decreases de.embeddings@.len() - k,
        {
            let blob = encode(&de.embeddings[k]);
            let row = EmbeddingRow { row_id: rid, blob };
            let ghost rowg = row;
            let ghost eprev = self.embeddings@;
            self.embeddings.push(row);
            proof {
                assert(vectors[k as int] == de.embeddings@[k as int]@);
                let newm = EmbM { row_id: rid as int, blob: encoded(vectors[k as int]) };
                assert(rowg.model() == newm);
                assert(new_embs(vectors.take(k + 1), rid as int) =~= new_embs(
                    vectors.take(k as int),
                    rid as int,
                ).push(newm));
                assert(self.embeddings@ == eprev.push(rowg));
                lemma_embs_model_push(eprev, rowg);
                assert(embs_model_of(self.embeddings@) == (base_embs + new_embs(
                    vectors.take(k as int),
                    rid as int,
                )).push(newm));
                assert((base_embs + new_embs(vectors.take(k as int), rid as int)).push(newm)
                    =~= base_embs + new_embs(vectors.take(k as int), rid as int).push(newm));
            }
            k = k + 1;
        }
        self.next_document_row_id = rid + 1;
        proof {
            let pre = *old(self);
            let post = *self;
            assert(vectors.take(vectors.len() as int) =~= vectors);
            assert(post.docs_model() =~= base_docs.push(
                DocM { row_id: rid as int, doc_id: de.document.id@, content: de.document.content@ },
            ));
            if has_document_with_doc_id(t0.docs, de.document.id@) {
                let j = choose|j: int|
                    0 <= j < t0.docs.len() && (#[trigger] t0.docs[j]).doc_id == de.document.id@;
                assert(base_docs =~= t0.docs.remove(j));
            } else {
                assert(base_docs =~= t0.docs);
            }
            assert(post.doc_tables() == upsert_document_model(
                t0,
                de.document.id@,
                de.document.content@,
                vectors,
            ));
            assert forall|kk: int| 0 <= kk < vectors.len() implies (#[trigger] vectors[kk]).len()
                == pre.dim by {
                assert(vectors[kk] == de.embeddings@[kk]@);
            };
            Self::lemma_documents_ok_after_upsert(
                &pre,
                &post,
                de.document.id@,
                de.document.content@,
                vectors,
            );
            Self::lemma_accounts_ok_transfer(&pre, &post);
            Self::lemma_channels_ok_transfer(&pre, &post);
            Self::lemma_conversations_ok_transfer(&pre, &post);
            Self::lemma_messages_ok_transfer(&pre, &post);
            assert(post.wf());
        }
    }
}

impl SqliteStore {
    /// Ingest a batch of documents, each with its embedding vectors: for each
    /// one, write the relational row and its embedding rows together.  A
    /// vector of the wrong width refuses the whole batch and nothing at all
    /// is written — the add is atomic across both tables.
    pub fn add_documents(&mut self, documents: &Vec<DocumentEmbeddings>) -> (r: Result<
        (),
        SqliteError,
    >)
        requires
            old(self).wf(),
            old(self).next_document_row_id + documents@.len() <= i64::MAX,
        ensures
            final(self).wf(),
            Self::accounts_part_eq(old(self), final(self)),
            Self::channels_part_eq(old(self), final(self)),
            Self::conversations_part_eq(old(self), final(self)),
            Self::messages_part_eq(old(self), final(self)),
            final(self).dim == old(self).dim,
            match r {
                Ok(_) => all_dims_ok(items_model(documents@), old(self).dim as int)
                    && final(self).doc_tables() == apply_documents(
                    old(self).doc_tables(),
                    items_model(documents@),
                ),
                Err(e) => {
                    &&& e == SqliteError::DatabaseError(DbFault::DimensionMismatch)
                    &&& !all_dims_ok(items_model(documents@), old(self).dim as int)
                    &&& Self::documents_part_eq(old(self), final(self))
                },
            },
    {
        let ghost items = items_model(documents@);
        let mut i: usize = 0;
        while i < documents.len()
            invariant
                *self == *old(self),
                old(self).wf(),
                items == items_model(documents@),
                i <= documents@.len(),
                forall|a: int, b: int|
                    #![trigger items[a].2[b]]
                    0 <= a < i && 0 <= b < items[a].2.len() ==> items[a].2[b].len()
                        == self.dim as int,
            decreases documents@.len() - i,
        {
            let de = &documents[i];
            let mut k: usize = 0;
            while k < de.embeddings.len()
                invariant
                    *self == *old(self),
                    old(self).wf(),
                    items == items_model(documents@),
                    i < documents@.len(),
                    de == documents@[i as int],
                    k <= de.embeddings@.len(),
                    forall|b: int|
                        0 <= b < k ==> (#[trigger] de.embeddings@[b])@.len() == self.dim as int,
                decreases de.embeddings@.len() - k,
            {
                if de.embeddings[k].len() != self.dim {
                    proof {
                        assert(items[i as int] == documents@[i as int].model());
                        assert(items[i as int].2[k as int] == de.embeddings@[k as int]@);
                        assert(!all_dims_ok(items, self.dim as int));
                    }
                    return Err(SqliteError::DatabaseError(DbFault::DimensionMismatch));
                }
                k = k + 1;
            }
            proof {
                assert forall|b: int| 0 <= b < items[i as int].2.len() implies items[i as int].2[b].len()
                    == self.dim as int by {
                    assert(items[i as int] == documents@[i as int].model());
                    assert(items[i as int].2[b] == de.embeddings@[b]@);
                };
            }
            i = i + 1;
        }
        proof {
            assert(all_dims_ok(items, self.dim as int)) by {
                assert forall|a: int, b: int|
                    #![trigger items[a].2[b]]
                    0 <= a < items.len() && 0 <= b < items[a].2.len() implies items[a].2[b].len()
                    == self.dim as int by {};
            };
        }
        let mut i: usize = 0;
        while i < documents.len()
            invariant
                i <= documents@.len(),
                items == items_model(documents@),
                all_dims_ok(items, old(self).dim as int),
                self.wf(),
                self.dim == old(self).dim,
                self.next_document_row_id == old(self).next_document_row_id + i,
                old(self).next_document_row_id + documents@.len() <= i64::MAX,
                Self::accounts_part_eq(old(self), self),
                Self::channels_part_eq(old(self), self),
                Self::conversations_part_eq(old(self), self),
                Self::messages_part_eq(old(self), self),
                self.doc_tables() == apply_documents(old(self).doc_tables(), items.take(i as int)),
            decreases documents@.len() - i,
        {
            let de = &documents[i];
            proof {
                assert(items[i as int] == documents@[i as int].model());
                assert forall|b: int| 0 <= b < de.embeddings@.len() implies (
                #[trigger] de.embeddings@[b])@.len() == self.dim by {
                    assert(items[i as int].2[b] == de.embeddings@[b]@);
                };
            }
            self.upsert_document(de);
            proof {
                assert(items.take(i + 1).drop_last() =~= items.take(i as int));
                assert(items.take(i + 1).last() == items[i as int]);
                assert(items[i as int].2 == vecs_of(de.embeddings@));
            }
            i = i + 1;
        }
        proof {
            assert(items.take(items.len() as int) =~= items);
        }
        Ok(())
    }

    /// The stored content of the document with this identifier, if any.
    pub fn get_document(&self, id: &String) -> (r: Option<String>)
        ensures
            match r {
                Some(c) => exists|j: int|
                    0 <= j < self.docs_model().len() && (#[trigger] self.docs_model()[j]).doc_id
                        == id@ && self.docs_model()[j].content == c@,
                None => !has_document_with_doc_id(self.docs_model(), id@),
            },
    {
        match self.find_document_by_doc_id(id) {
            Some(i) => {
                let c = self.documents[i].content.clone();
                proof {
                    assert(self.docs_model()[i as int] == self.documents@[i as int].model());
                }
                Some(c)
            },
            None => None,
        }
    }

    /// The identifier and content of the document row with this row id, if
    /// any.
    pub fn get_document_row(&self, row_id: i64) -> (r: Option<(String, String)>)
        ensures
            match r {
                Some(p) => exists|j: int|
                    0 <= j < self.docs_model().len() && (#[trigger] self.docs_model()[j]).row_id
                        == row_id as int && p.0@ == self.docs_model()[j].doc_id && p.1@
                        == self.docs_model()[j].content,
                None => !has_document_with_row_id(self.docs_model(), row_id as int),
            },
    {
        match self.find_document_by_row_id(row_id) {
            Some(i) => {
                proof {
                    assert(self.docs_model()[i as int] == self.documents@[i as int].model());
                }
                Some((self.documents[i].doc_id.clone(), self.documents[i].content.clone()))
            },
            None => None,
        }
    }

    /// The decoded embedding vectors of the document with this identifier,
    /// in insertion order, if the document exists.
    pub fn get_document_embeddings(&self, id: &String) -> (r: Option<Vec<Vec<u32>>>)
        requires
            self.wf(),
        ensures
            match r {
                Some(v) => has_document_with_doc_id(self.docs_model(), id@) && forall|j: int|
                    0 <= j < self.docs_model().len() && (#[trigger] self.docs_model()[j]).doc_id
                        == id@ ==> vecs_of(v@) == doc_embeddings_model(
                        self.embs_model(),
                        self.docs_model()[j].row_id,
                    ),
                None => !has_document_with_doc_id(self.docs_model(), id@),
            },
    {
        let found = match self.find_document_by_doc_id(id) {
            Some(i) => i,
            None => {
                return None;
            },
        };
        let rid = self.documents[found].row_id;
        proof {
            assert(self.docs_model()[found as int] == self.documents@[found as int].model());
        }
        let mut out: Vec<Vec<u32>> = Vec::new();
        let mut i: usize = 0;
        while i < self.embeddings.len()
            invariant
                self.wf(),
                found < self.documents@.len(),
                rid == self.documents@[found as int].row_id,
                i <= self.embeddings@.len(),
                vecs_of(out@) == doc_embeddings_model(self.embs_model().take(i as int), rid as int),
            decreases self.embeddings@.len() - i,
        {
            proof {
                assert(self.embs_model().take(i + 1).drop_last() =~= self.embs_model().take(
                    i as int,
                ));
                assert(self.embs_model().take(i + 1).last() == self.embs_model()[i as int]);
                assert(self.embs_model()[i as int] == self.embeddings@[i as int].model());
                reveal(Seq::filter);
            }
            if self.embeddings[i].row_id == rid {
                proof {
                    assert(self.embs_model()[i as int].blob.len() == 4 * (self.dim as int));
                }
                match crate::codec::decode(&self.embeddings[i].blob) {
                    Ok(v) => {
                        let ghost vprev = out@;
                        let ghost vnew = v;
                        out.push(v);
                        proof {
                            let m = self.embs_model();
                            let fpre = embs_of_row(m.take(i as int), rid as int);
                            let fpost = embs_of_row(m.take(i + 1), rid as int);
                            assert(fpost == fpre.push(m[i as int]));
                            lemma_decoded_blobs_push(fpre, m[i as int]);
                            lemma_vecs_of_push(vprev, vnew);
                            assert(vecs_of(out@) == doc_embeddings_model(
                                m.take(i + 1),
                                rid as int,
                            ));
                        }
                    },
                    Err(_) => {
                        proof {
                            assert(false);
                        }
                    },
                }
            }
            i = i + 1;
        }
        proof {
            assert(self.embs_model().take(self.embs_model().len() as int) =~= self.embs_model());
            assert forall|j: int|
                0 <= j < self.docs_model().len() && (#[trigger] self.docs_model()[j]).doc_id == id@
                    implies vecs_of(out@) == doc_embeddings_model(
                self.embs_model(),
                self.docs_model()[j].row_id,
            ) by {
                assert(self.docs_model()[found as int].doc_id == id@);
                assert(j == found as int);
            };
        }
        Some(out)
    }

    /// The nearest stored embedding under the collaborator's distances,
    /// joined back to its owning document: the single-result form of the
    /// nearest-neighbour query.  `scores[i]` is the collaborator's distance
    /// for embedding row `i`, mapped onto the unsigned order.
    pub fn get_document_by_query(&self, scores: &Vec<u64>) -> (r: Option<(u64, String)>)
        requires
            self.wf(),
            scores@.len() == self.embeddings@.len(),
        ensures
            match r {
                Some(hit) => exists|sel: Seq<usize>|
                    #![all_triggers]
                    is_ranking(scores@, 1, sel) && sel.len() == 1 && hit.0 == scores@[sel[0] as int]
                        && exists|j: int|
                        0 <= j < self.docs_model().len() && (#[trigger] self.docs_model()[j]).row_id
                            == self.embs_model()[sel[0] as int].row_id && hit.1@
                            == self.docs_model()[j].doc_id,
                None => self.embeddings@.len() == 0,
            },
    {
        let sel = rank_ascending(scores, 1);
        if sel.len() == 0 {
            return None;
        }
        let hit_row = sel[0];
        let rid = self.embeddings[hit_row].row_id;
        proof {
            assert(self.embs_model()[hit_row as int] == self.embeddings@[hit_row as int].model());
            assert(has_document_with_row_id(self.docs_model(), rid as int));
        }
        match self.find_document_by_row_id(rid) {
            Some(j) => {
                let doc_id = self.documents[j].doc_id.clone();
                proof {
                    assert(self.docs_model()[j as int] == self.documents@[j as int].model());
                }
                Some((scores[hit_row], doc_id))
            },
            None => {
                proof {
                    assert(false);
                }
                None
            },
        }
    }
}

/// Upserting under one display name is idempotent: once a first upsert has
/// succeeded, a second upsert with the same name, source and external
/// identifier — at any later or other timestamp — returns the same row id,
/// adds no row, changes no next id, and moves nothing but `updated_at`.
pub proof fn lemma_upsert_account_idempotent(
    rows0: Seq<Account>,
    next0: i64,
    rows1: Seq<Account>,
    next1: i64,
    r1: Result<i64, SqliteError>,
    rows2: Seq<Account>,
    next2: i64,
    r2: Result<i64, SqliteError>,
    name: String,
    source: String,
    source_id: String,
    now1: i64,
    now2: i64,
)
    requires
        forall|i: int, j: int| 0 <= i < j < rows0.len() ==> rows0[i].name@ != rows0[j].name@,
        upsert_account_post(rows0, next0, rows1, next1, r1, name, source, source_id, now1),
        r1 is Ok,
        upsert_account_post(rows1, next1, rows2, next2, r2, name, source, source_id, now2),
    ensures
        r2 == r1,
        rows2.len() == rows1.len(),
        next2 == next1,
        forall|j: int|
            0 <= j < rows1.len() ==> (#[trigger] rows2[j]).id == rows1[j].id && rows2[j].name
                == rows1[j].name && rows2[j].source == rows1[j].source && rows2[j].source_id
                == rows1[j].source_id && rows2[j].created_at == rows1[j].created_at,
{
    if has_account_named(rows0, name@) {
        let j0 = choose|j: int| 0 <= j < rows0.len() && (#[trigger] rows0[j]).name@ == name@;
        assert(r1 == Ok::<i64, SqliteError>(rows0[j0].id) && rows1 == rows0.update(
            j0,
            touch_account(rows0[j0], now1),
        ));
        assert(rows1[j0] == touch_account(rows0[j0], now1));
        assert(has_account_named(rows1, name@));
        assert forall|j: int|
            0 <= j < rows1.len() && (#[trigger] rows1[j]).name@ == name@ implies j == j0 by {
            if j != j0 {
                assert(rows1[j] == rows0[j]);
            }
        };
        assert(r2 == Ok::<i64, SqliteError>(rows1[j0].id) && rows2 == rows1.update(
            j0,
            touch_account(rows1[j0], now2),
        ));
        assert forall|j: int|
            0 <= j < rows1.len() implies (#[trigger] rows2[j]).id == rows1[j].id && rows2[j].name
            == rows1[j].name && rows2[j].source == rows1[j].source && rows2[j].source_id
            == rows1[j].source_id && rows2[j].created_at == rows1[j].created_at by {
            if j != j0 {
                assert(rows2[j] == rows1[j]);
            } else {
                assert(rows2[j] == touch_account(rows1[j0], now2));
            }
        };
    } else {
        assert(!has_account_with_pair(rows0, source@, source_id@));
        let newrow = Account { id: next0, name, source, source_id, created_at: now1, updated_at: now1 };
        assert(r1 == Ok::<i64, SqliteError>(next0) && rows1 == rows0.push(newrow));
        let j0 = rows0.len() as int;
        assert(rows1[j0] == newrow);
        assert(has_account_named(rows1, name@));
        assert forall|j: int|
            0 <= j < rows1.len() && (#[trigger] rows1[j]).name@ == name@ implies j == j0 by {
            if j != j0 {
                assert(rows1[j] == rows0[j]);
                assert(!(rows0[j].name@ == name@));
            }
        };
        assert(r2 == Ok::<i64, SqliteError>(rows1[j0].id) && rows2 == rows1.update(
            j0,
            touch_account(rows1[j0], now2),
        ));
        assert forall|j: int|
            0 <= j < rows1.len() implies (#[trigger] rows2[j]).id == rows1[j].id && rows2[j].name
            == rows1[j].name && rows2[j].source == rows1[j].source && rows2[j].source_id
            == rows1[j].source_id && rows2[j].created_at == rows1[j].created_at by {
            if j != j0 {
                assert(rows2[j] == rows1[j]);
            } else {
                assert(rows2[j] == touch_account(rows1[j0], now2));
            }
        };
    }
}

} // verus!
