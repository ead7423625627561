//! The knowledge base: the orchestrator that owns the relational store and
//! the paired vector tables, drives the embed → encode → dual-write add, and
//! answers semantic queries by ranking the collaborator's distances and
//! joining the hits back to their owning records.  Embedding a text and
//! measuring distances belong to the outside provider and search engine; the
//! caller embeds before an add, so the write step itself is short and
//! all-or-nothing.

use vstd::prelude::*;

use crate::codec::encode;
use crate::ranking::{is_ranking, rank_ascending};
use crate::records::{Account, Channel, DbFault, Message, SqliteError};
use crate::store::{
    all_dims_ok, apply_documents, embs_model_of, has_account_with_id, has_channel_with_id,
    has_message_with_id, items_model, new_embs, select_rows, upsert_account_post,
    upsert_channel_post, vecs_of, DocumentEmbeddings, EmbeddingRow, SqliteStore,
};
use crate::time_fmt::TS_MAX;

verus! {

/// The paired role and content of each message, in order.
pub open spec fn pairs_of(msgs: Seq<Message>) -> Seq<(String, String)> {
    msgs.map_values(|m: Message| (m.role, m.content))
}

/// One store over document and message content: the relational record store
/// with its document vector table, and the message vector table beside it.
pub struct KnowledgeBase {
    pub store: SqliteStore,
    pub message_vectors: Vec<EmbeddingRow>,
}

/// The nearest-neighbour view over one store's document vector table.
pub struct SqliteVectorIndex {
    pub store: SqliteStore,
}

/// The nearest-neighbour view over one knowledge base's message vector table.
pub struct MessageVectorIndex {
    pub kb: KnowledgeBase,
}

impl KnowledgeBase {
    /// Every message vector row names a live message and has the store's
    /// fixed width.
    pub open spec fn vectors_ok(&self) -> bool {
        forall|i: int|
            0 <= i < self.message_vectors@.len() ==> {
                let e = (#[trigger] self.message_vectors@[i]).model();
                has_message_with_id(self.store.messages@, e.row_id as i64)
                    && 0 <= e.row_id <= i64::MAX && e.blob.len() == 4 * (self.store.dim as int)
            }
    }

    pub open spec fn wf(&self) -> bool {
        self.store.wf() && self.vectors_ok()
    }

    /// The message vector table keeps naming live messages when the message
    /// table only grows.
    proof fn lemma_vectors_ok_transfer(pre: &KnowledgeBase, post: &KnowledgeBase)
        requires
            pre.vectors_ok(),
            post.message_vectors@ == pre.message_vectors@,
            post.store.dim == pre.store.dim,
            forall|x: i64|
                has_message_with_id(pre.store.messages@, x) ==> has_message_with_id(
                    post.store.messages@,
                    x,
                ),
        ensures
            post.vectors_ok(),
    {
        assert forall|i: int| 0 <= i < post.message_vectors@.len() implies {
            let e = (#[trigger] post.message_vectors@[i]).model();
            has_message_with_id(post.store.messages@, e.row_id as i64) && 0 <= e.row_id
                <= i64::MAX && e.blob.len() == 4 * (post.store.dim as int)
        } by {
            assert(pre.message_vectors@[i] == post.message_vectors@[i]);
            let e = pre.message_vectors@[i].model();
            assert(has_message_with_id(pre.store.messages@, e.row_id as i64));
        };
    }

    /// An empty knowledge base over embedding dimension `dim`.
    pub fn new(dim: usize) -> (r: KnowledgeBase)
        ensures
            r.wf(),
            r.store.accounts@.len() == 0,
            r.store.channels@.len() == 0,
            r.store.messages@.len() == 0,
            r.store.docs_model().len() == 0,
            r.store.embs_model().len() == 0,
            r.message_vectors@.len() == 0,
            r.store.dim == dim,
    {
        KnowledgeBase { store: SqliteStore::new(dim), message_vectors: Vec::new() }
    }

    /// Insert a participant or touch the one already known under this name.
    pub fn create_user(&mut self, name: String, source: String, source_id: String, now: i64) -> (r:
        Result<i64, SqliteError>)
        requires
            old(self).wf(),
            old(self).store.next_account_id < i64::MAX,
            0 <= now < TS_MAX,
        ensures
            final(self).wf(),
            upsert_account_post(
                old(self).store.accounts@,
                old(self).store.next_account_id,
                final(self).store.accounts@,
                final(self).store.next_account_id,
                r,
                name,
                source,
                source_id,
                now,
            ),
            SqliteStore::channels_part_eq(&old(self).store, &final(self).store),
            SqliteStore::conversations_part_eq(&old(self).store, &final(self).store),
            SqliteStore::messages_part_eq(&old(self).store, &final(self).store),
            SqliteStore::documents_part_eq(&old(self).store, &final(self).store),
            final(self).message_vectors@ == old(self).message_vectors@,
    {
        let r = self.store.create_user(name, source, source_id, now);
        proof {
            Self::lemma_vectors_ok_transfer(old(self), self);
        }
        r
    }

    /// The first participant recorded for a platform tag, if any.
    pub fn get_user_by_source(&self, source: String) -> (r: Option<Account>)
        ensures
            match r {
                Some(a) => exists|i: int|
                    0 <= i < self.store.accounts@.len() && (#[trigger] self.store.accounts@[i])
                        == a && a.source@ == source@ && (forall|j: int|
                        0 <= j < i ==> (#[trigger] self.store.accounts@[j]).source@ != source@),
                None => forall|i: int|
                    0 <= i < self.store.accounts@.len() ==> (
                    #[trigger] self.store.accounts@[i]).source@ != source@,
            },
    {
        self.store.get_user_by_source(source)
    }

    /// Insert a channel or touch the one already known under this external
    /// identifier.
    pub fn create_channel(
        &mut self,
        channel_id: String,
        channel_type: String,
        name: Option<String>,
        now: i64,
    ) -> (r: Result<i64, SqliteError>)
        requires
            old(self).wf(),
            old(self).store.next_channel_id < i64::MAX,
            0 <= now < TS_MAX,
        ensures
            final(self).wf(),
            upsert_channel_post(
                old(self).store.channels@,
                old(self).store.next_channel_id,
                final(self).store.channels@,
                final(self).store.next_channel_id,
                r,
                channel_id,
                channel_type,
                name,
                now,
            ),
            SqliteStore::accounts_part_eq(&old(self).store, &final(self).store),
            SqliteStore::conversations_part_eq(&old(self).store, &final(self).store),
            SqliteStore::messages_part_eq(&old(self).store, &final(self).store),
            SqliteStore::documents_part_eq(&old(self).store, &final(self).store),
            final(self).message_vectors@ == old(self).message_vectors@,
    {
        let r = self.store.create_channel(channel_id, channel_type, name, now);
        proof {
            Self::lemma_vectors_ok_transfer(old(self), self);
        }
        r
    }

    /// The channel with this row id, if any.
    pub fn get_channel(&self, id: i64) -> (r: Option<Channel>)
        ensures
            match r {
                Some(c) => c.id == id && exists|i: int|
                    0 <= i < self.store.channels@.len() && (#[trigger] self.store.channels@[i])
                        == c,
                None => !has_channel_with_id(self.store.channels@, id),
            },
    {
        self.store.get_channel(id)
    }

    /// Every channel tagged with this platform, in insertion order.
    pub fn get_channels_by_source(&self, source: String) -> (r: Vec<Channel>)
        ensures
            r@ == self.store.channels@.filter(|c: Channel| c.channel_type@ == source@),
    {
        self.store.get_channels_by_source(source)
    }

    /// Append a message together with the embedding rows derived from its
    /// content: the dual write.  The vectors were produced by the provider
    /// before this call; a failed write leaves both tables untouched.
    pub fn create_message(&mut self, msg: &Message, embeddings: &Vec<Vec<u32>>, now: i64) -> (r:
        Result<i64, SqliteError>)
        requires
            old(self).wf(),
            old(self).store.next_message_id < i64::MAX,
            0 <= now < TS_MAX,
        ensures
            final(self).wf(),
            SqliteStore::accounts_part_eq(&old(self).store, &final(self).store),
            SqliteStore::channels_part_eq(&old(self).store, &final(self).store),
            SqliteStore::conversations_part_eq(&old(self).store, &final(self).store),
            SqliteStore::documents_part_eq(&old(self).store, &final(self).store),
            r is Err ==> SqliteStore::messages_part_eq(&old(self).store, &final(self).store)
                && final(self).message_vectors@ == old(self).message_vectors@,
            if !(forall|k: int|
                0 <= k < embeddings@.len() ==> (#[trigger] embeddings@[k])@.len() == old(
                    self,
                ).store.dim) {
                r == Err::<i64, SqliteError>(
                    SqliteError::DatabaseError(DbFault::DimensionMismatch),
                )
            } else if !(has_channel_with_id(old(self).store.channels@, msg.channel_id)
                && has_account_with_id(old(self).store.accounts@, msg.account_id)) {
                r == Err::<i64, SqliteError>(
                    SqliteError::DatabaseError(DbFault::ConstraintViolation),
                )
            } else {
                &&& r == Ok::<i64, SqliteError>(old(self).store.next_message_id)
                &&& final(self).store.messages@ == old(self).store.messages@.push(
                    Message {
                        id: old(self).store.next_message_id,
                        channel_id: msg.channel_id,
                        account_id: msg.account_id,
                        role: msg.role,
                        content: msg.content,
                        reply_to_id: msg.reply_to_id,
                        created_at: now,
                    },
                )
                &&& final(self).store.next_message_id == old(self).store.next_message_id + 1
                &&& embs_model_of(final(self).message_vectors@) == embs_model_of(
                    old(self).message_vectors@,
                ) + new_embs(vecs_of(embeddings@), old(self).store.next_message_id as int)
            },
    {
        let mut k: usize = 0;
        while k < embeddings.len()
            invariant
                *self == *old(self),
                old(self).wf(),
                k <= embeddings@.len(),
                forall|b: int|
                    0 <= b < k ==> (#[trigger] embeddings@[b])@.len() == self.store.dim,
            decreases embeddings@.len() - k,
        {
            if embeddings[k].len() != self.store.dim {
                return Err(SqliteError::DatabaseError(DbFault::DimensionMismatch));
            }
            k = k + 1;
        }
        let id = match self.store.create_message(
            msg.channel_id,
            msg.account_id,
            msg.reply_to_id,
            msg.role.clone(),
            msg.content.clone(),
            now,
        ) {
            Ok(id) => id,
            Err(e) => {
                proof {
                    Self::lemma_vectors_ok_transfer(old(self), self);
                }
                return Err(e);
            },
        };
        let ghost mid_kb = *self;
        let ghost base = embs_model_of(old(self).message_vectors@);
        let ghost vectors = vecs_of(embeddings@);
        let ghost m_new = Message {
            id,
            channel_id: msg.channel_id,
            account_id: msg.account_id,
            role: msg.role,
            content: msg.content,
            reply_to_id: msg.reply_to_id,
            created_at: now,
        };
        proof {
            assert(mid_kb.store.messages@ == old(self).store.messages@.push(m_new));
            assert(old(self).store.messages@.push(m_new)[old(self).store.messages@.len() as int]
                == m_new);
            assert(has_message_with_id(mid_kb.store.messages@, id));
            assert forall|x: i64|
                has_message_with_id(old(self).store.messages@, x) implies has_message_with_id(
                mid_kb.store.messages@,
                x,
            ) by {
                let w = choose|w: int|
                    0 <= w < old(self).store.messages@.len() && (#[trigger] old(
                        self,
                    ).store.messages@[w]).id == x;
                assert(old(self).store.messages@.push(m_new)[w] == old(self).store.messages@[w]);
            };
            Self::lemma_vectors_ok_transfer(old(self), self);
        }
        let mut k: usize = 0;
        while k < embeddings.len()
            invariant
                k <= embeddings@.len(),
                vectors == vecs_of(embeddings@),
                self.store == mid_kb.store,
                mid_kb.store.wf(),
                mid_kb.store.dim == old(self).store.dim,
                id == old(self).store.next_message_id,
                has_message_with_id(mid_kb.store.messages@, id),
                mid_kb.vectors_ok(),
                mid_kb.message_vectors@ == old(self).message_vectors@,
                forall|b: int|
                    0 <= b < embeddings@.len() ==> (#[trigger] embeddings@[b])@.len()
                        == mid_kb.store.dim,
                embs_model_of(self.message_vectors@) == base + new_embs(
                    vectors.take(k as int),
                    id as int,
                ),
            decreases embeddings@.len() - k,
        {
            let blob = encode(&embeddings[k]);
            let row = EmbeddingRow { row_id: id, blob };
            let ghost rowg = row;
            let ghost eprev = self.message_vectors@;
            self.message_vectors.push(row);
            proof {
                assert(vectors[k as int] == embeddings@[k as int]@);
                let newm = crate::store::EmbM {
                    row_id: id as int,
                    blob: crate::codec::encoded(vectors[k as int]),
                };
                assert(rowg.model() == newm);
                assert(new_embs(vectors.take(k + 1), id as int) =~= new_embs(
                    vectors.take(k as int),
                    id as int,
                ).push(newm));
                assert(self.message_vectors@ == eprev.push(rowg));
                crate::store::lemma_embs_model_push(eprev, rowg);
                assert((base + new_embs(vectors.take(k as int), id as int)).push(newm)
                    =~= base + new_embs(vectors.take(k as int), id as int).push(newm));
            }
            k = k + 1;
        }
        proof {
            assert(vectors.take(vectors.len() as int) =~= vectors);
            let post = *self;
            let m = embs_model_of(post.message_vectors@);
            assert(m == base + new_embs(vectors, id as int));
            assert forall|i: int| 0 <= i < post.message_vectors@.len() implies {
                let e = (#[trigger] post.message_vectors@[i]).model();
                has_message_with_id(post.store.messages@, e.row_id as i64) && 0 <= e.row_id
                    <= i64::MAX && e.blob.len() == 4 * (post.store.dim as int)
            } by {
                assert(m[i] == post.message_vectors@[i].model());
                assert(m[i] == (base + new_embs(vectors, id as int))[i]);
                if i < base.len() {
                    assert((base + new_embs(vectors, id as int))[i] == base[i]);
                    assert(base[i] == old(self).message_vectors@[i].model());
                    let e = old(self).message_vectors@[i].model();
                    assert(has_message_with_id(old(self).store.messages@, e.row_id as i64));
                    let w = choose|w: int|
                        0 <= w < old(self).store.messages@.len() && (#[trigger] old(
                            self,
                        ).store.messages@[w]).id == e.row_id as i64;
                    assert(old(self).store.messages@.push(m_new)[w] == old(
                        self,
                    ).store.messages@[w]);
                    assert(post.store.messages@[w].id == e.row_id as i64);
                } else {
                    assert((base + new_embs(vectors, id as int))[i] == new_embs(
                        vectors,
                        id as int,
                    )[i - base.len()]);
                    crate::codec::lemma_encoded_len(vectors[i - base.len()]);
                    assert(vectors[i - base.len()] == embeddings@[i - base.len()]@);
                    assert(has_message_with_id(mid_kb.store.messages@, id));
                }
            };
        }
        Ok(id)
    }

    /// The message with this row id, if any.
    pub fn get_message(&self, id: i64) -> (r: Option<Message>)
        ensures
            match r {
                Some(m) => m.id == id && exists|i: int|
                    0 <= i < self.store.messages@.len() && (#[trigger] self.store.messages@[i])
                        == m,
                None => !has_message_with_id(self.store.messages@, id),
            },
    {
        self.store.get_message(id)
    }

    /// Up to `limit` messages of the channel, newest first.
    pub fn get_recent_messages(&self, channel_id: i64, limit: usize) -> (r: Vec<Message>)
        requires
            self.wf(),
        ensures
            exists|sel: Seq<usize>|
                #![all_triggers]
                is_ranking(
                    crate::store::created_desc_keys(
                        crate::store::messages_in_channel(self.store.messages@, channel_id),
                    ),
                    limit as int,
                    sel,
                ) && r@ == select_rows(
                    crate::store::messages_in_channel(self.store.messages@, channel_id),
                    sel,
                ),
    {
        self.store.get_recent_messages(channel_id, limit)
    }

    /// Up to `limit` messages of a conversation between two accounts since a
    /// cutoff, oldest first.
    pub fn get_conversation_between_users(
        &self,
        user_id: i64,
        other_user_id: i64,
        since: i64,
        limit: usize,
    ) -> (r: Vec<Message>)
        requires
            self.wf(),
        ensures
            exists|sel: Seq<usize>|
                #![all_triggers]
                is_ranking(
                    crate::store::created_asc_keys(
                        crate::store::messages_between(
                            self.store.messages@,
                            user_id,
                            other_user_id,
                            since,
                        ),
                    ),
                    limit as int,
                    sel,
                ) && r@ == select_rows(
                    crate::store::messages_between(
                        self.store.messages@,
                        user_id,
                        other_user_id,
                        since,
                    ),
                    sel,
                ),
    {
        self.store.get_conversation_between_users(user_id, other_user_id, since, limit)
    }

    /// The role and content of up to `limit` messages of the channel, newest
    /// first.
    pub fn channel_messages(&self, channel_id: i64, limit: usize) -> (r: Vec<(String, String)>)
        requires
            self.wf(),
        ensures
            exists|sel: Seq<usize>|
                #![all_triggers]
                is_ranking(
                    crate::store::created_desc_keys(
                        crate::store::messages_in_channel(self.store.messages@, channel_id),
                    ),
                    limit as int,
                    sel,
                ) && r@ == pairs_of(
                    select_rows(
                        crate::store::messages_in_channel(self.store.messages@, channel_id),
                        sel,
                    ),
                ),
    {
        let msgs = self.store.get_recent_messages(channel_id, limit);
        let mut r: Vec<(String, String)> = Vec::new();
        let mut i: usize = 0;
        while i < msgs.len()
            invariant
                i <= msgs@.len(),
                r@.len() == i,
                forall|j: int| 0 <= j < i ==> r@[j] == (msgs@[j].role, msgs@[j].content),
            decreases msgs@.len() - i,
        {
            r.push((msgs[i].role.clone(), msgs[i].content.clone()));
            i = i + 1;
        }
        proof {
            let pool = crate::store::messages_in_channel(self.store.messages@, channel_id);
            let keys = crate::store::created_desc_keys(pool);
            let sel = choose|sel: Seq<usize>|
                #![all_triggers]
                is_ranking(keys, limit as int, sel) && msgs@ == select_rows(pool, sel);
            assert(r@ =~= pairs_of(select_rows(pool, sel)));
        }
        r
    }

    /// Ingest documents with their embedding vectors: the dual write over
    /// the document tables.
    pub fn add_documents(&mut self, documents: &Vec<DocumentEmbeddings>) -> (r: Result<
        (),
        SqliteError,
    >)
        requires
            old(self).wf(),
            old(self).store.next_document_row_id + documents@.len() <= i64::MAX,
        ensures
            final(self).wf(),
            SqliteStore::accounts_part_eq(&old(self).store, &final(self).store),
            SqliteStore::channels_part_eq(&old(self).store, &final(self).store),
            SqliteStore::conversations_part_eq(&old(self).store, &final(self).store),
            SqliteStore::messages_part_eq(&old(self).store, &final(self).store),
            final(self).message_vectors@ == old(self).message_vectors@,
            match r {
                Ok(_) => all_dims_ok(items_model(documents@), old(self).store.dim as int)
                    && final(self).store.doc_tables() == apply_documents(
                    old(self).store.doc_tables(),
                    items_model(documents@),
                ),
                Err(e) => {
                    &&& e == SqliteError::DatabaseError(DbFault::DimensionMismatch)
                    &&& !all_dims_ok(items_model(documents@), old(self).store.dim as int)
                    &&& SqliteStore::documents_part_eq(&old(self).store, &final(self).store)
                },
            },
    {
        let r = self.store.add_documents(documents);
        proof {
            Self::lemma_vectors_ok_transfer(old(self), self);
        }
        r
    }

    /// The nearest messages under the collaborator's distances: up to `k`
    /// hits, ascending, each joined back to its message.  `scores[i]` is the
    /// distance for message vector row `i`, mapped onto the unsigned order.
    pub fn search_messages(&self, scores: &Vec<u64>, k: usize) -> (r: Vec<(u64, Message)>)
        requires
            self.wf(),
            scores@.len() == self.message_vectors@.len(),
        ensures
            exists|sel: Seq<usize>|
                #![all_triggers]
                is_ranking(scores@, k as int, sel) && r@.len() == sel.len() && (forall|t: int|
                    0 <= t < sel.len() ==> (#[trigger] r@[t]).0 == scores@[sel[t] as int]
                        && r@[t].1.id as int == embs_model_of(
                        self.message_vectors@,
                    )[sel[t] as int].row_id && has_message_with_id(
                        self.store.messages@,
                        r@[t].1.id,
                    )),
    {
        let sel = rank_ascending(scores, k);
        let mut r: Vec<(u64, Message)> = Vec::new();
        let mut t: usize = 0;
        while t < sel.len()
            invariant
                self.wf(),
                scores@.len() == self.message_vectors@.len(),
                is_ranking(scores@, k as int, sel@),
                t <= sel@.len(),
                r@.len() == t,
                forall|j: int|
                    0 <= j < t ==> (#[trigger] r@[j]).0 == scores@[sel@[j] as int] && r@[j].1.id
                        as int == embs_model_of(self.message_vectors@)[sel@[j] as int].row_id
                        && has_message_with_id(self.store.messages@, r@[j].1.id),
            decreases sel@.len() - t,
        {
            let row = sel[t];
            let rid = self.message_vectors[row].row_id;
            proof {
                assert(embs_model_of(self.message_vectors@)[row as int]
                    == self.message_vectors@[row as int].model());
                assert(has_message_with_id(self.store.messages@, rid));
            }
            match self.store.get_message(rid) {
                Some(m) => {
                    r.push((scores[row], m));
                },
                None => {
                    proof {
                        assert(false);
                    }
                },
            }
            t = t + 1;
        }
        r
    }

    /// Hand the store over as a document index.
    pub fn document_index(self) -> (r: SqliteVectorIndex)
        ensures
            r.store == self.store,
    {
        SqliteVectorIndex::new(self.store)
    }

    /// Hand the whole base over as a message index.
    pub fn message_index(self) -> (r: MessageVectorIndex)
        ensures
            r.kb == self,
    {
        MessageVectorIndex { kb: self }
    }
}

impl MessageVectorIndex {
    /// The `n` nearest messages under the collaborator's distances, each as
    /// (distance, message).
    pub fn top_n(&self, scores: &Vec<u64>, n: usize) -> (r: Vec<(u64, Message)>)
        requires
            self.kb.wf(),
            scores@.len() == self.kb.message_vectors@.len(),
        ensures
            exists|sel: Seq<usize>|
                #![all_triggers]
                is_ranking(scores@, n as int, sel) && r@.len() == sel.len() && (forall|t: int|
                    0 <= t < sel.len() ==> (#[trigger] r@[t]).0 == scores@[sel[t] as int]
                        && r@[t].1.id as int == embs_model_of(
                        self.kb.message_vectors@,
                    )[sel[t] as int].row_id && has_message_with_id(
                        self.kb.store.messages@,
                        r@[t].1.id,
                    )),
    {
        self.kb.search_messages(scores, n)
    }
}

impl SqliteVectorIndex {
    /// Wrap a store as a nearest-neighbour index over its document vectors.
    pub fn new(store: SqliteStore) -> (r: SqliteVectorIndex)
        ensures
            r.store == store,
    {
        SqliteVectorIndex { store }
    }

    /// The `n` nearest documents under the collaborator's distances, each as
    /// (distance, identifier, content).  `scores[i]` is the distance for
    /// embedding row `i`, mapped onto the unsigned order.
    pub fn top_n(&self, scores: &Vec<u64>, n: usize) -> (r: Vec<(u64, String, String)>)
        requires
            self.store.wf(),
            scores@.len() == self.store.embeddings@.len(),
        ensures
            exists|sel: Seq<usize>|
                #![all_triggers]
                is_ranking(scores@, n as int, sel) && r@.len() == sel.len() && (forall|t: int|
                    0 <= t < sel.len() ==> (#[trigger] r@[t]).0 == scores@[sel[t] as int]
                        && exists|j: int|
                        0 <= j < self.store.docs_model().len() && (
                        #[trigger] self.store.docs_model()[j]).row_id == self.store.embs_model()[sel[t] as int].row_id
                            && r@[t].1@ == self.store.docs_model()[j].doc_id && r@[t].2@
                            == self.store.docs_model()[j].content),
    {
        let sel = rank_ascending(scores, n);
        let mut r: Vec<(u64, String, String)> = Vec::new();
        let mut t: usize = 0;
        while t < sel.len()
            invariant
                self.store.wf(),
                scores@.len() == self.store.embeddings@.len(),
                is_ranking(scores@, n as int, sel@),
                t <= sel@.len(),
                r@.len() == t,
                forall|j: int|
                    0 <= j < t ==> (#[trigger] r@[j]).0 == scores@[sel@[j] as int] && (exists|
                        d: int,
                    |
                        0 <= d < self.store.docs_model().len() && (
                        #[trigger] self.store.docs_model()[d]).row_id == self.store.embs_model()[sel@[j] as int].row_id
                            && r@[j].1@ == self.store.docs_model()[d].doc_id && r@[j].2@
                            == self.store.docs_model()[d].content),
            decreases sel@.len() - t,
        {
            let row = sel[t];
            let rid = self.store.embeddings[row].row_id;
            proof {
                assert(self.store.embs_model()[row as int]
                    == self.store.embeddings@[row as int].model());
                assert(crate::store::has_document_with_row_id(
                    self.store.docs_model(),
                    rid as int,
                ));
            }
            match self.store.get_document_row(rid) {
                Some((doc_id, content)) => {
                    r.push((scores[row], doc_id, content));
                },
                None => {
                    proof {
                        assert(false);
                    }
                },
            }
            t = t + 1;
        }
        r
    }

    /// The `n` nearest documents, each as (distance, identifier).
    pub fn top_n_ids(&self, scores: &Vec<u64>, n: usize) -> (r: Vec<(u64, String)>)
        requires
            self.store.wf(),
            scores@.len() == self.store.embeddings@.len(),
        ensures
            exists|sel: Seq<usize>|
                #![all_triggers]
                is_ranking(scores@, n as int, sel) && r@.len() == sel.len() && (forall|t: int|
                    0 <= t < sel.len() ==> (#[trigger] r@[t]).0 == scores@[sel[t] as int]
                        && exists|j: int|
                        0 <= j < self.store.docs_model().len() && (
                        #[trigger] self.store.docs_model()[j]).row_id == self.store.embs_model()[sel[t] as int].row_id
                            && r@[t].1@ == self.store.docs_model()[j].doc_id),
    {
        let hits = self.top_n(scores, n);
        let mut r: Vec<(u64, String)> = Vec::new();
        let mut t: usize = 0;
        while t < hits.len()
            invariant
                t <= hits@.len(),
                r@.len() == t,
                forall|j: int|
                    0 <= j < t ==> (#[trigger] r@[j]).0 == hits@[j].0 && r@[j].1 == hits@[j].1,
            decreases hits@.len() - t,
        {
            let h = &hits[t];
            r.push((h.0, h.1.clone()));
            t = t + 1;
        }
        proof {
            let sel = choose|sel: Seq<usize>|
                #![all_triggers]
                is_ranking(scores@, n as int, sel) && hits@.len() == sel.len() && (forall|t: int|
                    0 <= t < sel.len() ==> (#[trigger] hits@[t]).0 == scores@[sel[t] as int]
                        && exists|j: int|
                        0 <= j < self.store.docs_model().len() && (
                        #[trigger] self.store.docs_model()[j]).row_id == self.store.embs_model()[sel[t] as int].row_id
                            && hits@[t].1@ == self.store.docs_model()[j].doc_id && hits@[t].2@
                            == self.store.docs_model()[j].content);
            assert forall|t: int| 0 <= t < sel.len() implies (#[trigger] r@[t]).0
                == scores@[sel[t] as int] && exists|j: int|
                0 <= j < self.store.docs_model().len() && (
                #[trigger] self.store.docs_model()[j]).row_id == self.store.embs_model()[sel[t] as int].row_id
                    && r@[t].1@ == self.store.docs_model()[j].doc_id by {
                assert(hits@[t].0 == scores@[sel[t] as int]);
                let j = choose|j: int|
                    0 <= j < self.store.docs_model().len() && (
                    #[trigger] self.store.docs_model()[j]).row_id == self.store.embs_model()[sel[t] as int].row_id
                        && hits@[t].1@ == self.store.docs_model()[j].doc_id && hits@[t].2@
                        == self.store.docs_model()[j].content;
                assert(r@[t].1 == hits@[t].1);
            };
        }
        r
    }
}

} // verus!
