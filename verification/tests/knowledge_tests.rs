use asuka_core::codec::decode;
use asuka_core::knowledge::KnowledgeBase;
use asuka_core::records::{DbFault, Document, Message, SqliteError};
use asuka_core::store::DocumentEmbeddings;

const DIM: usize = 3;

fn bits_of(values: &[f64]) -> Vec<u32> {
    values.iter().map(|x| (*x as f32).to_bits()).collect()
}

fn doc(id: &str, content: &str, vector: &[f64]) -> DocumentEmbeddings {
    DocumentEmbeddings {
        document: Document { id: id.to_string(), content: content.to_string() },
        embeddings: vec![bits_of(vector)],
    }
}

/// Squared Euclidean distance between a query and a stored blob, decoded back
/// to doubles, as an order-preserving unsigned key (both are non-negative).
fn dist_bits(query: &[f64], blob: &[u8]) -> u64 {
    let stored: Vec<f64> = decode(&blob.to_vec())
        .unwrap()
        .iter()
        .map(|b| f32::from_bits(*b) as f64)
        .collect();
    let d2: f64 = query
        .iter()
        .zip(stored.iter())
        .map(|(a, b)| (a - b) * (a - b))
        .sum();
    d2.to_bits()
}

fn document_scores(kb: &KnowledgeBase, query: &[f64]) -> Vec<u64> {
    kb.store.embeddings.iter().map(|e| dist_bits(query, &e.blob)).collect()
}

fn msg(channel_id: i64, account_id: i64, content: &str) -> Message {
    Message {
        id: 0,
        channel_id,
        account_id,
        role: "user".to_string(),
        content: content.to_string(),
        reply_to_id: None,
        created_at: 0,
    }
}

#[test]
fn knn_returns_two_closest_in_ascending_order() {
    let mut kb = KnowledgeBase::new(DIM);
    kb.add_documents(&vec![
        doc("mid", "somewhat near", &[0.5, 0.0, 0.0]),
        doc("far", "very far", &[0.9, 0.0, 0.0]),
        doc("near", "very near", &[0.1, 0.0, 0.0]),
    ])
    .unwrap();
    // the query sits at the origin: distances are 0.25, 0.81, 0.01
    let query = [0.0, 0.0, 0.0];
    let scores = document_scores(&kb, &query);
    let index = kb.document_index();
    let hits = index.top_n_ids(&scores, 2);
    assert_eq!(hits.len(), 2);
    assert_eq!(hits[0].1, "near");
    assert_eq!(hits[1].1, "mid");
    assert!(hits[0].0 <= hits[1].0);
}

#[test]
fn knn_with_large_k_returns_all_rows() {
    let mut kb = KnowledgeBase::new(DIM);
    kb.add_documents(&vec![doc("only", "alone", &[1.0, 0.0, 0.0])]).unwrap();
    let scores = document_scores(&kb, &[0.0, 0.0, 0.0]);
    let index = kb.document_index();
    let hits = index.top_n(&scores, 10);
    assert_eq!(hits.len(), 1);
    assert_eq!(hits[0].1, "only");
    assert_eq!(hits[0].2, "alone");
}

#[test]
fn end_to_end_add_search_replace() {
    let mut kb = KnowledgeBase::new(DIM);
    // "hello"-like content sits near the query; the anchor sits in between.
    kb.add_documents(&vec![
        doc("doc1", "hello world", &[0.1, 0.0, 0.0]),
        doc("anchor", "steady text", &[0.5, 0.0, 0.0]),
    ])
    .unwrap();
    let query = [0.0, 0.0, 0.0];

    let scores = document_scores(&kb, &query);
    let hits = kb.store.get_document_by_query(&scores).unwrap();
    assert_eq!(hits.1, "doc1");
    assert!(f64::from_bits(hits.0) >= 0.0);

    // replacing the document regenerates its embedding; it no longer ranks
    // first, and the documents table still holds exactly one doc1 row.
    kb.add_documents(&vec![doc("doc1", "goodbye world", &[0.9, 0.0, 0.0])])
        .unwrap();
    let scores = document_scores(&kb, &query);
    let best = kb.store.get_document_by_query(&scores).unwrap();
    assert_eq!(best.1, "anchor");
    let count = kb.store.documents.iter().filter(|d| d.doc_id == "doc1").count();
    assert_eq!(count, 1);
    assert_eq!(
        kb.store.get_document(&"doc1".to_string()).as_deref(),
        Some("goodbye world")
    );
}

#[test]
fn failed_add_leaves_both_stores_unchanged() {
    let mut kb = KnowledgeBase::new(DIM);
    kb.add_documents(&vec![doc("doc1", "hello", &[0.1, 0.0, 0.0])]).unwrap();
    let docs_before = kb.store.documents.len();
    let vecs_before = kb.store.embeddings.len();
    // a provider returning the wrong dimension fails the whole add
    let bad = DocumentEmbeddings {
        document: Document { id: "doc2".to_string(), content: "bad".to_string() },
        embeddings: vec![vec![0u32; DIM - 1]],
    };
    let r = kb.add_documents(&vec![bad]);
    assert_eq!(r, Err(SqliteError::DatabaseError(DbFault::DimensionMismatch)));
    assert_eq!(kb.store.documents.len(), docs_before);
    assert_eq!(kb.store.embeddings.len(), vecs_before);
}

#[test]
fn failed_message_add_is_atomic() {
    let mut kb = KnowledgeBase::new(DIM);
    let uid = kb
        .create_user("ada".to_string(), "irc".to_string(), "u-1".to_string(), 1)
        .unwrap();
    let cid = kb
        .create_channel("c-1".to_string(), "irc".to_string(), None, 1)
        .unwrap();
    // wrong dimension: refused before anything is written
    let r = kb.create_message(&msg(cid, uid, "hi"), &vec![vec![0u32; DIM + 1]], 5);
    assert_eq!(r, Err(SqliteError::DatabaseError(DbFault::DimensionMismatch)));
    assert_eq!(kb.store.messages.len(), 0);
    assert_eq!(kb.message_vectors.len(), 0);
    // bad foreign key: the relational write fails and no vector is written
    let r = kb.create_message(&msg(999, uid, "hi"), &vec![bits_of(&[0.0, 0.0, 0.0])], 5);
    assert_eq!(r, Err(SqliteError::DatabaseError(DbFault::ConstraintViolation)));
    assert_eq!(kb.store.messages.len(), 0);
    assert_eq!(kb.message_vectors.len(), 0);
}

#[test]
fn message_dual_write_and_search() {
    let mut kb = KnowledgeBase::new(DIM);
    let uid = kb
        .create_user("ada".to_string(), "irc".to_string(), "u-1".to_string(), 1)
        .unwrap();
    let cid = kb
        .create_channel("c-1".to_string(), "irc".to_string(), None, 1)
        .unwrap();
    let m1 = kb
        .create_message(&msg(cid, uid, "the weather is bright"), &vec![bits_of(&[0.1, 0.0, 0.0])], 10)
        .unwrap();
    let m2 = kb
        .create_message(&msg(cid, uid, "stock markets fell"), &vec![bits_of(&[0.9, 0.0, 0.0])], 11)
        .unwrap();
    assert_eq!(kb.message_vectors.len(), 2);

    let query = [0.0, 0.0, 0.0];
    let scores: Vec<u64> = kb
        .message_vectors
        .iter()
        .map(|e| dist_bits(&query, &e.blob))
        .collect();
    let hits = kb.search_messages(&scores, 1);
    assert_eq!(hits.len(), 1);
    assert_eq!(hits[0].1.id, m1);
    assert_eq!(hits[0].1.content, "the weather is bright");
    assert!(m2 > m1);
}

#[test]
fn message_index_ranks_messages() {
    let mut kb = KnowledgeBase::new(DIM);
    let uid = kb
        .create_user("ada".to_string(), "irc".to_string(), "u-1".to_string(), 1)
        .unwrap();
    let cid = kb
        .create_channel("c-1".to_string(), "irc".to_string(), None, 1)
        .unwrap();
    kb.create_message(&msg(cid, uid, "close"), &vec![bits_of(&[0.2, 0.0, 0.0])], 10)
        .unwrap();
    kb.create_message(&msg(cid, uid, "distant"), &vec![bits_of(&[0.8, 0.0, 0.0])], 11)
        .unwrap();
    let query = [0.0, 0.0, 0.0];
    let scores: Vec<u64> = kb
        .message_vectors
        .iter()
        .map(|e| dist_bits(&query, &e.blob))
        .collect();
    let index = kb.message_index();
    let hits = index.top_n(&scores, 2);
    assert_eq!(hits.len(), 2);
    assert_eq!(hits[0].1.content, "close");
    assert_eq!(hits[1].1.content, "distant");
    assert!(hits[0].0 <= hits[1].0);
}

#[test]
fn channel_messages_returns_role_content_pairs() {
    let mut kb = KnowledgeBase::new(DIM);
    let uid = kb
        .create_user("ada".to_string(), "irc".to_string(), "u-1".to_string(), 1)
        .unwrap();
    let cid = kb
        .create_channel("c-1".to_string(), "irc".to_string(), None, 1)
        .unwrap();
    kb.create_message(&msg(cid, uid, "older"), &Vec::new(), 10).unwrap();
    kb.create_message(&msg(cid, uid, "newer"), &Vec::new(), 20).unwrap();
    let pairs = kb.channel_messages(cid, 5);
    assert_eq!(pairs.len(), 2);
    assert_eq!(pairs[0], ("user".to_string(), "newer".to_string()));
    assert_eq!(pairs[1], ("user".to_string(), "older".to_string()));
}

#[test]
fn kb_reads_delegate_to_the_store() {
    let mut kb = KnowledgeBase::new(DIM);
    let uid = kb
        .create_user("ada".to_string(), "irc".to_string(), "u-1".to_string(), 1)
        .unwrap();
    let cid = kb
        .create_channel("c-1".to_string(), "discord".to_string(), Some("general".to_string()), 1)
        .unwrap();
    assert_eq!(kb.get_user_by_source("irc".to_string()).unwrap().id, uid);
    assert_eq!(kb.get_channel(cid).unwrap().name.as_deref(), Some("general"));
    assert_eq!(kb.get_channels_by_source("discord".to_string()).len(), 1);
    let mid = kb
        .create_message(&msg(cid, uid, "only"), &Vec::new(), 9)
        .unwrap();
    assert_eq!(kb.get_message(mid).unwrap().content, "only");
    assert_eq!(kb.get_recent_messages(cid, 10).len(), 1);
    assert_eq!(kb.get_conversation_between_users(uid, uid, 0, 10).len(), 1);
}
