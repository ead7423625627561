use asuka_core::records::{DbFault, Document, SqliteError};
use asuka_core::store::{DocumentEmbeddings, SqliteStore};

const DIM: usize = 3;

fn bits_of(values: &[f64]) -> Vec<u32> {
    values.iter().map(|x| (*x as f32).to_bits()).collect()
}

fn doc(id: &str, content: &str, vectors: &[&[f64]]) -> DocumentEmbeddings {
    DocumentEmbeddings {
        document: Document { id: id.to_string(), content: content.to_string() },
        embeddings: vectors.iter().map(|v| bits_of(v)).collect(),
    }
}

#[test]
fn upsert_account_is_idempotent() {
    let mut s = SqliteStore::new(DIM);
    let id1 = s
        .create_user("ada".to_string(), "irc".to_string(), "u-1".to_string(), 100)
        .unwrap();
    let id2 = s
        .create_user("ada".to_string(), "irc".to_string(), "u-1".to_string(), 200)
        .unwrap();
    assert_eq!(id1, id2);
    assert_eq!(s.accounts.len(), 1);
    assert_eq!(s.accounts[0].created_at, 100);
    assert_eq!(s.accounts[0].updated_at, 200);
}

#[test]
fn upsert_account_rejects_duplicate_source_pair() {
    let mut s = SqliteStore::new(DIM);
    s.create_user("ada".to_string(), "irc".to_string(), "u-1".to_string(), 100)
        .unwrap();
    let r = s.create_user("grace".to_string(), "irc".to_string(), "u-1".to_string(), 101);
    assert_eq!(r, Err(SqliteError::DatabaseError(DbFault::ConstraintViolation)));
    assert_eq!(s.accounts.len(), 1);
}

#[test]
fn get_user_by_source_returns_first_match() {
    let mut s = SqliteStore::new(DIM);
    s.create_user("ada".to_string(), "irc".to_string(), "u-1".to_string(), 100)
        .unwrap();
    s.create_user("grace".to_string(), "irc".to_string(), "u-2".to_string(), 101)
        .unwrap();
    let a = s.get_user_by_source("irc".to_string()).unwrap();
    assert_eq!(a.name, "ada");
    assert!(s.get_user_by_source("mail".to_string()).is_none());
}

#[test]
fn upsert_channel_coalesces_name() {
    let mut s = SqliteStore::new(DIM);
    let id1 = s
        .create_channel("c-9".to_string(), "discord".to_string(), Some("general".to_string()), 5)
        .unwrap();
    let id2 = s
        .create_channel("c-9".to_string(), "discord".to_string(), None, 6)
        .unwrap();
    assert_eq!(id1, id2);
    assert_eq!(s.channels.len(), 1);
    assert_eq!(s.channels[0].name.as_deref(), Some("general"));
    assert_eq!(s.channels[0].updated_at, 6);
    let id3 = s
        .create_channel("c-9".to_string(), "discord".to_string(), Some("lobby".to_string()), 7)
        .unwrap();
    assert_eq!(id3, id1);
    assert_eq!(s.channels[0].name.as_deref(), Some("lobby"));
}

#[test]
fn channels_by_source_keeps_insertion_order() {
    let mut s = SqliteStore::new(DIM);
    s.create_channel("a".to_string(), "discord".to_string(), None, 1).unwrap();
    s.create_channel("b".to_string(), "irc".to_string(), None, 2).unwrap();
    s.create_channel("c".to_string(), "discord".to_string(), None, 3).unwrap();
    let found = s.get_channels_by_source("discord".to_string());
    let ids: Vec<&str> = found.iter().map(|c| c.channel_id.as_str()).collect();
    assert_eq!(ids, vec!["a", "c"]);
}

#[test]
fn message_insert_checks_foreign_keys() {
    let mut s = SqliteStore::new(DIM);
    let before = s.messages.len();
    let r = s.create_message(77, 1, None, "user".to_string(), "hi".to_string(), 10);
    assert_eq!(r, Err(SqliteError::DatabaseError(DbFault::ConstraintViolation)));
    assert_eq!(s.messages.len(), before);

    let uid = s
        .create_user("ada".to_string(), "irc".to_string(), "u-1".to_string(), 1)
        .unwrap();
    let r2 = s.create_message(77, uid, None, "user".to_string(), "hi".to_string(), 10);
    assert_eq!(r2, Err(SqliteError::DatabaseError(DbFault::ConstraintViolation)));
    assert_eq!(s.messages.len(), before);

    let cid = s
        .create_channel("c-1".to_string(), "irc".to_string(), None, 2)
        .unwrap();
    let mid = s
        .create_message(cid, uid, None, "user".to_string(), "hi".to_string(), 10)
        .unwrap();
    assert_eq!(s.messages.len(), before + 1);
    let m = s.get_message(mid).unwrap();
    assert_eq!(m.content, "hi");
    assert_eq!(m.channel_id, cid);
}

#[test]
fn recent_messages_are_newest_first_with_limit() {
    let mut s = SqliteStore::new(DIM);
    let uid = s
        .create_user("ada".to_string(), "irc".to_string(), "u-1".to_string(), 1)
        .unwrap();
    let cid = s.create_channel("c".to_string(), "irc".to_string(), None, 1).unwrap();
    let other = s.create_channel("d".to_string(), "irc".to_string(), None, 1).unwrap();
    for (text, at) in [("one", 10), ("two", 30), ("three", 20)] {
        s.create_message(cid, uid, None, "user".to_string(), text.to_string(), at)
            .unwrap();
    }
    s.create_message(other, uid, None, "user".to_string(), "elsewhere".to_string(), 99)
        .unwrap();
    let recent = s.get_recent_messages(cid, 2);
    let texts: Vec<&str> = recent.iter().map(|m| m.content.as_str()).collect();
    assert_eq!(texts, vec!["two", "three"]);
    let all = s.get_messages_by_channel(cid);
    let texts: Vec<&str> = all.iter().map(|m| m.content.as_str()).collect();
    assert_eq!(texts, vec!["one", "three", "two"]);
}

#[test]
fn recent_messages_break_timestamp_ties_by_insertion() {
    let mut s = SqliteStore::new(DIM);
    let uid = s
        .create_user("ada".to_string(), "irc".to_string(), "u-1".to_string(), 1)
        .unwrap();
    let cid = s.create_channel("c".to_string(), "irc".to_string(), None, 1).unwrap();
    for text in ["first", "second", "third"] {
        s.create_message(cid, uid, None, "user".to_string(), text.to_string(), 50)
            .unwrap();
    }
    let recent = s.get_recent_messages(cid, 3);
    let texts: Vec<&str> = recent.iter().map(|m| m.content.as_str()).collect();
    assert_eq!(texts, vec!["first", "second", "third"]);
}

#[test]
fn conversation_between_users_filters_and_orders() {
    let mut s = SqliteStore::new(DIM);
    let a = s
        .create_user("ada".to_string(), "irc".to_string(), "u-1".to_string(), 1)
        .unwrap();
    let b = s
        .create_user("bob".to_string(), "irc".to_string(), "u-2".to_string(), 1)
        .unwrap();
    let cid = s.create_channel("c".to_string(), "irc".to_string(), None, 1).unwrap();
    s.create_message(cid, a, None, "user".to_string(), "early".to_string(), 5)
        .unwrap();
    s.create_message(cid, a, None, "user".to_string(), "question".to_string(), 20)
        .unwrap();
    s.create_message(cid, b, Some(a), "assistant".to_string(), "answer".to_string(), 30)
        .unwrap();
    s.create_message(cid, b, None, "assistant".to_string(), "aside".to_string(), 25)
        .unwrap();
    let msgs = s.get_conversation_between_users(a, b, 10, 10);
    let texts: Vec<&str> = msgs.iter().map(|m| m.content.as_str()).collect();
    assert_eq!(texts, vec!["question", "answer"]);
}

#[test]
fn conversations_crud() {
    let mut s = SqliteStore::new(DIM);
    let c1 = s.create_conversation(7, "plans".to_string(), 2).unwrap();
    let c2 = s.create_conversation(8, "notes".to_string(), 3).unwrap();
    let c3 = s.create_conversation(7, "more".to_string(), 4).unwrap();
    assert_ne!(c1, c2);
    assert_eq!(s.get_conversation(c2).unwrap().title, "notes");
    assert!(s.get_conversation(999).is_none());
    let mine = s.get_conversations_by_user(7);
    let titles: Vec<&str> = mine.iter().map(|c| c.title.as_str()).collect();
    assert_eq!(titles, vec!["plans", "more"]);
    assert_eq!(c3, c1 + 2);
}

#[test]
fn add_documents_writes_rows_and_vectors() {
    let mut s = SqliteStore::new(DIM);
    s.add_documents(&vec![
        doc("doc1", "hello world", &[&[1.0, 0.0, 0.0]]),
        doc("doc2", "quiet evening", &[&[0.0, 1.0, 0.0], &[0.0, 0.0, 1.0]]),
    ])
    .unwrap();
    assert_eq!(s.documents.len(), 2);
    assert_eq!(s.embeddings.len(), 3);
    assert_eq!(
        s.get_document(&"doc1".to_string()).as_deref(),
        Some("hello world")
    );
    assert!(s.get_document(&"doc3".to_string()).is_none());
    let embs = s.get_document_embeddings(&"doc2".to_string()).unwrap();
    assert_eq!(embs.len(), 2);
    assert_eq!(embs[0], bits_of(&[0.0, 1.0, 0.0]));
    assert_eq!(embs[1], bits_of(&[0.0, 0.0, 1.0]));
}

#[test]
fn add_documents_replaces_on_same_identifier() {
    let mut s = SqliteStore::new(DIM);
    s.add_documents(&vec![doc("doc1", "hello world", &[&[1.0, 0.0, 0.0]])])
        .unwrap();
    s.add_documents(&vec![doc("doc1", "goodbye world", &[&[0.0, 1.0, 0.0]])])
        .unwrap();
    let count = s.documents.iter().filter(|d| d.doc_id == "doc1").count();
    assert_eq!(count, 1);
    assert_eq!(s.embeddings.len(), 1);
    assert_eq!(
        s.get_document(&"doc1".to_string()).as_deref(),
        Some("goodbye world")
    );
    let embs = s.get_document_embeddings(&"doc1".to_string()).unwrap();
    assert_eq!(embs, vec![bits_of(&[0.0, 1.0, 0.0])]);
}

#[test]
fn add_documents_is_atomic_on_bad_dimension() {
    let mut s = SqliteStore::new(DIM);
    s.add_documents(&vec![doc("doc1", "hello", &[&[1.0, 0.0, 0.0]])])
        .unwrap();
    let r = s.add_documents(&vec![
        doc("doc2", "fine", &[&[0.0, 1.0, 0.0]]),
        doc("doc3", "broken", &[&[0.5, 0.5]]),
    ]);
    assert_eq!(r, Err(SqliteError::DatabaseError(DbFault::DimensionMismatch)));
    assert_eq!(s.documents.len(), 1);
    assert_eq!(s.embeddings.len(), 1);
    assert!(s.get_document(&"doc2".to_string()).is_none());
}

#[test]
fn document_by_query_returns_nearest() {
    let mut s = SqliteStore::new(DIM);
    s.add_documents(&vec![
        doc("near", "close by", &[&[1.0, 0.0, 0.0]]),
        doc("far", "far away", &[&[0.0, 1.0, 0.0]]),
    ])
    .unwrap();
    let scores: Vec<u64> = vec![(0.1f64).to_bits(), (0.9f64).to_bits()];
    let (d, id) = s.get_document_by_query(&scores).unwrap();
    assert_eq!(id, "near");
    assert_eq!(d, (0.1f64).to_bits());
    let empty = SqliteStore::new(DIM);
    assert!(empty.get_document_by_query(&Vec::new()).is_none());
}
