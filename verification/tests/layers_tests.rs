use nextdb::client::client::{format_query_result, ClientCommand, DatabaseClient, QueryResult};
use nextdb::client::error::ClientError;
use nextdb::clock::{millis_of, now_millis, now_nanos};
use nextdb::consensus::error::ConsensusError;
use nextdb::consensus::raft::{NodeId, RaftConfig, RaftNode, RaftState};
use nextdb::error::NextDBError;
use nextdb::server::config::ServerConfig;
use nextdb::server::error::ServerError;
use nextdb::server::server::{classify_query, new_queries, random, scramble, QueryKind, StorageCounters};
use nextdb::transaction::error::TransactionError;
use nextdb::transaction::manager::TransactionManager;
use nextdb::transaction::mvcc::{IsolationLevel, Transaction, TransactionId, TransactionStatus};
use nextdb::types::{PartitionId, Timestamp};
use std::collections::hash_map::DefaultHasher;
use std::hash::{Hash, Hasher};

#[test]
fn test_client_connection() {
    let client = DatabaseClient::new("localhost:5432");
    assert!(client.is_ok());
}

#[test]
fn test_client_query() {
    let client = DatabaseClient::new("localhost:5432").unwrap();

    let result = client.execute_query("SELECT * FROM users").unwrap();
    assert_eq!(result.columns, vec!["id", "name"]);
    assert_eq!(result.rows.len(), 2);
}

#[test]
fn test_raft_node_creation() {
    let config = RaftConfig {
        node_id: NodeId::new(),
        peers: vec![NodeId::new(), NodeId::new()],
        election_timeout_ms: 150,
        heartbeat_interval_ms: 50,
    };

    let node = RaftNode::new(config);
    assert_eq!(node.state(), &RaftState::Follower);
    assert_eq!(node.current_term(), 0);
    assert!(!node.is_leader());
}

#[test]
fn test_raft_proposal_not_leader() {
    let config = RaftConfig {
        node_id: NodeId::new(),
        peers: vec![],
        election_timeout_ms: 150,
        heartbeat_interval_ms: 50,
    };

    let mut node = RaftNode::new(config);
    let result = node.propose(b"test data".to_vec());
    assert!(matches!(result, Err(ConsensusError::NotLeader)));
}

#[test]
fn test_transaction_lifecycle() {
    let mut manager = TransactionManager::new();

    // Begin transaction
    let txn_id = manager.begin(IsolationLevel::ReadCommitted).unwrap();

    // Verify transaction exists
    let txn = manager.get_transaction(&txn_id).unwrap();
    assert!(txn.is_active());

    // Commit transaction
    manager.commit(txn_id).unwrap();

    // Verify transaction is committed
    let txn = manager.get_transaction(&txn_id).unwrap();
    assert!(!txn.is_active());
}

#[test]
fn test_transaction_abort() {
    let mut manager = TransactionManager::new();

    let txn_id = manager.begin(IsolationLevel::RepeatableRead).unwrap();

    // Abort transaction
    manager.abort(txn_id).unwrap();

    // Verify transaction is aborted
    let txn = manager.get_transaction(&txn_id).unwrap();
    assert!(!txn.is_active());
    assert!(matches!(txn.status, TransactionStatus::Aborted));
}

#[test]
fn client_keeps_its_address() {
    let client = DatabaseClient::new("db.example:7000").unwrap();
    assert_eq!(client.connection_string(), "db.example:7000");
    assert!(client.connect().is_ok());
    let result = client.execute_query("anything").unwrap();
    assert_eq!(result.rows, vec![vec!["1", "Alice"], vec!["2", "Bob"]]);
}

#[test]
fn client_reads_the_prompt() {
    assert_eq!(DatabaseClient::interpret("exit\n").0, ClientCommand::Quit);
    assert_eq!(DatabaseClient::interpret("  quit  ").0, ClientCommand::Quit);
    assert_eq!(DatabaseClient::interpret("help").0, ClientCommand::Help);
    assert_eq!(DatabaseClient::interpret("").0, ClientCommand::Skip);
    assert_eq!(DatabaseClient::interpret(" \t\r\n").0, ClientCommand::Skip);
    assert_eq!(DatabaseClient::interpret("EXIT").0, ClientCommand::Query);
    assert_eq!(
        DatabaseClient::interpret("  SELECT * FROM users \n"),
        (ClientCommand::Query, "SELECT * FROM users".to_string())
    );
    assert_eq!(DatabaseClient::interpret("exit now").0, ClientCommand::Query);
}

fn result_of(columns: &[&str], rows: &[&[&str]]) -> QueryResult {
    QueryResult {
        columns: columns.iter().map(|c| c.to_string()).collect(),
        rows: rows.iter().map(|row| row.iter().map(|f| f.to_string()).collect()).collect(),
    }
}

#[test]
fn format_of_the_sample_result() {
    let result = result_of(&["id", "name"], &[&["1", "Alice"], &["2", "Bob"]]);
    assert_eq!(
        format_query_result(&result),
        "| id | name |\n|----|-----|\n| 1 | Alice |\n| 2 | Bob |\n\n(2 rows)\n"
    );
}

#[test]
fn format_rules_are_as_wide_as_the_names_and_three_at_least() {
    let result = result_of(&["a", "four", "sevenup", "äö"], &[]);
    assert_eq!(
        format_query_result(&result),
        "| a | four | sevenup | äö |\n|----|------|---------|-----|\n\n(0 rows)\n"
    );
}

#[test]
fn format_of_results_without_columns_or_fields() {
    assert_eq!(format_query_result(&result_of(&[], &[])), "|  |\n||\n\n(0 rows)\n");
    let result = result_of(&["only"], &[&[], &["x"], &["a", "b", "c"]]);
    assert_eq!(
        format_query_result(&result),
        "| only |\n|----|\n|  |\n| x |\n| a | b | c |\n\n(3 rows)\n"
    );
    let rows: Vec<&[&str]> = vec![&["r"]; 12];
    let text = format_query_result(&result_of(&["c"], &rows));
    assert!(text.ends_with("| r |\n\n(12 rows)\n"));
}

#[test]
fn errors_of_the_layers_say_what_they_are() {
    assert_eq!(ClientError::Connection("c".to_string()).message(), "Connection error: c");
    assert_eq!(ClientError::Query("q".to_string()).message(), "Query error: q");
    assert_eq!(ClientError::Timeout.message(), "Timeout error");
    assert_eq!(ClientError::Authentication.message(), "Authentication failed");
    assert_eq!(ClientError::Network("n".to_string()).message(), "Network error: n");

    assert_eq!(ConsensusError::Io("i".to_string()).message(), "IO error: i");
    assert_eq!(ConsensusError::Serde("s".to_string()).message(), "Serialization error: s");
    assert_eq!(ConsensusError::NotLeader.message(), "Not leader");
    assert_eq!(ConsensusError::ElectionTimeout.message(), "Election timeout");
    assert_eq!(ConsensusError::Network("n".to_string()).message(), "Network error: n");
    assert_eq!(ConsensusError::Config("c".to_string()).message(), "Invalid configuration: c");
    assert_eq!(ConsensusError::Internal("x".to_string()).message(), "Consensus error: x");

    assert_eq!(TransactionError::NotFound("t".to_string()).message(), "Transaction not found: t");
    assert_eq!(TransactionError::Conflict.message(), "Transaction conflict");
    assert_eq!(TransactionError::Aborted.message(), "Transaction aborted");
    assert_eq!(TransactionError::Deadlock.message(), "Deadlock detected");
    assert_eq!(TransactionError::LockTimeout.message(), "Lock timeout");
    assert_eq!(TransactionError::InvalidIsolation.message(), "Invalid isolation level");

    assert_eq!(ServerError::Io("i".to_string()).message(), "IO error: i");
    assert_eq!(ServerError::Serde("s".to_string()).message(), "Serialization error: s");
    assert_eq!(ServerError::Network("n".to_string()).message(), "Network error: n");
    assert_eq!(ServerError::Config("c".to_string()).message(), "Configuration error: c");

    assert_eq!(NextDBError::Storage("s".to_string()).message(), "Storage error: s");
    assert_eq!(NextDBError::Consensus("c".to_string()).message(), "Consensus error: c");
    assert_eq!(NextDBError::Query("q".to_string()).message(), "Query error: q");
    assert_eq!(NextDBError::Transaction("t".to_string()).message(), "Transaction error: t");
    assert_eq!(NextDBError::Network("n".to_string()).message(), "Network error: n");
    assert_eq!(NextDBError::Configuration("c".to_string()).message(), "Configuration error: c");
    assert_eq!(NextDBError::Internal("i".to_string()).message(), "Internal error: i");
}

#[test]
fn raft_follower_keeps_its_log() {
    let config = RaftConfig {
        node_id: NodeId(1),
        peers: vec![NodeId(2)],
        election_timeout_ms: 150,
        heartbeat_interval_ms: 50,
    };
    let mut node = RaftNode::new(config);
    assert_eq!(node.log_len(), 0);
    assert!(node.get_log_entry(0).is_none());
    assert!(node.propose(vec![1]).is_err());
    assert_eq!(node.log_len(), 0);
    assert!(node.get_log_entry(0).is_none());
    assert_eq!(node.current_term(), 0);
}

#[test]
fn node_ids_are_random_uuids() {
    let a = NodeId::new();
    let b = nextdb::types::NodeId::new();
    assert_ne!(a, b);
    // Version 4 and the variant of RFC 9562 stand at their places.
    assert_eq!((a.0 >> 76) & 0xf, 4);
    assert_eq!((a.0 >> 62) & 0x3, 2);
    let text = a.to_string();
    assert_eq!(text.len(), 36);
    assert_eq!(text.as_bytes()[14], b'4');
    assert_eq!(
        NodeId(0xa1a2a3a4b1b2c1c2d1d2d3d4d5d6d7d8).to_string(),
        "a1a2a3a4-b1b2-c1c2-d1d2-d3d4d5d6d7d8"
    );
    let id = TransactionId::new();
    assert_eq!(id.0 & 0x0000_0000_0000_F000_C000_0000_0000_0000, 0x0000_0000_0000_4000_8000_0000_0000_0000);
    assert_ne!(id, nextdb::types::TransactionId::new());
}

#[test]
fn partition_id_and_timestamp() {
    assert_eq!(PartitionId::new(7), PartitionId(7));
    assert_eq!(PartitionId::new(u64::MAX).0, u64::MAX);
    let before = now_millis();
    let stamp = Timestamp::now();
    let after = now_millis();
    assert!(before <= stamp.0 && stamp.0 <= after);
    // A time after the year 2020 and before the year 2100.
    assert!(stamp.0 > 1_577_836_800_000);
    assert!(stamp.0 < 4_102_444_800_000);
    assert!(Timestamp(1) < Timestamp(2));
}

#[test]
fn clock_readings() {
    assert_eq!(millis_of(Ok(5)), 5);
    assert_eq!(millis_of(Ok(u64::MAX as u128)), u64::MAX);
    assert_eq!(millis_of(Ok(u64::MAX as u128 + 3)), 2);
    assert_eq!(millis_of(Err(())), 0);
    let nanos = now_nanos();
    let millis = now_millis();
    let from_nanos = (nanos / 1_000_000) as u64;
    assert!(from_nanos <= millis && millis - from_nanos < 60_000);
}

#[test]
fn transaction_starts_active() {
    let txn = Transaction::new(IsolationLevel::Serializable);
    assert!(txn.is_active());
    assert_eq!(txn.isolation_level, IsolationLevel::Serializable);
    assert_eq!(txn.status, TransactionStatus::Active);
    assert!(txn.start_timestamp > 1_577_836_800_000);

    let txn = Transaction::started(TransactionId(9), IsolationLevel::ReadUncommitted, 123);
    assert_eq!(txn.id, TransactionId(9));
    assert_eq!(txn.start_timestamp, 123);
    assert!(txn.is_active());
    let done = Transaction { status: TransactionStatus::Committed, ..txn };
    assert!(!done.is_active());
}

#[test]
fn transaction_manager_keeps_each_transaction() {
    let mut manager = TransactionManager::new();
    assert_eq!(manager.get_transaction(&TransactionId(1)), None);

    let first = Transaction::started(TransactionId(1), IsolationLevel::ReadCommitted, 10);
    let second = Transaction::started(TransactionId(2), IsolationLevel::Serializable, 20);
    assert_eq!(manager.register(first), TransactionId(1));
    assert_eq!(manager.register(second), TransactionId(2));
    assert_eq!(manager.get_transaction(&TransactionId(1)), Some(first));
    assert_eq!(manager.get_transaction(&TransactionId(2)), Some(second));
    assert_eq!(manager.get_transaction(&TransactionId(3)), None);

    manager.commit(TransactionId(1)).unwrap();
    let committed = manager.get_transaction(&TransactionId(1)).unwrap();
    assert_eq!(committed, Transaction { status: TransactionStatus::Committed, ..first });
    assert_eq!(manager.get_transaction(&TransactionId(2)), Some(second));

    let begun = manager.begin(IsolationLevel::RepeatableRead).unwrap();
    let txn = manager.get_transaction(&begun).unwrap();
    assert_eq!(txn.id, begun);
    assert_eq!(txn.isolation_level, IsolationLevel::RepeatableRead);
    assert!(txn.is_active());
}

#[test]
fn transaction_manager_refuses_what_it_does_not_know() {
    let mut manager = TransactionManager::new();
    let id = TransactionId(0xa1a2a3a4b1b2c1c2d1d2d3d4d5d6d7d8);
    match manager.commit(id) {
        Err(TransactionError::NotFound(text)) => {
            assert_eq!(text, "a1a2a3a4-b1b2-c1c2-d1d2-d3d4d5d6d7d8")
        }
        other => panic!("Expected NotFound, got {:?}", other),
    }
    assert!(matches!(manager.abort(id), Err(TransactionError::NotFound(_))));

    // A transaction commits once.
    manager.register(Transaction::started(id, IsolationLevel::ReadCommitted, 0));
    manager.commit(id).unwrap();
    assert!(matches!(manager.commit(id), Err(TransactionError::NotFound(_))));
    assert_eq!(manager.get_transaction(&id).unwrap().status, TransactionStatus::Committed);

    // Aborting takes a transaction in any state.
    manager.abort(id).unwrap();
    assert_eq!(manager.get_transaction(&id).unwrap().status, TransactionStatus::Aborted);
    manager.abort(id).unwrap();
    assert!(matches!(manager.commit(id), Err(TransactionError::NotFound(_))));
    assert_eq!(manager.get_transaction(&id).unwrap().status, TransactionStatus::Aborted);
}

#[test]
fn server_config() {
    let config = ServerConfig::new(9000);
    assert_eq!(config.bind_address, "0.0.0.0");
    assert_eq!(config.port, 9000);
    let config = ServerConfig::default();
    assert_eq!(config.bind_address, "0.0.0.0");
    assert_eq!(config.port, 8080);
}

#[test]
fn server_classifies_queries() {
    assert_eq!(classify_query("SELECT * FROM t"), QueryKind::Select);
    assert_eq!(classify_query("insert into t select 1"), QueryKind::Select);
    assert_eq!(classify_query("INSERT INTO t VALUES (1)"), QueryKind::Insert);
    assert_eq!(classify_query("reinserted"), QueryKind::Insert);
    assert_eq!(classify_query("DELETE FROM t"), QueryKind::Unsupported);
    assert_eq!(classify_query(""), QueryKind::Unsupported);
    assert_eq!(classify_query("sel ect"), QueryKind::Unsupported);
}

#[test]
fn server_scrambles_as_the_default_hasher_does() {
    for x in [0u128, 1, 0x0102030405060708090a0b0c0d0e0f10, u128::MAX] {
        let mut hasher = DefaultHasher::new();
        hasher.write(&x.to_le_bytes());
        assert_eq!(scramble(x), hasher.finish());
    }
    // On a machine that keeps the least significant byte first, this is
    // what hashing the number itself gives.
    if 1u16.to_ne_bytes() == 1u16.to_le_bytes() {
        let x = 1_700_000_000_123_456_789u128;
        let mut hasher = DefaultHasher::new();
        x.hash(&mut hasher);
        assert_eq!(scramble(x), hasher.finish());
    }
    assert_ne!(scramble(1), 1);
    let _ = random();
}

#[test]
fn server_counters_step() {
    let mut counters = StorageCounters::initial();
    assert_eq!(counters.memtable_size, 1024 * 1024);
    assert_eq!(counters.sstable_count, 5);
    assert_eq!(counters.total_keys, 10000);
    assert_eq!(counters.total_size_bytes, 100 * 1024 * 1024);
    assert_eq!(counters.compaction_count, 0);

    counters.step(false);
    assert_eq!(counters.total_keys, 10150);
    assert_eq!(counters.total_size_bytes, 100 * 1024 * 1024 + 614400);
    assert_eq!(counters.memtable_size, 1024 * 1024 + 2048);
    assert_eq!(counters.sstable_count, 5);
    assert_eq!(counters.compaction_count, 0);

    counters.step(true);
    assert_eq!(counters.sstable_count, 6);
    assert_eq!(counters.compaction_count, 1);

    counters.memtable_size = 63_999_000;
    counters.step(false);
    assert_eq!(counters.memtable_size, 1048);

    assert_eq!(new_queries(0), 50);
    assert_eq!(new_queries(99), 149);
    assert_eq!(new_queries(100), 50);
    assert_eq!(new_queries(u64::MAX), 50 + 15);
}
