use foobar_db::db::DB;
use foobar_db::session::{ClientSession, ServerConfig};
use foobar_db::storage::DashMapStorage;

fn fresh() -> (ClientSession, DB<DashMapStorage>) {
    (ClientSession::new(10, 1024), DB::new(DashMapStorage::new()))
}

#[test]
fn test_set_then_get() {
    let (mut session, mut db) = fresh();
    let (reply, close) =
        session.process_input(&mut db, b"*3\r\n$3\r\nSET\r\n$3\r\nkey\r\n$5\r\nvalue\r\n");
    assert_eq!(reply, b"+OK\r\n".to_vec());
    assert!(!close);
    let (reply, close) = session.process_input(&mut db, b"*2\r\n$3\r\nGET\r\n$3\r\nkey\r\n");
    assert_eq!(reply, b"$5\r\nvalue\r\n".to_vec());
    assert!(!close);
}

#[test]
fn test_get_missing() {
    let (mut session, mut db) = fresh();
    let (reply, close) = session.process_input(&mut db, b"*2\r\n$3\r\nGET\r\n$7\r\nmissing\r\n");
    assert_eq!(reply, b"$-1\r\n".to_vec());
    assert!(!close);
}

#[test]
fn test_ping() {
    let (mut session, mut db) = fresh();
    let (reply, close) = session.process_input(&mut db, b"*1\r\n$4\r\nPING\r\n");
    assert_eq!(reply, b"+PONG\r\n".to_vec());
    assert!(!close);
}

#[test]
fn test_info() {
    let (mut session, mut db) = fresh();
    let (reply, close) = session.process_input(&mut db, b"*1\r\n$4\r\nINFO\r\n");
    assert!(!close);
    assert!(reply.starts_with(b"$"));
    let text = String::from_utf8_lossy(&reply);
    assert!(text.contains("mode:standalone"));
}

#[test]
fn test_command_verb() {
    let (mut session, mut db) = fresh();
    let (reply, close) = session.process_input(&mut db, b"*1\r\n$7\r\nCOMMAND\r\n");
    assert_eq!(reply, b"+OK\r\n".to_vec());
    assert!(!close);
}

#[test]
fn test_unknown_command() {
    let (mut session, mut db) = fresh();
    let (reply, close) = session.process_input(&mut db, b"*1\r\n$7\r\nUNKNOWN\r\n");
    assert!(reply.starts_with(b"-ERR"));
    assert!(!close);
    // The connection stays open: the next valid command succeeds.
    let (reply, close) = session.process_input(&mut db, b"*1\r\n$4\r\nPING\r\n");
    assert_eq!(reply, b"+PONG\r\n".to_vec());
    assert!(!close);
}

#[test]
fn test_streamed_parse() {
    // The SET request delivered one byte at a time across 33 cycles behaves
    // exactly as one delivery: one +OK, same stored value.
    let (mut session, mut db) = fresh();
    let bytes: &[u8] = b"*3\r\n$3\r\nSET\r\n$3\r\nkey\r\n$5\r\nvalue\r\n";
    assert!(bytes.len() >= 30);
    let mut all_replies: Vec<u8> = Vec::new();
    for i in 0..bytes.len() {
        let (reply, close) = session.process_input(&mut db, &bytes[i..i + 1]);
        assert!(!close);
        all_replies.extend_from_slice(&reply);
    }
    assert_eq!(all_replies, b"+OK\r\n".to_vec());
    let (reply, close) = session.process_input(&mut db, b"*2\r\n$3\r\nGET\r\n$3\r\nkey\r\n");
    assert_eq!(reply, b"$5\r\nvalue\r\n".to_vec());
    assert!(!close);
}

#[test]
fn test_pipelined_requests() {
    // Two requests in one read are answered in request order, in one write.
    let (mut session, mut db) = fresh();
    let (reply, close) = session.process_input(
        &mut db,
        b"*3\r\n$3\r\nSET\r\n$1\r\nk\r\n$1\r\nv\r\n*2\r\n$3\r\nGET\r\n$1\r\nk\r\n",
    );
    assert_eq!(reply, b"+OK\r\n$1\r\nv\r\n".to_vec());
    assert!(!close);
}

#[test]
fn test_parser_error_closes() {
    let (mut session, mut db) = fresh();
    let (reply, close) = session.process_input(&mut db, b"q");
    assert_eq!(reply, Vec::<u8>::new());
    assert!(close);
}

#[test]
fn test_depth_exceeded_closes() {
    let (mut session, mut db) = fresh();
    let mut bytes = Vec::new();
    for _ in 0..11 {
        bytes.extend_from_slice(b"*1\r\n");
    }
    let (reply, close) = session.process_input(&mut db, &bytes);
    assert_eq!(reply, Vec::<u8>::new());
    assert!(close);
}

#[test]
fn test_default_config() {
    let config = ServerConfig::default();
    assert_eq!(config.host, "127.0.0.1");
    assert_eq!(config.port, 6379);
    assert_eq!(config.max_connections, 1000);
}

#[test]
fn test_del_returns_ok() {
    let (mut session, mut db) = fresh();
    let (_, _) = session.process_input(&mut db, b"*3\r\n$3\r\nSET\r\n$1\r\nk\r\n$1\r\nv\r\n");
    let (reply, close) = session.process_input(&mut db, b"*2\r\n$3\r\nDEL\r\n$1\r\nk\r\n");
    assert_eq!(reply, b"+OK\r\n".to_vec());
    assert!(!close);
    let (reply, _) = session.process_input(&mut db, b"*2\r\n$3\r\nGET\r\n$1\r\nk\r\n");
    assert_eq!(reply, b"$-1\r\n".to_vec());
}

#[test]
fn test_echo_not_implemented() {
    let (mut session, mut db) = fresh();
    let (reply, close) = session.process_input(&mut db, b"*2\r\n$4\r\nECHO\r\n$2\r\nhi\r\n");
    assert_eq!(reply, b"-ERR command not implemented\r\n".to_vec());
    assert!(!close);
}

#[test]
fn test_wrong_arity_reply() {
    let (mut session, mut db) = fresh();
    let (reply, close) = session.process_input(&mut db, b"*1\r\n$3\r\nGET\r\n");
    assert_eq!(reply, b"-ERR wrong number of arguments\r\n".to_vec());
    assert!(!close);
}
