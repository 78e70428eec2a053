use foobar_db::command::{Command, CommandError};
use foobar_db::db::DB;
use foobar_db::resp::RespValue;
use foobar_db::storage::DashMapStorage;

#[test]
fn test_parse_get_command() {
    let resp = RespValue::Array(Some(vec![
        RespValue::BulkString(Some(b"GET".to_vec())),
        RespValue::BulkString(Some(b"mykey".to_vec())),
    ]));

    match Command::from_resp(resp) {
        Ok(Command::Get { key }) => assert_eq!(key, b"mykey".to_vec()),
        _ => panic!("Failed to parse GET command"),
    }
}

#[test]
fn test_parse_set_command() {
    let resp = RespValue::Array(Some(vec![
        RespValue::BulkString(Some(b"SET".to_vec())),
        RespValue::BulkString(Some(b"mykey".to_vec())),
        RespValue::BulkString(Some(b"myvalue".to_vec())),
    ]));

    match Command::from_resp(resp) {
        Ok(Command::SetCmd { key, value }) => {
            assert_eq!(key, b"mykey".to_vec());
            assert_eq!(value, b"myvalue".to_vec());
        }
        _ => panic!("Failed to parse SET command"),
    }
}

#[test]
fn test_invalid_command() {
    let resp = RespValue::SimpleString(b"NOT_AN_ARRAY".to_vec());
    assert!(Command::from_resp(resp).is_err());
}

#[test]
fn test_lowercase_verb() {
    let resp = RespValue::Array(Some(vec![
        RespValue::BulkString(Some(b"ping".to_vec())),
    ]));
    match Command::from_resp(resp) {
        Ok(Command::Ping) => (),
        other => panic!("Expected Ping, got {:?}", other),
    }
}

#[test]
fn test_wrong_arity() {
    // Each verb of the arity table, called with a wrong element count, is
    // refused as WrongNumberOfArguments before any execution.
    let cases: Vec<(&[u8], usize)> = vec![
        (b"GET", 3),
        (b"SET", 2),
        (b"DEL", 1),
        (b"LPUSH", 2),
        (b"RPUSH", 2),
        (b"LPOP", 1),
        (b"RPOP", 3),
        (b"SADD", 2),
        (b"SREM", 1),
        (b"HSET", 3),
        (b"HGET", 2),
        (b"PING", 2),
        (b"ECHO", 1),
        (b"INFO", 2),
        (b"COMMAND", 2),
    ];
    for (verb, count) in cases {
        let mut elems = vec![RespValue::BulkString(Some(verb.to_vec()))];
        for i in 1..count {
            elems.push(RespValue::BulkString(Some(format!("a{}", i).into_bytes())));
        }
        let resp = RespValue::Array(Some(elems));
        match Command::from_resp(resp) {
            Err(CommandError::WrongNumberOfArguments { .. }) => (),
            other => panic!(
                "verb {:?} with {} elements: expected arity error, got {:?}",
                String::from_utf8_lossy(verb),
                count,
                other
            ),
        }
    }
}

#[test]
fn test_empty_command() {
    let resp = RespValue::Array(Some(Vec::new()));
    match Command::from_resp(resp) {
        Err(CommandError::EmptyCommand) => (),
        other => panic!("Expected EmptyCommand, got {:?}", other),
    }
}

#[test]
fn test_invalid_argument_type() {
    let resp = RespValue::Array(Some(vec![
        RespValue::BulkString(Some(b"GET".to_vec())),
        RespValue::Integer(5),
    ]));
    match Command::from_resp(resp) {
        Err(CommandError::InvalidArgumentType) => (),
        other => panic!("Expected InvalidArgumentType, got {:?}", other),
    }
}

#[test]
fn test_invalid_command_name() {
    let resp = RespValue::Array(Some(vec![RespValue::Integer(1)]));
    match Command::from_resp(resp) {
        Err(CommandError::InvalidCommandName) => (),
        other => panic!("Expected InvalidCommandName, got {:?}", other),
    }
}

#[test]
fn test_unknown_command_parses() {
    let resp = RespValue::Array(Some(vec![
        RespValue::BulkString(Some(b"NOPE".to_vec())),
    ]));
    match Command::from_resp(resp) {
        Ok(Command::Unknown { command }) => assert_eq!(command, b"NOPE".to_vec()),
        other => panic!("Expected Unknown, got {:?}", other),
    }
}

#[test]
fn test_exec_unknown_fails() {
    let mut db = DB::new(DashMapStorage::new());
    let cmd = Command::Unknown { command: b"NOPE".to_vec() };
    match cmd.exec(&mut db) {
        Err(CommandError::UnknownCommand(name)) => assert_eq!(name, b"NOPE".to_vec()),
        other => panic!("Expected UnknownCommand, got {:?}", other),
    }
}

#[test]
fn test_exec_reserved_not_implemented() {
    let mut db = DB::new(DashMapStorage::new());
    let cmd = Command::LPop { key: b"k".to_vec() };
    match cmd.exec(&mut db) {
        Err(CommandError::NotImplemented) => (),
        other => panic!("Expected NotImplemented, got {:?}", other),
    }
}

#[test]
fn test_exec_set_get_del() {
    let mut db = DB::new(DashMapStorage::new());
    let set = Command::SetCmd { key: b"k".to_vec(), value: b"v".to_vec() };
    match set.exec(&mut db) {
        Ok(RespValue::SimpleString(s)) => assert_eq!(s, b"OK".to_vec()),
        other => panic!("Expected +OK, got {:?}", other),
    }
    let get = Command::Get { key: b"k".to_vec() };
    match get.exec(&mut db) {
        Ok(RespValue::BulkString(Some(v))) => assert_eq!(v, b"v".to_vec()),
        other => panic!("Expected stored value, got {:?}", other),
    }
    let del = Command::Del { keys: vec![b"k".to_vec()] };
    match del.exec(&mut db) {
        Ok(RespValue::SimpleString(s)) => assert_eq!(s, b"OK".to_vec()),
        other => panic!("Expected +OK, got {:?}", other),
    }
    let get2 = Command::Get { key: b"k".to_vec() };
    match get2.exec(&mut db) {
        Ok(RespValue::Null) => (),
        other => panic!("Expected Null after delete, got {:?}", other),
    }
}

#[test]
fn test_error_messages() {
    assert_eq!(
        CommandError::InvalidCommandName.as_error_msg(),
        "-ERR invalid command name"
    );
    assert_eq!(
        CommandError::EmptyCommand.as_error_msg(),
        "-ERR empty command"
    );
    assert_eq!(
        CommandError::NotImplemented.as_error_msg(),
        "-ERR command not implemented"
    );
    assert_eq!(
        CommandError::UnknownCommand(b"X".to_vec()).as_error_msg(),
        "-ERR unknown command"
    );
    assert_eq!(
        CommandError::WrongNumberOfArguments { command: b"get".to_vec() }.as_error_msg(),
        "-ERR wrong number of arguments"
    );
    assert_eq!(
        CommandError::InvalidArgumentType.as_error_msg(),
        "-ERR invalid argument type"
    );
}
